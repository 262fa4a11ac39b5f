//! Per-directory environment loading: `.env` directives, a trust store keyed by
//! content, and a stack of directory effects that can be undone exactly.

pub mod envfile;
pub mod output;
pub mod trust;
pub mod vars;
pub mod stack;
pub mod laws;
pub mod rerun;
