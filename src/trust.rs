use vstd::prelude::*;
use vstd::string::*;

verus! {

/// The SHA-1 digest of the UTF-8 encoding of `text`, in lowercase hex.
pub uninterp spec fn sha1_hex_of(text: Seq<char>) -> Seq<char>;

/// Relies on sha1 (`Sha1::new`, `update`, `digest`, and the `Display` of its
/// `Digest`): the SHA-1 digest of the bytes of `text`, written as 40 lowercase
/// hex digits.
#[verifier::external_body]
fn sha1_hex(text: &str) -> (r: String)
    ensures
        r@ == sha1_hex_of(text@),
        r@.len() == 40,
{
    let mut h = sha1::Sha1::new();
    h.update(text.as_bytes());
    h.digest().to_string()
}

/// The content address of a configuration file: the digest of its full path
/// followed by its exact content. Trust markers are named by it, so that any edit
/// of the file revokes its trust.
pub fn compute_hash(path: &str, content: &str) -> (r: String)
    ensures
        r@ == sha1_hex_of(path@ + content@),
        r@.len() == 40,
{
    let hashed = String::from_str(path).concat(content);
    sha1_hex(hashed.as_str())
}

} // verus!
