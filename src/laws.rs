use vstd::prelude::*;
use crate::envfile::ChangeV;
use crate::vars::{insert_all, to_map, VarsV};
use crate::stack::{
    lemma_nested, contains_dir, dir_effect, kept_count, kept_from, load_spec, merged, run_files, undone, EntryV,
};

verus! {

/// Whether an entry took effect on variable `v`.
pub open spec fn touches(e: EntryV, v: Seq<char>) -> bool {
    e.allowed && to_map(e.before).contains_key(v)
}

/// Whether a directory's file, applied, has a directive on variable `v`.
pub open spec fn file_touches(f: (Seq<char>, bool, Seq<(Seq<char>, ChangeV)>), v: Seq<char>) -> bool {
    f.1 && exists|j: int| 0 <= j < f.2.len() && (#[trigger] f.2[j]).0 == v
}

proof fn lemma_insert_all_keeps(m: Map<Seq<char>, Option<Seq<char>>>, b: VarsV, v: Seq<char>)
    requires
        !to_map(b).contains_key(v),
    ensures
        insert_all(m, b).contains_key(v) == m.contains_key(v),
        m.contains_key(v) ==> insert_all(m, b)[v] == m[v],
    decreases b.len(),
{
    if b.len() > 0 {
        lemma_insert_all_keeps(m, b.drop_last(), v);
        lemma_insert_all_keeps(Map::empty(), b.drop_last(), v);
    }
}

proof fn lemma_insert_all_overrides(m: Map<Seq<char>, Option<Seq<char>>>, b: VarsV, v: Seq<char>)
    requires
        to_map(b).contains_key(v),
    ensures
        insert_all(m, b).contains_key(v),
        insert_all(m, b)[v] == to_map(b)[v],
    decreases b.len(),
{
    if b.len() > 0 && b.last().0 != v {
        lemma_insert_all_overrides(m, b.drop_last(), v);
    }
}

proof fn lemma_merged_untouched(e: Seq<EntryV>, m: Map<Seq<char>, Option<Seq<char>>>, v: Seq<char>)
    requires
        forall|l: int| 0 <= l < e.len() ==> !touches(#[trigger] e[l], v),
    ensures
        merged(e, m).contains_key(v) == m.contains_key(v),
        m.contains_key(v) ==> merged(e, m)[v] == m[v],
    decreases e.len(),
{
    if e.len() > 0 {
        let last = e.last();
        assert(!touches(e[e.len() - 1], v));
        let m1 = if last.allowed {
            insert_all(m, last.before)
        } else {
            m
        };
        if last.allowed {
            lemma_insert_all_keeps(m, last.before, v);
        }
        lemma_merged_untouched(e.drop_last(), m1, v);
    }
}

proof fn lemma_merged_first(e: Seq<EntryV>, m: Map<Seq<char>, Option<Seq<char>>>, v: Seq<char>, k: int)
    requires
        0 <= k < e.len(),
        touches(e[k], v),
        forall|l: int| 0 <= l < k ==> !touches(#[trigger] e[l], v),
    ensures
        merged(e, m).contains_key(v),
        merged(e, m)[v] == to_map(e[k].before)[v],
    decreases e.len(),
{
    let last = e.last();
    let m1 = if last.allowed {
        insert_all(m, last.before)
    } else {
        m
    };
    if k == e.len() - 1 {
        lemma_insert_all_overrides(m, last.before, v);
        lemma_merged_untouched(e.drop_last(), m1, v);
    } else {
        lemma_merged_first(e.drop_last(), m1, v, k);
    }
}

proof fn lemma_dir_effect_untouched(
    work: Map<Seq<char>, Option<Seq<char>>>,
    amb: Map<Seq<char>, Option<Seq<char>>>,
    ds: Seq<(Seq<char>, ChangeV)>,
    v: Seq<char>,
)
    requires
        forall|j: int| 0 <= j < ds.len() ==> (#[trigger] ds[j]).0 != v,
    ensures
        dir_effect(work, amb, ds).0.contains_key(v) == work.contains_key(v),
        work.contains_key(v) ==> dir_effect(work, amb, ds).0[v] == work[v],
    decreases ds.len(),
{
    if ds.len() > 0 {
        assert(ds[ds.len() - 1].0 != v);
        lemma_dir_effect_untouched(work, amb, ds.drop_last(), v);
    }
}

proof fn lemma_run_files_untouched(
    work: Map<Seq<char>, Option<Seq<char>>>,
    amb: Map<Seq<char>, Option<Seq<char>>>,
    fs: Seq<(Seq<char>, bool, Seq<(Seq<char>, ChangeV)>)>,
    v: Seq<char>,
)
    requires
        forall|i: int| 0 <= i < fs.len() ==> !file_touches(#[trigger] fs[i], v),
    ensures
        run_files(work, amb, fs).0.contains_key(v) == work.contains_key(v),
        work.contains_key(v) ==> run_files(work, amb, fs).0[v] == work[v],
    decreases fs.len(),
{
    if fs.len() > 0 {
        let f = fs[fs.len() - 1];
        assert(!file_touches(f, v));
        lemma_run_files_untouched(work, amb, fs.drop_last(), v);
        if f.1 {
            let prev = run_files(work, amb, fs.drop_last());
            assert forall|j: int| 0 <= j < f.2.len() implies (#[trigger] f.2[j]).0 != v by {}
            lemma_dir_effect_untouched(prev.0, amb, f.2, v);
        }
    }
}

proof fn lemma_run_files_shape(
    work: Map<Seq<char>, Option<Seq<char>>>,
    amb: Map<Seq<char>, Option<Seq<char>>>,
    fs: Seq<(Seq<char>, bool, Seq<(Seq<char>, ChangeV)>)>,
)
    ensures
        run_files(work, amb, fs).1.len() == fs.len(),
        forall|i: int|
            0 <= i < fs.len() ==> (#[trigger] run_files(work, amb, fs).1[i]).dir == fs[i].0
                && run_files(work, amb, fs).1[i].allowed == fs[i].1,
        forall|i: int|
            0 <= i < fs.len() && !fs[i].1 ==> (#[trigger] run_files(work, amb, fs).1[i]).before
                .len() == 0,
    decreases fs.len(),
{
    if fs.len() > 0 {
        lemma_run_files_shape(work, amb, fs.drop_last());
    }
}

pub(crate) proof fn lemma_kept_all(s: Seq<EntryV>, cwd: Seq<char>, i: int)
    requires
        0 <= i <= s.len(),
        forall|l: int| 0 <= l < s.len() ==> contains_dir(#[trigger] s[l].dir, cwd),
    ensures
        kept_from(s, cwd, i) == s.len(),
    decreases s.len() - i,
{
    if i < s.len() {
        lemma_kept_all(s, cwd, i + 1);
    }
}

proof fn lemma_kept_bounds(s: Seq<EntryV>, cwd: Seq<char>, i: int)
    requires
        0 <= i <= s.len(),
    ensures
        i <= kept_from(s, cwd, i) <= s.len(),
    decreases s.len() - i,
{
    if i < s.len() {
        lemma_kept_bounds(s, cwd, i + 1);
    }
}

/// The new stack is the prefix of the old one that still holds in `cwd`,
/// followed by exactly one entry for each directory with a file, in the order in
/// which the files are given (root first), an untrusted one with nothing recorded.
pub proof fn law_new_stack_shape(
    s: Seq<EntryV>,
    cwd: Seq<char>,
    fs: Seq<(Seq<char>, bool, Seq<(Seq<char>, ChangeV)>)>,
    amb: Map<Seq<char>, Option<Seq<char>>>,
)
    ensures
        ({
            let n = kept_count(s, cwd);
            let r = load_spec(s, cwd, fs, amb).0;
            &&& 0 <= n <= s.len()
            &&& r.len() == n + fs.len()
            &&& forall|i: int| 0 <= i < n ==> #[trigger] r[i] == s[i]
            &&& forall|i: int|
                0 <= i < fs.len() ==> (#[trigger] r[n + i]).dir == fs[i].0 && r[n + i].allowed
                    == fs[i].1
            &&& forall|i: int| 0 <= i < fs.len() && !fs[i].1 ==> (#[trigger] r[n + i]).before.len() == 0
        }),
{
    lemma_kept_bounds(s, cwd, 0);
    lemma_run_files_shape(undone(s, cwd), amb, fs);
}

proof fn lemma_kept_prefix(s: Seq<EntryV>, cwd: Seq<char>, i: int)
    requires
        0 <= i <= s.len(),
        forall|l: int| 0 <= l < i ==> contains_dir(#[trigger] s[l].dir, cwd),
    ensures
        forall|l: int| 0 <= l < kept_from(s, cwd, i) ==> contains_dir(#[trigger] s[l].dir, cwd),
    decreases s.len() - i,
{
    if i < s.len() && contains_dir(s[i].dir, cwd) {
        lemma_kept_prefix(s, cwd, i + 1);
    }
}

/// Where every file given comes from a directory that contains `cwd` (as those
/// that `target_dirs` lists do), every entry of the new stack holds in `cwd`.
pub proof fn law_new_stack_holds_in_cwd(
    s: Seq<EntryV>,
    cwd: Seq<char>,
    fs: Seq<(Seq<char>, bool, Seq<(Seq<char>, ChangeV)>)>,
    amb: Map<Seq<char>, Option<Seq<char>>>,
)
    requires
        forall|i: int| 0 <= i < fs.len() ==> contains_dir(#[trigger] fs[i].0, cwd),
    ensures
        forall|i: int|
            0 <= i < load_spec(s, cwd, fs, amb).0.len() ==> contains_dir(
                #[trigger] load_spec(s, cwd, fs, amb).0[i].dir,
                cwd,
            ),
{
    let n = kept_count(s, cwd);
    let r = load_spec(s, cwd, fs, amb).0;
    law_new_stack_shape(s, cwd, fs, amb);
    lemma_kept_prefix(s, cwd, 0);
    assert forall|i: int| 0 <= i < r.len() implies contains_dir(#[trigger] r[i].dir, cwd) by {
        if i < n {
            assert(r[i] == s[i]);
        } else {
            assert(r[n + (i - n)].dir == fs[i - n].0);
        }
    }
}

/// A file that is not trusted changes no variable: appending it to the files of
/// a run leaves the run's variables as they were.
pub proof fn law_untrusted_file_is_inert(
    work: Map<Seq<char>, Option<Seq<char>>>,
    amb: Map<Seq<char>, Option<Seq<char>>>,
    fs: Seq<(Seq<char>, bool, Seq<(Seq<char>, ChangeV)>)>,
    f: (Seq<char>, bool, Seq<(Seq<char>, ChangeV)>),
)
    requires
        !f.1,
    ensures
        run_files(work, amb, fs.push(f)).0 == run_files(work, amb, fs).0,
{
    assert(fs.push(f).drop_last() =~= fs);
}

/// Whether each entry's directory contains the next one's: root to leaf.
pub open spec fn stack_ordered(s: Seq<EntryV>) -> bool {
    forall|i: int| 0 <= i < s.len() - 1 ==> contains_dir(#[trigger] s[i].dir, s[i + 1].dir)
}

/// The new stack stays ordered root to leaf, where the old one was and the files
/// come, as `candidate_dirs` gives them, from directories on the way to `cwd`,
/// each deeper than the one before and than the deepest kept directory.
pub proof fn law_new_stack_ordered(
    s: Seq<EntryV>,
    cwd: Seq<char>,
    fs: Seq<(Seq<char>, bool, Seq<(Seq<char>, ChangeV)>)>,
    amb: Map<Seq<char>, Option<Seq<char>>>,
)
    requires
        stack_ordered(s),
        forall|i: int| 0 <= i < fs.len() ==> contains_dir(#[trigger] fs[i].0, cwd),
        forall|i: int, j: int| 0 <= i < j < fs.len() ==> fs[i].0.len() < fs[j].0.len(),
        kept_count(s, cwd) > 0 ==> forall|i: int|
            0 <= i < fs.len() ==> s[kept_count(s, cwd) - 1].dir.len() < (#[trigger] fs[i]).0.len(),
    ensures
        stack_ordered(load_spec(s, cwd, fs, amb).0),
{
    let n = kept_count(s, cwd);
    let r = load_spec(s, cwd, fs, amb).0;
    law_new_stack_shape(s, cwd, fs, amb);
    law_new_stack_holds_in_cwd(s, cwd, fs, amb);
    assert forall|i: int| 0 <= i < r.len() - 1 implies contains_dir(#[trigger] r[i].dir, r[i + 1].dir) by {
        if i + 1 < n {
            assert(r[i] == s[i]);
            assert(r[i + 1] == s[i + 1]);
        } else if i + 1 == n {
            assert(r[i] == s[i]);
            assert(r[n + 0].dir == fs[0].0);
            lemma_nested(r[i].dir, r[i + 1].dir, cwd);
        } else {
            assert(r[n + (i - n)].dir == fs[i - n].0);
            assert(r[n + (i + 1 - n)].dir == fs[i + 1 - n].0);
            lemma_nested(r[i].dir, r[i + 1].dir, cwd);
        }
    }
}

/// Undo is exact: where the shallowest entry that no longer holds in `cwd` and
/// that touched `v` had recorded the value `v` held before it, and no file
/// applied in this run sets `v`, the run gives `v` back that value.
pub proof fn law_exact_undo(
    s: Seq<EntryV>,
    cwd: Seq<char>,
    fs: Seq<(Seq<char>, bool, Seq<(Seq<char>, ChangeV)>)>,
    amb: Map<Seq<char>, Option<Seq<char>>>,
    v: Seq<char>,
    k: int,
)
    requires
        kept_count(s, cwd) <= k < s.len(),
        touches(s[k], v),
        forall|l: int| kept_count(s, cwd) <= l < k ==> !touches(#[trigger] s[l], v),
        forall|i: int| 0 <= i < fs.len() ==> !file_touches(#[trigger] fs[i], v),
    ensures
        load_spec(s, cwd, fs, amb).1.contains_key(v),
        load_spec(s, cwd, fs, amb).1[v] == to_map(s[k].before)[v],
{
    let n = kept_count(s, cwd);
    lemma_kept_bounds(s, cwd, 0);
    let e = s.subrange(n, s.len() as int);
    assert forall|l: int| 0 <= l < k - n implies !touches(#[trigger] e[l], v) by {
        assert(e[l] == s[n + l]);
    }
    lemma_merged_first(e, Map::empty(), v, k - n);
    lemma_run_files_untouched(undone(s, cwd), amb, fs, v);
}

/// Running again where every entry still holds and no directory below the
/// deepest one has a file gives the same stack back and changes no variable.
pub proof fn law_rerun_is_idle(
    s: Seq<EntryV>,
    cwd: Seq<char>,
    amb: Map<Seq<char>, Option<Seq<char>>>,
)
    requires
        forall|l: int| 0 <= l < s.len() ==> contains_dir(#[trigger] s[l].dir, cwd),
    ensures
        load_spec(s, cwd, Seq::empty(), amb).0 == s,
        load_spec(s, cwd, Seq::empty(), amb).1 == Map::<Seq<char>, Option<Seq<char>>>::empty(),
{
    lemma_kept_all(s, cwd, 0);
    assert(s.subrange(s.len() as int, s.len() as int) =~= Seq::<EntryV>::empty());
    assert(s.subrange(0, s.len() as int) + Seq::<EntryV>::empty() =~= s);
}

} // verus!
