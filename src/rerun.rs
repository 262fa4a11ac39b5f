use vstd::prelude::*;
use crate::envfile::ChangeV;
use crate::stack::{
    ancestors, ancestors_below, contains_dir, is_cut, kept_count, kept_from, lemma_nested,
    load_spec, skip_from, start_dir_spec, target_dirs_spec, EntryV,
};
use crate::laws::{
    lemma_kept_all, law_new_stack_holds_in_cwd, law_new_stack_shape, law_rerun_is_idle,
};

verus! {

/// The directories that hold a `.env` file, each with whether it is trusted and
/// its directives.
pub type FileSystem = Map<Seq<char>, (bool, Seq<(Seq<char>, ChangeV)>)>;

/// The files that a run reads from the directories `ds`, in order: those of the
/// directories that have one.
pub open spec fn files_of(ds: Seq<Seq<char>>, fsys: FileSystem) -> Seq<
    (Seq<char>, bool, Seq<(Seq<char>, ChangeV)>),
>
    decreases ds.len(),
{
    if ds.len() == 0 {
        Seq::empty()
    } else {
        let p = files_of(ds.drop_last(), fsys);
        let d = ds.last();
        if fsys.contains_key(d) {
            p.push((d, fsys[d].0, fsys[d].1))
        } else {
            p
        }
    }
}

/// One whole run in `cwd` against the file system `fsys`.
pub open spec fn run(
    s: Seq<EntryV>,
    cwd: Seq<char>,
    fsys: FileSystem,
    amb: Map<Seq<char>, Option<Seq<char>>>,
) -> (Seq<EntryV>, Map<Seq<char>, Option<Seq<char>>>) {
    let cands = target_dirs_spec(cwd, start_dir_spec(s, kept_count(s, cwd)));
    load_spec(s, cwd, files_of(cands, fsys), amb)
}

proof fn lemma_ancestors_below(d: Seq<char>, i: int)
    requires
        d.len() > 0,
        d[0] == '/',
        0 <= i <= d.len() + 1,
    ensures
        forall|k: int|
            0 <= k < ancestors_below(d, i).len() ==> contains_dir(
                #[trigger] ancestors_below(d, i)[k],
                d,
            ) && ancestors_below(d, i)[k].len() < i,
        forall|k: int, l: int|
            0 <= k < l < ancestors_below(d, i).len() ==> ancestors_below(d, i)[k].len()
                < ancestors_below(d, i)[l].len(),
    decreases i,
{
    if i > 0 {
        lemma_ancestors_below(d, i - 1);
        let prev = ancestors_below(d, i - 1);
        let cur = ancestors_below(d, i);
        if is_cut(d, i - 1) {
            let p = d.subrange(0, i - 1);
            assert(cur == prev.push(p));
            if i - 1 == d.len() {
                assert(p =~= d);
            } else {
                assert(p =~= d.subrange(0, p.len() as int));
                if i - 1 == 1 {
                    assert(p.last() == '/');
                }
            }
            assert(contains_dir(p, d));
            assert forall|k: int| 0 <= k < cur.len() implies contains_dir(#[trigger] cur[k], d)
                && cur[k].len() < i by {
                if k < prev.len() {
                    assert(cur[k] == prev[k]);
                }
            }
            assert forall|k: int, l: int| 0 <= k < l < cur.len() implies cur[k].len() < cur[l].len() by {
                assert(cur[k] == prev[k]);
                if l < prev.len() {
                    assert(cur[l] == prev[l]);
                }
            }
        } else {
            assert(cur == prev);
        }
    }
}

proof fn lemma_ancestors(d: Seq<char>)
    requires
        d.len() > 0,
        d[0] == '/',
    ensures
        forall|k: int| 0 <= k < ancestors(d).len() ==> contains_dir(#[trigger] ancestors(d)[k], d),
        forall|k: int, l: int|
            0 <= k < l < ancestors(d).len() ==> ancestors(d)[k].len() < ancestors(d)[l].len(),
{
    lemma_ancestors_below(d, d.len() + 1 as int);
}

proof fn lemma_files_of_none(ds: Seq<Seq<char>>, fsys: FileSystem)
    requires
        forall|j: int| 0 <= j < ds.len() ==> !fsys.contains_key(#[trigger] ds[j]),
    ensures
        files_of(ds, fsys).len() == 0,
    decreases ds.len(),
{
    if ds.len() > 0 {
        assert(!fsys.contains_key(ds[ds.len() - 1]));
        lemma_files_of_none(ds.drop_last(), fsys);
    }
}

proof fn lemma_files_of_from(ds: Seq<Seq<char>>, fsys: FileSystem)
    ensures
        forall|k: int|
            0 <= k < files_of(ds, fsys).len() ==> exists|j: int|
                0 <= j < ds.len() && #[trigger] files_of(ds, fsys)[k].0 == ds[j],
        files_of(ds, fsys).len() > 0 ==> exists|m: int|
            0 <= m < ds.len() && files_of(ds, fsys).last().0 == ds[m] && forall|j: int|
                m < j < ds.len() ==> !fsys.contains_key(#[trigger] ds[j]),
    decreases ds.len(),
{
    if ds.len() > 0 {
        let p = ds.drop_last();
        lemma_files_of_from(p, fsys);
        let f = files_of(ds, fsys);
        assert forall|k: int| 0 <= k < f.len() implies exists|j: int|
            0 <= j < ds.len() && #[trigger] f[k].0 == ds[j] by {
            if k < files_of(p, fsys).len() {
                let j = choose|j: int| 0 <= j < p.len() && files_of(p, fsys)[k].0 == p[j];
                assert(f[k].0 == ds[j]);
            } else {
                assert(f[k].0 == ds[ds.len() - 1]);
            }
        }
        if f.len() > 0 {
            if fsys.contains_key(ds.last()) {
                let m = ds.len() - 1;
                assert(f.last().0 == ds[m]);
            } else {
                let m = choose|m: int|
                    0 <= m < p.len() && files_of(p, fsys).last().0 == p[m] && forall|j: int|
                        m < j < p.len() ==> !fsys.contains_key(#[trigger] p[j]);
                assert(f.last().0 == ds[m]);
                assert forall|j: int| m < j < ds.len() implies !fsys.contains_key(#[trigger] ds[j]) by {
                    if j < p.len() {
                        assert(ds[j] == p[j]);
                    }
                }
            }
        }
    }
}

proof fn lemma_skip_to(a: Seq<Seq<char>>, x: Seq<char>, i: int, m: int)
    requires
        0 <= i <= m + 1 <= a.len(),
        forall|j: int| i <= j <= m ==> contains_dir(#[trigger] a[j], x),
        m + 1 < a.len() ==> !contains_dir(a[m + 1], x),
    ensures
        skip_from(a, x, i) == m + 1,
    decreases a.len() - i,
{
    if i <= m {
        lemma_skip_to(a, x, i + 1, m);
    }
}

proof fn lemma_kept_prefix_all(s: Seq<EntryV>, cwd: Seq<char>, i: int)
    requires
        0 <= i <= s.len(),
    ensures
        i <= kept_from(s, cwd, i) <= s.len(),
        forall|l: int| i <= l < kept_from(s, cwd, i) ==> contains_dir(#[trigger] s[l].dir, cwd),
    decreases s.len() - i,
{
    if i < s.len() && contains_dir(s[i].dir, cwd) {
        lemma_kept_prefix_all(s, cwd, i + 1);
    }
}

/// Running twice in the same directory, against the same file system, the second
/// run gives back the stack of the first and changes no variable, whatever the
/// ambient environment of either run.
#[verifier::rlimit(100)]
pub proof fn law_rerun_same_dir(
    s0: Seq<EntryV>,
    cwd: Seq<char>,
    fsys: FileSystem,
    amb1: Map<Seq<char>, Option<Seq<char>>>,
    amb2: Map<Seq<char>, Option<Seq<char>>>,
)
    requires
        cwd.len() > 0,
        cwd[0] == '/',
    ensures
        run(run(s0, cwd, fsys, amb1).0, cwd, fsys, amb2) == (
            run(s0, cwd, fsys, amb1).0,
            Map::<Seq<char>, Option<Seq<char>>>::empty(),
        ),
{
    let a = ancestors(cwd);
    lemma_ancestors(cwd);
    let n0 = kept_count(s0, cwd);
    lemma_kept_prefix_all(s0, cwd, 0);
    let c1 = target_dirs_spec(cwd, start_dir_spec(s0, n0));
    let skip1 = match start_dir_spec(s0, n0) {
        Some(x) => skip_from(a, x, 0),
        None => 0,
    };
    lemma_skip_bounds(a, start_dir_spec(s0, n0), 0);
    assert(c1 =~= a.subrange(skip1, a.len() as int));
    let fs1 = files_of(c1, fsys);
    let s1 = run(s0, cwd, fsys, amb1).0;
    lemma_files_of_from(c1, fsys);
    assert forall|i: int| 0 <= i < fs1.len() implies contains_dir(#[trigger] fs1[i].0, cwd) by {
        let j = choose|j: int| 0 <= j < c1.len() && fs1[i].0 == c1[j];
        assert(c1[j] == a[skip1 + j]);
    }
    law_new_stack_holds_in_cwd(s0, cwd, fs1, amb1);
    law_new_stack_shape(s0, cwd, fs1, amb1);
    lemma_kept_all(s1, cwd, 0);
    let n1 = kept_count(s1, cwd);
    assert(n1 == s1.len());
    let c2 = target_dirs_spec(cwd, start_dir_spec(s1, n1));
    if fs1.len() == 0 {
        assert(s1.len() == n0);
        if n0 > 0 {
            assert(s1[n0 - 1] == s0[n0 - 1]);
        }
        assert(start_dir_spec(s1, n1) == start_dir_spec(s0, n0));
        assert(c2 == c1);
    } else {
        let m1 = choose|m: int|
            0 <= m < c1.len() && fs1.last().0 == c1[m] && forall|j: int|
                m < j < c1.len() ==> !fsys.contains_key(#[trigger] c1[j]);
        let m = skip1 + m1;
        assert(c1[m1] == a[m]);
        let x = s1[s1.len() - 1].dir;
        assert(s1[n0 + (fs1.len() - 1)].dir == fs1[fs1.len() - 1].0);
        assert(x == a[m]);
        assert forall|j: int| 0 <= j <= m implies contains_dir(#[trigger] a[j], x) by {
            if j < m {
                lemma_nested(a[j], a[m], cwd);
            }
        }
        lemma_skip_to(a, x, 0, m);
        assert(c2 =~= a.subrange(m + 1, a.len() as int));
        assert forall|j: int| 0 <= j < c2.len() implies !fsys.contains_key(#[trigger] c2[j]) by {
            assert(c2[j] == a[m + 1 + j]);
            assert(a[m + 1 + j] == c1[m1 + 1 + j]);
        }
        lemma_files_of_none(c2, fsys);
    }
    assert(files_of(c2, fsys) =~= Seq::empty());
    law_rerun_is_idle(s1, cwd, amb2);
}

/// A run keeps the prefix of the stack that still holds in `cwd` and adds one
/// entry for each directory below the deepest kept one, down to `cwd`, that has a
/// file, root first: the directory, and whether its file is trusted.
pub proof fn law_run_shape(
    s: Seq<EntryV>,
    cwd: Seq<char>,
    fsys: FileSystem,
    amb: Map<Seq<char>, Option<Seq<char>>>,
)
    ensures
        ({
            let n = kept_count(s, cwd);
            let fs = files_of(target_dirs_spec(cwd, start_dir_spec(s, n)), fsys);
            let r = run(s, cwd, fsys, amb).0;
            &&& r.len() == n + fs.len()
            &&& forall|i: int| 0 <= i < n ==> #[trigger] r[i] == s[i]
            &&& forall|i: int|
                0 <= i < fs.len() ==> (#[trigger] r[n + i]).dir == fs[i].0 && fsys.contains_key(
                    fs[i].0,
                ) && r[n + i].allowed == fsys[fs[i].0].0
        }),
{
    let n = kept_count(s, cwd);
    let fs = files_of(target_dirs_spec(cwd, start_dir_spec(s, n)), fsys);
    law_new_stack_shape(s, cwd, fs, amb);
    lemma_files_of_entries(target_dirs_spec(cwd, start_dir_spec(s, n)), fsys);
}

proof fn lemma_files_of_entries(ds: Seq<Seq<char>>, fsys: FileSystem)
    ensures
        forall|k: int|
            0 <= k < files_of(ds, fsys).len() ==> fsys.contains_key(
                (#[trigger] files_of(ds, fsys)[k]).0,
            ) && files_of(ds, fsys)[k].1 == fsys[files_of(ds, fsys)[k].0].0,
    decreases ds.len(),
{
    if ds.len() > 0 {
        lemma_files_of_entries(ds.drop_last(), fsys);
        let p = files_of(ds.drop_last(), fsys);
        let f = files_of(ds, fsys);
        assert forall|k: int| 0 <= k < f.len() implies fsys.contains_key((#[trigger] f[k]).0)
            && f[k].1 == fsys[f[k].0].0 by {
            if k < p.len() {
                assert(f[k] == p[k]);
            }
        }
    }
}

proof fn lemma_skip_bounds(a: Seq<Seq<char>>, start: Option<Seq<char>>, i: int)
    requires
        0 <= i <= a.len(),
    ensures
        match start {
            Some(x) => i <= skip_from(a, x, i) <= a.len(),
            None => true,
        },
    decreases a.len() - i,
{
    match start {
        Some(x) => {
            if i < a.len() && contains_dir(a[i], x) {
                lemma_skip_bounds(a, start, i + 1);
            }
        },
        None => {},
    }
}

} // verus!
