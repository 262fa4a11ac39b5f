use vstd::prelude::*;
use vstd::string::*;
use crate::envfile::{directive_view, directives_view, ChangeV, Directive};
use crate::output::opt_view;
use crate::vars::{
    apply_change, change_spec, clone_opt, clone_vars, current_value, get_current_var, insert_all,
    insert_var, keys_unique, lookup, to_map, vars_view, VarsMap, VarsV,
};

verus! {

/// One directory's recorded effect: the directory, whether its file was trusted
/// when the entry was made, and the values that the variables it touched had
/// just before.
pub struct Entry {
    pub dir: String,
    pub allowed: bool,
    pub before: VarsMap,
}

/// The mathematical value of an `Entry`.
pub struct EntryV {
    pub dir: Seq<char>,
    pub allowed: bool,
    pub before: VarsV,
}

impl View for Entry {
    type V = EntryV;

    open spec fn view(&self) -> EntryV {
        EntryV { dir: self.dir@, allowed: self.allowed, before: vars_view(self.before@) }
    }
}

/// Directory effects, root first.
pub type Stack = Vec<Entry>;

pub open spec fn stack_view(s: Seq<Entry>) -> Seq<EntryV> {
    s.map_values(|e: Entry| e@)
}

/// Whether directory `a` is `b` or one of its ancestors, going by path
/// components: `/a` contains `/a/b` but not `/ab`.
pub open spec fn contains_dir(a: Seq<char>, b: Seq<char>) -> bool {
    a == b || (a.len() < b.len() && a == b.subrange(0, a.len() as int) && ((a.len() > 0 && a.last()
        == '/') || b[a.len() as int] == '/'))
}

/// The number of leading entries whose directory contains `cwd`, from index `i`.
pub open spec fn kept_from(s: Seq<EntryV>, cwd: Seq<char>, i: int) -> int
    decreases s.len() - i,
{
    if i >= s.len() {
        s.len() as int
    } else if contains_dir(s[i].dir, cwd) {
        kept_from(s, cwd, i + 1)
    } else {
        i
    }
}

/// The length of the longest prefix of the stack that is still valid in `cwd`.
pub open spec fn kept_count(s: Seq<EntryV>, cwd: Seq<char>) -> int {
    kept_from(s, cwd, 0)
}

/// The variable values restored by undoing `entries`, deepest first, over `m`:
/// each trusted entry puts back what its variables held before it.
pub open spec fn merged(
    entries: Seq<EntryV>,
    m: Map<Seq<char>, Option<Seq<char>>>,
) -> Map<Seq<char>, Option<Seq<char>>>
    decreases entries.len(),
{
    if entries.len() == 0 {
        m
    } else {
        let e = entries.last();
        let m1 = if e.allowed {
            insert_all(m, e.before)
        } else {
            m
        };
        merged(entries.drop_last(), m1)
    }
}

/// Two directories that both contain `c` are nested: the shorter contains the
/// longer.
pub proof fn lemma_nested(a: Seq<char>, b: Seq<char>, c: Seq<char>)
    requires
        contains_dir(a, c),
        contains_dir(b, c),
        a.len() <= b.len(),
    ensures
        contains_dir(a, b),
{
    if a == c {
        assert(b == c);
    } else if b != c {
        if a.len() == b.len() {
            assert(a =~= b);
        } else {
            assert(a =~= b.subrange(0, a.len() as int));
            assert(b[a.len() as int] == c[a.len() as int]);
        }
    }
}

/// Whether path `a` is `b` or an ancestor of it (see `contains_dir`).
pub fn dir_contains(a: &str, b: &str) -> (r: bool)
    ensures
        r == contains_dir(a@, b@),
{
    let na = a.unicode_len();
    let nb = b.unicode_len();
    if na > nb {
        return false;
    }
    let mut i: usize = 0;
    while i < na
        invariant
            na == a@.len(),
            nb == b@.len(),
            na <= nb,
            i <= na,
            forall|j: int| 0 <= j < i ==> a@[j] == b@[j],
        decreases na - i,
    {
        if a.get_char(i) != b.get_char(i) {
            assert(a@ != b@.subrange(0, na as int) && a@ != b@) by {
                assert(b@.subrange(0, na as int)[i as int] == b@[i as int]);
            }
            return false;
        }
        i = i + 1;
    }
    assert(a@ =~= b@.subrange(0, na as int));
    if na == nb {
        assert(a@ =~= b@);
        return true;
    }
    (na > 0 && a.get_char(na - 1) == '/') || b.get_char(na) == '/'
}

/// Splits the stack into the prefix still valid in `current_dir` and the rest,
/// returning the length of the prefix: the number of leading entries whose
/// directory contains `current_dir`.
pub fn split_undo_and_kept(stack: &Stack, current_dir: &String) -> (n: usize)
    ensures
        n == kept_count(stack_view(stack@), current_dir@),
        n <= stack@.len(),
        forall|i: int| 0 <= i < n ==> contains_dir(#[trigger] stack@[i].dir@, current_dir@),
        n < stack@.len() ==> !contains_dir(stack@[n as int].dir@, current_dir@),
{
    let ghost sv = stack_view(stack@);
    let mut i: usize = 0;
    while i < stack.len()
        invariant
            i <= stack@.len(),
            sv == stack_view(stack@),
            kept_from(sv, current_dir@, i as int) == kept_count(sv, current_dir@),
            forall|j: int| 0 <= j < i ==> contains_dir(#[trigger] stack@[j].dir@, current_dir@),
        decreases stack@.len() - i,
    {
        if !dir_contains(stack[i].dir.as_str(), current_dir.as_str()) {
            return i;
        }
        i = i + 1;
    }
    i
}

/// Puts back, deepest entry first, what the trusted entries of `stack` from
/// index `from` on had recorded as their variables' earlier values.
pub fn merge_undoes(stack: &Stack, from: usize, var_changes: &mut VarsMap)
    requires
        from <= stack@.len(),
        keys_unique(vars_view(old(var_changes)@)),
    ensures
        keys_unique(vars_view(final(var_changes)@)),
        to_map(vars_view(final(var_changes)@)) == merged(
            stack_view(stack@).subrange(from as int, stack@.len() as int),
            to_map(vars_view(old(var_changes)@)),
        ),
{
    let ghost sv = stack_view(stack@);
    let ghost target = merged(
        sv.subrange(from as int, stack@.len() as int),
        to_map(vars_view(var_changes@)),
    );
    let mut i: usize = stack.len();
    while i > from
        invariant
            from <= i <= stack@.len(),
            sv == stack_view(stack@),
            keys_unique(vars_view(var_changes@)),
            target == merged(sv.subrange(from as int, i as int), to_map(vars_view(var_changes@))),
        decreases i,
    {
        i = i - 1;
        let entry = &stack[i];
        let ghost m0 = to_map(vars_view(var_changes@));
        assert(sv.subrange(from as int, i + 1).drop_last() =~= sv.subrange(from as int, i as int));
        if entry.allowed {
            let ghost b = vars_view(entry.before@);
            let mut j: usize = 0;
            while j < entry.before.len()
                invariant
                    j <= entry.before@.len(),
                    b == vars_view(entry.before@),
                    keys_unique(vars_view(var_changes@)),
                    to_map(vars_view(var_changes@)) == insert_all(m0, b.subrange(0, j as int)),
                decreases entry.before@.len() - j,
            {
                let key = entry.before[j].0.clone();
                let val = match &entry.before[j].1 {
                    Some(v) => Some(v.clone()),
                    None => None,
                };
                insert_var(var_changes, key, val);
                assert(b.subrange(0, j + 1).drop_last() =~= b.subrange(0, j as int));
                j = j + 1;
            }
            assert(b.subrange(0, j as int) =~= b);
        }
    }
}

/// Whether `d` is an absolute path in normal form: it starts with `/` and has
/// neither an empty component nor a trailing `/`, `/` itself aside.
pub open spec fn is_normal_path(d: Seq<char>) -> bool {
    &&& d.len() > 0
    &&& d[0] == '/'
    &&& d.len() > 1 ==> d.last() != '/'
    &&& forall|i: int| 0 <= i < d.len() - 1 ==> !(d[i] == '/' && #[trigger] d[i + 1] == '/')
}

/// Whether `d` is an absolute path in normal form (see `is_normal_path`).
pub fn is_normal_dir(d: &str) -> (r: bool)
    ensures
        r == is_normal_path(d@),
{
    let n = d.unicode_len();
    if n == 0 || d.get_char(0) != '/' {
        return false;
    }
    if n > 1 && d.get_char(n - 1) == '/' {
        return false;
    }
    let mut i: usize = 0;
    while i + 1 < n
        invariant
            n == d@.len(),
            n > 0,
            i < n,
            forall|l: int| 0 <= l < i ==> !(d@[l] == '/' && #[trigger] d@[l + 1] == '/'),
        decreases n - i,
    {
        if d.get_char(i) == '/' && d.get_char(i + 1) == '/' {
            return false;
        }
        i = i + 1;
    }
    true
}

/// Whether the prefix of length `j` of `d` is a directory on the way to `d`.
pub open spec fn is_cut(d: Seq<char>, j: int) -> bool {
    j == 1 || (1 < j < d.len() && d[j] == '/') || (1 < j && j == d.len())
}

/// The directories on the way to `d` whose paths are shorter than `i`, root first.
pub open spec fn ancestors_below(d: Seq<char>, i: int) -> Seq<Seq<char>>
    decreases i,
{
    if i <= 0 {
        Seq::empty()
    } else {
        let p = ancestors_below(d, i - 1);
        if is_cut(d, i - 1) {
            p.push(d.subrange(0, i - 1))
        } else {
            p
        }
    }
}

/// Every directory from the root down to `d`, inclusive, in increasing depth.
pub open spec fn ancestors(d: Seq<char>) -> Seq<Seq<char>> {
    ancestors_below(d, d.len() + 1 as int)
}

pub open spec fn strings_view(v: Seq<String>) -> Seq<Seq<char>> {
    v.map_values(|s: String| s@)
}

/// Lists every directory from the root down to `d`, inclusive.
pub fn enumerate_parent_dirs(d: &String) -> (r: Vec<String>)
    requires
        is_normal_path(d@),
    ensures
        strings_view(r@) == ancestors(d@),
        forall|i: int| 0 <= i < r@.len() ==> contains_dir(#[trigger] r@[i]@, d@),
        forall|i: int, j: int| 0 <= i < j < r@.len() ==> r@[i]@.len() < r@[j]@.len(),
{
    let n = d.unicode_len();
    let mut v: Vec<String> = Vec::new();
    let mut j: usize = 1;
    assert(ancestors_below(d@, 0) =~= Seq::<Seq<char>>::empty());
    assert(ancestors_below(d@, 1) =~= Seq::<Seq<char>>::empty());
    while j < n
        invariant
            1 <= j <= n,
            n == d@.len(),
            d@[0] == '/',
            strings_view(v@) == ancestors_below(d@, j as int),
            forall|i: int| 0 <= i < v@.len() ==> contains_dir(#[trigger] v@[i]@, d@),
            forall|i: int| 0 <= i < v@.len() ==> (#[trigger] v@[i]@).len() < j,
            forall|i: int, k: int| 0 <= i < k < v@.len() ==> v@[i]@.len() < v@[k]@.len(),
        decreases n - j,
    {
        if j == 1 || d.get_char(j) == '/' {
            let p = String::from_str(d.substring_char(0, j));
            let ghost old_v = v@;
            proof {
                assert(p@ =~= d@.subrange(0, p@.len() as int));
                if j == 1 {
                    assert(p@.last() == '/');
                }
            }
            v.push(p);
            assert(strings_view(v@) =~= strings_view(old_v).push(p@));
        }
        j = j + 1;
    }
    let ghost old_v = v@;
    v.push(d.clone());
    assert(d@.subrange(0, n as int) =~= d@);
    assert(strings_view(v@) =~= strings_view(old_v).push(d@));
    v
}

/// The number of leading directories of `ds`, from index `i`, that contain `start`.
pub open spec fn skip_from(ds: Seq<Seq<char>>, start: Seq<char>, i: int) -> int
    decreases ds.len() - i,
{
    if i >= ds.len() {
        ds.len() as int
    } else if contains_dir(ds[i], start) {
        skip_from(ds, start, i + 1)
    } else {
        i
    }
}

/// The directories from the root down to `cwd` that are deeper than `start`,
/// the deepest directory still kept; all of them where nothing is kept.
pub open spec fn target_dirs_spec(cwd: Seq<char>, start: Option<Seq<char>>) -> Seq<Seq<char>> {
    let ds = ancestors(cwd);
    match start {
        Some(s) => ds.subrange(skip_from(ds, s, 0), ds.len() as int),
        None => ds,
    }
}

/// The directories whose `.env` files a run has to read: those from the root
/// down to `current_dir` that lie below `start_dir`, root first.
pub fn target_dirs(current_dir: &String, start_dir: Option<&String>) -> (r: Vec<String>)
    requires
        is_normal_path(current_dir@),
    ensures
        strings_view(r@) == target_dirs_spec(
            current_dir@,
            match start_dir {
                Some(s) => Some(s@),
                None => None,
            },
        ),
        forall|i: int| 0 <= i < r@.len() ==> contains_dir(#[trigger] r@[i]@, current_dir@),
        forall|i: int, j: int| 0 <= i < j < r@.len() ==> r@[i]@.len() < r@[j]@.len(),
        match start_dir {
            Some(s) => contains_dir(s@, current_dir@) ==> forall|i: int|
                0 <= i < r@.len() ==> s@.len() < (#[trigger] r@[i]@).len(),
            None => true,
        },
{
    let dirs = enumerate_parent_dirs(current_dir);
    let ghost ds = strings_view(dirs@);
    let mut k: usize = 0;
    match start_dir {
        Some(s) => {
            while k < dirs.len() && dir_contains(dirs[k].as_str(), s.as_str())
                invariant
                    k <= dirs@.len(),
                    ds == strings_view(dirs@),
                    skip_from(ds, s@, k as int) == skip_from(ds, s@, 0),
                decreases dirs@.len() - k,
            {
                k = k + 1;
            }
            assert(skip_from(ds, s@, k as int) == k);
            proof {
                if contains_dir(s@, current_dir@) && k < dirs@.len() {
                    if dirs@[k as int]@.len() <= s@.len() {
                        lemma_nested(dirs@[k as int]@, s@, current_dir@);
                    }
                }
            }
        },
        None => {},
    }
    let mut out: Vec<String> = Vec::new();
    let mut i: usize = k;
    while i < dirs.len()
        invariant
            k <= i <= dirs@.len(),
            ds == strings_view(dirs@),
            strings_view(out@) == ds.subrange(k as int, i as int),
            forall|l: int| 0 <= l < dirs@.len() ==> contains_dir(#[trigger] dirs@[l]@, current_dir@),
            forall|l: int, m: int| 0 <= l < m < dirs@.len() ==> dirs@[l]@.len() < dirs@[m]@.len(),
            match start_dir {
                Some(s) => contains_dir(s@, current_dir@) && k < dirs@.len() ==> s@.len()
                    < dirs@[k as int]@.len(),
                None => true,
            },
        decreases dirs@.len() - i,
    {
        let ghost before = out@;
        out.push(dirs[i].clone());
        assert(strings_view(out@) =~= strings_view(before).push(dirs@[i as int]@));
        assert(strings_view(out@) =~= ds.subrange(k as int, i + 1));
        i = i + 1;
    }
    assert(ds.subrange(0, ds.len() as int) =~= ds);
    assert(ds.len() == dirs@.len());
    assert forall|l: int| 0 <= l < out@.len() implies contains_dir(#[trigger] out@[l]@, current_dir@) by {
        assert(strings_view(out@)[l] == out@[l]@);
        assert(ds.subrange(k as int, ds.len() as int)[l] == ds[k + l]);
        assert(dirs@[k + l]@ == ds[k + l]);
    }
    assert forall|a: int, b: int| 0 <= a < b < out@.len() implies out@[a]@.len() < out@[b]@.len() by {
        assert(strings_view(out@)[a] == out@[a]@);
        assert(strings_view(out@)[b] == out@[b]@);
        assert(out@[a]@ == dirs@[k + a]@);
        assert(out@[b]@ == dirs@[k + b]@);
    }
    match start_dir {
        Some(s) => {
            assert(contains_dir(s@, current_dir@) ==> forall|l: int|
                0 <= l < out@.len() ==> s@.len() < (#[trigger] out@[l]@).len()) by {
                assert forall|l: int| contains_dir(s@, current_dir@) && 0 <= l < out@.len() implies s@.len()
                    < (#[trigger] out@[l]@).len() by {
                    assert(strings_view(out@)[l] == out@[l]@);
                    assert(out@[l]@ == dirs@[k + l]@);
                    assert(k + l == k || dirs@[k as int]@.len() < dirs@[k + l]@.len());
                }
            }
        },
        None => {},
    }
    out
}

/// The deepest directory still kept: that of the last of the `n` kept entries.
pub open spec fn start_dir_spec(s: Seq<EntryV>, n: int) -> Option<Seq<char>> {
    if n > 0 {
        Some(s[n - 1].dir)
    } else {
        None
    }
}

/// The directories whose `.env` files a run in `current_dir` has to read, given
/// the previous stack: those on the way to `current_dir` that lie below the
/// deepest directory of the kept prefix, root first, each deeper than the last.
pub fn candidate_dirs(stack: &Stack, current_dir: &String) -> (r: Vec<String>)
    requires
        is_normal_path(current_dir@),
    ensures
        strings_view(r@) == target_dirs_spec(
            current_dir@,
            start_dir_spec(stack_view(stack@), kept_count(stack_view(stack@), current_dir@)),
        ),
        forall|i: int| 0 <= i < r@.len() ==> contains_dir(#[trigger] r@[i]@, current_dir@),
        forall|i: int, j: int| 0 <= i < j < r@.len() ==> r@[i]@.len() < r@[j]@.len(),
        ({
            let n = kept_count(stack_view(stack@), current_dir@);
            n > 0 ==> forall|i: int|
                0 <= i < r@.len() ==> stack@[n - 1].dir@.len() < (#[trigger] r@[i]@).len()
        }),
{
    let n = split_undo_and_kept(stack, current_dir);
    if n > 0 {
        let start = &stack[n - 1].dir;
        assert(contains_dir(stack@[n - 1].dir@, current_dir@));
        target_dirs(current_dir, Some(start))
    } else {
        target_dirs(current_dir, None)
    }
}

impl Entry {
    /// A copy of the entry.
    pub fn duplicate(&self) -> (r: Entry)
        ensures
            r@ == self@,
    {
        Entry { dir: self.dir.clone(), allowed: self.allowed, before: clone_vars(&self.before) }
    }
}

/// The effect of one trusted directory's directives on the run's variables
/// `work`: the variables afterwards, and the value that each variable it touches
/// had before, in the order in which they are first touched.
pub open spec fn dir_effect(
    work: Map<Seq<char>, Option<Seq<char>>>,
    ambient: Map<Seq<char>, Option<Seq<char>>>,
    ds: Seq<(Seq<char>, ChangeV)>,
) -> (Map<Seq<char>, Option<Seq<char>>>, VarsV)
    decreases ds.len(),
{
    if ds.len() == 0 {
        (work, Seq::empty())
    } else {
        let prev = dir_effect(work, ambient, ds.drop_last());
        let k = ds.last().0;
        let cur = current_value(prev.0, ambient, k);
        (
            prev.0.insert(k, change_spec(cur, ds.last().1)),
            if to_map(prev.1).contains_key(k) {
                prev.1
            } else {
                prev.1.push((k, cur))
            },
        )
    }
}

/// Applies the directives of a trusted directory to the run's variables, and
/// returns the directory's entry, which records what its variables held before.
pub fn add_changes(
    dir: &String,
    changes: &Vec<Directive>,
    var_changes_so_far: &mut VarsMap,
    ambient: &VarsMap,
) -> (e: Entry)
    requires
        keys_unique(vars_view(old(var_changes_so_far)@)),
    ensures
        e.dir@ == dir@,
        e.allowed,
        keys_unique(vars_view(final(var_changes_so_far)@)),
        (to_map(vars_view(final(var_changes_so_far)@)), vars_view(e.before@)) == dir_effect(
            to_map(vars_view(old(var_changes_so_far)@)),
            to_map(vars_view(ambient@)),
            directives_view(changes@),
        ),
{
    let ghost m0 = to_map(vars_view(var_changes_so_far@));
    let ghost amb = to_map(vars_view(ambient@));
    let ghost dv = directives_view(changes@);
    let mut before: VarsMap = Vec::new();
    let mut j: usize = 0;
    assert(dv.subrange(0, 0) =~= Seq::<(Seq<char>, ChangeV)>::empty());
    assert(vars_view(before@) =~= Seq::<(Seq<char>, Option<Seq<char>>)>::empty());
    while j < changes.len()
        invariant
            j <= changes@.len(),
            dv == directives_view(changes@),
            amb == to_map(vars_view(ambient@)),
            keys_unique(vars_view(var_changes_so_far@)),
            keys_unique(vars_view(before@)),
            (to_map(vars_view(var_changes_so_far@)), vars_view(before@)) == dir_effect(
                m0,
                amb,
                dv.subrange(0, j as int),
            ),
        decreases changes@.len() - j,
    {
        let key = &changes[j].0;
        let ghost b0 = vars_view(before@);
        let cur = get_current_var(var_changes_so_far, ambient, key);
        assert(dv.subrange(0, j + 1).drop_last() =~= dv.subrange(0, j as int));
        assert(dv[j as int] == directive_view(changes@[j as int]));
        match lookup(&before, key) {
            Some(_) => {},
            None => {
                insert_var(&mut before, key.clone(), clone_opt(&cur));
            },
        }
        let after = apply_change(&cur, &changes[j].1);
        insert_var(var_changes_so_far, key.clone(), after);
        proof {
            let ds = dv.subrange(0, j + 1);
            assert(ds.last() == dv[j as int]);
            assert(!to_map(b0).contains_key(key@) ==> vars_view(before@) == b0.push(
                (key@, opt_view(cur)),
            ));
        }
        j = j + 1;
    }
    assert(dv.subrange(0, j as int) =~= dv);
    Entry { dir: dir.clone(), allowed: true, before }
}

/// What one directory contributes to a run: the directory, whether its file is
/// trusted, and the file's directives (none where it is not trusted).
pub type DirFile = (String, bool, Vec<Directive>);

pub open spec fn file_view(f: DirFile) -> (Seq<char>, bool, Seq<(Seq<char>, ChangeV)>) {
    (f.0@, f.1, directives_view(f.2@))
}

pub open spec fn files_view(fs: Seq<DirFile>) -> Seq<(Seq<char>, bool, Seq<(Seq<char>, ChangeV)>)> {
    fs.map_values(|f: DirFile| file_view(f))
}

/// The run's variables after the files `fs` in order, and the entry of each.
pub open spec fn run_files(
    work: Map<Seq<char>, Option<Seq<char>>>,
    ambient: Map<Seq<char>, Option<Seq<char>>>,
    fs: Seq<(Seq<char>, bool, Seq<(Seq<char>, ChangeV)>)>,
) -> (Map<Seq<char>, Option<Seq<char>>>, Seq<EntryV>)
    decreases fs.len(),
{
    if fs.len() == 0 {
        (work, Seq::empty())
    } else {
        let prev = run_files(work, ambient, fs.drop_last());
        let f = fs.last();
        if f.1 {
            let eff = dir_effect(prev.0, ambient, f.2);
            (eff.0, prev.1.push(EntryV { dir: f.0, allowed: true, before: eff.1 }))
        } else {
            (prev.0, prev.1.push(EntryV { dir: f.0, allowed: false, before: Seq::empty() }))
        }
    }
}

/// The variables restored by undoing what no longer holds in `cwd`.
pub open spec fn undone(s: Seq<EntryV>, cwd: Seq<char>) -> Map<Seq<char>, Option<Seq<char>>> {
    merged(s.subrange(kept_count(s, cwd), s.len() as int), Map::empty())
}

/// One run: the new stack, and the value of each variable that the run touches.
pub open spec fn load_spec(
    s: Seq<EntryV>,
    cwd: Seq<char>,
    fs: Seq<(Seq<char>, bool, Seq<(Seq<char>, ChangeV)>)>,
    ambient: Map<Seq<char>, Option<Seq<char>>>,
) -> (Seq<EntryV>, Map<Seq<char>, Option<Seq<char>>>) {
    let r = run_files(undone(s, cwd), ambient, fs);
    (s.subrange(0, kept_count(s, cwd)) + r.1, r.0)
}

/// One run in `current_dir`, from the previous stack, the `.env` files of the
/// directories below the deepest one kept (as `target_dirs` lists them, root
/// first, those without a file left out) and the ambient environment. Undoes the
/// entries that no longer hold, deepest first, then applies the files in order.
/// Returns the new stack and each variable that changes, with its new value.
pub fn load(stack: &Stack, current_dir: &String, files: &Vec<DirFile>, ambient: &VarsMap) -> (r: (
    Stack,
    VarsMap,
))
    ensures
        (stack_view(r.0@), to_map(vars_view(r.1@))) == load_spec(
            stack_view(stack@),
            current_dir@,
            files_view(files@),
            to_map(vars_view(ambient@)),
        ),
        keys_unique(vars_view(r.1@)),
{
    let ghost sv = stack_view(stack@);
    let ghost fv = files_view(files@);
    let ghost amb = to_map(vars_view(ambient@));
    let n = split_undo_and_kept(stack, current_dir);
    let mut var_changes: VarsMap = Vec::new();
    assert(to_map(vars_view(var_changes@)) =~= Map::empty());
    merge_undoes(stack, n, &mut var_changes);
    let ghost m0 = to_map(vars_view(var_changes@));
    let mut new_stack: Stack = Vec::new();
    let mut i: usize = 0;
    while i < n
        invariant
            i <= n <= stack@.len(),
            sv == stack_view(stack@),
            stack_view(new_stack@) == sv.subrange(0, i as int),
        decreases n - i,
    {
        let ghost before = new_stack@;
        new_stack.push(stack[i].duplicate());
        assert(stack_view(new_stack@) =~= stack_view(before).push(sv[i as int]));
        assert(stack_view(new_stack@) =~= sv.subrange(0, i + 1));
        i = i + 1;
    }
    let mut j: usize = 0;
    assert(fv.subrange(0, 0) =~= Seq::<(Seq<char>, bool, Seq<(Seq<char>, ChangeV)>)>::empty());
    assert(sv.subrange(0, n as int) + Seq::<EntryV>::empty() =~= sv.subrange(0, n as int));
    while j < files.len()
        invariant
            j <= files@.len(),
            n <= stack@.len(),
            n == kept_count(sv, current_dir@),
            m0 == undone(sv, current_dir@),
            sv == stack_view(stack@),
            fv == files_view(files@),
            amb == to_map(vars_view(ambient@)),
            keys_unique(vars_view(var_changes@)),
            (stack_view(new_stack@), to_map(vars_view(var_changes@))) == ({
                let r = run_files(m0, amb, fv.subrange(0, j as int));
                (sv.subrange(0, n as int) + r.1, r.0)
            }),
        decreases files@.len() - j,
    {
        let ghost before = new_stack@;
        let f = &files[j];
        assert(fv.subrange(0, j + 1).drop_last() =~= fv.subrange(0, j as int));
        assert(fv[j as int] == file_view(files@[j as int]));
        let entry = if f.1 {
            add_changes(&f.0, &f.2, &mut var_changes, ambient)
        } else {
            Entry { dir: f.0.clone(), allowed: false, before: Vec::new() }
        };
        assert(vars_view(entry.before@) == entry@.before);
        assert(!f.1 ==> entry@.before =~= Seq::<(Seq<char>, Option<Seq<char>>)>::empty());
        new_stack.push(entry);
        assert(stack_view(new_stack@) =~= stack_view(before).push(entry@));
        let ghost r = run_files(m0, amb, fv.subrange(0, j + 1));
        assert(stack_view(new_stack@) =~= sv.subrange(0, n as int) + r.1);
        j = j + 1;
    }
    assert(fv.subrange(0, j as int) =~= fv);
    (new_stack, var_changes)
}

} // verus!
