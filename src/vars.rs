use vstd::prelude::*;
use vstd::string::*;
use crate::envfile::{ChangeV, VarChange};
use crate::output::opt_view;

verus! {

/// Variables and their values, `None` meaning unset. Where a name occurs twice,
/// the later pair counts.
pub type VarsMap = Vec<(String, Option<String>)>;

/// The mathematical value of a variable binding list.
pub type VarsV = Seq<(Seq<char>, Option<Seq<char>>)>;

pub open spec fn vars_view(m: Seq<(String, Option<String>)>) -> VarsV {
    m.map_values(|p: (String, Option<String>)| (p.0@, opt_view(p.1)))
}

/// `m` with the pairs of `b` written in order over it.
pub open spec fn insert_all(
    m: Map<Seq<char>, Option<Seq<char>>>,
    b: VarsV,
) -> Map<Seq<char>, Option<Seq<char>>>
    decreases b.len(),
{
    if b.len() == 0 {
        m
    } else {
        insert_all(m, b.drop_last()).insert(b.last().0, b.last().1)
    }
}

/// The map that a binding list stands for.
pub open spec fn to_map(b: VarsV) -> Map<Seq<char>, Option<Seq<char>>> {
    insert_all(Map::empty(), b)
}

pub open spec fn keys_unique(b: VarsV) -> bool {
    forall|i: int, j: int| 0 <= i < j < b.len() ==> b[i].0 != b[j].0
}

/// A variable's value as the current run sees it: what this run gave it, else
/// its ambient value, else none.
pub open spec fn current_value(
    work: Map<Seq<char>, Option<Seq<char>>>,
    ambient: Map<Seq<char>, Option<Seq<char>>>,
    k: Seq<char>,
) -> Option<Seq<char>> {
    if work.contains_key(k) {
        work[k]
    } else if ambient.contains_key(k) {
        ambient[k]
    } else {
        None
    }
}

pub open spec fn or_empty(o: Option<Seq<char>>) -> Seq<char> {
    match o {
        Some(s) => s,
        None => Seq::empty(),
    }
}

/// The value of a variable after one change.
pub open spec fn change_spec(v: Option<Seq<char>>, ch: ChangeV) -> Option<Seq<char>> {
    match ch {
        ChangeV::Unset => None,
        ChangeV::Assign(s) => Some(s),
        ChangeV::Append(s) => Some(or_empty(v) + s),
        ChangeV::Prepend(s) => Some(s + or_empty(v)),
    }
}

proof fn lemma_insert_all_absent(m: Map<Seq<char>, Option<Seq<char>>>, b: VarsV, k: Seq<char>)
    requires
        forall|i: int| 0 <= i < b.len() ==> b[i].0 != k,
    ensures
        insert_all(m, b).contains_key(k) == m.contains_key(k),
        m.contains_key(k) ==> insert_all(m, b)[k] == m[k],
    decreases b.len(),
{
    if b.len() > 0 {
        lemma_insert_all_absent(m, b.drop_last(), k);
    }
}

proof fn lemma_insert_all_at(m: Map<Seq<char>, Option<Seq<char>>>, b: VarsV, j: int)
    requires
        0 <= j < b.len(),
        forall|l: int| j < l < b.len() ==> b[l].0 != b[j].0,
    ensures
        insert_all(m, b).contains_key(b[j].0),
        insert_all(m, b)[b[j].0] == b[j].1,
    decreases b.len(),
{
    if j < b.len() - 1 {
        lemma_insert_all_at(m, b.drop_last(), j);
    }
}

proof fn lemma_insert_all_update(m: Map<Seq<char>, Option<Seq<char>>>, b: VarsV, j: int, v: Option<Seq<char>>)
    requires
        0 <= j < b.len(),
        keys_unique(b),
    ensures
        insert_all(m, b.update(j, (b[j].0, v))) == insert_all(m, b).insert(b[j].0, v),
    decreases b.len(),
{
    let u = b.update(j, (b[j].0, v));
    if j == b.len() - 1 {
        assert(u.drop_last() =~= b.drop_last());
        assert(insert_all(m, u) =~= insert_all(m, b).insert(b[j].0, v));
    } else {
        assert(u.drop_last() =~= b.drop_last().update(j, (b[j].0, v)));
        lemma_insert_all_update(m, b.drop_last(), j, v);
        assert(insert_all(m, u) =~= insert_all(m, b).insert(b[j].0, v));
    }
}

/// Looks a variable up; the later of two pairs with its name counts.
pub fn lookup(m: &VarsMap, k: &String) -> (r: Option<Option<String>>)
    ensures
        r is Some <==> to_map(vars_view(m@)).contains_key(k@),
        r is Some ==> opt_view(r->0) == to_map(vars_view(m@))[k@],
{
    let ghost b = vars_view(m@);
    let mut i: usize = m.len();
    while i > 0
        invariant
            i <= m@.len(),
            b == vars_view(m@),
            forall|l: int| i <= l < b.len() ==> b[l].0 != k@,
        decreases i,
    {
        i = i - 1;
        if m[i].0 == *k {
            proof {
                lemma_insert_all_at(Map::empty(), b, i as int);
            }
            return Some(clone_opt(&m[i].1));
        }
    }
    proof {
        lemma_insert_all_absent(Map::empty(), b, k@);
    }
    None
}

pub fn clone_opt(o: &Option<String>) -> (r: Option<String>)
    ensures
        opt_view(r) == opt_view(*o),
{
    match o {
        Some(s) => Some(s.clone()),
        None => None,
    }
}

/// Gives `k` the value `v`, in place where `k` is already there, else at the end.
pub fn insert_var(m: &mut VarsMap, k: String, v: Option<String>)
    requires
        keys_unique(vars_view(old(m)@)),
    ensures
        keys_unique(vars_view(final(m)@)),
        to_map(vars_view(final(m)@)) == to_map(vars_view(old(m)@)).insert(k@, opt_view(v)),
        !to_map(vars_view(old(m)@)).contains_key(k@) ==> vars_view(final(m)@) == vars_view(
            old(m)@,
        ).push((k@, opt_view(v))),
{
    let ghost b = vars_view(m@);
    let mut i: usize = 0;
    while i < m.len()
        invariant
            i <= m@.len(),
            b == vars_view(m@),
            b == vars_view(old(m)@),
            keys_unique(b),
            forall|l: int| 0 <= l < i ==> b[l].0 != k@,
        decreases m@.len() - i,
    {
        if m[i].0 == k {
            let ghost vv = opt_view(v);
            assert(b[i as int].0 == k@);
            proof {
                lemma_insert_all_at(Map::empty(), b, i as int);
            }
            m.set(i, (k, v));
            proof {
                assert(vars_view(m@) =~= b.update(i as int, (b[i as int].0, vv)));
                assert(keys_unique(vars_view(m@)));
                lemma_insert_all_update(Map::empty(), b, i as int, vv);
            }
            return;
        }
        i = i + 1;
    }
    let ghost kv = k@;
    let ghost vv = opt_view(v);
    m.push((k, v));
    proof {
        assert(vars_view(m@) =~= b.push((kv, vv)));
        assert(vars_view(m@).drop_last() =~= b);
    }
}

/// A copy of a binding list.
pub fn clone_vars(m: &VarsMap) -> (r: VarsMap)
    ensures
        vars_view(r@) == vars_view(m@),
{
    let mut r: VarsMap = Vec::new();
    let mut i: usize = 0;
    while i < m.len()
        invariant
            i <= m@.len(),
            vars_view(r@) == vars_view(m@).subrange(0, i as int),
        decreases m@.len() - i,
    {
        let ghost before = r@;
        r.push((m[i].0.clone(), clone_opt(&m[i].1)));
        assert(vars_view(r@) =~= vars_view(before).push(vars_view(m@)[i as int]));
        assert(vars_view(r@) =~= vars_view(m@).subrange(0, i + 1));
        i = i + 1;
    }
    assert(vars_view(m@).subrange(0, i as int) =~= vars_view(m@));
    r
}

/// The value of `key` before this directory's change: this run's, else ambient.
pub fn get_current_var(var_changes_so_far: &VarsMap, ambient: &VarsMap, key: &String) -> (r: Option<String>)
    ensures
        opt_view(r) == current_value(
            to_map(vars_view(var_changes_so_far@)),
            to_map(vars_view(ambient@)),
            key@,
        ),
{
    match lookup(var_changes_so_far, key) {
        Some(o) => o,
        None => match lookup(ambient, key) {
            Some(o) => o,
            None => None,
        },
    }
}

pub fn append_to_option_string(o: &Option<String>, s2: &str) -> (r: String)
    ensures
        r@ == or_empty(opt_view(*o)) + s2@,
{
    match o {
        Some(s1) => s1.clone().concat(s2),
        None => {
            let r = String::from_str(s2);
            assert(r@ =~= or_empty(opt_view(*o)) + s2@);
            r
        },
    }
}

pub fn prepend_to_option_string(o: &Option<String>, s2: &str) -> (r: String)
    ensures
        r@ == s2@ + or_empty(opt_view(*o)),
{
    match o {
        Some(s1) => String::from_str(s2).concat(s1.as_str()),
        None => {
            let r = String::from_str(s2);
            assert(r@ =~= s2@ + or_empty(opt_view(*o)));
            r
        },
    }
}

/// A variable's value after one change.
pub fn apply_change(var: &Option<String>, ch: &VarChange) -> (r: Option<String>)
    ensures
        opt_view(r) == change_spec(opt_view(*var), ch@),
{
    match ch {
        VarChange::Unset => None,
        VarChange::Assign(new_var) => Some(new_var.clone()),
        VarChange::Append(s) => Some(append_to_option_string(var, s.as_str())),
        VarChange::Prepend(s) => Some(prepend_to_option_string(var, s.as_str())),
    }
}

} // verus!
