use vstd::prelude::*;
use vstd::string::*;

verus! {

/// One directive's effect on one variable.
#[derive(Debug)]
pub enum VarChange {
    Unset,
    Assign(String),
    Append(String),
    Prepend(String),
}

/// The mathematical value of a `VarChange`.
pub enum ChangeV {
    Unset,
    Assign(Seq<char>),
    Append(Seq<char>),
    Prepend(Seq<char>),
}

impl View for VarChange {
    type V = ChangeV;

    open spec fn view(&self) -> ChangeV {
        match self {
            VarChange::Unset => ChangeV::Unset,
            VarChange::Assign(s) => ChangeV::Assign(s@),
            VarChange::Append(s) => ChangeV::Append(s@),
            VarChange::Prepend(s) => ChangeV::Prepend(s@),
        }
    }
}

/// A directive as a variable name and the change made to it.
pub type Directive = (String, VarChange);

pub open spec fn directive_view(d: Directive) -> (Seq<char>, ChangeV) {
    (d.0@, d.1@)
}

pub open spec fn directives_view(ds: Seq<Directive>) -> Seq<(Seq<char>, ChangeV)> {
    ds.map_values(|d: Directive| directive_view(d))
}

/// Whitespace as `char::is_whitespace` has it (the Unicode `White_Space` property).
pub open spec fn is_ws(c: char) -> bool {
    let u = c as u32;
    (0x09 <= u && u <= 0x0d) || u == 0x20 || u == 0x85 || u == 0xa0 || u == 0x1680
        || (0x2000 <= u && u <= 0x200a) || u == 0x2028 || u == 0x2029 || u == 0x202f
        || u == 0x205f || u == 0x3000
}

/// Index of the first space at or after `i`, or the length if there is none.
pub open spec fn first_space_from(s: Seq<char>, i: int) -> int
    decreases s.len() - i,
{
    if i >= s.len() {
        s.len() as int
    } else if s[i] == ' ' {
        i
    } else {
        first_space_from(s, i + 1)
    }
}

/// Index of the first non-whitespace character at or after `i`, or the length.
pub open spec fn first_non_ws_from(s: Seq<char>, i: int) -> int
    decreases s.len() - i,
{
    if i >= s.len() {
        s.len() as int
    } else if !is_ws(s[i]) {
        i
    } else {
        first_non_ws_from(s, i + 1)
    }
}

/// The directive that one line holds, if any: `<verb> <name> [<value>]`, with the
/// verb ending at the first space, the name starting after the whitespace that
/// follows, and the value the rest of the line after the name, leading whitespace
/// trimmed. `unset` takes exactly one non-empty name, the others a name and a value.
pub open spec fn parse_line_spec(l: Seq<char>) -> Option<(Seq<char>, ChangeV)> {
    let p = first_space_from(l, 0);
    if p >= l.len() {
        None
    } else {
        let verb = l.subrange(0, p);
        let a = first_non_ws_from(l, p + 1);
        let q = first_space_from(l, a);
        if q >= l.len() {
            if a < l.len() && verb == seq!['u', 'n', 's', 'e', 't'] {
                Some((l.subrange(a, l.len() as int), ChangeV::Unset))
            } else {
                None
            }
        } else {
            let name = l.subrange(a, q);
            let value = l.subrange(first_non_ws_from(l, q + 1), l.len() as int);
            if verb == seq!['s', 'e', 't'] {
                Some((name, ChangeV::Assign(value)))
            } else if verb == seq!['a', 'p', 'p', 'e', 'n', 'd'] {
                Some((name, ChangeV::Append(value)))
            } else if verb == seq!['p', 'r', 'e', 'p', 'e', 'n', 'd'] {
                Some((name, ChangeV::Prepend(value)))
            } else {
                None
            }
        }
    }
}

pub open spec fn line_directives(l: Seq<char>) -> Seq<(Seq<char>, ChangeV)> {
    match parse_line_spec(l) {
        Some(d) => seq![d],
        None => Seq::empty(),
    }
}

/// A line ended by `\r\n` loses its `\r`.
pub open spec fn strip_cr(l: Seq<char>) -> Seq<char> {
    if l.len() > 0 && l.last() == '\r' {
        l.drop_last()
    } else {
        l
    }
}

/// The directives of the lines of `s` from the line that starts at `start`, where
/// `i` is a position of that line not yet looked at.
pub open spec fn directives_from(s: Seq<char>, start: int, i: int) -> Seq<(Seq<char>, ChangeV)>
    decreases s.len() - i,
{
    if i >= s.len() {
        if start < s.len() {
            line_directives(s.subrange(start, s.len() as int))
        } else {
            Seq::empty()
        }
    } else if s[i] == '\n' {
        line_directives(strip_cr(s.subrange(start, i))) + directives_from(s, i + 1, i + 1)
    } else {
        directives_from(s, start, i + 1)
    }
}

/// The directives of a whole file, in file order.
pub open spec fn directives_of(s: Seq<char>) -> Seq<(Seq<char>, ChangeV)> {
    directives_from(s, 0, 0)
}

fn is_whitespace(c: char) -> (r: bool)
    ensures
        r == is_ws(c),
{
    let u = c as u32;
    (0x09 <= u && u <= 0x0d) || u == 0x20 || u == 0x85 || u == 0xa0 || u == 0x1680 || (0x2000
        <= u && u <= 0x200a) || u == 0x2028 || u == 0x2029 || u == 0x202f || u == 0x205f || u
        == 0x3000
}

fn find_space(l: &str, from: usize, n: usize) -> (r: usize)
    requires
        n == l@.len(),
        from <= n,
    ensures
        r == first_space_from(l@, from as int),
        from <= r <= n,
{
    let mut i: usize = from;
    while i < n
        invariant
            from <= i <= n,
            n == l@.len(),
            first_space_from(l@, i as int) == first_space_from(l@, from as int),
        decreases n - i,
    {
        if l.get_char(i) == ' ' {
            return i;
        }
        i = i + 1;
    }
    i
}

fn skip_whitespace(l: &str, from: usize, n: usize) -> (r: usize)
    requires
        n == l@.len(),
        from <= n,
    ensures
        r == first_non_ws_from(l@, from as int),
        from <= r <= n,
{
    let mut i: usize = from;
    while i < n
        invariant
            from <= i <= n,
            n == l@.len(),
            first_non_ws_from(l@, i as int) == first_non_ws_from(l@, from as int),
        decreases n - i,
    {
        if !is_whitespace(l.get_char(i)) {
            return i;
        }
        i = i + 1;
    }
    i
}

fn is_word(s: &String, w: &str) -> (r: bool)
    ensures
        r == (s@ == w@),
{
    let t = String::from_str(w);
    *s == t
}

/// Parses one line into a directive; a line that is not one gives `None`.
pub fn parse_line(l: &str) -> (r: Option<Directive>)
    ensures
        match r {
            Some(d) => parse_line_spec(l@) == Some(directive_view(d)),
            None => parse_line_spec(l@) is None,
        },
{
    proof {
        reveal_strlit("unset");
        reveal_strlit("set");
        reveal_strlit("append");
        reveal_strlit("prepend");
        assert("unset"@ =~= seq!['u', 'n', 's', 'e', 't']);
        assert("set"@ =~= seq!['s', 'e', 't']);
        assert("append"@ =~= seq!['a', 'p', 'p', 'e', 'n', 'd']);
        assert("prepend"@ =~= seq!['p', 'r', 'e', 'p', 'e', 'n', 'd']);
    }
    let n = l.unicode_len();
    let p = find_space(l, 0, n);
    if p >= n {
        return None;
    }
    let verb = String::from_str(l.substring_char(0, p));
    let a = skip_whitespace(l, p + 1, n);
    let q = find_space(l, a, n);
    if q >= n {
        if a < n && is_word(&verb, "unset") {
            Some((String::from_str(l.substring_char(a, n)), VarChange::Unset))
        } else {
            None
        }
    } else {
        let name = String::from_str(l.substring_char(a, q));
        let b = skip_whitespace(l, q + 1, n);
        let value = String::from_str(l.substring_char(b, n));
        if is_word(&verb, "set") {
            Some((name, VarChange::Assign(value)))
        } else if is_word(&verb, "append") {
            Some((name, VarChange::Append(value)))
        } else if is_word(&verb, "prepend") {
            Some((name, VarChange::Prepend(value)))
        } else {
            None
        }
    }
}

fn push_line(content: &str, start: usize, end: usize, out: &mut Vec<Directive>)
    requires
        start <= end <= content@.len(),
    ensures
        directives_view(final(out)@) == directives_view(old(out)@) + line_directives(
            content@.subrange(start as int, end as int),
        ),
{
    let ghost before = out@;
    match parse_line(content.substring_char(start, end)) {
        Some(d) => {
            out.push(d);
            assert(directives_view(out@) =~= directives_view(before) + seq![directive_view(d)]);
        },
        None => {
            assert(directives_view(out@) =~= directives_view(before) + Seq::empty());
        },
    }
}

/// Parses a whole file: the directives of its lines, in file order.
pub fn parse_content(content: &str) -> (r: Vec<Directive>)
    ensures
        directives_view(r@) == directives_of(content@),
{
    let n = content.unicode_len();
    let mut out: Vec<Directive> = Vec::new();
    let mut start: usize = 0;
    let mut i: usize = 0;
    while i < n
        invariant
            n == content@.len(),
            start <= i <= n,
            directives_of(content@) == directives_view(out@) + directives_from(
                content@,
                start as int,
                i as int,
            ),
        decreases n - i,
    {
        if content.get_char(i) == '\n' {
            let ghost s = content@;
            let ghost old_out = directives_view(out@);
            let end = if i > start && content.get_char(i - 1) == '\r' {
                i - 1
            } else {
                i
            };
            assert(s.subrange(start as int, end as int) == strip_cr(
                s.subrange(start as int, i as int),
            ));
            push_line(content, start, end, &mut out);
            assert(directives_of(s) == directives_view(out@) + directives_from(
                s,
                i + 1,
                i + 1,
            ));
            start = i + 1;
        }
        i = i + 1;
    }
    if start < n {
        assert(directives_from(content@, start as int, i as int) == line_directives(
            content@.subrange(start as int, n as int),
        ));
        push_line(content, start, n, &mut out);
    } else {
        assert(directives_of(content@) =~= directives_view(out@));
    }
    out
}

/// What one directory's `.env` file contributes: the directory, whether the file
/// is trusted, and its directives, which an untrusted file never has applied.
pub fn read(dir: &String, content: &str, allowed: bool) -> (r: (String, bool, Vec<Directive>))
    ensures
        r.0@ == dir@,
        r.1 == allowed,
        allowed ==> directives_view(r.2@) == directives_of(content@),
        !allowed ==> r.2@.len() == 0,
{
    if allowed {
        (dir.clone(), true, parse_content(content))
    } else {
        (dir.clone(), false, Vec::new())
    }
}

} // verus!
