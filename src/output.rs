use vstd::prelude::*;
use vstd::string::*;

verus! {

/// The shell instruction that gives variable `k` the value `o`: an export of the
/// value in single quotes, or an unset.
pub open spec fn shell_command_spec(k: Seq<char>, o: Option<Seq<char>>) -> Seq<char> {
    match o {
        Some(v) => seq!['e', 'x', 'p', 'o', 'r', 't', ' '] + k + seq!['=', '\''] + v + seq!['\''],
        None => seq!['u', 'n', 's', 'e', 't', ' '] + k,
    }
}

pub open spec fn opt_view(o: Option<String>) -> Option<Seq<char>> {
    match o {
        Some(s) => Some(s@),
        None => None,
    }
}

/// Writes the shell instruction for one variable.
pub fn make_shell_command(k: &str, o: &Option<String>) -> (r: String)
    ensures
        r@ == shell_command_spec(k@, opt_view(*o)),
{
    proof {
        reveal_strlit("export ");
        reveal_strlit("='");
        reveal_strlit("'");
        reveal_strlit("unset ");
    }
    match o {
        Some(v) => {
            let r = String::from_str("export ").concat(k).concat("='").concat(v.as_str()).concat(
                "'",
            );
            assert(r@ =~= shell_command_spec(k@, opt_view(*o)));
            r
        },
        None => {
            let r = String::from_str("unset ").concat(k);
            assert(r@ =~= shell_command_spec(k@, opt_view(*o)));
            r
        },
    }
}

} // verus!
