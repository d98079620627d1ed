use vstd::prelude::*;
use crate::strseq::{join_sep, join_strings};

verus! {

/// The single command line a program path and its arguments are joined
/// into: single-space separation, no quoting and no escaping. A caller
/// whose argument contains whitespace must pre-quote it; this join
/// does no quoting of its own, a known and deliberate gap.
pub open spec fn spec_command_line(program: Seq<char>, args: Seq<Seq<char>>) -> Seq<char> {
    join_sep(seq![program] + args, ' ')
}

/// Joins a program path and its argument list into one command line.
pub fn build_command_line(program: &str, args: &Vec<String>) -> (r: String)
    ensures
        r@ == spec_command_line(program@, args.deep_view()),
{
    let mut parts: Vec<String> = Vec::new();
    parts.push(program.to_owned());
    proof {
        assert(parts.deep_view() =~~= seq![program@] + args.deep_view().take(0));
    }
    let mut i: usize = 0;
    while i < args.len()
        invariant
            i <= args@.len(),
            parts.deep_view() =~~= seq![program@] + args.deep_view().take(i as int),
        decreases args@.len() - i,
    {
        let ghost old_dv = parts.deep_view();
        parts.push(args[i].clone());
        proof {
            assert(parts.deep_view() =~~= old_dv.push(args.deep_view()[i as int]));
            assert(parts.deep_view() =~~= seq![program@] + args.deep_view().take(i as int + 1));
        }
        i += 1;
    }
    proof {
        assert(args.deep_view().take(args.deep_view().len() as int) =~~= args.deep_view());
        reveal_strlit(" ");
    }
    join_strings(&parts, " ")
}

} // verus!
