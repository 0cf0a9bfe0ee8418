//! Counting the functions that `tree-grepper` reports.
use vstd::prelude::*;
use crate::text::{contains, contains_str, lines, lines_of, occurs_at, views};

verus! {

/// A line of `tree-grepper`'s output that reports a match of the capture `f`.
pub open spec fn reports_function(line: Seq<char>) -> bool {
    contains(line, ":f:"@)
}

/// The number of functions that the `tree-grepper` output `output` reports:
/// its lines that hold `:f:`.
pub open spec fn function_count(output: Seq<char>) -> nat {
    lines(output).filter(|l: Seq<char>| reports_function(l)).len()
}

/// The number of functions that the `tree-grepper` output `output` reports.
pub fn count_functions(output: &str) -> (n: usize)
    ensures
        n == function_count(output@),
        n == lines(output@).filter(|l: Seq<char>| holds_colon_f_colon(l)).len(),
{
    proof {
        lemma_function_count(output@);
    }
    let ls = lines_of(output);
    let ghost all = views(ls@);
    let mut n: usize = 0;
    let mut i: usize = 0;
    while i < ls.len()
        invariant
            i <= ls.len(),
            all == views(ls@),
            all == lines(output@),
            n == all.take(i as int).filter(|l: Seq<char>| reports_function(l)).len(),
            n <= i,
        decreases ls.len() - i,
    {
        assert(all.take(i + 1).drop_last() =~= all.take(i as int));
        assert(all[i as int] == ls@[i as int]@);
        reveal_with_fuel(Seq::<_>::filter, 1);
        if contains_str(ls[i].as_str(), ":f:") {
            n = n + 1;
        }
        i = i + 1;
    }
    assert(all.take(ls.len() as int) =~= all);
    n
}

/// The line holds the three characters `:`, `f`, `:` one after another.
pub open spec fn holds_colon_f_colon(line: Seq<char>) -> bool {
    exists|i: int| 0 <= i && i + 2 < line.len() && #[trigger] line[i] == ':' && line[i + 1] == 'f'
        && line[i + 2] == ':'
}

/// A line reports a function exactly when it holds `:f:`; a line with only
/// `:f` or `f:` or `::f`, such as a line of a function's body, does not.
pub proof fn lemma_reports_function(line: Seq<char>)
    ensures
        reports_function(line) <==> holds_colon_f_colon(line),
{
    reveal_strlit(":f:");
    let pat = seq![':', 'f', ':'];
    assert(":f:"@ =~= pat);
    if reports_function(line) {
        let i = choose|i: int| #[trigger] occurs_at(line, ":f:"@, i);
        assert(line.subrange(i, i + 3) == pat);
        assert(line.subrange(i, i + 3)[0] == line[i]);
        assert(line.subrange(i, i + 3)[1] == line[i + 1]);
        assert(line.subrange(i, i + 3)[2] == line[i + 2]);
    }
    if holds_colon_f_colon(line) {
        let i = choose|i: int| 0 <= i && i + 2 < line.len() && #[trigger] line[i] == ':' && line[i
            + 1] == 'f' && line[i + 2] == ':';
        assert(line.subrange(i, i + 3) =~= pat);
        assert(occurs_at(line, ":f:"@, i));
    }
}

/// The count is the number of lines of the output that hold `:f:`, and no
/// other line adds to it.
pub proof fn lemma_function_count(output: Seq<char>)
    ensures
        function_count(output) == lines(output).filter(|l: Seq<char>| holds_colon_f_colon(l)).len(),
{
    let f1 = |l: Seq<char>| reports_function(l);
    let f2 = |l: Seq<char>| holds_colon_f_colon(l);
    assert forall|l: Seq<char>| #[trigger] f1(l) == f2(l) by {
        lemma_reports_function(l);
    }
    assert(f1 =~= f2);
}

} // verus!
