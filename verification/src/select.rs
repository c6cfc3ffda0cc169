//! Finding the first element of a sequence that qualifies.

use vstd::prelude::*;

verus! {

/// Index of the first `true` in `flags` at or after `from`; the length of
/// `flags` when there is none.
pub open spec fn first_index(flags: Seq<bool>, from: int) -> int
    decreases flags.len() - from,
{
    if from >= flags.len() {
        flags.len() as int
    } else if flags[from] {
        from
    } else {
        first_index(flags, from + 1)
    }
}

/// The first index lies between `from` and the length, holds `true` when it
/// is an index at all, and nothing before it does.
pub proof fn lemma_first_index(flags: Seq<bool>, from: int)
    requires
        0 <= from <= flags.len(),
    ensures
        from <= first_index(flags, from) <= flags.len(),
        first_index(flags, from) < flags.len() ==> flags[first_index(flags, from)],
        forall|i: int| from <= i < first_index(flags, from) ==> !flags[i],
    decreases flags.len() - from,
{
    if from < flags.len() && !flags[from] {
        lemma_first_index(flags, from + 1);
    }
}

/// An index with nothing `true` before it, that holds `true` or is the
/// length, is the first index.
pub proof fn lemma_first_index_is(flags: Seq<bool>, from: int, at: int)
    requires
        0 <= from <= at <= flags.len(),
        forall|i: int| from <= i < at ==> !flags[i],
        at < flags.len() ==> flags[at],
    ensures
        first_index(flags, from) == at,
    decreases at - from,
{
    if from < at {
        lemma_first_index_is(flags, from + 1, at);
    }
}

} // verus!
