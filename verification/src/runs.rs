//! Runs: the longest stretch of a sequence, from a given index on, whose
//! items all belong to one class.

use vstd::prelude::*;

verus! {

/// The length of the longest run of items of `class` that starts at `from`.
pub open spec fn run_len<T>(items: Seq<T>, from: int, class: spec_fn(T) -> bool) -> nat
    decreases items.len() - from,
{
    if 0 <= from < items.len() && class(items[from]) {
        1 + run_len(items, from + 1, class)
    } else {
        0
    }
}

/// A run stays inside the sequence, holds only items of its class, and
/// cannot be made longer.
pub proof fn lemma_run_len<T>(items: Seq<T>, from: int, class: spec_fn(T) -> bool)
    requires
        0 <= from <= items.len(),
    ensures
        from + run_len(items, from, class) <= items.len(),
        forall|i: int| from <= i < from + run_len(items, from, class) ==> class(#[trigger] items[i]),
        from + run_len(items, from, class) < items.len() ==> !class(
            items[from + run_len(items, from, class)],
        ),
    decreases items.len() - from,
{
    if from < items.len() && class(items[from]) {
        lemma_run_len(items, from + 1, class);
    }
}

/// The only stretch of items of `class` from `from` that cannot be made
/// longer is the run.
pub proof fn lemma_run_len_unique<T>(
    items: Seq<T>,
    from: int,
    end: int,
    class: spec_fn(T) -> bool,
)
    requires
        0 <= from <= end <= items.len(),
        forall|i: int| from <= i < end ==> class(#[trigger] items[i]),
        end < items.len() ==> !class(items[end]),
    ensures
        run_len(items, from, class) == end - from,
    decreases end - from,
{
    if from < end {
        lemma_run_len_unique(items, from + 1, end, class);
    }
}

} // verus!
