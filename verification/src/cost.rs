//! How many scan steps reading takes.
//!
//! A scan step reads a full chunk, unless the text ends before. So of the
//! steps that a query takes all read a full chunk but two at most: one that
//! reads the last bytes of the text, and one that finds nothing left.

use vstd::prelude::*;

verus! {

/// Whether `steps` scan steps that read `read` bytes in all, and left `left`
/// bytes of the text unread, each read a full chunk of `chunk` bytes, but
/// for one that read the last bytes of the text.
pub open spec fn on_budget(steps: int, read: int, chunk: int, left: int) -> bool {
    steps * chunk <= read || (left == 0 && (steps - 1) * chunk <= read)
}

/// A step that reads a full chunk, or the last bytes of the text, keeps the
/// steps on budget.
pub proof fn lemma_budget_kept(steps: int, read: int, chunk: int, left: int, n: int)
    requires
        chunk > 0,
        0 < n <= left,
        n == chunk || n == left,
        on_budget(steps, read, chunk, left),
    ensures
        on_budget(steps + 1, read + n, chunk, left - n),
{
    assert((steps + 1) * chunk == steps * chunk + chunk) by (nonlinear_arith);
    assert((steps + 1 - 1) * chunk == steps * chunk);
}

/// Of steps on budget, and of these with one more step that read nothing,
/// all but two read a full chunk.
pub proof fn lemma_budget_spent(steps: int, read: int, chunk: int, left: int)
    requires
        chunk > 0,
        on_budget(steps, read, chunk, left),
    ensures
        (steps - 2) * chunk <= read,
        (steps + 1 - 2) * chunk <= read,
{
    assert((steps - 2) * chunk == steps * chunk - 2 * chunk) by (nonlinear_arith);
    assert((steps - 1) * chunk == steps * chunk - chunk) by (nonlinear_arith);
}

/// The sum of the entries of `xs`.
pub open spec fn total(xs: Seq<int>) -> int
    decreases xs.len(),
{
    if xs.len() == 0 {
        0
    } else {
        total(xs.drop_last()) + xs.last()
    }
}

/// The scan steps of a run of queries on one stream. Query `i` took
/// `steps[i]` steps and read `read[i]` bytes, all but two of its steps a
/// full chunk; what the queries read, taken together, is no more than the
/// `length` of the text, since nothing is read twice. Then the steps of the
/// whole run, but for two to each query, read a full chunk each: there are
/// no more of them than chunks in the text.
pub proof fn lemma_steps_of_a_run(steps: Seq<int>, read: Seq<int>, chunk: int, length: int)
    requires
        chunk > 0,
        steps.len() == read.len(),
        forall|i: int| 0 <= i < steps.len() ==> (#[trigger] steps[i] - 2) * chunk <= read[i],
        total(read) <= length,
    ensures
        (total(steps) - 2 * steps.len()) * chunk <= length,
    decreases steps.len(),
{
    if steps.len() > 0 {
        let last = steps.len() - 1;
        lemma_steps_of_a_run(
            steps.drop_last(),
            read.drop_last(),
            chunk,
            length - read.last(),
        );
        assert((steps[last] - 2) * chunk <= read[last]);
        assert((total(steps) - 2 * steps.len()) * chunk == (total(steps.drop_last()) - 2 * (
            steps.len() - 1)) * chunk + (steps[last] - 2) * chunk) by (nonlinear_arith)
            requires
                total(steps) == total(steps.drop_last()) + steps[last],
        ;
    } else {
        assert((total(steps) - 2 * steps.len()) * chunk == 0) by (nonlinear_arith)
            requires
                total(steps) == 0,
                steps.len() == 0,
        ;
        assert(total(read) == 0);
    }
}

} // verus!
