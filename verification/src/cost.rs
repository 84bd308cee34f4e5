//! Costs are unsigned 64-bit numbers. Sums that would leave that range stay
//! at its upper end, so a cost never wraps round to a small number.

use vstd::prelude::*;

verus! {

/// `x`, held to the range of a cost.
pub open spec fn capped(x: int) -> u64 {
    if x > u64::MAX {
        u64::MAX
    } else if x < 0 {
        0
    } else {
        x as u64
    }
}

/// The exact sum of a sequence of costs.
pub open spec fn total(costs: Seq<u64>) -> nat
    decreases costs.len(),
{
    if costs.len() == 0 {
        0
    } else {
        total(costs.drop_last()) + costs.last() as nat
    }
}

/// `num_traits::Zero::zero` at `u64`: the number 0.
#[verifier::external_body]
pub(crate) fn zero() -> (z: u64)
    ensures
        z == 0,
{
    num_traits::Zero::zero()
}

/// The sum of two costs, held to the range of a cost.
pub fn plus(a: u64, b: u64) -> (c: u64)
    ensures
        c == capped(a + b),
        c >= a,
        c >= b,
{
    a.saturating_add(b)
}

/// Adding one more cost to a sequence adds it to the total.
pub proof fn lemma_total_push(costs: Seq<u64>, c: u64)
    ensures
        total(costs.push(c)) == total(costs) + c,
{
    assert(costs.push(c).drop_last() =~= costs);
}

/// The total of two sequences, one after the other, is the sum of their
/// totals.
pub proof fn lemma_total_concat(a: Seq<u64>, b: Seq<u64>)
    ensures
        total(a + b) == total(a) + total(b),
    decreases b.len(),
{
    if b.len() == 0 {
        assert(a + b =~= a);
    } else {
        assert((a + b).drop_last() =~= a + b.drop_last());
        lemma_total_concat(a, b.drop_last());
    }
}

} // verus!
