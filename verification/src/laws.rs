//! General properties of the progressive fee calculation, stated over the
//! table's view and proved once for every table and amount.
//!
//! Each law speaks about [`spec_fee`], the value that
//! `TieredCalculator::calculate` is proved to return, so what is shown here
//! holds of the executable calculation as well.

use vstd::prelude::*;

use vstd::arithmetic::mul::lemma_mul_inequality;

use crate::table::{capped_amount, fee_upto, span_at, spec_fee, tiers_sorted};

verus! {

/// A fee built from zero-width bands is zero.
proof fn lemma_fee_upto_when_spans_zero(s: Seq<(int, int)>, a: int, n: int)
    requires
        forall|i: int| 0 <= i < n ==> span_at(s, a, i) == 0,
    ensures
        fee_upto(s, a, n) == 0,
    decreases n,
{
    if n > 0 {
        lemma_fee_upto_when_spans_zero(s, a, n - 1);
        assert(span_at(s, a, n - 1) == 0);
    }
}

/// An amount at or below the lowest threshold — or any amount against an
/// empty table — owes nothing: no tier sees any band of it.
pub proof fn lemma_fee_below_lowest_threshold(s: Seq<(int, int)>, a: int)
    requires
        tiers_sorted(s),
        s.len() == 0 || a <= s[0].0,
    ensures
        spec_fee(s, a) == 0,
{
    assert forall|i: int| 0 <= i < s.len() implies span_at(s, a, i) == 0 by {
        if 0 < i {
            assert(s[0].0 < s[i].0);
        }
        assert(capped_amount(s, a, i) <= a);
    }
    lemma_fee_upto_when_spans_zero(s, a, s.len() as int);
}

/// A negative amount owes nothing, as long as no tier starts below zero.
/// A table whose lowest tier does start below zero charges a negative
/// amount for the band between that threshold and the amount, so the
/// restriction on thresholds cannot be dropped.
pub proof fn lemma_fee_negative_amount(s: Seq<(int, int)>, a: int)
    requires
        tiers_sorted(s),
        forall|i: int| 0 <= i < s.len() ==> (#[trigger] s[i]).0 >= 0,
    ensures
        a < 0 ==> spec_fee(s, a) == 0,
{
    if a < 0 {
        if s.len() > 0 {
            assert(s[0].0 >= 0);
        }
        lemma_fee_below_lowest_threshold(s, a);
    }
}

/// A table holding the single tier `(0, r)` charges the whole positive part
/// of the amount at rate `r`: the fee is exactly `max(0, a) * r`.
pub proof fn lemma_fee_single_tier(r: int, a: int)
    ensures
        spec_fee(seq![(0, r)], a) == vstd::math::max(0, a) * r,
{
    let s = seq![(0int, r)];
    assert(capped_amount(s, a, 0) == a);
    assert(fee_upto(s, a, 1) == fee_upto(s, a, 0) + span_at(s, a, 0) * s[0].1);
}

/// Widening the amount can only widen the band each tier sees.
proof fn lemma_fee_upto_monotone(s: Seq<(int, int)>, a1: int, a2: int, n: int)
    requires
        forall|i: int| 0 <= i < s.len() ==> (#[trigger] s[i]).1 >= 0,
        a1 <= a2,
        0 <= n <= s.len(),
    ensures
        fee_upto(s, a1, n) <= fee_upto(s, a2, n),
    decreases n,
{
    if n > 0 {
        lemma_fee_upto_monotone(s, a1, a2, n - 1);
        assert(span_at(s, a1, n - 1) <= span_at(s, a2, n - 1));
        assert(s[n - 1].1 >= 0);
        lemma_mul_inequality(span_at(s, a1, n - 1), span_at(s, a2, n - 1), s[n - 1].1);
    }
}

/// When no rate is negative, the fee is non-decreasing in the amount: a
/// larger amount never owes a smaller fee.
pub proof fn lemma_fee_monotone(s: Seq<(int, int)>, a1: int, a2: int)
    requires
        forall|i: int| 0 <= i < s.len() ==> (#[trigger] s[i]).1 >= 0,
        a1 <= a2,
    ensures
        spec_fee(s, a1) <= spec_fee(s, a2),
{
    lemma_fee_upto_monotone(s, a1, a2, s.len() as int);
}

} // verus!
