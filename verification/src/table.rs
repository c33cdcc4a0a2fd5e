//! The tier table and the progressive fee calculation.
//!
//! A [`TieredCalculator`] is an ordered table of `(threshold, rate)` tiers,
//! ascending by threshold, thresholds unique.  Tier `i` charges its rate on
//! the part of the amount strictly above its own threshold and at or below
//! the next tier's threshold; the last tier is open-ended.  The fee is the
//! sum of those charges.  The spec functions here state that calculation
//! over the table's view, a sequence of `(threshold, rate)` pairs counted
//! in millionths; fees come out in trillionths, so every charge is exact.

use vstd::prelude::*;

use crate::fixed::{in_amount_range, in_rate_range, Dec, Fee};

verus! {

/// Thresholds strictly ascend: each tier starts above the one before it.
pub open spec fn tiers_sorted(s: Seq<(int, int)>) -> bool {
    forall|i: int, j: int|
        #![trigger s[i], s[j]]
        0 <= i < j < s.len() ==> s[i].0 < s[j].0
}

/// Every threshold is in amount range and every rate in rate range.
pub open spec fn tiers_bounded(s: Seq<(int, int)>) -> bool {
    forall|i: int|
        #![trigger s[i]]
        0 <= i < s.len() ==> in_amount_range(s[i].0) && in_rate_range(s[i].1)
}

/// The part of the amount `a` that tier `i` can see: `a` capped at the next
/// tier's threshold, or all of `a` for the last, open-ended tier.
pub open spec fn capped_amount(s: Seq<(int, int)>, a: int, i: int) -> int {
    if i + 1 < s.len() {
        vstd::math::min(a, s[i + 1].0)
    } else {
        a
    }
}

/// The width of the band of `a` that falls in tier `i`: what the tier can
/// see, less its own threshold, clamped at zero.
pub open spec fn span_at(s: Seq<(int, int)>, a: int, i: int) -> int {
    vstd::math::max(0, capped_amount(s, a, i) - s[i].0)
}

/// The fee, in trillionths, that the first `n` tiers charge on `a`.
pub open spec fn fee_upto(s: Seq<(int, int)>, a: int, n: int) -> int
    decreases n,
{
    if n <= 0 {
        0
    } else {
        fee_upto(s, a, n - 1) + span_at(s, a, n - 1) * s[n - 1].1
    }
}

/// The fee, in trillionths, that the whole table charges on `a`: the sum of
/// `span * rate` over all tiers.
pub open spec fn spec_fee(s: Seq<(int, int)>, a: int) -> int {
    fee_upto(s, a, s.len() as int)
}

/// The table after setting the rate at threshold `t` to `r`: the pair goes
/// in at its sorted position, replacing the pair already keyed by `t` if one
/// is there.
pub open spec fn upsert(s: Seq<(int, int)>, t: int, r: int) -> Seq<(int, int)>
    decreases s.len(),
{
    if s.len() == 0 {
        seq![(t, r)]
    } else if t < s[0].0 {
        seq![(t, r)] + s
    } else if t == s[0].0 {
        seq![(t, r)] + s.drop_first()
    } else {
        seq![s[0]] + upsert(s.drop_first(), t, r)
    }
}

/// Upserting a key larger than the first `i` keys leaves that prefix alone.
proof fn lemma_upsert_prefix(s: Seq<(int, int)>, t: int, r: int, i: int)
    requires
        0 <= i <= s.len(),
        forall|k: int| 0 <= k < i ==> s[k].0 < t,
    ensures
        upsert(s, t, r) == s.take(i) + upsert(s.skip(i), t, r),
    decreases i,
{
    if i == 0 {
        assert(s.skip(0) =~= s);
        assert(s.take(0) + upsert(s, t, r) =~= upsert(s, t, r));
    } else {
        assert(s[0].0 < t);
        let rest = s.drop_first();
        assert forall|k: int| 0 <= k < i - 1 implies rest[k].0 < t by {
            assert(rest[k] == s[k + 1]);
        }
        lemma_upsert_prefix(rest, t, r, i - 1);
        assert(seq![s[0]] + rest.take(i - 1) =~= s.take(i));
        assert(rest.skip(i - 1) =~= s.skip(i));
        assert(seq![s[0]] + (rest.take(i - 1) + upsert(rest, t, r)) =~= (seq![s[0]]
            + rest.take(i - 1)) + upsert(rest, t, r));
    }
}

/// The summed widths of the bands of `a` seen by the first `n` tiers.
pub open spec fn spans_upto(s: Seq<(int, int)>, a: int, n: int) -> int
    decreases n,
{
    if n <= 0 {
        0
    } else {
        spans_upto(s, a, n - 1) + span_at(s, a, n - 1)
    }
}

/// The part of `a` at or below tier `i`'s threshold; all of `a` past the end.
pub open spec fn amount_below(s: Seq<(int, int)>, a: int, i: int) -> int {
    if i < s.len() {
        vstd::math::min(a, s[i].0)
    } else {
        a
    }
}

/// The bands the first `n` tiers see are disjoint parts of `a`, so their
/// widths sum to no more than the stretch of `a` above the lowest threshold.
proof fn lemma_spans_upto_bound(s: Seq<(int, int)>, a: int, n: int)
    requires
        tiers_sorted(s),
        0 <= n <= s.len(),
    ensures
        0 <= spans_upto(s, a, n),
        spans_upto(s, a, n) <= amount_below(s, a, n) - amount_below(s, a, 0),
    decreases n,
{
    if n > 0 {
        lemma_spans_upto_bound(s, a, n - 1);
        assert(capped_amount(s, a, n - 1) == amount_below(s, a, n));
        if n < s.len() {
            assert(s[n - 1].0 < s[n].0);
        }
    }
}

/// Each charge is at most the rate cap times the band's width, so the fee so
/// far is bracketed by the cap times the summed widths.
proof fn lemma_fee_vs_spans(s: Seq<(int, int)>, a: int, n: int)
    requires
        tiers_bounded(s),
        0 <= n <= s.len(),
    ensures
        -(10_000_000_000_000 * spans_upto(s, a, n)) <= fee_upto(s, a, n),
        fee_upto(s, a, n) <= 10_000_000_000_000 * spans_upto(s, a, n),
    decreases n,
{
    if n > 0 {
        lemma_fee_vs_spans(s, a, n - 1);
        let sp = span_at(s, a, n - 1);
        let r = s[n - 1].1;
        assert(in_rate_range(r));
        assert(-(10_000_000_000_000 * sp) <= sp * r <= 10_000_000_000_000 * sp)
            by (nonlinear_arith)
            requires
                sp >= 0,
                -10_000_000_000_000 <= r <= 10_000_000_000_000,
        ;
    }
}

/// The fee any prefix of a well-formed table charges on an in-range amount
/// stays well inside `i128`.
proof fn lemma_fee_upto_in_range(s: Seq<(int, int)>, a: int, n: int)
    requires
        tiers_sorted(s),
        tiers_bounded(s),
        in_amount_range(a),
        0 <= n <= s.len(),
    ensures
        -2_000_000_000_000_000_000_000_000_000_000_000 <= fee_upto(s, a, n),
        fee_upto(s, a, n) <= 2_000_000_000_000_000_000_000_000_000_000_000,
{
    lemma_spans_upto_bound(s, a, n);
    lemma_fee_vs_spans(s, a, n);
    if s.len() > 0 {
        assert(in_amount_range(s[0].0));
    }
    assert(spans_upto(s, a, n) <= 200_000_000_000_000_000_000);
}

/// A sorted, bounded table stays sorted and bounded when the pair `(t, r)`
/// goes in at position `i`, its sorted place, displacing `drop` pairs (one
/// when a tier keyed by `t` was already there, none otherwise).
proof fn lemma_wf_decomposed(s: Seq<(int, int)>, t: int, r: int, i: int, drop: int)
    requires
        tiers_sorted(s),
        tiers_bounded(s),
        in_amount_range(t),
        in_rate_range(r),
        0 <= i,
        drop == 0 || drop == 1,
        i + drop <= s.len(),
        forall|k: int| 0 <= k < i ==> s[k].0 < t,
        drop == 1 ==> s[i].0 == t,
        drop == 0 && i < s.len() ==> t < s[i].0,
    ensures
        tiers_sorted(s.take(i) + seq![(t, r)] + s.skip(i + drop)),
        tiers_bounded(s.take(i) + seq![(t, r)] + s.skip(i + drop)),
{
    let d = s.take(i) + seq![(t, r)] + s.skip(i + drop);
    assert(d.len() == s.len() + 1 - drop);
    assert forall|k: int| 0 <= k < d.len() implies #[trigger] d[k] == if k < i {
        s[k]
    } else if k == i {
        (t, r)
    } else {
        s[k - 1 + drop]
    } by {}
    assert forall|p: int, q: int| 0 <= p < q < d.len() implies d[p].0 < d[q].0 by {
        if p < i && q > i {
            assert(s[p].0 < t);
            if drop == 1 {
                assert(s[i].0 < s[q - 1 + drop].0);
            } else if i < q - 1 {
                assert(s[i].0 < s[q - 1].0);
            }
        } else if p == i && q > i {
            if drop == 1 {
                assert(s[i].0 < s[q - 1 + drop].0);
            } else if i < q - 1 {
                assert(s[i].0 < s[q - 1].0);
            }
        }
    }
    assert forall|k: int| 0 <= k < d.len() implies in_amount_range(#[trigger] d[k].0)
        && in_rate_range(d[k].1) by {
        if k < i {
            assert(in_amount_range(s[k].0) && in_rate_range(s[k].1));
        } else if k > i {
            assert(in_amount_range(s[k - 1 + drop].0) && in_rate_range(s[k - 1 + drop].1));
        }
    }
}

/// An ordered table of `(threshold, rate)` tiers and the progressive fee it
/// charges: each tier's rate applies to the band of the amount between its
/// own threshold and the next one.
pub struct TieredCalculator {
    tiers: Vec<(Dec, Dec)>,
}

impl View for TieredCalculator {
    type V = Seq<(int, int)>;

    /// The tiers in ascending threshold order, as `(threshold, rate)` pairs
    /// counted in millionths.
    closed spec fn view(&self) -> Seq<(int, int)> {
        self.tiers@.map_values(|p: (Dec, Dec)| (p.0@, p.1@))
    }
}

impl TieredCalculator {
    /// The table is sorted and every tier within the magnitude caps.
    pub open spec fn wf(self) -> bool {
        tiers_sorted(self@) && tiers_bounded(self@)
    }

    /// An empty table: it charges nothing on any amount.
    pub fn new() -> (c: TieredCalculator)
        ensures
            c@ == Seq::<(int, int)>::empty(),
            c.wf(),
    {
        let c = TieredCalculator { tiers: Vec::new() };
        proof {
            assert(c@ =~= Seq::<(int, int)>::empty());
        }
        c
    }

    /// Set the rate charged above `threshold` to `multiplier`.
    ///
    /// Tiers may arrive in any order: the pair goes in at its sorted
    /// position, and a second call with the same threshold overwrites the
    /// rate, so thresholds stay unique.  The magnitude caps are what the
    /// fee arithmetic can absorb.
    pub fn threshold(&mut self, threshold: Dec, multiplier: Dec)
        requires
            old(self).wf(),
            in_amount_range(threshold@),
            in_rate_range(multiplier@),
        ensures
            final(self).wf(),
            final(self)@ == upsert(old(self)@, threshold@, multiplier@),
    {
        let t: i128 = threshold.units();
        let mut idx: usize = 0;
        while idx < self.tiers.len() && self.tiers[idx].0.units() < t
            invariant
                *self == *old(self),
                idx <= self.tiers.len(),
                t as int == threshold@,
                forall|k: int| 0 <= k < idx ==> self@[k].0 < threshold@,
            decreases self.tiers.len() - idx,
        {
            proof {
                assert(self@[idx as int] == (self.tiers@[idx as int].0@,
                self.tiers@[idx as int].1@));
            }
            idx = idx + 1;
        }
        let ghost s0 = self@;
        let ghost gt = threshold@;
        let ghost gr = multiplier@;
        let ghost gi = idx as int;
        proof {
            if idx < self.tiers.len() {
                assert(s0[gi] == (self.tiers@[gi].0@, self.tiers@[gi].1@));
            }
            lemma_upsert_prefix(s0, gt, gr, gi);
        }
        if idx < self.tiers.len() && self.tiers[idx].0.units() == t {
            self.tiers[idx] = (threshold, multiplier);
            proof {
                assert(s0[gi].0 == gt);
                assert(self.tiers@ == old(self).tiers@.update(gi, (threshold, multiplier)));
                assert forall|k: int| 0 <= k < s0.len() implies #[trigger] self@[k] == (s0.take(gi)
                    + seq![(gt, gr)] + s0.skip(gi + 1))[k] by {
                    assert(self@[k] == (self.tiers@[k].0@, self.tiers@[k].1@));
                    if k != gi {
                        assert(self.tiers@[k] == old(self).tiers@[k]);
                        assert(s0[k] == (old(self).tiers@[k].0@, old(self).tiers@[k].1@));
                    }
                }
                assert(self@ =~= s0.take(gi) + seq![(gt, gr)] + s0.skip(gi + 1));
                assert(s0.skip(gi)[0] == s0[gi]);
                assert(upsert(s0.skip(gi), gt, gr) == seq![(gt, gr)] + s0.skip(gi).drop_first());
                assert(s0.skip(gi).drop_first() =~= s0.skip(gi + 1));
                assert(s0.take(gi) + (seq![(gt, gr)] + s0.skip(gi + 1)) =~= s0.take(gi) + seq![
                    (gt, gr),
                ] + s0.skip(gi + 1));
                assert(self@ == upsert(s0, gt, gr));
                lemma_wf_decomposed(s0, gt, gr, gi, 1);
            }
        } else {
            self.tiers.insert(idx, (threshold, multiplier));
            proof {
                assert(self.tiers@ == old(self).tiers@.insert(gi, (threshold, multiplier)));
                old(self).tiers@.insert_ensures(gi, (threshold, multiplier));
                assert forall|k: int| 0 <= k < s0.len() + 1 implies #[trigger] self@[k] == (s0.take(
                    gi,
                ) + seq![(gt, gr)] + s0.skip(gi))[k] by {
                    assert(self@[k] == (self.tiers@[k].0@, self.tiers@[k].1@));
                    if k < gi {
                        assert(self.tiers@[k] == old(self).tiers@[k]);
                        assert(s0[k] == (old(self).tiers@[k].0@, old(self).tiers@[k].1@));
                    } else if k > gi {
                        assert(self.tiers@[k] == old(self).tiers@[k - 1]);
                        assert(s0[k - 1] == (old(self).tiers@[k - 1].0@,
                        old(self).tiers@[k - 1].1@));
                    }
                }
                assert(self@ =~= s0.take(gi) + seq![(gt, gr)] + s0.skip(gi));
                if gi == s0.len() {
                    assert(s0.skip(gi) =~= Seq::<(int, int)>::empty());
                    assert(upsert(s0.skip(gi), gt, gr) == seq![(gt, gr)]);
                    assert(seq![(gt, gr)] + s0.skip(gi) =~= seq![(gt, gr)]);
                } else {
                    assert(s0.skip(gi)[0] == s0[gi]);
                    assert(gt < s0[gi].0);
                    assert(upsert(s0.skip(gi), gt, gr) == seq![(gt, gr)] + s0.skip(gi));
                }
                assert(s0.take(gi) + (seq![(gt, gr)] + s0.skip(gi)) =~= s0.take(gi) + seq![
                    (gt, gr),
                ] + s0.skip(gi));
                assert(self@ == upsert(s0, gt, gr));
                lemma_wf_decomposed(s0, gt, gr, gi, 0);
            }
        }
    }

    /// The tiers in ascending threshold order: the table's read contract.
    pub fn iterate_ascending(&self) -> (tiers: &Vec<(Dec, Dec)>)
        ensures
            tiers@.len() == self@.len(),
            forall|i: int|
                0 <= i < self@.len() ==> (#[trigger] tiers@[i].0)@ == self@[i].0
                    && tiers@[i].1@ == self@[i].1,
    {
        &self.tiers
    }

    /// The progressive fee owed on `offer_amount`.
    ///
    /// Walks the tiers in ascending order; each charges its rate on
    /// `max(0, min(amount, next threshold) - own threshold)`, the last on
    /// `max(0, amount - own threshold)`, and the charges are summed.  An
    /// empty table, or an amount at or below the lowest threshold, owes
    /// exactly zero.
    pub fn calculate(&self, offer_amount: Dec) -> (fee: Fee)
        requires
            self.wf(),
            in_amount_range(offer_amount@),
        ensures
            fee@ == spec_fee(self@, offer_amount@),
    {
        let a: i128 = offer_amount.units();
        let n: usize = self.tiers.len();
        let mut acc: i128 = 0;
        let mut i: usize = 0;
        while i < n
            invariant
                i <= n,
                n == self.tiers.len(),
                self.wf(),
                in_amount_range(offer_amount@),
                a as int == offer_amount@,
                acc == fee_upto(self@, offer_amount@, i as int),
            decreases n - i,
        {
            let ghost s = self@;
            let ghost ga = offer_amount@;
            proof {
                assert(s[i as int] == (self.tiers@[i as int].0@, self.tiers@[i as int].1@));
                assert(in_amount_range(s[i as int].0) && in_rate_range(s[i as int].1));
            }
            let lower: i128 = self.tiers[i].0.units();
            let capped: i128 = if i + 1 < n {
                proof {
                    assert(s[i + 1] == (self.tiers@[i + 1].0@, self.tiers@[i + 1].1@));
                    assert(in_amount_range(s[i + 1].0));
                }
                let next: i128 = self.tiers[i + 1].0.units();
                if a < next {
                    a
                } else {
                    next
                }
            } else {
                a
            };
            let diff: i128 = capped - lower;
            let span: i128 = if diff < 0 {
                0
            } else {
                diff
            };
            let rate: i128 = self.tiers[i].1.units();
            proof {
                assert(capped as int == capped_amount(s, ga, i as int));
                assert(span as int == span_at(s, ga, i as int));
                assert(0 <= span <= 200_000_000_000_000_000_000);
                assert(-2_000_000_000_000_000_000_000_000_000_000_000 <= span * rate
                    <= 2_000_000_000_000_000_000_000_000_000_000_000) by (nonlinear_arith)
                    requires
                        0 <= span <= 200_000_000_000_000_000_000,
                        -10_000_000_000_000 <= rate <= 10_000_000_000_000,
                ;
                lemma_fee_upto_in_range(s, ga, i as int);
            }
            acc = acc + span * rate;
            i = i + 1;
        }
        Fee::from_units(acc)
    }
}

} // verus!
