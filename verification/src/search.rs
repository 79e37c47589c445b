//! The rate search and the overhead model.
//!
//! The client probes the path with flows of increasing packet rate.  After
//! each flow the server's report is folded into a [`RateSearch`]: a rate that
//! passed more traffic than any before (or lost nothing) doubles the next
//! attempt; otherwise the next attempt moves just above what passed, and
//! after three such non-improving rounds the search ends with the highest
//! passed rate.  Two searches at different payload lengths then give the
//! per-packet framing overhead by a two-point linear model.

use vstd::prelude::*;
use vstd::arithmetic::mul::lemma_mul_upper_bound;

use crate::analysis::{
    lemma_ranges_total_card, ranges_disjoint, ranges_set, ranges_total, ranges_valid, valid_range,
};
use crate::sequence::{missing_model, SequenceReport};

verus! {

/// Integer division rounding up, for non-negative `a` and positive `b`.
pub open spec fn div_ceil(a: int, b: int) -> int {
    (a + b - 1) / b
}

/// Truncating (round toward zero) division, as machine signed division does.
pub open spec fn trunc_div(a: int, b: int) -> int {
    if a >= 0 {
        if b > 0 {
            a / b
        } else {
            -(a / -b)
        }
    } else {
        if b > 0 {
            -((-a) / b)
        } else {
            (-a) / -b
        }
    }
}

/// A report is well formed when its ranges are valid, pairwise disjoint
/// 32-bit ranges and its duplicate count does not exceed its total count —
/// what the analyzer guarantees of every report it emits.
pub open spec fn report_wf(r: SequenceReport) -> bool {
    &&& ranges_valid(missing_model(r.missing@), 0x1_0000_0000)
    &&& ranges_disjoint(missing_model(r.missing@))
    &&& r.dups <= r.cnt
}

/// Disjoint valid ranges cover at most the whole number space.
proof fn lemma_ranges_total_bound(rs: Seq<(int, int)>, m: int)
    requires
        0 <= m,
        ranges_valid(rs, m),
        ranges_disjoint(rs),
    ensures
        0 <= ranges_total(rs) <= m,
{
    broadcast use vstd::set::group_set_axioms;

    lemma_ranges_total_card(rs, m);
    vstd::set_lib::lemma_int_range(0, m);
    assert(ranges_set(rs).subset_of(vstd::set_lib::set_int_range(0, m))) by {
        assert forall|x: int| #[trigger] ranges_set(rs).contains(x) implies 0 <= x < m by {
            let j = choose|j: int| 0 <= j < rs.len() && (#[trigger] rs[j]).0 <= x <= rs[j].1;
        }
    }
    vstd::set_lib::lemma_len_subset(ranges_set(rs), vstd::set_lib::set_int_range(0, m));
}

/// Appending a range adds its length to the total.
proof fn lemma_ranges_total_push(rs: Seq<(int, int)>, p: (int, int))
    ensures
        ranges_total(rs.push(p)) == ranges_total(rs) + (p.1 - p.0 + 1),
    decreases rs.len(),
{
    if rs.len() == 0 {
        assert(rs.push(p)[0] == p);
        assert(rs.push(p).drop_first() =~= Seq::<(int, int)>::empty());
        assert(ranges_total(rs.push(p).drop_first()) == 0);
    } else {
        assert(rs.push(p)[0] == rs[0]);
        assert(rs.push(p).drop_first() =~= rs.drop_first().push(p));
        lemma_ranges_total_push(rs.drop_first(), p);
    }
}

/// A prefix of a valid, pairwise disjoint list is valid and pairwise
/// disjoint.
proof fn lemma_prefix_wf(rs: Seq<(int, int)>, n: int, m: int)
    requires
        ranges_valid(rs, m),
        ranges_disjoint(rs),
        0 <= n <= rs.len(),
    ensures
        ranges_valid(rs.subrange(0, n), m),
        ranges_disjoint(rs.subrange(0, n)),
{
    let pre = rs.subrange(0, n);
    assert forall|j: int| 0 <= j < pre.len() implies valid_range(#[trigger] pre[j], m) by {
        assert(pre[j] == rs[j]);
    }
    assert forall|a: int, b: int| 0 <= a < b < pre.len() implies (#[trigger] pre[a]).1
        < (#[trigger] pre[b]).0 || pre[b].1 < pre[a].0 by {
        assert(pre[a] == rs[a] && pre[b] == rs[b]);
        assert(rs[a].1 < rs[b].0 || rs[b].1 < rs[a].0);
    }
}

/// Sum of the missing ranges of a report, `sum of (hi - lo + 1)`: how many
/// sequence numbers of the observed span never arrived.
pub fn missing_sum(report: &SequenceReport) -> (r: u64)
    requires
        report_wf(*report),
    ensures
        r == ranges_total(missing_model(report.missing@)),
{
    let ghost all = missing_model(report.missing@);
    let mut total: u64 = 0;
    let mut i: usize = 0;
    while i < report.missing.len()
        invariant
            report_wf(*report),
            all == missing_model(report.missing@),
            i <= report.missing.len(),
            total == ranges_total(all.subrange(0, i as int)),
        decreases report.missing.len() - i,
    {
        let (lo, hi) = report.missing[i];
        proof {
            assert(all[i as int] == (lo as int, hi as int));
            assert(valid_range(all[i as int], 0x1_0000_0000));
            lemma_ranges_total_push(all.subrange(0, i as int), (lo as int, hi as int));
            assert(all.subrange(0, i + 1) =~= all.subrange(0, i as int).push(
                (lo as int, hi as int),
            ));
            lemma_prefix_wf(all, i + 1, 0x1_0000_0000);
            lemma_ranges_total_bound(all.subrange(0, i + 1), 0x1_0000_0000);
        }
        total = total + ((hi - lo) as u64 + 1);
        i = i + 1;
    }
    proof {
        assert(all.subrange(0, report.missing@.len() as int) =~= all);
    }
    total
}

/// The iterative search for the highest sustainable packet rate.
pub struct RateSearch {
    /// The rate the next flow should request, in packets per second.
    pub pps: u64,
    /// The highest rate that passed so far.
    pub highest: u64,
    /// Consecutive rounds without improvement.
    pub stagnant: u32,
    /// Duration of each measurement flow, in seconds.
    pub secs: u64,
}

/// What the search decides after a report.
pub enum SearchStep {
    /// Run another flow at this rate.
    Continue(u64),
    /// The search is over; this is the highest passed rate.
    Done(u64),
}

impl RateSearch {
    /// A search starting at 1000 packets per second with three-second flows.
    pub fn new() -> (r: RateSearch)
        ensures
            r.pps == 1000,
            r.highest == 0,
            r.stagnant == 0,
            r.secs == 3,
    {
        RateSearch { pps: 1000, highest: 0, stagnant: 0, secs: 3 }
    }

    /// Fold one flow report into the search.
    ///
    /// With `lost = ceil(missing / secs)` and `passed = ceil((cnt - dups) /
    /// secs)`: a round that passed more than any before, or lost nothing,
    /// becomes the new best and the next attempt doubles it; any other round
    /// counts as stagnant and the next attempt is `passed + ceil((lost + 1) /
    /// 2)`.  The third stagnant round ends the search with the best rate.
    pub fn on_report(&mut self, report: &SequenceReport) -> (step: SearchStep)
        requires
            report_wf(*report),
            1 <= old(self).secs <= 0x1_0000_0000,
            old(self).stagnant < 3,
        ensures
            final(self).secs == old(self).secs,
            ({
                let lost = div_ceil(
                    ranges_total(missing_model(report.missing@)),
                    old(self).secs as int,
                );
                let passed = div_ceil(report.cnt - report.dups, old(self).secs as int);
                if passed > old(self).highest || lost == 0 {
                    &&& final(self).highest == passed
                    &&& final(self).stagnant == 0
                    &&& final(self).pps == 2 * passed
                    &&& step matches SearchStep::Continue(n) && n == 2 * passed
                } else {
                    &&& final(self).highest == old(self).highest
                    &&& final(self).stagnant == old(self).stagnant + 1
                    &&& if old(self).stagnant + 1 >= 3 {
                        step matches SearchStep::Done(h) && h == old(self).highest
                    } else {
                        &&& final(self).pps == passed + div_ceil(lost + 1, 2)
                        &&& step matches SearchStep::Continue(n) && n == passed + div_ceil(
                            lost + 1,
                            2,
                        )
                    }
                }
            }),
    {
        let missing = missing_sum(report);
        proof {
            lemma_ranges_total_bound(missing_model(report.missing@), 0x1_0000_0000);
        }
        let lost: u64 = (missing + self.secs - 1) / self.secs;
        let passed: u64 = (((report.cnt - report.dups) as u64) + self.secs - 1) / self.secs;
        proof {
            vstd::arithmetic::div_mod::lemma_div_is_ordered_by_denominator(
                (missing + self.secs - 1) as int,
                1,
                self.secs as int,
            );
            vstd::arithmetic::div_mod::lemma_div_is_ordered_by_denominator(
                ((report.cnt - report.dups) + self.secs - 1) as int,
                1,
                self.secs as int,
            );
        }
        if passed > self.highest || lost == 0 {
            self.highest = passed;
            self.stagnant = 0;
            self.pps = 2 * passed;
            SearchStep::Continue(self.pps)
        } else {
            self.stagnant = self.stagnant + 1;
            if self.stagnant >= 3 {
                SearchStep::Done(self.highest)
            } else {
                self.pps = passed + (lost + 2) / 2;
                SearchStep::Continue(self.pps)
            }
        }
    }
}

/// The two-point overhead model: with peak rates `pps0` at payload length
/// `len0` and `pps1` at `len1`, each packet costs `len + overhead` of the
/// same gross link capacity, so `overhead = (pps1 * len1 - pps0 * len0) /
/// (pps0 - pps1)` (truncating division, as the client computes it) and the
/// gross rate is the smaller of the two implied totals.
pub fn line_overhead(pps0: u32, len0: u32, pps1: u32, len1: u32) -> (r: (i128, i128))
    requires
        pps0 != pps1,
    ensures
        r.0 == trunc_div(pps1 as int * len1 as int - pps0 as int * len0 as int, pps0 as int - pps1 as int),
        r.1 == ({
            let g0 = pps0 as int * (len0 as int + r.0);
            let g1 = pps1 as int * (len1 as int + r.0);
            if g0 <= g1 {
                g0
            } else {
                g1
            }
        }),
{
    proof {
        lemma_mul_upper_bound(pps0 as int, 0xffff_ffff, len0 as int, 0xffff_ffff);
        lemma_mul_upper_bound(pps1 as int, 0xffff_ffff, len1 as int, 0xffff_ffff);
    }
    let net0: i128 = (pps0 as i128) * (len0 as i128);
    let net1: i128 = (pps1 as i128) * (len1 as i128);
    let num: i128 = net1 - net0;
    let den: i128 = (pps0 as i128) - (pps1 as i128);
    let overhead: i128 = signed_div(num, den);
    proof {
        lemma_trunc_div_bound(num as int, den as int);
        lemma_mul_bound_i128(pps0 as int, len0 as int + overhead as int);
        lemma_mul_bound_i128(pps1 as int, len1 as int + overhead as int);
    }
    let g0: i128 = (pps0 as i128) * ((len0 as i128) + overhead);
    let g1: i128 = (pps1 as i128) * ((len1 as i128) + overhead);
    let gross: i128 = if g0 <= g1 {
        g0
    } else {
        g1
    };
    (overhead, gross)
}

/// The magnitude of a truncating quotient never exceeds the dividend's.
proof fn lemma_trunc_div_bound(a: int, b: int)
    requires
        b != 0,
        -0x1_0000_0000_0000_0000_0000 <= a <= 0x1_0000_0000_0000_0000_0000,
    ensures
        -0x1_0000_0000_0000_0000_0000 <= trunc_div(a, b) <= 0x1_0000_0000_0000_0000_0000,
{
    let ma: int = if a >= 0 {
        a
    } else {
        -a
    };
    let mb: int = if b > 0 {
        b
    } else {
        -b
    };
    assert(mb >= 1);
    vstd::arithmetic::div_mod::lemma_div_is_ordered_by_denominator(ma, 1, mb);
    vstd::arithmetic::div_mod::lemma_div_pos_is_pos(ma, mb);
}

/// A product of a 32-bit factor and a bounded factor stays within `i128`.
proof fn lemma_mul_bound_i128(x: int, y: int)
    requires
        0 <= x <= 0xffff_ffff,
        -0x2_0000_0000_0000_0000_0000 <= y <= 0x2_0000_0000_0000_0000_0000,
    ensures
        -0x2_0000_0000_0000_0000_0000_0000_0000 <= x * y
            <= 0x2_0000_0000_0000_0000_0000_0000_0000,
{
    assert(-0x2_0000_0000_0000_0000_0000_0000_0000 <= x * y
        <= 0x2_0000_0000_0000_0000_0000_0000_0000) by (nonlinear_arith)
        requires
            0 <= x <= 0xffff_ffff,
            -0x2_0000_0000_0000_0000_0000 <= y <= 0x2_0000_0000_0000_0000_0000,
    ;
}

/// Truncating division on bounded signed values, computed on magnitudes.
fn signed_div(a: i128, b: i128) -> (r: i128)
    requires
        b != 0,
        -0x1_0000_0000_0000_0000_0000 <= a <= 0x1_0000_0000_0000_0000_0000,
        -0x1_0000_0000_0000_0000_0000 <= b <= 0x1_0000_0000_0000_0000_0000,
    ensures
        r == trunc_div(a as int, b as int),
{
    let ma: u128 = if a < 0 {
        (-a) as u128
    } else {
        a as u128
    };
    let mb: u128 = if b < 0 {
        (-b) as u128
    } else {
        b as u128
    };
    let q: u128 = ma / mb;
    proof {
        vstd::arithmetic::div_mod::lemma_div_is_ordered_by_denominator(ma as int, 1, mb as int);
        vstd::arithmetic::div_mod::lemma_div_pos_is_pos(ma as int, mb as int);
    }
    if (a < 0) != (b < 0) {
        -(q as i128)
    } else {
        q as i128
    }
}

} // verus!
