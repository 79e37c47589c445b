//! Wrap-aware sequence analysis.
//!
//! `Sequencer` hands out consecutive sequence numbers with modular wrap.
//! `ReSequencer` folds a stream of observed sequence numbers into a compact
//! summary: the ranges still missing, a duplicate count, a total count, and
//! the last number observed.  Both are generic over the number width through
//! [`SeqNum`](crate::seqnum::SeqNum); the wire uses the 32-bit instantiation.
//!
//! The behaviour of `track` is specified exactly by the mathematical
//! transition function [`track_model`]; the laws proved about iterated
//! tracking live in [`crate::analysis`].

use vstd::prelude::*;

use crate::seqnum::{add_mod, sub_mod, SeqNum};

verus! {

/// Mathematical state of a `ReSequencer`: the same four fields, over `int`.
pub ghost struct ReSeqModel {
    /// Last sequence number observed, if any.
    pub last: Option<int>,
    /// Inclusive ranges of numbers not yet observed.
    pub missing: Seq<(int, int)>,
    /// How many observations were classified as duplicates.
    pub dups: int,
    /// Total number of observations.
    pub cnt: int,
}

/// The state of a freshly created `ReSequencer`.
pub open spec fn init_model() -> ReSeqModel {
    ReSeqModel { last: None, missing: Seq::empty(), dups: 0, cnt: 0 }
}

/// Index of the first range in `ranges` that contains `s`, or `-1`.
pub open spec fn find_gap(ranges: Seq<(int, int)>, s: int) -> int
    decreases ranges.len(),
{
    if ranges.len() == 0 {
        -1
    } else if ranges[0].0 <= s && s <= ranges[0].1 {
        0
    } else {
        let r = find_gap(ranges.drop_first(), s);
        if r == -1 {
            -1
        } else {
            r + 1
        }
    }
}

/// One observation folded into the analyzer state, with sequence numbers
/// taken modulo `m`.
///
/// The first observation only records itself.  Afterwards, the number one
/// past the last observation is the fast path; a number inside a missing
/// range fills that range; any other number is classified by its forward
/// modular distance from the expected number: at least `m / 2` away means a
/// duplicate from the past, closer means a forward jump that opens a new gap
/// (split in two where it would wrap).
pub open spec fn track_model(r: ReSeqModel, s: int, m: int) -> ReSeqModel {
    if r.last is None {
        ReSeqModel { last: Some(s), missing: r.missing, dups: r.dups, cnt: r.cnt + 1 }
    } else {
        let expected = add_mod(r.last->0, 1, m);
        if s == expected {
            ReSeqModel { last: Some(s), missing: r.missing, dups: r.dups, cnt: r.cnt + 1 }
        } else {
            let i = find_gap(r.missing, s);
            if i >= 0 {
                let v = r.missing[i];
                let filled = if v.0 == v.1 {
                    r.missing.remove(i)
                } else if s == v.0 {
                    r.missing.update(i, (add_mod(s, 1, m), v.1))
                } else if s == v.1 {
                    r.missing.update(i, (v.0, sub_mod(s, 1, m)))
                } else {
                    r.missing.update(i, (v.0, sub_mod(s, 1, m))).insert(i + 1, (add_mod(s, 1, m), v.1))
                };
                ReSeqModel { last: r.last, missing: filled, dups: r.dups, cnt: r.cnt + 1 }
            } else {
                let d = sub_mod(s, expected, m);
                if d >= m / 2 {
                    ReSeqModel { last: r.last, missing: r.missing, dups: r.dups + 1, cnt: r.cnt + 1 }
                } else {
                    let opened = if expected <= s {
                        r.missing.push((expected, s - 1))
                    } else if s != 0 {
                        r.missing.push((expected, m - 1)).push((0, s - 1))
                    } else {
                        r.missing.push((expected, m - 1))
                    };
                    ReSeqModel { last: Some(s), missing: opened, dups: r.dups, cnt: r.cnt + 1 }
                }
            }
        }
    }
}

/// The analyzer state after tracking every number of `inputs` in order,
/// starting from a fresh analyzer.
pub open spec fn run_model(inputs: Seq<int>, m: int) -> ReSeqModel
    decreases inputs.len(),
{
    if inputs.len() == 0 {
        init_model()
    } else {
        track_model(run_model(inputs.drop_last(), m), inputs.last(), m)
    }
}

/// Summary of one finished flow, as sent back over the control channel.
#[derive(Debug)]
pub struct SequenceReport {
    /// Last sequence number observed, or 0 if none was.
    pub last_seq: u32,
    /// Inclusive ranges of sequence numbers never observed.
    pub missing: Vec<(u32, u32)>,
    /// How many observations were classified as duplicates.
    pub dups: u32,
    /// Total number of observations.
    pub cnt: u32,
}

/// Folds observed sequence numbers into missing ranges and a duplicate count.
pub struct ReSequencer<T: SeqNum> {
    /// Last sequence number observed, if any.
    pub last_seq: Option<T>,
    /// Inclusive ranges of numbers not yet observed, each with `lo <= hi`.
    pub missing: Vec<(T, T)>,
    /// How many observations were classified as duplicates.
    pub dups: u32,
    /// Total number of observations.
    pub cnt: u32,
}

/// The missing list as a sequence of integer pairs.
pub open spec fn missing_model<T: SeqNum>(s: Seq<(T, T)>) -> Seq<(int, int)> {
    s.map_values(|p: (T, T)| (p.0.as_int(), p.1.as_int()))
}

impl<T: SeqNum> ReSequencer<T> {
    /// The analyzer state as mathematical integers.
    pub open spec fn model(self) -> ReSeqModel {
        ReSeqModel {
            last: match self.last_seq {
                Some(v) => Some(v.as_int()),
                None => None,
            },
            missing: missing_model(self.missing@),
            dups: self.dups as int,
            cnt: self.cnt as int,
        }
    }

    /// A fresh analyzer: nothing observed yet.
    pub fn new() -> (r: ReSequencer<T>)
        ensures
            r.model() == init_model(),
    {
        let r = ReSequencer { last_seq: None, missing: Vec::new(), dups: 0, cnt: 0 };
        proof {
            assert(r.model().missing =~= init_model().missing);
            assert(r.model() == init_model());
        }
        r
    }

    /// Fold one observed sequence number into the state.
    ///
    /// The counters are 32-bit; the caller keeps them below `u32::MAX`
    /// (a flow never carries that many datagrams).
    pub fn track(&mut self, seq: T)
        requires
            old(self).cnt < u32::MAX,
            old(self).dups < u32::MAX,
        ensures
            final(self).model() == track_model(old(self).model(), seq.as_int(), T::modulus()),
    {
        proof {
            T::lemma_modulus_facts();
            T::lemma_as_int_bounds(seq);
        }
        let ghost pre = self.model();
        let ghost m = T::modulus();

        self.cnt = self.cnt + 1;

        let last: T;
        match self.last_seq {
            None => {
                self.last_seq = Some(seq);
                proof {
                    assert(self.model() == track_model(pre, seq.as_int(), m));
                }
                return;
            },
            Some(l) => {
                last = l;
            },
        }

        let expected = last.inc_wrap();
        if expected.sn_eq(seq) {
            self.last_seq = Some(seq);
            proof {
                assert(self.model() == track_model(pre, seq.as_int(), m));
            }
            return;
        }

        let mut found: Option<usize> = None;
        let mut idx: usize = 0;
        let n = self.missing.len();
        while idx < n && found.is_none()
            invariant
                n == self.missing.len(),
                idx <= n,
                pre.missing == missing_model(self.missing@),
                forall|j: int|
                    0 <= j < idx ==> !((#[trigger] pre.missing[j]).0 <= seq.as_int()
                        <= pre.missing[j].1),
                found matches Some(i) ==> idx < n && i == idx && pre.missing[idx as int].0
                    <= seq.as_int() <= pre.missing[idx as int].1,
            decreases n - idx + (if found.is_none() { 1int } else { 0int }),
        {
            let v = self.missing[idx];
            if seq.sn_le(v.1) && v.0.sn_le(seq) {
                found = Some(idx);
            } else {
                idx = idx + 1;
            }
        }

        proof {
            lemma_find_gap_characterization(pre.missing, seq.as_int());
        }

        match found {
            Some(i) => {
                proof {
                    assert(find_gap(pre.missing, seq.as_int()) == i as int);
                }
                let v = self.missing[i];
                if v.0.sn_eq(v.1) {
                    self.missing.remove(i);
                    proof {
                        assert(missing_model(self.missing@) =~= pre.missing.remove(i as int));
                    }
                } else if v.0.sn_eq(seq) {
                    self.missing[i] = (seq.inc_wrap(), v.1);
                    proof {
                        assert(missing_model(self.missing@) =~= pre.missing.update(
                            i as int,
                            (add_mod(seq.as_int(), 1, m), v.1.as_int()),
                        ));
                    }
                } else if v.1.sn_eq(seq) {
                    self.missing[i] = (v.0, seq.dec_wrap());
                    proof {
                        assert(missing_model(self.missing@) =~= pre.missing.update(
                            i as int,
                            (v.0.as_int(), sub_mod(seq.as_int(), 1, m)),
                        ));
                    }
                } else {
                    self.missing[i] = (v.0, seq.dec_wrap());
                    self.missing.insert(i + 1, (seq.inc_wrap(), v.1));
                    proof {
                        assert(missing_model(self.missing@) =~= pre.missing.update(
                            i as int,
                            (v.0.as_int(), sub_mod(seq.as_int(), 1, m)),
                        ).insert(i + 1, (add_mod(seq.as_int(), 1, m), v.1.as_int())));
                    }
                }
                proof {
                    assert(self.model() == track_model(pre, seq.as_int(), m));
                }
            },
            None => {
                proof {
                    assert(find_gap(pre.missing, seq.as_int()) == -1);
                }
                let d = seq.sub_wrap(expected);
                proof {
                    T::lemma_as_int_bounds(expected);
                    T::lemma_as_int_bounds(d);
                }
                if d.add_wrap(d).sn_lt(d) {
                    proof {
                        assert(sub_mod(seq.as_int(), expected.as_int(), m) >= m / 2);
                    }
                    self.dups = self.dups + 1;
                    proof {
                        assert(self.model() == track_model(pre, seq.as_int(), m));
                    }
                } else {
                    proof {
                        assert(sub_mod(seq.as_int(), expected.as_int(), m) < m / 2);
                    }
                    if expected.sn_lt(seq) {
                        self.missing.push((expected, seq.dec_wrap()));
                        proof {
                            assert(missing_model(self.missing@) =~= pre.missing.push(
                                (expected.as_int(), seq.as_int() - 1),
                            ));
                        }
                    } else {
                        self.missing.push((expected, T::sn_max()));
                        let zero = T::sn_zero();
                        if !seq.sn_eq(zero) {
                            self.missing.push((zero, seq.dec_wrap()));
                            proof {
                                assert(missing_model(self.missing@) =~= pre.missing.push(
                                    (expected.as_int(), m - 1),
                                ).push((0, seq.as_int() - 1)));
                            }
                        } else {
                            proof {
                                assert(missing_model(self.missing@) =~= pre.missing.push(
                                    (expected.as_int(), m - 1),
                                ));
                            }
                        }
                    }
                    self.last_seq = Some(seq);
                    proof {
                        assert(self.model() == track_model(pre, seq.as_int(), m));
                    }
                }
            },
        }
    }
}

/// `find_gap` returns the index of the first range containing `s`, and `-1`
/// exactly when no range contains `s`.
pub proof fn lemma_find_gap_characterization(ranges: Seq<(int, int)>, s: int)
    ensures
        find_gap(ranges, s) == -1 <==> (forall|j: int|
            0 <= j < ranges.len() ==> !((#[trigger] ranges[j]).0 <= s <= ranges[j].1)),
        find_gap(ranges, s) != -1 ==> {
            let i = find_gap(ranges, s);
            &&& 0 <= i < ranges.len()
            &&& ranges[i].0 <= s <= ranges[i].1
            &&& forall|j: int| 0 <= j < i ==> !((#[trigger] ranges[j]).0 <= s <= ranges[j].1)
        },
    decreases ranges.len(),
{
    if ranges.len() == 0 {
    } else if ranges[0].0 <= s && s <= ranges[0].1 {
    } else {
        let rest = ranges.drop_first();
        lemma_find_gap_characterization(rest, s);
        if find_gap(rest, s) != -1 {
            let r = find_gap(rest, s);
            assert(ranges[r + 1] == rest[r]);
            assert forall|j: int| 0 <= j < r + 1 implies !((#[trigger] ranges[j]).0 <= s
                <= ranges[j].1) by {
                if j > 0 {
                    assert(rest[j - 1] == ranges[j]);
                }
            }
        } else {
            assert forall|j: int| 0 <= j < ranges.len() implies !((#[trigger] ranges[j]).0 <= s
                <= ranges[j].1) by {
                if j > 0 {
                    assert(rest[j - 1] == ranges[j]);
                }
            }
        }
    }
}

impl ReSequencer<u32> {
    /// The report for a finished flow: last number observed (0 if none), the
    /// missing ranges, and both counters.
    pub fn to_report(&self) -> (r: SequenceReport)
        ensures
            r.last_seq as int == match self.model().last {
                Some(l) => l,
                None => 0,
            },
            missing_model(r.missing@) == self.model().missing,
            r.dups == self.dups,
            r.cnt == self.cnt,
    {
        let mut ranges: Vec<(u32, u32)> = Vec::new();
        let mut i: usize = 0;
        while i < self.missing.len()
            invariant
                i <= self.missing.len(),
                ranges@ == self.missing@.subrange(0, i as int),
            decreases self.missing.len() - i,
        {
            ranges.push(self.missing[i]);
            proof {
                assert(ranges@ =~= self.missing@.subrange(0, i + 1));
            }
            i = i + 1;
        }
        proof {
            assert(ranges@ =~= self.missing@);
        }
        SequenceReport {
            last_seq: match self.last_seq {
                Some(l) => l,
                None => 0,
            },
            missing: ranges,
            dups: self.dups,
            cnt: self.cnt,
        }
    }
}

/// Hands out consecutive sequence numbers, starting at zero, wrapping at the
/// width of the carrier type.
pub struct Sequencer<T: SeqNum> {
    seq: T,
}

impl<T: SeqNum> Sequencer<T> {
    /// The number the next call to `next_seq` will return.
    pub closed spec fn current(self) -> int {
        self.seq.as_int()
    }

    /// A sequencer whose first number is zero.
    pub fn new() -> (r: Sequencer<T>)
        ensures
            r.current() == 0,
    {
        Sequencer { seq: T::sn_zero() }
    }

    /// Return the current number and advance by one, modulo the type width.
    pub fn next_seq(&mut self) -> (r: T)
        ensures
            r.as_int() == old(self).current(),
            final(self).current() == add_mod(old(self).current(), 1, T::modulus()),
    {
        let ret = self.seq;
        self.seq = self.seq.inc_wrap();
        ret
    }
}

} // verus!
