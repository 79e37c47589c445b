//! Laws of the sequence analyzer.
//!
//! These lemmas state what iterated tracking guarantees.  The analyzer
//! classifies an out-of-band observation as past or future by its forward
//! modular distance from the expected number, so its bookkeeping is faithful
//! exactly when every observation stays within half the number space forward
//! of the first one ([`in_first_window`]); streams that jump further can be
//! misclassified (tracking `2` then `0` counts a duplicate although `0` was
//! never seen).  Under that window condition:
//!
//! - the missing ranges are valid and pairwise disjoint
//!   ([`lemma_missing_ranges_wf`]);
//! - duplicates account exactly for repeated numbers, and the missing ranges
//!   account exactly for the unseen part of the observed span
//!   ([`lemma_duplicate_accounting`]);
//! - a contiguous run leaves no missing range and no duplicate, with no
//!   window condition at all ([`lemma_contiguous_run`]);
//! - a sequencer returns to its starting value after `modulus` steps
//!   ([`lemma_sequencer_rotation`]).

use vstd::prelude::*;
use vstd::set_lib::set_int_range;
use vstd::set_lib::lemma_int_range;
use vstd::set_lib::lemma_len_subset;

use crate::seqnum::{add_mod, sub_mod};
use crate::sequence::{find_gap, init_model, run_model, track_model, ReSeqModel};

verus! {

/// An inclusive range of sequence numbers modulo `m`: non-empty, in bounds.
pub open spec fn valid_range(p: (int, int), m: int) -> bool {
    0 <= p.0 && p.0 <= p.1 && p.1 < m
}

/// Every range of the list is valid.
pub open spec fn ranges_valid(rs: Seq<(int, int)>, m: int) -> bool {
    forall|i: int| 0 <= i < rs.len() ==> valid_range(#[trigger] rs[i], m)
}

/// The ranges of the list are pairwise disjoint.
pub open spec fn ranges_disjoint(rs: Seq<(int, int)>) -> bool {
    forall|i: int, j: int|
        0 <= i < j < rs.len() ==> (#[trigger] rs[i]).1 < (#[trigger] rs[j]).0 || rs[j].1 < rs[i].0
}

/// `x` lies in some range of the list.
pub open spec fn in_ranges(rs: Seq<(int, int)>, x: int) -> bool {
    exists|i: int| 0 <= i < rs.len() && (#[trigger] rs[i]).0 <= x <= rs[i].1
}

/// The set of numbers covered by the ranges of the list.
pub open spec fn ranges_set(rs: Seq<(int, int)>) -> Set<int> {
    Set::new(|x: int| in_ranges(rs, x))
}

/// Total count of numbers covered by the ranges, `sum of (hi - lo + 1)`.
pub open spec fn ranges_total(rs: Seq<(int, int)>) -> int
    decreases rs.len(),
{
    if rs.len() == 0 {
        0
    } else {
        (rs[0].1 - rs[0].0 + 1) + ranges_total(rs.drop_first())
    }
}

/// The modular interval of numbers from `s0` forward to `l`, both included.
pub open spec fn window(s0: int, l: int, m: int) -> Set<int> {
    Set::new(|x: int| 0 <= x < m && sub_mod(x, s0, m) <= sub_mod(l, s0, m))
}

/// Every number of the stream lies in `[0, m)` and within half the number
/// space forward of the first one.
pub open spec fn in_first_window(inputs: Seq<int>, m: int) -> bool {
    forall|i: int|
        0 <= i < inputs.len() ==> 0 <= #[trigger] inputs[i] < m && sub_mod(
            inputs[i],
            inputs[0],
            m,
        ) < m / 2
}

/// The inductive invariant of iterated tracking: after a first observation
/// `s0` and with `seen` the set of numbers observed so far, the analyzer's
/// missing ranges cover exactly the part of the observed window not yet seen,
/// and the duplicate counter accounts for every repeated observation.
pub open spec fn tracker_inv(r: ReSeqModel, s0: int, seen: Set<int>, m: int) -> bool {
    &&& 0 <= s0 < m
    &&& r.last is Some
    &&& 0 <= r.last->0 < m
    &&& sub_mod(r.last->0, s0, m) < m / 2
    &&& seen.finite()
    &&& (forall|x: int|
        #[trigger] seen.contains(x) ==> 0 <= x < m && sub_mod(x, s0, m) <= sub_mod(
            r.last->0,
            s0,
            m,
        ))
    &&& seen.contains(s0)
    &&& seen.contains(r.last->0)
    &&& ranges_valid(r.missing, m)
    &&& ranges_disjoint(r.missing)
    &&& ranges_set(r.missing) == window(s0, r.last->0, m).difference(seen)
    &&& r.dups + seen.len() == r.cnt
}

/// `x` is an element of range `i`, hence covered by the list.
proof fn lemma_elem_in_ranges(rs: Seq<(int, int)>, i: int, x: int)
    requires
        0 <= i < rs.len(),
        rs[i].0 <= x <= rs[i].1,
    ensures
        in_ranges(rs, x),
{
}

/// Forward distances compose: going `y -> z` and then `x -> y` covers
/// `x -> z`, modulo `m`.
proof fn lemma_sub_mod_chain(x: int, y: int, z: int, m: int)
    requires
        2 <= m,
        0 <= x < m,
        0 <= y < m,
        0 <= z < m,
    ensures
        sub_mod(x, z, m) == add_mod(sub_mod(x, y, m), sub_mod(y, z, m), m),
{
}

/// Tracking the expected next number only advances the window.
proof fn lemma_step_inorder(r: ReSeqModel, s0: int, seen: Set<int>, m: int, s: int)
    requires
        4 <= m,
        m % 2 == 0,
        tracker_inv(r, s0, seen, m),
        0 <= s < m,
        sub_mod(s, s0, m) < m / 2,
        s == add_mod(r.last->0, 1, m),
    ensures
        tracker_inv(track_model(r, s, m), s0, seen.insert(s), m),
        !seen.contains(s),
{
    broadcast use vstd::set::group_set_axioms;

    let l = r.last->0;
    let span = sub_mod(l, s0, m);
    let p = sub_mod(s, s0, m);
    assert(p == span + 1);
    assert(!seen.contains(s));
    let r2 = track_model(r, s, m);
    assert(r2.missing == r.missing);
    let seen2 = seen.insert(s);
    assert(window(s0, s, m).difference(seen2) =~= window(s0, l, m).difference(seen)) by {
        assert forall|x: int|
            window(s0, s, m).contains(x) && !seen2.contains(x) implies window(
            s0,
            l,
            m,
        ).contains(x) && !seen.contains(x) by {
            if sub_mod(x, s0, m) == p {
                assert(x == s);
            }
        }
        assert forall|x: int|
            window(s0, l, m).contains(x) && !seen.contains(x) implies window(
            s0,
            s,
            m,
        ).contains(x) && !seen2.contains(x) by {
            assert(x != s);
        }
    }
    assert forall|x: int| #[trigger] seen2.contains(x) implies 0 <= x < m && sub_mod(x, s0, m)
        <= p by {
        if x != s {
            assert(seen.contains(x));
        }
    }
    assert(tracker_inv(r2, s0, seen2, m));
}

/// A number at or beyond half the space backward was seen before: it counts
/// as a duplicate and changes nothing else.
proof fn lemma_step_past(r: ReSeqModel, s0: int, seen: Set<int>, m: int, s: int)
    requires
        4 <= m,
        m % 2 == 0,
        tracker_inv(r, s0, seen, m),
        0 <= s < m,
        sub_mod(s, s0, m) < m / 2,
        s != add_mod(r.last->0, 1, m),
        find_gap(r.missing, s) == -1,
        sub_mod(s, add_mod(r.last->0, 1, m), m) >= m / 2,
    ensures
        tracker_inv(track_model(r, s, m), s0, seen.insert(s), m),
        seen.contains(s),
{
    broadcast use vstd::set::group_set_axioms;

    let l = r.last->0;
    let exp = add_mod(l, 1, m);
    let span = sub_mod(l, s0, m);
    let p = sub_mod(s, s0, m);
    lemma_sub_mod_chain(s, exp, s0, m);
    assert(sub_mod(exp, s0, m) == span + 1);
    assert(p <= span) by {
        if p > span {
            assert(sub_mod(s, exp, m) == p - span - 1);
            assert(p - span - 1 < m / 2);
        }
    }
    assert(window(s0, l, m).contains(s));
    crate::sequence::lemma_find_gap_characterization(r.missing, s);
    assert(!in_ranges(r.missing, s));
    assert(!ranges_set(r.missing).contains(s));
    assert(!window(s0, l, m).difference(seen).contains(s));
    assert(seen.contains(s));
    assert(seen.insert(s) =~= seen);
    let r2 = track_model(r, s, m);
    assert(r2.missing == r.missing && r2.last == r.last && r2.dups == r.dups + 1);
    assert(tracker_inv(r2, s0, seen.insert(s), m));
}

/// Removing a singleton range `(s, s)` uncovers exactly `s`.
proof fn lemma_fill_remove(rs: Seq<(int, int)>, i: int, s: int, m: int)
    requires
        ranges_valid(rs, m),
        ranges_disjoint(rs),
        0 <= i < rs.len(),
        rs[i] == (s, s),
    ensures
        ranges_valid(rs.remove(i), m),
        ranges_disjoint(rs.remove(i)),
        forall|x: int| #[trigger] in_ranges(rs.remove(i), x) <==> in_ranges(rs, x) && x != s,
{
    let nw = rs.remove(i);
    rs.remove_ensures(i);
    assert forall|x: int| in_ranges(nw, x) implies in_ranges(rs, x) && x != s by {
        let j = choose|j: int| 0 <= j < nw.len() && (#[trigger] nw[j]).0 <= x <= nw[j].1;
        let jj: int = if j < i {
            j
        } else {
            j + 1
        };
        assert(rs[jj] == nw[j]);
        lemma_elem_in_ranges(rs, jj, x);
        assert(rs[i].1 < rs[jj].0 || rs[jj].1 < rs[i].0);
    }
    assert forall|x: int| in_ranges(rs, x) && x != s implies in_ranges(nw, x) by {
        let j = choose|j: int| 0 <= j < rs.len() && (#[trigger] rs[j]).0 <= x <= rs[j].1;
        assert(j != i);
        let jj: int = if j < i {
            j
        } else {
            j - 1
        };
        assert(nw[jj] == rs[j]);
        lemma_elem_in_ranges(nw, jj, x);
    }
    assert forall|a: int| 0 <= a < nw.len() implies valid_range(#[trigger] nw[a], m) by {
        let aa: int = if a < i {
            a
        } else {
            a + 1
        };
        assert(nw[a] == rs[aa]);
    }
    assert forall|a: int, b: int| 0 <= a < b < nw.len() implies (#[trigger] nw[a]).1
        < (#[trigger] nw[b]).0 || nw[b].1 < nw[a].0 by {
        let aa: int = if a < i {
            a
        } else {
            a + 1
        };
        let bb: int = if b < i {
            b
        } else {
            b + 1
        };
        assert(nw[a] == rs[aa] && nw[b] == rs[bb]);
        assert(rs[aa].1 < rs[bb].0 || rs[bb].1 < rs[aa].0);
    }
}

/// Shrinking range `i` to a non-empty subrange that drops exactly `s`
/// uncovers exactly `s`.
proof fn lemma_fill_shrink(rs: Seq<(int, int)>, i: int, s: int, q: (int, int), m: int)
    requires
        ranges_valid(rs, m),
        ranges_disjoint(rs),
        0 <= i < rs.len(),
        (q.0 == s + 1 && q.1 == rs[i].1 && rs[i].0 == s && s < rs[i].1) || (q.0 == rs[i].0 && q.1
            == s - 1 && rs[i].1 == s && rs[i].0 < s),
    ensures
        ranges_valid(rs.update(i, q), m),
        ranges_disjoint(rs.update(i, q)),
        forall|x: int| #[trigger] in_ranges(rs.update(i, q), x) <==> in_ranges(rs, x) && x != s,
{
    let nw = rs.update(i, q);
    assert forall|x: int| in_ranges(nw, x) implies in_ranges(rs, x) && x != s by {
        let j = choose|j: int| 0 <= j < nw.len() && (#[trigger] nw[j]).0 <= x <= nw[j].1;
        if j == i {
            lemma_elem_in_ranges(rs, i, x);
        } else {
            assert(nw[j] == rs[j]);
            lemma_elem_in_ranges(rs, j, x);
            assert(rs[i].1 < rs[j].0 || rs[j].1 < rs[i].0);
        }
    }
    assert forall|x: int| in_ranges(rs, x) && x != s implies in_ranges(nw, x) by {
        let j = choose|j: int| 0 <= j < rs.len() && (#[trigger] rs[j]).0 <= x <= rs[j].1;
        if j == i {
            lemma_elem_in_ranges(nw, i, x);
        } else {
            assert(nw[j] == rs[j]);
            lemma_elem_in_ranges(nw, j, x);
        }
    }
    assert forall|a: int, b: int| 0 <= a < b < nw.len() implies (#[trigger] nw[a]).1
        < (#[trigger] nw[b]).0 || nw[b].1 < nw[a].0 by {
        assert(rs[a].1 < rs[b].0 || rs[b].1 < rs[a].0);
    }
}

/// Splitting range `i` around an interior `s` uncovers exactly `s`.
#[verifier::rlimit(60)]
proof fn lemma_fill_split(rs: Seq<(int, int)>, i: int, s: int, m: int)
    requires
        ranges_valid(rs, m),
        ranges_disjoint(rs),
        0 <= i < rs.len(),
        rs[i].0 < s < rs[i].1,
    ensures
        ranges_valid(rs.update(i, (rs[i].0, s - 1)).insert(i + 1, (s + 1, rs[i].1)), m),
        ranges_disjoint(rs.update(i, (rs[i].0, s - 1)).insert(i + 1, (s + 1, rs[i].1))),
        forall|x: int| #[trigger] in_ranges(
            rs.update(i, (rs[i].0, s - 1)).insert(i + 1, (s + 1, rs[i].1)),
            x,
        ) <==> in_ranges(rs, x) && x != s,
{
    let v = rs[i];
    let up = rs.update(i, (v.0, s - 1));
    let nw = up.insert(i + 1, (s + 1, v.1));
    up.insert_ensures(i + 1, (s + 1, v.1));
    assert(nw.len() == rs.len() + 1);
    assert(nw[i] == (v.0, s - 1));
    assert(nw[i + 1] == (s + 1, v.1));
    assert forall|j: int| 0 <= j < i implies #[trigger] nw[j] == rs[j] by {
        assert(nw[j] == up[j]);
    }
    assert forall|j: int| i + 1 <= j < rs.len() implies #[trigger] nw[j + 1] == rs[j] by {
        assert(nw[j + 1] == up[j]);
    }
    assert forall|x: int| in_ranges(nw, x) implies in_ranges(rs, x) && x != s by {
        let j = choose|j: int| 0 <= j < nw.len() && (#[trigger] nw[j]).0 <= x <= nw[j].1;
        if j == i || j == i + 1 {
            lemma_elem_in_ranges(rs, i, x);
        } else if j < i {
            lemma_elem_in_ranges(rs, j, x);
            assert(rs[i].1 < rs[j].0 || rs[j].1 < rs[i].0);
        } else {
            assert(nw[j] == rs[j - 1]);
            lemma_elem_in_ranges(rs, j - 1, x);
            assert(rs[i].1 < rs[j - 1].0 || rs[j - 1].1 < rs[i].0);
        }
    }
    assert forall|x: int| in_ranges(rs, x) && x != s implies in_ranges(nw, x) by {
        let j = choose|j: int| 0 <= j < rs.len() && (#[trigger] rs[j]).0 <= x <= rs[j].1;
        if j == i {
            if x < s {
                lemma_elem_in_ranges(nw, i, x);
            } else {
                lemma_elem_in_ranges(nw, i + 1, x);
            }
        } else if j < i {
            lemma_elem_in_ranges(nw, j, x);
        } else {
            assert(nw[j + 1] == rs[j]);
            lemma_elem_in_ranges(nw, j + 1, x);
        }
    }
    assert forall|a: int| 0 <= a < nw.len() implies valid_range(#[trigger] nw[a], m) by {
        if i + 1 < a {
            assert(nw[a] == rs[a - 1]);
        }
    }
    assert forall|a: int, b: int| 0 <= a < b < nw.len() implies (#[trigger] nw[a]).1
        < (#[trigger] nw[b]).0 || nw[b].1 < nw[a].0 by {
        let aa: int = if a <= i {
            a
        } else if a == i + 1 {
            i
        } else {
            a - 1
        };
        let bb: int = if b <= i {
            b
        } else if b == i + 1 {
            i
        } else {
            b - 1
        };
        assert(nw[a].0 >= rs[aa].0 && nw[a].1 <= rs[aa].1);
        assert(nw[b].0 >= rs[bb].0 && nw[b].1 <= rs[bb].1);
        if aa != bb {
            assert(rs[aa].1 < rs[bb].0 || rs[bb].1 < rs[aa].0);
        }
    }
}

/// A number inside a missing range fills exactly itself out of the list:
/// the covered set loses `s` and nothing else, and the ranges stay valid
/// and pairwise disjoint.
proof fn lemma_step_fill(r: ReSeqModel, s0: int, seen: Set<int>, m: int, s: int)
    requires
        4 <= m,
        m % 2 == 0,
        tracker_inv(r, s0, seen, m),
        0 <= s < m,
        sub_mod(s, s0, m) < m / 2,
        s != add_mod(r.last->0, 1, m),
        find_gap(r.missing, s) >= 0,
    ensures
        tracker_inv(track_model(r, s, m), s0, seen.insert(s), m),
        !seen.contains(s),
{
    broadcast use vstd::set::group_set_axioms;

    let l = r.last->0;
    let rs = r.missing;
    crate::sequence::lemma_find_gap_characterization(rs, s);
    let i = find_gap(rs, s);
    let v = rs[i];
    assert(in_ranges(rs, s));
    assert(ranges_set(rs).contains(s));
    assert(!seen.contains(s));
    assert(window(s0, l, m).contains(s));
    assert(valid_range(v, m));
    let r2 = track_model(r, s, m);
    let nw = r2.missing;

    if v.0 == v.1 {
        assert(v == (s, s));
        assert(nw == rs.remove(i));
        lemma_fill_remove(rs, i, s, m);
    } else if s == v.0 {
        assert(add_mod(s, 1, m) == s + 1);
        assert(nw == rs.update(i, (s + 1, v.1)));
        lemma_fill_shrink(rs, i, s, (s + 1, v.1), m);
    } else if s == v.1 {
        assert(sub_mod(s, 1, m) == s - 1);
        assert(nw == rs.update(i, (v.0, s - 1)));
        lemma_fill_shrink(rs, i, s, (v.0, s - 1), m);
    } else {
        assert(v.0 < s < v.1);
        assert(add_mod(s, 1, m) == s + 1);
        assert(sub_mod(s, 1, m) == s - 1);
        assert(nw == rs.update(i, (v.0, s - 1)).insert(i + 1, (s + 1, v.1)));
        lemma_fill_split(rs, i, s, m);
    }

    let seen2 = seen.insert(s);
    assert forall|x: int| #[trigger] ranges_set(nw).contains(x) implies window(
        s0,
        l,
        m,
    ).difference(seen2).contains(x) by {
        assert(in_ranges(nw, x));
        assert(in_ranges(rs, x) && x != s);
        assert(ranges_set(rs).contains(x));
        assert(window(s0, l, m).difference(seen).contains(x));
    }
    assert forall|x: int| #[trigger] window(s0, l, m).difference(seen2).contains(x) implies
        ranges_set(nw).contains(x) by {
        assert(window(s0, l, m).contains(x) && !seen.contains(x) && x != s);
        assert(window(s0, l, m).difference(seen).contains(x));
        assert(ranges_set(rs).contains(x));
        assert(in_ranges(rs, x));
        assert(in_ranges(nw, x));
    }
    assert(ranges_set(nw) =~= window(s0, l, m).difference(seen2));
    assert forall|x: int| #[trigger] seen2.contains(x) implies 0 <= x < m && sub_mod(x, s0, m)
        <= sub_mod(l, s0, m) by {
        if x != s {
            assert(seen.contains(x));
        }
    }
    assert(r2.last == r.last && r2.dups == r.dups && r2.cnt == r.cnt + 1);
    assert(tracker_inv(r2, s0, seen2, m));
}


/// A pushed range extends the covered set by exactly its own interval.
proof fn lemma_push_cover(rs: Seq<(int, int)>, q: (int, int))
    ensures
        forall|x: int| #[trigger] in_ranges(rs.push(q), x) <==> in_ranges(rs, x) || q.0 <= x
            <= q.1,
{
    let nw = rs.push(q);
    assert forall|x: int| in_ranges(nw, x) implies in_ranges(rs, x) || q.0 <= x <= q.1 by {
        let j = choose|j: int| 0 <= j < nw.len() && (#[trigger] nw[j]).0 <= x <= nw[j].1;
        if j < rs.len() {
            assert(nw[j] == rs[j]);
            lemma_elem_in_ranges(rs, j, x);
        } else {
            assert(nw[j] == q);
        }
    }
    assert forall|x: int| in_ranges(rs, x) implies in_ranges(nw, x) by {
        let j = choose|j: int| 0 <= j < rs.len() && (#[trigger] rs[j]).0 <= x <= rs[j].1;
        assert(nw[j] == rs[j]);
        lemma_elem_in_ranges(nw, j, x);
    }
    assert forall|x: int| q.0 <= x <= q.1 implies in_ranges(nw, x) by {
        lemma_elem_in_ranges(nw, rs.len() as int, x);
    }
}

/// Position geometry of a forward jump: with `exp` one past the window end
/// and `s` less than half the space ahead of it, a number is nearer to `exp`
/// than `s` exactly when its position falls in the newly opened gap, and `s`
/// itself lands just past that gap.
proof fn lemma_gap_positions(s0: int, l: int, s: int, x: int, m: int)
    requires
        4 <= m,
        m % 2 == 0,
        0 <= s0 < m,
        0 <= l < m,
        0 <= s < m,
        0 <= x < m,
        sub_mod(l, s0, m) < m / 2,
        sub_mod(s, add_mod(l, 1, m), m) < m / 2,
    ensures
        sub_mod(s, s0, m) == sub_mod(l, s0, m) + 1 + sub_mod(s, add_mod(l, 1, m), m),
        (sub_mod(x, add_mod(l, 1, m), m) < sub_mod(s, add_mod(l, 1, m), m)) <==> (sub_mod(
            l,
            s0,
            m,
        ) + 1 <= sub_mod(x, s0, m) <= sub_mod(l, s0, m) + sub_mod(s, add_mod(l, 1, m), m)),
{
    let exp = add_mod(l, 1, m);
    let span = sub_mod(l, s0, m);
    assert(0 <= exp < m);
    assert(sub_mod(exp, s0, m) == span + 1);
    lemma_sub_mod_chain(s, exp, s0, m);
    lemma_sub_mod_chain(x, exp, s0, m);
}

/// A number ahead of the expected one by less than half the space advances
/// the window and opens the gap between them as new missing ranges.
#[verifier::rlimit(60)]
proof fn lemma_step_advance(r: ReSeqModel, s0: int, seen: Set<int>, m: int, s: int)
    requires
        4 <= m,
        m % 2 == 0,
        tracker_inv(r, s0, seen, m),
        0 <= s < m,
        sub_mod(s, s0, m) < m / 2,
        s != add_mod(r.last->0, 1, m),
        find_gap(r.missing, s) == -1,
        sub_mod(s, add_mod(r.last->0, 1, m), m) < m / 2,
    ensures
        tracker_inv(track_model(r, s, m), s0, seen.insert(s), m),
        !seen.contains(s),
{
    broadcast use vstd::set::group_set_axioms;

    let l = r.last->0;
    let exp = add_mod(l, 1, m);
    let span = sub_mod(l, s0, m);
    let p = sub_mod(s, s0, m);
    let d = sub_mod(s, exp, m);
    let rs = r.missing;
    let r2 = track_model(r, s, m);
    let nw = r2.missing;
    let seen2 = seen.insert(s);

    lemma_gap_positions(s0, l, s, s, m);
    assert(p == span + 1 + d);
    assert(d >= 1);
    assert(!seen.contains(s));
    assert(r2.last == Some(s) && r2.dups == r.dups && r2.cnt == r.cnt + 1);

    crate::sequence::lemma_find_gap_characterization(rs, s);
    assert(!in_ranges(rs, s));

    // The appended ranges cover exactly the numbers whose forward distance
    // from `exp` is below `d`.
    if exp <= s {
        assert(nw == rs.push((exp, s - 1)));
        assert(d == s - exp);
        lemma_push_cover(rs, (exp, s - 1));
        assert forall|x: int| #[trigger] in_ranges(nw, x) implies in_ranges(rs, x) || (0 <= x < m
            && sub_mod(x, exp, m) < d) by {}
        assert forall|x: int| 0 <= x < m && sub_mod(x, exp, m) < d implies in_ranges(nw, x) by {}
    } else if s != 0 {
        let mid = rs.push((exp, m - 1));
        assert(nw == mid.push((0, s - 1)));
        assert(d == s - exp + m);
        lemma_push_cover(rs, (exp, m - 1));
        lemma_push_cover(mid, (0, s - 1));
        assert forall|x: int| #[trigger] in_ranges(nw, x) implies in_ranges(rs, x) || (0 <= x < m
            && sub_mod(x, exp, m) < d) by {}
        assert forall|x: int| 0 <= x < m && sub_mod(x, exp, m) < d implies in_ranges(nw, x) by {
            assert(in_ranges(mid, x) || (0 <= x <= s - 1));
        }
    } else {
        assert(nw == rs.push((exp, m - 1)));
        assert(d == 0 - exp + m);
        lemma_push_cover(rs, (exp, m - 1));
        assert forall|x: int| #[trigger] in_ranges(nw, x) implies in_ranges(rs, x) || (0 <= x < m
            && sub_mod(x, exp, m) < d) by {}
        assert forall|x: int| 0 <= x < m && sub_mod(x, exp, m) < d implies in_ranges(nw, x) by {}
    }

    // Validity of the new list.
    assert forall|a: int| 0 <= a < nw.len() implies valid_range(#[trigger] nw[a], m) by {
        if a < rs.len() {
            assert(nw[a] == rs[a]);
            assert(valid_range(rs[a], m));
        }
    }

    // Every number covered by the old list sits in the old window; every
    // number covered by an appended range sits in the opened gap.
    assert forall|x: int| in_ranges(rs, x) implies 0 <= x < m && sub_mod(x, s0, m) <= span by {
        assert(ranges_set(rs).contains(x));
        assert(window(s0, l, m).difference(seen).contains(x));
    }

    // Disjointness: old ranges live at positions up to `span`, appended ones
    // strictly beyond it.
    assert forall|a: int, b: int| 0 <= a < b < nw.len() implies (#[trigger] nw[a]).1
        < (#[trigger] nw[b]).0 || nw[b].1 < nw[a].0 by {
        if b < rs.len() {
            assert(nw[a] == rs[a] && nw[b] == rs[b]);
            assert(rs[a].1 < rs[b].0 || rs[b].1 < rs[a].0);
        } else if a < rs.len() {
            assert(nw[a] == rs[a]);
            if !(nw[a].1 < nw[b].0 || nw[b].1 < nw[a].0) {
                let c: int = if nw[a].0 >= nw[b].0 {
                    nw[a].0
                } else {
                    nw[b].0
                };
                assert(nw[a].0 <= c <= nw[a].1 && nw[b].0 <= c <= nw[b].1);
                lemma_elem_in_ranges(rs, a, c);
                assert(sub_mod(c, s0, m) <= span);
                lemma_elem_in_ranges(nw, b, c);
                assert(in_ranges(nw, c));
                assert(!in_ranges(rs, c) ==> sub_mod(c, exp, m) < d);
                lemma_gap_positions(s0, l, s, c, m);
                assert(false);
            }
        } else {
            // both appended: only in the wrapping case, and there the second
            // range ends before the first begins
            assert(nw[b].1 == s - 1 && nw[a].0 == exp);
        }
    }

    // The new covered set is the new window minus everything seen.
    assert forall|x: int| #[trigger] ranges_set(nw).contains(x) implies window(
        s0,
        s,
        m,
    ).difference(seen2).contains(x) by {
        assert(in_ranges(nw, x));
        lemma_gap_positions(s0, l, s, x, m);
        if in_ranges(rs, x) {
            assert(window(s0, l, m).difference(seen).contains(x));
            assert(sub_mod(x, s0, m) <= span);
        } else {
            assert(sub_mod(x, exp, m) < d);
            assert(span + 1 <= sub_mod(x, s0, m) <= span + d);
            assert(!seen.contains(x));
        }
        assert(x != s);
    }
    assert forall|x: int| #[trigger] window(s0, s, m).difference(seen2).contains(x) implies
        ranges_set(nw).contains(x) by {
        assert(0 <= x < m && sub_mod(x, s0, m) <= p && !seen.contains(x) && x != s);
        lemma_gap_positions(s0, l, s, x, m);
        assert(sub_mod(x, s0, m) != p);
        if sub_mod(x, s0, m) <= span {
            assert(window(s0, l, m).difference(seen).contains(x));
            assert(in_ranges(rs, x));
            assert(in_ranges(nw, x));
        } else {
            assert(span + 1 <= sub_mod(x, s0, m) <= span + d);
            assert(sub_mod(x, exp, m) < d);
            assert(in_ranges(nw, x));
        }
    }
    assert(ranges_set(nw) =~= window(s0, s, m).difference(seen2));

    assert forall|x: int| #[trigger] seen2.contains(x) implies 0 <= x < m && sub_mod(x, s0, m)
        <= p by {
        if x != s {
            assert(seen.contains(x));
            assert(sub_mod(x, s0, m) <= span);
        }
    }
    assert(tracker_inv(r2, s0, seen2, m));
}

/// One tracked number preserves the invariant; the duplicate counter moves
/// exactly when the number was seen before.
pub proof fn lemma_track_step(r: ReSeqModel, s0: int, seen: Set<int>, m: int, s: int)
    requires
        4 <= m,
        m % 2 == 0,
        tracker_inv(r, s0, seen, m),
        0 <= s < m,
        sub_mod(s, s0, m) < m / 2,
    ensures
        tracker_inv(track_model(r, s, m), s0, seen.insert(s), m),
        track_model(r, s, m).dups == r.dups + (if seen.contains(s) {
            1int
        } else {
            0int
        }),
        track_model(r, s, m).cnt == r.cnt + 1,
{
    let exp = add_mod(r.last->0, 1, m);
    if s == exp {
        lemma_step_inorder(r, s0, seen, m, s);
    } else {
        crate::sequence::lemma_find_gap_characterization(r.missing, s);
        if find_gap(r.missing, s) != -1 {
            lemma_step_fill(r, s0, seen, m, s);
        } else if sub_mod(s, exp, m) >= m / 2 {
            lemma_step_past(r, s0, seen, m, s);
        } else {
            lemma_step_advance(r, s0, seen, m, s);
        }
    }
}

/// The invariant holds of any non-empty stream that stays within half the
/// number space forward of its first element, with `seen` the set of its
/// distinct values.
pub proof fn lemma_run_inv(inputs: Seq<int>, m: int)
    requires
        4 <= m,
        m % 2 == 0,
        inputs.len() >= 1,
        in_first_window(inputs, m),
    ensures
        tracker_inv(run_model(inputs, m), inputs[0], inputs.to_set(), m),
        run_model(inputs, m).cnt == inputs.len(),
    decreases inputs.len(),
{
    broadcast use vstd::set::group_set_axioms;

    let s0 = inputs[0];
    let r = run_model(inputs, m);
    if inputs.len() == 1 {
        assert(inputs.last() == s0);
        assert(run_model(inputs.drop_last(), m) == init_model());
        assert(r == track_model(init_model(), s0, m));
        assert(r.last == Some(s0) && r.dups == 0 && r.cnt == 1);
        assert(r.missing == Seq::<(int, int)>::empty());
        let seen = inputs.to_set();
        assert forall|x: int| #[trigger] seen.contains(x) implies x == s0 by {
            let i = choose|i: int| 0 <= i < inputs.len() && inputs[i] == x;
        }
        assert(seen.contains(s0)) by {
            assert(inputs[0] == s0);
        }
        assert(seen =~= Set::empty().insert(s0));
        assert forall|x: int| !(#[trigger] in_ranges(r.missing, x)) by {}
        assert(ranges_set(r.missing) =~= window(s0, s0, m).difference(seen)) by {
            assert forall|x: int|
                window(s0, s0, m).contains(x) implies seen.contains(x) by {
                assert(x == s0);
            }
        }
        assert(tracker_inv(r, s0, seen, m));
    } else {
        let prev = inputs.drop_last();
        let s = inputs.last();
        assert(prev[0] == s0);
        assert(in_first_window(prev, m)) by {
            assert forall|i: int| 0 <= i < prev.len() implies 0 <= #[trigger] prev[i] < m
                && sub_mod(prev[i], s0, m) < m / 2 by {
                assert(prev[i] == inputs[i]);
            }
        }
        lemma_run_inv(prev, m);
        assert(0 <= s < m && sub_mod(s, s0, m) < m / 2) by {
            assert(inputs[inputs.len() - 1] == s);
        }
        lemma_track_step(run_model(prev, m), s0, prev.to_set(), m, s);
        assert(r == track_model(run_model(prev, m), s, m));
        assert(inputs.to_set() =~= prev.to_set().insert(s)) by {
            assert forall|x: int| #[trigger] inputs.to_set().contains(x) implies prev.to_set().insert(
                s,
            ).contains(x) by {
                let i = choose|i: int| 0 <= i < inputs.len() && inputs[i] == x;
                if i < prev.len() {
                    assert(prev[i] == x);
                    assert(prev.contains(x));
                }
            }
            assert forall|x: int| #[trigger] prev.to_set().insert(s).contains(x) implies inputs.to_set().contains(
                x,
            ) by {
                if x == s {
                    assert(inputs[inputs.len() - 1] == x);
                } else {
                    let i = choose|i: int| 0 <= i < prev.len() && prev[i] == x;
                    assert(inputs[i] == x);
                }
            }
        }
    }
}

/// The union of two disjoint finite sets has the sum of their sizes.
proof fn lemma_disjoint_union_len<A>(a: Set<A>, b: Set<A>)
    requires
        a.finite(),
        b.finite(),
        a.intersect(b) == Set::<A>::empty(),
    ensures
        a.union(b).finite(),
        a.union(b).len() == a.len() + b.len(),
    decreases a.len(),
{
    broadcast use vstd::set::group_set_axioms;

    if a.len() == 0 {
        assert(a =~= Set::empty());
        assert(a.union(b) =~= b);
    } else {
        let x = a.choose();
        assert(a.contains(x));
        assert(!b.contains(x)) by {
            assert(!a.intersect(b).contains(x));
        }
        assert(a.remove(x).intersect(b) =~= Set::empty()) by {
            assert forall|y: A| !(#[trigger] a.remove(x).intersect(b).contains(y)) by {
                assert(!a.intersect(b).contains(y));
            }
        }
        lemma_disjoint_union_len(a.remove(x), b);
        assert(a.union(b) =~= a.remove(x).union(b).insert(x));
        assert(!a.remove(x).union(b).contains(x));
    }
}

/// With the ranges valid and pairwise disjoint, the sum of their lengths is
/// the size of the set they cover.
pub proof fn lemma_ranges_total_card(rs: Seq<(int, int)>, m: int)
    requires
        ranges_valid(rs, m),
        ranges_disjoint(rs),
    ensures
        ranges_set(rs).finite(),
        ranges_set(rs).len() == ranges_total(rs),
    decreases rs.len(),
{
    broadcast use vstd::set::group_set_axioms;

    if rs.len() == 0 {
        assert forall|x: int| !(#[trigger] in_ranges(rs, x)) by {}
        assert(ranges_set(rs) =~= Set::empty());
    } else {
        let rest = rs.drop_first();
        assert forall|i: int| 0 <= i < rest.len() implies valid_range(#[trigger] rest[i], m) by {
            assert(rest[i] == rs[i + 1]);
        }
        assert forall|a: int, b: int| 0 <= a < b < rest.len() implies (#[trigger] rest[a]).1
            < (#[trigger] rest[b]).0 || rest[b].1 < rest[a].0 by {
            assert(rest[a] == rs[a + 1] && rest[b] == rs[b + 1]);
            assert(rs[a + 1].1 < rs[b + 1].0 || rs[b + 1].1 < rs[a + 1].0);
        }
        lemma_ranges_total_card(rest, m);
        let head = set_int_range(rs[0].0, rs[0].1 + 1);
        lemma_int_range(rs[0].0, rs[0].1 + 1);
        assert(ranges_set(rs) =~= head.union(ranges_set(rest))) by {
            assert forall|x: int| #[trigger] in_ranges(rs, x) implies head.contains(x)
                || in_ranges(rest, x) by {
                let j = choose|j: int| 0 <= j < rs.len() && (#[trigger] rs[j]).0 <= x <= rs[j].1;
                if j > 0 {
                    assert(rest[j - 1] == rs[j]);
                    lemma_elem_in_ranges(rest, j - 1, x);
                }
            }
            assert forall|x: int| head.contains(x) || in_ranges(rest, x) implies in_ranges(
                rs,
                x,
            ) by {
                if head.contains(x) {
                    lemma_elem_in_ranges(rs, 0, x);
                } else {
                    let j = choose|j: int|
                        0 <= j < rest.len() && (#[trigger] rest[j]).0 <= x <= rest[j].1;
                    assert(rs[j + 1] == rest[j]);
                    lemma_elem_in_ranges(rs, j + 1, x);
                }
            }
        }
        assert(head.intersect(ranges_set(rest)) =~= Set::empty()) by {
            assert forall|x: int| !(#[trigger] head.intersect(ranges_set(rest)).contains(x)) by {
                if head.contains(x) && in_ranges(rest, x) {
                    let j = choose|j: int|
                        0 <= j < rest.len() && (#[trigger] rest[j]).0 <= x <= rest[j].1;
                    assert(rest[j] == rs[j + 1]);
                    assert(rs[0].1 < rs[j + 1].0 || rs[j + 1].1 < rs[0].0);
                }
            }
        }
        lemma_disjoint_union_len(head, ranges_set(rest));
    }
}

/// The modular window from `s0` to `l` holds one number per position.
proof fn lemma_window_card(s0: int, l: int, m: int)
    requires
        2 <= m,
        0 <= s0 < m,
        0 <= l < m,
    ensures
        window(s0, l, m).finite(),
        window(s0, l, m).len() == sub_mod(l, s0, m) + 1,
    decreases sub_mod(l, s0, m),
{
    broadcast use vstd::set::group_set_axioms;

    let span = sub_mod(l, s0, m);
    if span == 0 {
        assert(l == s0);
        assert(window(s0, l, m) =~= Set::empty().insert(s0));
    } else {
        let l2 = sub_mod(l, 1, m);
        assert(0 <= l2 < m);
        assert(sub_mod(l2, s0, m) == span - 1);
        lemma_window_card(s0, l2, m);
        assert(window(s0, l, m) =~= window(s0, l2, m).insert(l));
        assert(!window(s0, l2, m).contains(l));
    }
}

/// Removing a finite subset removes exactly its size.
proof fn lemma_diff_card<A>(w: Set<A>, s: Set<A>)
    requires
        w.finite(),
        s.subset_of(w),
    ensures
        w.difference(s).finite(),
        w.difference(s).len() == w.len() - s.len(),
{
    broadcast use vstd::set::group_set_axioms;

    lemma_len_subset(s, w);
    assert(s.intersect(w.difference(s)) =~= Set::empty());
    lemma_disjoint_union_len(s, w.difference(s));
    assert(s.union(w.difference(s)) =~= w);
}

/// For any stream within half the number space forward of its first element,
/// the missing ranges are valid (`lo <= hi`) and pairwise disjoint.
pub proof fn lemma_missing_ranges_wf(inputs: Seq<int>, m: int)
    requires
        4 <= m,
        m % 2 == 0,
        in_first_window(inputs, m),
    ensures
        ranges_valid(run_model(inputs, m).missing, m),
        ranges_disjoint(run_model(inputs, m).missing),
{
    if inputs.len() == 0 {
        assert(run_model(inputs, m) == init_model());
    } else {
        lemma_run_inv(inputs, m);
    }
}

/// Duplicate and gap accounting for any stream within half the number space
/// forward of its first element: the duplicate counter plus the number of
/// distinct values equals the number of observations, and the missing ranges
/// plus the distinct values fill the observed span exactly.
pub proof fn lemma_duplicate_accounting(inputs: Seq<int>, m: int)
    requires
        4 <= m,
        m % 2 == 0,
        in_first_window(inputs, m),
    ensures
        run_model(inputs, m).dups + inputs.to_set().len() == inputs.len(),
        inputs.len() >= 1 ==> ranges_total(run_model(inputs, m).missing) + inputs.to_set().len()
            == sub_mod(run_model(inputs, m).last->0, inputs[0], m) + 1,
{
    broadcast use vstd::set::group_set_axioms;

    if inputs.len() == 0 {
        assert(run_model(inputs, m) == init_model());
        assert forall|x: int| !(#[trigger] inputs.to_set().contains(x)) by {
            assert(!inputs.contains(x));
        }
        assert(inputs.to_set() =~= Set::empty());
    } else {
        lemma_run_inv(inputs, m);
        let r = run_model(inputs, m);
        let s0 = inputs[0];
        let l = r.last->0;
        let seen = inputs.to_set();
        lemma_ranges_total_card(r.missing, m);
        lemma_window_card(s0, l, m);
        assert(seen.subset_of(window(s0, l, m)));
        lemma_diff_card(window(s0, l, m), seen);
        assert(ranges_set(r.missing).len() == window(s0, l, m).len() - seen.len());
    }
}

/// The value `n` steps forward of `v`, each step an increment modulo `m`:
/// what a `Sequencer` holds after `n` calls to `next_seq`.
pub open spec fn advance_many(v: int, n: nat, m: int) -> int
    decreases n,
{
    if n == 0 {
        v
    } else {
        add_mod(advance_many(v, (n - 1) as nat, m), 1, m)
    }
}

proof fn lemma_advance_many_small(v: int, n: nat, m: int)
    requires
        2 <= m,
        0 <= v < m,
        n <= m,
    ensures
        advance_many(v, n, m) == if v + n < m {
            v + n
        } else {
            v + n - m
        },
    decreases n,
{
    if n > 0 {
        lemma_advance_many_small(v, (n - 1) as nat, m);
    }
}

/// A sequencer is idempotent under a full rotation: advancing one step at a
/// time, `m` steps return it to its starting value.
pub proof fn lemma_sequencer_rotation(v: int, m: int)
    requires
        2 <= m,
        0 <= v < m,
    ensures
        advance_many(v, m as nat, m) == v,
{
    lemma_advance_many_small(v, m as nat, m);
}

/// A contiguous run of `len` numbers starting at `k`, not reaching the wrap
/// point, leaves no missing range and no duplicate; the analyzer merely
/// advances to the last number of the run.
pub proof fn lemma_contiguous_run(k: int, len: nat, m: int, inputs: Seq<int>)
    requires
        4 <= m,
        m % 2 == 0,
        0 <= k,
        k + len <= m,
        inputs =~= Seq::new(len, |i: int| k + i),
    ensures
        run_model(inputs, m).missing =~= Seq::<(int, int)>::empty(),
        run_model(inputs, m).dups == 0,
        run_model(inputs, m).cnt == len,
        len > 0 ==> run_model(inputs, m).last == Some(k + len - 1),
        len == 0 ==> run_model(inputs, m).last is None,
    decreases len,
{
    if len > 0 {
        let prev = Seq::new((len - 1) as nat, |i: int| k + i);
        lemma_contiguous_run(k, (len - 1) as nat, m, prev);
        assert(inputs.drop_last() =~= prev);
        assert(inputs.last() == k + len - 1);
        if len == 1 {
            assert(run_model(inputs, m) == track_model(init_model(), k, m));
        } else {
            let r = run_model(prev, m);
            assert(r.last == Some(k + len - 2));
            assert(add_mod(k + len - 2, 1, m) == k + len - 1);
            assert(run_model(inputs, m) == track_model(r, k + len - 1, m));
        }
    }
}

} // verus!
