//! The control channel: messages, wire codec and framing.
//!
//! Control messages travel as JSON texts, each followed by a single zero
//! byte.  The codec here produces the canonical encoding (externally tagged,
//! no whitespace, fields in declaration order — byte-compatible with the
//! common JSON serializers) and accepts exactly that canonical form: both
//! ends of the channel are this program, and the grammar below *is* the wire
//! contract.  [`enc_msg`] and [`parse_msg`] are the specification;
//! [`encode_msg`] and [`decode_msg`] compute them.

use vstd::prelude::*;

use crate::sequence::{missing_model, SequenceReport};

verus! {

/// A control message between client and server.
#[derive(Debug)]
pub enum ControlMessage {
    /// Client asks the server to open a new receive flow.
    RequestFlow,
    /// Server announces the UDP port it listens on for the new flow.
    ExpectFlow(u16),
    /// Client asks the server to stop the flow on this port.
    TerminateFlow(u16),
    /// Server returns the sequence report of a terminated flow.
    Report(SequenceReport),
}

/// A control message over mathematical integers, for specification.
pub ghost enum MsgModel {
    /// Open a new receive flow.
    RequestFlow,
    /// The UDP port the server listens on.
    ExpectFlow(int),
    /// Stop the flow on this port.
    TerminateFlow(int),
    /// The report of a terminated flow.
    Report(ReportModel),
}

/// A sequence report over mathematical integers.
pub ghost struct ReportModel {
    /// Last sequence number observed, or 0 if none was.
    pub last_seq: int,
    /// Inclusive ranges of sequence numbers never observed.
    pub missing: Seq<(int, int)>,
    /// How many observations were classified as duplicates.
    pub dups: int,
    /// Total number of observations.
    pub cnt: int,
}

/// The model of a report value.
pub open spec fn report_model(r: SequenceReport) -> ReportModel {
    ReportModel {
        last_seq: r.last_seq as int,
        missing: missing_model(r.missing@),
        dups: r.dups as int,
        cnt: r.cnt as int,
    }
}

/// The model of a message value.
pub open spec fn msg_model(m: ControlMessage) -> MsgModel {
    match m {
        ControlMessage::RequestFlow => MsgModel::RequestFlow,
        ControlMessage::ExpectFlow(p) => MsgModel::ExpectFlow(p as int),
        ControlMessage::TerminateFlow(p) => MsgModel::TerminateFlow(p as int),
        ControlMessage::Report(r) => MsgModel::Report(report_model(r)),
    }
}

// ---------------------------------------------------------------------------
// Decimal numbers
// ---------------------------------------------------------------------------

/// ASCII decimal digit.
pub open spec fn is_digit(b: u8) -> bool {
    48 <= b <= 57
}

/// The canonical decimal digits of a non-negative number: no sign, no
/// leading zero (`0` itself is one digit).
pub open spec fn dec_rep(n: int) -> Seq<u8>
    recommends
        n >= 0,
    decreases n,
{
    if n < 10 {
        seq![(48 + if 0 <= n {
            n
        } else {
            0
        }) as u8]
    } else {
        dec_rep(n / 10).push((48 + n % 10) as u8)
    }
}

/// Numeric value of a digit string.
pub open spec fn digits_val(s: Seq<u8>) -> int
    decreases s.len(),
{
    if s.len() == 0 {
        0
    } else {
        digits_val(s.drop_last()) * 10 + (s.last() - 48)
    }
}

/// Powers of ten.
pub open spec fn pow10(n: nat) -> int
    decreases n,
{
    if n == 0 {
        1int
    } else {
        10 * pow10((n - 1) as nat)
    }
}

/// Shape of the canonical digits: at least one digit, all digits, no leading
/// zero, and their value is the number itself, bounded by the digit count.
pub proof fn lemma_dec_rep(n: int)
    requires
        n >= 0,
    ensures
        dec_rep(n).len() >= 1,
        forall|i: int| 0 <= i < dec_rep(n).len() ==> is_digit(#[trigger] dec_rep(n)[i]),
        dec_rep(n)[0] != 48 || dec_rep(n).len() == 1,
        digits_val(dec_rep(n)) == n,
        n < pow10(dec_rep(n).len() as nat),
        n >= 10 ==> dec_rep(n).len() >= 2,
    decreases n,
{
    if n < 10 {
        assert(dec_rep(n) == seq![(48 + n) as u8]);
        assert(dec_rep(n).drop_last() =~= Seq::<u8>::empty());
        assert(digits_val(dec_rep(n)) == digits_val(Seq::<u8>::empty()) * 10 + n);
        assert(pow10(0) == 1);
        assert(pow10(1) == 10 * pow10(0));
    } else {
        lemma_dec_rep(n / 10);
        let pre = dec_rep(n / 10);
        let whole = dec_rep(n);
        assert(whole == pre.push((48 + n % 10) as u8));
        assert(whole.drop_last() =~= pre);
        assert(whole[0] == pre[0]);
        assert forall|i: int| 0 <= i < whole.len() implies is_digit(#[trigger] whole[i]) by {
            if i < pre.len() {
                assert(whole[i] == pre[i]);
            }
        }
        assert(digits_val(whole) == (n / 10) * 10 + n % 10);
        assert((n / 10) * 10 + n % 10 == n) by {
            vstd::arithmetic::div_mod::lemma_fundamental_div_mod(n, 10);
        }
        assert(n < pow10(whole.len() as nat)) by {
            assert(n / 10 < pow10(pre.len() as nat));
            assert(pow10(whole.len() as nat) == 10 * pow10(pre.len() as nat));
            assert(n < 10 * (n / 10) + 10) by {
                vstd::arithmetic::div_mod::lemma_fundamental_div_mod(n, 10);
            }
        }
    }
}

/// A digit string without a leading zero is at least `pow10(len - 1)`.
pub proof fn lemma_digits_val_lower(s: Seq<u8>)
    requires
        s.len() >= 1,
        forall|i: int| 0 <= i < s.len() ==> is_digit(#[trigger] s[i]),
        s[0] != 48,
    ensures
        digits_val(s) >= pow10((s.len() - 1) as nat),
    decreases s.len(),
{
    if s.len() == 1 {
        assert(s.drop_last() =~= Seq::<u8>::empty());
        assert(is_digit(s[0]) && s[0] != 48);
        assert(s.last() == s[0]);
        assert(pow10(0) == 1);
        assert(digits_val(s.drop_last()) == 0);
        assert(digits_val(s) == s[0] - 48);
    } else {
        let pre = s.drop_last();
        assert(pre[0] == s[0]);
        assert(is_digit(s[s.len() - 1]));
        assert forall|i: int| 0 <= i < pre.len() implies is_digit(#[trigger] pre[i]) by {
            assert(pre[i] == s[i]);
        }
        lemma_digits_val_lower(pre);
        assert(digits_val(s) == digits_val(pre) * 10 + (s.last() - 48));
        assert(digits_val(pre) * 10 >= pow10((pre.len() - 1) as nat) * 10) by {
            vstd::arithmetic::mul::lemma_mul_inequality(
                pow10((pre.len() - 1) as nat),
                digits_val(pre),
                10,
            );
        }
        assert(pow10((s.len() - 1) as nat) == 10 * pow10((s.len() - 2) as nat));
    }
}

/// Digit strings are bounded by the power of ten of their length.
pub proof fn lemma_digits_val_bounds(s: Seq<u8>)
    requires
        forall|i: int| 0 <= i < s.len() ==> is_digit(#[trigger] s[i]),
    ensures
        0 <= digits_val(s) < pow10(s.len() as nat),
    decreases s.len(),
{
    if s.len() > 0 {
        let pre = s.drop_last();
        assert forall|i: int| 0 <= i < pre.len() implies is_digit(#[trigger] pre[i]) by {
            assert(pre[i] == s[i]);
        }
        lemma_digits_val_bounds(pre);
        assert(digits_val(s) == digits_val(pre) * 10 + (s.last() - 48));
        assert(digits_val(pre) * 10 <= (pow10(pre.len() as nat) - 1) * 10) by {
            vstd::arithmetic::mul::lemma_mul_inequality(
                digits_val(pre),
                pow10(pre.len() as nat) - 1,
                10,
            );
        }
        assert(digits_val(pre) * 10 >= 0) by {
            vstd::arithmetic::mul::lemma_mul_nonnegative(digits_val(pre), 10);
        }
        assert(pow10(s.len() as nat) == 10 * pow10(pre.len() as nat));
    }
}

/// First position at or after `i` that does not hold a digit.
pub open spec fn digits_end(s: Seq<u8>, i: int) -> int
    decreases s.len() - i,
{
    if 0 <= i < s.len() && is_digit(s[i]) {
        digits_end(s, i + 1)
    } else {
        i
    }
}

/// `digits_end` stays within the string and passes exactly over digits.
pub proof fn lemma_digits_end(s: Seq<u8>, i: int)
    requires
        0 <= i <= s.len(),
    ensures
        i <= digits_end(s, i) <= s.len(),
        forall|t: int| i <= t < digits_end(s, i) ==> is_digit(#[trigger] s[t]),
        digits_end(s, i) < s.len() ==> !is_digit(s[digits_end(s, i)]),
    decreases s.len() - i,
{
    if 0 <= i < s.len() && is_digit(s[i]) {
        lemma_digits_end(s, i + 1);
    }
}

/// `digits_end` is pinned by any witness of the same shape.
pub proof fn lemma_digits_end_is(s: Seq<u8>, i: int, j: int)
    requires
        0 <= i <= j <= s.len(),
        forall|t: int| i <= t < j ==> is_digit(#[trigger] s[t]),
        j < s.len() ==> !is_digit(s[j]),
    ensures
        digits_end(s, i) == j,
    decreases j - i,
{
    if i < j {
        lemma_digits_end_is(s, i + 1, j);
    }
}

/// Parse a canonical decimal number: at least one digit, no leading zero.
/// Yields the value and the position after the digits.
pub open spec fn parse_num(s: Seq<u8>, i: int) -> Option<(int, int)> {
    let j = digits_end(s, i);
    if j == i {
        None
    } else if s[i] == 48 && j > i + 1 {
        None
    } else {
        Some((digits_val(s.subrange(i, j)), j))
    }
}

/// Parsing right after writing the canonical digits gives the number back,
/// whatever follows them, provided it does not begin with a digit.
pub proof fn lemma_parse_num_round(pre: Seq<u8>, n: int, suf: Seq<u8>)
    requires
        n >= 0,
        suf.len() > 0 ==> !is_digit(suf[0]),
    ensures
        parse_num(pre + dec_rep(n) + suf, pre.len() as int) == Some::<(int, int)>(
            (n, pre.len() + dec_rep(n).len() as int),
        ),
{
    lemma_dec_rep(n);
    let s = pre + dec_rep(n) + suf;
    let i = pre.len() as int;
    let j = i + dec_rep(n).len();
    assert forall|t: int| i <= t < j implies is_digit(#[trigger] s[t]) by {
        assert(s[t] == dec_rep(n)[t - i]);
    }
    assert(j < s.len() ==> !is_digit(s[j])) by {
        if j < s.len() {
            assert(s[j] == suf[0]);
        }
    }
    lemma_digits_end_is(s, i, j);
    assert(s.subrange(i, j) =~= dec_rep(n));
    assert(s[i] == dec_rep(n)[0]);
}

/// Powers of ten do not decrease.
pub proof fn lemma_pow10_mono(a: nat, b: nat)
    requires
        a <= b,
    ensures
        0 < pow10(a) <= pow10(b),
    decreases b,
{
    if b > 0 {
        if a == b {
            lemma_pow10_mono(0, (b - 1) as nat);
        } else {
            lemma_pow10_mono(a, (b - 1) as nat);
        }
        assert(pow10(b) == 10 * pow10((b - 1) as nat));
    }
}

/// Within bounds, a successful number parse moves strictly forward.
pub proof fn lemma_parse_num_bounds(s: Seq<u8>, i: int)
    requires
        0 <= i <= s.len(),
    ensures
        parse_num(s, i) matches Some(r) ==> i < r.1 <= s.len() && 0 <= r.0,
{
    lemma_digits_end(s, i);
    if parse_num(s, i) is Some {
        let j = digits_end(s, i);
        assert forall|t: int| 0 <= t < s.subrange(i, j).len() implies is_digit(
            #[trigger] s.subrange(i, j)[t],
        ) by {
            assert(s.subrange(i, j)[t] == s[t + i]);
        }
        lemma_digits_val_bounds(s.subrange(i, j));
    }
}

// ---------------------------------------------------------------------------
// The message grammar
// ---------------------------------------------------------------------------

/// `"RequestFlow"`
pub open spec fn lit_request() -> Seq<u8> {
    seq![34u8, 82u8, 101u8, 113u8, 117u8, 101u8, 115u8, 116u8, 70u8, 108u8, 111u8, 119u8, 34u8]
}

/// `{"ExpectFlow":`
pub open spec fn lit_expect() -> Seq<u8> {
    seq![123u8, 34u8, 69u8, 120u8, 112u8, 101u8, 99u8, 116u8, 70u8, 108u8, 111u8, 119u8, 34u8, 58u8]
}

/// `{"TerminateFlow":`
pub open spec fn lit_terminate() -> Seq<u8> {
    seq![
        123u8,
        34u8,
        84u8,
        101u8,
        114u8,
        109u8,
        105u8,
        110u8,
        97u8,
        116u8,
        101u8,
        70u8,
        108u8,
        111u8,
        119u8,
        34u8,
        58u8,
    ]
}

/// `{"Report":{"last_seq":`
pub open spec fn lit_report() -> Seq<u8> {
    seq![
        123u8,
        34u8,
        82u8,
        101u8,
        112u8,
        111u8,
        114u8,
        116u8,
        34u8,
        58u8,
        123u8,
        34u8,
        108u8,
        97u8,
        115u8,
        116u8,
        95u8,
        115u8,
        101u8,
        113u8,
        34u8,
        58u8,
    ]
}

/// `,"missing":[`
pub open spec fn lit_missing() -> Seq<u8> {
    seq![44u8, 34u8, 109u8, 105u8, 115u8, 115u8, 105u8, 110u8, 103u8, 34u8, 58u8, 91u8]
}

/// `],"dups":`
pub open spec fn lit_dups() -> Seq<u8> {
    seq![93u8, 44u8, 34u8, 100u8, 117u8, 112u8, 115u8, 34u8, 58u8]
}

/// `,"cnt":`
pub open spec fn lit_cnt() -> Seq<u8> {
    seq![44u8, 34u8, 99u8, 110u8, 116u8, 34u8, 58u8]
}

/// One missing range as a two-element JSON array.
pub open spec fn enc_pair(p: (int, int)) -> Seq<u8> {
    seq![91u8] + dec_rep(p.0) + seq![44u8] + dec_rep(p.1) + seq![93u8]
}

/// Comma-separated missing ranges (without the surrounding brackets).
pub open spec fn enc_pairs(ps: Seq<(int, int)>) -> Seq<u8>
    decreases ps.len(),
{
    if ps.len() == 0 {
        Seq::empty()
    } else if ps.len() == 1 {
        enc_pair(ps[0])
    } else {
        enc_pair(ps[0]) + seq![44u8] + enc_pairs(ps.drop_first())
    }
}

/// The canonical wire text of a message: an externally tagged JSON value
/// with no whitespace and the report fields in declaration order.
pub open spec fn enc_msg(m: MsgModel) -> Seq<u8> {
    match m {
        MsgModel::RequestFlow => lit_request(),
        MsgModel::ExpectFlow(p) => lit_expect() + dec_rep(p) + seq![125u8],
        MsgModel::TerminateFlow(p) => lit_terminate() + dec_rep(p) + seq![125u8],
        MsgModel::Report(r) => lit_report() + dec_rep(r.last_seq) + lit_missing() + enc_pairs(
            r.missing,
        ) + lit_dups() + dec_rep(r.dups) + lit_cnt() + dec_rep(r.cnt) + seq![125u8, 125u8],
    }
}

/// The fields of a model fit their wire types.
pub open spec fn model_wf(m: MsgModel) -> bool {
    match m {
        MsgModel::RequestFlow => true,
        MsgModel::ExpectFlow(p) => 0 <= p <= 0xffff,
        MsgModel::TerminateFlow(p) => 0 <= p <= 0xffff,
        MsgModel::Report(r) => {
            &&& 0 <= r.last_seq <= 0xffff_ffff
            &&& 0 <= r.dups <= 0xffff_ffff
            &&& 0 <= r.cnt <= 0xffff_ffff
            &&& pairs_wf(r.missing)
        },
    }
}

/// Every range member fits its 32-bit wire type.
pub open spec fn pairs_wf(ps: Seq<(int, int)>) -> bool {
    forall|i: int|
        0 <= i < ps.len() ==> 0 <= (#[trigger] ps[i]).0 <= 0xffff_ffff && 0 <= ps[i].1
            <= 0xffff_ffff
}

/// The bytes of `lit` stand at position `i` of `s`.
pub open spec fn match_lit(s: Seq<u8>, i: int, lit: Seq<u8>) -> bool {
    0 <= i && i + lit.len() <= s.len() && s.subrange(i, i + lit.len() as int) == lit
}

/// Parse one `[lo,hi]` pair with 32-bit members, returning it and the
/// position after the closing bracket.
pub open spec fn parse_pair(s: Seq<u8>, i: int) -> Option<((int, int), int)> {
    if 0 <= i < s.len() && s[i] == 91u8 {
        match parse_num(s, i + 1) {
            Some((a, j)) => if a <= 0xffff_ffff && j < s.len() && s[j] == 44u8 {
                match parse_num(s, j + 1) {
                    Some((b, k)) => if b <= 0xffff_ffff && k < s.len() && s[k] == 93u8 {
                        Some(((a, b), k + 1))
                    } else {
                        None
                    },
                    None => None,
                }
            } else {
                None
            },
            None => None,
        }
    } else {
        None
    }
}

/// A successful pair parse moves strictly forward.
pub proof fn lemma_parse_pair_bounds(s: Seq<u8>, i: int)
    ensures
        parse_pair(s, i) matches Some(r) ==> i < r.1 <= s.len(),
{
    if 0 <= i < s.len() && s[i] == 91u8 {
        lemma_parse_num_bounds(s, i + 1);
        match parse_num(s, i + 1) {
            Some(r1) => {
                if r1.1 < s.len() {
                    lemma_parse_num_bounds(s, r1.1 + 1);
                }
            },
            None => {},
        }
    }
}

/// Parse the members of the missing array, from right after its `[` up to
/// and including its `]`.
pub open spec fn parse_pairs(s: Seq<u8>, i: int) -> Option<(Seq<(int, int)>, int)>
    decreases s.len() - i when 0 <= i via parse_pairs_dec
{
    if 0 <= i < s.len() && s[i] == 93u8 {
        Some((Seq::empty(), i + 1))
    } else {
        match parse_pair(s, i) {
            Some((p, j)) => if j < s.len() && s[j] == 93u8 {
                Some((seq![p], j + 1))
            } else if j < s.len() && s[j] == 44u8 && !(j + 1 < s.len() && s[j + 1] == 93u8) {
                match parse_pairs(s, j + 1) {
                    Some((ps, k)) => Some((seq![p] + ps, k)),
                    None => None,
                }
            } else {
                None
            },
            None => None,
        }
    }
}

#[via_fn]
proof fn parse_pairs_dec(s: Seq<u8>, i: int) {
    lemma_parse_pair_bounds(s, i);
}

/// Parse a whole message: exactly the canonical texts are accepted.
pub open spec fn parse_msg(s: Seq<u8>) -> Option<MsgModel> {
    if s == lit_request() {
        Some(MsgModel::RequestFlow)
    } else if match_lit(s, 0, lit_expect()) {
        match parse_num(s, lit_expect().len() as int) {
            Some((v, j)) => if v <= 0xffff && j + 1 == s.len() && s[j] == 125u8 {
                Some(MsgModel::ExpectFlow(v))
            } else {
                None
            },
            None => None,
        }
    } else if match_lit(s, 0, lit_terminate()) {
        match parse_num(s, lit_terminate().len() as int) {
            Some((v, j)) => if v <= 0xffff && j + 1 == s.len() && s[j] == 125u8 {
                Some(MsgModel::TerminateFlow(v))
            } else {
                None
            },
            None => None,
        }
    } else if match_lit(s, 0, lit_report()) {
        match parse_num(s, lit_report().len() as int) {
            Some((ls, j1)) => if ls <= 0xffff_ffff && match_lit(s, j1, lit_missing()) {
                match parse_pairs(s, j1 + lit_missing().len() as int) {
                    Some((ps, j2)) => if match_lit(s, j2 - 1, lit_dups()) {
                        match parse_num(s, j2 - 1 + lit_dups().len()) {
                            Some((d, j3)) => if d <= 0xffff_ffff && match_lit(s, j3, lit_cnt()) {
                                match parse_num(s, j3 + lit_cnt().len()) {
                                    Some((c, j4)) => if c <= 0xffff_ffff && j4 + 2 == s.len()
                                        && s[j4] == 125u8 && s[j4 + 1] == 125u8 {
                                        Some(
                                            MsgModel::Report(
                                                ReportModel {
                                                    last_seq: ls,
                                                    missing: ps,
                                                    dups: d,
                                                    cnt: c,
                                                },
                                            ),
                                        )
                                    } else {
                                        None
                                    },
                                    None => None,
                                }
                            } else {
                                None
                            },
                            None => None,
                        }
                    } else {
                        None
                    },
                    None => None,
                }
            } else {
                None
            },
            None => None,
        }
    } else {
        None
    }
}

// ---------------------------------------------------------------------------
// Executable codec
// ---------------------------------------------------------------------------

/// Small powers of ten as numerals.
proof fn lemma_pow10_vals()
    ensures
        pow10(0) == 1,
        pow10(1) == 10,
        pow10(2) == 100,
        pow10(3) == 1000,
        pow10(4) == 10000,
        pow10(5) == 100000,
        pow10(6) == 1000000,
        pow10(7) == 10000000,
        pow10(8) == 100000000,
        pow10(9) == 1000000000,
        pow10(10) == 10000000000,
{
    assert(pow10(0) == 1);
    assert(pow10(1) == 10 * pow10(0));
    assert(pow10(2) == 10 * pow10(1));
    assert(pow10(3) == 10 * pow10(2));
    assert(pow10(4) == 10 * pow10(3));
    assert(pow10(5) == 10 * pow10(4));
    assert(pow10(6) == 10 * pow10(5));
    assert(pow10(7) == 10 * pow10(6));
    assert(pow10(8) == 10 * pow10(7));
    assert(pow10(9) == 10 * pow10(8));
    assert(pow10(10) == 10 * pow10(9));
}

/// Append the canonical decimal digits of `n`.
pub fn push_dec(n: u64, out: &mut Vec<u8>)
    ensures
        final(out)@ == old(out)@ + dec_rep(n as int),
    decreases n,
{
    if n < 10 {
        out.push(48 + (n as u8));
        proof {
            assert(final(out)@ =~= old(out)@ + dec_rep(n as int));
        }
    } else {
        push_dec(n / 10, out);
        out.push(48 + ((n % 10) as u8));
        proof {
            assert(dec_rep(n as int) == dec_rep(n as int / 10).push((48 + n as int % 10) as u8));
            assert(final(out)@ =~= old(out)@ + dec_rep(n as int));
        }
    }
}

/// Do the bytes of `lit` stand at position `i` of `s`?
fn match_at(s: &Vec<u8>, i: usize, lit: &Vec<u8>) -> (r: bool)
    ensures
        r == match_lit(s@, i as int, lit@),
{
    if i > s.len() || s.len() - i < lit.len() {
        return false;
    }
    let mut k: usize = 0;
    while k < lit.len()
        invariant
            i + lit.len() <= s.len(),
            k <= lit.len(),
            forall|t: int| 0 <= t < k ==> s@[i + t] == lit@[t],
        decreases lit.len() - k,
    {
        if s[i + k] != lit[k] {
            proof {
                if match_lit(s@, i as int, lit@) {
                    assert(s@.subrange(i as int, i + lit@.len() as int)[k as int] == lit@[k as int]);
                }
            }
            return false;
        }
        k = k + 1;
    }
    proof {
        assert(s@.subrange(i as int, i + lit@.len() as int) =~= lit@);
    }
    true
}

/// `"RequestFlow"` as bytes.
fn lit_request_vec() -> (v: Vec<u8>)
    ensures
        v@ == lit_request(),
{
    let mut v: Vec<u8> = Vec::new();
    v.push(34);
    v.push(82);
    v.push(101);
    v.push(113);
    v.push(117);
    v.push(101);
    v.push(115);
    v.push(116);
    v.push(70);
    v.push(108);
    v.push(111);
    v.push(119);
    v.push(34);
    proof {
        assert(v@ =~= lit_request());
    }
    v
}

/// `{"ExpectFlow":` as bytes.
fn lit_expect_vec() -> (v: Vec<u8>)
    ensures
        v@ == lit_expect(),
{
    let mut v: Vec<u8> = Vec::new();
    v.push(123);
    v.push(34);
    v.push(69);
    v.push(120);
    v.push(112);
    v.push(101);
    v.push(99);
    v.push(116);
    v.push(70);
    v.push(108);
    v.push(111);
    v.push(119);
    v.push(34);
    v.push(58);
    proof {
        assert(v@ =~= lit_expect());
    }
    v
}

/// `{"TerminateFlow":` as bytes.
fn lit_terminate_vec() -> (v: Vec<u8>)
    ensures
        v@ == lit_terminate(),
{
    let mut v: Vec<u8> = Vec::new();
    v.push(123);
    v.push(34);
    v.push(84);
    v.push(101);
    v.push(114);
    v.push(109);
    v.push(105);
    v.push(110);
    v.push(97);
    v.push(116);
    v.push(101);
    v.push(70);
    v.push(108);
    v.push(111);
    v.push(119);
    v.push(34);
    v.push(58);
    proof {
        assert(v@ =~= lit_terminate());
    }
    v
}

/// `{"Report":{"last_seq":` as bytes.
fn lit_report_vec() -> (v: Vec<u8>)
    ensures
        v@ == lit_report(),
{
    let mut v: Vec<u8> = Vec::new();
    v.push(123);
    v.push(34);
    v.push(82);
    v.push(101);
    v.push(112);
    v.push(111);
    v.push(114);
    v.push(116);
    v.push(34);
    v.push(58);
    v.push(123);
    v.push(34);
    v.push(108);
    v.push(97);
    v.push(115);
    v.push(116);
    v.push(95);
    v.push(115);
    v.push(101);
    v.push(113);
    v.push(34);
    v.push(58);
    proof {
        assert(v@ =~= lit_report());
    }
    v
}

/// `,"missing":[` as bytes.
fn lit_missing_vec() -> (v: Vec<u8>)
    ensures
        v@ == lit_missing(),
{
    let mut v: Vec<u8> = Vec::new();
    v.push(44);
    v.push(34);
    v.push(109);
    v.push(105);
    v.push(115);
    v.push(115);
    v.push(105);
    v.push(110);
    v.push(103);
    v.push(34);
    v.push(58);
    v.push(91);
    proof {
        assert(v@ =~= lit_missing());
    }
    v
}

/// `],"dups":` as bytes.
fn lit_dups_vec() -> (v: Vec<u8>)
    ensures
        v@ == lit_dups(),
{
    let mut v: Vec<u8> = Vec::new();
    v.push(93);
    v.push(44);
    v.push(34);
    v.push(100);
    v.push(117);
    v.push(112);
    v.push(115);
    v.push(34);
    v.push(58);
    proof {
        assert(v@ =~= lit_dups());
    }
    v
}

/// `,"cnt":` as bytes.
fn lit_cnt_vec() -> (v: Vec<u8>)
    ensures
        v@ == lit_cnt(),
{
    let mut v: Vec<u8> = Vec::new();
    v.push(44);
    v.push(34);
    v.push(99);
    v.push(110);
    v.push(116);
    v.push(34);
    v.push(58);
    proof {
        assert(v@ =~= lit_cnt());
    }
    v
}

/// Appending one pair extends the joined encoding by a comma (except for the
/// first pair).
proof fn lemma_enc_pairs_push(ps: Seq<(int, int)>, p: (int, int))
    ensures
        enc_pairs(ps.push(p)) == if ps.len() == 0 {
            enc_pair(p)
        } else {
            enc_pairs(ps) + seq![44u8] + enc_pair(p)
        },
    decreases ps.len(),
{
    if ps.len() == 0 {
        assert(ps.push(p)[0] == p);
    } else if ps.len() == 1 {
        assert(ps.push(p)[0] == ps[0]);
        assert(ps.push(p).drop_first() =~= ps.drop_first().push(p));
        assert(ps.drop_first().push(p) =~= seq![p]);
        assert(enc_pairs(seq![p]) == enc_pair(p));
        assert(enc_pairs(ps) == enc_pair(ps[0]));
    } else {
        assert(ps.push(p)[0] == ps[0]);
        assert(ps.push(p).drop_first() =~= ps.drop_first().push(p));
        lemma_enc_pairs_push(ps.drop_first(), p);
        assert(enc_pairs(ps.push(p)) =~= enc_pairs(ps) + seq![44u8] + enc_pair(p));
    }
}

/// Scan a canonical decimal number no larger than `max` at position `i`.
fn scan_num(s: &Vec<u8>, i: usize, max: u64) -> (r: Option<(u64, usize)>)
    requires
        i <= s.len(),
        max <= 0xffff_ffff,
    ensures
        match parse_num(s@, i as int) {
            Some(v) => if v.0 <= max {
                r matches Some(p) && p.0 == v.0 && p.1 == v.1 && i < p.1 <= s@.len()
            } else {
                r is None
            },
            None => r is None,
        },
{
    proof {
        lemma_parse_num_bounds(s@, i as int);
    }
    let mut j: usize = i;
    while j < s.len() && 48 <= s[j] && s[j] <= 57
        invariant
            i <= j <= s.len(),
            forall|t: int| i <= t < j ==> is_digit(#[trigger] s@[t]),
        decreases s.len() - j,
    {
        j = j + 1;
    }
    proof {
        lemma_digits_end_is(s@, i as int, j as int);
    }
    if j == i {
        return None;
    }
    if s[i] == 48 && j > i + 1 {
        return None;
    }
    let ghost sub = s@.subrange(i as int, j as int);
    proof {
        assert forall|t: int| 0 <= t < sub.len() implies is_digit(#[trigger] sub[t]) by {
            assert(sub[t] == s@[t + i]);
        }
        lemma_pow10_vals();
    }
    if j - i > 10 {
        proof {
            assert(sub[0] == s@[i as int]);
            lemma_digits_val_lower(sub);
            lemma_pow10_mono(10, (sub.len() - 1) as nat);
            assert(digits_val(sub) >= pow10(10));
        }
        return None;
    }
    let mut acc: u64 = 0;
    let mut k: usize = i;
    while k < j
        invariant
            i <= k <= j <= s.len(),
            j - i <= 10,
            forall|t: int| i <= t < j ==> is_digit(#[trigger] s@[t]),
            acc == digits_val(s@.subrange(i as int, k as int)),
            acc < pow10((k - i) as nat),
        decreases j - k,
    {
        proof {
            lemma_pow10_vals();
            lemma_pow10_mono((k - i) as nat, 9);
        }
        acc = acc * 10 + ((s[k] - 48) as u64);
        proof {
            assert(s@.subrange(i as int, k + 1) =~= s@.subrange(i as int, k as int).push(
                s@[k as int],
            ));
            assert(s@.subrange(i as int, k + 1).drop_last() =~= s@.subrange(i as int, k as int));
            assert(pow10((k + 1 - i) as nat) == 10 * pow10((k - i) as nat));
        }
        k = k + 1;
    }
    if acc <= max {
        Some((acc, j))
    } else {
        None
    }
}

/// Scan one `[lo,hi]` pair at position `i`.
fn scan_pair(s: &Vec<u8>, i: usize) -> (r: Option<((u32, u32), usize)>)
    requires
        i <= s.len(),
    ensures
        match parse_pair(s@, i as int) {
            Some(v) => r matches Some(p) && p.0.0 == v.0.0 && p.0.1 == v.0.1 && p.1 == v.1 && i
                < p.1 <= s@.len(),
            None => r is None,
        },
{
    proof {
        lemma_parse_pair_bounds(s@, i as int);
    }
    if i < s.len() && s[i] == 91 {
        match scan_num(s, i + 1, 0xffff_ffff) {
            Some((a, j)) => {
                if j < s.len() && s[j] == 44 {
                    match scan_num(s, j + 1, 0xffff_ffff) {
                        Some((b, k)) => {
                            if k < s.len() && s[k] == 93 {
                                Some(((a as u32, b as u32), k + 1))
                            } else {
                                None
                            }
                        },
                        None => None,
                    }
                } else {
                    None
                }
            },
            None => None,
        }
    } else {
        None
    }
}

/// A successful pair-list parse lands strictly forward, past a `]`.
proof fn lemma_parse_pairs_bounds(s: Seq<u8>, i: int)
    requires
        0 <= i,
    ensures
        parse_pairs(s, i) matches Some(r) ==> i < r.1 <= s.len(),
    decreases s.len() - i,
{
    if 0 <= i < s.len() && s[i] == 93u8 {
    } else {
        lemma_parse_pair_bounds(s, i);
        match parse_pair(s, i) {
            Some(pj) => {
                if pj.1 < s.len() && s[pj.1] == 44u8 && !(pj.1 + 1 < s.len() && s[pj.1 + 1]
                    == 93u8) {
                    lemma_parse_pairs_bounds(s, pj.1 + 1);
                }
            },
            None => {},
        }
    }
}

/// Scan the members of the missing array, from right after its `[` up to and
/// including its `]`.
fn scan_pairs(s: &Vec<u8>, i: usize) -> (r: Option<(Vec<(u32, u32)>, usize)>)
    requires
        i <= s.len(),
    ensures
        match parse_pairs(s@, i as int) {
            Some(v) => r matches Some(p) && missing_model(p.0@) == v.0 && p.1 == v.1 && i < p.1
                <= s@.len(),
            None => r is None,
        },
    decreases s@.len() - i,
{
    proof {
        lemma_parse_pairs_bounds(s@, i as int);
    }
    if i < s.len() && s[i] == 93 {
        let empty: Vec<(u32, u32)> = Vec::new();
        proof {
            assert(missing_model(empty@) =~= Seq::<(int, int)>::empty());
        }
        return Some((empty, i + 1));
    }
    match scan_pair(s, i) {
        None => None,
        Some((p, j)) => {
            if j < s.len() && s[j] == 93 {
                let mut v: Vec<(u32, u32)> = Vec::new();
                v.push(p);
                proof {
                    assert(missing_model(v@) =~= seq![(p.0 as int, p.1 as int)]);
                }
                Some((v, j + 1))
            } else if j < s.len() && s[j] == 44 && !(j + 1 < s.len() && s[j + 1] == 93) {
                match scan_pairs(s, j + 1) {
                    None => None,
                    Some((rest, k)) => {
                        let mut v = rest;
                        let ghost rv = v@;
                        v.insert(0, p);
                        proof {
                            assert(v@ =~= seq![p] + rv);
                            assert(missing_model(v@) =~= seq![(p.0 as int, p.1 as int)]
                                + missing_model(rv));
                        }
                        Some((v, k))
                    },
                }
            } else {
                None
            }
        },
    }
}

/// Encode a message as its canonical wire text.
pub fn encode_msg(msg: &ControlMessage) -> (out: Vec<u8>)
    ensures
        out@ == enc_msg(msg_model(*msg)),
{
    let mut out: Vec<u8> = Vec::new();
    match msg {
        ControlMessage::RequestFlow => {
            let mut l = lit_request_vec();
            out.append(&mut l);
            proof {
                assert(out@ =~= enc_msg(msg_model(*msg)));
            }
        },
        ControlMessage::ExpectFlow(p) => {
            let mut l = lit_expect_vec();
            out.append(&mut l);
            push_dec(*p as u64, &mut out);
            out.push(125);
            proof {
                assert(out@ =~= enc_msg(msg_model(*msg)));
            }
        },
        ControlMessage::TerminateFlow(p) => {
            let mut l = lit_terminate_vec();
            out.append(&mut l);
            push_dec(*p as u64, &mut out);
            out.push(125);
            proof {
                assert(out@ =~= enc_msg(msg_model(*msg)));
            }
        },
        ControlMessage::Report(r) => {
            let ghost pm = missing_model(r.missing@);
            let mut l = lit_report_vec();
            out.append(&mut l);
            push_dec(r.last_seq as u64, &mut out);
            let mut lm = lit_missing_vec();
            out.append(&mut lm);
            let ghost head = lit_report() + dec_rep(r.last_seq as int) + lit_missing();
            proof {
                assert(out@ =~= head + enc_pairs(pm.subrange(0, 0)));
            }
            let mut idx: usize = 0;
            while idx < r.missing.len()
                invariant
                    idx <= r.missing.len(),
                    pm == missing_model(r.missing@),
                    out@ == head + enc_pairs(pm.subrange(0, idx as int)),
                decreases r.missing.len() - idx,
            {
                let (lo, hi) = r.missing[idx];
                proof {
                    assert(pm[idx as int] == (lo as int, hi as int));
                }
                if idx > 0 {
                    out.push(44);
                }
                out.push(91);
                push_dec(lo as u64, &mut out);
                out.push(44);
                push_dec(hi as u64, &mut out);
                out.push(93);
                proof {
                    lemma_enc_pairs_push(pm.subrange(0, idx as int), (lo as int, hi as int));
                    assert(pm.subrange(0, idx + 1) =~= pm.subrange(0, idx as int).push(
                        (lo as int, hi as int),
                    ));
                    assert(enc_pair((lo as int, hi as int)) == seq![91u8] + dec_rep(lo as int)
                        + seq![44u8] + dec_rep(hi as int) + seq![93u8]);
                    assert(out@ =~= head + enc_pairs(pm.subrange(0, idx + 1)));
                }
                idx = idx + 1;
            }
            proof {
                assert(pm.subrange(0, r.missing@.len() as int) =~= pm);
            }
            let mut ld = lit_dups_vec();
            out.append(&mut ld);
            push_dec(r.dups as u64, &mut out);
            let mut lc = lit_cnt_vec();
            out.append(&mut lc);
            push_dec(r.cnt as u64, &mut out);
            out.push(125);
            out.push(125);
            proof {
                assert(out@ =~= enc_msg(msg_model(*msg)));
            }
        },
    }
    out
}

/// Decode a canonical wire text; anything else is refused.
pub fn decode_msg(s: &Vec<u8>) -> (r: Option<ControlMessage>)
    ensures
        match parse_msg(s@) {
            Some(m) => r matches Some(msg) && msg_model(msg) == m,
            None => r is None,
        },
{
    let req = lit_request_vec();
    if s.len() == req.len() && match_at(s, 0, &req) {
        proof {
            assert(s@ =~= lit_request());
        }
        return Some(ControlMessage::RequestFlow);
    }
    proof {
        if s@ == lit_request() {
            assert(s@.subrange(0, lit_request().len() as int) =~= lit_request());
        }
    }
    let exp = lit_expect_vec();
    if match_at(s, 0, &exp) {
        return match scan_num(s, exp.len(), 0xffff) {
            Some((v, j)) => {
                if j < s.len() && s[j] == 125 && j + 1 == s.len() {
                    Some(ControlMessage::ExpectFlow(v as u16))
                } else {
                    None
                }
            },
            None => None,
        };
    }
    let term = lit_terminate_vec();
    if match_at(s, 0, &term) {
        return match scan_num(s, term.len(), 0xffff) {
            Some((v, j)) => {
                if j < s.len() && s[j] == 125 && j + 1 == s.len() {
                    Some(ControlMessage::TerminateFlow(v as u16))
                } else {
                    None
                }
            },
            None => None,
        };
    }
    let rep = lit_report_vec();
    if match_at(s, 0, &rep) {
        let ls_j = scan_num(s, rep.len(), 0xffff_ffff);
        match ls_j {
            None => return None,
            Some((ls, j1)) => {
                let mis = lit_missing_vec();
                if !match_at(s, j1, &mis) {
                    return None;
                }
                match scan_pairs(s, j1 + mis.len()) {
                    None => return None,
                    Some((ps, j2)) => {
                        let dup = lit_dups_vec();
                        if !match_at(s, j2 - 1, &dup) {
                            return None;
                        }
                        match scan_num(s, j2 - 1 + dup.len(), 0xffff_ffff) {
                            None => return None,
                            Some((d, j3)) => {
                                let lcnt = lit_cnt_vec();
                                if !match_at(s, j3, &lcnt) {
                                    return None;
                                }
                                match scan_num(s, j3 + lcnt.len(), 0xffff_ffff) {
                                    None => return None,
                                    Some((c, j4)) => {
                                        if j4 < s.len() && s[j4] == 125 && j4 + 1 < s.len()
                                            && s[j4 + 1] == 125 && j4 + 2 == s.len() {
                                            let report = SequenceReport {
                                                last_seq: ls as u32,
                                                missing: ps,
                                                dups: d as u32,
                                                cnt: c as u32,
                                            };
                                            return Some(ControlMessage::Report(report));
                                        } else {
                                            return None;
                                        }
                                    },
                                }
                            },
                        }
                    },
                }
            },
        }
    }
    None
}

/// A message framed for the wire: its canonical text plus the zero
/// terminator.
pub fn frame_msg(msg: &ControlMessage) -> (out: Vec<u8>)
    ensures
        out@ == enc_msg(msg_model(*msg)).push(0u8),
{
    let mut out = encode_msg(msg);
    out.push(0);
    out
}

/// Why a frame could not be decoded.
#[derive(PartialEq, Eq, Structural, Clone, Copy, Debug)]
pub enum ControlError {
    /// The stream ended before a zero terminator: the peer closed it.
    PeerClosed,
    /// The frame's content is not a canonical message text.
    Malformed,
}

impl ControlError {
    /// A human-readable description of the error.
    pub fn message(&self) -> (r: String)
        ensures
            r@ == self.message_spec(),
    {
        match self {
            ControlError::PeerClosed => "Control connection closed by remote side".to_string(),
            ControlError::Malformed => "malformed control message".to_string(),
        }
    }

    /// The words of `message`.
    pub open spec fn message_spec(self) -> Seq<char> {
        match self {
            ControlError::PeerClosed => "Control connection closed by remote side"@,
            ControlError::Malformed => "malformed control message"@,
        }
    }
}

/// Decode everything a frame read has produced: the bytes up to and
/// including the zero terminator.  A read that ended without the terminator
/// means the peer closed the stream; a terminated frame that is not a
/// canonical message text is malformed.
pub fn decode_frame(data: &Vec<u8>) -> (r: Result<ControlMessage, ControlError>)
    ensures
        (data@.len() == 0 || data@.last() != 0) ==> r == Result::<
            ControlMessage,
            ControlError,
        >::Err(ControlError::PeerClosed),
        data@.len() > 0 && data@.last() == 0 ==> match parse_msg(data@.drop_last()) {
            Some(m) => r matches Ok(msg) && msg_model(msg) == m,
            None => r == Result::<ControlMessage, ControlError>::Err(ControlError::Malformed),
        },
{
    if data.len() == 0 || data[data.len() - 1] != 0 {
        return Err(ControlError::PeerClosed);
    }
    let mut body: Vec<u8> = Vec::new();
    let mut i: usize = 0;
    while i < data.len() - 1
        invariant
            data@.len() > 0,
            i <= data@.len() - 1,
            body@ == data@.subrange(0, i as int),
        decreases data.len() - i,
    {
        body.push(data[i]);
        proof {
            assert(body@ =~= data@.subrange(0, i + 1));
        }
        i = i + 1;
    }
    proof {
        assert(body@ =~= data@.drop_last());
    }
    match decode_msg(&body) {
        Some(msg) => Ok(msg),
        None => Err(ControlError::Malformed),
    }
}

/// A reliable byte channel carrying control messages.  The library frames
/// and decodes the bytes; implementations move them.
pub trait ControlStream {
    /// Send one message and flush it.
    fn send_msg(&mut self, msg: ControlMessage) -> Result<(), String>;

    /// Receive the next message.
    fn recv_msg(&mut self) -> Result<ControlMessage, String>;
}

/// Index of the first worker serving `p`, or `-1`.
pub open spec fn find_port(ports: Seq<u16>, p: u16) -> int
    decreases ports.len(),
{
    if ports.len() == 0 {
        -1
    } else if ports[0] == p {
        0
    } else {
        let r = find_port(ports.drop_first(), p);
        if r == -1 {
            -1
        } else {
            r + 1
        }
    }
}

/// What the server does with one control message, given the ports of its
/// live workers.
#[derive(PartialEq, Eq, Structural, Debug, Clone, Copy)]
pub enum DispatchAction {
    /// Spawn a new flow worker and announce its port.
    SpawnWorker,
    /// Terminate the worker at this index and forward its report.
    Terminate(usize),
    /// No worker serves the named port: refuse the request.
    NoSuchPort,
    /// A message the server does not take: close the connection.
    Unsupported,
}

/// The server's decision for one incoming control message: a flow request
/// spawns a worker; a termination names the first worker on that port, or
/// fails when none serves it; everything else is unsupported.
pub fn dispatch(msg: &ControlMessage, ports: &Vec<u16>) -> (a: DispatchAction)
    ensures
        match msg {
            ControlMessage::RequestFlow => a matches DispatchAction::SpawnWorker,
            ControlMessage::TerminateFlow(p) => {
                if find_port(ports@, *p) >= 0 {
                    a matches DispatchAction::Terminate(i) && i == find_port(ports@, *p)
                } else {
                    a matches DispatchAction::NoSuchPort
                }
            },
            _ => a matches DispatchAction::Unsupported,
        },
{
    match msg {
        ControlMessage::RequestFlow => DispatchAction::SpawnWorker,
        ControlMessage::TerminateFlow(p) => {
            let mut i: usize = 0;
            let n = ports.len();
            while i < n
                invariant
                    *msg == ControlMessage::TerminateFlow(*p),
                    n == ports@.len(),
                    i <= n,
                    forall|j: int| 0 <= j < i ==> ports@[j] != *p,
                    find_port(ports@, *p) >= 0 ==> find_port(ports@, *p) >= i,
                decreases n - i,
            {
                if ports[i] == *p {
                    proof {
                        lemma_find_port(ports@, *p, i as int);
                    }
                    return DispatchAction::Terminate(i);
                }
                proof {
                    lemma_find_port_skip(ports@, *p, i as int);
                }
                i = i + 1;
            }
            proof {
                lemma_find_port_none(ports@, *p);
            }
            DispatchAction::NoSuchPort
        },
        _ => DispatchAction::Unsupported,
    }
}

/// The first match pins `find_port`.
proof fn lemma_find_port(ports: Seq<u16>, p: u16, i: int)
    requires
        0 <= i < ports.len(),
        ports[i] == p,
        forall|j: int| 0 <= j < i ==> ports[j] != p,
    ensures
        find_port(ports, p) == i,
    decreases i,
{
    if i > 0 {
        assert forall|j: int| 0 <= j < i - 1 implies ports.drop_first()[j] != p by {
            assert(ports.drop_first()[j] == ports[j + 1]);
        }
        assert(ports.drop_first()[i - 1] == ports[i]);
        lemma_find_port(ports.drop_first(), p, i - 1);
    }
}

/// A miss at position `i` keeps `find_port` at or beyond `i + 1`.
proof fn lemma_find_port_skip(ports: Seq<u16>, p: u16, i: int)
    requires
        0 <= i < ports.len(),
        ports[i] != p,
        find_port(ports, p) >= 0 ==> find_port(ports, p) >= i,
    ensures
        find_port(ports, p) >= 0 ==> find_port(ports, p) >= i + 1,
{
    if find_port(ports, p) >= 0 {
        lemma_find_port_hit(ports, p);
    }
}

/// A non-negative `find_port` points at the port.
proof fn lemma_find_port_hit(ports: Seq<u16>, p: u16)
    requires
        find_port(ports, p) >= 0,
    ensures
        find_port(ports, p) < ports.len(),
        ports[find_port(ports, p)] == p,
    decreases ports.len(),
{
    if ports.len() > 0 && ports[0] != p {
        lemma_find_port_hit(ports.drop_first(), p);
        assert(ports.drop_first()[find_port(ports.drop_first(), p)] == ports[find_port(
            ports,
            p,
        )]);
    }
}

// ---------------------------------------------------------------------------
// The codec round trip
// ---------------------------------------------------------------------------

/// One encoded pair parses back to itself, whatever follows it.
proof fn lemma_parse_pair_round(pre: Seq<u8>, p: (int, int), suf: Seq<u8>)
    requires
        0 <= p.0 <= 0xffff_ffff,
        0 <= p.1 <= 0xffff_ffff,
    ensures
        parse_pair(pre + enc_pair(p) + suf, pre.len() as int) == Some::<((int, int), int)>(
            (p, pre.len() + enc_pair(p).len() as int),
        ),
{
    lemma_dec_rep(p.0);
    lemma_dec_rep(p.1);
    let s = pre + enc_pair(p) + suf;
    let i = pre.len() as int;
    assert(s[i] == 91u8);
    let pre1 = pre + seq![91u8];
    let suf1 = seq![44u8] + dec_rep(p.1) + seq![93u8] + suf;
    assert(s =~= pre1 + dec_rep(p.0) + suf1);
    lemma_parse_num_round(pre1, p.0, suf1);
    let j = i + 1 + dec_rep(p.0).len();
    assert(parse_num(s, i + 1) == Some::<(int, int)>((p.0, j)));
    assert(s[j] == 44u8);
    let pre2 = pre1 + dec_rep(p.0) + seq![44u8];
    let suf2 = seq![93u8] + suf;
    assert(s =~= pre2 + dec_rep(p.1) + suf2);
    lemma_parse_num_round(pre2, p.1, suf2);
    let k = j + 1 + dec_rep(p.1).len();
    assert(parse_num(s, j + 1) == Some::<(int, int)>((p.1, k)));
    assert(s[k] == 93u8);
    assert(enc_pair(p).len() == 1 + dec_rep(p.0).len() + 1 + dec_rep(p.1).len() + 1);
}

/// An encoded pair list, with its closing bracket, parses back to itself.
#[verifier::rlimit(100)]
proof fn lemma_parse_pairs_round(pre: Seq<u8>, ps: Seq<(int, int)>, suf: Seq<u8>)
    requires
        pairs_wf(ps),
    ensures
        parse_pairs(pre + enc_pairs(ps) + seq![93u8] + suf, pre.len() as int) == Some::<
            (Seq<(int, int)>, int),
        >((ps, pre.len() + enc_pairs(ps).len() + 1int)),
    decreases ps.len(),
{
    let s = pre + enc_pairs(ps) + seq![93u8] + suf;
    let i = pre.len() as int;
    if ps.len() == 0 {
        assert(enc_pairs(ps) == Seq::<u8>::empty());
        assert(s[i] == 93u8);
        assert(parse_pairs(s, i) == Some::<(Seq<(int, int)>, int)>((Seq::empty(), i + 1)));
        assert(ps =~= Seq::<(int, int)>::empty());
    } else {
        let p = ps[0];
        lemma_dec_rep(p.0);
        lemma_dec_rep(p.1);
        assert(enc_pair(p)[0] == 91u8);
        if ps.len() == 1 {
            assert(enc_pairs(ps) == enc_pair(p));
            assert(s =~= pre + enc_pair(p) + (seq![93u8] + suf));
            lemma_parse_pair_round(pre, p, seq![93u8] + suf);
            let j = i + enc_pair(p).len();
            assert(parse_pair(s, i) == Some::<((int, int), int)>((p, j)));
            assert(s[i] == 91u8);
            assert(s[j] == 93u8);
            assert(seq![p] =~= ps);
        } else {
            let rest = ps.drop_first();
            assert(enc_pairs(ps) == enc_pair(p) + seq![44u8] + enc_pairs(rest));
            let sufp = seq![44u8] + enc_pairs(rest) + seq![93u8] + suf;
            assert(s =~= pre + enc_pair(p) + sufp);
            lemma_parse_pair_round(pre, p, sufp);
            let j = i + enc_pair(p).len();
            assert(parse_pair(s, i) == Some::<((int, int), int)>((p, j)));
            assert(s[i] == 91u8);
            assert(s[j] == 44u8);
            assert(enc_pairs(rest).len() > 0 && enc_pairs(rest)[0] == enc_pair(rest[0])[0]) by {
                if rest.len() == 1 {
                } else {
                    assert(enc_pairs(rest) == enc_pair(rest[0]) + seq![44u8] + enc_pairs(
                        rest.drop_first(),
                    ));
                }
                lemma_dec_rep(rest[0].0);
            }
            assert(s[j + 1] == 91u8);
            assert forall|t: int| 0 <= t < rest.len() implies 0 <= (#[trigger] rest[t]).0
                <= 0xffff_ffff && 0 <= rest[t].1 <= 0xffff_ffff by {
                assert(rest[t] == ps[t + 1]);
            }
            let pre2 = pre + enc_pair(p) + seq![44u8];
            assert(s =~= pre2 + enc_pairs(rest) + seq![93u8] + suf);
            lemma_parse_pairs_round(pre2, rest, suf);
            assert(parse_pairs(s, j + 1) == Some::<(Seq<(int, int)>, int)>(
                (rest, pre2.len() + enc_pairs(rest).len() + 1int),
            ));
            assert(seq![p] + rest =~= ps);
        }
    }
}

/// The head byte of each encoding separates the message forms.
proof fn lemma_enc_msg_heads(m: MsgModel)
    requires
        model_wf(m),
    ensures
        enc_msg(m).len() > 2,
        m is RequestFlow <==> enc_msg(m)[0] == 34u8,
        m is ExpectFlow ==> enc_msg(m)[0] == 123u8 && enc_msg(m)[2] == 69u8,
        m is TerminateFlow ==> enc_msg(m)[0] == 123u8 && enc_msg(m)[2] == 84u8,
        m is Report ==> enc_msg(m)[0] == 123u8 && enc_msg(m)[2] == 82u8,
{
    match m {
        MsgModel::RequestFlow => {},
        MsgModel::ExpectFlow(p) => {
            lemma_dec_rep(p);
        },
        MsgModel::TerminateFlow(p) => {
            lemma_dec_rep(p);
        },
        MsgModel::Report(r) => {
            lemma_dec_rep(r.last_seq);
        },
    }
}

/// A port message parses back to itself.  Both tagged single-field forms
/// share this shape: a prefix literal, the digits, a closing brace.
proof fn lemma_parse_port_round(lit: Seq<u8>, p: int)
    requires
        0 <= p <= 0xffff,
        lit.len() > 0,
    ensures
        parse_num(lit + dec_rep(p) + seq![125u8], lit.len() as int) == Some::<(int, int)>(
            (p, lit.len() + dec_rep(p).len() as int),
        ),
        match_lit(lit + dec_rep(p) + seq![125u8], 0, lit),
        (lit + dec_rep(p) + seq![125u8]).len() == lit.len() + dec_rep(p).len() + 1,
        (lit + dec_rep(p) + seq![125u8]).last() == 125u8,
{
    lemma_dec_rep(p);
    let s = lit + dec_rep(p) + seq![125u8];
    lemma_parse_num_round(lit, p, seq![125u8]);
    assert(s.subrange(0, lit.len() as int) =~= lit);
}

/// Every message value fits the wire: its model is well formed, so the
/// round trip below applies to everything `encode_msg` is given.
pub proof fn lemma_msg_model_wf(msg: ControlMessage)
    ensures
        model_wf(msg_model(msg)),
{
    match msg {
        ControlMessage::Report(r) => {
            assert forall|i: int|
                0 <= i < missing_model(r.missing@).len() implies 0 <= (#[trigger] missing_model(
                r.missing@,
            )[i]).0 <= 0xffff_ffff && 0 <= missing_model(r.missing@)[i].1 <= 0xffff_ffff by {
                assert(missing_model(r.missing@)[i] == (
                    r.missing@[i].0 as int,
                    r.missing@[i].1 as int,
                ));
            }
        },
        _ => {},
    }
}

/// Parsing a canonical encoding returns exactly the encoded message: the
/// codec loses nothing on the wire.
pub proof fn lemma_codec_round_trip(m: MsgModel)
    requires
        model_wf(m),
    ensures
        parse_msg(enc_msg(m)) == Some(m),
{
    let s = enc_msg(m);
    lemma_enc_msg_heads(m);
    match m {
        MsgModel::RequestFlow => {},
        MsgModel::ExpectFlow(p) => {
            assert(s != lit_request());
            lemma_parse_port_round(lit_expect(), p);
            let j = lit_expect().len() + dec_rep(p).len() as int;
            assert(s[j] == 125u8);
        },
        MsgModel::TerminateFlow(p) => {
            assert(s != lit_request());
            assert(!match_lit(s, 0, lit_expect())) by {
                if match_lit(s, 0, lit_expect()) {
                    assert(s.subrange(0, lit_expect().len() as int)[2] == lit_expect()[2]);
                }
            }
            lemma_parse_port_round(lit_terminate(), p);
            let j = lit_terminate().len() + dec_rep(p).len() as int;
            assert(s[j] == 125u8);
        },
        MsgModel::Report(r) => {
            lemma_codec_round_trip_report(r);
        },
    }
}

/// The report arm of the round trip.
#[verifier::rlimit(100)]
proof fn lemma_codec_round_trip_report(r: ReportModel)
    requires
        model_wf(MsgModel::Report(r)),
    ensures
        parse_msg(enc_msg(MsgModel::Report(r))) == Some(MsgModel::Report(r)),
{
    let m = MsgModel::Report(r);
    let s = enc_msg(m);
    lemma_enc_msg_heads(m);
    lemma_dec_rep(r.last_seq);
    lemma_dec_rep(r.dups);
    lemma_dec_rep(r.cnt);
    assert(s != lit_request());
    assert(!match_lit(s, 0, lit_expect())) by {
        if match_lit(s, 0, lit_expect()) {
            assert(s.subrange(0, lit_expect().len() as int)[2] == lit_expect()[2]);
        }
    }
    assert(!match_lit(s, 0, lit_terminate())) by {
        if match_lit(s, 0, lit_terminate()) {
            assert(s.subrange(0, lit_terminate().len() as int)[2] == lit_terminate()[2]);
        }
    }
    assert(match_lit(s, 0, lit_report())) by {
        assert(s.subrange(0, lit_report().len() as int) =~= lit_report());
    }

    // the last_seq digits
    let suf1 = lit_missing() + enc_pairs(r.missing) + lit_dups() + dec_rep(r.dups) + lit_cnt()
        + dec_rep(r.cnt) + seq![125u8, 125u8];
    assert(s =~= lit_report() + dec_rep(r.last_seq) + suf1);
    lemma_parse_num_round(lit_report(), r.last_seq, suf1);
    let j1 = lit_report().len() + dec_rep(r.last_seq).len() as int;
    assert(parse_num(s, lit_report().len() as int) == Some::<(int, int)>((r.last_seq, j1)));

    // the missing literal
    assert(match_lit(s, j1, lit_missing())) by {
        assert(s.subrange(j1, j1 + lit_missing().len() as int) =~= lit_missing());
    }

    // the pair list, whose closing bracket is the head of the dups literal
    let pre2 = lit_report() + dec_rep(r.last_seq) + lit_missing();
    let suf2 = seq![44u8, 34u8, 100u8, 117u8, 112u8, 115u8, 34u8, 58u8] + dec_rep(r.dups)
        + lit_cnt() + dec_rep(r.cnt) + seq![125u8, 125u8];
    assert(s =~= pre2 + enc_pairs(r.missing) + seq![93u8] + suf2);
    lemma_parse_pairs_round(pre2, r.missing, suf2);
    let j2: int = pre2.len() + enc_pairs(r.missing).len() + 1int;
    assert(parse_pairs(s, j1 + lit_missing().len() as int) == Some::<(Seq<(int, int)>, int)>(
        (r.missing, j2),
    )) by {
        assert(j1 + lit_missing().len() == pre2.len());
    }

    // the dups literal and digits
    assert(match_lit(s, j2 - 1, lit_dups())) by {
        assert(s.subrange(j2 - 1, j2 - 1 + lit_dups().len() as int) =~= lit_dups());
    }
    let pre3 = pre2 + enc_pairs(r.missing) + seq![93u8] + seq![
        44u8,
        34u8,
        100u8,
        117u8,
        112u8,
        115u8,
        34u8,
        58u8,
    ];
    let suf3 = lit_cnt() + dec_rep(r.cnt) + seq![125u8, 125u8];
    assert(s =~= pre3 + dec_rep(r.dups) + suf3);
    lemma_parse_num_round(pre3, r.dups, suf3);
    let j3 = pre3.len() + dec_rep(r.dups).len() as int;
    assert(parse_num(s, j2 - 1 + lit_dups().len() as int) == Some::<(int, int)>((r.dups, j3))) by {
        assert(j2 - 1 + lit_dups().len() == pre3.len());
    }

    // the cnt literal and digits
    assert(match_lit(s, j3, lit_cnt())) by {
        assert(s.subrange(j3, j3 + lit_cnt().len() as int) =~= lit_cnt());
    }
    let pre4 = pre3 + dec_rep(r.dups) + lit_cnt();
    let suf4 = seq![125u8, 125u8];
    assert(s =~= pre4 + dec_rep(r.cnt) + suf4);
    lemma_parse_num_round(pre4, r.cnt, suf4);
    let j4 = pre4.len() + dec_rep(r.cnt).len() as int;
    assert(parse_num(s, j3 + lit_cnt().len() as int) == Some::<(int, int)>((r.cnt, j4))) by {
        assert(j3 + lit_cnt().len() == pre4.len());
    }

    // the closing braces end the text exactly
    assert(s[j4] == 125u8 && s[j4 + 1] == 125u8 && j4 + 2 == s.len());
}

/// With every position a miss, `find_port` finds nothing.
proof fn lemma_find_port_none(ports: Seq<u16>, p: u16)
    requires
        forall|j: int| 0 <= j < ports.len() ==> ports[j] != p,
    ensures
        find_port(ports, p) == -1,
    decreases ports.len(),
{
    if ports.len() > 0 {
        assert forall|j: int| 0 <= j < ports.drop_first().len() implies ports.drop_first()[j]
            != p by {
            assert(ports.drop_first()[j] == ports[j + 1]);
        }
        lemma_find_port_none(ports.drop_first(), p);
    }
}

} // verus!
