//! Datagram payloads and sequence stamping.
//!
//! The wire convention is a 4-byte big-endian sequence number at the start of
//! each datagram ([`stamp_seq`] / [`read_seq`]): it is branch-free to parse
//! and asks for nothing beyond four bytes of payload.  The JSON envelope
//! `{"seq":N}` padded with spaces ([`SequencedPayload::flatten_into`]) is
//! kept as an alternative payload encoding; the two are incompatible on the
//! wire, and the binary around this crate uses the 4-byte form.

use vstd::prelude::*;

use crate::control::{dec_rep, push_dec};

verus! {

/// A payload that carries nothing but its sequence number.
pub struct SequencedPayload {
    /// The sequence number stamped into the datagram.
    pub seq: u32,
}

/// The JSON envelope of a sequence number.
pub open spec fn envelope(n: int) -> Seq<u8> {
    seq![123u8, 34u8, 115u8, 101u8, 113u8, 34u8, 58u8] + dec_rep(n) + seq![125u8]
}

/// The envelope fitted to `n` bytes: padded with ASCII spaces, or truncated
/// where the buffer is shorter than the envelope.
pub open spec fn envelope_padded(n: int, len: int) -> Seq<u8> {
    if envelope(n).len() <= len {
        envelope(n) + Seq::new((len - envelope(n).len()) as nat, |i: int| 32u8)
    } else {
        envelope(n).subrange(0, len)
    }
}

impl SequencedPayload {
    /// Write the JSON envelope of the sequence number over the buffer,
    /// keeping the buffer's length: shorter buffers truncate the envelope,
    /// longer ones are padded with spaces.
    pub fn flatten_into(self, buf: &mut Vec<u8>)
        ensures
            final(buf)@ == envelope_padded(self.seq as int, old(buf)@.len() as int),
    {
        let n = buf.len();
        let mut env: Vec<u8> = Vec::new();
        env.push(123);
        env.push(34);
        env.push(115);
        env.push(101);
        env.push(113);
        env.push(34);
        env.push(58);
        proof {
            assert(env@ =~= seq![123u8, 34u8, 115u8, 101u8, 113u8, 34u8, 58u8]);
        }
        push_dec(self.seq as u64, &mut env);
        env.push(125);
        proof {
            assert(env@ =~= envelope(self.seq as int));
        }
        buf.clear();
        let mut i: usize = 0;
        while i < n
            invariant
                i <= n,
                env@ == envelope(self.seq as int),
                buf@ == envelope_padded(self.seq as int, n as int).subrange(0, i as int),
            decreases n - i,
        {
            if i < env.len() {
                buf.push(env[i]);
            } else {
                buf.push(32);
            }
            proof {
                assert(buf@ =~= envelope_padded(self.seq as int, n as int).subrange(0, i + 1));
            }
            i = i + 1;
        }
        proof {
            assert(envelope_padded(self.seq as int, n as int).subrange(
                0,
                envelope_padded(self.seq as int, n as int).len() as int,
            ) =~= envelope_padded(self.seq as int, n as int));
            assert(envelope_padded(self.seq as int, n as int).len() == n);
        }
    }
}

/// The big-endian value of four bytes.
pub open spec fn be_value(b0: u8, b1: u8, b2: u8, b3: u8) -> int {
    b0 * 0x100_0000 + b1 * 0x1_0000 + b2 * 0x100 + b3
}

/// Stamp the sequence number into the first four bytes of the buffer,
/// big-endian; the rest of the buffer is untouched.
pub fn stamp_seq(seq: u32, buf: &mut Vec<u8>)
    requires
        old(buf)@.len() >= 4,
    ensures
        final(buf)@.len() == old(buf)@.len(),
        be_value(final(buf)@[0], final(buf)@[1], final(buf)@[2], final(buf)@[3]) == seq,
        forall|i: int| 4 <= i < old(buf)@.len() ==> final(buf)@[i] == old(buf)@[i],
{
    let b0: u8 = (seq / 0x100_0000) as u8;
    let b1: u8 = ((seq / 0x1_0000) % 0x100) as u8;
    let b2: u8 = ((seq / 0x100) % 0x100) as u8;
    let b3: u8 = (seq % 0x100) as u8;
    buf.set(0, b0);
    buf.set(1, b1);
    buf.set(2, b2);
    buf.set(3, b3);
    proof {
        lemma_be_split(seq as int);
    }
}

/// The sequence number of a received datagram: its first four bytes,
/// big-endian.  Shorter datagrams carry none.
pub fn read_seq(buf: &Vec<u8>) -> (r: Option<u32>)
    ensures
        buf@.len() >= 4 ==> (r matches Some(v) && v == be_value(buf@[0], buf@[1], buf@[2], buf@[3])),
        buf@.len() < 4 ==> r is None,
{
    if buf.len() < 4 {
        return None;
    }
    let v: u32 = (buf[0] as u32) * 0x100_0000 + (buf[1] as u32) * 0x1_0000 + (buf[2] as u32)
        * 0x100 + (buf[3] as u32);
    Some(v)
}

/// Big-endian stamping is lossless: the four bytes written for a 32-bit
/// number reassemble to that number.
pub proof fn lemma_be_split(n: int)
    requires
        0 <= n < 0x1_0000_0000,
    ensures
        be_value(
            (n / 0x100_0000) as u8,
            ((n / 0x1_0000) % 0x100) as u8,
            ((n / 0x100) % 0x100) as u8,
            (n % 0x100) as u8,
        ) == n,
{
    let b0 = n / 0x100_0000;
    let b1 = (n / 0x1_0000) % 0x100;
    let b2 = (n / 0x100) % 0x100;
    let b3 = n % 0x100;
    assert(b0 * 0x100_0000 + b1 * 0x1_0000 + b2 * 0x100 + b3 == n) by (nonlinear_arith)
        requires
            0 <= n < 0x1_0000_0000,
            b0 == n / 0x100_0000,
            b1 == (n / 0x1_0000) % 0x100,
            b2 == (n / 0x100) % 0x100,
            b3 == n % 0x100,
    ;
}

} // verus!
