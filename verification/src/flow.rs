//! Paced transmission of a datagram flow.
//!
//! A `Flow` emits one datagram every `gap` nanoseconds for a fixed duration,
//! scheduling against an absolute deadline (`sleep_until`) rather than the
//! current time, so that sleep overruns do not lower the average rate.  Two
//! buffer pools amortize payload construction: `recycled` buffers are filled
//! ahead of time into `prepared` while the engine waits for the next
//! deadline.  A deadline reached with nothing prepared is an underrun; a
//! non-zero underrun count at the end means the rate was not sustained.
//!
//! The engine is a state machine over a caller-supplied monotonic clock.
//! Each call to [`Flow::poll`] takes the nanoseconds elapsed since the flow
//! started and answers with the one action to perform — fill a buffer, sleep,
//! send, or stop — so the caller around it holds the socket and the clock and
//! no decision of its own.

use vstd::prelude::*;

verus! {

/// Where the pacing loop stands between two polls.
#[derive(PartialEq, Eq, Structural, Clone, Copy, Debug)]
pub enum FlowPhase {
    /// About to test whether the flow duration has elapsed.
    Check,
    /// Filling buffers until the next deadline passes (and at least one
    /// buffer is prepared).
    Prefill,
    /// Sending while deadlines remain due against the clock value read at
    /// the end of the prefill phase.
    Drain,
}

/// The one action the caller must perform after a poll.
pub enum FlowOp {
    /// Stamp a payload into this buffer and hand it back with
    /// [`Flow::queue_prepared`].
    Fill(Vec<u8>),
    /// Sleep until the given nanosecond deadline, then poll again.
    SleepUntil(u64),
    /// Send this datagram, then hand the buffer back with
    /// [`Flow::recycle`].
    Send(Vec<u8>),
    /// Poll again with a fresh clock reading.
    Continue,
    /// The duration has elapsed: the flow is over, with this many underruns
    /// at the final deadline.
    Finished(u32),
}

/// How many buffers circulate between the two pools.
pub const FLOW_POOL_SIZE: usize = 10;

/// The pacing engine of one flow.
pub struct Flow {
    /// Nanoseconds between two consecutive datagrams.
    pub gap_ns: u64,
    /// How long the flow transmits, in nanoseconds.
    pub duration_ns: u64,
    /// Absolute deadline of the next datagram, in nanoseconds from start.
    pub sleep_until_ns: u64,
    /// Clock reading taken when the drain phase was entered.
    pub drain_now_ns: u64,
    /// Consecutive deadlines missed for want of a prepared buffer.
    pub underruns: u32,
    /// Where the pacing loop stands.
    pub phase: FlowPhase,
    /// Length of every payload buffer, in bytes.
    pub payload_len: usize,
    /// Buffers waiting to be filled.
    pub recycled: Vec<Vec<u8>>,
    /// Buffers filled and ready to send, oldest last.
    pub prepared: Vec<Vec<u8>>,
}

/// A zero-filled buffer of the given length.
fn zero_buffer(len: usize) -> (r: Vec<u8>)
    ensures
        r@ =~= Seq::new(len as nat, |i: int| 0u8),
{
    let mut r: Vec<u8> = Vec::new();
    let mut i: usize = 0;
    while i < len
        invariant
            i <= len,
            r@ =~= Seq::new(i as nat, |j: int| 0u8),
        decreases len - i,
    {
        r.push(0);
        i = i + 1;
    }
    r
}

impl Flow {
    /// The contents of the recycled pool.
    pub open spec fn rec_bufs(self) -> Seq<Seq<u8>> {
        self.recycled@.map_values(|b: Vec<u8>| b@)
    }

    /// The contents of the prepared pool.
    pub open spec fn prep_bufs(self) -> Seq<Seq<u8>> {
        self.prepared@.map_values(|b: Vec<u8>| b@)
    }

    /// Everything but the two pools and the given fields is unchanged.
    pub open spec fn same_timing(self, o: Flow) -> bool {
        &&& self.gap_ns == o.gap_ns
        &&& self.duration_ns == o.duration_ns
        &&& self.payload_len == o.payload_len
    }

    /// A new flow: one datagram every `1_000_000_000 / pps` nanoseconds for
    /// `duration_ns`, with a pool of zero-filled buffers of `payload_len`
    /// bytes, the first deadline one gap after the start.
    pub fn new(pps: u32, payload_len: usize, duration_ns: u64) -> (r: Flow)
        requires
            pps >= 1,
        ensures
            r.gap_ns == 1_000_000_000u64 / pps as u64,
            r.duration_ns == duration_ns,
            r.sleep_until_ns == r.gap_ns,
            r.underruns == 0,
            r.phase == FlowPhase::Check,
            r.payload_len == payload_len,
            r.rec_bufs() =~~= Seq::new(
                FLOW_POOL_SIZE as nat,
                |i: int| Seq::new(payload_len as nat, |j: int| 0u8),
            ),
            r.prep_bufs() =~= Seq::<Seq<u8>>::empty(),
    {
        let gap: u64 = 1_000_000_000u64 / (pps as u64);
        let mut recycled: Vec<Vec<u8>> = Vec::new();
        let mut i: usize = 0;
        while i < FLOW_POOL_SIZE
            invariant
                i <= FLOW_POOL_SIZE,
                recycled@.len() == i,
                forall|k: int|
                    0 <= k < i ==> (#[trigger] recycled@[k])@ == Seq::new(
                        payload_len as nat,
                        |j: int| 0u8,
                    ),
            decreases FLOW_POOL_SIZE - i,
        {
            // each appended buffer is all zeroes
            let zb = zero_buffer(payload_len);
            proof {
                assert(zb@ =~= Seq::new(payload_len as nat, |j: int| 0u8));
            }
            recycled.push(zb);
            i = i + 1;
        }
        proof {
            assert(recycled@.map_values(|b: Vec<u8>| b@) =~~= Seq::new(
                FLOW_POOL_SIZE as nat,
                |k: int| Seq::new(payload_len as nat, |j: int| 0u8),
            ));
        }
        Flow {
            gap_ns: gap,
            duration_ns,
            sleep_until_ns: gap,
            drain_now_ns: 0,
            underruns: 0,
            phase: FlowPhase::Check,
            payload_len,
            recycled,
            prepared: Vec::new(),
        }
    }

    /// One decision of the pacing loop, against the nanoseconds elapsed
    /// since the flow started.
    ///
    /// The caller performs the returned action and polls again (a monotonic
    /// clock keeps the two `requires` trivially true: deadlines stay near
    /// the flow duration, and the underrun counter is reset by every send).
    pub fn poll(&mut self, now_ns: u64) -> (op: FlowOp)
        requires
            old(self).underruns < u32::MAX,
            old(self).sleep_until_ns <= u64::MAX - old(self).gap_ns,
        ensures
            final(self).same_timing(*old(self)),
            match old(self).phase {
                FlowPhase::Check => {
                    &&& final(self).sleep_until_ns == old(self).sleep_until_ns
                    &&& final(self).drain_now_ns == old(self).drain_now_ns
                    &&& final(self).underruns == old(self).underruns
                    &&& final(self).rec_bufs() == old(self).rec_bufs()
                    &&& final(self).prep_bufs() == old(self).prep_bufs()
                    &&& if now_ns >= old(self).duration_ns {
                        &&& final(self).phase == FlowPhase::Check
                        &&& op matches FlowOp::Finished(u) && u == old(self).underruns
                    } else {
                        &&& final(self).phase == FlowPhase::Prefill
                        &&& op matches FlowOp::Continue
                    }
                },
                FlowPhase::Prefill => {
                    &&& final(self).sleep_until_ns == old(self).sleep_until_ns
                    &&& final(self).underruns == old(self).underruns
                    &&& final(self).prep_bufs() == old(self).prep_bufs()
                    &&& if now_ns < old(self).sleep_until_ns || old(self).prep_bufs().len() == 0 {
                        if old(self).rec_bufs().len() > 0 {
                            &&& final(self).phase == FlowPhase::Prefill
                            &&& final(self).drain_now_ns == old(self).drain_now_ns
                            &&& final(self).rec_bufs() == old(self).rec_bufs().drop_last()
                            &&& op matches FlowOp::Fill(b) && b@ == old(self).rec_bufs().last()
                        } else {
                            &&& final(self).phase == FlowPhase::Prefill
                            &&& final(self).drain_now_ns == old(self).drain_now_ns
                            &&& final(self).rec_bufs() == old(self).rec_bufs()
                            &&& op matches FlowOp::SleepUntil(t) && t == old(self).sleep_until_ns
                        }
                    } else {
                        &&& final(self).phase == FlowPhase::Drain
                        &&& final(self).drain_now_ns == now_ns
                        &&& final(self).rec_bufs() == old(self).rec_bufs()
                        &&& op matches FlowOp::Continue
                    }
                },
                FlowPhase::Drain => {
                    &&& final(self).drain_now_ns == old(self).drain_now_ns
                    &&& final(self).rec_bufs() == old(self).rec_bufs()
                    &&& if old(self).sleep_until_ns < old(self).drain_now_ns {
                        if old(self).prep_bufs().len() == 0 {
                            &&& final(self).phase == FlowPhase::Check
                            &&& final(self).sleep_until_ns == old(self).sleep_until_ns
                            &&& final(self).underruns == old(self).underruns + 1
                            &&& final(self).prep_bufs() == old(self).prep_bufs()
                            &&& op matches FlowOp::Continue
                        } else {
                            &&& final(self).phase == FlowPhase::Drain
                            &&& final(self).sleep_until_ns == old(self).sleep_until_ns + old(
                                self,
                            ).gap_ns
                            &&& final(self).underruns == 0
                            &&& final(self).prep_bufs() == old(self).prep_bufs().drop_last()
                            &&& op matches FlowOp::Send(b) && b@ == old(self).prep_bufs().last()
                        }
                    } else {
                        &&& final(self).phase == FlowPhase::Check
                        &&& final(self).sleep_until_ns == old(self).sleep_until_ns
                        &&& final(self).underruns == old(self).underruns
                        &&& final(self).prep_bufs() == old(self).prep_bufs()
                        &&& op matches FlowOp::Continue
                    }
                },
            },
    {
        match self.phase {
            FlowPhase::Check => {
                if now_ns >= self.duration_ns {
                    FlowOp::Finished(self.underruns)
                } else {
                    self.phase = FlowPhase::Prefill;
                    FlowOp::Continue
                }
            },
            FlowPhase::Prefill => {
                if now_ns < self.sleep_until_ns || self.prepared.len() == 0 {
                    if self.recycled.len() > 0 {
                        let b = self.recycled.pop().unwrap();
                        proof {
                            assert(self.rec_bufs() =~= old(self).rec_bufs().drop_last());
                        }
                        FlowOp::Fill(b)
                    } else {
                        FlowOp::SleepUntil(self.sleep_until_ns)
                    }
                } else {
                    self.phase = FlowPhase::Drain;
                    self.drain_now_ns = now_ns;
                    FlowOp::Continue
                }
            },
            FlowPhase::Drain => {
                if self.sleep_until_ns < self.drain_now_ns {
                    if self.prepared.len() == 0 {
                        self.underruns = self.underruns + 1;
                        self.phase = FlowPhase::Check;
                        FlowOp::Continue
                    } else {
                        let b = self.prepared.pop().unwrap();
                        self.underruns = 0;
                        self.sleep_until_ns = self.sleep_until_ns + self.gap_ns;
                        proof {
                            assert(self.prep_bufs() =~= old(self).prep_bufs().drop_last());
                        }
                        FlowOp::Send(b)
                    }
                } else {
                    self.phase = FlowPhase::Check;
                    FlowOp::Continue
                }
            },
        }
    }

    /// Queue a freshly filled buffer, oldest sent first.
    pub fn queue_prepared(&mut self, buf: Vec<u8>)
        ensures
            final(self).same_timing(*old(self)),
            final(self).phase == old(self).phase,
            final(self).sleep_until_ns == old(self).sleep_until_ns,
            final(self).drain_now_ns == old(self).drain_now_ns,
            final(self).underruns == old(self).underruns,
            final(self).rec_bufs() == old(self).rec_bufs(),
            final(self).prep_bufs() =~= seq![buf@] + old(self).prep_bufs(),
    {
        self.prepared.insert(0, buf);
    }

    /// Hand a sent buffer back for refilling.
    pub fn recycle(&mut self, buf: Vec<u8>)
        ensures
            final(self).same_timing(*old(self)),
            final(self).phase == old(self).phase,
            final(self).sleep_until_ns == old(self).sleep_until_ns,
            final(self).drain_now_ns == old(self).drain_now_ns,
            final(self).underruns == old(self).underruns,
            final(self).prep_bufs() == old(self).prep_bufs(),
            final(self).rec_bufs() =~= seq![buf@] + old(self).rec_bufs(),
    {
        self.recycled.insert(0, buf);
    }
}

} // verus!
