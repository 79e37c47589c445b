use qosmap::flow::{Flow, FlowOp, FlowPhase, FLOW_POOL_SIZE};
use qosmap::payload::{read_seq, stamp_seq, SequencedPayload};
use qosmap::search::{line_overhead, missing_sum, RateSearch, SearchStep};
use qosmap::sequence::{ReSequencer, SequenceReport, Sequencer};

#[test]
fn flow_new_state() {
    let flow = Flow::new(1000, 100, 3_000_000_000);
    assert_eq!(flow.gap_ns, 1_000_000);
    assert_eq!(flow.duration_ns, 3_000_000_000);
    assert_eq!(flow.sleep_until_ns, 1_000_000);
    assert_eq!(flow.underruns, 0);
    assert_eq!(flow.phase, FlowPhase::Check);
    assert_eq!(flow.recycled.len(), FLOW_POOL_SIZE);
    assert_eq!(flow.recycled[0], vec![0u8; 100]);
    assert_eq!(flow.prepared.len(), 0);
}

#[test]
fn flow_finishes_when_duration_elapsed() {
    let mut flow = Flow::new(125, 100, 1_000_000);
    match flow.poll(1_000_000) {
        FlowOp::Finished(underruns) => assert_eq!(underruns, 0),
        _ => panic!("flow did not finish"),
    }
}

/// Drive a flow against an ideal simulated clock: 1000 packets per second
/// for one second, each stamped with the next sequence number, each "sent"
/// datagram fed back into an analyzer.  The rate is sustained (no underruns)
/// and the receiver sees every number exactly once.
#[test]
fn flow_sequenced_end_to_end() {
    let pps: u32 = 1000;
    let mut flow = Flow::new(pps, 100, 1_000_000_000);
    let mut seq: Sequencer<u32> = Sequencer::new();
    let mut reseq: ReSequencer<u32> = ReSequencer::new();
    let mut now: u64 = 0;
    let mut sent: u64 = 0;
    let underruns;
    loop {
        match flow.poll(now) {
            FlowOp::Fill(mut buf) => {
                stamp_seq(seq.next_seq(), &mut buf);
                flow.queue_prepared(buf);
            }
            FlowOp::SleepUntil(t) => {
                now = t + 1;
            }
            FlowOp::Send(buf) => {
                sent += 1;
                reseq.track(read_seq(&buf).expect("short datagram"));
                flow.recycle(buf);
            }
            FlowOp::Continue => {}
            FlowOp::Finished(u) => {
                underruns = u;
                break;
            }
        }
    }
    assert_eq!(underruns, 0);
    assert_eq!(sent, 1000);
    assert_eq!(reseq.dups, 0);
    assert_eq!(reseq.missing, []);
    assert_eq!(reseq.last_seq.unwrap_or(0).wrapping_add(1), pps);
    assert_eq!(reseq.cnt, 1000);
}

#[test]
fn stamp_and_read_round_trip() {
    let mut buf = vec![0u8; 16];
    stamp_seq(0xDEAD_BEEF, &mut buf);
    assert_eq!(&buf[..4], &[0xDE, 0xAD, 0xBE, 0xEF]);
    assert_eq!(buf[4], 0);
    assert_eq!(read_seq(&buf), Some(0xDEAD_BEEF));
}

#[test]
fn read_seq_short_datagram() {
    assert_eq!(read_seq(&vec![1u8, 2, 3]), None);
}

#[test]
fn payload_envelope_padded() {
    let payload = SequencedPayload { seq: 5 };
    let mut buf = vec![0u8; 12];
    payload.flatten_into(&mut buf);
    assert_eq!(buf, b"{\"seq\":5}   ".to_vec());
}

#[test]
fn payload_envelope_truncated() {
    let payload = SequencedPayload { seq: 123456 };
    let mut buf = vec![0u8; 4];
    payload.flatten_into(&mut buf);
    assert_eq!(buf, b"{\"se".to_vec());
}

#[test]
fn search_start_state() {
    let search = RateSearch::new();
    assert_eq!(search.pps, 1000);
    assert_eq!(search.highest, 0);
    assert_eq!(search.stagnant, 0);
    assert_eq!(search.secs, 3);
}

#[test]
fn search_doubles_on_improvement() {
    let mut search = RateSearch::new();
    let report = SequenceReport { last_seq: 2999, missing: vec![], dups: 0, cnt: 3000 };
    match search.on_report(&report) {
        SearchStep::Continue(next) => assert_eq!(next, 2000),
        _ => panic!("search ended early"),
    }
    assert_eq!(search.highest, 1000);
    assert_eq!(search.stagnant, 0);
}

#[test]
fn search_ends_after_three_stagnant_rounds() {
    let mut search = RateSearch::new();
    // A perfect first round sets the bar at 1000 pps.
    let good = SequenceReport { last_seq: 2999, missing: vec![], dups: 0, cnt: 3000 };
    assert!(matches!(search.on_report(&good), SearchStep::Continue(2000)));
    // Three lossy rounds that never beat it: passed = 1000, lost = 334.
    let lossy = SequenceReport { last_seq: 3999, missing: vec![(3000, 3999)], dups: 0, cnt: 3000 };
    match search.on_report(&lossy) {
        // next = passed + ceil((lost + 1) / 2) = 1000 + ceil(335 / 2) = 1168
        SearchStep::Continue(next) => assert_eq!(next, 1168),
        _ => panic!("search ended early"),
    }
    assert!(matches!(search.on_report(&lossy), SearchStep::Continue(1168)));
    match search.on_report(&lossy) {
        SearchStep::Done(highest) => assert_eq!(highest, 1000),
        _ => panic!("search did not end"),
    }
}

#[test]
fn search_missing_sum() {
    let report = SequenceReport {
        last_seq: 0,
        missing: vec![(100, 105), (200, 200)],
        dups: 0,
        cnt: 10,
    };
    assert_eq!(missing_sum(&report), 7);
}

#[test]
fn overhead_equal_totals() {
    // 1500 pps at 800 bytes and 1000 pps at 1200 bytes carry the same net
    // rate: no framing overhead, gross rate the common total.
    let (overhead, gross) = line_overhead(1500, 800, 1000, 1200);
    assert_eq!(overhead, 0);
    assert_eq!(gross, 1_200_000);
}

#[test]
fn overhead_two_point_model() {
    // 1000 pps at 800 bytes, 900 pps at 1200 bytes:
    // overhead = (1080000 - 800000) / (1000 - 900) = 2800.
    let (overhead, gross) = line_overhead(1000, 800, 900, 1200);
    assert_eq!(overhead, 2800);
    assert_eq!(gross, 3_600_000);
}

/// A clock that jumps far past the deadline backlog: the drain burst empties
/// all ten prepared buffers, the next due deadline finds none, and the flow
/// ends with that underrun on record.
#[test]
fn flow_underrun_on_starved_burst() {
    let mut flow = Flow::new(1000, 100, 10_000_000);
    let mut now: u64 = 0;
    let mut sent: u32 = 0;
    let underruns;
    loop {
        match flow.poll(now) {
            FlowOp::Fill(buf) => {
                flow.queue_prepared(buf);
            }
            FlowOp::SleepUntil(_) => {
                // the host stalls well past the whole flow duration
                now = 50_000_000;
            }
            FlowOp::Send(buf) => {
                sent += 1;
                flow.recycle(buf);
            }
            FlowOp::Continue => {}
            FlowOp::Finished(u) => {
                underruns = u;
                break;
            }
        }
    }
    assert_eq!(sent, FLOW_POOL_SIZE as u32);
    assert_eq!(underruns, 1);
}
