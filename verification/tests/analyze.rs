use qosmap::sequence::{ReSequencer, Sequencer};

#[test]
fn analyze_seq_instance() {
    let _seq: Sequencer<u8> = Sequencer::new();
}

#[test]
fn analyze_seq_wrap() {
    let mut seq: Sequencer<u8> = Sequencer::new();
    let mut s: u8 = seq.next_seq();
    assert_eq!(s, u8::default());
    for _ in 0..=u8::MAX {
        s = seq.next_seq();
    }
    assert_eq!(s, u8::default());
}

#[test]
fn analyze_reseq_instance() {
    let _reseq: ReSequencer<usize> = ReSequencer::new();
}

#[test]
fn analyze_reseq_missing() {
    let mut reseq = ReSequencer::new();
    reseq.track(0u32);
    reseq.track(2u32);
    assert_eq!(reseq.missing[0], (1, 1));
}

#[test]
fn analyze_reseq_missing_wrapping() {
    let mut reseq = ReSequencer::new();
    reseq.track(u32::MAX);
    reseq.track(1u32);
    assert_eq!(reseq.missing[0], (0, 0));
}

#[test]
fn analyze_reseq_missing_wrapping_split() {
    let mut reseq = ReSequencer::new();
    reseq.track(u32::MAX - 1);
    reseq.track(1u32);
    assert_eq!(reseq.missing[0], (u32::MAX, u32::MAX));
    assert_eq!(reseq.missing[1], (0, 0));
}

#[test]
fn analyze_reseq_dup_cur() {
    let mut reseq = ReSequencer::new();
    reseq.track(0u32);
    reseq.track(0u32);
    assert_eq!(reseq.missing, []);
    assert_eq!(reseq.dups, 1);
}

#[test]
fn analyze_reseq_dup_old() {
    let mut reseq = ReSequencer::new();
    reseq.track(2u32);
    reseq.track(0u32);
    assert_eq!(reseq.missing, []);
    assert_eq!(reseq.dups, 1);
}

#[test]
fn analyze_reseq_dup_multiple() {
    let mut reseq = ReSequencer::new();
    reseq.track(8u32);
    reseq.track(0u32);
    reseq.track(1u32);
    reseq.track(3u32);
    reseq.track(8u32);
    assert_eq!(reseq.missing, []);
    assert_eq!(reseq.dups, 4);
}

#[test]
fn analyze_seq_reseq() {
    let mut s: u32;
    let mut seq: Sequencer<u32> = Sequencer::new();
    let mut reseq: ReSequencer<u32> = ReSequencer::new();

    s = seq.next_seq();
    reseq.track(s);
    assert_eq!(reseq.missing, []);
    assert_eq!(reseq.dups, 0);

    seq.next_seq();
    s = seq.next_seq();
    reseq.track(s);
    assert_eq!(reseq.missing, [(1, 1)]);
    assert_eq!(reseq.dups, 0);
    assert_eq!(s, 2);

    s = seq.next_seq();
    reseq.track(s);
    reseq.track(s);
    assert_eq!(reseq.missing, [(1, 1)]);
    assert_eq!(reseq.dups, 1);
    assert_eq!(s, 3);

    seq.next_seq();
    seq.next_seq();
    seq.next_seq();
    seq.next_seq();
    seq.next_seq();
    s = seq.next_seq();
    reseq.track(s);
    assert_eq!(reseq.missing, [(1, 1), (4, 8)]);
    assert_eq!(reseq.dups, 1);
    assert_eq!(s, 9);

    reseq.track(5u32);
    assert_eq!(reseq.missing, [(1, 1), (4, 4), (6, 8)]);

    reseq.track(4u32);
    assert_eq!(reseq.missing, [(1, 1), (6, 8)]);

    reseq.track(6u32);
    assert_eq!(reseq.missing, [(1, 1), (7, 8)]);

    reseq.track(8u32);
    assert_eq!(reseq.missing, [(1, 1), (7, 7)]);

    reseq.track(1u32);
    assert_eq!(reseq.missing, [(7, 7)]);

    reseq.track(7u32);
    assert_eq!(reseq.missing, []);
}

#[test]
fn mod_seq_instance() {
    let _seq: Sequencer<u8> = Sequencer::new();
}

#[test]
fn mod_seq_wrap() {
    let mut seq: Sequencer<u8> = Sequencer::new();
    let mut s: u8 = seq.next_seq();
    assert_eq!(s, u8::default());
    for _ in 0..=u8::MAX {
        s = seq.next_seq();
    }
    assert_eq!(s, u8::default());
}

#[test]
fn mod_reseq_instance() {
    let _reseq: ReSequencer<usize> = ReSequencer::new();
}

#[test]
fn mod_reseq_missing() {
    let mut reseq = ReSequencer::new();
    reseq.track(0u32);
    reseq.track(2u32);
    assert_eq!(reseq.missing[0], (1, 1));
}

#[test]
fn mod_reseq_missing_wrapping() {
    let mut reseq = ReSequencer::new();
    reseq.track(u32::MAX);
    reseq.track(1u32);
    assert_eq!(reseq.missing[0], (0, 0));
}

#[test]
fn mod_reseq_missing_wrapping_split() {
    let mut reseq = ReSequencer::new();
    reseq.track(u32::MAX - 1);
    reseq.track(1u32);
    assert_eq!(reseq.missing[0], (u32::MAX, u32::MAX));
    assert_eq!(reseq.missing[1], (0, 0));
}

#[test]
fn mod_reseq_dup_cur() {
    let mut reseq = ReSequencer::new();
    reseq.track(0u32);
    reseq.track(0u32);
    assert_eq!(reseq.missing, []);
    assert_eq!(reseq.dups, 1);
}

#[test]
fn mod_reseq_dup_old() {
    let mut reseq = ReSequencer::new();
    reseq.track(2u32);
    reseq.track(0u32);
    assert_eq!(reseq.missing, []);
    assert_eq!(reseq.dups, 1);
}

#[test]
fn mod_reseq_dup_multiple() {
    let mut reseq = ReSequencer::new();
    reseq.track(8u32);
    reseq.track(0u32);
    reseq.track(1u32);
    reseq.track(3u32);
    reseq.track(8u32);
    assert_eq!(reseq.missing, []);
    assert_eq!(reseq.dups, 4);
}

#[test]
fn mod_seq_reseq() {
    let mut s: u32;
    let mut seq: Sequencer<u32> = Sequencer::new();
    let mut reseq: ReSequencer<u32> = ReSequencer::new();

    s = seq.next_seq();
    reseq.track(s);
    assert_eq!(reseq.missing, []);
    assert_eq!(reseq.dups, 0);

    seq.next_seq();
    s = seq.next_seq();
    reseq.track(s);
    assert_eq!(reseq.missing, [(1, 1)]);
    assert_eq!(reseq.dups, 0);
    assert_eq!(s, 2);

    s = seq.next_seq();
    reseq.track(s);
    reseq.track(s);
    assert_eq!(reseq.missing, [(1, 1)]);
    assert_eq!(reseq.dups, 1);
    assert_eq!(s, 3);

    seq.next_seq();
    seq.next_seq();
    seq.next_seq();
    seq.next_seq();
    seq.next_seq();
    s = seq.next_seq();
    reseq.track(s);
    assert_eq!(reseq.missing, [(1, 1), (4, 8)]);
    assert_eq!(reseq.dups, 1);
    assert_eq!(s, 9);

    reseq.track(5u32);
    assert_eq!(reseq.missing, [(1, 1), (4, 4), (6, 8)]);

    reseq.track(4u32);
    assert_eq!(reseq.missing, [(1, 1), (6, 8)]);

    reseq.track(6u32);
    assert_eq!(reseq.missing, [(1, 1), (7, 8)]);

    reseq.track(8u32);
    assert_eq!(reseq.missing, [(1, 1), (7, 7)]);

    reseq.track(1u32);
    assert_eq!(reseq.missing, [(7, 7)]);

    reseq.track(7u32);
    assert_eq!(reseq.missing, []);
}

#[test]
fn reseq_fill_sequence() {
    let mut reseq: ReSequencer<u32> = ReSequencer::new();
    for s in [0u32, 2, 3, 3, 9] {
        reseq.track(s);
    }
    for s in [5u32, 4, 6, 8, 1, 7] {
        reseq.track(s);
    }
    assert_eq!(reseq.missing, []);
    assert_eq!(reseq.dups, 1);
}

#[test]
fn reseq_u16_wrapping() {
    let mut reseq: ReSequencer<u16> = ReSequencer::new();
    reseq.track(u16::MAX - 1);
    reseq.track(1u16);
    assert_eq!(reseq.missing, [(u16::MAX, u16::MAX), (0, 0)]);
    assert_eq!(reseq.dups, 0);
}

#[test]
fn reseq_contiguous_run() {
    let mut reseq: ReSequencer<u32> = ReSequencer::new();
    for s in 40u32..140 {
        reseq.track(s);
    }
    assert_eq!(reseq.missing, []);
    assert_eq!(reseq.dups, 0);
    assert_eq!(reseq.last_seq, Some(139));
    assert_eq!(reseq.cnt, 100);
}

#[test]
fn reseq_report() {
    let mut reseq: ReSequencer<u32> = ReSequencer::new();
    reseq.track(0u32);
    reseq.track(2u32);
    reseq.track(2u32);
    let report = reseq.to_report();
    assert_eq!(report.last_seq, 2);
    assert_eq!(report.missing, [(1, 1)]);
    assert_eq!(report.dups, 1);
    assert_eq!(report.cnt, 3);
}

#[test]
fn reseq_report_empty() {
    let reseq: ReSequencer<u32> = ReSequencer::new();
    let report = reseq.to_report();
    assert_eq!(report.last_seq, 0);
    assert_eq!(report.missing, []);
    assert_eq!(report.dups, 0);
    assert_eq!(report.cnt, 0);
}
