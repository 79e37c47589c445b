use qosmap::control::{
    decode_frame, decode_msg, dispatch, encode_msg, frame_msg, ControlError, ControlMessage,
    DispatchAction,
};
use qosmap::sequence::SequenceReport;

fn report_sample() -> SequenceReport {
    SequenceReport { last_seq: 1234, missing: vec![(100, 105)], dups: 2, cnt: 1230 }
}

#[test]
fn encode_request_flow() {
    let out = encode_msg(&ControlMessage::RequestFlow);
    assert_eq!(out, b"\"RequestFlow\"".to_vec());
}

#[test]
fn encode_expect_flow() {
    let out = encode_msg(&ControlMessage::ExpectFlow(49152));
    assert_eq!(out, b"{\"ExpectFlow\":49152}".to_vec());
}

#[test]
fn encode_terminate_flow() {
    let out = encode_msg(&ControlMessage::TerminateFlow(49152));
    assert_eq!(out, b"{\"TerminateFlow\":49152}".to_vec());
}

#[test]
fn encode_report() {
    let out = encode_msg(&ControlMessage::Report(report_sample()));
    assert_eq!(
        out,
        b"{\"Report\":{\"last_seq\":1234,\"missing\":[[100,105]],\"dups\":2,\"cnt\":1230}}".to_vec()
    );
}

#[test]
fn encode_report_empty_missing() {
    let report = SequenceReport { last_seq: 0, missing: vec![], dups: 0, cnt: 0 };
    let out = encode_msg(&ControlMessage::Report(report));
    assert_eq!(
        out,
        b"{\"Report\":{\"last_seq\":0,\"missing\":[],\"dups\":0,\"cnt\":0}}".to_vec()
    );
}

#[test]
fn encode_report_two_ranges() {
    let report = SequenceReport {
        last_seq: 4294967295,
        missing: vec![(4294967295, 4294967295), (0, 0)],
        dups: 0,
        cnt: 2,
    };
    let out = encode_msg(&ControlMessage::Report(report));
    assert_eq!(
        out,
        b"{\"Report\":{\"last_seq\":4294967295,\"missing\":[[4294967295,4294967295],[0,0]],\"dups\":0,\"cnt\":2}}"
            .to_vec()
    );
}

#[test]
fn decode_request_flow() {
    let msg = decode_msg(&b"\"RequestFlow\"".to_vec());
    assert!(matches!(msg, Some(ControlMessage::RequestFlow)));
}

#[test]
fn decode_expect_flow() {
    let msg = decode_msg(&b"{\"ExpectFlow\":4801}".to_vec());
    assert!(matches!(msg, Some(ControlMessage::ExpectFlow(4801))));
}

#[test]
fn decode_terminate_flow() {
    let msg = decode_msg(&b"{\"TerminateFlow\":65535}".to_vec());
    assert!(matches!(msg, Some(ControlMessage::TerminateFlow(65535))));
}

#[test]
fn decode_report_round_trip() {
    let bytes = encode_msg(&ControlMessage::Report(report_sample()));
    match decode_msg(&bytes) {
        Some(ControlMessage::Report(r)) => {
            assert_eq!(r.last_seq, 1234);
            assert_eq!(r.missing, [(100, 105)]);
            assert_eq!(r.dups, 2);
            assert_eq!(r.cnt, 1230);
        }
        _ => panic!("report did not decode"),
    }
}

#[test]
fn decode_rejects_port_out_of_range() {
    assert!(decode_msg(&b"{\"ExpectFlow\":65536}".to_vec()).is_none());
}

#[test]
fn decode_rejects_whitespace() {
    assert!(decode_msg(&b"{\"ExpectFlow\": 4801}".to_vec()).is_none());
}

#[test]
fn decode_rejects_leading_zero() {
    assert!(decode_msg(&b"{\"ExpectFlow\":007}".to_vec()).is_none());
}

#[test]
fn decode_rejects_trailing_bytes() {
    assert!(decode_msg(&b"{\"ExpectFlow\":4801}x".to_vec()).is_none());
}

#[test]
fn decode_rejects_unknown_tag() {
    assert!(decode_msg(&b"{\"Unknown\":1}".to_vec()).is_none());
}

#[test]
fn decode_zero_port() {
    let msg = decode_msg(&b"{\"TerminateFlow\":0}".to_vec());
    assert!(matches!(msg, Some(ControlMessage::TerminateFlow(0))));
}

#[test]
fn frame_appends_terminator() {
    let framed = frame_msg(&ControlMessage::RequestFlow);
    assert_eq!(framed, b"\"RequestFlow\"\x00".to_vec());
}

#[test]
fn frame_round_trip() {
    let framed = frame_msg(&ControlMessage::ExpectFlow(49152));
    match decode_frame(&framed) {
        Ok(ControlMessage::ExpectFlow(p)) => assert_eq!(p, 49152),
        _ => panic!("frame did not decode"),
    }
}

#[test]
fn frame_empty_is_peer_closed() {
    assert!(matches!(decode_frame(&vec![]), Err(ControlError::PeerClosed)));
}

#[test]
fn frame_unterminated_is_peer_closed() {
    assert!(matches!(decode_frame(&b"\"RequestFlow\"".to_vec()), Err(ControlError::PeerClosed)));
}

#[test]
fn frame_garbage_is_malformed() {
    assert!(matches!(decode_frame(&b"hello\x00".to_vec()), Err(ControlError::Malformed)));
}

#[test]
fn error_messages() {
    assert_eq!(
        ControlError::PeerClosed.message(),
        "Control connection closed by remote side".to_string()
    );
    assert_eq!(ControlError::Malformed.message(), "malformed control message".to_string());
}

#[test]
fn dispatch_request_spawns() {
    let ports: Vec<u16> = vec![4000, 5000];
    assert_eq!(dispatch(&ControlMessage::RequestFlow, &ports), DispatchAction::SpawnWorker);
}

#[test]
fn dispatch_terminate_finds_first() {
    let ports: Vec<u16> = vec![4000, 5000, 5000];
    assert_eq!(
        dispatch(&ControlMessage::TerminateFlow(5000), &ports),
        DispatchAction::Terminate(1)
    );
}

#[test]
fn dispatch_terminate_unknown_port() {
    let ports: Vec<u16> = vec![4000];
    assert_eq!(dispatch(&ControlMessage::TerminateFlow(9), &ports), DispatchAction::NoSuchPort);
}

#[test]
fn dispatch_rejects_unexpected() {
    let ports: Vec<u16> = vec![];
    assert_eq!(dispatch(&ControlMessage::ExpectFlow(1), &ports), DispatchAction::Unsupported);
    let report = SequenceReport { last_seq: 0, missing: vec![], dups: 0, cnt: 0 };
    assert_eq!(
        dispatch(&ControlMessage::Report(report), &ports),
        DispatchAction::Unsupported
    );
}

#[test]
fn decode_rejects_value_out_of_range() {
    let text = b"{\"Report\":{\"last_seq\":4294967296,\"missing\":[],\"dups\":0,\"cnt\":0}}";
    assert!(decode_msg(&text.to_vec()).is_none());
}

#[test]
fn decode_rejects_missing_terminator_brace() {
    assert!(decode_msg(&b"{\"ExpectFlow\":4801".to_vec()).is_none());
}
