use z11n_core::mailbox::MailboxStore;
use z11n_core::relay::{
    deliver, encode, encode_all, take_frames, Frame, FrameBuffer, Link, RelayAction, RelayEvent,
    RelaySender, MAX_FRAME_LEN, REDIAL_BACKOFF_SECS,
};

fn frame(id: &str, p: &[u8]) -> Frame {
    Frame { agent_id: id.to_string(), payload: p.to_vec() }
}

#[test]
fn frames_round_trip_through_the_stream() {
    let fs = vec![frame("a1", b"k1"), frame("a2", b""), frame("a1", b"k3")];
    let bytes = encode_all(&fs);
    let (got, used) = take_frames(&bytes);
    assert_eq!(used, bytes.len());
    assert_eq!(got.len(), 3);
    assert_eq!(got[0].agent_id, "a1");
    assert_eq!(got[0].payload, b"k1".to_vec());
    assert_eq!(got[1].agent_id, "a2");
    assert!(got[1].payload.is_empty());
    assert_eq!(got[2].payload, b"k3".to_vec());
}

#[test]
fn encoded_frame_is_not_the_payload() {
    let b = encode("a1", b"k");
    assert_ne!(b, b"k".to_vec());
    assert_eq!(b, vec![2, b'a', b'1', 1, b'k']);
}

#[test]
fn split_frame_waits_for_the_rest() {
    let bytes = encode("agent-7", b"payload");
    let mut buf = FrameBuffer::new();
    assert!(buf.receive(&bytes[..4]).is_empty());
    assert_eq!(buf.pending.len(), 4);
    let got = buf.receive(&bytes[4..]);
    assert_eq!(got.len(), 1);
    assert_eq!(got[0].agent_id, "agent-7");
    assert!(buf.pending.is_empty());
}

#[test]
fn oversized_garbage_is_corrupted() {
    let mut buf = FrameBuffer::new();
    let garbage = vec![0xffu8; MAX_FRAME_LEN + 1];
    assert!(buf.receive(&garbage).is_empty());
    assert!(buf.is_corrupted());
    assert!(!FrameBuffer::new().is_corrupted());
}

#[test]
fn sender_redials_with_backoff() {
    let mut s = RelaySender::new();
    assert_eq!(s.link, Link::Dialing);
    assert!(matches!(s.step(RelayEvent::DialFailed), RelayAction::WaitThenDial(REDIAL_BACKOFF_SECS)));
    assert_eq!(REDIAL_BACKOFF_SECS, 3);
    assert_eq!(s.link, Link::Down);
    assert!(matches!(s.step(RelayEvent::BackoffElapsed), RelayAction::Dial));
    assert_eq!(s.link, Link::Dialing);
}

#[test]
fn write_failure_keeps_frames_for_the_next_connection() {
    let mut s = RelaySender::new();
    assert!(matches!(s.step(RelayEvent::DialSucceeded), RelayAction::Idle));
    let first = match s.step(RelayEvent::Produced(frame("a1", b"k"))) {
        RelayAction::Write(b) => b,
        other => panic!("expected a write, got {:?}", other),
    };
    assert!(matches!(s.step(RelayEvent::WriteFailed), RelayAction::WaitThenDial(_)));
    assert_eq!(s.outbox.len(), 1);
    s.step(RelayEvent::BackoffElapsed);
    let again = match s.step(RelayEvent::DialSucceeded) {
        RelayAction::Write(b) => b,
        other => panic!("expected a write, got {:?}", other),
    };
    assert_eq!(first, again);
    assert!(matches!(s.step(RelayEvent::WriteSucceeded), RelayAction::Idle));
    assert!(s.outbox.is_empty());
}

#[test]
fn command_produced_while_down_reaches_the_far_mailbox() {
    let mut far = MailboxStore::new(sled::Config::new().temporary(true).open().unwrap());
    let mut local = MailboxStore::new(sled::Config::new().temporary(true).open().unwrap());
    let mut s = RelaySender::new();
    s.step(RelayEvent::DialFailed);
    // The control plane keeps its own copy and hands the command to the relay.
    local.append("a2", b"K").unwrap();
    assert!(matches!(s.step(RelayEvent::Produced(frame("a2", b"K"))), RelayAction::Idle));
    assert!(far.drain("a2").unwrap().is_empty());
    assert!(matches!(s.step(RelayEvent::BackoffElapsed), RelayAction::Dial));
    let bytes = match s.step(RelayEvent::DialSucceeded) {
        RelayAction::Write(b) => b,
        other => panic!("expected a write, got {:?}", other),
    };
    let mut rx = FrameBuffer::new();
    let frames = rx.receive(&bytes);
    assert_eq!(deliver(&mut far, &frames), 0);
    s.step(RelayEvent::WriteSucceeded);
    assert_eq!(far.drain("a2").unwrap(), vec![b"K".to_vec()]);
    assert_eq!(local.drain("a2").unwrap(), vec![b"K".to_vec()]);
}

#[test]
fn whole_frames_come_out_before_a_partial_one() {
    let mut bytes = encode("a1", b"k1");
    bytes.extend(encode("a2", b"k2"));
    let third = encode("a3", b"k3");
    bytes.extend(&third[..2]);
    let mut buf = FrameBuffer::new();
    let got = buf.receive(&bytes);
    assert_eq!(got.len(), 2);
    assert_eq!(got[0].agent_id, "a1");
    assert_eq!(got[1].payload, b"k2".to_vec());
    assert_eq!(buf.pending, third[..2].to_vec());
    let got = buf.receive(&third[2..]);
    assert_eq!(got.len(), 1);
    assert_eq!(got[0].agent_id, "a3");
}

#[test]
fn command_too_large_for_a_frame_is_refused() {
    let mut s = RelaySender::new();
    s.step(RelayEvent::DialSucceeded);
    let big = vec![7u8; MAX_FRAME_LEN];
    assert!(matches!(s.step(RelayEvent::Produced(frame("a1", &big))), RelayAction::Refused));
    assert!(s.outbox.is_empty());
}

#[test]
fn deliver_appends_in_order() {
    let mut m = MailboxStore::new(sled::Config::new().temporary(true).open().unwrap());
    let fs = vec![frame("a1", b"1"), frame("a2", b"x"), frame("a1", b"2")];
    assert_eq!(deliver(&mut m, &fs), 0);
    assert_eq!(m.drain("a1").unwrap(), vec![b"1".to_vec(), b"2".to_vec()]);
    assert_eq!(m.drain("a2").unwrap(), vec![b"x".to_vec()]);
}

#[test]
fn bytes_without_a_frame_stay_pending() {
    let mut buf = FrameBuffer::new();
    assert!(buf.receive(&[0xff, 1, 2]).is_empty());
    assert_eq!(buf.pending, vec![0xff, 1, 2]);
    let (got, used) = take_frames(&[0xfe]);
    assert!(got.is_empty());
    assert_eq!(used, 0);
}

#[test]
fn written_agents_are_those_in_flight_once_each() {
    let mut s = RelaySender::new();
    s.step(RelayEvent::DialFailed);
    s.step(RelayEvent::Produced(frame("a1", b"1")));
    s.step(RelayEvent::Produced(frame("a2", b"2")));
    s.step(RelayEvent::Produced(frame("a1", b"3")));
    assert!(s.written_agents().is_empty());
    s.step(RelayEvent::BackoffElapsed);
    assert!(matches!(s.step(RelayEvent::DialSucceeded), RelayAction::Write(_)));
    let mut w = s.written_agents();
    w.sort();
    assert_eq!(w, vec!["a1".to_string(), "a2".to_string()]);
}
