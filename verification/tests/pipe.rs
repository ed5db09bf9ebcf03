use wiz_packets::clock::CaptureTime;
use wiz_packets::pipe::{
    capture_frame, connect_step, parse_frame, parse_frame_at, pipe_name, write_capture, ConnectStep, PipeReader,
    PipeStep, ServerAction, ServerState, DIR_CLIENT_TO_SERVER, DIR_PLAINTEXT_RECV, DIR_PLAINTEXT_SEND,
    DIR_SERVER_TO_CLIENT,
};

fn bodies(stream: &[u8], most: usize) -> (Vec<Vec<u8>>, bool) {
    let mut reader = PipeReader::new();
    let mut found = Vec::new();
    let mut at = 0;
    while at < stream.len() {
        let n = reader.wanted().min(most).min(stream.len() - at);
        match reader.received(&stream[at..at + n]) {
            PipeStep::More => {}
            PipeStep::Stop => return (found, true),
            PipeStep::Body(body) => found.push(body),
        }
        at += n;
    }
    (found, false)
}

#[test]
fn a_capture_is_framed() {
    assert_eq!(
        capture_frame(0x11, 0x1234, 0x5678, &[0xAA, 0xBB]),
        vec![11, 0, 0, 0, 0x11, 0x34, 0x12, 0x78, 0x56, 2, 0, 0, 0, 0xAA, 0xBB]
    );
    assert_eq!(write_capture(false, 0, 1, 2, &[3]), None);
    assert_eq!(write_capture(true, 0, 1, 2, &[3]), Some(capture_frame(0, 1, 2, &[3])));
}

#[test]
fn captures_are_read_back_however_they_are_cut() {
    let captures = [
        (DIR_CLIENT_TO_SERVER, 1u16, 2u16, vec![1u8, 2, 3]),
        (DIR_SERVER_TO_CLIENT, 3, 4, vec![]),
        (DIR_PLAINTEXT_SEND, 5, 6, vec![9; 100]),
        (DIR_PLAINTEXT_RECV, 65_535, 0, vec![0]),
    ];
    let mut stream = Vec::new();
    for (d, s, t, p) in &captures {
        stream.extend(capture_frame(*d, *s, *t, p));
    }
    for most in [1, 2, 3, 7, 1_000] {
        let (found, stopped) = bodies(&stream, most);
        assert!(!stopped);
        assert_eq!(found.len(), captures.len());
        for (body, (d, s, t, p)) in found.iter().zip(&captures) {
            let packet = parse_frame(body).unwrap();
            assert_eq!((packet.src_port, packet.dst_port), (*s, *t));
            assert_eq!(&packet.payload, p);
            assert_eq!(packet.is_from_server, *d == DIR_SERVER_TO_CLIENT || *d == DIR_PLAINTEXT_RECV);
            let label = if *d >= 0x10 { "plaintext" } else { "hook" };
            assert_eq!(packet.src_ip, label);
            assert_eq!(packet.dst_ip, label);
        }
    }
}

#[test]
fn lengths_that_are_not_accepted_end_the_reading() {
    assert_eq!(bodies(&[8, 0, 0, 0], 4), (vec![], true));
    assert_eq!(bodies(&10_000_001u32.to_le_bytes(), 4), (vec![], true));
    assert_eq!(bodies(&10_000_000u32.to_le_bytes(), 4), (vec![], false));
    let mut reader = PipeReader::new();
    assert_eq!(reader.wanted(), 4);
    assert!(matches!(reader.received(&[9]), PipeStep::More));
    assert_eq!(reader.wanted(), 3);
    assert!(matches!(reader.received(&[0, 0, 0]), PipeStep::More));
    assert_eq!(reader.wanted(), 9);
}

#[test]
fn a_body_is_parsed_at_a_time() {
    let time = CaptureTime::new(60, 0).unwrap();
    let packet = parse_frame_at(&[0x01, 7, 0, 8, 0, 2, 0, 0, 0, 0xAA, 0xBB, 0xCC], time).unwrap();
    assert_eq!(packet.payload, vec![0xAA, 0xBB]);
    assert_eq!(packet.timestamp.text(), "00:01:00.000");
    assert!(packet.is_from_server);
    assert_eq!(packet.src_ip, "hook");
    assert_eq!((packet.src_port, packet.dst_port), (7, 8));
    assert_eq!(parse_frame_at(&[0x20, 0, 0, 0, 0, 0, 0, 0, 0], time).unwrap().src_ip, "plaintext");
}

#[test]
fn a_body_that_is_cut_off_is_not_parsed() {
    assert!(parse_frame(&[0; 8]).is_none());
    assert!(parse_frame(&[0, 0, 0, 0, 0, 1, 0, 0, 0]).is_none());
    assert!(parse_frame(&[0, 0, 0, 0, 0, 0xFF, 0xFF, 0xFF, 0xFF]).is_none());
    assert!(parse_frame(&[0; 9]).is_some());
}

#[test]
fn the_pipe_has_its_name() {
    let expected: Vec<u16> = "\\\\.\\pipe\\wiz_hook\0".encode_utf16().collect();
    assert_eq!(pipe_name(), expected);
}

#[test]
fn connecting_is_tried_ten_times() {
    assert_eq!(connect_step(0, true), ConnectStep::Connected);
    assert_eq!(connect_step(9, true), ConnectStep::Connected);
    assert_eq!(connect_step(0, false), ConnectStep::TryAgain);
    assert_eq!(connect_step(8, false), ConnectStep::TryAgain);
    assert_eq!(connect_step(9, false), ConnectStep::GiveUp);
    assert_eq!(connect_step(u32::MAX, false), ConnectStep::GiveUp);
}

#[test]
fn the_server_serves_one_client_after_the_other() {
    let s = ServerState::Idle;
    let (s, a) = s.step(false, true);
    assert_eq!((s, a), (ServerState::Creating, ServerAction::Create));
    let (s, a) = s.step(false, true);
    assert_eq!((s, a), (ServerState::Waiting, ServerAction::Connect));
    let (s, a) = s.step(false, true);
    assert_eq!((s, a), (ServerState::Reading, ServerAction::Read));
    let (s, a) = s.step(true, true);
    assert_eq!((s, a), (ServerState::Idle, ServerAction::DisconnectAndClose));
    let (s, a) = s.step(true, true);
    assert_eq!((s, a), (ServerState::Stopped, ServerAction::Stop));
    assert_eq!(s.step(false, true), (ServerState::Stopped, ServerAction::Stop));
}

#[test]
fn the_server_tries_again_after_a_failure() {
    assert_eq!(ServerState::Creating.step(false, false), (ServerState::Idle, ServerAction::Sleep));
    assert_eq!(ServerState::Waiting.step(false, false), (ServerState::Idle, ServerAction::Close));
}
