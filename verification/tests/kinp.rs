use wiz_packets::clock::CaptureTime;
use wiz_packets::kinp::{
    endpoint_text, find_start_signal, parse_kinp_payload, split_frames, Direction, KinpDecoder, KinpMessage,
    MessageType, RawPacketData,
};

fn packet(src_port: u16, payload: &[u8]) -> RawPacketData {
    RawPacketData {
        timestamp: CaptureTime::new(3_723, 45_000_000).unwrap(),
        src_ip: "hook".to_string(),
        dst_ip: "hook".to_string(),
        src_port,
        dst_port: 12_000,
        payload: payload.to_vec(),
        is_from_server: true,
    }
}

fn frame(payload: &[u8]) -> Vec<u8> {
    let mut out = vec![0x0D, 0xF0];
    out.extend((payload.len() as u16).to_le_bytes());
    out.extend(payload);
    out
}

fn payloads(messages: &[KinpMessage]) -> Vec<Vec<u8>> {
    messages.iter().map(|m| m.raw_payload.clone()).collect()
}

fn parsed(payload: &[u8]) -> KinpMessage {
    let time = CaptureTime::new(0, 0).unwrap();
    parse_kinp_payload(payload, &time, "10.0.0.1", 80, "10.0.0.2", 443, false)
}

#[test]
fn the_first_start_signal_is_found() {
    assert_eq!(find_start_signal(&[1, 2, 0x0D, 0xF0, 0x0D, 0xF0]), Some(2));
    assert_eq!(find_start_signal(&[0x0D, 0xF0]), Some(0));
    assert_eq!(find_start_signal(&[0xF0, 0x0D]), None);
    assert_eq!(find_start_signal(&[0x0D]), None);
    assert_eq!(find_start_signal(&[]), None);
}

#[test]
fn complete_frames_are_taken_out() {
    let mut data = frame(&[1, 2, 3]);
    data.extend(frame(&[]));
    data.extend([0x0D, 0xF0, 5]);
    let (found, rest) = split_frames(&data);
    assert_eq!(found, vec![vec![1, 2, 3], vec![]]);
    assert_eq!(rest, vec![0x0D, 0xF0, 5]);
}

#[test]
fn bytes_before_a_signal_are_passed_over() {
    let mut data = vec![9, 9, 9];
    data.extend(frame(&[7]));
    assert_eq!(split_frames(&data), (vec![vec![7]], vec![]));
    assert_eq!(split_frames(&[1, 2, 3, 0x0D, 0xF0]), (vec![], vec![0x0D, 0xF0]));
}

#[test]
fn four_bytes_without_a_signal_are_dropped() {
    assert_eq!(split_frames(&[1, 2, 3, 4]), (vec![], vec![]));
    assert_eq!(split_frames(&[1, 2, 3]), (vec![], vec![1, 2, 3]));
}

#[test]
fn an_unfinished_frame_waits() {
    let data = [0x0D, 0xF0, 2, 0, 1];
    assert_eq!(split_frames(&data), (vec![], data.to_vec()));
    assert_eq!(split_frames(&split_frames(&data).1), (vec![], data.to_vec()));
}

#[test]
fn any_cut_of_a_stream_gives_the_same_payloads() {
    let expected = vec![vec![1, 2, 3], vec![], vec![0x0D, 0xF0, 0x0D, 0xF0], vec![5; 40]];
    let mut stream = Vec::new();
    for p in &expected {
        stream.extend(frame(p));
    }
    for a in 0..=stream.len() {
        for b in a..=stream.len() {
            let mut decoder = KinpDecoder::new();
            let mut got = payloads(&decoder.process(packet(1, &stream[..a])));
            got.extend(payloads(&decoder.process(packet(1, &stream[a..b]))));
            got.extend(payloads(&decoder.process(packet(1, &stream[b..]))));
            assert_eq!(got, expected);
        }
    }
}

#[test]
fn a_signal_split_behind_dropped_bytes_is_lost() {
    let mut decoder = KinpDecoder::new();
    let whole = [1, 2, 3, 0x0D, 0xF0, 0, 0];
    assert_eq!(split_frames(&whole), (vec![vec![]], vec![]));
    assert_eq!(decoder.process(packet(1, &whole[..4])).len(), 0);
    assert_eq!(decoder.process(packet(1, &whole[4..])).len(), 0);
}

#[test]
fn streams_are_kept_apart() {
    let mut decoder = KinpDecoder::new();
    let f = frame(&[1, 2, 3, 4]);
    assert_eq!(decoder.process(packet(1, &f[..5])).len(), 0);
    assert_eq!(decoder.process(packet(2, &f[..6])).len(), 0);
    assert_eq!(payloads(&decoder.process(packet(1, &f[5..]))), vec![vec![1, 2, 3, 4]]);
    assert_eq!(payloads(&decoder.process(packet(2, &f[6..]))), vec![vec![1, 2, 3, 4]]);
    let mut other = packet(3, &f[..5]);
    other.src_ip = "plaintext".to_string();
    assert_eq!(decoder.process(other).len(), 0);
    assert_eq!(decoder.process(packet(3, &f[5..])).len(), 0);
}

#[test]
fn the_longest_frame_is_taken_out() {
    let long = vec![0xAB; 65_535];
    let f = frame(&long);
    assert_eq!(f.len(), 65_539);
    let mut decoder = KinpDecoder::new();
    assert_eq!(decoder.process(packet(1, &f[..65_538])).len(), 0);
    assert_eq!(payloads(&decoder.process(packet(1, &f[65_538..]))), vec![long]);
}

#[test]
fn a_dml_message_carries_its_numbers() {
    let m = parsed(&[0, 0, 0, 0, 5, 9, 0x34, 0x12, 1]);
    assert_eq!(m.msg_type, MessageType::Dml { service_id: 5, message_id: 9 });
    assert_eq!((m.service_id, m.message_id, m.dml_length), (Some(5), Some(9), Some(0x1234)));
    assert_eq!(m.direction, Direction::ClientToServer);
    assert_eq!(m.src, "10.0.0.1:80");
    assert_eq!(m.dst, "10.0.0.2:443");
    assert_eq!(m.timestamp, "00:00:00.000");
    assert_eq!(m.raw_payload, vec![0, 0, 0, 0, 5, 9, 0x34, 0x12, 1]);
}

#[test]
fn payloads_are_told_apart() {
    assert_eq!(parsed(&[]).msg_type, MessageType::Control { opcode: 0 });
    assert_eq!(parsed(&[1]).msg_type, MessageType::Unknown);
    assert_eq!(parsed(&[0, 0, 0]).msg_type, MessageType::Unknown);
    assert_eq!(parsed(&[1, 3, 0, 0]).msg_type, MessageType::Control { opcode: 3 });
    assert_eq!(parsed(&[1, 3, 0, 0, 5, 9, 4, 0]).msg_type, MessageType::Control { opcode: 3 });
    assert_eq!(parsed(&[1, 3, 0, 0, 5, 9, 4]).msg_type, MessageType::Control { opcode: 3 });
    assert_eq!(parsed(&[0, 4, 0, 0]).msg_type, MessageType::Unknown);
    assert_eq!(parsed(&[0, 4, 0, 0, 5, 9, 4]).msg_type, MessageType::Unknown);
    for service_id in [0u8, 1, 99, 100, 255] {
        let m = parsed(&[0, 0, 0, 0, service_id, 9, 4, 0]);
        assert_eq!(m.msg_type, MessageType::Dml { service_id, message_id: 9 });
        assert_eq!((m.service_id, m.message_id, m.dml_length), (Some(service_id), Some(9), Some(4)));
    }
    let m = parsed(&[0, 0, 0, 0, 5, 9, 4]);
    assert_eq!((m.service_id, m.message_id, m.dml_length), (None, None, None));
}

#[test]
fn messages_keep_the_packet_they_came_in() {
    let mut decoder = KinpDecoder::new();
    let messages = decoder.process(packet(7, &frame(&[1, 2, 0, 0])));
    assert_eq!(messages.len(), 1);
    assert_eq!(messages[0].timestamp, "01:02:03.045");
    assert_eq!(messages[0].direction, Direction::ServerToClient);
    assert_eq!(messages[0].src, "hook:7");
    assert_eq!(messages[0].dst, "hook:12000");
    assert_eq!(endpoint_text("::1", 65_535), "::1:65535");
}
