use wiz_packets::clock::CaptureTime;
use wiz_packets::display::{
    decoded_heading, detail_lines, direction_text, header_text, hex_dump, message_text, plaintext_message,
    row_can_be_made, row_color, row_text, service_text, truncatable, truncate_str, type_text, Status,
};
use wiz_packets::dml::DecodedMessage;
use wiz_packets::game_hooks::kinp_frame;
use wiz_packets::kinp::{Direction, KinpMessage, MessageType, RawPacketData};
use wiz_packets::packet_log::{decode_message, PacketEntry, PacketLog};
use wiz_packets::schema::{DmlField, DmlMessageDef, DmlService, SchemaRegistry};
use wiz_packets::session::Session;

fn packet(label: &str, from_server: bool, payload: &[u8]) -> RawPacketData {
    RawPacketData {
        timestamp: CaptureTime::new(0, 1_000_000).unwrap(),
        src_ip: label.to_string(),
        dst_ip: label.to_string(),
        src_port: 1,
        dst_port: 2,
        payload: payload.to_vec(),
        is_from_server: from_server,
    }
}

fn game_service() -> DmlService {
    DmlService {
        name: "GAME".to_string(),
        service_id: 5,
        messages: vec![DmlMessageDef {
            name: "MSG_Ping".to_string(),
            description: String::new(),
            order: 9,
            fields: vec![DmlField { name: "n".to_string(), field_type: "UBYT".to_string() }],
        }],
    }
}

fn log_with_schema() -> PacketLog {
    let mut log = PacketLog::new();
    log.schema_registry.insert(game_service());
    log
}

fn message(msg_type: MessageType, payload: &[u8]) -> KinpMessage {
    let ids = match msg_type {
        MessageType::Dml { service_id, message_id } => (Some(service_id), Some(message_id)),
        _ => (None, None),
    };
    KinpMessage {
        timestamp: "00:00:00.001".to_string(),
        direction: Direction::ClientToServer,
        src: "hook:1".to_string(),
        dst: "hook:2".to_string(),
        msg_type,
        raw_payload: payload.to_vec(),
        service_id: ids.0,
        message_id: ids.1,
        dml_length: None,
    }
}

fn plain(msg: KinpMessage) -> PacketEntry {
    PacketEntry { msg, decoded: None }
}

fn named(service: &str, message_name: &str) -> PacketEntry {
    PacketEntry {
        msg: message(MessageType::Dml { service_id: 5, message_id: 9 }, &[0; 10]),
        decoded: Some(DecodedMessage {
            service_name: service.to_string(),
            message_name: message_name.to_string(),
            fields: vec![],
        }),
    }
}

#[test]
fn plaintext_messages_are_decoded() {
    let mut log = log_with_schema();
    log.process_incoming_packets(vec![packet("plaintext", false, &kinp_frame(5, 9, &[42]))]);
    assert_eq!(log.packets.len(), 1);
    let entry = &log.packets[0];
    assert_eq!(entry.msg.msg_type, MessageType::Dml { service_id: 5, message_id: 9 });
    let decoded = entry.decoded.as_ref().unwrap();
    assert_eq!(decoded.message_name, "MSG_Ping");
    assert_eq!(decoded.fields.len(), 1);
    assert_eq!(decoded.fields[0].raw_bytes, vec![42]);
}

#[test]
fn encrypted_packets_are_listed_themselves() {
    let mut log = log_with_schema();
    let mut data = vec![0xAA, 0xBB];
    data.extend(kinp_frame(5, 9, &[]));
    log.process_packet(packet("hook", true, &data));
    assert_eq!(log.packets.len(), 2);
    assert_eq!(log.packets[0].msg.msg_type, MessageType::Encrypted);
    assert_eq!(log.packets[0].msg.raw_payload, data);
    assert_eq!(log.packets[0].msg.direction, Direction::ServerToClient);
    assert_eq!(log.packets[0].msg.src, "hook:1");
    assert_eq!(log.packets[0].msg.timestamp, "00:00:00.001");
    assert!(log.packets[0].decoded.is_none());
    assert_eq!(log.packets[1].msg.service_id, Some(5));
    assert!(log.packets[1].decoded.is_none());
}

#[test]
fn packets_in_one_go_or_two_are_the_same() {
    let f = kinp_frame(5, 9, &[1, 2, 3]);
    let parts = || vec![packet("hook", false, &f[..6]), packet("hook", false, &f[6..]), packet("plaintext", true, &f)];
    let mut one = log_with_schema();
    one.process_incoming_packets(parts());
    let mut two = log_with_schema();
    let mut all = parts();
    let last = all.split_off(1);
    two.process_incoming_packets(all);
    two.process_incoming_packets(last);
    assert_eq!(one.packets.len(), 4);
    assert_eq!(one.packets.len(), two.packets.len());
    for (a, b) in one.packets.iter().zip(&two.packets) {
        assert_eq!(a.msg.raw_payload, b.msg.raw_payload);
        assert_eq!(a.msg.msg_type, b.msg.msg_type);
        assert_eq!(a.decoded.is_some(), b.decoded.is_some());
    }
}

#[test]
fn messages_without_data_are_not_decoded() {
    let registry = SchemaRegistry::new();
    let dml = MessageType::Dml { service_id: 5, message_id: 9 };
    assert!(decode_message(&message(dml, &[0; 8]), &registry).is_none());
    assert!(decode_message(&message(dml, &[0; 9]), &registry).is_some());
    assert!(decode_message(&message(MessageType::Encrypted, &[0; 9]), &registry).is_none());
}

#[test]
fn the_list_is_filtered() {
    let mut log = PacketLog::new();
    log.packets = vec![
        plain(message(MessageType::Encrypted, &[1])),
        named("GAME", "MSG_Attack"),
        named("Login", "MSG_ATTACH"),
        plain(message(MessageType::Dml { service_id: 7, message_id: 1 }, &[])),
    ];
    assert_eq!(log.filtered_indices(), vec![0, 1, 2, 3]);
    log.filter_text = "attac".to_string();
    assert_eq!(log.filtered_indices(), vec![1, 2]);
    log.filter_text = "LOGIN".to_string();
    assert_eq!(log.filtered_indices(), vec![2]);
    log.filter_text = "nothing".to_string();
    assert!(log.filtered_indices().is_empty());
    log.filter_text = String::new();
    log.filter_service = "7".to_string();
    assert_eq!(log.filtered_indices(), vec![3]);
    log.filter_service = "+5".to_string();
    assert_eq!(log.filtered_indices(), vec![1, 2]);
    log.filter_service = "seven".to_string();
    assert_eq!(log.filtered_indices(), vec![0, 1, 2, 3]);
    log.filter_service = "256".to_string();
    assert_eq!(log.filtered_indices(), vec![0, 1, 2, 3]);
}

#[test]
fn the_filter_ignores_case_beyond_ascii() {
    let mut log = PacketLog::new();
    log.packets = vec![named("\u{c4}RGER", "x"), named("a", "b")];
    log.filter_text = "\u{e4}rger".to_string();
    assert_eq!(log.filtered_indices(), vec![0]);
}

#[test]
fn clearing_keeps_what_streams_hold_back() {
    let mut log = log_with_schema();
    let f = kinp_frame(5, 9, &[7]);
    log.process_packet(packet("plaintext", false, &f[..7]));
    log.packets.push(named("a", "b"));
    log.selected_packet = Some(0);
    assert!(log.selected_entry().is_some());
    log.clear();
    assert!(log.packets.is_empty());
    assert!(log.selected_packet.is_none());
    log.process_packet(packet("plaintext", false, &f[7..]));
    assert_eq!(log.packets.len(), 1);
    log.selected_packet = Some(4);
    assert!(log.selected_entry().is_none());
}

#[test]
fn names_are_cut_to_their_columns() {
    assert_eq!(truncate_str("short", 12), "short");
    assert_eq!(truncate_str("exactly12chr", 12), "exactly12chr");
    assert_eq!(truncate_str("thirteen chars", 12), "thirteen ch~");
    assert_eq!(truncate_str("", 0), "");
    assert_eq!(truncate_str("ab", 1), "~");
    assert!(!truncatable("ab", 0));
    let umlauts = "\u{e4}\u{e4}\u{e4}\u{e4}\u{e4}\u{e4}\u{e4}";
    assert!(!truncatable(umlauts, 12));
    assert!(truncatable(umlauts, 13));
    assert_eq!(truncate_str(umlauts, 13), "\u{e4}\u{e4}\u{e4}\u{e4}\u{e4}\u{e4}~");
}

#[test]
fn bytes_are_dumped() {
    assert_eq!(hex_dump(&[]), "");
    assert_eq!(
        hex_dump(b"0123456789abcdef\x00"),
        "0000  30 31 32 33 34 35 36 37  38 39 61 62 63 64 65 66  |0123456789abcdef|\n\
         0010  00                                                |.|\n"
    );
    assert_eq!(
        hex_dump(&[0x7E, 0x7F, 0x20]),
        "0000  7E 7F 20                                          |~. |\n"
    );
    assert_eq!(
        hex_dump(b"12345678"),
        "0000  31 32 33 34 35 36 37 38                            |12345678|\n"
    );
}

#[test]
fn the_text_of_a_dump_is_in_one_column() {
    for n in 1..=16usize {
        let dump = hex_dump(&vec![0x41; n]);
        let column = dump.find('|').unwrap();
        assert_eq!(column, if n == 8 { 57 } else { 56 });
        assert_eq!(dump.len(), column + 1 + n + 2);
    }
}

#[test]
fn offsets_in_a_dump_grow() {
    let dump = hex_dump(&vec![0; 0x1_0010]);
    let last = dump.lines().last().unwrap();
    assert!(last.starts_with("10000  00 "));
}

#[test]
fn rows_have_six_columns() {
    assert_eq!(header_text(), "#     Time           Dir      Service      Message             Size");
    let registry = SchemaRegistry::new();
    let entry = named("GAME", "MSG_AVeryLongMessageName");
    assert!(row_can_be_made(&entry, &registry));
    assert_eq!(
        row_text(12, &entry, &registry),
        "12    00:00:00.001   C->S     GAME         MSG_AVeryLongMess~   10B"
    );
}

#[test]
fn services_and_messages_have_names() {
    let mut registry = SchemaRegistry::new();
    registry.insert(game_service());
    let dml = |service_id: u8| plain(message(MessageType::Dml { service_id, message_id: 3 }, &[]));
    assert_eq!(service_text(&dml(5), &registry), "GAME");
    assert_eq!(service_text(&dml(6), &registry), "?");
    assert_eq!(message_text(&dml(6)), "#3");
    assert_eq!(service_text(&plain(message(MessageType::Control { opcode: 1 }, &[])), &registry), "Control");
    assert_eq!(service_text(&plain(message(MessageType::Encrypted, &[])), &registry), "Encrypted");
    assert_eq!(service_text(&plain(message(MessageType::Unknown, &[])), &registry), "?");
    assert_eq!(message_text(&plain(message(MessageType::Unknown, &[]))), "");
    assert_eq!(service_text(&named("X", "Y"), &registry), "X");
    assert_eq!(message_text(&named("X", "Y")), "Y");
}

#[test]
fn directions_have_labels_and_colours() {
    let (out, back) = (Direction::ClientToServer, Direction::ServerToClient);
    assert_eq!(direction_text(out, true), "PT C->S");
    assert_eq!(direction_text(back, true), "PT S->C");
    assert_eq!(direction_text(out, false), "C->S");
    assert_eq!(direction_text(back, false), "S->C");
    assert_eq!(row_color(out, true), (255, 200, 100));
    assert_eq!(row_color(back, true), (255, 160, 255));
    assert_eq!(row_color(out, false), (100, 180, 255));
    assert_eq!(row_color(back, false), (100, 255, 140));
    let mut msg = message(MessageType::Encrypted, &[]);
    assert!(!plaintext_message(&msg));
    msg.src = "plaintext:0".to_string();
    assert!(plaintext_message(&msg));
}

#[test]
fn details_are_written_out() {
    assert_eq!(type_text(MessageType::Control { opcode: 0x0A }), "Control (opcode: 0x0A)");
    assert_eq!(type_text(MessageType::Dml { service_id: 5, message_id: 200 }), "DML (Svc:5 Msg:200)");
    assert_eq!(type_text(MessageType::Encrypted), "Encrypted");
    assert_eq!(type_text(MessageType::Unknown), "Unknown");
    let lines = detail_lines(&message(MessageType::Unknown, &[]));
    assert_eq!(lines.0, "Time: 00:00:00.001");
    assert_eq!(lines.1, "Direction: Client -> Server");
    assert_eq!(lines.2, "hook:1 -> hook:2");
    assert_eq!(lines.3, "Type: Unknown");
    assert_eq!(decoded_heading(named("S", "M").decoded.as_ref().unwrap()), "S / M");
}

#[test]
fn the_status_line_counts() {
    let mut log = PacketLog::new();
    assert_eq!(log.counts_text(), ("Packets: 0".to_string(), None));
    log.schema_registry.insert(game_service());
    log.packets.push(named("a", "b"));
    assert_eq!(log.counts_text(), ("Packets: 1".to_string(), Some("Schemas: 1".to_string())));
}

#[test]
fn a_session_tells_its_status() {
    let mut s = Session::new();
    assert_eq!(s.status.text(), "Ready - click Inject Hook to start");
    assert_eq!(s.game_searched(Err("none".to_string())), None);
    assert_eq!(s.status.text(), "Game not found: none");
    assert_eq!(s.game_searched(Ok(4321)), Some(4321));
    assert_eq!(s.status.text(), "Found game PID: 4321. Starting pipe server...");
    s.injected(4321, Err("denied".to_string()));
    assert_eq!(s.status.text(), "Injection failed: denied");
    assert!(s.shutdown && !s.hooked);
    s.game_searched(Ok(4321));
    assert!(!s.shutdown);
    s.injected(4321, Ok(()));
    assert_eq!(s.status.text(), "Hook injected into PID 4321. Capturing packets...");
    assert!(s.hooked && !s.shutdown);
    s.stopped();
    assert_eq!(s.status.text(), "Hook stopped");
    assert!(!s.hooked && s.shutdown);
}

#[test]
fn schemas_need_a_directory() {
    let mut s = Session::new();
    assert!(!s.can_load_schemas());
    assert_eq!(s.status.text(), "No schema directory set");
    assert!(!s.extracted(Err("bad".to_string()), "dir".to_string()));
    assert_eq!(s.status.text(), "WAD extract failed: bad");
    assert!(s.extracted(Ok(3), "dir".to_string()));
    assert_eq!(s.status.text(), "Extracted 3 DML XMLs from WAD");
    assert_eq!(s.schema_dir, "dir");
    assert!(s.can_load_schemas());
    s.schemas_loaded(Ok(2));
    assert_eq!(s.status.text(), "Loaded 2 DML schemas");
    s.schemas_loaded(Err("gone".to_string()));
    assert_eq!(s.status.text(), "Schema load error: gone");
    assert!(matches!(s.status, Status::LoadFailed { .. }));
}
