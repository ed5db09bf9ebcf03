use wiz_packets::schema::{
    build_service, file_stem, parse_message_xml, schema_file, DmlField, DmlMessageDef, DmlService, SchemaFile,
    SchemaRegistry,
};
use wiz_packets::xml::{read_events, XmlEvent};

const DOCUMENT: &str = r#"<?xml version="1.0"?>
<GameMessages>
  <!-- a comment -->
  <_ProtocolInfo>
    <RECORD>
      <ServiceID TYPE="UBYT">5</ServiceID>
      <ProtocolType TYPE="STR"> GAME </ProtocolType>
    </RECORD>
  </_ProtocolInfo>
  <MSG_PING>
    <RECORD>
      <_MsgName TYPE="STR">MSG_PING &amp; PONG</_MsgName>
      <_MsgDescription TYPE="STR">Says hello</_MsgDescription>
      <_MsgHandler TYPE="STR">handler</_MsgHandler>
      <_MsgAccessLvl TYPE="UBYT">1</_MsgAccessLvl>
      <Count TYPE="UINT"></Count>
      <Name TYPE="WSTR">x</Name>
      <Plain></Plain>
      <Empty TYPE="INT"/>
    </RECORD>
  </MSG_PING>
  <MSG_LAST>
    <RECORD>
      <_MsgOrder TYPE="UBYT"> 17 </_MsgOrder>
      <Twice TYPE="STR" NOTE="n" TYPE2="no"></Twice>
    </RECORD>
  </MSG_LAST>
</GameMessages>
"#;

/// The document without the white space between its tags.
fn compact() -> String {
    DOCUMENT.lines().map(|line| line.trim()).collect()
}

fn start(name: &str) -> XmlEvent {
    XmlEvent::Start { name: name.as_bytes().to_vec(), attributes: vec![] }
}

fn typed(name: &str, key: &str, value: &[u8]) -> XmlEvent {
    XmlEvent::Start {
        name: name.as_bytes().to_vec(),
        attributes: vec![None, Some((key.as_bytes().to_vec(), value.to_vec()))],
    }
}

fn end(name: &str) -> XmlEvent {
    XmlEvent::End { name: name.as_bytes().to_vec() }
}

fn words(s: &str) -> XmlEvent {
    XmlEvent::Text { text: Some(s.to_string()) }
}

fn fields(def: &DmlMessageDef) -> Vec<(String, String)> {
    def.fields.iter().map(|f| (f.name.clone(), f.field_type.clone())).collect()
}

fn service(id: u8, name: &str, orders: &[u8]) -> DmlService {
    DmlService {
        name: name.to_string(),
        service_id: id,
        messages: orders
            .iter()
            .enumerate()
            .map(|(i, o)| DmlMessageDef {
                name: format!("{}{}", name, i),
                description: String::new(),
                order: *o,
                fields: vec![DmlField { name: "a".to_string(), field_type: "INT".to_string() }],
            })
            .collect(),
    }
}

#[test]
fn a_document_gives_its_service() {
    let s = parse_message_xml(&compact(), "stem");
    assert_eq!(s.name, "GAME");
    assert_eq!(s.service_id, 5);
    assert_eq!(s.messages.len(), 3);
    assert_eq!(fields(&s.messages[0]), vec![
        ("ServiceID".to_string(), "UBYT".to_string()),
        ("ProtocolType".to_string(), "STR".to_string()),
    ]);
    let ping = &s.messages[1];
    assert_eq!(ping.name, "MSG_PING & PONG");
    assert_eq!(ping.description, "Says hello");
    assert_eq!(ping.order, 2);
    assert_eq!(fields(ping), vec![
        ("Count".to_string(), "UINT".to_string()),
        ("Name".to_string(), "WSTR".to_string()),
        ("Plain".to_string(), "Plain".to_string()),
    ]);
    assert_eq!(s.messages[2].order, 17);
    assert_eq!(fields(&s.messages[2]), vec![("Twice".to_string(), "STR".to_string())]);
}

#[test]
fn white_space_behind_a_tag_takes_the_place_of_its_text() {
    let s = parse_message_xml(DOCUMENT, "stem");
    assert_eq!((s.name.as_str(), s.service_id), ("stem", 0));
    assert_eq!(s.messages.len(), 3);
    assert_eq!(s.messages[1].name.trim(), "");
    assert_eq!(s.messages[2].order, 3);
    assert_eq!(s.messages[1].fields.len(), 3);
}

#[test]
fn text_behind_a_tag_still_belongs_to_it() {
    let s = build_service(
        &vec![start("RECORD"), start("_MsgName"), words("first"), end("_MsgName"), words("\n"), end("RECORD")],
        "stem",
    );
    assert_eq!(s.messages[0].name, "\n");
}

#[test]
fn messages_without_an_order_are_counted() {
    let mut events = Vec::new();
    for i in 0..4 {
        events.push(start("RECORD"));
        if i == 1 {
            events.push(start("_MsgOrder"));
            events.push(words("77"));
        }
        if i == 2 {
            events.push(start("_MsgOrder"));
            events.push(words("many"));
        }
        events.push(end("RECORD"));
    }
    let s = build_service(&events, "stem");
    let orders: Vec<u8> = s.messages.iter().map(|m| m.order).collect();
    assert_eq!(orders, vec![1, 77, 3, 4]);
}

#[test]
fn the_count_wraps() {
    let mut events = Vec::new();
    for _ in 0..257 {
        events.push(start("RECORD"));
        events.push(end("RECORD"));
    }
    let s = build_service(&events, "stem");
    assert_eq!(s.messages[254].order, 255);
    assert_eq!(s.messages[255].order, 0);
    assert_eq!(s.messages[256].order, 1);
}

#[test]
fn the_last_type_attribute_counts() {
    let twice = XmlEvent::Start {
        name: b"F".to_vec(),
        attributes: vec![
            Some((b"TYPE".to_vec(), b"INT".to_vec())),
            Some((b"TYPE".to_vec(), b"STR".to_vec())),
            Some((b"type".to_vec(), b"DBL".to_vec())),
            None,
        ],
    };
    let s = build_service(&vec![start("RECORD"), twice, typed("G", "OTHER", b"INT"), end("RECORD")], "stem");
    assert_eq!(fields(&s.messages[0]), vec![
        ("F".to_string(), "STR".to_string()),
        ("G".to_string(), "G".to_string()),
    ]);
}

#[test]
fn names_that_are_not_utf8_are_replaced() {
    let s = build_service(
        &vec![
            start("RECORD"),
            XmlEvent::Start { name: vec![0x41, 0xFF], attributes: vec![] },
            typed("B", "TYPE", &[0xC3, 0xA4]),
            end("RECORD"),
        ],
        "stem",
    );
    assert_eq!(fields(&s.messages[0]), vec![
        ("A\u{FFFD}".to_string(), "A\u{FFFD}".to_string()),
        ("B".to_string(), "\u{e4}".to_string()),
    ]);
}

#[test]
fn fields_outside_a_record_are_ignored() {
    let s = build_service(
        &vec![
            start("A"),
            words("x"),
            end("RECORD"),
            start("_MsgName"),
            words("no record"),
            XmlEvent::Other,
            XmlEvent::Text { text: None },
        ],
        "FromFile",
    );
    assert_eq!(s.messages.len(), 0);
    assert_eq!(s.name, "FromFile");
    assert_eq!(s.service_id, 0);
}

#[test]
fn both_spellings_of_the_service_are_known() {
    let s = build_service(
        &vec![start("_ServiceID"), words(" 12\n"), start("_ProtocolType"), words("\tLOGIN ")],
        "stem",
    );
    assert_eq!((s.service_id, s.name.as_str()), (12, "LOGIN"));
    let s = build_service(&vec![start("ServiceID"), words("300"), start("ProtocolType"), words("  ")], "stem");
    assert_eq!((s.service_id, s.name.as_str()), (0, "stem"));
}

#[test]
fn reading_ends_at_the_first_error() {
    let s = parse_message_xml(
        "<a><RECORD><X TYPE=\"INT\"></X></RECORD></b><RECORD></RECORD></a>",
        "stem",
    );
    assert_eq!(s.messages.len(), 1);
    assert_eq!(read_events("").len(), 0);
    assert_eq!(parse_message_xml("not xml", "stem").messages.len(), 0);
}

#[test]
fn events_come_in_order() {
    let events = read_events("<a k=\"v\">t&lt;</a><b/>");
    assert_eq!(events.len(), 4);
    match &events[0] {
        XmlEvent::Start { name, attributes } => {
            assert_eq!(name, b"a");
            assert_eq!(attributes, &vec![Some((b"k".to_vec(), b"v".to_vec()))]);
        }
        _ => panic!(),
    }
    match &events[1] {
        XmlEvent::Text { text } => assert_eq!(text.as_deref(), Some("t<")),
        _ => panic!(),
    }
    assert!(matches!(&events[2], XmlEvent::End { name } if name == b"a"));
    assert!(matches!(&events[3], XmlEvent::Other));
}

#[test]
fn unknown_escapes_leave_no_text() {
    let events = read_events("<a>&nope;</a>");
    assert!(matches!(&events[1], XmlEvent::Text { text: None }));
    let s = parse_message_xml("<RECORD><_MsgName>&nope;</_MsgName></RECORD>", "stem");
    assert_eq!(s.messages[0].name, "");
}

#[test]
fn schema_files_are_told_by_their_names() {
    assert!(schema_file("GameMessages.xml"));
    assert!(schema_file("xMessagesy.xml"));
    assert!(!schema_file("GameMessages.XML"));
    assert!(!schema_file("Game.xml"));
    assert!(!schema_file("Messages.xml.bak"));
    assert_eq!(file_stem("GameMessages.xml"), "GameMessages");
    assert_eq!(file_stem("a.Messages.b.xml"), "a.Messages.b");
}

#[test]
fn files_are_loaded_into_the_registry() {
    let file = |name: &str, content: Option<&str>| SchemaFile {
        name: name.to_string(),
        content: content.map(|c| c.to_string()),
    };
    let mut registry = SchemaRegistry::new();
    let n = registry.load_files(&vec![
        file("GameMessages.xml", Some(&compact())),
        file("Other.xml", Some("<ServiceID>9</ServiceID>")),
        file("BrokenMessages.xml", None),
        file("LoginMessages.xml", Some("<ServiceID>7</ServiceID>")),
        file("OldMessages.xml", Some("<ServiceID>7</ServiceID><ProtocolType>OLD</ProtocolType>")),
    ]);
    assert_eq!(n, 3);
    assert_eq!(registry.services.len(), 2);
    assert_eq!(registry.get_service_name(5), Some("GAME"));
    assert_eq!(registry.get_service_name(7), Some("OLD"));
    assert_eq!(registry.get_service_name(9), None);
    assert_eq!(registry.get_message_name(5, 17), Some(""));
    assert_eq!(registry.get_message_def(5, 2).unwrap().description, "Says hello");
}

#[test]
fn the_first_message_with_an_order_is_found() {
    let mut registry = SchemaRegistry::new();
    registry.insert(service(3, "S", &[4, 5, 5]));
    assert_eq!(registry.get_message_name(3, 5), Some("S1"));
    assert_eq!(registry.get_message_name(3, 6), None);
    assert_eq!(registry.get_message_name(4, 5), None);
    registry.insert(service(4, "T", &[5]));
    assert_eq!(registry.get_message_name(3, 5), Some("S1"));
    assert_eq!(registry.get_message_name(4, 5), Some("T0"));
    registry.insert(service(3, "U", &[]));
    assert!(registry.get_message_def(3, 5).is_none());
    assert_eq!(registry.get_service_name(3), Some("U"));
}
