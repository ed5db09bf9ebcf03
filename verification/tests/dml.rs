use wiz_packets::dml::{
    decode_dml_message, decode_fields, extract_ascii_strings, extract_readable_content, extract_utf16_strings,
    field_kind, is_printable_wide, payload_contains_pointers, read_field, DecodedField, FieldKind, FieldValue,
};
use wiz_packets::schema::{DmlField, DmlMessageDef, DmlService, SchemaRegistry};

fn text(value: &FieldValue) -> String {
    match value {
        FieldValue::Text(s) => s.clone(),
        _ => panic!("not a text"),
    }
}

fn read(data: &[u8], field_type: &str) -> (String, usize, Vec<u8>) {
    let (value, n, raw) = read_field(data, field_type);
    (text(&value), n, raw)
}

fn def(fields: &[(&str, &str)]) -> DmlMessageDef {
    DmlMessageDef {
        name: "MSG_TEST".to_string(),
        description: String::new(),
        order: 3,
        fields: fields
            .iter()
            .map(|(n, t)| DmlField { name: n.to_string(), field_type: t.to_string() })
            .collect(),
    }
}

fn registry(fields: &[(&str, &str)]) -> SchemaRegistry {
    let mut r = SchemaRegistry::new();
    r.insert(DmlService { name: "GAME".to_string(), service_id: 5, messages: vec![def(fields)] });
    r
}

fn shown(fields: &[DecodedField]) -> Vec<(String, String, String)> {
    fields.iter().map(|f| (f.name.clone(), f.field_type.clone(), text(&f.value))).collect()
}

fn wide(s: &str) -> Vec<u8> {
    s.encode_utf16().flat_map(|u| u.to_le_bytes()).collect()
}

#[test]
fn integers_are_decoded() {
    assert_eq!(read(&[200, 1], "BYT"), ("200".to_string(), 1, vec![200]));
    assert_eq!(read(&[200], "UBYT"), ("200".to_string(), 1, vec![200]));
    assert_eq!(read(&[0xFE, 0xFF, 9], "SHRT"), ("-2".to_string(), 2, vec![0xFE, 0xFF]));
    assert_eq!(read(&[0xFF, 0x7F], "SHRT").0, "32767");
    assert_eq!(read(&[0x00, 0x80], "SHRT").0, "-32768");
    assert_eq!(read(&[0xFE, 0xFF], "USHRT").0, "65534");
    assert_eq!(read(&[0xFF; 5], "INT"), ("-1".to_string(), 4, vec![0xFF; 4]));
    assert_eq!(read(&[0, 0, 0, 0x80], "INT").0, "-2147483648");
    assert_eq!(read(&[0xFF; 4], "UINT").0, "4294967295");
    assert_eq!(read(&[1, 2, 3, 4, 5, 6, 7, 8], "GID"), ("0x0807060504030201".to_string(), 8, (1..=8).collect()));
    assert_eq!(read(&[0xFF; 8], "UINT64").0, "0xFFFFFFFFFFFFFFFF");
}

#[test]
fn floating_point_fields_keep_their_bits() {
    let (value, n, raw) = read_field(&1.5f32.to_le_bytes(), "FLT");
    match value {
        FieldValue::Float { bits32 } => assert_eq!(f32::from_bits(bits32), 1.5),
        _ => panic!(),
    }
    assert_eq!((n, raw), (4, 1.5f32.to_le_bytes().to_vec()));
    let (value, n, raw) = read_field(&(-2.25f64).to_le_bytes(), "DBL");
    match value {
        FieldValue::Double { bits64 } => assert_eq!(f64::from_bits(bits64), -2.25),
        _ => panic!(),
    }
    assert_eq!((n, raw), (8, (-2.25f64).to_le_bytes().to_vec()));
}

#[test]
fn texts_are_decoded_and_quoted() {
    assert_eq!(read(b"\x05\x00hello!", "STR"), ("\"hello\"".to_string(), 7, b"\x05\x00hello".to_vec()));
    assert_eq!(read(b"\x00\x00", "STR").0, "\"\"");
    assert_eq!(read(&[2, 0, 0xC3, 0xA4], "STR").0, "\"\u{e4}\"");
    assert_eq!(read(&[2, 0, 0x41, 0xFF], "STR").0, "\"A\u{FFFD}\"");
    let mut data = vec![3, 0];
    data.extend(wide("a\u{1F600}"));
    data.push(7);
    assert_eq!(read(&data, "WSTR"), ("\"a\u{1F600}\"".to_string(), 8, data[..8].to_vec()));
    assert_eq!(read(&[1, 0, 0x00, 0xD8], "WSTR").0, "\"\u{FFFD}\"");
}

#[test]
fn unknown_types_are_one_byte() {
    assert_eq!(read(&[0x0A, 1], "SOMETHING"), ("0x0A".to_string(), 1, vec![0x0A]));
    assert_eq!(read(&[0xFF], "").0, "0xFF");
    assert_eq!(field_kind("byt"), FieldKind::Other);
    assert_eq!(field_kind("UINT64"), FieldKind::Id);
}

#[test]
fn fields_that_are_not_all_there_are_unknown() {
    let none = ("?".to_string(), 0, vec![]);
    for t in ["BYT", "UBYT", "SHRT", "USHRT", "INT", "UINT", "FLT", "DBL", "STR", "WSTR", "GID", "UINT64", "X"] {
        assert_eq!(read(&[], t), none, "{}", t);
    }
    assert_eq!(read(&[1], "SHRT"), none);
    assert_eq!(read(&[1, 2, 3], "UINT"), none);
    assert_eq!(read(&[1, 2, 3], "FLT"), none);
    assert_eq!(read(&[1; 7], "DBL"), none);
    assert_eq!(read(&[1; 7], "GID"), none);
    assert_eq!(read(&[1], "STR"), none);
    assert_eq!(read(&[3, 0, 1, 2], "STR"), none);
    assert_eq!(read(&[2, 0, 1, 2, 3], "WSTR"), none);
}

#[test]
fn a_message_is_decoded_field_by_field() {
    let fields = decode_fields(
        &[7, 2, 0, 0x68, 0x69, 1, 0],
        &def(&[("a", "UBYT"), ("b", "STR"), ("c", "UINT"), ("d", "USHRT"), ("e", "INT")]),
    );
    assert_eq!(shown(&fields), vec![
        ("a".to_string(), "UBYT".to_string(), "7".to_string()),
        ("b".to_string(), "STR".to_string(), "\"hi\"".to_string()),
        ("c".to_string(), "UINT".to_string(), "?".to_string()),
        ("d".to_string(), "USHRT".to_string(), "1".to_string()),
    ]);
    let joined: Vec<u8> = fields.iter().flat_map(|f| f.raw_bytes.clone()).collect();
    assert_eq!(joined, vec![7, 2, 0, 0x68, 0x69, 1, 0]);
    assert!(decode_fields(&[], &def(&[("a", "UBYT")])).is_empty());
}

#[test]
fn long_runs_of_printable_bytes_are_texts() {
    assert_eq!(extract_ascii_strings(b"\x00abcdef\x01short\x02 more text~\xFF"), vec!["abcdef", " more text~"]);
    assert_eq!(extract_ascii_strings(b"abcdef"), vec!["abcdef"]);
    assert!(extract_ascii_strings(b"abcde").is_empty());
    assert!(extract_ascii_strings(b"abcde\x7Ffg").is_empty());
    assert!(extract_ascii_strings(&[]).is_empty());
}

#[test]
fn long_runs_of_wide_characters_are_texts() {
    let mut data = vec![1];
    data.extend(wide("four"));
    data.extend([9, 9]);
    data.extend(wide("abc"));
    data.push(9);
    data.extend(wide("another one"));
    assert_eq!(extract_utf16_strings(&data), vec!["four", "another one"]);
    assert!(extract_utf16_strings(&wide("abc")).is_empty());
    assert!(extract_utf16_strings(&[0x41]).is_empty());
    assert!(is_printable_wide(0x7E, 0));
    assert!(!is_printable_wide(0x7F, 0));
    assert!(!is_printable_wide(0x41, 1));
}

#[test]
fn runs_of_wide_characters_are_kept_apart() {
    let mut data = wide("abcd");
    data.extend(wide("\u{1}"));
    data.extend(wide("wxyz"));
    assert_eq!(extract_utf16_strings(&data), vec!["abcd", "wxyz"]);
}

#[test]
fn runs_of_wide_characters_are_found_at_any_offset() {
    let mut data = vec![0x41];
    data.extend(wide("\u{2}abc"));
    data.push(0x05);
    data.extend(wide("odd start"));
    data.push(0xFF);
    data.extend(wide("next run"));
    assert_eq!(extract_utf16_strings(&data), vec!["odd start", "next run"]);
}

#[test]
fn readable_content_is_numbered_through() {
    let mut data = wide("wide text");
    data.extend(b"\x01narrow\x01again!\x01");
    let fields = extract_readable_content(&data);
    assert_eq!(shown(&fields), vec![
        ("wstr_0".to_string(), "WSTR".to_string(), "\"wide text\"".to_string()),
        ("str_1".to_string(), "STR".to_string(), "\"narrow\"".to_string()),
        ("str_2".to_string(), "STR".to_string(), "\"again!\"".to_string()),
    ]);
    assert!(fields.iter().all(|f| f.raw_bytes.is_empty()));
}

#[test]
fn two_pointers_make_raw_memory() {
    let pointer = 0x0000_7FF6_1234_5678u64.to_le_bytes();
    let mut data = pointer.to_vec();
    assert!(!payload_contains_pointers(&data));
    data.extend([0; 8]);
    assert!(!payload_contains_pointers(&data));
    data.extend(pointer);
    assert!(payload_contains_pointers(&data));
    let mut late = vec![0; 64];
    late.extend(pointer);
    late.extend(pointer);
    assert!(!payload_contains_pointers(&late));
    let low = 0x0000_0000_FFFF_FFFFu64.to_le_bytes();
    let edge = 0x0000_0001_0000_0000u64.to_le_bytes();
    let high = 0x0000_7FFF_FFFF_FFFFu64.to_le_bytes();
    assert!(!payload_contains_pointers(&[low, low].concat()));
    assert!(payload_contains_pointers(&[edge, edge].concat()));
    assert!(!payload_contains_pointers(&[high, high].concat()));
    assert!(!payload_contains_pointers(&[0x55; 15]));
}

#[test]
fn a_known_message_is_decoded_by_its_schema() {
    let m = decode_dml_message(5, 3, &[9, 0], &registry(&[("Count", "USHRT")])).unwrap();
    assert_eq!((m.service_name.as_str(), m.message_name.as_str()), ("GAME", "MSG_TEST"));
    assert_eq!(shown(&m.fields), vec![("Count".to_string(), "USHRT".to_string(), "9".to_string())]);
}

#[test]
fn an_unknown_message_is_searched_for_text() {
    let m = decode_dml_message(5, 4, b"\x00readable\x00", &registry(&[])).unwrap();
    assert_eq!((m.service_name.as_str(), m.message_name.as_str()), ("GAME", "Message #4"));
    assert_eq!(shown(&m.fields)[0].2, "\"readable\"");
    let m = decode_dml_message(6, 4, &[1], &registry(&[])).unwrap();
    assert_eq!(m.service_name, "Unknown");
    assert!(m.fields.is_empty());
}

#[test]
fn raw_memory_is_searched_for_text_in_spite_of_a_schema() {
    let mut data = 0x0000_7FF6_1234_5678u64.to_le_bytes().to_vec();
    data.extend(0x0000_0155_1234_5678u64.to_le_bytes());
    data.extend(b"\x00a longer text\x00");
    let m = decode_dml_message(5, 3, &data, &registry(&[("Count", "USHRT")])).unwrap();
    assert_eq!(m.message_name, "MSG_TEST");
    assert_eq!(shown(&m.fields), vec![(
        "str_0".to_string(),
        "STR".to_string(),
        "\"a longer text\"".to_string()
    )]);
}

#[test]
fn a_schema_without_fields_falls_back_to_text() {
    let m = decode_dml_message(5, 3, b"fallback", &registry(&[])).unwrap();
    assert_eq!(shown(&m.fields)[0].2, "\"fallback\"");
}
