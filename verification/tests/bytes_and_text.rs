use wiz_packets::bytes::{
    copy_range, low_u16, low_u32, push_bytes, push_u16, push_u32, push_u64, read_u16, read_u32, read_u64,
    same_bytes,
};
use wiz_packets::clock::CaptureTime;
use wiz_packets::text::{
    chars_of, code_point, contains_text, decimal_text, ends_with_text, field_text, hex_text, matches_at,
    parse_u8, push_padded_left, push_padded_right, quote, same_text, signed_decimal_text, space,
    starts_with_text, text_of, trim, trim_end_nul, wide_nul,
};

fn number(s: &str) -> Option<u8> {
    parse_u8(&chars_of(s))
}

fn trimmed(s: &str) -> String {
    trim(s).into_iter().collect()
}

#[test]
fn numbers_are_read_low_byte_first() {
    let data = [0xFF, 0x0D, 0xF0, 0x01, 0x02, 0x03, 0x04, 0x05, 0x06, 0x07];
    assert_eq!(read_u16(&data, 1), 0xF00D);
    assert_eq!(read_u32(&data, 1), 0x0201_F00D);
    assert_eq!(read_u64(&data, 1), 0x0605_0403_0201_F00D);
}

#[test]
fn written_numbers_are_read_back() {
    let mut out = vec![9u8];
    push_u16(&mut out, 0xABCD);
    push_u32(&mut out, 0x1234_5678);
    push_u64(&mut out, 0x8877_6655_4433_2211);
    push_bytes(&mut out, &[1, 2]);
    assert_eq!(
        out,
        vec![9, 0xCD, 0xAB, 0x78, 0x56, 0x34, 0x12, 0x11, 0x22, 0x33, 0x44, 0x55, 0x66, 0x77, 0x88, 1, 2]
    );
    assert_eq!(read_u16(&out, 1), 0xABCD);
    assert_eq!(read_u32(&out, 3), 0x1234_5678);
    assert_eq!(read_u64(&out, 7), 0x8877_6655_4433_2211);
}

#[test]
fn low_bits_wrap() {
    assert_eq!(low_u16(0x1_0005), 5);
    assert_eq!(low_u32(0x1_0005), 0x1_0005);
}

#[test]
fn ranges_are_copied_and_compared() {
    assert_eq!(copy_range(&[1, 2, 3, 4], 1, 3), vec![2, 3]);
    assert!(same_bytes(&[1, 2], &[1, 2]));
    assert!(!same_bytes(&[1, 2], &[1, 3]));
    assert!(!same_bytes(&[1, 2], &[1]));
}

#[test]
fn numbers_as_text() {
    assert_eq!(decimal_text(0), "0");
    assert_eq!(decimal_text(18_446_744_073_709_551_615), "18446744073709551615");
    assert_eq!(signed_decimal_text(-1), "-1");
    assert_eq!(signed_decimal_text(i64::MIN), "-9223372036854775808");
    assert_eq!(signed_decimal_text(42), "42");
    assert_eq!(hex_text(0, 4), "0000");
    assert_eq!(hex_text(0xABCDE, 4), "ABCDE");
    assert_eq!(hex_text(0xF, 2), "0F");
    assert_eq!(hex_text(0xDEAD_BEEF, 16), "00000000DEADBEEF");
    assert_eq!(hex_text(7, 0), "7");
}

#[test]
fn small_numbers_are_parsed() {
    assert_eq!(number("0"), Some(0));
    assert_eq!(number("255"), Some(255));
    assert_eq!(number("+7"), Some(7));
    assert_eq!(number("000012"), Some(12));
    assert_eq!(number("256"), None);
    assert_eq!(number("99999999999999999999999"), None);
    assert_eq!(number(""), None);
    assert_eq!(number("+"), None);
    assert_eq!(number("++1"), None);
    assert_eq!(number("-1"), None);
    assert_eq!(number(" 1"), None);
    assert_eq!(number("1a"), None);
}

#[test]
fn every_small_number_is_read_back() {
    for n in 0..=255u8 {
        assert_eq!(number(&decimal_text(n as u64)), Some(n));
    }
}

#[test]
fn white_space_is_trimmed_at_both_ends() {
    assert_eq!(trimmed("  a b\t\r\n"), "a b");
    assert_eq!(trimmed("\u{a0}\u{3000}x\u{2003}"), "x");
    assert_eq!(trimmed(" \t "), "");
    assert_eq!(trimmed("\u{200b}x"), "\u{200b}x");
    assert!(space('\u{85}'));
    assert!(!space('a'));
}

#[test]
fn white_space_is_what_unicode_says() {
    for n in 0..=0x10_FFFFu32 {
        if let Some(c) = char::from_u32(n) {
            assert_eq!(space(c), c.is_whitespace(), "U+{:04X}", n);
        }
    }
}

#[test]
fn trailing_nul_characters_are_cut() {
    assert_eq!(trim_end_nul("a\0b\0\0"), "a\0b");
    assert_eq!(trim_end_nul("\0\0"), "");
    assert_eq!(trim_end_nul("abc"), "abc");
}

#[test]
fn texts_are_searched() {
    assert!(contains_text("GameMessages.xml", "Messages"));
    assert!(!contains_text("GameMessage.xml", "Messages"));
    assert!(contains_text("abc", ""));
    assert!(contains_text("", ""));
    assert!(!contains_text("", "a"));
    assert!(starts_with_text("plaintext:0", "plaintext"));
    assert!(!starts_with_text("plain", "plaintext"));
    assert!(ends_with_text("a.xml", ".xml"));
    assert!(!ends_with_text("xml", ".xml"));
    assert!(same_text("\u{e4}", "\u{e4}"));
    assert!(!same_text("a", "b"));
    assert!(matches_at(&chars_of("abcabc"), &chars_of("abc"), 3));
    assert_eq!(text_of(&chars_of("hello"), 1, 3), "el");
}

#[test]
fn texts_are_padded_by_characters() {
    let mut out = String::new();
    push_padded_right(&mut out, "\u{e4}b", 4);
    out.push('|');
    push_padded_left(&mut out, "7B", 5);
    push_padded_right(&mut out, "toolong", 3);
    assert_eq!(out, "\u{e4}b  |   7Btoolong");
    assert_eq!(quote("x"), "\"x\"");
}

#[test]
fn wide_text_ends_in_nul() {
    assert_eq!(wide_nul("Az"), vec![0x41, 0x7A, 0]);
    assert_eq!(wide_nul("\u{1F600}"), vec![0xD83D, 0xDE00, 0]);
    assert_eq!(code_point('A'), 0x41);
}

#[test]
fn wide_text_is_read_back_from_a_field() {
    let mut units = wide_nul("caf\u{e9} \u{1F600}");
    units.extend([0x58, 0x58]);
    assert_eq!(field_text(&units), "caf\u{e9} \u{1F600}");
    assert_eq!(field_text(&[0x41, 0x42]), "AB");
    assert_eq!(field_text(&[0]), "");
}

#[test]
fn unpaired_surrogates_are_replaced() {
    assert_eq!(
        field_text(&[0xD834, 0xDD1E, 0x6D, 0xDD1E, 0x69, 0xD834]),
        "\u{1D11E}m\u{FFFD}i\u{FFFD}"
    );
}

#[test]
fn the_clock_shows_hours_to_milliseconds() {
    assert_eq!(CaptureTime::new(0, 0).unwrap().text(), "00:00:00.000");
    assert_eq!(CaptureTime::new(86_399, 999_999_999).unwrap().text(), "23:59:59.999");
    assert_eq!(CaptureTime::new(1_700_000_000, 7_000_000).unwrap().text(), "22:13:20.007");
    assert_eq!(CaptureTime::new(-1, 500_000_000).unwrap().text(), "23:59:59.500");
    assert_eq!(CaptureTime::new(59, 1_250_000_000).unwrap().text(), "00:00:60.250");
    assert_eq!(CaptureTime::new(8_210_266_876_799, 0).unwrap().text(), "23:59:59.000");
    assert_eq!(CaptureTime::new(-8_334_601_228_800, 0).unwrap().text(), "00:00:00.000");
}

#[test]
fn only_moments_are_times() {
    assert!(CaptureTime::new(8_210_266_876_800, 0).is_none());
    assert!(CaptureTime::new(-8_334_601_228_801, 0).is_none());
    assert!(CaptureTime::new(0, 2_000_000_000).is_none());
    assert!(CaptureTime::new(58, 1_000_000_000).is_none());
    assert!(CaptureTime::new(-1, 1_000_000_000).is_some());
    assert!(chrono::DateTime::from_timestamp(8_210_266_876_799, 0).is_some());
    assert!(chrono::DateTime::from_timestamp(8_210_266_876_800, 0).is_none());
    assert!(chrono::DateTime::from_timestamp(-8_334_601_228_800, 0).is_some());
    assert!(chrono::DateTime::from_timestamp(-8_334_601_228_801, 0).is_none());
}

#[test]
fn the_present_time_is_shown_like_any_other() {
    let text = CaptureTime::now().text();
    assert_eq!(text.len(), 12);
    assert_eq!(&text[2..3], ":");
    assert_eq!(&text[8..9], ".");
}
