//! Text: building it, taking it apart, and the numbers written in it.

use vstd::prelude::*;
use vstd::string::*;
use vstd::utf8::*;

verus! {

/// `String::push` appends one character to the end of the string.
pub assume_specification[ String::push ](s: &mut String, c: char)
    ensures
        final(s)@ == old(s)@.push(c),
;

/// The characters of `s`, in order.
pub fn chars_of(s: &str) -> (out: Vec<char>)
    ensures
        out@ == s@,
{
    let mut out: Vec<char> = Vec::new();
    for c in it: s.chars()
        invariant
            it.seq() == s@,
            out@ == s@.take(it.index() as int),
    {
        out.push(c);
        assert(out@ =~= s@.take(it.index() + 1));
    }
    assert(s@.take(s@.len() as int) =~= s@);
    out
}

/// The characters from `from` up to `to` as text.
pub fn text_of(chars: &[char], from: usize, to: usize) -> (out: String)
    requires
        from <= to <= chars@.len(),
    ensures
        out@ == chars@.subrange(from as int, to as int),
{
    let mut out = String::new();
    let mut i: usize = from;
    while i < to
        invariant
            from <= i <= to <= chars@.len(),
            out@ == chars@.subrange(from as int, i as int),
        decreases to - i,
    {
        out.push(chars[i]);
        i += 1;
        assert(out@ =~= chars@.subrange(from as int, i as int));
    }
    out
}

/// Whether two texts are the same.
pub fn same_text(a: &str, b: &str) -> (r: bool)
    ensures
        r == (a@ == b@),
{
    let r = crate::bytes::same_bytes(a.as_bytes(), b.as_bytes());
    proof {
        encode_utf8_decode_utf8(a@);
        encode_utf8_decode_utf8(b@);
    }
    r
}


// ---- numbers as text ----

/// The character of a decimal digit.
pub open spec fn digit(d: int) -> char {
    (0x30 + d) as char
}

/// `n` in decimal, without leading zeros.
pub open spec fn decimal(n: nat) -> Seq<char>
    decreases n,
{
    if n < 10 {
        seq![digit(n as int)]
    } else {
        decimal(n / 10).push(digit(n as int % 10))
    }
}

/// `i` in decimal, with a minus sign where it is negative.
pub open spec fn signed_decimal(i: int) -> Seq<char> {
    if i < 0 {
        seq!['-'] + decimal((-i) as nat)
    } else {
        decimal(i as nat)
    }
}

/// The upper-case character of a hexadecimal digit.
pub open spec fn hex_digit(d: int) -> char {
    if d < 10 {
        (0x30 + d) as char
    } else {
        (0x41 + (d - 10)) as char
    }
}

/// `n` in upper-case hexadecimal, filled with zeros to at least `width` digits.
pub open spec fn hex(n: nat, width: nat) -> Seq<char>
    decreases n + width,
{
    if n < 16 && width <= 1 {
        seq![hex_digit(n as int)]
    } else {
        hex(n / 16, if width == 0 { 0 } else { (width - 1) as nat }).push(hex_digit(n as int % 16))
    }
}

/// Appends `n` in decimal.
pub fn push_decimal(out: &mut String, n: u64)
    ensures
        final(out)@ == old(out)@ + decimal(n as nat),
    decreases n,
{
    if n >= 10 {
        push_decimal(out, n / 10);
    }
    let d: u8 = (n % 10) as u8;
    out.push((0x30 + d) as char);
    assert(out@ =~= old(out)@ + decimal(n as nat));
}

/// `n` in decimal.
pub fn decimal_text(n: u64) -> (out: String)
    ensures
        out@ == decimal(n as nat),
{
    let mut out = String::new();
    push_decimal(&mut out, n);
    assert(out@ =~= decimal(n as nat));
    out
}

/// `i` in decimal, with a minus sign where it is negative.
pub fn signed_decimal_text(i: i64) -> (out: String)
    ensures
        out@ == signed_decimal(i as int),
{
    let mut out = String::new();
    if i < 0 {
        out.push('-');
        let magnitude: u64 = (-(i + 1)) as u64 + 1;
        push_decimal(&mut out, magnitude);
    } else {
        push_decimal(&mut out, i as u64);
    }
    assert(out@ =~= signed_decimal(i as int));
    out
}

/// Appends `n` in upper-case hexadecimal with at least `width` digits.
pub fn push_hex(out: &mut String, n: u64, width: u64)
    ensures
        final(out)@ == old(out)@ + hex(n as nat, width as nat),
    decreases n + width,
{
    if n >= 16 || width > 1 {
        push_hex(out, n / 16, if width == 0 { 0 } else { width - 1 });
    }
    let d: u8 = (n % 16) as u8;
    out.push(if d < 10 { (0x30 + d) as char } else { (0x41 + (d - 10)) as char });
    assert(out@ =~= old(out)@ + hex(n as nat, width as nat));
}

/// `n` in upper-case hexadecimal with at least `width` digits.
pub fn hex_text(n: u64, width: u64) -> (out: String)
    ensures
        out@ == hex(n as nat, width as nat),
{
    let mut out = String::new();
    push_hex(&mut out, n, width);
    assert(out@ =~= hex(n as nat, width as nat));
    out
}

/// The number written with the decimal digits `d`.
pub open spec fn digits_value(d: Seq<char>) -> nat
    decreases d.len(),
{
    if d.len() == 0 {
        0
    } else {
        (10 * digits_value(d.drop_last()) + (d.last() as int - 0x30)) as nat
    }
}

/// Whether `c` is one of `0` to `9`.
pub open spec fn is_digit(c: char) -> bool {
    '0' <= c <= '9'
}

/// The digits of a number text: what follows one optional plus sign.
pub open spec fn unsigned_digits(s: Seq<char>) -> Seq<char> {
    if s.len() > 0 && s[0] == '+' {
        s.skip(1)
    } else {
        s
    }
}

/// The 8-bit number that `s` writes in decimal: at least one digit, nothing else but one
/// optional plus sign in front, and a value that fits.
pub open spec fn parsed_u8(s: Seq<char>) -> Option<u8> {
    let d = unsigned_digits(s);
    if d.len() > 0 && (forall|i: int| 0 <= i < d.len() ==> is_digit(#[trigger] d[i])) && digits_value(d)
        <= 0xFF {
        Some(digits_value(d) as u8)
    } else {
        None
    }
}

/// Reads an 8-bit number written in decimal.
pub fn parse_u8(chars: &[char]) -> (r: Option<u8>)
    ensures
        r == parsed_u8(chars@),
{
    let n: usize = chars.len();
    let start: usize = if n > 0 && chars[0] == '+' { 1 } else { 0 };
    let ghost d = unsigned_digits(chars@);
    if n == start {
        return None;
    }
    let mut i: usize = start;
    let mut value: u32 = 0;
    while i < n
        invariant
            n == chars@.len(),
            start == 0 || start == 1,
            start <= i <= n,
            d == unsigned_digits(chars@),
            d == chars@.skip(start as int),
            forall|j: int| 0 <= j < i - start ==> is_digit(#[trigger] d[j]),
            value <= 0x100,
            value <= 0xFF ==> value == digits_value(d.take(i - start)),
            value > 0xFF ==> digits_value(d.take(i - start)) > 0xFF,
        decreases n - i,
    {
        let c: char = chars[i];
        assert(d[i - start] == c);
        if c < '0' || c > '9' {
            return None;
        }
        let step: u32 = c as u32 - 0x30;
        assert(d.take(i + 1 - start).drop_last() =~= d.take(i - start));
        assert(d.take(i + 1 - start).last() == c);
        value = 10 * value + step;
        if value > 0xFF {
            value = 0x100;
        }
        i += 1;
    }
    assert(d.take(i - start) =~= d);
    if value > 0xFF {
        None
    } else {
        Some(value as u8)
    }
}

proof fn lemma_decimal_digits(n: nat)
    ensures
        decimal(n).len() > 0,
        forall|i: int| 0 <= i < decimal(n).len() ==> is_digit(#[trigger] decimal(n)[i]),
        digits_value(decimal(n)) == n,
    decreases n,
{
    if n < 10 {
        assert(decimal(n).drop_last() =~= Seq::<char>::empty());
        assert(digits_value(Seq::<char>::empty()) == 0);
    } else {
        lemma_decimal_digits(n / 10);
        assert(decimal(n).drop_last() =~= decimal(n / 10));
    }
}

/// A number written in decimal is read back.
pub proof fn law_decimal_is_read_back(n: u8)
    ensures
        parsed_u8(decimal(n as nat)) == Some(n),
{
    lemma_decimal_digits(n as nat);
    let s = decimal(n as nat);
    assert(is_digit(s[0]));
}

// ---- searching, trimming, padding ----

/// Whether `part` occurs in `s` at `at`.
pub open spec fn occurs_at(s: Seq<char>, part: Seq<char>, at: int) -> bool {
    0 <= at && at + part.len() <= s.len() && s.subrange(at, at + part.len()) == part
}

/// Whether `part` occurs in `s`.
pub open spec fn occurs_in(s: Seq<char>, part: Seq<char>) -> bool {
    exists|at: int| #[trigger] occurs_at(s, part, at)
}

/// Whether `part` occurs in `s` at `at`.
pub fn matches_at(s: &[char], part: &[char], at: usize) -> (r: bool)
    requires
        at <= s.len(),
    ensures
        r == occurs_at(s@, part@, at as int),
{
    if part.len() > s.len() - at {
        return false;
    }
    let mut i: usize = 0;
    while i < part.len()
        invariant
            at + part@.len() <= s@.len(),
            i <= part@.len(),
            s@.len() <= usize::MAX,
            forall|j: int| 0 <= j < i ==> s@[at + j] == part@[j],
        decreases part@.len() - i,
    {
        if s[at + i] != part[i] {
            assert(s@.subrange(at as int, at + part@.len())[i as int] == s@[at + i]);
            return false;
        }
        i += 1;
    }
    assert(s@.subrange(at as int, at + part@.len()) =~= part@);
    true
}

/// Whether `part` occurs anywhere in `s`.
pub fn contains_text(s: &str, part: &str) -> (r: bool)
    ensures
        r == occurs_in(s@, part@),
{
    let a: Vec<char> = chars_of(s);
    let b: Vec<char> = chars_of(part);
    let mut at: usize = 0;
    while at < a.len()
        invariant
            a@ == s@,
            b@ == part@,
            at <= a@.len(),
            forall|j: int| 0 <= j < at ==> !occurs_at(s@, part@, j),
        decreases a@.len() - at,
    {
        if matches_at(a.as_slice(), b.as_slice(), at) {
            return true;
        }
        at += 1;
    }
    matches_at(a.as_slice(), b.as_slice(), at)
}

/// Whether `s` begins with `part`.
pub fn starts_with_text(s: &str, part: &str) -> (r: bool)
    ensures
        r == occurs_at(s@, part@, 0),
{
    matches_at(chars_of(s).as_slice(), chars_of(part).as_slice(), 0)
}

/// Whether `s` ends with `part`.
pub fn ends_with_text(s: &str, part: &str) -> (r: bool)
    ensures
        r == occurs_at(s@, part@, s@.len() - part@.len()),
{
    let a: Vec<char> = chars_of(s);
    let b: Vec<char> = chars_of(part);
    if a.len() < b.len() {
        return false;
    }
    matches_at(a.as_slice(), b.as_slice(), a.len() - b.len())
}

/// Whether `c` has the Unicode property White_Space.
pub open spec fn is_space(c: char) -> bool {
    ||| '\u{9}' <= c <= '\u{d}'
    ||| c == '\u{20}'
    ||| c == '\u{85}'
    ||| c == '\u{a0}'
    ||| c == '\u{1680}'
    ||| '\u{2000}' <= c <= '\u{200a}'
    ||| c == '\u{2028}'
    ||| c == '\u{2029}'
    ||| c == '\u{202f}'
    ||| c == '\u{205f}'
    ||| c == '\u{3000}'
}

/// Whether `c` has the Unicode property White_Space.
pub fn space(c: char) -> (r: bool)
    ensures
        r == is_space(c),
{
    ('\u{9}' <= c && c <= '\u{d}') || c == '\u{20}' || c == '\u{85}' || c == '\u{a0}' || c == '\u{1680}'
        || ('\u{2000}' <= c && c <= '\u{200a}') || c == '\u{2028}' || c == '\u{2029}' || c == '\u{202f}'
        || c == '\u{205f}' || c == '\u{3000}'
}

/// `s` without the white space at its start.
pub open spec fn trimmed_start(s: Seq<char>) -> Seq<char>
    decreases s.len(),
{
    if s.len() > 0 && is_space(s[0]) {
        trimmed_start(s.skip(1))
    } else {
        s
    }
}

/// `s` without the characters for which `drop` holds at its end.
pub open spec fn trimmed_end(s: Seq<char>, drop: spec_fn(char) -> bool) -> Seq<char>
    decreases s.len(),
{
    if s.len() > 0 && drop(s.last()) {
        trimmed_end(s.drop_last(), drop)
    } else {
        s
    }
}

/// `s` without the white space at its start and at its end.
pub open spec fn trimmed(s: Seq<char>) -> Seq<char> {
    trimmed_end(trimmed_start(s), |c: char| is_space(c))
}

/// The characters of `s` without the white space at its start and at its end.
pub fn trim(s: &str) -> (out: Vec<char>)
    ensures
        out@ == trimmed(s@),
{
    let a: Vec<char> = chars_of(s);
    let mut from: usize = 0;
    assert(s@.skip(0) =~= s@);
    while from < a.len() && space(a[from])
        invariant
            a@ == s@,
            from <= a@.len(),
            trimmed_start(s@) == trimmed_start(s@.skip(from as int)),
        decreases a@.len() - from,
    {
        assert(s@.skip(from as int).skip(1) =~= s@.skip(from + 1));
        from += 1;
    }
    let ghost head = s@.skip(from as int);
    assert(trimmed_start(s@) == head);
    let mut to: usize = a.len();
    let ghost drop = |c: char| is_space(c);
    assert(head.take(to - from) =~= head);
    while to > from && space(a[to - 1])
        invariant
            a@ == s@,
            from <= to <= a@.len(),
            head == s@.skip(from as int),
            drop == (|c: char| is_space(c)),
            trimmed_end(head, drop) == trimmed_end(head.take(to - from), drop),
        decreases to,
    {
        let ghost t = head.take(to - from);
        assert(t.last() == a@[to - 1]);
        assert(t.drop_last() =~= head.take(to - 1 - from));
        to -= 1;
    }
    proof {
        let t = head.take(to - from);
        if t.len() > 0 {
            assert(t.last() == a@[to - 1]);
        }
        assert(trimmed_end(t, drop) == t);
        assert(t =~= a@.subrange(from as int, to as int));
    }
    let mut out: Vec<char> = Vec::new();
    let mut i: usize = from;
    while i < to
        invariant
            from <= i <= to <= a@.len(),
            out@ == a@.subrange(from as int, i as int),
        decreases to - i,
    {
        out.push(a[i]);
        i += 1;
        assert(out@ =~= a@.subrange(from as int, i as int));
    }
    out
}

/// `s` without the NUL characters at its end.
pub fn trim_end_nul(s: &str) -> (out: String)
    ensures
        out@ == trimmed_end(s@, |c: char| c == '\0'),
{
    let a: Vec<char> = chars_of(s);
    let mut to: usize = a.len();
    let ghost drop = |c: char| c == '\0';
    assert(s@.take(to as int) =~= s@);
    while to > 0 && a[to - 1] == '\0'
        invariant
            a@ == s@,
            to <= a@.len(),
            drop == (|c: char| c == '\0'),
            trimmed_end(s@, drop) == trimmed_end(s@.take(to as int), drop),
        decreases to,
    {
        let ghost t = s@.take(to as int);
        assert(t.last() == a@[to - 1]);
        assert(t.drop_last() =~= s@.take(to - 1));
        to -= 1;
    }
    proof {
        let t = s@.take(to as int);
        if t.len() > 0 {
            assert(t.last() == a@[to - 1]);
        }
        assert(trimmed_end(t, drop) == t);
        assert(t =~= a@.subrange(0, to as int));
    }
    text_of(a.as_slice(), 0, to)
}

/// `n` spaces.
pub open spec fn spaces(n: int) -> Seq<char> {
    Seq::new(if n < 0 { 0 } else { n as nat }, |i: int| ' ')
}

/// `s` filled with spaces on the right to at least `width` characters.
pub open spec fn padded_right(s: Seq<char>, width: int) -> Seq<char> {
    s + spaces(width - s.len())
}

/// `s` filled with spaces on the left to at least `width` characters.
pub open spec fn padded_left(s: Seq<char>, width: int) -> Seq<char> {
    spaces(width - s.len()) + s
}

/// Appends `n` spaces.
pub fn push_spaces(out: &mut String, n: usize)
    ensures
        final(out)@ == old(out)@ + spaces(n as int),
{
    let mut i: usize = 0;
    assert(out@ =~= old(out)@ + spaces(0));
    while i < n
        invariant
            i <= n,
            out@ == old(out)@ + spaces(i as int),
        decreases n - i,
    {
        out.push(' ');
        i += 1;
        assert(out@ =~= old(out)@ + spaces(i as int));
    }
}

/// Appends `s`, filled with spaces on the right to at least `width` characters.
pub fn push_padded_right(out: &mut String, s: &str, width: usize)
    ensures
        final(out)@ == old(out)@ + padded_right(s@, width as int),
{
    let n: usize = s.unicode_len();
    out.append(s);
    if n < width {
        push_spaces(out, width - n);
    } else {
        assert(spaces(width - s@.len()) =~= Seq::<char>::empty());
    }
    assert(out@ =~= old(out)@ + padded_right(s@, width as int));
}

/// Appends `s`, filled with spaces on the left to at least `width` characters.
pub fn push_padded_left(out: &mut String, s: &str, width: usize)
    ensures
        final(out)@ == old(out)@ + padded_left(s@, width as int),
{
    let n: usize = s.unicode_len();
    if n < width {
        push_spaces(out, width - n);
    } else {
        assert(spaces(width - s@.len()) =~= Seq::<char>::empty());
    }
    out.append(s);
    assert(out@ =~= old(out)@ + padded_left(s@, width as int));
}

/// `s` between double quotes.
pub open spec fn quoted(s: Seq<char>) -> Seq<char> {
    seq!['"'] + s + seq!['"']
}

/// `s` between double quotes.
pub fn quote(s: &str) -> (out: String)
    ensures
        out@ == quoted(s@),
{
    let mut out = String::new();
    out.push('"');
    out.append(s);
    out.push('"');
    assert(out@ =~= quoted(s@));
    out
}

// ---- encodings ----

/// What `String::from_utf8_lossy` makes of bytes that are not valid UTF-8.
pub uninterp spec fn utf8_lossy(bytes: Seq<u8>) -> Seq<char>;

/// The text of `bytes`: what they encode in UTF-8, or what is made of them where they are not
/// UTF-8.
pub open spec fn utf8_decoded(bytes: Seq<u8>) -> Seq<char> {
    if valid_utf8(bytes) {
        decode_utf8(bytes)
    } else {
        utf8_lossy(bytes)
    }
}

/// `String::from_utf8_lossy` decodes UTF-8, and puts U+FFFD for what is not UTF-8. On valid
/// UTF-8 the result is the text that the bytes encode. Otherwise it depends on the bytes
/// alone; where the replacement characters stand in it is left unsaid.
#[verifier::external_body]
pub(crate) fn utf8_text(bytes: &[u8]) -> (out: String)
    ensures
        out@ == (if valid_utf8(bytes@) { decode_utf8(bytes@) } else { utf8_lossy(bytes@) }),
{
    String::from_utf8_lossy(bytes).to_string()
}

/// The bytes as characters of the same numbers.
pub open spec fn byte_chars(bytes: Seq<u8>) -> Seq<char> {
    Seq::new(bytes.len(), |i: int| bytes[i] as char)
}

/// ASCII bytes are valid UTF-8 and decode to the characters of the same numbers.
pub proof fn lemma_ascii_decodes(bytes: Seq<u8>)
    requires
        forall|i: int| 0 <= i < bytes.len() ==> #[trigger] bytes[i] < 0x80,
    ensures
        valid_utf8(bytes),
        decode_utf8(bytes) == byte_chars(bytes),
{
    let chars = byte_chars(bytes);
    assert(is_ascii_chars(chars)) by {
        assert forall|i: int| 0 <= i < chars.len() implies '\0' <= #[trigger] chars[i] <= '\u{7f}' by {
            assert(bytes[i] < 0x80);
        }
    }
    is_ascii_chars_encode_utf8(chars);
    assert(encode_utf8(chars) =~= bytes);
    encode_utf8_decode_utf8(chars);
    encode_utf8_valid_utf8(chars);
}

/// Whether `u` is one half of a surrogate pair.
pub open spec fn is_surrogate(u: u16) -> bool {
    0xD800 <= u <= 0xDFFF
}

/// Whether `hi` and `lo` together encode one character.
pub open spec fn is_surrogate_pair(hi: u16, lo: u16) -> bool {
    0xD800 <= hi <= 0xDBFF && 0xDC00 <= lo <= 0xDFFF
}

/// The text that `units` encode in UTF-16, with U+FFFD for each unpaired surrogate.
pub open spec fn utf16_decoded(units: Seq<u16>) -> Seq<char>
    decreases units.len(),
{
    if units.len() == 0 {
        Seq::empty()
    } else if !is_surrogate(units[0]) {
        seq![units[0] as char] + utf16_decoded(units.skip(1))
    } else if units.len() >= 2 && is_surrogate_pair(units[0], units[1]) {
        seq![(0x1_0000 + 0x400 * (units[0] - 0xD800) + (units[1] - 0xDC00)) as char] + utf16_decoded(
            units.skip(2),
        )
    } else {
        seq!['\u{fffd}'] + utf16_decoded(units.skip(1))
    }
}

/// `String::from_utf16_lossy` decodes UTF-16 and puts U+FFFD for each unpaired surrogate.
#[verifier::external_body]
pub(crate) fn utf16_text(units: &[u16]) -> (out: String)
    ensures
        out@ == utf16_decoded(units@),
{
    String::from_utf16_lossy(units)
}

/// The UTF-16 units of one character.
pub open spec fn utf16_units(c: char) -> Seq<u16> {
    if (c as int) < 0x1_0000 {
        seq![c as u16]
    } else {
        seq![
            (0xD800 + (c as int - 0x1_0000) / 0x400) as u16,
            (0xDC00 + (c as int - 0x1_0000) % 0x400) as u16,
        ]
    }
}

/// `s` in UTF-16.
pub open spec fn utf16_encoded(s: Seq<char>) -> Seq<u16>
    decreases s.len(),
{
    if s.len() == 0 {
        Seq::empty()
    } else {
        utf16_encoded(s.drop_last()) + utf16_units(s.last())
    }
}

/// The number of a character.
pub fn code_point(c: char) -> (r: u32)
    ensures
        r == c as int,
        r <= 0x10_FFFF,
        !(0xD800 <= r <= 0xDFFF),
{
    c as u32
}

/// `s` in UTF-16 with a NUL at its end, as the system's wide-character calls take it.
pub fn wide_nul(s: &str) -> (out: Vec<u16>)
    ensures
        out@ == utf16_encoded(s@).push(0),
{
    let a: Vec<char> = chars_of(s);
    let mut out: Vec<u16> = Vec::new();
    let mut i: usize = 0;
    assert(a@.take(0) =~= Seq::<char>::empty());
    while i < a.len()
        invariant
            a@ == s@,
            i <= a@.len(),
            out@ == utf16_encoded(a@.take(i as int)),
        decreases a@.len() - i,
    {
        let ch: char = a[i];
        let c: u32 = code_point(ch);
        let ghost before = out@;
        if c < 0x1_0000 {
            out.push(c as u16);
        } else {
            out.push((0xD800 + (c - 0x1_0000) / 0x400) as u16);
            out.push((0xDC00 + (c - 0x1_0000) % 0x400) as u16);
        }
        assert(a@.take(i + 1).drop_last() =~= a@.take(i as int));
        assert(out@ =~= before + utf16_units(ch));
        i += 1;
    }
    assert(a@.take(i as int) =~= s@);
    out.push(0);
    out
}

proof fn lemma_utf16_decode_append(c: char, rest: Seq<u16>)
    ensures
        utf16_decoded(utf16_units(c) + rest) == seq![c] + utf16_decoded(rest),
{
    let u = utf16_units(c) + rest;
    if (c as int) < 0x1_0000 {
        assert(u.skip(1) =~= rest);
    } else {
        assert(u.skip(2) =~= rest);
    }
}

proof fn lemma_utf16_round_trip(s: Seq<char>, rest: Seq<u16>)
    ensures
        utf16_decoded(utf16_encoded(s) + rest) == s + utf16_decoded(rest),
    decreases s.len(),
{
    if s.len() == 0 {
        assert(utf16_encoded(s) + rest =~= rest);
        assert(s + utf16_decoded(rest) =~= utf16_decoded(rest));
    } else {
        lemma_utf16_decode_append(s.last(), rest);
        lemma_utf16_round_trip(s.drop_last(), utf16_units(s.last()) + rest);
        assert(utf16_encoded(s) + rest =~= utf16_encoded(s.drop_last()) + (utf16_units(s.last()) + rest));
        assert(s + utf16_decoded(rest) =~= s.drop_last() + (seq![s.last()] + utf16_decoded(rest)));
    }
}

/// Text written in UTF-16 is read back.
pub proof fn law_utf16_round_trip(s: Seq<char>)
    ensures
        utf16_decoded(utf16_encoded(s)) == s,
{
    lemma_utf16_round_trip(s, Seq::empty());
    assert(utf16_encoded(s) + Seq::<u16>::empty() =~= utf16_encoded(s));
    assert(s + utf16_decoded(Seq::empty()) =~= s);
}

/// The units of `units` before the first NUL, or all of them where there is none.
pub open spec fn until_nul(units: Seq<u16>) -> Seq<u16>
    decreases units.len(),
{
    if units.len() == 0 || units[0] == 0 {
        Seq::empty()
    } else {
        seq![units[0]] + until_nul(units.skip(1))
    }
}

/// The text in a fixed-size UTF-16 field: up to the first NUL, or the whole field.
pub fn field_text(units: &[u16]) -> (out: String)
    ensures
        out@ == utf16_decoded(until_nul(units@)),
{
    let mut n: usize = 0;
    let mut taken: Vec<u16> = Vec::new();
    assert(units@.skip(0) =~= units@);
    while n < units.len() && units[n] != 0
        invariant
            n <= units@.len(),
            taken@ == units@.take(n as int),
            until_nul(units@) == units@.take(n as int) + until_nul(units@.skip(n as int)),
        decreases units@.len() - n,
    {
        taken.push(units[n]);
        assert(units@.skip(n as int).skip(1) =~= units@.skip(n + 1));
        assert(units@.take(n as int) + (seq![units@[n as int]] + until_nul(units@.skip(n + 1)))
            =~= units@.take(n + 1) + until_nul(units@.skip(n + 1)));
        assert(taken@ =~= units@.take(n + 1));
        n += 1;
    }
    assert(until_nul(units@.skip(n as int)) =~= Seq::<u16>::empty());
    assert(until_nul(units@) =~= taken@);
    utf16_text(taken.as_slice())
}

/// What `str::to_lowercase` makes of a text that is not ASCII.
pub uninterp spec fn unicode_lower(s: Seq<char>) -> Seq<char>;

/// An ASCII letter in lower case; every other character as it is.
pub open spec fn ascii_lower(c: char) -> char {
    if 'A' <= c <= 'Z' {
        (c as int + 0x20) as char
    } else {
        c
    }
}

/// `s` in lower case.
pub open spec fn lower(s: Seq<char>) -> Seq<char> {
    if is_ascii_chars(s) {
        s.map_values(|c: char| ascii_lower(c))
    } else {
        unicode_lower(s)
    }
}

/// `str::to_lowercase` maps a text to lower case after Unicode. On ASCII text it maps each
/// letter by itself. Otherwise the result depends on the text alone; what it is is left
/// unsaid.
#[verifier::external_body]
pub(crate) fn lower_text(s: &str) -> (out: String)
    ensures
        out@ == (if is_ascii_chars(s@) {
            s@.map_values(|c: char| ascii_lower(c))
        } else {
            unicode_lower(s@)
        }),
{
    s.to_lowercase()
}

// ---- laws ----

/// A number in decimal is made of the digits from 0 to 9, begins with 0 only where it is zero,
/// and has the number's value.
pub proof fn law_decimal_is_the_number(n: nat)
    ensures
        decimal(n).len() > 0,
        forall|i: int| 0 <= i < decimal(n).len() ==> '0' <= #[trigger] decimal(n)[i] <= '9',
        n > 0 ==> decimal(n)[0] != '0',
        n == 0 ==> decimal(n) == seq!['0'],
        digits_value(decimal(n)) == n,
    decreases n,
{
    lemma_decimal_digits(n);
    assert forall|i: int| 0 <= i < decimal(n).len() implies '0' <= #[trigger] decimal(n)[i] <= '9' by {
        assert(is_digit(decimal(n)[i]));
    }
    if n >= 10 {
        law_decimal_is_the_number(n / 10);
        assert(decimal(n)[0] == decimal(n / 10)[0]);
    }
}

/// Each digit counts ten times as much as the one behind it.
pub proof fn law_digits_count_by_place(s: Seq<char>, c: char)
    requires
        '0' <= c <= '9',
    ensures
        digits_value(Seq::<char>::empty()) == 0,
        digits_value(s.push(c)) == 10 * digits_value(s) + (c as int - '0' as int),
{
    assert(s.push(c).drop_last() =~= s);
}

/// A negative number is the positive one behind a minus sign.
pub proof fn law_minus_sign(n: nat)
    ensures
        signed_decimal(n as int) == decimal(n),
        n > 0 ==> signed_decimal(-n) == seq!['-'] + decimal(n),
{
}

/// The value of a hexadecimal digit.
pub open spec fn hex_digit_value(c: char) -> int {
    if '0' <= c <= '9' {
        c as int - '0' as int
    } else {
        c as int - 'A' as int + 10
    }
}

/// The value of hexadecimal digits.
pub open spec fn hex_value(s: Seq<char>) -> int
    decreases s.len(),
{
    if s.len() == 0 {
        0
    } else {
        16 * hex_value(s.drop_last()) + hex_digit_value(s.last())
    }
}

/// A number in hexadecimal is made of the digits 0 to 9 and A to F and has the number's value. It
/// has as many digits as it is to have at least, and more only where it needs them.
pub proof fn law_hex_is_the_number(n: nat, width: nat)
    ensures
        hex(n, width).len() >= 1,
        hex(n, width).len() >= width,
        hex(n, width).len() > width && hex(n, width).len() > 1 ==> hex(n, width)[0] != '0',
        forall|i: int|
            0 <= i < hex(n, width).len() ==> '0' <= #[trigger] hex(n, width)[i] <= '9' || 'A' <= hex(
                n,
                width,
            )[i] <= 'F',
        hex_value(hex(n, width)) == n,
    decreases n + width,
{
    let s = hex(n, width);
    if n < 16 && width <= 1 {
        assert(s.drop_last() =~= Seq::<char>::empty());
        assert(hex_value(s.drop_last()) == 0);
    } else {
        let less = if width == 0 { 0 } else { (width - 1) as nat };
        law_hex_is_the_number(n / 16, less);
        let front = hex(n / 16, less);
        assert(s.drop_last() =~= front);
        assert(s[0] == front[0]);
        assert forall|i: int| 0 <= i < s.len() implies '0' <= #[trigger] s[i] <= '9' || 'A' <= s[i] <= 'F' by {
            if i < front.len() {
                assert(s[i] == front[i]);
            }
        }
        if s.len() > width && front.len() == 1 {
            lemma_one_hex_digit(n / 16, less);
        }
    }
}

proof fn lemma_one_hex_digit(n: nat, width: nat)
    requires
        hex(n, width).len() == 1,
    ensures
        n < 16,
        width <= 1,
        hex(n, width) == seq![hex_digit(n as int)],
{
    if !(n < 16 && width <= 1) {
        let less = if width == 0 { 0 } else { (width - 1) as nat };
        assert(hex(n / 16, less).len() >= 1);
    }
}

/// A text is a number from 0 to 255 exactly if it is made of one or more digits, perhaps behind a
/// plus sign, that have this value.
pub proof fn law_numbers_are_parsed(s: Seq<char>, d: Seq<char>, n: u8)
    ensures
        d.len() > 0 && (forall|i: int| 0 <= i < d.len() ==> '0' <= #[trigger] d[i] <= '9') && (s == d || s
            == seq!['+'] + d) ==> parsed_u8(s) == (if digits_value(d) <= 255 {
            Some(digits_value(d) as u8)
        } else {
            None
        }),
        parsed_u8(s) == Some(n) ==> {
            let rest = if s.len() > 0 && s[0] == '+' { s.subrange(1, s.len() as int) } else { s };
            &&& rest.len() > 0
            &&& forall|i: int| s.len() - rest.len() <= i < s.len() ==> '0' <= #[trigger] s[i] <= '9'
            &&& digits_value(rest) == n
        },
{
    if d.len() > 0 && (forall|i: int| 0 <= i < d.len() ==> '0' <= #[trigger] d[i] <= '9') && (s == d || s
        == seq!['+'] + d) {
        if s == d {
            assert('0' <= d[0] <= '9');
            assert(s[0] != '+');
        } else {
            assert(s.skip(1) =~= d);
        }
        assert(unsigned_digits(s) == d);
        assert(forall|i: int| 0 <= i < d.len() ==> is_digit(#[trigger] d[i]));
    }
    if parsed_u8(s) == Some(n) {
        let rest = if s.len() > 0 && s[0] == '+' { s.subrange(1, s.len() as int) } else { s };
        assert(rest =~= unsigned_digits(s));
        assert forall|i: int| s.len() - rest.len() <= i < s.len() implies '0' <= #[trigger] s[i] <= '9' by {
            assert(is_digit(unsigned_digits(s)[i - (s.len() - rest.len())]));
        }
    }
}

/// A part occurs in a text exactly if the text is made of something, the part, and something.
pub proof fn law_parts_occur(s: Seq<char>, part: Seq<char>, front: Seq<char>, back: Seq<char>)
    ensures
        s == front + part + back ==> occurs_in(s, part) && occurs_at(s, part, front.len() as int),
        occurs_in(s, part) ==> exists|f: Seq<char>, b: Seq<char>| s == #[trigger] (f + part + b),
{
    if s == front + part + back {
        assert(s.subrange(front.len() as int, (front.len() + part.len()) as int) =~= part);
        assert(occurs_at(s, part, front.len() as int));
    }
    if occurs_in(s, part) {
        let at = choose|at: int| #[trigger] occurs_at(s, part, at);
        let f = s.take(at);
        let b = s.skip(at + part.len());
        assert(s =~= f + part + b);
    }
}

/// The white space of Unicode, by its numbers.
pub proof fn law_white_space(c: char)
    ensures
        is_space(c) <==> {
            let n = c as int;
            9 <= n <= 13 || n == 0x20 || n == 0x85 || n == 0xA0 || n == 0x1680 || 0x2000 <= n <= 0x200A || n
                == 0x2028 || n == 0x2029 || n == 0x202F || n == 0x205F || n == 0x3000
        },
{
}

proof fn lemma_trimmed_start(s: Seq<char>) -> (n: int)
    ensures
        0 <= n <= s.len(),
        trimmed_start(s) == s.subrange(n, s.len() as int),
        forall|i: int| 0 <= i < n ==> is_space(#[trigger] s[i]),
        n < s.len() ==> !is_space(s[n]),
    decreases s.len(),
{
    if s.len() > 0 && is_space(s[0]) {
        let n = lemma_trimmed_start(s.skip(1));
        assert(s.skip(1).subrange(n, s.len() - 1) =~= s.subrange(n + 1, s.len() as int));
        assert forall|i: int| 0 <= i < n + 1 implies is_space(#[trigger] s[i]) by {
            if i > 0 {
                assert(s.skip(1)[i - 1] == s[i]);
            }
        }
        n + 1
    } else {
        assert(s.subrange(0, s.len() as int) =~= s);
        0
    }
}

/// What is dropped at the end is all that is to be, and nothing else.
pub proof fn law_end_is_trimmed(s: Seq<char>, drop: spec_fn(char) -> bool) -> (n: int)
    ensures
        0 <= n <= s.len(),
        trimmed_end(s, drop) == s.subrange(0, n),
        forall|i: int| n <= i < s.len() ==> drop(#[trigger] s[i]),
        n > 0 ==> !drop(s[n - 1]),
    decreases s.len(),
{
    if s.len() > 0 && drop(s.last()) {
        let n = law_end_is_trimmed(s.drop_last(), drop);
        assert(s.drop_last().subrange(0, n) =~= s.subrange(0, n));
        assert forall|i: int| n <= i < s.len() implies drop(#[trigger] s[i]) by {
            if i < s.len() - 1 {
                assert(s.drop_last()[i] == s[i]);
            }
        }
        n
    } else {
        assert(s.subrange(0, s.len() as int) =~= s);
        s.len() as int
    }
}

/// Trimming takes white space away at both ends, all of it and nothing else: what is left is what
/// stood between, and neither begins nor ends with white space.
pub proof fn law_trimming(s: Seq<char>) -> (ends: (int, int))
    ensures
        0 <= ends.0 <= ends.1 <= s.len(),
        trimmed(s) == s.subrange(ends.0, ends.1),
        forall|i: int| 0 <= i < ends.0 || ends.1 <= i < s.len() ==> is_space(#[trigger] s[i]),
        ends.0 < ends.1 ==> !is_space(s[ends.0]) && !is_space(s[ends.1 - 1]),
{
    let drop = |c: char| is_space(c);
    let a = lemma_trimmed_start(s);
    let rest = trimmed_start(s);
    let n = law_end_is_trimmed(rest, drop);
    assert(rest.subrange(0, n) =~= s.subrange(a, a + n));
    assert forall|i: int| 0 <= i < a || a + n <= i < s.len() implies is_space(#[trigger] s[i]) by {
        if i >= a {
            assert(rest[i - a] == s[i]);
            assert(drop(rest[i - a]));
        }
    }
    (a, a + n)
}

/// A text that has no white space at its ends stays as it is.
pub proof fn law_trimmed_text_stays(s: Seq<char>)
    requires
        s.len() > 0,
        !is_space(s[0]),
        !is_space(s[s.len() - 1]),
    ensures
        trimmed(s) == s,
{
}

/// Padding adds spaces, on one side and only up to the width.
pub proof fn law_padding(s: Seq<char>, width: int)
    ensures
        ({
            let len = if s.len() < width { width } else { s.len() as int };
            let right = padded_right(s, width);
            let left = padded_left(s, width);
            &&& right.len() == len
            &&& left.len() == len
            &&& right.subrange(0, s.len() as int) == s
            &&& left.subrange(len - s.len(), len) == s
            &&& forall|i: int| s.len() <= i < len ==> #[trigger] right[i] == ' '
            &&& forall|i: int| 0 <= i < len - s.len() ==> #[trigger] left[i] == ' '
        }),
{
    let len = if s.len() < width { width } else { s.len() as int };
    assert(padded_right(s, width).subrange(0, s.len() as int) =~= s);
    assert(padded_left(s, width).subrange(len - s.len(), len) =~= s);
}

/// In lower case each of the letters from A to Z becomes the one 32 places behind it, and other
/// ASCII characters stay.
pub proof fn law_lower_case(s: Seq<char>)
    requires
        is_ascii_chars(s),
    ensures
        lower(s).len() == s.len(),
        forall|i: int|
            0 <= i < s.len() ==> (#[trigger] lower(s)[i]) as int == (if 'A' <= s[i] <= 'Z' {
                s[i] as int + 32
            } else {
                s[i] as int
            }),
        lower(lower(s)) == lower(s),
{
    assert(is_ascii_chars(lower(s)));
    assert(lower(lower(s)) =~= lower(s));
}

/// What stands in front of the first zero: it holds none, and behind it comes one or nothing.
pub proof fn law_text_ends_at_the_first_zero(units: Seq<u16>)
    ensures
        ({
            let s = until_nul(units);
            &&& s.len() <= units.len()
            &&& s == units.subrange(0, s.len() as int)
            &&& forall|i: int| 0 <= i < s.len() ==> #[trigger] units[i] != 0
            &&& s.len() < units.len() ==> units[s.len() as int] == 0
        }),
    decreases units.len(),
{
    let s = until_nul(units);
    if units.len() == 0 || units[0] == 0 {
        assert(s =~= units.subrange(0, 0));
    } else {
        let rest = units.skip(1);
        law_text_ends_at_the_first_zero(rest);
        assert(s =~= units.subrange(0, s.len() as int));
        assert forall|i: int| 0 <= i < s.len() implies #[trigger] units[i] != 0 by {
            if i > 0 {
                assert(rest[i - 1] == units[i]);
            }
        }
        if s.len() < units.len() {
            assert(rest[s.len() - 1] == units[s.len() as int]);
        }
    }
}

/// A unit outside 0xD800 to 0xDFFF is a character by itself, a high surrogate with a low one
/// behind it is one together, and every other surrogate stands for U+FFFD.
pub proof fn law_utf16_is_read_unit_by_unit(unit: u16, next: u16, rest: Seq<u16>)
    ensures
        !(0xD800 <= unit <= 0xDFFF) ==> utf16_decoded(seq![unit] + rest) == seq![unit as char]
            + utf16_decoded(rest),
        0xD800 <= unit <= 0xDBFF && 0xDC00 <= next <= 0xDFFF ==> utf16_decoded(seq![unit, next] + rest)
            == seq![(0x1_0000 + 0x400 * (unit - 0xD800) + (next - 0xDC00)) as char] + utf16_decoded(rest),
        0xDC00 <= unit <= 0xDFFF ==> utf16_decoded(seq![unit] + rest) == seq!['\u{fffd}'] + utf16_decoded(
            rest,
        ),
        0xD800 <= unit <= 0xDBFF && !(0xDC00 <= next <= 0xDFFF) ==> utf16_decoded(seq![unit, next] + rest)
            == seq!['\u{fffd}'] + utf16_decoded(seq![next] + rest),
        0xD800 <= unit <= 0xDBFF ==> utf16_decoded(seq![unit]) == seq!['\u{fffd}'],
{
    assert((seq![unit] + rest).skip(1) =~= rest);
    assert((seq![unit, next] + rest).skip(2) =~= rest);
    assert((seq![unit, next] + rest).skip(1) =~= seq![next] + rest);
    assert(seq![unit].skip(1) =~= Seq::<u16>::empty());
    assert(utf16_decoded(Seq::<u16>::empty()) =~= Seq::<char>::empty());
}

} // verus!
