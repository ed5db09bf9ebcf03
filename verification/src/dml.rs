//! DML: the fields of a message, decoded by its schema, or whatever text is in the bytes.

use vstd::prelude::*;
use vstd::string::*;
use vstd::slice::slice_subrange;
use crate::bytes;
use crate::bytes::{copy_range, read_u16, read_u32, read_u64};
use crate::schema;
use crate::schema::{DmlMessageDef, SchemaRegistry};
use crate::text;
use crate::text::{
    decimal_text, hex_text, push_decimal, quote, same_text, signed_decimal_text, utf16_text, utf8_text,
};

verus! {

broadcast use bytes::group_le_bytes_len;

/// The value of a decoded field.
#[derive(Debug, Clone)]
pub enum FieldValue {
    /// A value that is shown as this text.
    Text(String),
    /// A single-precision number, by its bits. It is shown with four decimal places.
    Float { bits32: u32 },
    /// A double-precision number, by its bits. It is shown with four decimal places.
    Double { bits64: u64 },
}

/// A decoded DML field value.
#[derive(Debug, Clone)]
pub struct DecodedField {
    pub name: String,
    pub field_type: String,
    pub value: FieldValue,
    pub raw_bytes: Vec<u8>,
}

/// A fully decoded DML message.
#[derive(Debug, Clone)]
pub struct DecodedMessage {
    pub service_name: String,
    pub message_name: String,
    pub fields: Vec<DecodedField>,
}

// ---- the model ----

/// A field value as values.
#[verifier::ext_equal]
pub enum FieldValueView {
    Text(Seq<char>),
    Float { bits32: u32 },
    Double { bits64: u64 },
}

/// A decoded field as values.
#[verifier::ext_equal]
pub struct DecodedFieldView {
    pub name: Seq<char>,
    pub field_type: Seq<char>,
    pub value: FieldValueView,
    pub raw_bytes: Seq<u8>,
}

/// A decoded message as values.
#[verifier::ext_equal]
pub struct DecodedMessageView {
    pub service_name: Seq<char>,
    pub message_name: Seq<char>,
    pub fields: Seq<DecodedFieldView>,
}

impl View for FieldValue {
    type V = FieldValueView;

    open spec fn view(&self) -> FieldValueView {
        match self {
            FieldValue::Text(s) => FieldValueView::Text(s@),
            FieldValue::Float { bits32 } => FieldValueView::Float { bits32: *bits32 },
            FieldValue::Double { bits64 } => FieldValueView::Double { bits64: *bits64 },
        }
    }
}

impl View for DecodedField {
    type V = DecodedFieldView;

    open spec fn view(&self) -> DecodedFieldView {
        DecodedFieldView {
            name: self.name@,
            field_type: self.field_type@,
            value: self.value@,
            raw_bytes: self.raw_bytes@,
        }
    }
}

/// Decoded fields as values.
pub open spec fn decoded_views(fields: Seq<DecodedField>) -> Seq<DecodedFieldView> {
    Seq::new(fields.len(), |i: int| fields[i]@)
}

impl View for DecodedMessage {
    type V = DecodedMessageView;

    open spec fn view(&self) -> DecodedMessageView {
        DecodedMessageView {
            service_name: self.service_name@,
            message_name: self.message_name@,
            fields: decoded_views(self.fields@),
        }
    }
}

// ---- single fields ----

/// How a field is written.
#[derive(Debug, Clone, Copy, PartialEq, Eq, Structural)]
pub enum FieldKind {
    Byte,
    Short,
    UnsignedShort,
    Int,
    UnsignedInt,
    Float,
    Double,
    Str,
    WideStr,
    Id,
    Other,
}

/// How fields of this type are written.
pub open spec fn kind_of(field_type: Seq<char>) -> FieldKind {
    if field_type == "BYT"@ || field_type == "UBYT"@ {
        FieldKind::Byte
    } else if field_type == "SHRT"@ {
        FieldKind::Short
    } else if field_type == "USHRT"@ {
        FieldKind::UnsignedShort
    } else if field_type == "INT"@ {
        FieldKind::Int
    } else if field_type == "UINT"@ {
        FieldKind::UnsignedInt
    } else if field_type == "FLT"@ {
        FieldKind::Float
    } else if field_type == "DBL"@ {
        FieldKind::Double
    } else if field_type == "STR"@ {
        FieldKind::Str
    } else if field_type == "WSTR"@ {
        FieldKind::WideStr
    } else if field_type == "GID"@ || field_type == "UINT64"@ {
        FieldKind::Id
    } else {
        FieldKind::Other
    }
}

/// The bytes that a field takes at the start of `data`. Texts begin with their length, which
/// counts bytes or, in wide texts, two-byte units.
pub open spec fn wire_size(kind: FieldKind, data: Seq<u8>) -> int {
    match kind {
        FieldKind::Byte | FieldKind::Other => 1,
        FieldKind::Short | FieldKind::UnsignedShort => 2,
        FieldKind::Int | FieldKind::UnsignedInt | FieldKind::Float => 4,
        FieldKind::Double | FieldKind::Id => 8,
        FieldKind::Str => if data.len() < 2 { 2 } else { 2 + bytes::le16(data, 0) },
        FieldKind::WideStr => if data.len() < 2 { 2 } else { 2 + 2 * bytes::le16(data, 0) },
    }
}

/// The two-byte units that start at `from`.
pub open spec fn units_at(data: Seq<u8>, from: int, count: nat) -> Seq<u16> {
    Seq::new(count, |i: int| bytes::le16(data, from + 2 * i) as u16)
}

/// The value of a field that is all there.
pub open spec fn field_value(kind: FieldKind, data: Seq<u8>) -> FieldValueView {
    match kind {
        FieldKind::Byte => FieldValueView::Text(text::decimal(data[0] as nat)),
        FieldKind::Short => FieldValueView::Text(
            text::signed_decimal(bytes::signed(bytes::le16(data, 0), 0x8000)),
        ),
        FieldKind::UnsignedShort => FieldValueView::Text(text::decimal(bytes::le16(data, 0) as nat)),
        FieldKind::Int => FieldValueView::Text(
            text::signed_decimal(bytes::signed(bytes::le32(data, 0), 0x8000_0000)),
        ),
        FieldKind::UnsignedInt => FieldValueView::Text(text::decimal(bytes::le32(data, 0) as nat)),
        FieldKind::Float => FieldValueView::Float { bits32: bytes::le32(data, 0) as u32 },
        FieldKind::Double => FieldValueView::Double { bits64: bytes::le64(data, 0) as u64 },
        FieldKind::Str => FieldValueView::Text(
            text::quoted(text::utf8_decoded(data.subrange(2, wire_size(kind, data)))),
        ),
        FieldKind::WideStr => FieldValueView::Text(
            text::quoted(text::utf16_decoded(units_at(data, 2, bytes::le16(data, 0) as nat))),
        ),
        FieldKind::Id => FieldValueView::Text(seq!['0', 'x'] + text::hex(bytes::le64(data, 0) as nat, 16)),
        FieldKind::Other => FieldValueView::Text(seq!['0', 'x'] + text::hex(data[0] as nat, 2)),
    }
}

/// Whether a field of this type is all there at the start of `data`.
pub open spec fn field_is_whole(field_type: Seq<char>, data: Seq<u8>) -> bool {
    data.len() >= wire_size(kind_of(field_type), data)
}

/// The value of a field at the start of `data`: a question mark where it is not all there.
pub open spec fn read_value(field_type: Seq<char>, data: Seq<u8>) -> FieldValueView {
    if field_is_whole(field_type, data) {
        field_value(kind_of(field_type), data)
    } else {
        FieldValueView::Text(seq!['?'])
    }
}

/// The bytes that reading a field uses up: none where it is not all there.
pub open spec fn read_size(field_type: Seq<char>, data: Seq<u8>) -> int {
    if field_is_whole(field_type, data) {
        wire_size(kind_of(field_type), data)
    } else {
        0
    }
}

/// How fields of this type are written.
pub fn field_kind(field_type: &str) -> (kind: FieldKind)
    ensures
        kind == kind_of(field_type@),
{
    if same_text(field_type, "BYT") || same_text(field_type, "UBYT") {
        FieldKind::Byte
    } else if same_text(field_type, "SHRT") {
        FieldKind::Short
    } else if same_text(field_type, "USHRT") {
        FieldKind::UnsignedShort
    } else if same_text(field_type, "INT") {
        FieldKind::Int
    } else if same_text(field_type, "UINT") {
        FieldKind::UnsignedInt
    } else if same_text(field_type, "FLT") {
        FieldKind::Float
    } else if same_text(field_type, "DBL") {
        FieldKind::Double
    } else if same_text(field_type, "STR") {
        FieldKind::Str
    } else if same_text(field_type, "WSTR") {
        FieldKind::WideStr
    } else if same_text(field_type, "GID") || same_text(field_type, "UINT64") {
        FieldKind::Id
    } else {
        FieldKind::Other
    }
}

/// The two-byte units that start at `from`.
fn read_units(data: &[u8], from: usize, count: usize) -> (units: Vec<u16>)
    requires
        from + 2 * count <= data.len(),
    ensures
        units@ == units_at(data@, from as int, count as nat),
{
    let mut units: Vec<u16> = Vec::new();
    let mut i: usize = 0;
    while i < count
        invariant
            i <= count,
            from + 2 * count <= data.len(),
            units@ == units_at(data@, from as int, i as nat),
        decreases count - i,
    {
        units.push(read_u16(data, from + 2 * i));
        i += 1;
        assert(units@ =~= units_at(data@, from as int, i as nat));
    }
    units
}

/// A number as `0x` and at least `width` hexadecimal digits.
fn prefixed_hex(n: u64, width: u64) -> (out: String)
    ensures
        out@ == seq!['0', 'x'] + text::hex(n as nat, width as nat),
{
    let mut out = String::new();
    out.push('0');
    out.push('x');
    let digits: String = hex_text(n, width);
    out.append(digits.as_str());
    assert(out@ =~= seq!['0', 'x'] + text::hex(n as nat, width as nat));
    out
}

/// The bytes that a field takes at the start of `data`.
fn field_size(kind: FieldKind, data: &[u8]) -> (size: usize)
    ensures
        size == wire_size(kind, data@),
{
    match kind {
        FieldKind::Byte | FieldKind::Other => 1,
        FieldKind::Short | FieldKind::UnsignedShort => 2,
        FieldKind::Int | FieldKind::UnsignedInt | FieldKind::Float => 4,
        FieldKind::Double | FieldKind::Id => 8,
        FieldKind::Str => if data.len() < 2 {
            2
        } else {
            2 + read_u16(data, 0) as usize
        },
        FieldKind::WideStr => if data.len() < 2 {
            2
        } else {
            2 + 2 * (read_u16(data, 0) as usize)
        },
    }
}

/// Reads a single DML field from the byte slice, returning (value, bytes_consumed, raw_bytes).
pub fn read_field(data: &[u8], field_type: &str) -> (r: (FieldValue, usize, Vec<u8>))
    ensures
        r.0@ == read_value(field_type@, data@),
        r.1 == read_size(field_type@, data@),
        r.2@ == data@.take(r.1 as int),
        r.1 <= data@.len(),
{
    let kind: FieldKind = field_kind(field_type);
    let size: usize = field_size(kind, data);
    if data.len() < size {
        let mut unknown = String::new();
        unknown.push('?');
        assert(unknown@ =~= seq!['?']);
        let none: Vec<u8> = Vec::new();
        assert(none@ =~= data@.take(0));
        return (FieldValue::Text(unknown), 0, none);
    }
    let value = match kind {
        FieldKind::Byte => FieldValue::Text(decimal_text(data[0] as u64)),
        FieldKind::Short => {
            let v: u16 = read_u16(data, 0);
            FieldValue::Text(
                signed_decimal_text(if v < 0x8000 { v as i64 } else { v as i64 - 0x1_0000 }),
            )
        },
        FieldKind::UnsignedShort => FieldValue::Text(decimal_text(read_u16(data, 0) as u64)),
        FieldKind::Int => {
            let v: u32 = read_u32(data, 0);
            FieldValue::Text(
                signed_decimal_text(if v < 0x8000_0000 { v as i64 } else { v as i64 - 0x1_0000_0000 }),
            )
        },
        FieldKind::UnsignedInt => FieldValue::Text(decimal_text(read_u32(data, 0) as u64)),
        FieldKind::Float => FieldValue::Float { bits32: read_u32(data, 0) },
        FieldKind::Double => FieldValue::Double { bits64: read_u64(data, 0) },
        FieldKind::Str => {
            let s: String = utf8_text(slice_subrange(data, 2, size));
            FieldValue::Text(quote(s.as_str()))
        },
        FieldKind::WideStr => {
            let units: Vec<u16> = read_units(data, 2, read_u16(data, 0) as usize);
            let s: String = utf16_text(units.as_slice());
            FieldValue::Text(quote(s.as_str()))
        },
        FieldKind::Id => FieldValue::Text(prefixed_hex(read_u64(data, 0), 16)),
        FieldKind::Other => FieldValue::Text(prefixed_hex(data[0] as u64, 2)),
    };
    let raw_bytes: Vec<u8> = copy_range(data, 0, size);
    assert(raw_bytes@ =~= data@.take(size as int));
    (value, size, raw_bytes)
}

// ---- all fields of a message ----

/// The fields of `data` after these definitions. Fields behind the end of the data are left
/// out; one that is not all there is shown as unknown and uses up nothing.
pub open spec fn decoded_fields(
    data: Seq<u8>,
    defs: Seq<schema::DmlFieldView>,
) -> Seq<DecodedFieldView>
    decreases defs.len(),
{
    if defs.len() == 0 || data.len() == 0 {
        Seq::empty()
    } else {
        let size = read_size(defs[0].field_type, data);
        let field = DecodedFieldView {
            name: defs[0].name,
            field_type: defs[0].field_type,
            value: read_value(defs[0].field_type, data),
            raw_bytes: data.take(size),
        };
        seq![field] + decoded_fields(data.skip(size), defs.skip(1))
    }
}

/// Decodes the fields of a message by its definition.
pub fn decode_fields(data: &[u8], msg_def: &DmlMessageDef) -> (fields: Vec<DecodedField>)
    ensures
        decoded_views(fields@) == decoded_fields(data@, schema::field_views(msg_def.fields@)),
{
    let ghost defs = schema::field_views(msg_def.fields@);
    let ghost all = decoded_fields(data@, defs);
    let mut fields: Vec<DecodedField> = Vec::new();
    let mut offset: usize = 0;
    let mut i: usize = 0;
    assert(data@.skip(0) =~= data@);
    assert(defs.skip(0) =~= defs);
    assert(decoded_views(fields@) + all =~= all);
    while i < msg_def.fields.len() && offset < data.len()
        invariant
            i <= msg_def.fields@.len(),
            offset <= data@.len(),
            defs == schema::field_views(msg_def.fields@),
            all == decoded_fields(data@, defs),
            all == decoded_views(fields@) + decoded_fields(
                data@.skip(offset as int),
                defs.skip(i as int),
            ),
        decreases msg_def.fields@.len() - i,
    {
        let def = &msg_def.fields[i];
        let window = slice_subrange(data, offset, data.len());
        assert(window@ =~= data@.skip(offset as int));
        assert(defs.skip(i as int)[0] == def@);
        let (value, consumed, raw_bytes) = read_field(window, def.field_type.as_str());
        let field = DecodedField {
            name: def.name.clone(),
            field_type: def.field_type.clone(),
            value,
            raw_bytes,
        };
        let ghost before = fields@;
        fields.push(field);
        proof {
            let size = read_size(def@.field_type, window@);
            assert(window@.skip(size) =~= data@.skip(offset + size));
            assert(defs.skip(i as int).skip(1) =~= defs.skip(i + 1));
            assert(decoded_views(fields@) =~= decoded_views(before).push(field@));
            let tail = decoded_fields(data@.skip(offset + size), defs.skip(i + 1));
            assert(decoded_views(before) + (seq![field@] + tail) =~= decoded_views(before).push(field@)
                + tail);
        }
        offset += consumed;
        i += 1;
    }
    assert(decoded_views(fields@) =~= all);
    fields
}

// ---- text in raw memory ----

/// Whether a byte is a printable ASCII character or a space.
pub open spec fn is_printable(b: u8) -> bool {
    0x20 <= b <= 0x7E
}

/// The number of printable bytes in a row from `i` on.
pub open spec fn printable_run(data: Seq<u8>, i: int) -> int
    decreases data.len() - i,
{
    if 0 <= i < data.len() && is_printable(data[i]) {
        1 + printable_run(data, i + 1)
    } else {
        0
    }
}

/// The texts of at least six printable bytes in a row, from `i` on.
pub open spec fn ascii_strings(data: Seq<u8>, i: int) -> Seq<Seq<char>>
    decreases (if i < data.len() { data.len() - i } else { 0 }),
{
    if i < 0 || i >= data.len() {
        Seq::empty()
    } else {
        proof {
            lemma_printable_run(data, i);
        }
        let n = printable_run(data, i);
        let rest = ascii_strings(data, i + n + 1);
        if n >= 6 {
            seq![text::byte_chars(data.subrange(i, i + n))] + rest
        } else {
            rest
        }
    }
}

/// Whether two bytes are a printable ASCII character in UTF-16, low byte first.
pub open spec fn is_wide_char(data: Seq<u8>, i: int) -> bool {
    0 <= i && i + 1 < data.len() && is_printable(data[i]) && data[i + 1] == 0
}

/// The number of printable two-byte characters in a row from `i` on.
pub open spec fn wide_run(data: Seq<u8>, i: int) -> int
    decreases data.len() - i,
{
    if is_wide_char(data, i) {
        1 + wide_run(data, i + 2)
    } else {
        0
    }
}

/// The text of `n` two-byte characters from `i` on.
pub open spec fn wide_chars(data: Seq<u8>, i: int, n: nat) -> Seq<char> {
    Seq::new(n, |j: int| data[i + 2 * j] as char)
}

/// The texts of at least four printable two-byte characters in a row, from `i` on.
pub open spec fn utf16_strings(data: Seq<u8>, i: int) -> Seq<Seq<char>>
    decreases (if i < data.len() { data.len() - i } else { 0 }),
{
    if i < 0 || i + 1 >= data.len() {
        Seq::empty()
    } else {
        proof {
            lemma_wide_run(data, i);
        }
        let n = wide_run(data, i);
        let rest = utf16_strings(data, i + 2 * n + 1);
        if n >= 4 {
            seq![wide_chars(data, i, n as nat)] + rest
        } else {
            rest
        }
    }
}

/// Texts as values.
pub open spec fn string_views(strings: Seq<String>) -> Seq<Seq<char>> {
    Seq::new(strings.len(), |i: int| strings[i]@)
}

/// A run of printable bytes stays within the data and ends where a byte is not printable.
pub proof fn lemma_printable_run(data: Seq<u8>, i: int)
    requires
        0 <= i <= data.len(),
    ensures
        0 <= printable_run(data, i) <= data.len() - i,
        forall|j: int| i <= j < i + printable_run(data, i) ==> is_printable(#[trigger] data[j]),
        i + printable_run(data, i) < data.len() ==> !is_printable(data[i + printable_run(data, i)]),
    decreases data.len() - i,
{
    if i < data.len() && is_printable(data[i]) {
        lemma_printable_run(data, i + 1);
    }
}

/// A run of two-byte characters stays within the data.
pub proof fn lemma_wide_run(data: Seq<u8>, i: int)
    requires
        0 <= i,
    ensures
        0 <= wide_run(data, i),
        wide_run(data, i) > 0 ==> i + 2 * wide_run(data, i) <= data.len(),
        forall|j: int| 0 <= j < wide_run(data, i) ==> #[trigger] is_wide_char(data, i + 2 * j),
    decreases data.len() - i,
{
    if is_wide_char(data, i) {
        lemma_wide_run(data, i + 2);
        assert forall|j: int| 0 <= j < wide_run(data, i) implies #[trigger] is_wide_char(
            data,
            i + 2 * j,
        ) by {
            if j > 0 {
                assert(is_wide_char(data, i + 2 + 2 * (j - 1)));
            }
        }
    }
}

proof fn lemma_units_of_wide_chars(units: Seq<u16>)
    requires
        forall|j: int| 0 <= j < units.len() ==> #[trigger] units[j] < 0x80,
    ensures
        text::utf16_decoded(units) == Seq::new(units.len(), |j: int| units[j] as char),
    decreases units.len(),
{
    let chars = Seq::new(units.len(), |j: int| units[j] as char);
    if units.len() == 0 {
        assert(text::utf16_decoded(units) =~= chars);
    } else {
        let rest = units.skip(1);
        assert forall|j: int| 0 <= j < rest.len() implies #[trigger] rest[j] < 0x80 by {
            assert(rest[j] == units[j + 1]);
        }
        lemma_units_of_wide_chars(rest);
        assert(units[0] < 0x80);
        assert(seq![units[0] as char] + Seq::new(rest.len(), |j: int| rest[j] as char) =~= chars);
    }
}

/// Whether two bytes are a printable ASCII character in UTF-16, low byte first.
pub fn is_printable_wide(lo: u8, hi: u8) -> (r: bool)
    ensures
        r == (is_printable(lo) && hi == 0),
{
    hi == 0 && lo >= 0x20 && lo <= 0x7E
}

/// Scans raw bytes for UTF-16 LE strings (sequences of [printable][0x00] pairs, min 4 chars).
pub fn extract_utf16_strings(data: &[u8]) -> (results: Vec<String>)
    ensures
        string_views(results@) == utf16_strings(data@, 0),
{
    let mut results: Vec<String> = Vec::new();
    let mut i: usize = 0;
    let len: usize = data.len();
    let ghost all = utf16_strings(data@, 0);
    assert(string_views(results@) + all =~= all);
    while i < len && i + 1 < len
        invariant
            len == data@.len(),
            i <= len,
            all == utf16_strings(data@, 0),
            all == string_views(results@) + utf16_strings(data@, i as int),
        decreases len - i,
    {
        let start: usize = i;
        let mut units: Vec<u16> = Vec::new();
        proof {
            lemma_wide_run(data@, start as int);
        }
        while i < len && i + 1 < len && is_printable_wide(data[i], data[i + 1])
            invariant
                len == data@.len(),
                start <= i <= len,
                i == start + 2 * units@.len(),
                wide_run(data@, start as int) == units@.len() + wide_run(data@, i as int),
                forall|j: int|
                    0 <= j < units@.len() ==> #[trigger] units@[j] == data@[start + 2 * j] && units@[j]
                        < 0x80,
            decreases len - i,
        {
            units.push(read_u16(data, i));
            i += 2;
        }
        assert(wide_run(data@, i as int) == 0);
        if units.len() >= 4 {
            let s: String = utf16_text(units.as_slice());
            let ghost before = results@;
            results.push(s);
            proof {
                lemma_units_of_wide_chars(units@);
                assert(s@ =~= wide_chars(data@, start as int, units@.len()));
                assert(string_views(results@) =~= string_views(before).push(s@));
                let rest = utf16_strings(data@, i + 1);
                assert(string_views(before) + (seq![s@] + rest) =~= string_views(results@) + rest);
            }
        }
        let ghost end = i as int;
        if i < len {
            i += 1;
        }
        assert(utf16_strings(data@, i as int) =~= utf16_strings(data@, end + 1));
    }
    assert(string_views(results@) =~= all);
    results
}

/// Scans raw bytes for ASCII strings (sequences of printable bytes, min 6 chars).
pub fn extract_ascii_strings(data: &[u8]) -> (results: Vec<String>)
    ensures
        string_views(results@) == ascii_strings(data@, 0),
{
    let mut results: Vec<String> = Vec::new();
    let mut i: usize = 0;
    let len: usize = data.len();
    let ghost all = ascii_strings(data@, 0);
    assert(string_views(results@) + all =~= all);
    while i < len
        invariant
            len == data@.len(),
            i <= len,
            all == ascii_strings(data@, 0),
            all == string_views(results@) + ascii_strings(data@, i as int),
        decreases len - i,
    {
        let start: usize = i;
        proof {
            lemma_printable_run(data@, start as int);
        }
        while i < len && data[i] >= 0x20 && data[i] <= 0x7E
            invariant
                len == data@.len(),
                start <= i <= len,
                printable_run(data@, start as int) == i - start + printable_run(data@, i as int),
            decreases len - i,
        {
            i += 1;
        }
        assert(printable_run(data@, i as int) == 0);
        if i - start >= 6 {
            let window = slice_subrange(data, start, i);
            let s: String = utf8_text(window);
            let ghost before = results@;
            results.push(s);
            proof {
                assert forall|j: int| 0 <= j < window@.len() implies #[trigger] window@[j] < 0x80 by {
                    assert(is_printable(data@[start + j]));
                }
                text::lemma_ascii_decodes(window@);
                assert(string_views(results@) =~= string_views(before).push(s@));
                let rest = ascii_strings(data@, i + 1);
                assert(string_views(before) + (seq![s@] + rest) =~= string_views(results@) + rest);
            }
        }
        let ghost end = i as int;
        if i < len {
            i += 1;
        }
        assert(ascii_strings(data@, i as int) =~= ascii_strings(data@, end + 1));
    }
    assert(string_views(results@) =~= all);
    results
}

/// The field that stands for an extracted text: its number, counted modulo 2^32, makes its
/// name.
pub open spec fn text_field(
    prefix: Seq<char>,
    field_type: Seq<char>,
    number: int,
    s: Seq<char>,
) -> DecodedFieldView {
    DecodedFieldView {
        name: prefix + text::decimal((number % 0x1_0000_0000) as nat),
        field_type,
        value: FieldValueView::Text(text::quoted(s)),
        raw_bytes: Seq::empty(),
    }
}

/// The fields that stand for the texts in raw memory: first the wide ones, then the others,
/// numbered through.
pub open spec fn readable_fields(data: Seq<u8>) -> Seq<DecodedFieldView> {
    let wide = utf16_strings(data, 0);
    let narrow = ascii_strings(data, 0);
    Seq::new(wide.len(), |i: int| text_field("wstr_"@, "WSTR"@, i, wide[i])) + Seq::new(
        narrow.len(),
        |i: int| text_field("str_"@, "STR"@, wide.len() + i, narrow[i]),
    )
}

fn make_text_field(prefix: &str, field_type: &str, number: u32, s: &str) -> (field: DecodedField)
    ensures
        field@ == text_field(prefix@, field_type@, number as int, s@),
{
    let mut name = String::new();
    name.append(prefix);
    push_decimal(&mut name, number as u64);
    assert(name@ =~= prefix@ + text::decimal(number as nat));
    let field = DecodedField {
        name,
        field_type: field_type.to_owned(),
        value: FieldValue::Text(quote(s)),
        raw_bytes: Vec::new(),
    };
    assert(field@.raw_bytes =~= Seq::<u8>::empty());
    field
}

/// Extracts readable UTF-16 and ASCII strings from raw memory data.
/// Used as fallback when the data is C++ object memory rather than serialized DML.
pub fn extract_readable_content(data: &[u8]) -> (fields: Vec<DecodedField>)
    ensures
        decoded_views(fields@) == readable_fields(data@),
{
    let mut fields: Vec<DecodedField> = Vec::new();
    let mut idx: u32 = 0;
    let wide: Vec<String> = extract_utf16_strings(data);
    let narrow: Vec<String> = extract_ascii_strings(data);
    let ghost expected = readable_fields(data@);
    let mut i: usize = 0;
    while i < wide.len()
        invariant
            i <= wide@.len(),
            expected == readable_fields(data@),
            string_views(wide@) == utf16_strings(data@, 0),
            idx == i as int % 0x1_0000_0000,
            decoded_views(fields@) == expected.take(i as int),
        decreases wide@.len() - i,
    {
        let field = make_text_field("wstr_", "WSTR", idx, wide[i].as_str());
        assert(utf16_strings(data@, 0)[i as int] == wide@[i as int]@);
        let ghost before = fields@;
        fields.push(field);
        idx = idx.wrapping_add(1);
        assert(field@ == expected[i as int]);
        assert(decoded_views(fields@) =~= decoded_views(before).push(field@));
        assert(expected.take(i + 1) =~= expected.take(i as int).push(expected[i as int]));
        i += 1;
    }
    let mut j: usize = 0;
    while j < narrow.len()
        invariant
            j <= narrow@.len(),
            expected == readable_fields(data@),
            string_views(wide@) == utf16_strings(data@, 0),
            string_views(narrow@) == ascii_strings(data@, 0),
            idx == (wide@.len() + j) % 0x1_0000_0000,
            decoded_views(fields@) == expected.take(wide@.len() + j),
        decreases narrow@.len() - j,
    {
        let field = make_text_field("str_", "STR", idx, narrow[j].as_str());
        assert(ascii_strings(data@, 0)[j as int] == narrow@[j as int]@);
        let ghost before = fields@;
        let ghost at = wide@.len() + j;
        fields.push(field);
        idx = idx.wrapping_add(1);
        assert(field@ == expected[at]);
        assert(decoded_views(fields@) =~= decoded_views(before).push(field@));
        assert(expected.take(at + 1) =~= expected.take(at).push(expected[at]));
        j += 1;
    }
    assert(expected.take(expected.len() as int) =~= expected);
    fields
}

/// Whether an 8-byte value lies where user-mode code and heap lie.
pub open spec fn is_user_pointer(value: int) -> bool {
    0x0001_0000_0000 <= value < 0x7FFF_FFFF_FFFF
}

/// How many of the first `count` 8-byte values look like pointers.
pub open spec fn pointer_count(data: Seq<u8>, count: int) -> int
    decreases count,
{
    if count <= 0 {
        0
    } else {
        pointer_count(data, count - 1) + (if is_user_pointer(bytes::le64(data, 8 * (count - 1))) {
            1int
        } else {
            0
        })
    }
}

/// Whether two or more of the 8-byte values in the first 64 bytes look like pointers.
pub open spec fn contains_pointers(data: Seq<u8>) -> bool {
    pointer_count(data, (if data.len() < 64 { data.len() as int } else { 64 }) / 8) >= 2
}

/// Detects whether the payload contains x64 heap/code pointers,
/// indicating it's raw C++ object memory rather than serialized DML.
/// Checks for 8-byte values in common Windows user-mode address ranges.
pub fn payload_contains_pointers(data: &[u8]) -> (r: bool)
    ensures
        r == contains_pointers(data@),
{
    let len: usize = data.len();
    let window: usize = if len < 64 { len } else { 64 };
    let check_count: usize = window / 8;
    let mut found: usize = 0;
    let mut i: usize = 0;
    while i < check_count
        invariant
            i <= check_count,
            check_count <= 8,
            8 * check_count <= data@.len(),
            found <= i,
            found == pointer_count(data@, i as int),
        decreases check_count - i,
    {
        let value: u64 = read_u64(data, 8 * i);
        if value >= 0x0001_0000_0000 && value < 0x7FFF_FFFF_FFFF {
            found += 1;
        }
        i += 1;
    }
    found >= 2
}

// ---- whole messages ----

/// The fields that a payload is shown with: decoded by its definition where it has one and
/// holds no pointers; otherwise, or where that gives none, the texts in it.
pub open spec fn shown_fields(
    payload: Seq<u8>,
    def: Option<schema::DmlMessageView>,
) -> Seq<DecodedFieldView> {
    match def {
        Some(d) if !contains_pointers(payload) && decoded_fields(payload, d.fields).len()
            > 0 => decoded_fields(payload, d.fields),
        _ => readable_fields(payload),
    }
}

/// How a payload is shown.
pub open spec fn decoded_message(
    service_id: u8,
    message_id: u8,
    payload: Seq<u8>,
    services: Map<u8, schema::DmlServiceView>,
) -> DecodedMessageView {
    let def = schema::definition_in(services, service_id, message_id);
    DecodedMessageView {
        service_name: if services.dom().contains(service_id) {
            services[service_id].name
        } else {
            "Unknown"@
        },
        message_name: match def {
            Some(d) => d.name,
            None => "Message #"@ + text::decimal(message_id as nat),
        },
        fields: shown_fields(payload, def),
    }
}

/// Decodes DML payload bytes using the schema registry.
/// If schema-based decoding fails, falls back to raw string extraction.
pub fn decode_dml_message(
    service_id: u8,
    message_id: u8,
    payload: &[u8],
    registry: &SchemaRegistry,
) -> (r: Option<DecodedMessage>)
    ensures
        r matches Some(m) && m@ == decoded_message(service_id, message_id, payload@, registry@),
{
    let service_name: String = match registry.get_service_name(service_id) {
        Some(name) => name.to_owned(),
        None => "Unknown".to_owned(),
    };
    let def: Option<&DmlMessageDef> = registry.get_message_def(service_id, message_id);
    let message_name: String = match def {
        Some(d) => d.name.clone(),
        None => {
            let mut name = String::new();
            name.append("Message #");
            push_decimal(&mut name, message_id as u64);
            assert(name@ =~= "Message #"@ + text::decimal(message_id as nat));
            name
        },
    };
    if !payload_contains_pointers(payload) {
        match def {
            Some(d) => {
                let fields: Vec<DecodedField> = decode_fields(payload, d);
                if fields.len() > 0 {
                    return Some(DecodedMessage { service_name, message_name, fields });
                }
            },
            None => {},
        }
    }
    let fields: Vec<DecodedField> = extract_readable_content(payload);
    Some(DecodedMessage { service_name, message_name, fields })
}

// ---- laws ----

/// The raw bytes of these fields, one behind the other.
pub open spec fn raw_bytes_joined(fields: Seq<DecodedFieldView>) -> Seq<u8>
    decreases fields.len(),
{
    if fields.len() == 0 {
        Seq::empty()
    } else {
        fields[0].raw_bytes + raw_bytes_joined(fields.skip(1))
    }
}

/// Decoding invents and skips no bytes: the raw bytes of the fields, one behind the other, are
/// the start of the data. There are at most as many fields as definitions, with the same names
/// and types in the same order.
pub proof fn law_fields_cover_the_data(data: Seq<u8>, defs: Seq<schema::DmlFieldView>)
    ensures
        ({
            let fields = decoded_fields(data, defs);
            let joined = raw_bytes_joined(fields);
            &&& joined.len() <= data.len()
            &&& joined == data.take(joined.len() as int)
            &&& fields.len() <= defs.len()
            &&& forall|i: int|
                0 <= i < fields.len() ==> (#[trigger] fields[i]).name == defs[i].name
                    && fields[i].field_type == defs[i].field_type
        }),
    decreases defs.len(),
{
    let fields = decoded_fields(data, defs);
    if defs.len() == 0 || data.len() == 0 {
        assert(raw_bytes_joined(fields) =~= data.take(0));
    } else {
        let size = read_size(defs[0].field_type, data);
        let rest = data.skip(size);
        law_fields_cover_the_data(rest, defs.skip(1));
        assert(fields.skip(1) =~= decoded_fields(rest, defs.skip(1)));
        let joined = raw_bytes_joined(fields);
        assert(joined =~= data.take(joined.len() as int));
        assert forall|i: int| 0 <= i < fields.len() implies (#[trigger] fields[i]).name == defs[i].name
            && fields[i].field_type == defs[i].field_type by {
            if i > 0 {
                assert(fields[i] == decoded_fields(rest, defs.skip(1))[i - 1]);
                assert(defs.skip(1)[i - 1] == defs[i]);
            }
        }
    }
}

/// Whether the bytes from `a` up to `b` are printable, and the bytes on both sides are not or
/// there are none.
pub open spec fn is_longest_run(data: Seq<u8>, a: int, b: int) -> bool {
    &&& 0 <= a < b <= data.len()
    &&& forall|j: int| a <= j < b ==> is_printable(#[trigger] data[j])
    &&& a > 0 ==> !is_printable(data[a - 1])
    &&& b < data.len() ==> !is_printable(data[b])
}

/// Whether `s` is the text of a longest run of at least six bytes from `a` up to `b`.
pub open spec fn is_long_text(data: Seq<u8>, a: int, b: int, s: Seq<char>) -> bool {
    is_longest_run(data, a, b) && b - a >= 6 && s == text::byte_chars(data.subrange(a, b))
}

proof fn lemma_ascii_strings_sound(data: Seq<u8>, i: int, k: int) -> (run: (int, int))
    requires
        0 <= i,
        i > 0 && i <= data.len() ==> !is_printable(data[i - 1]),
        0 <= k < ascii_strings(data, i).len(),
    ensures
        i <= run.0,
        is_long_text(data, run.0, run.1, ascii_strings(data, i)[k]),
    decreases (if i < data.len() { data.len() - i } else { 0 }),
{
    lemma_printable_run(data, i);
    let n = printable_run(data, i);
    let rest = ascii_strings(data, i + n + 1);
    if n >= 6 && k == 0 {
        (i, i + n)
    } else {
        let j = if n >= 6 { k - 1 } else { k };
        assert(ascii_strings(data, i)[k] == rest[j]);
        lemma_ascii_strings_sound(data, i + n + 1, j)
    }
}

proof fn lemma_ascii_strings_complete(data: Seq<u8>, i: int, a: int, b: int) -> (k: int)
    requires
        0 <= i <= a,
        is_longest_run(data, a, b),
        b - a >= 6,
    ensures
        0 <= k < ascii_strings(data, i).len(),
        ascii_strings(data, i)[k] == text::byte_chars(data.subrange(a, b)),
    decreases data.len() - i,
{
    lemma_printable_run(data, i);
    let n = printable_run(data, i);
    let rest = ascii_strings(data, i + n + 1);
    if i == a {
        if i + n < b {
            assert(is_printable(data[i + n]));
        }
        if b < i + n {
            assert(is_printable(data[b]));
        }
        0
    } else {
        if a <= i + n {
            assert(is_printable(data[a - 1]));
        }
        let k = lemma_ascii_strings_complete(data, i + n + 1, a, b);
        if n >= 6 {
            assert(ascii_strings(data, i)[k + 1] == rest[k]);
            k + 1
        } else {
            k
        }
    }
}

/// The extracted texts are exactly the longest runs of printable bytes that have at least six
/// of them.
pub proof fn law_ascii_strings_are_the_long_runs(data: Seq<u8>, s: Seq<char>)
    ensures
        ascii_strings(data, 0).contains(s) <==> exists|a: int, b: int|
            #[trigger] is_long_text(data, a, b, s),
{
    if ascii_strings(data, 0).contains(s) {
        let k = choose|k: int| 0 <= k < ascii_strings(data, 0).len() && ascii_strings(data, 0)[k] == s;
        let run = lemma_ascii_strings_sound(data, 0, k);
        assert(is_long_text(data, run.0, run.1, s));
    }
    if exists|a: int, b: int| #[trigger] is_long_text(data, a, b, s) {
        let (a, b) = choose|a: int, b: int| #[trigger] is_long_text(data, a, b, s);
        let k = lemma_ascii_strings_complete(data, 0, a, b);
        assert(ascii_strings(data, 0)[k] == s);
    }
}

/// Whether `n` printable two-byte characters stand in a row from `a` on, and neither in front of
/// them nor behind them stands another.
pub open spec fn is_longest_wide_run(data: Seq<u8>, a: int, n: int) -> bool {
    &&& n >= 1
    &&& forall|j: int| 0 <= j < n ==> #[trigger] is_wide_char(data, a + 2 * j)
    &&& !is_wide_char(data, a - 2)
    &&& !is_wide_char(data, a + 2 * n)
}

/// Whether `s` is the text of a longest run of at least four two-byte characters from `a` on.
pub open spec fn is_long_wide_text(data: Seq<u8>, a: int, n: int, s: Seq<char>) -> bool {
    is_longest_wide_run(data, a, n) && n >= 4 && s == wide_chars(data, a, n as nat)
}

/// The scan stands where no two-byte character begins just before.
spec fn between_wide_chars(data: Seq<u8>, i: int) -> bool {
    !is_wide_char(data, i - 1) && !is_wide_char(data, i - 2)
}

proof fn lemma_after_wide_run(data: Seq<u8>, i: int)
    requires
        0 <= i,
        between_wide_chars(data, i),
    ensures
        !is_wide_char(data, i + 2 * wide_run(data, i)),
        between_wide_chars(data, i + 2 * wide_run(data, i) + 1),
{
    lemma_wide_run(data, i);
    lemma_wide_run_stops(data, i);
    let n = wide_run(data, i);
    if n > 0 {
        assert(is_wide_char(data, i + 2 * (n - 1)));
    }
}

proof fn lemma_wide_run_stops(data: Seq<u8>, i: int)
    requires
        0 <= i,
    ensures
        !is_wide_char(data, i + 2 * wide_run(data, i)),
    decreases data.len() - i,
{
    if is_wide_char(data, i) {
        lemma_wide_run_stops(data, i + 2);
    }
}

proof fn lemma_utf16_strings_sound(data: Seq<u8>, i: int, k: int) -> (run: (int, int))
    requires
        0 <= i,
        between_wide_chars(data, i),
        0 <= k < utf16_strings(data, i).len(),
    ensures
        is_long_wide_text(data, run.0, run.1, utf16_strings(data, i)[k]),
    decreases (if i < data.len() { data.len() - i } else { 0 }),
{
    lemma_wide_run(data, i);
    lemma_after_wide_run(data, i);
    let n = wide_run(data, i);
    let rest = utf16_strings(data, i + 2 * n + 1);
    if n >= 4 && k == 0 {
        (i, n)
    } else {
        let j = if n >= 4 { k - 1 } else { k };
        assert(utf16_strings(data, i)[k] == rest[j]);
        lemma_utf16_strings_sound(data, i + 2 * n + 1, j)
    }
}

proof fn lemma_utf16_strings_complete(data: Seq<u8>, i: int, a: int, n: int) -> (k: int)
    requires
        0 <= i <= a,
        is_longest_wide_run(data, a, n),
        n >= 4,
    ensures
        0 <= k < utf16_strings(data, i).len(),
        utf16_strings(data, i)[k] == wide_chars(data, a, n as nat),
    decreases data.len() - i,
{
    assert(is_wide_char(data, a + 2 * 0));
    lemma_wide_run(data, i);
    lemma_wide_run_stops(data, i);
    let m = wide_run(data, i);
    let rest = utf16_strings(data, i + 2 * m + 1);
    if i == a {
        if m < n {
            assert(is_wide_char(data, a + 2 * m));
        }
        if n < m {
            assert(is_wide_char(data, i + 2 * n));
        }
        0
    } else {
        assert(a >= i + 2 * m + 1) by {
            if a < i + 2 * m + 1 {
                let k = (a - i) / 2;
                if a == i + 2 * k {
                    if k < m {
                        assert(is_wide_char(data, i + 2 * (k - 1)));
                    }
                } else {
                    assert(a == i + 2 * k + 1);
                    assert(is_wide_char(data, i + 2 * k));
                }
            }
        }
        let k = lemma_utf16_strings_complete(data, i + 2 * m + 1, a, n);
        if m >= 4 {
            assert(utf16_strings(data, i)[k + 1] == rest[k]);
            k + 1
        } else {
            k
        }
    }
}

/// The extracted wide texts are exactly the longest runs of printable two-byte characters that
/// have at least four of them.
pub proof fn law_utf16_strings_are_the_long_runs(data: Seq<u8>, s: Seq<char>)
    ensures
        utf16_strings(data, 0).contains(s) <==> exists|a: int, n: int|
            #[trigger] is_long_wide_text(data, a, n, s),
{
    if utf16_strings(data, 0).contains(s) {
        let k = choose|k: int| 0 <= k < utf16_strings(data, 0).len() && utf16_strings(data, 0)[k] == s;
        let run = lemma_utf16_strings_sound(data, 0, k);
        assert(is_long_wide_text(data, run.0, run.1, s));
    }
    if exists|a: int, n: int| #[trigger] is_long_wide_text(data, a, n, s) {
        let (a, n) = choose|a: int, n: int| #[trigger] is_long_wide_text(data, a, n, s);
        assert(is_wide_char(data, a + 2 * 0));
        let k = lemma_utf16_strings_complete(data, 0, a, n);
        assert(utf16_strings(data, 0)[k] == s);
    }
}

proof fn lemma_type_names()
    ensures
        kind_of("BYT"@) == FieldKind::Byte,
        kind_of("UBYT"@) == FieldKind::Byte,
        kind_of("SHRT"@) == FieldKind::Short,
        kind_of("USHRT"@) == FieldKind::UnsignedShort,
        kind_of("INT"@) == FieldKind::Int,
        kind_of("UINT"@) == FieldKind::UnsignedInt,
        kind_of("FLT"@) == FieldKind::Float,
        kind_of("DBL"@) == FieldKind::Double,
        kind_of("STR"@) == FieldKind::Str,
        kind_of("WSTR"@) == FieldKind::WideStr,
        kind_of("GID"@) == FieldKind::Id,
        kind_of("UINT64"@) == FieldKind::Id,
{
    reveal_strlit("BYT");
    reveal_strlit("UBYT");
    reveal_strlit("SHRT");
    reveal_strlit("USHRT");
    reveal_strlit("INT");
    reveal_strlit("UINT");
    reveal_strlit("FLT");
    reveal_strlit("DBL");
    reveal_strlit("STR");
    reveal_strlit("WSTR");
    reveal_strlit("GID");
    reveal_strlit("UINT64");
    assert("BYT"@[0] == 'B' && "SHRT"@[0] == 'S' && "INT"@[0] == 'I' && "FLT"@[0] == 'F' && "DBL"@[0]
        == 'D' && "STR"@[0] == 'S' && "GID"@[0] == 'G' && "UBYT"@[0] == 'U' && "UINT"@[0] == 'U'
        && "WSTR"@[0] == 'W');
    assert("UBYT"@[1] == 'B' && "UINT"@[1] == 'I');
    assert("BYT"@.len() == 3 && "INT"@.len() == 3 && "FLT"@.len() == 3 && "DBL"@.len() == 3
        && "STR"@.len() == 3 && "GID"@.len() == 3);
    assert("UBYT"@.len() == 4 && "SHRT"@.len() == 4 && "UINT"@.len() == 4 && "WSTR"@.len() == 4);
    assert("USHRT"@.len() == 5 && "UINT64"@.len() == 6);
}

/// 16-bit numbers read back what was written.
pub proof fn law_shorts_read_back(v: u16, rest: Seq<u8>)
    ensures
        ({
            let data = bytes::le16_bytes(v) + rest;
            &&& read_value("USHRT"@, data) == FieldValueView::Text(text::decimal(v as nat))
            &&& read_value("SHRT"@, data) == FieldValueView::Text(
                text::signed_decimal(bytes::signed(v as int, 0x8000)),
            )
            &&& read_size("USHRT"@, data) == 2
            &&& read_size("SHRT"@, data) == 2
        }),
{
    lemma_type_names();
    let data = bytes::le16_bytes(v) + rest;
    bytes::law_le16_round_trip(Seq::empty(), v, rest);
    assert(Seq::<u8>::empty() + bytes::le16_bytes(v) + rest =~= data);
}

/// 32-bit numbers read back what was written, and so do the bits of a single-precision number.
pub proof fn law_words_read_back(v: u32, rest: Seq<u8>)
    ensures
        ({
            let data = bytes::le32_bytes(v) + rest;
            &&& read_value("UINT"@, data) == FieldValueView::Text(text::decimal(v as nat))
            &&& read_value("INT"@, data) == FieldValueView::Text(
                text::signed_decimal(bytes::signed(v as int, 0x8000_0000)),
            )
            &&& read_value("FLT"@, data) == (FieldValueView::Float { bits32: v })
            &&& read_size("UINT"@, data) == 4
            &&& read_size("INT"@, data) == 4
            &&& read_size("FLT"@, data) == 4
        }),
{
    lemma_type_names();
    let data = bytes::le32_bytes(v) + rest;
    bytes::law_le32_round_trip(Seq::empty(), v, rest);
    assert(Seq::<u8>::empty() + bytes::le32_bytes(v) + rest =~= data);
}

/// Global identifiers read back what was written, and so do the bits of a double-precision
/// number.
pub proof fn law_ids_read_back(v: u64, rest: Seq<u8>)
    ensures
        ({
            let data = bytes::le64_bytes(v) + rest;
            &&& read_value("GID"@, data) == FieldValueView::Text(
                seq!['0', 'x'] + text::hex(v as nat, 16),
            )
            &&& read_value("DBL"@, data) == (FieldValueView::Double { bits64: v })
            &&& read_size("GID"@, data) == 8
            &&& read_size("DBL"@, data) == 8
        }),
{
    lemma_type_names();
    let data = bytes::le64_bytes(v) + rest;
    let value = bytes::le64(data, 0);
    assert(value == v) by {
        bytes::law_le64_round_trip(Seq::empty(), v, rest);
        assert(Seq::<u8>::empty() + bytes::le64_bytes(v) + rest =~= data);
    }
}

/// A text field, written as its length in bytes and the bytes in UTF-8, reads back as the text
/// in quotes, and uses up exactly what was written.
pub proof fn law_str_reads_back(s: Seq<char>, rest: Seq<u8>)
    requires
        vstd::utf8::encode_utf8(s).len() <= 0xFFFF,
    ensures
        ({
            let body = vstd::utf8::encode_utf8(s);
            let data = bytes::le16_bytes(body.len() as u16) + body + rest;
            &&& read_value("STR"@, data) == FieldValueView::Text(text::quoted(s))
            &&& read_size("STR"@, data) == 2 + body.len()
        }),
{
    lemma_type_names();
    let body = vstd::utf8::encode_utf8(s);
    let data = bytes::le16_bytes(body.len() as u16) + body + rest;
    let none = Seq::<u8>::empty();
    bytes::law_le16_round_trip(none, body.len() as u16, body + rest);
    assert(none + bytes::le16_bytes(body.len() as u16) + (body + rest) =~= data);
    assert(data.subrange(2, (2 + body.len()) as int) =~= body);
    vstd::utf8::encode_utf8_valid_utf8(s);
    vstd::utf8::encode_utf8_decode_utf8(s);
}

/// The bytes of two-byte units, low byte first.
pub open spec fn unit_bytes(units: Seq<u16>) -> Seq<u8> {
    Seq::new(
        2 * units.len(),
        |i: int| if i % 2 == 0 { (units[i / 2] % 0x100) as u8 } else { (units[i / 2] / 0x100) as u8 },
    )
}

/// A wide text field, written as its length in two-byte units and the units in UTF-16, reads
/// back as the text in quotes, and uses up exactly what was written.
pub proof fn law_wstr_reads_back(s: Seq<char>, rest: Seq<u8>)
    requires
        text::utf16_encoded(s).len() <= 0xFFFF,
    ensures
        ({
            let units = text::utf16_encoded(s);
            let data = bytes::le16_bytes(units.len() as u16) + unit_bytes(units) + rest;
            &&& read_value("WSTR"@, data) == FieldValueView::Text(text::quoted(s))
            &&& read_size("WSTR"@, data) == 2 + 2 * units.len()
        }),
{
    lemma_type_names();
    let units = text::utf16_encoded(s);
    let body = unit_bytes(units);
    let data = bytes::le16_bytes(units.len() as u16) + body + rest;
    let none = Seq::<u8>::empty();
    bytes::law_le16_round_trip(none, units.len() as u16, body + rest);
    assert(none + bytes::le16_bytes(units.len() as u16) + (body + rest) =~= data);
    assert forall|i: int| 0 <= i < units.len() implies #[trigger] units_at(data, 2, units.len())[i]
        == units[i] by {
        let at = 2 + 2 * i;
        assert(data[at] == body[2 * i] && data[at + 1] == body[2 * i + 1]);
        assert(2 * i / 2 == i && (2 * i + 1) / 2 == i);
        assert(body[2 * i] == units[i] % 0x100);
        assert(body[2 * i + 1] == units[i] / 0x100);
    }
    assert(units_at(data, 2, units.len()) =~= units);
    text::law_utf16_round_trip(s);
}

/// Fewer than sixteen bytes never count as raw memory.
pub proof fn law_short_payloads_hold_no_pointers(data: Seq<u8>)
    requires
        data.len() < 16,
    ensures
        !contains_pointers(data),
{
    reveal_with_fuel(pointer_count, 3);
}

// ---- laws on decoding ----

proof fn lemma_decoded_fields(data: Seq<u8>, defs: Seq<schema::DmlFieldView>)
    requires
        defs.len() > 0,
        data.len() > 0,
    ensures
        ({
            let fields = decoded_fields(data, defs);
            let size = read_size(defs[0].field_type, data);
            let rest = decoded_fields(data.skip(size), defs.skip(1));
            &&& 0 <= size <= data.len()
            &&& fields.len() == 1 + rest.len()
            &&& fields.skip(1) == rest
            &&& fields[0].raw_bytes == data.take(size)
            &&& raw_bytes_joined(fields) == data.take(size) + raw_bytes_joined(rest)
            &&& forall|i: int| 0 < i <= fields.len() ==> #[trigger] fields.take(i).skip(1) == rest.take(i - 1)
        }),
{
    let fields = decoded_fields(data, defs);
    let size = read_size(defs[0].field_type, data);
    let rest = decoded_fields(data.skip(size), defs.skip(1));
    assert(fields.skip(1) =~= rest);
    assert forall|i: int| 0 < i <= fields.len() implies #[trigger] fields.take(i).skip(1) == rest.take(
        i - 1,
    ) by {
        assert(fields.take(i).skip(1) =~= rest.take(i - 1));
    }
}

/// Definitions are left out only where the data is used up: if there are fewer fields than
/// definitions, the raw bytes of the fields are the whole data.
pub proof fn law_definitions_are_left_out_at_the_end_only(
    data: Seq<u8>,
    defs: Seq<schema::DmlFieldView>,
)
    ensures
        decoded_fields(data, defs).len() < defs.len() ==> raw_bytes_joined(decoded_fields(data, defs))
            == data,
    decreases defs.len(),
{
    if defs.len() > 0 && data.len() > 0 {
        lemma_decoded_fields(data, defs);
        let size = read_size(defs[0].field_type, data);
        law_definitions_are_left_out_at_the_end_only(data.skip(size), defs.skip(1));
        if decoded_fields(data, defs).len() < defs.len() {
            assert(data.take(size) + data.skip(size) =~= data);
        }
    } else {
        assert(raw_bytes_joined(decoded_fields(data, defs)) =~= Seq::<u8>::empty());
    }
}

/// Each field is what its type reads from the data behind the raw bytes of the fields in front of
/// it. There are more bytes there, and what is read is the field's raw bytes.
pub proof fn law_each_field_reads_behind_those_before(
    data: Seq<u8>,
    defs: Seq<schema::DmlFieldView>,
    i: int,
)
    requires
        0 <= i < decoded_fields(data, defs).len(),
    ensures
        ({
            let fields = decoded_fields(data, defs);
            let at = raw_bytes_joined(fields.take(i)).len() as int;
            let size = read_size(defs[i].field_type, data.skip(at));
            &&& i < defs.len()
            &&& 0 <= at < data.len()
            &&& 0 <= size <= data.len() - at
            &&& fields[i].name == defs[i].name
            &&& fields[i].field_type == defs[i].field_type
            &&& fields[i].value == read_value(defs[i].field_type, data.skip(at))
            &&& fields[i].raw_bytes == data.subrange(at, at + size)
        }),
    decreases defs.len(),
{
    lemma_decoded_fields(data, defs);
    let fields = decoded_fields(data, defs);
    let size = read_size(defs[0].field_type, data);
    if i == 0 {
        assert(fields.take(0) =~= Seq::<DecodedFieldView>::empty());
        assert(data.skip(0) =~= data);
        assert(data.take(size) =~= data.subrange(0, size));
    } else {
        let rest_data = data.skip(size);
        let rest = decoded_fields(rest_data, defs.skip(1));
        law_each_field_reads_behind_those_before(rest_data, defs.skip(1), i - 1);
        assert(fields.take(i).skip(1) == rest.take(i - 1));
        assert(fields.take(i)[0] == fields[0]);
        let inner = raw_bytes_joined(rest.take(i - 1)).len() as int;
        assert(raw_bytes_joined(fields.take(i)).len() == size + inner);
        assert(rest_data.skip(inner) =~= data.skip(size + inner));
        assert(fields[i] == rest[i - 1]);
        assert(defs.skip(1)[i - 1] == defs[i]);
        let len = read_size(defs[i].field_type, data.skip(size + inner));
        assert(rest_data.subrange(inner, inner + len) =~= data.subrange(size + inner, size + inner + len));
    }
}

/// A value as it stands in a message.
pub enum WireValue {
    Byte(u8),
    Short(u16),
    UnsignedShort(u16),
    Int(u32),
    UnsignedInt(u32),
    Float(u32),
    Double(u64),
    Str(Seq<char>),
    WideStr(Seq<char>),
    Id(u64),
}

impl WireValue {
    /// The name of the value's type.
    pub open spec fn wire_type(self) -> Seq<char> {
        match self {
            WireValue::Byte(_) => "UBYT"@,
            WireValue::Short(_) => "SHRT"@,
            WireValue::UnsignedShort(_) => "USHRT"@,
            WireValue::Int(_) => "INT"@,
            WireValue::UnsignedInt(_) => "UINT"@,
            WireValue::Float(_) => "FLT"@,
            WireValue::Double(_) => "DBL"@,
            WireValue::Str(_) => "STR"@,
            WireValue::WideStr(_) => "WSTR"@,
            WireValue::Id(_) => "GID"@,
        }
    }

    /// Whether the value can be written: the length of a text has two bytes.
    pub open spec fn fits(self) -> bool {
        match self {
            WireValue::Str(s) => vstd::utf8::encode_utf8(s).len() <= 0xFFFF,
            WireValue::WideStr(s) => text::utf16_encoded(s).len() <= 0xFFFF,
            _ => true,
        }
    }

    /// The bytes that the value is written as.
    pub open spec fn wire(self) -> Seq<u8> {
        match self {
            WireValue::Byte(v) => seq![v],
            WireValue::Short(v) => bytes::le16_bytes(v),
            WireValue::UnsignedShort(v) => bytes::le16_bytes(v),
            WireValue::Int(v) => bytes::le32_bytes(v),
            WireValue::UnsignedInt(v) => bytes::le32_bytes(v),
            WireValue::Float(v) => bytes::le32_bytes(v),
            WireValue::Double(v) => bytes::le64_bytes(v),
            WireValue::Str(s) => bytes::le16_bytes(vstd::utf8::encode_utf8(s).len() as u16)
                + vstd::utf8::encode_utf8(s),
            WireValue::WideStr(s) => bytes::le16_bytes(text::utf16_encoded(s).len() as u16) + unit_bytes(
                text::utf16_encoded(s),
            ),
            WireValue::Id(v) => bytes::le64_bytes(v),
        }
    }

    /// How the value is shown: numbers in decimal, those of a signed type that have their highest
    /// bit set as what they fall short of zero, texts in quotes, identifiers with sixteen
    /// hexadecimal digits, and floating-point numbers by their bits.
    pub open spec fn shown(self) -> FieldValueView {
        match self {
            WireValue::Byte(v) => FieldValueView::Text(text::decimal(v as nat)),
            WireValue::Short(v) => FieldValueView::Text(
                if v < 0x8000 {
                    text::decimal(v as nat)
                } else {
                    seq!['-'] + text::decimal((0x1_0000 - v) as nat)
                },
            ),
            WireValue::UnsignedShort(v) => FieldValueView::Text(text::decimal(v as nat)),
            WireValue::Int(v) => FieldValueView::Text(
                if v < 0x8000_0000 {
                    text::decimal(v as nat)
                } else {
                    seq!['-'] + text::decimal((0x1_0000_0000 - v) as nat)
                },
            ),
            WireValue::UnsignedInt(v) => FieldValueView::Text(text::decimal(v as nat)),
            WireValue::Float(v) => FieldValueView::Float { bits32: v },
            WireValue::Double(v) => FieldValueView::Double { bits64: v },
            WireValue::Str(s) => FieldValueView::Text(seq!['"'] + s + seq!['"']),
            WireValue::WideStr(s) => FieldValueView::Text(seq!['"'] + s + seq!['"']),
            WireValue::Id(v) => FieldValueView::Text(seq!['0', 'x'] + text::hex(v as nat, 16)),
        }
    }
}

/// A value reads back as it was written, whatever stands behind it, and no more is used up than
/// was written.
pub proof fn law_values_read_back(value: WireValue, rest: Seq<u8>)
    requires
        value.fits(),
    ensures
        read_value(value.wire_type(), value.wire() + rest) == value.shown(),
        read_size(value.wire_type(), value.wire() + rest) == value.wire().len(),
        value.wire().len() > 0,
{
    broadcast use bytes::group_le_bytes_len;

    lemma_type_names();
    match value {
        WireValue::Byte(v) => {},
        WireValue::Short(v) => {
            law_shorts_read_back(v, rest);
        },
        WireValue::UnsignedShort(v) => {
            law_shorts_read_back(v, rest);
        },
        WireValue::Int(v) => {
            law_words_read_back(v, rest);
        },
        WireValue::UnsignedInt(v) => {
            law_words_read_back(v, rest);
        },
        WireValue::Float(v) => {
            law_words_read_back(v, rest);
        },
        WireValue::Double(v) => {
            law_ids_read_back(v, rest);
        },
        WireValue::Str(s) => {
            law_str_reads_back(s, rest);
            assert(text::quoted(s) =~= seq!['"'] + s + seq!['"']);
        },
        WireValue::WideStr(s) => {
            law_wstr_reads_back(s, rest);
            assert(text::quoted(s) =~= seq!['"'] + s + seq!['"']);
        },
        WireValue::Id(v) => {
            law_ids_read_back(v, rest);
        },
    }
}

/// The bytes of these values, one behind the other.
pub open spec fn wires_joined(values: Seq<WireValue>) -> Seq<u8>
    decreases values.len(),
{
    if values.len() == 0 {
        Seq::empty()
    } else {
        values[0].wire() + wires_joined(values.skip(1))
    }
}

/// A message reads back as it was written: the bytes of one value per definition decode to one
/// field per definition, with the definition's name and type, the value and the value's bytes.
/// What stands behind them is left alone.
pub proof fn law_messages_read_back(
    defs: Seq<schema::DmlFieldView>,
    values: Seq<WireValue>,
    rest: Seq<u8>,
)
    requires
        values.len() == defs.len(),
        forall|i: int|
            0 <= i < values.len() ==> (#[trigger] values[i]).fits() && defs[i].field_type
                == values[i].wire_type(),
    ensures
        ({
            let fields = decoded_fields(wires_joined(values) + rest, defs);
            &&& fields.len() == defs.len()
            &&& forall|i: int|
                0 <= i < defs.len() ==> (#[trigger] fields[i]) == (DecodedFieldView {
                    name: defs[i].name,
                    field_type: values[i].wire_type(),
                    value: values[i].shown(),
                    raw_bytes: values[i].wire(),
                })
        }),
    decreases defs.len(),
{
    let data = wires_joined(values) + rest;
    let fields = decoded_fields(data, defs);
    if defs.len() > 0 {
        let behind = wires_joined(values.skip(1)) + rest;
        assert(data =~= values[0].wire() + behind);
        law_values_read_back(values[0], behind);
        lemma_decoded_fields(data, defs);
        let size = values[0].wire().len() as int;
        assert(data.skip(size) =~= behind);
        assert(data.take(size) =~= values[0].wire());
        assert forall|i: int| 0 <= i < values.skip(1).len() implies (#[trigger] values.skip(1)[i]).fits()
            && defs.skip(1)[i].field_type == values.skip(1)[i].wire_type() by {
            assert(values.skip(1)[i] == values[i + 1]);
        }
        law_messages_read_back(defs.skip(1), values.skip(1), rest);
        let inner = decoded_fields(behind, defs.skip(1));
        assert forall|i: int| 0 <= i < defs.len() implies (#[trigger] fields[i]) == (DecodedFieldView {
            name: defs[i].name,
            field_type: values[i].wire_type(),
            value: values[i].shown(),
            raw_bytes: values[i].wire(),
        }) by {
            if i > 0 {
                assert(fields[i] == fields.skip(1)[i - 1]);
                assert(inner[i - 1].name == defs.skip(1)[i - 1].name);
            }
        }
    }
}

/// A field whose bytes are not all there is shown as a question mark and uses up none.
pub proof fn law_cut_fields_are_unknown(field_type: Seq<char>, data: Seq<u8>)
    requires
        ({
            let n = data.len();
            ||| n == 0
            ||| n < 2 && (field_type == "SHRT"@ || field_type == "USHRT"@ || field_type == "STR"@
                || field_type == "WSTR"@)
            ||| n < 4 && (field_type == "INT"@ || field_type == "UINT"@ || field_type == "FLT"@)
            ||| n < 8 && (field_type == "DBL"@ || field_type == "GID"@ || field_type == "UINT64"@)
            ||| n >= 2 && n < 2 + data[0] + 0x100 * data[1] && field_type == "STR"@
            ||| n >= 2 && n < 2 + 2 * (data[0] + 0x100 * data[1]) && field_type == "WSTR"@
        }),
    ensures
        read_value(field_type, data) == FieldValueView::Text(seq!['?']),
        read_size(field_type, data) == 0,
{
    lemma_type_names();
}

/// The names for types that read alike: a byte may be signed or not, and an identifier is a
/// 64-bit number. A type without a name of its own is one byte, shown in hexadecimal.
pub proof fn law_types_that_read_alike(field_type: Seq<char>, data: Seq<u8>)
    ensures
        read_value("BYT"@, data) == read_value("UBYT"@, data),
        read_size("BYT"@, data) == read_size("UBYT"@, data),
        read_value("UINT64"@, data) == read_value("GID"@, data),
        read_size("UINT64"@, data) == read_size("GID"@, data),
        data.len() > 0 && field_type != "BYT"@ && field_type != "UBYT"@ && field_type != "SHRT"@
            && field_type != "USHRT"@ && field_type != "INT"@ && field_type != "UINT"@ && field_type
            != "FLT"@ && field_type != "DBL"@ && field_type != "STR"@ && field_type != "WSTR"@
            && field_type != "GID"@ && field_type != "UINT64"@ ==> read_value(field_type, data)
            == FieldValueView::Text(seq!['0', 'x'] + text::hex(data[0] as nat, 2)) && read_size(
            field_type,
            data,
        ) == 1,
{
    lemma_type_names();
}

/// The printable bytes are those from 0x20 to 0x7E. A printable two-byte character is one of them
/// with a zero behind it, and stands for the same character.
pub proof fn law_printable_characters(data: Seq<u8>, i: int, n: nat)
    ensures
        0 <= i < data.len() ==> (is_printable(data[i]) <==> 0x20 <= data[i] <= 0x7E),
        is_wide_char(data, i) <==> 0 <= i < data.len() - 1 && 0x20 <= data[i] <= 0x7E && data[i + 1] == 0,
        wide_chars(data, i, n).len() == n,
        forall|j: int| 0 <= j < n ==> (#[trigger] wide_chars(data, i, n)[j]) as int == data[i + 2 * j],
        text::byte_chars(data).len() == data.len(),
        forall|j: int| 0 <= j < data.len() ==> (#[trigger] text::byte_chars(data)[j]) as int == data[j],
{
}

proof fn lemma_ascii_runs(data: Seq<u8>, i: int) -> (runs: Seq<(int, int)>)
    requires
        0 <= i,
        i > 0 && i <= data.len() ==> !is_printable(data[i - 1]),
    ensures
        runs.len() == ascii_strings(data, i).len(),
        forall|k: int|
            0 <= k < runs.len() ==> i <= (#[trigger] runs[k]).0 && is_long_text(
                data,
                runs[k].0,
                runs[k].1,
                ascii_strings(data, i)[k],
            ),
        forall|j: int, k: int| 0 <= j < k < runs.len() ==> (#[trigger] runs[j]).1 < (#[trigger] runs[k]).0,
        forall|a: int, b: int|
            #[trigger] is_longest_run(data, a, b) && a >= i && b - a >= 6 ==> runs.contains((a, b)),
    decreases (if i < data.len() { data.len() - i } else { 0 }),
{
    if i >= data.len() {
        Seq::empty()
    } else {
        lemma_printable_run(data, i);
        let n = printable_run(data, i);
        let rest = ascii_strings(data, i + n + 1);
        let behind = lemma_ascii_runs(data, i + n + 1);
        let runs = if n >= 6 { seq![(i, i + n)] + behind } else { behind };
        let shift = if n >= 6 { 1int } else { 0 };
        assert forall|k: int| 0 <= k < runs.len() implies i <= (#[trigger] runs[k]).0 && is_long_text(
            data,
            runs[k].0,
            runs[k].1,
            ascii_strings(data, i)[k],
        ) by {
            if k >= shift {
                assert(runs[k] == behind[k - shift]);
                assert(ascii_strings(data, i)[k] == rest[k - shift]);
            }
        }
        assert forall|j: int, k: int| 0 <= j < k < runs.len() implies (#[trigger] runs[j]).1 < (
        #[trigger] runs[k]).0 by {
            assert(runs[k] == behind[k - shift]);
            if j >= shift {
                assert(runs[j] == behind[j - shift]);
            }
        }
        assert forall|a: int, b: int|
            #[trigger] is_longest_run(data, a, b) && a >= i && b - a >= 6 implies runs.contains((a, b)) by {
            if a > i + n {
                let k = choose|k: int| 0 <= k < behind.len() && behind[k] == (a, b);
                assert(runs[k + shift] == (a, b));
            } else {
                if a > i {
                    assert(is_printable(data[a - 1]));
                }
                if b < i + n {
                    assert(is_printable(data[b]));
                }
                if i + n < b {
                    assert(is_printable(data[i + n]));
                }
                assert(runs[0] == (a, b));
            }
        }
        runs
    }
}

/// The extracted texts stand in the order of their runs, one text for each run.
pub proof fn law_ascii_strings_stand_in_order(data: Seq<u8>) -> (runs: Seq<(int, int)>)
    ensures
        runs.len() == ascii_strings(data, 0).len(),
        forall|k: int|
            0 <= k < runs.len() ==> is_long_text(
                data,
                (#[trigger] runs[k]).0,
                runs[k].1,
                ascii_strings(data, 0)[k],
            ),
        forall|j: int, k: int| 0 <= j < k < runs.len() ==> (#[trigger] runs[j]).1 < (#[trigger] runs[k]).0,
        forall|a: int, b: int|
            #[trigger] is_longest_run(data, a, b) && b - a >= 6 ==> runs.contains((a, b)),
{
    lemma_ascii_runs(data, 0)
}

proof fn lemma_wide_runs(data: Seq<u8>, i: int) -> (runs: Seq<(int, int)>)
    requires
        0 <= i,
        between_wide_chars(data, i),
    ensures
        runs.len() == utf16_strings(data, i).len(),
        forall|k: int|
            0 <= k < runs.len() ==> i <= (#[trigger] runs[k]).0 && is_long_wide_text(
                data,
                runs[k].0,
                runs[k].1,
                utf16_strings(data, i)[k],
            ),
        forall|j: int, k: int|
            0 <= j < k < runs.len() ==> (#[trigger] runs[j]).0 + 2 * runs[j].1 < (#[trigger] runs[k]).0,
        forall|a: int, n: int|
            #[trigger] is_longest_wide_run(data, a, n) && a >= i && n >= 4 ==> runs.contains((a, n)),
    decreases (if i < data.len() { data.len() - i } else { 0 }),
{
    if i + 1 >= data.len() {
        assert forall|a: int, n: int|
            #[trigger] is_longest_wide_run(data, a, n) && a >= i && n >= 4 implies false by {
            assert(is_wide_char(data, a + 2 * 0));
        }
        Seq::empty()
    } else {
        lemma_wide_run(data, i);
        lemma_wide_run_stops(data, i);
        lemma_after_wide_run(data, i);
        let m = wide_run(data, i);
        let rest = utf16_strings(data, i + 2 * m + 1);
        let behind = lemma_wide_runs(data, i + 2 * m + 1);
        let runs = if m >= 4 { seq![(i, m)] + behind } else { behind };
        let shift = if m >= 4 { 1int } else { 0 };
        assert forall|k: int| 0 <= k < runs.len() implies i <= (#[trigger] runs[k]).0 && is_long_wide_text(
            data,
            runs[k].0,
            runs[k].1,
            utf16_strings(data, i)[k],
        ) by {
            if k >= shift {
                assert(runs[k] == behind[k - shift]);
                assert(utf16_strings(data, i)[k] == rest[k - shift]);
            }
        }
        assert forall|j: int, k: int| 0 <= j < k < runs.len() implies (#[trigger] runs[j]).0 + 2
            * runs[j].1 < (#[trigger] runs[k]).0 by {
            assert(runs[k] == behind[k - shift]);
            if j >= shift {
                assert(runs[j] == behind[j - shift]);
            }
        }
        assert forall|a: int, n: int|
            #[trigger] is_longest_wide_run(data, a, n) && a >= i && n >= 4 implies runs.contains((a, n)) by {
            assert(is_wide_char(data, a + 2 * 0));
            if a > i + 2 * m {
                let k = choose|k: int| 0 <= k < behind.len() && behind[k] == (a, n);
                assert(runs[k + shift] == (a, n));
            } else {
                if a > i {
                    let k = (a - i) / 2;
                    if a == i + 2 * k {
                        assert(is_wide_char(data, i + 2 * (k - 1)));
                    } else {
                        assert(a == i + 2 * k + 1);
                        assert(is_wide_char(data, i + 2 * k));
                    }
                }
                if m < n {
                    assert(is_wide_char(data, a + 2 * m));
                }
                if n < m {
                    assert(is_wide_char(data, i + 2 * n));
                }
                assert(runs[0] == (a, n));
            }
        }
        runs
    }
}

/// The extracted wide texts stand in the order of their runs, one text for each run.
pub proof fn law_utf16_strings_stand_in_order(data: Seq<u8>) -> (runs: Seq<(int, int)>)
    ensures
        runs.len() == utf16_strings(data, 0).len(),
        forall|k: int|
            0 <= k < runs.len() ==> is_long_wide_text(
                data,
                (#[trigger] runs[k]).0,
                runs[k].1,
                utf16_strings(data, 0)[k],
            ),
        forall|j: int, k: int|
            0 <= j < k < runs.len() ==> (#[trigger] runs[j]).0 + 2 * runs[j].1 < (#[trigger] runs[k]).0,
        forall|a: int, n: int|
            #[trigger] is_longest_wide_run(data, a, n) && n >= 4 ==> runs.contains((a, n)),
{
    let runs = lemma_wide_runs(data, 0);
    assert forall|a: int, n: int| #[trigger] is_longest_wide_run(data, a, n) && n >= 4 implies runs.contains(
        (a, n),
    ) by {
        assert(is_wide_char(data, a + 2 * 0));
    }
    runs
}

/// The fields for readable texts: the wide texts, then the others, each in quotes under a number
/// of its own, and without raw bytes.
pub proof fn law_readable_fields(data: Seq<u8>, i: int)
    requires
        0 <= i < readable_fields(data).len(),
        i < 0x1_0000_0000,
    ensures
        ({
            let wide = utf16_strings(data, 0);
            let narrow = ascii_strings(data, 0);
            let field = readable_fields(data)[i];
            let is_wide = i < wide.len();
            let s = if is_wide { wide[i] } else { narrow[i - wide.len()] };
            &&& readable_fields(data).len() == wide.len() + narrow.len()
            &&& field.name == (if is_wide { "wstr_"@ } else { "str_"@ }) + text::decimal(i as nat)
            &&& field.field_type == (if is_wide { "WSTR"@ } else { "STR"@ })
            &&& field.value == FieldValueView::Text(seq!['"'] + s + seq!['"'])
            &&& field.raw_bytes.len() == 0
        }),
{
    let wide = utf16_strings(data, 0);
    let narrow = ascii_strings(data, 0);
    let s = if i < wide.len() { wide[i] } else { narrow[i - wide.len()] };
    assert(text::quoted(s) =~= seq!['"'] + s + seq!['"']);
    assert(i % 0x1_0000_0000 == i);
}

/// Whether the eight bytes at place `k`, low byte first, are an address from 0x1_0000_0000 up to
/// 0x7FFF_FFFF_FFFF.
pub open spec fn address_at(data: Seq<u8>, k: int) -> bool {
    let value = data[8 * k] + 0x100 * data[8 * k + 1] + 0x1_0000 * data[8 * k + 2] + 0x100_0000 * data[8
        * k + 3] + 0x1_0000_0000 * data[8 * k + 4] + 0x100_0000_0000 * data[8 * k + 5]
        + 0x1_0000_0000_0000 * data[8 * k + 6] + 0x100_0000_0000_0000 * data[8 * k + 7];
    0x1_0000_0000 <= value < 0x7FFF_FFFF_FFFF
}

proof fn lemma_pointer_count(data: Seq<u8>, count: int)
    requires
        0 <= 8 * count <= data.len(),
    ensures
        pointer_count(data, count) >= 0,
        pointer_count(data, count) >= 1 <==> exists|k: int| 0 <= k < count && #[trigger] address_at(data, k),
        pointer_count(data, count) >= 2 <==> exists|j: int, k: int|
            0 <= j < k < count && #[trigger] address_at(data, j) && #[trigger] address_at(data, k),
    decreases count,
{
    if count > 0 {
        let last = count - 1;
        lemma_pointer_count(data, last);
        assert(is_user_pointer(bytes::le64(data, 8 * last)) <==> address_at(data, last));
        if pointer_count(data, count) >= 2 {
            if address_at(data, last) {
                let j = choose|j: int| 0 <= j < last && #[trigger] address_at(data, j);
                assert(address_at(data, j) && address_at(data, last));
            }
        }
    }
}

/// Data is raw memory exactly if two of its first eight 8-byte places hold addresses.
pub proof fn law_raw_memory_holds_two_addresses(data: Seq<u8>)
    ensures
        contains_pointers(data) <==> exists|j: int, k: int|
            0 <= j < k < 8 && 8 * k + 8 <= data.len() && #[trigger] address_at(data, j)
                && #[trigger] address_at(data, k),
{
    let count = (if data.len() < 64 { data.len() as int } else { 64 }) / 8;
    lemma_pointer_count(data, count);
    if contains_pointers(data) {
        let (j, k) = choose|j: int, k: int|
            0 <= j < k < count && #[trigger] address_at(data, j) && #[trigger] address_at(data, k);
        assert(address_at(data, j) && address_at(data, k));
    }
    if exists|j: int, k: int|
        0 <= j < k < 8 && 8 * k + 8 <= data.len() && #[trigger] address_at(data, j) && #[trigger] address_at(
            data,
            k,
        ) {
        let (j, k) = choose|j: int, k: int|
            0 <= j < k < 8 && 8 * k + 8 <= data.len() && #[trigger] address_at(data, j)
                && #[trigger] address_at(data, k);
        assert(k < count);
        assert(address_at(data, j) && address_at(data, k));
    }
}

/// A message with a definition is decoded by it, unless it is raw memory or nothing comes out; then,
/// and without a definition, its readable texts stand for it. Its names come from the service and
/// the definition.
pub proof fn law_messages_are_decoded(
    service_id: u8,
    message_id: u8,
    payload: Seq<u8>,
    services: Map<u8, schema::DmlServiceView>,
)
    ensures
        ({
            let decoded = decoded_message(service_id, message_id, payload, services);
            let known = services.dom().contains(service_id);
            let def = schema::definition_in(services, service_id, message_id);
            &&& known ==> decoded.service_name == services[service_id].name
            &&& !known ==> decoded.service_name == "Unknown"@
            &&& def is Some ==> decoded.message_name == def->0.name
            &&& def is None ==> decoded.message_name == "Message #"@ + text::decimal(message_id as nat)
            &&& def is Some && !contains_pointers(payload) && payload.len() > 0 && def->0.fields.len() > 0
                ==> decoded.fields == decoded_fields(payload, def->0.fields)
            &&& def is None || contains_pointers(payload) || payload.len() == 0 || def->0.fields.len() == 0
                ==> decoded.fields == readable_fields(payload)
        }),
{
}

/// The values of a decoded message are those of its fields.
pub proof fn law_decoded_values(field: DecodedField, message: DecodedMessage, i: int)
    ensures
        field@.name == field.name@,
        field@.field_type == field.field_type@,
        field@.raw_bytes == field.raw_bytes@,
        match field.value {
            FieldValue::Text(s) => field@.value == FieldValueView::Text(s@),
            FieldValue::Float { bits32 } => field@.value == (FieldValueView::Float { bits32 }),
            FieldValue::Double { bits64 } => field@.value == (FieldValueView::Double { bits64 }),
        },
        message@.service_name == message.service_name@,
        message@.message_name == message.message_name@,
        message@.fields.len() == message.fields@.len(),
        0 <= i < message.fields@.len() ==> message@.fields[i] == message.fields@[i]@,
{
}

} // verus!
