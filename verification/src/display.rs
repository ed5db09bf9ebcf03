//! How packets are shown: the rows of the list, the details of one packet, and its bytes.

use vstd::prelude::*;
use vstd::string::*;
use vstd::utf8::*;
use crate::kinp;
use crate::kinp::{Direction, KinpMessage, MessageType};
use crate::packet_log;
use crate::packet_log::{PacketEntry, PacketLog};
use crate::schema;
use crate::schema::SchemaRegistry;
use crate::text;
use crate::text::{
    push_decimal, push_hex, push_padded_left, push_padded_right, starts_with_text,
};

verus! {

// ---- cutting text ----

/// Whether a text can be cut to fewer than `max_len` bytes between two characters, or need not
/// be cut.
pub open spec fn can_truncate(s: Seq<char>, max_len: int) -> bool {
    encode_utf8(s).len() <= max_len || (max_len >= 1 && is_char_boundary(encode_utf8(s), max_len - 1))
}

/// A text in at most `max_len` bytes: a longer one is cut, and ends in a tilde.
pub open spec fn truncated(s: Seq<char>, max_len: int) -> Seq<char> {
    if encode_utf8(s).len() <= max_len {
        s
    } else {
        decode_utf8(encode_utf8(s).take(max_len - 1)).push('~')
    }
}

/// Whether `truncate_str` can cut this text.
pub fn truncatable(s: &str, max_len: usize) -> (r: bool)
    ensures
        r == can_truncate(s@, max_len as int),
{
    s.as_bytes().len() <= max_len || (max_len >= 1 && s.is_char_boundary(max_len - 1))
}

/// Cuts a text to `max_len` bytes, with a tilde at the end of what was cut.
pub fn truncate_str(s: &str, max_len: usize) -> (out: String)
    requires
        can_truncate(s@, max_len as int),
    ensures
        out@ == truncated(s@, max_len as int),
{
    if s.as_bytes().len() <= max_len {
        s.to_owned()
    } else {
        let (head, _tail) = s.split_at(max_len - 1);
        let mut out = String::new();
        out.append(head);
        out.push('~');
        proof {
            encode_utf8_decode_utf8(head@);
            assert(head.spec_bytes() =~= encode_utf8(s@).take(max_len - 1));
            assert(out@ =~= head@.push('~'));
        }
        out
    }
}

// ---- bytes in hexadecimal ----

/// The bytes of a line in hexadecimal, from the `j`-th on: a space behind each, and one more
/// behind the eighth.
pub open spec fn hex_bytes(chunk: Seq<u8>, j: int) -> Seq<char>
    decreases chunk.len() - j,
{
    if j >= chunk.len() || j < 0 {
        Seq::empty()
    } else {
        text::hex(chunk[j] as nat, 2).push(' ') + (if j == 7 { seq![' '] } else { Seq::empty() })
            + hex_bytes(chunk, j + 1)
    }
}

/// A byte as it is shown in text.
pub open spec fn shown_byte(b: u8) -> char {
    if 0x20 <= b <= 0x7E {
        b as char
    } else {
        '.'
    }
}

/// One line of a dump: the offset, up to sixteen bytes in hexadecimal, and the same as text.
pub open spec fn dump_line(offset: nat, chunk: Seq<u8>) -> Seq<char> {
    text::hex(offset, 4) + seq![' ', ' '] + hex_bytes(chunk, 0) + text::spaces(3 * (16 - chunk.len()))
        + (if chunk.len() <= 8 { seq![' '] } else { Seq::empty() }) + seq![' ', '|'] + Seq::new(
        chunk.len(),
        |i: int| shown_byte(chunk[i]),
    ) + seq!['|', '\n']
}

/// The dump of the bytes from `offset` on.
pub open spec fn dump_from(data: Seq<u8>, offset: int) -> Seq<char>
    decreases data.len() - offset,
{
    if offset < 0 || offset >= data.len() {
        Seq::empty()
    } else {
        let end = if offset + 16 < data.len() { offset + 16 } else { data.len() as int };
        dump_line(offset as nat, data.subrange(offset, end)) + dump_from(data, end)
    }
}

fn push_hex_bytes(out: &mut String, chunk: &[u8])
    requires
        chunk@.len() <= 16,
    ensures
        final(out)@ == old(out)@ + hex_bytes(chunk@, 0),
{
    let mut j: usize = 0;
    while j < chunk.len()
        invariant
            j <= chunk@.len() <= 16,
            old(out)@ + hex_bytes(chunk@, 0) == out@ + hex_bytes(chunk@, j as int),
        decreases chunk@.len() - j,
    {
        let ghost before = out@;
        push_hex(out, chunk[j] as u64, 2);
        out.push(' ');
        if j == 7 {
            out.push(' ');
        }
        proof {
            let this = text::hex(chunk@[j as int] as nat, 2).push(' ') + (if j == 7 {
                seq![' ']
            } else {
                Seq::empty()
            });
            assert(out@ =~= before + this);
            assert(before + (this + hex_bytes(chunk@, j + 1)) =~= (before + this) + hex_bytes(
                chunk@,
                j + 1,
            ));
        }
        j += 1;
    }
    assert(out@ + hex_bytes(chunk@, j as int) =~= out@);
}

fn push_dump_line(out: &mut String, offset: usize, chunk: &[u8])
    requires
        chunk@.len() <= 16,
    ensures
        final(out)@ == old(out)@ + dump_line(offset as nat, chunk@),
{
    let n: usize = chunk.len();
    push_hex(out, offset as u64, 4);
    out.push(' ');
    out.push(' ');
    push_hex_bytes(out, chunk);
    text::push_spaces(out, 3 * (16 - n));
    if n <= 8 {
        out.push(' ');
    }
    out.push(' ');
    out.push('|');
    let ghost front = out@;
    let mut i: usize = 0;
    while i < n
        invariant
            n == chunk@.len(),
            i <= n,
            out@ == front + Seq::new(i as nat, |k: int| shown_byte(chunk@[k])),
        decreases n - i,
    {
        let b: u8 = chunk[i];
        out.push(if b >= 0x20 && b <= 0x7E { b as char } else { '.' });
        i += 1;
        assert(out@ =~= front + Seq::new(i as nat, |k: int| shown_byte(chunk@[k])));
    }
    out.push('|');
    out.push('\n');
    assert(out@ =~= old(out)@ + dump_line(offset as nat, chunk@));
}

/// Shows bytes in hexadecimal and as text, sixteen to a line.
pub fn hex_dump(data: &[u8]) -> (out: String)
    ensures
        out@ == dump_from(data@, 0),
{
    let mut out = String::new();
    let len: usize = data.len();
    let mut offset: usize = 0;
    assert(out@ + dump_from(data@, 0) =~= dump_from(data@, 0));
    while offset < len
        invariant
            len == data@.len(),
            offset <= len,
            dump_from(data@, 0) == out@ + dump_from(data@, offset as int),
        decreases len - offset,
    {
        let end: usize = if len - offset > 16 {
            offset + 16
        } else {
            len
        };
        let chunk = vstd::slice::slice_subrange(data, offset, end);
        let ghost before = out@;
        push_dump_line(&mut out, offset, chunk);
        proof {
            let line = dump_line(offset as nat, chunk@);
            assert(before + (line + dump_from(data@, end as int)) =~= (before + line) + dump_from(
                data@,
                end as int,
            ));
        }
        offset = end;
    }
    assert(out@ + dump_from(data@, offset as int) =~= out@);
    out
}

// ---- the rows of the list ----

/// Six columns of a row.
pub open spec fn columns(
    number: Seq<char>,
    time: Seq<char>,
    dir: Seq<char>,
    service: Seq<char>,
    message: Seq<char>,
    size: Seq<char>,
) -> Seq<char> {
    text::padded_right(number, 5).push(' ') + text::padded_right(time, 14).push(' ')
        + text::padded_right(dir, 8).push(' ') + text::padded_right(service, 12).push(' ')
        + text::padded_right(message, 18).push(' ') + text::padded_left(size, 5)
}

fn column_text(number: &str, time: &str, dir: &str, service: &str, message: &str, size: &str) -> (out:
    String)
    ensures
        out@ == columns(number@, time@, dir@, service@, message@, size@),
{
    let mut out = String::new();
    push_padded_right(&mut out, number, 5);
    out.push(' ');
    push_padded_right(&mut out, time, 14);
    out.push(' ');
    push_padded_right(&mut out, dir, 8);
    out.push(' ');
    push_padded_right(&mut out, service, 12);
    out.push(' ');
    push_padded_right(&mut out, message, 18);
    out.push(' ');
    push_padded_left(&mut out, size, 5);
    proof {
        lemma_columns(
            text::padded_right(number@, 5),
            text::padded_right(time@, 14),
            text::padded_right(dir@, 8),
            text::padded_right(service@, 12),
            text::padded_right(message@, 18),
            text::padded_left(size@, 5),
        );
    }
    out
}

proof fn lemma_columns(
    a: Seq<char>,
    b: Seq<char>,
    c: Seq<char>,
    d: Seq<char>,
    e: Seq<char>,
    f: Seq<char>,
)
    ensures
        ((((((Seq::<char>::empty() + a).push(' ') + b).push(' ') + c).push(' ') + d).push(' ') + e).push(
            ' ',
        ) + f) == a.push(' ') + b.push(' ') + c.push(' ') + d.push(' ') + e.push(' ') + f,
{
    assert(((((((Seq::<char>::empty() + a).push(' ') + b).push(' ') + c).push(' ') + d).push(' ')
        + e).push(' ') + f) =~= a.push(' ') + b.push(' ') + c.push(' ') + d.push(' ') + e.push(' ') + f);
}

/// The line above the list.
pub fn header_text() -> (out: String)
    ensures
        out@ == columns("#"@, "Time"@, "Dir"@, "Service"@, "Message"@, "Size"@),
{
    column_text("#", "Time", "Dir", "Service", "Message", "Size")
}

/// Whether a message is shown as plaintext.
pub open spec fn shown_as_plaintext(msg: kinp::KinpMessageView) -> bool {
    text::occurs_at(msg.src, "plaintext"@, 0)
}

/// The direction column.
pub open spec fn direction_column(direction: Direction, plaintext: bool) -> Seq<char> {
    match direction {
        Direction::ClientToServer => if plaintext {
            "PT C->S"@
        } else {
            "C->S"@
        },
        Direction::ServerToClient => if plaintext {
            "PT S->C"@
        } else {
            "S->C"@
        },
    }
}

/// The service column before it is cut: the service's name, or its lack, or what the message
/// is.
pub open spec fn service_column(
    entry: packet_log::PacketEntryView,
    services: Map<u8, schema::DmlServiceView>,
) -> Seq<char> {
    match entry.decoded {
        Some(d) => d.service_name,
        None => match entry.msg.service_id {
            Some(id) => if services.dom().contains(id) {
                services[id].name
            } else {
                "?"@
            },
            None => match entry.msg.msg_type {
                MessageType::Control { .. } => "Control"@,
                MessageType::Encrypted => "Encrypted"@,
                _ => "?"@,
            },
        },
    }
}

/// The message column before it is cut: the message's name, or its number, or nothing.
pub open spec fn message_column(entry: packet_log::PacketEntryView) -> Seq<char> {
    match entry.decoded {
        Some(d) => d.message_name,
        None => match entry.msg.message_id {
            Some(id) => seq!['#'] + text::decimal(id as nat),
            None => Seq::empty(),
        },
    }
}

/// The size column.
pub open spec fn size_column(payload_len: nat) -> Seq<char> {
    text::decimal(payload_len).push('B')
}

/// The row of a packet.
pub open spec fn row(
    index: nat,
    entry: packet_log::PacketEntryView,
    services: Map<u8, schema::DmlServiceView>,
) -> Seq<char> {
    columns(
        text::decimal(index),
        entry.msg.timestamp,
        direction_column(entry.msg.direction, shown_as_plaintext(entry.msg)),
        truncated(service_column(entry, services), 12),
        truncated(message_column(entry), 18),
        size_column(entry.msg.raw_payload.len()),
    )
}

/// Whether the row of a packet can be made: its names can be cut to their columns.
pub open spec fn row_fits(
    entry: packet_log::PacketEntryView,
    services: Map<u8, schema::DmlServiceView>,
) -> bool {
    can_truncate(service_column(entry, services), 12) && can_truncate(message_column(entry), 18)
}

/// Whether a message is shown as plaintext.
pub fn plaintext_message(msg: &KinpMessage) -> (r: bool)
    ensures
        r == shown_as_plaintext(msg@),
{
    starts_with_text(msg.src.as_str(), "plaintext")
}

/// The direction column.
pub fn direction_text(direction: Direction, plaintext: bool) -> (out: String)
    ensures
        out@ == direction_column(direction, plaintext),
{
    match direction {
        Direction::ClientToServer => if plaintext {
            "PT C->S".to_owned()
        } else {
            "C->S".to_owned()
        },
        Direction::ServerToClient => if plaintext {
            "PT S->C".to_owned()
        } else {
            "S->C".to_owned()
        },
    }
}

/// The colour of a row, in red, green and blue: orange and purple for plaintext, blue and green
/// for what went over the socket.
pub open spec fn row_rgb(direction: Direction, plaintext: bool) -> (u8, u8, u8) {
    match direction {
        Direction::ClientToServer => if plaintext {
            (255u8, 200u8, 100u8)
        } else {
            (100u8, 180u8, 255u8)
        },
        Direction::ServerToClient => if plaintext {
            (255u8, 160u8, 255u8)
        } else {
            (100u8, 255u8, 140u8)
        },
    }
}

/// The colour of a row, in red, green and blue: orange and purple for plaintext, blue and green
/// for what went over the socket.
pub fn row_color(direction: Direction, plaintext: bool) -> (rgb: (u8, u8, u8))
    ensures
        rgb == row_rgb(direction, plaintext),
{
    match direction {
        Direction::ClientToServer => if plaintext {
            (255, 200, 100)
        } else {
            (100, 180, 255)
        },
        Direction::ServerToClient => if plaintext {
            (255, 160, 255)
        } else {
            (100, 255, 140)
        },
    }
}

/// The service column before it is cut.
pub fn service_text(entry: &PacketEntry, registry: &SchemaRegistry) -> (out: String)
    ensures
        out@ == service_column(entry@, registry@),
{
    match &entry.decoded {
        Some(d) => d.service_name.clone(),
        None => match entry.msg.service_id {
            Some(id) => match registry.get_service_name(id) {
                Some(name) => name.to_owned(),
                None => "?".to_owned(),
            },
            None => match entry.msg.msg_type {
                MessageType::Control { .. } => "Control".to_owned(),
                MessageType::Encrypted => "Encrypted".to_owned(),
                _ => "?".to_owned(),
            },
        },
    }
}

/// The message column before it is cut.
pub fn message_text(entry: &PacketEntry) -> (out: String)
    ensures
        out@ == message_column(entry@),
{
    match &entry.decoded {
        Some(d) => d.message_name.clone(),
        None => {
            let mut out = String::new();
            match entry.msg.message_id {
                Some(id) => {
                    out.push('#');
                    push_decimal(&mut out, id as u64);
                    assert(out@ =~= seq!['#'] + text::decimal(id as nat));
                },
                None => {},
            }
            out
        },
    }
}

/// Whether the row of a packet can be made.
pub fn row_can_be_made(entry: &PacketEntry, registry: &SchemaRegistry) -> (r: bool)
    ensures
        r == row_fits(entry@, registry@),
{
    truncatable(service_text(entry, registry).as_str(), 12) && truncatable(
        message_text(entry).as_str(),
        18,
    )
}

/// The row of a packet.
pub fn row_text(index: usize, entry: &PacketEntry, registry: &SchemaRegistry) -> (out: String)
    requires
        row_fits(entry@, registry@),
    ensures
        out@ == row(index as nat, entry@, registry@),
{
    let number: String = text::decimal_text(index as u64);
    let dir: String = direction_text(entry.msg.direction, plaintext_message(&entry.msg));
    let service: String = truncate_str(service_text(entry, registry).as_str(), 12);
    let message: String = truncate_str(message_text(entry).as_str(), 18);
    let mut size: String = text::decimal_text(entry.msg.raw_payload.len() as u64);
    size.push('B');
    column_text(
        number.as_str(),
        entry.msg.timestamp.as_str(),
        dir.as_str(),
        service.as_str(),
        message.as_str(),
        size.as_str(),
    )
}

// ---- the details of a packet ----

/// What a message is, in words.
pub open spec fn type_words(msg_type: MessageType) -> Seq<char> {
    match msg_type {
        MessageType::Control { opcode } => "Control (opcode: 0x"@ + text::hex(opcode as nat, 2) + ")"@,
        MessageType::Dml { service_id, message_id } => "DML (Svc:"@ + text::decimal(service_id as nat)
            + " Msg:"@ + text::decimal(message_id as nat) + ")"@,
        MessageType::Encrypted => "Encrypted"@,
        MessageType::Unknown => "Unknown"@,
    }
}

/// Which way a message went, in words.
pub open spec fn direction_words(direction: Direction) -> Seq<char> {
    match direction {
        Direction::ClientToServer => "Client -> Server"@,
        Direction::ServerToClient => "Server -> Client"@,
    }
}

/// What a message is, in words.
pub fn type_text(msg_type: MessageType) -> (out: String)
    ensures
        out@ == type_words(msg_type),
{
    match msg_type {
        MessageType::Control { opcode } => {
            let mut out: String = "Control (opcode: 0x".to_owned();
            push_hex(&mut out, opcode as u64, 2);
            out.append(")");
            out
        },
        MessageType::Dml { service_id, message_id } => {
            let mut out: String = "DML (Svc:".to_owned();
            push_decimal(&mut out, service_id as u64);
            out.append(" Msg:");
            push_decimal(&mut out, message_id as u64);
            out.append(")");
            out
        },
        MessageType::Encrypted => "Encrypted".to_owned(),
        MessageType::Unknown => "Unknown".to_owned(),
    }
}

/// The four lines at the top of a packet's details: its time, its direction, where it came
/// from and went, and what it is.
pub fn detail_lines(msg: &KinpMessage) -> (lines: (String, String, String, String))
    ensures
        lines.0@ == "Time: "@ + msg@.timestamp,
        lines.1@ == "Direction: "@ + direction_words(msg@.direction),
        lines.2@ == msg@.src + " -> "@ + msg@.dst,
        lines.3@ == "Type: "@ + type_words(msg@.msg_type),
{
    let time: String = "Time: ".to_owned().concat(msg.timestamp.as_str());
    let way = match msg.direction {
        Direction::ClientToServer => "Client -> Server",
        Direction::ServerToClient => "Server -> Client",
    };
    let direction: String = "Direction: ".to_owned().concat(way);
    let route: String = msg.src.clone().concat(" -> ").concat(msg.dst.as_str());
    let kind: String = "Type: ".to_owned().concat(type_text(msg.msg_type).as_str());
    (time, direction, route, kind)
}

/// The heading above the decoded fields.
pub fn decoded_heading(decoded: &crate::dml::DecodedMessage) -> (out: String)
    ensures
        out@ == decoded@.service_name + " / "@ + decoded@.message_name,
{
    decoded.service_name.clone().concat(" / ").concat(decoded.message_name.as_str())
}

impl PacketLog {
    /// The entry that is selected, if there is one with that index.
    pub fn selected_entry(&self) -> (r: Option<&PacketEntry>)
        ensures
            match self.selected_packet {
                Some(i) if i < self.packets@.len() => r == Some(&self.packets@[i as int]),
                _ => r is None,
            },
    {
        match self.selected_packet {
            Some(i) => if i < self.packets.len() {
                Some(&self.packets[i])
            } else {
                None
            },
            None => None,
        }
    }

    /// How many packets and how many schemas there are, for the status line; the schemas are
    /// left out while there are none.
    pub fn counts_text(&self) -> (r: (String, Option<String>))
        ensures
            r.0@ == "Packets: "@ + text::decimal(self.packets@.len()),
            r.1 is Some <==> self.schema_registry.services@.len() > 0,
            r.1 matches Some(s) ==> s@ == "Schemas: "@ + text::decimal(
                self.schema_registry.services@.len(),
            ),
    {
        let mut packets: String = "Packets: ".to_owned();
        push_decimal(&mut packets, self.packets.len() as u64);
        let n: usize = self.schema_registry.services.len();
        if n == 0 {
            return (packets, None);
        }
        let mut schemas: String = "Schemas: ".to_owned();
        push_decimal(&mut schemas, n as u64);
        (packets, Some(schemas))
    }
}

/// What the status line says.
pub enum Status {
    Ready,
    GameNotFound { reason: String },
    FoundGame { pid: u32 },
    Injected { pid: u32 },
    InjectionFailed { reason: String },
    Stopped,
    Extracted { files: usize },
    ExtractFailed { reason: String },
    NoSchemaDirectory,
    Loaded { schemas: usize },
    LoadFailed { reason: String },
}

impl Status {
    /// The words of the status line.
    pub open spec fn words(self) -> Seq<char> {
        match self {
            Status::Ready => "Ready - click Inject Hook to start"@,
            Status::GameNotFound { reason } => "Game not found: "@ + reason@,
            Status::FoundGame { pid } => "Found game PID: "@ + text::decimal(pid as nat)
                + ". Starting pipe server..."@,
            Status::Injected { pid } => "Hook injected into PID "@ + text::decimal(pid as nat)
                + ". Capturing packets..."@,
            Status::InjectionFailed { reason } => "Injection failed: "@ + reason@,
            Status::Stopped => "Hook stopped"@,
            Status::Extracted { files } => "Extracted "@ + text::decimal(files as nat)
                + " DML XMLs from WAD"@,
            Status::ExtractFailed { reason } => "WAD extract failed: "@ + reason@,
            Status::NoSchemaDirectory => "No schema directory set"@,
            Status::Loaded { schemas } => "Loaded "@ + text::decimal(schemas as nat)
                + " DML schemas"@,
            Status::LoadFailed { reason } => "Schema load error: "@ + reason@,
        }
    }

    /// The words of the status line.
    pub fn text(&self) -> (out: String)
        ensures
            out@ == self.words(),
    {
        match self {
            Status::Ready => "Ready - click Inject Hook to start".to_owned(),
            Status::GameNotFound { reason } => "Game not found: ".to_owned().concat(reason.as_str()),
            Status::FoundGame { pid } => numbered("Found game PID: ", *pid as u64, ". Starting pipe server..."),
            Status::Injected { pid } => numbered(
                "Hook injected into PID ",
                *pid as u64,
                ". Capturing packets...",
            ),
            Status::InjectionFailed { reason } => "Injection failed: ".to_owned().concat(reason.as_str()),
            Status::Stopped => "Hook stopped".to_owned(),
            Status::Extracted { files } => numbered("Extracted ", *files as u64, " DML XMLs from WAD"),
            Status::ExtractFailed { reason } => "WAD extract failed: ".to_owned().concat(reason.as_str()),
            Status::NoSchemaDirectory => "No schema directory set".to_owned(),
            Status::Loaded { schemas } => numbered("Loaded ", *schemas as u64, " DML schemas"),
            Status::LoadFailed { reason } => "Schema load error: ".to_owned().concat(reason.as_str()),
        }
    }
}

fn numbered(before: &str, n: u64, after: &str) -> (out: String)
    ensures
        out@ == before@ + text::decimal(n as nat) + after@,
{
    let mut out: String = before.to_owned();
    push_decimal(&mut out, n);
    out.append(after);
    out
}

// ---- laws ----

proof fn lemma_hex_len(n: nat, width: nat)
    requires
        n < 0x100,
        width == 2,
    ensures
        text::hex(n, width).len() == 2,
{
    reveal_with_fuel(text::hex, 3);
}

proof fn lemma_hex_bytes_len(chunk: Seq<u8>, j: int)
    requires
        0 <= j <= chunk.len(),
    ensures
        hex_bytes(chunk, j).len() == 3 * (chunk.len() - j) + (if j <= 7 < chunk.len() { 1int } else { 0 }),
    decreases chunk.len() - j,
{
    if j < chunk.len() {
        lemma_hex_len(chunk[j] as nat, 2);
        lemma_hex_bytes_len(chunk, j + 1);
    }
}

/// In a dump the text starts in the same column in every line with the same number of digits
/// in its offset, however many bytes the line has, unless it has exactly eight.
pub proof fn law_dump_columns(offset: nat, chunk: Seq<u8>)
    requires
        chunk.len() <= 16,
        chunk.len() != 8,
    ensures
        dump_line(offset, chunk).len() == text::hex(offset, 4).len() + 2 + 49 + 2 + chunk.len() + 2,
        dump_line(offset, chunk)[(text::hex(offset, 4).len() + 2 + 49 + 1) as int] == '|',
{
    lemma_hex_bytes_len(chunk, 0);
}

/// A cut text never takes more than `max_len` bytes.
pub proof fn law_truncated_fits(s: Seq<char>, max_len: int)
    requires
        can_truncate(s, max_len),
    ensures
        encode_utf8(truncated(s, max_len)).len() <= max_len,
{
    let all = encode_utf8(s);
    if all.len() > max_len {
        let head = all.take(max_len - 1);
        encode_utf8_valid_utf8(s);
        assert(head =~= all.subrange(0, max_len - 1));
        valid_utf8_split(all, max_len - 1);
        decode_utf8_encode_utf8(head);
        let text = decode_utf8(head);
        lemma_encode_push_ascii(text, '~');
    }
}

proof fn lemma_encode_push_ascii(s: Seq<char>, c: char)
    requires
        c <= '\u{7f}',
    ensures
        encode_utf8(s.push(c)).len() == encode_utf8(s).len() + 1,
    decreases s.len(),
{
    if s.len() == 0 {
        assert(s.push(c).drop_first() =~= s);
    } else {
        assert(s.push(c).drop_first() =~= s.drop_first().push(c));
        lemma_encode_push_ascii(s.drop_first(), c);
    }
}

/// ASCII names can always be cut, and are cut between their characters.
pub proof fn law_ascii_can_be_cut(s: Seq<char>, max_len: int)
    requires
        max_len >= 1,
        is_ascii_chars(s),
    ensures
        can_truncate(s, max_len),
        truncated(s, max_len) == (if s.len() <= max_len {
            s
        } else {
            s.take(max_len - 1).push('~')
        }),
{
    let all = encode_utf8(s);
    is_ascii_chars_encode_utf8(s);
    if all.len() > max_len {
        let k = max_len - 1;
        encode_utf8_valid_utf8(s);
        assert(all[k] < 0x80) by {
            assert('\0' <= s[k] <= '\u{7f}');
            assert(s[k] as u8 == all[k]);
        }
        is_char_boundary_iff_not_is_continuation_byte(all, k);
        let head = s.take(k);
        assert(is_ascii_chars(head)) by {
            assert forall|i: int| 0 <= i < head.len() implies '\0' <= #[trigger] head[i] <= '\u{7f}' by {
                assert(head[i] == s[i]);
            }
        }
        is_ascii_chars_encode_utf8(head);
        assert(encode_utf8(head) =~= all.take(k)) by {
            assert forall|i: int| 0 <= i < k implies #[trigger] encode_utf8(head)[i] == all.take(k)[i] by {
                assert(head[i] == s[i]);
                assert(head[i] as u8 == encode_utf8(head)[i]);
                assert(s[i] as u8 == all[i]);
            }
        }
        encode_utf8_decode_utf8(head);
    }
}

// ---- laws on the bytes of a packet ----

proof fn lemma_two_digits(b: u8)
    ensures
        text::hex(b as nat, 2).len() == 2,
        16 * text::hex_digit_value(text::hex(b as nat, 2)[0]) + text::hex_digit_value(
            text::hex(b as nat, 2)[1],
        ) == b,
{
    let s = text::hex(b as nat, 2);
    lemma_hex_len(b as nat, 2);
    text::law_hex_is_the_number(b as nat, 2);
    reveal_with_fuel(text::hex_value, 3);
    assert(s.drop_last().last() == s[0]);
    assert(s.drop_last().drop_last().len() == 0);
}

proof fn lemma_hex_byte_at(chunk: Seq<u8>, j: int, i: int)
    requires
        0 <= j <= i < chunk.len(),
    ensures
        ({
            let at = 3 * (i - j) + (if j <= 7 < i { 1int } else { 0 });
            let s = hex_bytes(chunk, j);
            &&& at + 2 < s.len()
            &&& 16 * text::hex_digit_value(s[at]) + text::hex_digit_value(s[at + 1]) == chunk[i]
            &&& s[at + 2] == ' '
        }),
    decreases i - j,
{
    lemma_two_digits(chunk[j]);
    let first = text::hex(chunk[j] as nat, 2).push(' ') + (if j == 7 { seq![' '] } else { Seq::empty() });
    let rest = hex_bytes(chunk, j + 1);
    let s = hex_bytes(chunk, j);
    assert(s == first + rest);
    if i == j {
        assert(s[0] == first[0] && s[1] == first[1] && s[2] == first[2]);
    } else {
        lemma_hex_byte_at(chunk, j + 1, i);
        let at = 3 * (i - j) + (if j <= 7 < i { 1int } else { 0 });
        let inner = at - first.len();
        assert(s[at] == rest[inner] && s[at + 1] == rest[inner + 1] && s[at + 2] == rest[inner + 2]);
    }
}

/// A line of a dump begins with its offset in hexadecimal, four digits or more, and two spaces. Each
/// byte stands behind them as two hexadecimal digits of its value, in a column of its own that is
/// three wide, with a gap of one more behind the eighth.
pub proof fn law_dump_shows_each_byte(offset: nat, chunk: Seq<u8>, i: int)
    requires
        0 <= i < chunk.len() <= 16,
    ensures
        ({
            let line = dump_line(offset, chunk);
            let w = text::hex(offset, 4).len() as int;
            let at = w + 2 + 3 * i + (if i >= 8 { 1int } else { 0 });
            &&& w >= 4
            &&& line.subrange(0, w) == text::hex(offset, 4)
            &&& line[w] == ' ' && line[w + 1] == ' '
            &&& 16 * text::hex_digit_value(line[at]) + text::hex_digit_value(line[at + 1]) == chunk[i]
            &&& line[at + 2] == ' '
        }),
{
    let digits = text::hex(offset, 4);
    let w = digits.len() as int;
    text::law_hex_is_the_number(offset, 4);
    lemma_hex_byte_at(chunk, 0, i);
    let front = digits + seq![' ', ' '];
    let bytes = hex_bytes(chunk, 0);
    let back = text::spaces(3 * (16 - chunk.len())) + (if chunk.len() <= 8 {
        seq![' ']
    } else {
        Seq::empty()
    }) + seq![' ', '|'] + Seq::new(chunk.len(), |k: int| shown_byte(chunk[k])) + seq!['|', '\n'];
    let line = dump_line(offset, chunk);
    assert(line =~= front + bytes + back);
    assert(line.subrange(0, w) =~= digits);
    let inner = 3 * i + (if i >= 8 { 1int } else { 0 });
    assert(line[w + 2 + inner] == bytes[inner]);
    assert(line[w + 2 + inner + 1] == bytes[inner + 1]);
    assert(line[w + 2 + inner + 2] == bytes[inner + 2]);
}

/// A line of a dump ends with the bytes as text between two bars, one character for each: the byte
/// itself from 0x20 to 0x7E, and a dot for every other.
pub proof fn law_dump_shows_text(offset: nat, chunk: Seq<u8>, i: int)
    requires
        0 <= i < chunk.len() <= 16,
    ensures
        ({
            let line = dump_line(offset, chunk);
            let start = line.len() - 2 - chunk.len();
            &&& line[start - 1] == '|'
            &&& line[start + i] as int == (if 0x20 <= chunk[i] <= 0x7E {
                chunk[i] as int
            } else {
                '.' as int
            })
            &&& line[line.len() - 2] == '|'
            &&& line.last() == '\n'
        }),
{
}

/// The first `n` lines of a dump.
pub open spec fn dump_lines(data: Seq<u8>, n: nat) -> Seq<char>
    decreases n,
{
    if n == 0 {
        Seq::empty()
    } else {
        let from = 16 * (n - 1);
        let to = if from + 16 <= data.len() { from + 16 } else { data.len() as int };
        dump_lines(data, (n - 1) as nat) + dump_line(from as nat, data.subrange(from, to))
    }
}

proof fn lemma_dump_lines(data: Seq<u8>, n: nat)
    requires
        16 * n < data.len() + 16,
    ensures
        dump_from(data, 0) == dump_lines(data, n) + dump_from(
            data,
            if 16 * n <= data.len() { (16 * n) as int } else { data.len() as int },
        ),
    decreases n,
{
    if n == 0 {
        assert(dump_from(data, 0) =~= dump_lines(data, n) + dump_from(data, 0));
    } else {
        let m = (n - 1) as nat;
        lemma_dump_lines(data, m);
        let from = 16 * m as int;
        let to = if from + 16 <= data.len() { from + 16 } else { data.len() as int };
        assert(from < data.len());
        let line = dump_line(from as nat, data.subrange(from, to));
        assert(dump_from(data, from) == line + dump_from(data, to));
        assert(dump_lines(data, m) + (line + dump_from(data, to)) =~= (dump_lines(data, m) + line)
            + dump_from(data, to));
    }
}

/// A dump has one line for every sixteen bytes, and one for what is left, each with the offset of
/// its first byte.
pub proof fn law_dump_has_sixteen_bytes_a_line(data: Seq<u8>)
    ensures
        dump_from(data, 0) == dump_lines(data, ((data.len() + 15) / 16) as nat),
{
    let n = ((data.len() + 15) / 16) as nat;
    lemma_dump_lines(data, n);
    assert(dump_from(data, data.len() as int) =~= Seq::<char>::empty());
    assert(dump_lines(data, n) + Seq::<char>::empty() =~= dump_lines(data, n));
}

// ---- laws on rows ----

proof fn lemma_six_columns(
    a: Seq<char>,
    b: Seq<char>,
    c: Seq<char>,
    d: Seq<char>,
    e: Seq<char>,
    f: Seq<char>,
)
    requires
        a.len() == 5,
        b.len() == 14,
        c.len() == 8,
        d.len() == 12,
        e.len() == 18,
    ensures
        ({
            let line = a.push(' ') + b.push(' ') + c.push(' ') + d.push(' ') + e.push(' ') + f;
            &&& line.len() == 62 + f.len()
            &&& line.subrange(0, 5) == a
            &&& line.subrange(6, 20) == b
            &&& line.subrange(21, 29) == c
            &&& line.subrange(30, 42) == d
            &&& line.subrange(43, 61) == e
            &&& line.subrange(62, line.len() as int) == f
            &&& line[5] == ' ' && line[20] == ' ' && line[29] == ' ' && line[42] == ' ' && line[61] == ' '
        }),
{
    let line = a.push(' ') + b.push(' ') + c.push(' ') + d.push(' ') + e.push(' ') + f;
    assert(line.subrange(0, 5) =~= a);
    assert(line.subrange(6, 20) =~= b);
    assert(line.subrange(21, 29) =~= c);
    assert(line.subrange(30, 42) =~= d);
    assert(line.subrange(43, 61) =~= e);
    assert(line.subrange(62, line.len() as int) =~= f);
}

/// In a row whose parts fit their columns each part stands in its own: the number in the first five
/// characters, then the time in 14, the direction in 8, the service in 12 and the message in 18,
/// all on the left, and at the end the size in 5 on the right, with a space between two columns.
pub proof fn law_row_columns(
    number: Seq<char>,
    time: Seq<char>,
    dir: Seq<char>,
    service: Seq<char>,
    message: Seq<char>,
    size: Seq<char>,
)
    requires
        number.len() <= 5,
        time.len() <= 14,
        dir.len() <= 8,
        service.len() <= 12,
        message.len() <= 18,
        size.len() <= 5,
    ensures
        ({
            let line = columns(number, time, dir, service, message, size);
            &&& line.len() == 67
            &&& line.subrange(0, number.len() as int) == number
            &&& line.subrange(6, 6int + time.len()) == time
            &&& line.subrange(21, 21int + dir.len()) == dir
            &&& line.subrange(30, 30int + service.len()) == service
            &&& line.subrange(43, 43int + message.len()) == message
            &&& line.subrange(67 - size.len(), 67) == size
            &&& forall|i: int|
                (number.len() <= i < 6 || 6 + time.len() <= i < 21 || 21 + dir.len() <= i < 30 || 30
                    + service.len() <= i < 43 || 43 + message.len() <= i < 67 - size.len())
                    ==> #[trigger] line[i] == ' '
        }),
{
    let a = text::padded_right(number, 5);
    let b = text::padded_right(time, 14);
    let c = text::padded_right(dir, 8);
    let d = text::padded_right(service, 12);
    let e = text::padded_right(message, 18);
    let f = text::padded_left(size, 5);
    let line = columns(number, time, dir, service, message, size);
    lemma_six_columns(a, b, c, d, e, f);
    assert(line.subrange(0, number.len() as int) =~= number) by {
        assert(forall|i: int| 0 <= i < 5 ==> line[i] == #[trigger] line.subrange(0, 5)[i]);
    }
    assert(line.subrange(6, 6int + time.len()) =~= time) by {
        assert(forall|i: int| 0 <= i < 14 ==> line[6 + i] == #[trigger] line.subrange(6, 20)[i]);
    }
    assert(line.subrange(21, 21int + dir.len()) =~= dir) by {
        assert(forall|i: int| 0 <= i < 8 ==> line[21 + i] == #[trigger] line.subrange(21, 29)[i]);
    }
    assert(line.subrange(30, 30int + service.len()) =~= service) by {
        assert(forall|i: int| 0 <= i < 12 ==> line[30 + i] == #[trigger] line.subrange(30, 42)[i]);
    }
    assert(line.subrange(43, 43int + message.len()) =~= message) by {
        assert(forall|i: int| 0 <= i < 18 ==> line[43 + i] == #[trigger] line.subrange(43, 61)[i]);
    }
    assert(line.subrange(67 - size.len(), 67) =~= size) by {
        assert(forall|i: int| 0 <= i < 5 ==> line[62 + i] == #[trigger] line.subrange(62, 67)[i]);
    }
    assert forall|i: int|
        (number.len() <= i < 6 || 6 + time.len() <= i < 21 || 21 + dir.len() <= i < 30 || 30
            + service.len() <= i < 43 || 43 + message.len() <= i < 67 - size.len()) implies #[trigger] line[i]
        == ' ' by {
        if i < 5 {
            assert(line.subrange(0, 5)[i] == a[i]);
        } else if 6 <= i < 20 {
            assert(line.subrange(6, 20)[i - 6] == b[i - 6]);
        } else if 21 <= i < 29 {
            assert(line.subrange(21, 29)[i - 21] == c[i - 21]);
        } else if 30 <= i < 42 {
            assert(line.subrange(30, 42)[i - 30] == d[i - 30]);
        } else if 43 <= i < 61 {
            assert(line.subrange(43, 61)[i - 43] == e[i - 43]);
        } else if i >= 62 {
            assert(line.subrange(62, 67)[i - 62] == f[i - 62]);
        }
    }
}

/// What stands in the columns of a packet's row: its number in the list, when it was captured, which
/// way it went, its service and its message cut to their columns, and how many bytes it has.
pub proof fn law_row_parts(
    index: nat,
    entry: packet_log::PacketEntryView,
    services: Map<u8, schema::DmlServiceView>,
)
    ensures
        ({
            let id = entry.msg.service_id;
            let plaintext = entry.msg.src.len() >= 9 && entry.msg.src.subrange(0, 9) == "plaintext"@;
            let way = if entry.msg.direction == Direction::ClientToServer { "C->S"@ } else { "S->C"@ };
            let service = if entry.decoded is Some {
                entry.decoded->0.service_name
            } else if id is Some && services.dom().contains(id->0) {
                services[id->0].name
            } else if id is None && entry.msg.msg_type is Control {
                "Control"@
            } else if id is None && entry.msg.msg_type is Encrypted {
                "Encrypted"@
            } else {
                "?"@
            };
            let message = if entry.decoded is Some {
                entry.decoded->0.message_name
            } else if entry.msg.message_id is Some {
                seq!['#'] + text::decimal(entry.msg.message_id->0 as nat)
            } else {
                Seq::empty()
            };
            row(index, entry, services) == columns(
                text::decimal(index),
                entry.msg.timestamp,
                if plaintext { seq!['P', 'T', ' '] + way } else { way },
                truncated(service, 12),
                truncated(message, 18),
                text::decimal(entry.msg.raw_payload.len()) + seq!['B'],
            )
        }),
{
    reveal_strlit("plaintext");
    reveal_strlit("C->S");
    reveal_strlit("S->C");
    reveal_strlit("PT C->S");
    reveal_strlit("PT S->C");
    assert("PT C->S"@ =~= seq!['P', 'T', ' '] + "C->S"@);
    assert("PT S->C"@ =~= seq!['P', 'T', ' '] + "S->C"@);
    let n = entry.msg.raw_payload.len();
    assert(text::decimal(n).push('B') =~= text::decimal(n) + seq!['B']);
}

/// What a message is, in words: a control message with its kind in two hexadecimal digits, a DML
/// message with its service and its message in decimal.
pub proof fn law_type_words(opcode: u8, service_id: u8, message_id: u8)
    ensures
        type_words(MessageType::Control { opcode }) == "Control (opcode: 0x"@ + text::hex(opcode as nat, 2)
            + seq![')'],
        type_words(MessageType::Dml { service_id, message_id }) == "DML (Svc:"@ + text::decimal(
            service_id as nat,
        ) + " Msg:"@ + text::decimal(message_id as nat) + seq![')'],
        type_words(MessageType::Encrypted) == "Encrypted"@,
        type_words(MessageType::Unknown) == "Unknown"@,
        direction_words(Direction::ClientToServer) == "Client -> Server"@,
        direction_words(Direction::ServerToClient) == "Server -> Client"@,
{
    reveal_strlit(")");
    assert(")"@ =~= seq![')']);
}

/// A text that fits stays as it is. Of one that does not, as many of its characters are kept as
/// fill one byte less than there is room for, and a tilde stands behind them.
pub proof fn law_cut_text_is_a_start(s: Seq<char>, max_len: int) -> (n: int)
    requires
        can_truncate(s, max_len),
    ensures
        0 <= n <= s.len(),
        encode_utf8(s).len() <= max_len ==> truncated(s, max_len) == s,
        encode_utf8(s).len() > max_len ==> truncated(s, max_len) == s.subrange(0, n) + seq!['~']
            && encode_utf8(s.subrange(0, n)).len() == max_len - 1,
{
    let all = encode_utf8(s);
    if all.len() <= max_len {
        0
    } else {
        let k = max_len - 1;
        encode_utf8_valid_utf8(s);
        encode_utf8_decode_utf8(s);
        let head = all.subrange(0, k);
        assert(head =~= all.take(k));
        valid_utf8_split(all, k);
        decode_utf8_split(all, k);
        decode_utf8_encode_utf8(head);
        let t = decode_utf8(head);
        let n = t.len() as int;
        assert(s.subrange(0, n) =~= t);
        assert(t.push('~') =~= t + seq!['~']);
        n
    }
}

/// The four kinds of rows have four colours.
pub proof fn law_row_colors_differ()
    ensures
        row_rgb(Direction::ClientToServer, true) == (255u8, 200u8, 100u8),
        row_rgb(Direction::ServerToClient, true) == (255u8, 160u8, 255u8),
        row_rgb(Direction::ClientToServer, false) == (100u8, 180u8, 255u8),
        row_rgb(Direction::ServerToClient, false) == (100u8, 255u8, 140u8),
        forall|a: Direction, b: Direction, p: bool, q: bool|
            #[trigger] row_rgb(a, p) == #[trigger] row_rgb(b, q) ==> a == b && p == q,
{
}

/// The words of the status line: a number stands between two texts, and a reason at the end.
pub proof fn law_status_words(pid: u32, n: usize, reason: String)
    ensures
        Status::Ready.words() == "Ready - click Inject Hook to start"@,
        (Status::GameNotFound { reason }).words() == "Game not found: "@ + reason@,
        (Status::FoundGame { pid }).words() == "Found game PID: "@ + text::decimal(pid as nat)
            + ". Starting pipe server..."@,
        (Status::Injected { pid }).words() == "Hook injected into PID "@ + text::decimal(pid as nat)
            + ". Capturing packets..."@,
        (Status::InjectionFailed { reason }).words() == "Injection failed: "@ + reason@,
        Status::Stopped.words() == "Hook stopped"@,
        (Status::Extracted { files: n }).words() == "Extracted "@ + text::decimal(n as nat)
            + " DML XMLs from WAD"@,
        (Status::ExtractFailed { reason }).words() == "WAD extract failed: "@ + reason@,
        Status::NoSchemaDirectory.words() == "No schema directory set"@,
        (Status::Loaded { schemas: n }).words() == "Loaded "@ + text::decimal(n as nat)
            + " DML schemas"@,
        (Status::LoadFailed { reason }).words() == "Schema load error: "@ + reason@,
{
}

} // verus!
