//! The KINP protocol: frames in a byte stream, and the messages inside them.
//!
//! A frame is the start signal `0x0D 0xF0`, the 16-bit length of its payload, and the payload.

use vstd::prelude::*;
use vstd::string::*;
use crate::bytes;
use crate::bytes::{copy_range, push_bytes, read_u16};
use crate::clock;
use crate::clock::CaptureTime;
use crate::text;
use crate::text::{push_decimal, same_text};

verus! {

broadcast use bytes::group_le_bytes_len;

/// The number that starts every frame.
pub const KINP_START_SIGNAL: u16 = 0xF00D;

/// No frame has more bytes than this: signal, length and the longest payload.
pub const LONGEST_FRAME: usize = 65_539;

/// Raw packet data from the capture layer.
#[derive(Debug, Clone)]
pub struct RawPacketData {
    pub timestamp: CaptureTime,
    pub src_ip: String,
    pub dst_ip: String,
    pub src_port: u16,
    pub dst_port: u16,
    pub payload: Vec<u8>,
    pub is_from_server: bool,
}

/// A fully parsed KINP message.
#[derive(Debug, Clone)]
pub struct KinpMessage {
    pub timestamp: String,
    pub direction: Direction,
    pub src: String,
    pub dst: String,
    pub msg_type: MessageType,
    pub raw_payload: Vec<u8>,
    pub service_id: Option<u8>,
    pub message_id: Option<u8>,
    pub dml_length: Option<u16>,
}

/// Which way a message went.
#[derive(Debug, Clone, Copy, PartialEq, Eq, Structural)]
pub enum Direction {
    ClientToServer,
    ServerToClient,
}

/// What a message is.
#[derive(Debug, Clone, Copy, PartialEq, Eq, Structural)]
pub enum MessageType {
    Control { opcode: u8 },
    Dml { service_id: u8, message_id: u8 },
    Unknown,
    Encrypted,
}

// ---- the model ----

/// A message as values.
#[verifier::ext_equal]
pub struct KinpMessageView {
    pub timestamp: Seq<char>,
    pub direction: Direction,
    pub src: Seq<char>,
    pub dst: Seq<char>,
    pub msg_type: MessageType,
    pub raw_payload: Seq<u8>,
    pub service_id: Option<u8>,
    pub message_id: Option<u8>,
    pub dml_length: Option<u16>,
}

impl View for KinpMessage {
    type V = KinpMessageView;

    open spec fn view(&self) -> KinpMessageView {
        KinpMessageView {
            timestamp: self.timestamp@,
            direction: self.direction,
            src: self.src@,
            dst: self.dst@,
            msg_type: self.msg_type,
            raw_payload: self.raw_payload@,
            service_id: self.service_id,
            message_id: self.message_id,
            dml_length: self.dml_length,
        }
    }
}

/// Messages as values.
pub open spec fn message_views(messages: Seq<KinpMessage>) -> Seq<KinpMessageView> {
    Seq::new(messages.len(), |i: int| messages[i]@)
}

/// Where a packet came from, where it went, and when it was captured.
#[verifier::ext_equal]
pub struct Envelope {
    pub timestamp: CaptureTime,
    pub src_ip: Seq<char>,
    pub dst_ip: Seq<char>,
    pub src_port: u16,
    pub dst_port: u16,
    pub is_from_server: bool,
}

impl RawPacketData {
    /// Everything of the packet but its payload.
    pub open spec fn envelope(self) -> Envelope {
        Envelope {
            timestamp: self.timestamp,
            src_ip: self.src_ip@,
            dst_ip: self.dst_ip@,
            src_port: self.src_port,
            dst_port: self.dst_port,
            is_from_server: self.is_from_server,
        }
    }
}

/// A packet as values.
#[verifier::ext_equal]
pub struct RawPacketView {
    pub envelope: Envelope,
    pub payload: Seq<u8>,
}

impl View for RawPacketData {
    type V = RawPacketView;

    open spec fn view(&self) -> RawPacketView {
        RawPacketView { envelope: self.envelope(), payload: self.payload@ }
    }
}

/// The direction of a packet.
pub open spec fn direction_of(is_from_server: bool) -> Direction {
    if is_from_server {
        Direction::ServerToClient
    } else {
        Direction::ClientToServer
    }
}

/// An address and a port as one text.
pub open spec fn endpoint(ip: Seq<char>, port: u16) -> Seq<char> {
    ip.push(':') + text::decimal(port as nat)
}

/// What a payload is. Its first byte is nonzero in a control message, whose kind is the
/// second byte, and zero in a DML message, whose service and message follow at 4 and 5. A
/// payload that is too short for what it says it is, is unknown; an empty one is a control
/// message.
pub open spec fn message_type(payload: Seq<u8>) -> MessageType {
    if payload.len() == 0 {
        MessageType::Control { opcode: 0 }
    } else if payload.len() < 4 {
        MessageType::Unknown
    } else if payload[0] != 0 {
        MessageType::Control { opcode: payload[1] }
    } else if payload.len() < 8 {
        MessageType::Unknown
    } else {
        MessageType::Dml { service_id: payload[4], message_id: payload[5] }
    }
}

/// The message that a payload in this envelope is.
pub open spec fn message_of(payload: Seq<u8>, envelope: Envelope) -> KinpMessageView {
    let msg_type = message_type(payload);
    let is_dml = msg_type is Dml;
    KinpMessageView {
        timestamp: clock::clock_text(envelope.timestamp.secs(), envelope.timestamp.subsec()),
        direction: direction_of(envelope.is_from_server),
        src: endpoint(envelope.src_ip, envelope.src_port),
        dst: endpoint(envelope.dst_ip, envelope.dst_port),
        msg_type,
        raw_payload: payload,
        service_id: if is_dml { Some(payload[4]) } else { None },
        message_id: if is_dml { Some(payload[5]) } else { None },
        dml_length: if is_dml { Some(bytes::le16(payload, 6) as u16) } else { None },
    }
}

/// Whether the start signal stands at `i`.
pub open spec fn signal_at(s: Seq<u8>, i: int) -> bool {
    0 <= i && i + 1 < s.len() && s[i] == 0x0D && s[i + 1] == 0xF0
}

/// Where the first start signal at or after `from` stands.
pub open spec fn next_signal(s: Seq<u8>, from: int) -> Option<int>
    decreases s.len() - from,
{
    if from + 1 >= s.len() {
        None
    } else if signal_at(s, from) {
        Some(from)
    } else {
        next_signal(s, from + 1)
    }
}

/// The number of bytes of the frame that starts `s`.
pub open spec fn frame_len(s: Seq<u8>) -> int {
    4 + bytes::le16(s, 2)
}

/// What a stream holds: the payloads of the frames that are complete, and the bytes that
/// wait for more. Bytes in front of a start signal are passed over. Four bytes or more
/// without a start signal are dropped.
pub open spec fn drain(s: Seq<u8>) -> (Seq<Seq<u8>>, Seq<u8>)
    decreases s.len(),
{
    if s.len() < 4 {
        (Seq::empty(), s)
    } else if !signal_at(s, 0) {
        match next_signal(s, 0) {
            Some(p) if 0 < p < s.len() => drain(s.skip(p)),
            _ => (Seq::empty(), Seq::empty()),
        }
    } else if s.len() < frame_len(s) {
        (Seq::empty(), s)
    } else {
        let (payloads, rest) = drain(s.skip(frame_len(s)));
        (seq![s.subrange(4, frame_len(s))] + payloads, rest)
    }
}

proof fn lemma_next_signal(s: Seq<u8>, from: int)
    requires
        0 <= from,
    ensures
        match next_signal(s, from) {
            Some(p) => from <= p && signal_at(s, p) && forall|j: int|
                from <= j < p ==> !signal_at(s, j),
            None => forall|j: int| from <= j ==> !signal_at(s, j),
        },
    decreases s.len() - from,
{
    if from + 1 < s.len() && !signal_at(s, from) {
        lemma_next_signal(s, from + 1);
    }
}

// ---- the decoder ----

/// Finds the first start signal.
pub fn find_start_signal(data: &[u8]) -> (r: Option<usize>)
    ensures
        match r {
            Some(p) => signal_at(data@, p as int) && forall|j: int| j < p ==> !signal_at(data@, j),
            None => forall|j: int| !signal_at(data@, j),
        },
        match r {
            Some(p) => next_signal(data@, 0) == Some(p as int),
            None => next_signal(data@, 0) is None,
        },
{
    let mut i: usize = 0;
    while i < data.len() && i + 1 < data.len()
        invariant
            i <= data@.len(),
            forall|j: int| j < i ==> !signal_at(data@, j),
        decreases data@.len() - i,
    {
        if read_u16(data, i) == KINP_START_SIGNAL {
            proof {
                lemma_next_signal(data@, 0);
                assert(signal_at(data@, i as int));
            }
            return Some(i);
        }
        i += 1;
    }
    proof {
        lemma_next_signal(data@, 0);
    }
    None
}

/// Byte vectors as values.
pub open spec fn byte_views(vectors: Seq<Vec<u8>>) -> Seq<Seq<u8>> {
    Seq::new(vectors.len(), |i: int| vectors[i]@)
}

/// Takes the complete frames out of a stream: their payloads, and the bytes that wait for
/// more.
pub fn split_frames(data: &[u8]) -> (r: (Vec<Vec<u8>>, Vec<u8>))
    ensures
        (byte_views(r.0@), r.1@) == drain(data@),
{
    let mut payloads: Vec<Vec<u8>> = Vec::new();
    let mut start: usize = 0;
    let len: usize = data.len();
    assert(data@.skip(0) =~= data@);
    assert(byte_views(payloads@) + drain(data@).0 =~= drain(data@).0);
    loop
        invariant
            start <= len,
            len == data@.len(),
            drain(data@).0 == byte_views(payloads@) + drain(data@.skip(start as int)).0,
            drain(data@).1 == drain(data@.skip(start as int)).1,
        decreases len - start,
    {
        let ghost here = data@.skip(start as int);
        let n: usize = len - start;
        if n < 4 {
            assert(drain(data@).0 =~= byte_views(payloads@));
            return (payloads, copy_range(data, start, len));
        }
        if read_u16(data, start) != KINP_START_SIGNAL {
            let window = vstd::slice::slice_subrange(data, start, len);
            assert(window@ =~= here);
            match find_start_signal(window) {
                Some(p) => {
                    assert(here.skip(p as int) =~= data@.skip(start + p));
                    start += p;
                },
                None => {
                    assert(drain(data@).0 =~= byte_views(payloads@));
                    return (payloads, Vec::new());
                },
            }
        } else {
            let total: usize = 4 + read_u16(data, start + 2) as usize;
            assert(total == frame_len(here));
            if n < total {
                assert(drain(data@).0 =~= byte_views(payloads@));
                return (payloads, copy_range(data, start, len));
            }
            let payload: Vec<u8> = copy_range(data, start + 4, start + total);
            proof {
                assert(payload@ =~= here.subrange(4, total as int));
                assert(here.skip(total as int) =~= data@.skip(start + total));
                assert(byte_views(payloads@.push(payload)) =~= byte_views(payloads@).push(payload@));
                let tail = drain(data@.skip(start + total)).0;
                assert(byte_views(payloads@) + (seq![payload@] + tail) =~= byte_views(payloads@).push(
                    payload@,
                ) + tail);
            }
            payloads.push(payload);
            start += total;
        }
    }
}

/// An address and a port as one text.
pub fn endpoint_text(ip: &str, port: u16) -> (out: String)
    ensures
        out@ == endpoint(ip@, port),
{
    let mut out = String::new();
    out.append(ip);
    out.push(':');
    push_decimal(&mut out, port as u64);
    assert(out@ =~= endpoint(ip@, port));
    out
}

/// Parses a KINP payload:
///   [0] isControl  (0 = DML, non-zero = Control)
///   [1] opCode     (control message type, 0 for DML)
///   [2..3] unknown (always 0)
///   --- if DML (isControl == 0): ---
///   [4] serviceId
///   [5] messageType
///   [6..7] dml_length (LE, counts this 4-byte DML header)
///   [8..] DML field data
pub fn parse_kinp_payload(
    payload: &[u8],
    timestamp: &CaptureTime,
    src_ip: &str,
    src_port: u16,
    dst_ip: &str,
    dst_port: u16,
    is_from_server: bool,
) -> (msg: KinpMessage)
    ensures
        msg@ == message_of(
            payload@,
            (Envelope {
                timestamp: *timestamp,
                src_ip: src_ip@,
                dst_ip: dst_ip@,
                src_port,
                dst_port,
                is_from_server,
            }),
        ),
{
    let n: usize = payload.len();
    let direction = if is_from_server {
        Direction::ServerToClient
    } else {
        Direction::ClientToServer
    };
    let mut service_id: Option<u8> = None;
    let mut message_id: Option<u8> = None;
    let mut dml_length: Option<u16> = None;
    let msg_type = if n >= 4 {
        if payload[0] != 0 {
            MessageType::Control { opcode: payload[1] }
        } else if n < 8 {
            MessageType::Unknown
        } else {
            service_id = Some(payload[4]);
            message_id = Some(payload[5]);
            dml_length = Some(read_u16(payload, 6));
            MessageType::Dml { service_id: payload[4], message_id: payload[5] }
        }
    } else if n == 0 {
        MessageType::Control { opcode: 0 }
    } else {
        MessageType::Unknown
    };
    let raw_payload: Vec<u8> = copy_range(payload, 0, n);
    assert(raw_payload@ =~= payload@);
    KinpMessage {
        timestamp: timestamp.text(),
        direction,
        src: endpoint_text(src_ip, src_port),
        dst: endpoint_text(dst_ip, dst_port),
        msg_type,
        raw_payload,
        service_id,
        message_id,
        dml_length,
    }
}

/// Names a stream: source address and port, destination address and port.
#[verifier::ext_equal]
pub struct StreamKey {
    pub src_ip: Seq<char>,
    pub src_port: u16,
    pub dst_ip: Seq<char>,
    pub dst_port: u16,
}

impl Envelope {
    /// The stream that the packet belongs to.
    pub open spec fn stream(self) -> StreamKey {
        StreamKey {
            src_ip: self.src_ip,
            src_port: self.src_port,
            dst_ip: self.dst_ip,
            dst_port: self.dst_port,
        }
    }
}

/// One stream and the bytes of it that wait for more.
struct Stream {
    src_ip: String,
    src_port: u16,
    dst_ip: String,
    dst_port: u16,
    buffer: Vec<u8>,
}

impl Stream {
    spec fn key(self) -> StreamKey {
        StreamKey {
            src_ip: self.src_ip@,
            src_port: self.src_port,
            dst_ip: self.dst_ip@,
            dst_port: self.dst_port,
        }
    }
}

/// Manages TCP stream reassembly and KINP frame extraction.
pub struct KinpDecoder {
    streams: Vec<Stream>,
}

/// The bytes of a stream that wait for more.
pub open spec fn waiting_in(streams: Map<StreamKey, Seq<u8>>, key: StreamKey) -> Seq<u8> {
    if streams.dom().contains(key) {
        streams[key]
    } else {
        Seq::empty()
    }
}

/// The payloads that a packet completes.
pub open spec fn payloads_completed(
    streams: Map<StreamKey, Seq<u8>>,
    envelope: Envelope,
    payload: Seq<u8>,
) -> Seq<Seq<u8>> {
    drain(waiting_in(streams, envelope.stream()) + payload).0
}

/// What the streams hold back after a packet.
pub open spec fn streams_after(
    streams: Map<StreamKey, Seq<u8>>,
    envelope: Envelope,
    payload: Seq<u8>,
) -> Map<StreamKey, Seq<u8>> {
    let key = envelope.stream();
    streams.insert(key, drain(waiting_in(streams, key) + payload).1)
}

spec fn is_stream_at(streams: Seq<Stream>, key: StreamKey, i: int) -> bool {
    0 <= i < streams.len() && streams[i].key() == key
}

impl View for KinpDecoder {
    type V = Map<StreamKey, Seq<u8>>;

    closed spec fn view(&self) -> Map<StreamKey, Seq<u8>> {
        let streams = self.streams@;
        Map::new(
            |key: StreamKey| exists|i: int| is_stream_at(streams, key, i),
            |key: StreamKey| streams[choose|i: int| is_stream_at(streams, key, i)].buffer@,
        )
    }
}

impl KinpDecoder {
    /// No two buffers belong to one stream, and none holds a complete frame's worth.
    pub closed spec fn wf(self) -> bool {
        &&& forall|i: int, j: int|
            0 <= i < j < self.streams@.len() ==> self.streams@[i].key() != self.streams@[j].key()
        &&& forall|i: int|
            0 <= i < self.streams@.len() ==> (#[trigger] self.streams@[i]).buffer@.len() < LONGEST_FRAME
    }

    /// The bytes of a stream that wait for more.
    pub open spec fn waiting(self, key: StreamKey) -> Seq<u8> {
        waiting_in(self@, key)
    }

    proof fn lemma_stream(self, i: int)
        requires
            self.wf(),
            0 <= i < self.streams@.len(),
        ensures
            self@.dom().contains(self.streams@[i].key()),
            self@[self.streams@[i].key()] == self.streams@[i].buffer@,
    {
        let key = self.streams@[i].key();
        assert(is_stream_at(self.streams@, key, i));
        let j = choose|j: int| is_stream_at(self.streams@, key, j);
        assert(is_stream_at(self.streams@, key, j));
        assert(i == j);
    }

    /// A decoder with no stream yet.
    pub fn new() -> (r: Self)
        ensures
            r.wf(),
            r@ == Map::<StreamKey, Seq<u8>>::empty(),
    {
        let r = KinpDecoder { streams: Vec::new() };
        assert(r@ =~= Map::<StreamKey, Seq<u8>>::empty());
        r
    }

    /// The index of a stream, or the number of streams where it is new.
    fn find(&self, src_ip: &str, src_port: u16, dst_ip: &str, dst_port: u16) -> (r: usize)
        ensures
            r <= self.streams@.len(),
            ({
                let key = StreamKey { src_ip: src_ip@, src_port, dst_ip: dst_ip@, dst_port };
                if r < self.streams@.len() {
                    self.streams@[r as int].key() == key
                } else {
                    forall|i: int| 0 <= i < self.streams@.len() ==> self.streams@[i].key() != key
                }
            }),
    {
        let mut i: usize = 0;
        let ghost key = StreamKey { src_ip: src_ip@, src_port, dst_ip: dst_ip@, dst_port };
        while i < self.streams.len()
            invariant
                i <= self.streams@.len(),
                key == (StreamKey { src_ip: src_ip@, src_port, dst_ip: dst_ip@, dst_port }),
                forall|j: int| 0 <= j < i ==> self.streams@[j].key() != key,
            decreases self.streams@.len() - i,
        {
            let stream = &self.streams[i];
            if stream.src_port == src_port && stream.dst_port == dst_port && same_text(
                stream.src_ip.as_str(),
                src_ip,
            ) && same_text(stream.dst_ip.as_str(), dst_ip) {
                return i;
            }
            i += 1;
        }
        i
    }

    /// Processes raw packet data and returns any complete KINP messages found.
    pub fn process(&mut self, raw: RawPacketData) -> (messages: Vec<KinpMessage>)
        requires
            old(self).wf(),
        ensures
            final(self).wf(),
            ({
                let payloads = payloads_completed(old(self)@, raw.envelope(), raw.payload@);
                message_views(messages@) == Seq::new(
                    payloads.len(),
                    |i: int| message_of(payloads[i], raw.envelope()),
                )
            }),
            final(self)@ == streams_after(old(self)@, raw.envelope(), raw.payload@),
            forall|other: StreamKey|
                other != raw.envelope().stream() ==> final(self).waiting(other) == old(self).waiting(
                    other,
                ),
    {
        let ghost key = raw.envelope().stream();
        let at: usize = self.find(raw.src_ip.as_str(), raw.src_port, raw.dst_ip.as_str(), raw.dst_port);
        let known: bool = at < self.streams.len();
        let mut buffer: Vec<u8> = Vec::new();
        if known {
            push_bytes(&mut buffer, self.streams[at].buffer.as_slice());
            proof {
                self.lemma_stream(at as int);
            }
        } else {
            assert(!self@.dom().contains(key)) by {
                if self@.dom().contains(key) {
                    let j = choose|j: int| is_stream_at(self.streams@, key, j);
                    assert(is_stream_at(self.streams@, key, j));
                }
            }
        }
        assert(buffer@ =~= old(self).waiting(key));
        push_bytes(&mut buffer, raw.payload.as_slice());
        let (payloads, rest) = split_frames(buffer.as_slice());
        proof {
            lemma_rest_is_short(buffer@);
        }
        let stream = Stream {
            src_ip: raw.src_ip.clone(),
            src_port: raw.src_port,
            dst_ip: raw.dst_ip.clone(),
            dst_port: raw.dst_port,
            buffer: rest,
        };
        assert(stream.key() == key);
        if known {
            self.streams.set(at, stream);
        } else {
            self.streams.push(stream);
        }
        assert(self.wf());
        proof {
            self.lemma_stream(at as int);
            lemma_one_stream_changed(*old(self), *self, at as int);
        }
        let mut messages: Vec<KinpMessage> = Vec::new();
        let mut i: usize = 0;
        while i < payloads.len()
            invariant
                i <= payloads@.len(),
                messages@.len() == i,
                forall|j: int|
                    0 <= j < i ==> (#[trigger] messages@[j])@ == message_of(
                        payloads@[j]@,
                        raw.envelope(),
                    ),
            decreases payloads@.len() - i,
        {
            let msg = parse_kinp_payload(
                payloads[i].as_slice(),
                &raw.timestamp,
                raw.src_ip.as_str(),
                raw.src_port,
                raw.dst_ip.as_str(),
                raw.dst_port,
                raw.is_from_server,
            );
            messages.push(msg);
            i += 1;
        }
        proof {
            let drained = drain(old(self).waiting(key) + raw.payload@).0;
            assert(message_views(messages@) =~= Seq::new(
                drained.len(),
                |i: int| message_of(drained[i], raw.envelope()),
            ));
        }
        messages
    }
}

proof fn lemma_rest_is_short(s: Seq<u8>)
    ensures
        drain(s).1.len() < LONGEST_FRAME,
    decreases s.len(),
{
    if s.len() < 4 {
    } else if !signal_at(s, 0) {
        match next_signal(s, 0) {
            Some(p) if 0 < p < s.len() => lemma_rest_is_short(s.skip(p)),
            _ => (),
        }
    } else if s.len() < frame_len(s) {
    } else {
        lemma_rest_is_short(s.skip(frame_len(s)));
    }
}

proof fn lemma_one_stream_changed(before: KinpDecoder, after: KinpDecoder, at: int)
    requires
        before.wf(),
        after.wf(),
        0 <= at < after.streams@.len(),
        at < before.streams@.len() ==> after.streams@ == before.streams@.update(at, after.streams@[at])
            && after.streams@[at].key() == before.streams@[at].key(),
        at >= before.streams@.len() ==> after.streams@ == before.streams@.push(after.streams@[at]),
    ensures
        after@ == before@.insert(after.streams@[at].key(), after.streams@[at].buffer@),
{
    let key = after.streams@[at].key();
    let expected = before@.insert(key, after.streams@[at].buffer@);
    after.lemma_stream(at);
    assert forall|k: StreamKey| after@.dom().contains(k) <==> expected.dom().contains(k) by {
        if after@.dom().contains(k) && k != key {
            let j = choose|j: int| is_stream_at(after.streams@, k, j);
            assert(is_stream_at(after.streams@, k, j));
            assert(is_stream_at(before.streams@, k, j));
        }
        if before@.dom().contains(k) && k != key {
            let j = choose|j: int| is_stream_at(before.streams@, k, j);
            assert(is_stream_at(before.streams@, k, j));
            assert(is_stream_at(after.streams@, k, j));
        }
    }
    assert forall|k: StreamKey| after@.dom().contains(k) implies after@[k] == expected[k] by {
        if k != key {
            assert(expected.dom().contains(k));
            assert(before@.dom().contains(k));
            let j = choose|j: int| is_stream_at(before.streams@, k, j);
            assert(is_stream_at(before.streams@, k, j));
            assert(is_stream_at(after.streams@, k, j));
            before.lemma_stream(j);
            after.lemma_stream(j);
        }
    }
    assert(after@ =~= expected);
}

// ---- laws ----

/// Whether draining `s` drops bytes because no start signal is left among them.
pub open spec fn drops_bytes(s: Seq<u8>) -> bool
    decreases s.len(),
{
    if s.len() < 4 {
        false
    } else if !signal_at(s, 0) {
        match next_signal(s, 0) {
            Some(p) if 0 < p < s.len() => drops_bytes(s.skip(p)),
            _ => true,
        }
    } else if s.len() < frame_len(s) {
        false
    } else {
        drops_bytes(s.skip(frame_len(s)))
    }
}

/// Whether a start signal stands half at the end of `a` and half at the start of `b`.
pub open spec fn signal_is_split(a: Seq<u8>, b: Seq<u8>) -> bool {
    a.len() > 0 && b.len() > 0 && a.last() == 0x0D && b[0] == 0xF0
}

proof fn lemma_next_signal_is(s: Seq<u8>, from: int, p: int)
    requires
        0 <= from <= p,
        signal_at(s, p),
        forall|j: int| from <= j < p ==> !signal_at(s, j),
    ensures
        next_signal(s, from) == Some(p),
    decreases p - from,
{
    if from < p {
        assert(!signal_at(s, from));
        lemma_next_signal_is(s, from + 1, p);
    }
}

proof fn lemma_no_next_signal(s: Seq<u8>, from: int)
    requires
        0 <= from,
        forall|j: int| from <= j ==> !signal_at(s, j),
    ensures
        next_signal(s, from) is None,
{
    lemma_next_signal(s, from);
}

proof fn lemma_drain_after_dropped(x: Seq<u8>, b: Seq<u8>)
    requires
        x.len() >= 4,
        forall|j: int| !signal_at(x, j),
        b.len() == 0 || (b.len() >= 4 && !signal_is_split(x, b)) || signal_at(b, 0),
    ensures
        drain(x + b) == drain(b),
{
    let s = x + b;
    lemma_next_signal(b, 0);
    assert forall|j: int| 0 <= j < x.len() implies !signal_at(s, j) by {
        assert(!signal_at(x, j));
    }
    assert(!signal_at(s, 0));
    match next_signal(b, 0) {
        Some(q) => {
            let p = x.len() + q;
            assert(signal_at(s, p));
            assert forall|j: int| 0 <= j < p implies !signal_at(s, j) by {
                if j >= x.len() {
                    assert(!signal_at(b, j - x.len()));
                }
            }
            lemma_next_signal_is(s, 0, p);
            assert(s.skip(p) =~= b.skip(q));
            assert(b.skip(0) =~= b);
        },
        None => {
            assert forall|j: int| 0 <= j implies !signal_at(s, j) by {
                if j >= x.len() {
                    assert(!signal_at(b, j - x.len()));
                }
            }
            lemma_no_next_signal(s, 0);
            if b.len() >= 4 {
                assert(!signal_at(b, 0));
            }
        },
    }
}

/// Where the stream is cut makes no difference: draining `a`, keeping what waits, and
/// draining that together with `b` gives what draining `a` and `b` at once gives. Left out
/// are the cuts behind dropped bytes that split a start signal, or that leave fewer than
/// four bytes which do not begin with one.
pub proof fn law_drain_in_two_steps(a: Seq<u8>, b: Seq<u8>)
    requires
        drops_bytes(a) ==> b.len() == 0 || (b.len() >= 4 && !signal_is_split(a, b)) || signal_at(b, 0),
    ensures
        drain(a + b).0 == drain(a).0 + drain(drain(a).1 + b).0,
        drain(a + b).1 == drain(drain(a).1 + b).1,
    decreases a.len(),
{
    let empty = Seq::<Seq<u8>>::empty();
    if a.len() < 4 {
        assert(empty + drain(a + b).0 =~= drain(a + b).0);
    } else if !signal_at(a, 0) {
        assert(!signal_at(a + b, 0));
        lemma_next_signal(a, 0);
        match next_signal(a, 0) {
            Some(p) => {
                assert(signal_at(a + b, p));
                assert forall|j: int| 0 <= j < p implies !signal_at(a + b, j) by {
                    assert(!signal_at(a, j));
                }
                lemma_next_signal_is(a + b, 0, p);
                assert((a + b).skip(p) =~= a.skip(p) + b);
                assert(a.skip(p).last() == a.last());
                law_drain_in_two_steps(a.skip(p), b);
            },
            None => {
                assert forall|j: int| !signal_at(a, j) by {}
                lemma_drain_after_dropped(a, b);
                assert(Seq::<u8>::empty() + b =~= b);
                assert(empty + drain(b).0 =~= drain(b).0);
            },
        }
    } else if a.len() < frame_len(a) {
        assert(empty + drain(a + b).0 =~= drain(a + b).0);
    } else {
        let n = frame_len(a);
        assert(frame_len(a + b) == n);
        assert((a + b).skip(n) =~= a.skip(n) + b);
        assert((a + b).subrange(4, n) =~= a.subrange(4, n));
        if drops_bytes(a.skip(n)) {
            assert(a.skip(n).last() == a.last());
        }
        law_drain_in_two_steps(a.skip(n), b);
        let first = seq![a.subrange(4, n)];
        assert(first + (drain(a.skip(n)).0 + drain(drain(a).1 + b).0) =~= (first + drain(a.skip(n)).0)
            + drain(drain(a).1 + b).0);
    }
}

/// The frame that carries a payload.
pub open spec fn frame(payload: Seq<u8>) -> Seq<u8> {
    seq![0x0Du8, 0xF0u8] + bytes::le16_bytes(payload.len() as u16) + payload
}

/// The frames of these payloads, one behind the other.
pub open spec fn frames(payloads: Seq<Seq<u8>>) -> Seq<u8>
    decreases payloads.len(),
{
    if payloads.len() == 0 {
        Seq::empty()
    } else {
        frame(payloads[0]) + frames(payloads.skip(1))
    }
}

/// Whether every payload fits the 16-bit length of a frame.
pub open spec fn payloads_fit(payloads: Seq<Seq<u8>>) -> bool {
    forall|i: int| 0 <= i < payloads.len() ==> (#[trigger] payloads[i]).len() <= 0xFFFF
}

/// These chunks, one behind the other.
pub open spec fn joined(chunks: Seq<Seq<u8>>) -> Seq<u8>
    decreases chunks.len(),
{
    if chunks.len() == 0 {
        Seq::empty()
    } else {
        joined(chunks.drop_last()) + chunks.last()
    }
}

/// What a stream gives when it arrives in these chunks: the payloads in the order in which
/// their frames become complete, and the bytes that wait for more.
pub open spec fn drain_chunks(chunks: Seq<Seq<u8>>) -> (Seq<Seq<u8>>, Seq<u8>)
    decreases chunks.len(),
{
    if chunks.len() == 0 {
        (Seq::empty(), Seq::empty())
    } else {
        let (payloads, rest) = drain_chunks(chunks.drop_last());
        let (more, new_rest) = drain(rest + chunks.last());
        (payloads + more, new_rest)
    }
}

proof fn lemma_frame_start(payload: Seq<u8>, after: Seq<u8>)
    requires
        payload.len() <= 0xFFFF,
    ensures
        frame(payload).len() == 4 + payload.len(),
        signal_at(frame(payload) + after, 0),
        frame_len(frame(payload) + after) == 4 + payload.len(),
        (frame(payload) + after).subrange(4, (4 + payload.len()) as int) == payload,
        (frame(payload) + after).skip((4 + payload.len()) as int) == after,
{
    let s = frame(payload) + after;
    bytes::law_le16_round_trip(seq![0x0Du8, 0xF0u8], payload.len() as u16, payload + after);
    assert(s =~= seq![0x0Du8, 0xF0u8] + bytes::le16_bytes(payload.len() as u16) + (payload + after));
    assert(s.subrange(4, (4 + payload.len()) as int) =~= payload);
    assert(s.skip((4 + payload.len()) as int) =~= after);
}

/// A stream of frames gives their payloads, and nothing waits.
pub proof fn law_frames_are_taken_apart(payloads: Seq<Seq<u8>>)
    requires
        payloads_fit(payloads),
    ensures
        drain(frames(payloads)) == (payloads, Seq::<u8>::empty()),
    decreases payloads.len(),
{
    if payloads.len() == 0 {
        assert(drain(frames(payloads)).0 =~= payloads);
    } else {
        let rest = payloads.skip(1);
        law_frames_are_taken_apart(rest);
        lemma_frame_start(payloads[0], frames(rest));
        assert(seq![payloads[0]] + rest =~= payloads);
    }
}

proof fn lemma_frames_drop_nothing(payloads: Seq<Seq<u8>>, a: Seq<u8>)
    requires
        payloads_fit(payloads),
        a.is_prefix_of(frames(payloads)),
    ensures
        !drops_bytes(a),
    decreases payloads.len(),
{
    if a.len() >= 4 {
        let rest = payloads.skip(1);
        let whole = frames(payloads);
        lemma_frame_start(payloads[0], frames(rest));
        assert(a[0] == whole[0] && a[1] == whole[1] && a[2] == whole[2] && a[3] == whole[3]);
        let n = frame_len(whole);
        assert(frame_len(a) == n);
        if a.len() >= n {
            assert(a.skip(n).is_prefix_of(frames(rest))) by {
                assert(frames(rest) =~= whole.skip(n));
                assert(a.skip(n) =~= whole.skip(n).subrange(0, a.len() - n));
            }
            lemma_frames_drop_nothing(rest, a.skip(n));
        }
    }
}

proof fn lemma_chunks_of_frames(payloads: Seq<Seq<u8>>, chunks: Seq<Seq<u8>>)
    requires
        payloads_fit(payloads),
        joined(chunks).is_prefix_of(frames(payloads)),
    ensures
        drain_chunks(chunks) == drain(joined(chunks)),
    decreases chunks.len(),
{
    if chunks.len() > 0 {
        let before = chunks.drop_last();
        assert(joined(before).is_prefix_of(frames(payloads))) by {
            assert(joined(before) =~= frames(payloads).subrange(0, joined(before).len() as int)) by {
                assert(joined(chunks) =~= frames(payloads).subrange(0, joined(chunks).len() as int));
                assert(joined(before) =~= joined(chunks).subrange(0, joined(before).len() as int));
            }
        }
        lemma_chunks_of_frames(payloads, before);
        lemma_frames_drop_nothing(payloads, joined(before));
        law_drain_in_two_steps(joined(before), chunks.last());
    } else {
        assert(drain(joined(chunks)).0 =~= Seq::<Seq<u8>>::empty());
    }
}

/// However a stream of frames is cut into chunks, it gives the payloads of the frames, each
/// once and in order, and nothing waits at the end.
pub proof fn law_any_chunking(payloads: Seq<Seq<u8>>, chunks: Seq<Seq<u8>>)
    requires
        payloads_fit(payloads),
        joined(chunks) == frames(payloads),
    ensures
        drain_chunks(chunks) == (payloads, Seq::<u8>::empty()),
{
    assert(joined(chunks).is_prefix_of(frames(payloads))) by {
        assert(joined(chunks) =~= frames(payloads).subrange(0, frames(payloads).len() as int));
    }
    lemma_chunks_of_frames(payloads, chunks);
    law_frames_are_taken_apart(payloads);
}

/// The payloads that packets with these envelopes and these payloads complete, in order.
pub open spec fn completed_by_all(
    streams: Map<StreamKey, Seq<u8>>,
    envelopes: Seq<Envelope>,
    chunks: Seq<Seq<u8>>,
) -> Seq<Seq<u8>>
    decreases chunks.len(),
{
    if chunks.len() == 0 || envelopes.len() == 0 {
        Seq::empty()
    } else {
        completed_by_all(streams, envelopes.drop_last(), chunks.drop_last()) + payloads_completed(
            streams_after_each(streams, envelopes.drop_last(), chunks.drop_last()),
            envelopes.last(),
            chunks.last(),
        )
    }
}

/// What the streams hold back after packets with these envelopes and these payloads.
pub open spec fn streams_after_each(
    streams: Map<StreamKey, Seq<u8>>,
    envelopes: Seq<Envelope>,
    chunks: Seq<Seq<u8>>,
) -> Map<StreamKey, Seq<u8>>
    decreases chunks.len(),
{
    if chunks.len() == 0 || envelopes.len() == 0 {
        streams
    } else {
        streams_after(
            streams_after_each(streams, envelopes.drop_last(), chunks.drop_last()),
            envelopes.last(),
            chunks.last(),
        )
    }
}

proof fn lemma_one_stream_in_chunks(
    streams: Map<StreamKey, Seq<u8>>,
    key: StreamKey,
    envelopes: Seq<Envelope>,
    chunks: Seq<Seq<u8>>,
)
    requires
        envelopes.len() == chunks.len(),
        forall|i: int| 0 <= i < envelopes.len() ==> (#[trigger] envelopes[i]).stream() == key,
        waiting_in(streams, key).len() == 0,
    ensures
        completed_by_all(streams, envelopes, chunks) == drain_chunks(chunks).0,
        waiting_in(streams_after_each(streams, envelopes, chunks), key) == drain_chunks(chunks).1,
    decreases chunks.len(),
{
    if chunks.len() == 0 {
        assert(waiting_in(streams, key) =~= Seq::<u8>::empty());
    } else {
        let before = envelopes.drop_last();
        assert forall|i: int| 0 <= i < before.len() implies (#[trigger] before[i]).stream() == key by {
            assert(before[i] == envelopes[i]);
        }
        lemma_one_stream_in_chunks(streams, key, before, chunks.drop_last());
        assert(envelopes[envelopes.len() - 1].stream() == key);
    }
}

/// A stream is put together again: when the packets of a stream that holds nothing back carry
/// frames, cut anywhere, the decoder completes exactly the payloads of those frames, in order,
/// and holds nothing back at the end.
pub proof fn law_stream_is_reassembled(
    streams: Map<StreamKey, Seq<u8>>,
    key: StreamKey,
    envelopes: Seq<Envelope>,
    chunks: Seq<Seq<u8>>,
    payloads: Seq<Seq<u8>>,
)
    requires
        envelopes.len() == chunks.len(),
        forall|i: int| 0 <= i < envelopes.len() ==> (#[trigger] envelopes[i]).stream() == key,
        waiting_in(streams, key).len() == 0,
        payloads_fit(payloads),
        joined(chunks) == frames(payloads),
    ensures
        completed_by_all(streams, envelopes, chunks) == payloads,
        waiting_in(streams_after_each(streams, envelopes, chunks), key).len() == 0,
{
    lemma_one_stream_in_chunks(streams, key, envelopes, chunks);
    law_any_chunking(payloads, chunks);
}

/// What waits holds no complete frame: draining it again finds nothing and keeps it.
pub proof fn law_waiting_bytes_stay(s: Seq<u8>)
    ensures
        drain(drain(s).1) == (Seq::<Seq<u8>>::empty(), drain(s).1),
    decreases s.len(),
{
    if s.len() < 4 {
    } else if !signal_at(s, 0) {
        match next_signal(s, 0) {
            Some(p) if 0 < p < s.len() => law_waiting_bytes_stay(s.skip(p)),
            _ => (),
        }
    } else if s.len() < frame_len(s) {
    } else {
        law_waiting_bytes_stay(s.skip(frame_len(s)));
    }
}

/// No stream ever holds back more than one unfinished frame, which is far below a million
/// bytes.
pub proof fn law_waiting_bytes_are_few(decoder: KinpDecoder, key: StreamKey)
    requires
        decoder.wf(),
    ensures
        decoder.waiting(key).len() < LONGEST_FRAME,
        decoder.waiting(key).len() <= 1_000_000,
{
    if decoder@.dom().contains(key) {
        let i = choose|i: int| is_stream_at(decoder.streams@, key, i);
        assert(is_stream_at(decoder.streams@, key, i));
        decoder.lemma_stream(i);
    }
}

/// The three numbers of a DML message are there together, or none of them is. A payload is a
/// DML message exactly where its first byte is zero and its header is complete, and a control
/// message exactly where it is empty, or its first byte is not zero and its header is complete.
pub proof fn law_dml_numbers_come_together(payload: Seq<u8>, envelope: Envelope)
    ensures
        ({
            let m = message_of(payload, envelope);
            match m.msg_type {
                MessageType::Dml { service_id, message_id } => {
                    &&& m.service_id == Some(service_id)
                    &&& m.message_id == Some(message_id)
                    &&& m.dml_length == Some(bytes::le16(payload, 6) as u16)
                    &&& service_id == payload[4]
                    &&& message_id == payload[5]
                },
                _ => m.service_id is None && m.message_id is None && m.dml_length is None,
            }
        }),
        message_type(payload) is Dml <==> payload.len() >= 8 && payload[0] == 0,
        message_type(payload) is Control <==> payload.len() == 0 || (payload.len() >= 4 && payload[0]
            != 0),
{
}

// ---- laws on messages and streams ----

/// A message keeps what its packet says: source and destination are each the address, a colon and
/// the port in decimal, the direction is that of the packet, the time is when it was captured, and
/// the payload is kept as it is.
pub proof fn law_messages_keep_their_packet(payload: Seq<u8>, envelope: Envelope)
    ensures
        ({
            let m = message_of(payload, envelope);
            &&& m.src == envelope.src_ip + seq![':'] + text::decimal(envelope.src_port as nat)
            &&& m.dst == envelope.dst_ip + seq![':'] + text::decimal(envelope.dst_port as nat)
            &&& m.direction == (if envelope.is_from_server {
                Direction::ServerToClient
            } else {
                Direction::ClientToServer
            })
            &&& m.timestamp == clock::clock_text(envelope.timestamp.secs(), envelope.timestamp.subsec())
            &&& m.raw_payload == payload
            &&& m.msg_type == message_type(payload)
        }),
{
    assert(envelope.src_ip.push(':') =~= envelope.src_ip + seq![':']);
    assert(envelope.dst_ip.push(':') =~= envelope.dst_ip + seq![':']);
}

/// What a payload is depends on its first bytes alone: the kind of a control message is its second
/// byte, service and message are those at 4 and 5, and the length is the two at 6. A payload is
/// unknown only where it is not empty and shorter than four bytes, or than eight with a zero in
/// front.
pub proof fn law_payload_headers(payload: Seq<u8>, envelope: Envelope)
    ensures
        ({
            let m = message_of(payload, envelope);
            let n = payload.len();
            &&& n == 0 ==> m.msg_type == (MessageType::Control { opcode: 0 })
            &&& n >= 4 && payload[0] != 0 ==> m.msg_type == (MessageType::Control { opcode: payload[1] })
            &&& n >= 8 && payload[0] == 0 ==> m.msg_type == (MessageType::Dml {
                service_id: payload[4],
                message_id: payload[5],
            }) && m.service_id == Some(payload[4]) && m.message_id == Some(payload[5]) && m.dml_length
                == Some((payload[6] + 0x100 * payload[7]) as u16)
            &&& (m.msg_type == MessageType::Unknown <==> 0 < n < 4 || (4 <= n < 8 && payload[0] == 0))
            &&& m.msg_type != MessageType::Encrypted
        }),
{
}

/// Two packets belong to one stream exactly if they have the same source and the same destination,
/// address and port each.
pub proof fn law_streams_are_told_apart(a: Envelope, b: Envelope)
    ensures
        a.stream() == b.stream() <==> a.src_ip == b.src_ip && a.src_port == b.src_port && a.dst_ip
            == b.dst_ip && a.dst_port == b.dst_port,
{
}

/// A packet adds to its own stream and to no other: what it completes comes from what waited there
/// and from the packet, and what waits in other streams stays.
pub proof fn law_streams_do_not_mix(
    streams: Map<StreamKey, Seq<u8>>,
    others: Map<StreamKey, Seq<u8>>,
    envelope: Envelope,
    payload: Seq<u8>,
    key: StreamKey,
)
    ensures
        key != envelope.stream() ==> waiting_in(streams_after(streams, envelope, payload), key)
            == waiting_in(streams, key),
        waiting_in(streams, envelope.stream()) == waiting_in(others, envelope.stream())
            ==> payloads_completed(streams, envelope, payload) == payloads_completed(
            others,
            envelope,
            payload,
        ) && waiting_in(streams_after(streams, envelope, payload), envelope.stream()) == waiting_in(
            streams_after(others, envelope, payload),
            envelope.stream(),
        ),
{
}

/// A frame is the start signal 0x0D 0xF0, the payload's length with the low byte first, and the
/// payload.
pub proof fn law_frame_layout(payload: Seq<u8>)
    requires
        payload.len() <= 0xFFFF,
    ensures
        ({
            let f = frame(payload);
            &&& f.len() == 4 + payload.len()
            &&& f[0] == 0x0D
            &&& f[1] == 0xF0
            &&& f[2] + 0x100 * f[3] == payload.len()
            &&& f.subrange(4, f.len() as int) == payload
        }),
{
    broadcast use bytes::group_le_bytes_len;

    let f = frame(payload);
    bytes::law_le16_round_trip(seq![0x0Du8, 0xF0u8], payload.len() as u16, payload);
    assert(f.subrange(4, f.len() as int) =~= payload);
}

/// The payload of a frame at the start of a stream comes first, whatever follows it, and what
/// follows is drained as if it stood alone.
pub proof fn law_first_frame_comes_first(payload: Seq<u8>, rest: Seq<u8>)
    requires
        payload.len() <= 0xFFFF,
    ensures
        drain(frame(payload) + rest).0 == seq![payload] + drain(rest).0,
        drain(frame(payload) + rest).1 == drain(rest).1,
{
    lemma_frame_start(payload, rest);
    law_frame_layout(payload);
    let s = frame(payload) + rest;
    assert(s.skip(frame_len(s)) =~= rest);
    assert(s.subrange(4, frame_len(s)) =~= payload);
}

/// A frame that is not all there yet gives nothing and waits, whole.
pub proof fn law_unfinished_frames_wait(payload: Seq<u8>, n: int)
    requires
        payload.len() <= 0xFFFF,
        0 <= n < 4 + payload.len(),
    ensures
        drain(frame(payload).subrange(0, n)) == (Seq::<Seq<u8>>::empty(), frame(payload).subrange(0, n)),
{
    law_frame_layout(payload);
    let f = frame(payload);
    let s = f.subrange(0, n);
    if n >= 4 {
        assert(signal_at(s, 0));
        assert(s[2] == f[2] && s[3] == f[3]);
    }
}

/// Bytes that hold no start signal are passed over in front of one: the stream goes on as if they
/// had not been there.
pub proof fn law_noise_is_passed_over(noise: Seq<u8>, rest: Seq<u8>)
    requires
        rest.len() >= 2,
        rest[0] == 0x0D,
        rest[1] == 0xF0,
        noise.len() + rest.len() >= 4,
        forall|i: int|
            0 <= i < noise.len() - 1 ==> !(#[trigger] noise[i] == 0x0D && noise[i + 1] == 0xF0),
    ensures
        drain(noise + rest) == drain(rest),
{
    let s = noise + rest;
    if noise.len() > 0 {
        assert forall|i: int| 0 <= i < noise.len() implies !signal_at(s, i) by {
            if i < noise.len() - 1 {
                assert(s[i] == noise[i] && s[i + 1] == noise[i + 1]);
            } else {
                assert(s[i + 1] == rest[0]);
            }
        }
        let p = noise.len() as int;
        assert(s[p] == rest[0] && s[p + 1] == rest[1]);
        assert(signal_at(s, p));
        lemma_next_signal_is(s, 0, p);
        assert(s.skip(p) =~= rest);
    } else {
        assert(s =~= rest);
    }
}

/// Four bytes or more without a start signal are dropped.
pub proof fn law_noise_is_dropped(noise: Seq<u8>)
    requires
        noise.len() >= 4,
        forall|i: int|
            0 <= i < noise.len() - 1 ==> !(#[trigger] noise[i] == 0x0D && noise[i + 1] == 0xF0),
    ensures
        drain(noise) == (Seq::<Seq<u8>>::empty(), Seq::<u8>::empty()),
{
    assert forall|i: int| 0 <= i < noise.len() implies !signal_at(noise, i) by {
        if i < noise.len() - 1 {
            assert(!(noise[i] == 0x0D && noise[i + 1] == 0xF0));
        }
    }
    lemma_no_next_signal(noise, 0);
}

/// Fewer than four bytes wait, whatever they are.
pub proof fn law_few_bytes_wait(s: Seq<u8>)
    requires
        s.len() < 4,
    ensures
        drain(s) == (Seq::<Seq<u8>>::empty(), s),
{
}

/// The values of a message and of a packet are those of their fields.
pub proof fn law_message_values(m: KinpMessage, raw: RawPacketData)
    ensures
        m@.timestamp == m.timestamp@,
        m@.direction == m.direction,
        m@.src == m.src@,
        m@.dst == m.dst@,
        m@.msg_type == m.msg_type,
        m@.raw_payload == m.raw_payload@,
        m@.service_id == m.service_id,
        m@.message_id == m.message_id,
        m@.dml_length == m.dml_length,
        raw@.payload == raw.payload@,
        raw@.envelope == raw.envelope(),
        raw.envelope().timestamp == raw.timestamp,
        raw.envelope().src_ip == raw.src_ip@,
        raw.envelope().dst_ip == raw.dst_ip@,
        raw.envelope().src_port == raw.src_port,
        raw.envelope().dst_port == raw.dst_port,
        raw.envelope().is_from_server == raw.is_from_server,
{
}

} // verus!
