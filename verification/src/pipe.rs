//! The pipe between the capture side and the viewer.
//!
//! A capture is written as the 32-bit length of what follows, one byte for the direction, the
//! two ports, the 32-bit length of the payload, and the payload.

use vstd::prelude::*;
use vstd::string::*;
use crate::bytes;
use crate::bytes::{copy_range, low_u32, push_bytes, push_u16, push_u32, read_u16, read_u32};
use crate::clock::CaptureTime;
use crate::kinp;
use crate::kinp::RawPacketData;
use crate::text;
use crate::text::wide_nul;

verus! {

broadcast use bytes::group_le_bytes_len;

/// Client to server, as it went over the socket.
pub const DIR_CLIENT_TO_SERVER: u8 = 0x00;

/// Server to client, as it went over the socket.
pub const DIR_SERVER_TO_CLIENT: u8 = 0x01;

/// Client to server, before encryption.
pub const DIR_PLAINTEXT_SEND: u8 = 0x10;

/// Server to client, after decryption.
pub const DIR_PLAINTEXT_RECV: u8 = 0x11;

/// The bytes of a capture's body in front of its payload: direction, ports and length.
pub const CAPTURE_HEADER: usize = 9;

/// The longest capture that the reading side takes.
pub const LONGEST_CAPTURE: usize = 10_000_000;

/// How often the capture side tries to open the pipe.
pub const MAX_RETRIES: u32 = 10;

/// How long each try waits, in milliseconds.
pub const RETRY_WAIT_MS: u32 = 500;

/// The name of the pipe, as the system's wide-character calls take it.
pub fn pipe_name() -> (name: Vec<u16>)
    ensures
        name@ == text::utf16_encoded(r"\\.\pipe\wiz_hook"@).push(0),
{
    wide_nul(r"\\.\pipe\wiz_hook")
}

// ---- writing ----

/// A capture without the length in front. The payload's length is written modulo 2^32.
pub open spec fn capture_body(direction: u8, src_port: u16, dst_port: u16, payload: Seq<u8>) -> Seq<u8> {
    seq![direction] + bytes::le16_bytes(src_port) + bytes::le16_bytes(dst_port) + bytes::le32_bytes(
        (payload.len() as int % 0x1_0000_0000) as u32,
    ) + payload
}

/// The number in front of a capture: the length of its body modulo 2^32.
pub open spec fn capture_total(payload: Seq<u8>) -> u32 {
    ((CAPTURE_HEADER + payload.len() as int % 0x1_0000_0000) % 0x1_0000_0000) as u32
}

/// A capture as it is written to the pipe.
pub open spec fn capture(direction: u8, src_port: u16, dst_port: u16, payload: Seq<u8>) -> Seq<u8> {
    bytes::le32_bytes(capture_total(payload)) + capture_body(direction, src_port, dst_port, payload)
}

/// Frames a captured buffer for the pipe:
/// [4] total_len | [1] direction | [2] src_port | [2] dst_port | [4] payload_len | [N] payload
pub fn capture_frame(direction: u8, src_port: u16, dst_port: u16, payload: &[u8]) -> (out: Vec<u8>)
    ensures
        out@ == capture(direction, src_port, dst_port, payload@),
{
    let payload_len: u32 = low_u32(payload.len());
    let total_len: u32 = payload_len.wrapping_add(9);
    let mut out: Vec<u8> = Vec::new();
    push_u32(&mut out, total_len);
    out.push(direction);
    push_u16(&mut out, src_port);
    push_u16(&mut out, dst_port);
    push_u32(&mut out, payload_len);
    push_bytes(&mut out, payload);
    proof {
        lemma_regroup(
            bytes::le32_bytes(total_len),
            direction,
            bytes::le16_bytes(src_port),
            bytes::le16_bytes(dst_port),
            bytes::le32_bytes(payload_len),
            payload@,
        );
    }
    out
}

proof fn lemma_regroup(a: Seq<u8>, b: u8, c: Seq<u8>, d: Seq<u8>, e: Seq<u8>, f: Seq<u8>)
    ensures
        (Seq::<u8>::empty() + a).push(b) + c + d + e + f == a + (seq![b] + c + d + e + f),
{
    assert((Seq::<u8>::empty() + a).push(b) + c + d + e + f =~= a + (seq![b] + c + d + e + f));
}

/// What `write_capture` hands to the pipe: nothing while it is not connected, otherwise the
/// framed capture.
pub fn write_capture(
    connected: bool,
    direction: u8,
    src_port: u16,
    dst_port: u16,
    payload: &[u8],
) -> (out: Option<Vec<u8>>)
    ensures
        out is Some <==> connected,
        out matches Some(frame) ==> frame@ == capture(direction, src_port, dst_port, payload@),
{
    if !connected {
        return None;
    }
    Some(capture_frame(direction, src_port, dst_port, payload))
}

// ---- reading ----

/// The label that stands for the address of a packet with this direction byte.
pub open spec fn label_of(direction: u8) -> Seq<char> {
    if direction >= 0x10 {
        "plaintext"@
    } else {
        "hook"@
    }
}

/// Whether a capture body holds all of the payload that it announces.
pub open spec fn body_is_whole(body: Seq<u8>) -> bool {
    body.len() >= CAPTURE_HEADER && body.len() >= CAPTURE_HEADER + bytes::le32(body, 5)
}

/// The payload that a capture body announces.
pub open spec fn body_payload(body: Seq<u8>) -> Seq<u8> {
    body.subrange(CAPTURE_HEADER as int, CAPTURE_HEADER + bytes::le32(body, 5))
}

/// The envelope of a capture body that was read at `timestamp`.
pub open spec fn body_envelope(body: Seq<u8>, timestamp: CaptureTime) -> kinp::Envelope {
    kinp::Envelope {
        timestamp,
        src_ip: label_of(body[0]),
        dst_ip: label_of(body[0]),
        src_port: bytes::le16(body, 1) as u16,
        dst_port: bytes::le16(body, 3) as u16,
        is_from_server: body[0] == DIR_SERVER_TO_CLIENT || body[0] == DIR_PLAINTEXT_RECV,
    }
}

/// Parses a capture body that was read at `timestamp`.
/// Layout: [1] direction | [2] src_port | [2] dst_port | [4] payload_len | [N] payload
/// Direction codes: 0x00=C2S encrypted, 0x01=S2C encrypted, 0x10=plaintext send, 0x11=plaintext recv.
pub fn parse_frame_at(frame: &[u8], timestamp: CaptureTime) -> (r: Option<RawPacketData>)
    ensures
        r is Some <==> body_is_whole(frame@),
        r matches Some(packet) ==> {
            &&& packet.payload@ == body_payload(frame@)
            &&& packet.envelope() == body_envelope(frame@, timestamp)
        },
{
    if frame.len() < CAPTURE_HEADER {
        return None;
    }
    let direction: u8 = frame[0];
    let src_port: u16 = read_u16(frame, 1);
    let dst_port: u16 = read_u16(frame, 3);
    let payload_len: u32 = read_u32(frame, 5);
    if ((frame.len() - CAPTURE_HEADER) as u64) < payload_len as u64 {
        return None;
    }
    let end: usize = CAPTURE_HEADER + payload_len as usize;
    let label = if direction >= 0x10 {
        "plaintext"
    } else {
        "hook"
    };
    Some(
        RawPacketData {
            timestamp,
            src_ip: label.to_string(),
            dst_ip: label.to_string(),
            src_port,
            dst_port,
            payload: copy_range(frame, CAPTURE_HEADER, end),
            is_from_server: direction == DIR_SERVER_TO_CLIENT || direction == DIR_PLAINTEXT_RECV,
        },
    )
}

/// Parses a capture body that is read now.
pub fn parse_frame(frame: &[u8]) -> (r: Option<RawPacketData>)
    ensures
        r is Some <==> body_is_whole(frame@),
        r matches Some(packet) ==> {
            &&& packet.payload@ == body_payload(frame@)
            &&& packet.envelope() == body_envelope(frame@, packet.timestamp)
        },
{
    parse_frame_at(frame, CaptureTime::now())
}

/// Whether a capture of this length is taken.
pub open spec fn is_accepted_length(total: int) -> bool {
    CAPTURE_HEADER <= total <= LONGEST_CAPTURE
}

/// What bytes from the pipe hold.
pub struct PipeContents {
    /// The bodies of the captures that are complete.
    pub bodies: Seq<Seq<u8>>,
    /// The bytes behind them.
    pub rest: Seq<u8>,
    /// Whether a length in front of a capture is not accepted, which ends the reading.
    pub broken: bool,
}

/// Takes bytes from the pipe apart.
pub open spec fn pipe_contents(s: Seq<u8>) -> PipeContents
    decreases s.len(),
{
    let total = bytes::le32(s, 0);
    if s.len() < 4 {
        PipeContents { bodies: Seq::empty(), rest: s, broken: false }
    } else if !is_accepted_length(total) {
        PipeContents { bodies: Seq::empty(), rest: s, broken: true }
    } else if s.len() < 4 + total {
        PipeContents { bodies: Seq::empty(), rest: s, broken: false }
    } else {
        let more = pipe_contents(s.skip(4 + total));
        PipeContents { bodies: seq![s.subrange(4, 4 + total)] + more.bodies, ..more }
    }
}

/// What the bytes just read complete.
pub enum PipeStep {
    /// Nothing yet.
    More,
    /// A length that is not accepted: the reading ends.
    Stop,
    /// The body of a capture.
    Body(Vec<u8>),
}

/// Reads captures from the pipe piece by piece. It says how many bytes it wants, and takes
/// what one read brought.
pub struct PipeReader {
    held: Vec<u8>,
}

impl View for PipeReader {
    type V = Seq<u8>;

    closed spec fn view(&self) -> Seq<u8> {
        self.held@
    }
}

impl PipeReader {
    /// What is held is the start of one capture.
    pub open spec fn wf(self) -> bool {
        self@.len() >= 4 ==> is_accepted_length(bytes::le32(self@, 0)) && self@.len() < 4
            + bytes::le32(self@, 0)
    }

    /// How many bytes complete the length in front or, behind it, the body.
    pub open spec fn missing(self) -> int {
        if self@.len() < 4 {
            4 - self@.len()
        } else {
            4 + bytes::le32(self@, 0) - self@.len()
        }
    }

    /// A reader at the start of a capture.
    pub fn new() -> (r: Self)
        ensures
            r.wf(),
            r@ == Seq::<u8>::empty(),
    {
        PipeReader { held: Vec::new() }
    }

    /// How many bytes to ask the pipe for.
    pub fn wanted(&self) -> (n: usize)
        requires
            self.wf(),
        ensures
            n == self.missing(),
            n > 0,
    {
        let have: usize = self.held.len();
        if have < 4 {
            4 - have
        } else {
            4 + read_u32(self.held.as_slice(), 0) as usize - have
        }
    }

    /// Takes the bytes of one read, at most as many as were wanted.
    pub fn received(&mut self, data: &[u8]) -> (step: PipeStep)
        requires
            old(self).wf(),
            data@.len() <= old(self).missing(),
        ensures
            ({
                let all = pipe_contents(old(self)@ + data@);
                match step {
                    PipeStep::More => {
                        &&& final(self).wf()
                        &&& all.bodies.len() == 0
                        &&& final(self)@ == all.rest
                        &&& !all.broken
                    },
                    PipeStep::Stop => all.bodies.len() == 0 && all.broken && final(self)@ == all.rest,
                    PipeStep::Body(body) => {
                        &&& final(self).wf()
                        &&& all.bodies == seq![body@]
                        &&& final(self)@.len() == 0
                        &&& all.rest.len() == 0
                        &&& !all.broken
                    },
                }
            }),
    {
        let ghost all = self@ + data@;
        let ghost before = self@;
        push_bytes(&mut self.held, data);
        let n: usize = self.held.len();
        assert(self@ == all);
        if n < 4 {
            return PipeStep::More;
        }
        proof {
            if before.len() >= 4 {
                assert(bytes::le32(all, 0) == bytes::le32(before, 0));
            }
        }
        let total: usize = read_u32(self.held.as_slice(), 0) as usize;
        if total < CAPTURE_HEADER || total > LONGEST_CAPTURE {
            return PipeStep::Stop;
        }
        if n < 4 + total {
            return PipeStep::More;
        }
        let body: Vec<u8> = copy_range(self.held.as_slice(), 4, n);
        self.held = Vec::new();
        proof {
            assert(n == 4 + total);
            assert(all.skip(4 + total).len() == 0);
            assert(body@ =~= all.subrange(4, 4 + total));
            let more = pipe_contents(all.skip(4 + total));
            assert(seq![body@] + more.bodies =~= seq![body@]);
        }
        PipeStep::Body(body)
    }
}

// ---- connecting ----

/// What the capture side does after it tried to open the pipe.
#[derive(Debug, Clone, Copy, PartialEq, Eq, Structural)]
pub enum ConnectStep {
    /// The pipe is open.
    Connected,
    /// Wait, and try once more.
    TryAgain,
    /// Wait, and give up.
    GiveUp,
}

/// What the capture side does after try number `attempt`, counted from zero.
pub open spec fn after_try(attempt: int, opened: bool) -> ConnectStep {
    if opened {
        ConnectStep::Connected
    } else if attempt + 1 < MAX_RETRIES {
        ConnectStep::TryAgain
    } else {
        ConnectStep::GiveUp
    }
}

/// Decides after try number `attempt`, counted from zero.
pub fn connect_step(attempt: u32, opened: bool) -> (step: ConnectStep)
    ensures
        step == after_try(attempt as int, opened),
        step == ConnectStep::Connected <==> opened,
        step == ConnectStep::TryAgain <==> !opened && attempt + 1 < MAX_RETRIES,
        step == ConnectStep::GiveUp <==> !opened && attempt + 1 >= MAX_RETRIES,
{
    if opened {
        ConnectStep::Connected
    } else if attempt < MAX_RETRIES - 1 {
        ConnectStep::TryAgain
    } else {
        ConnectStep::GiveUp
    }
}

/// Where the pipe server stands.
#[derive(Debug, Clone, Copy, PartialEq, Eq, Structural)]
pub enum ServerState {
    /// No pipe is open.
    Idle,
    /// A pipe was asked for.
    Creating,
    /// A pipe is open and waits for the capture side.
    Waiting,
    /// The capture side is connected and captures are read.
    Reading,
    /// The server is done.
    Stopped,
}

/// What the pipe server does next.
#[derive(Debug, Clone, Copy, PartialEq, Eq, Structural)]
pub enum ServerAction {
    /// Create a pipe.
    Create,
    /// Wait for half a second.
    Sleep,
    /// Wait for the capture side to connect.
    Connect,
    /// Read captures until the pipe ends.
    Read,
    /// Close the pipe.
    Close,
    /// Disconnect the capture side and close the pipe.
    DisconnectAndClose,
    /// End the server.
    Stop,
}

impl ServerState {
    /// Whether a pipe is open in this state.
    pub open spec fn has_pipe(self) -> bool {
        self == ServerState::Waiting || self == ServerState::Reading
    }

    /// What comes next. `shutdown` is whether the server was asked to end; `succeeded` is how
    /// the last action went: whether the pipe was created, or whether the capture side is
    /// connected.
    pub open spec fn next(self, shutdown: bool, succeeded: bool) -> (ServerState, ServerAction) {
        match self {
            ServerState::Idle => if shutdown {
                (ServerState::Stopped, ServerAction::Stop)
            } else {
                (ServerState::Creating, ServerAction::Create)
            },
            ServerState::Creating => if succeeded {
                (ServerState::Waiting, ServerAction::Connect)
            } else {
                (ServerState::Idle, ServerAction::Sleep)
            },
            ServerState::Waiting => if succeeded {
                (ServerState::Reading, ServerAction::Read)
            } else {
                (ServerState::Idle, ServerAction::Close)
            },
            ServerState::Reading => (ServerState::Idle, ServerAction::DisconnectAndClose),
            ServerState::Stopped => (ServerState::Stopped, ServerAction::Stop),
        }
    }

    /// What comes next. `shutdown` is whether the server was asked to end; `succeeded` is how
    /// the last action went: whether the pipe was created, or whether the capture side is
    /// connected.
    pub fn step(self, shutdown: bool, succeeded: bool) -> (r: (ServerState, ServerAction))
        ensures
            r == self.next(shutdown, succeeded),
            // A pipe that was open is closed before the server goes on without it.
            self.has_pipe() && !r.0.has_pipe() ==> r.1 == ServerAction::Close || r.1
                == ServerAction::DisconnectAndClose,
            // A pipe is created only where none is open.
            r.1 == ServerAction::Create ==> !self.has_pipe() && !shutdown,
            // Captures are read only from a pipe whose other side is connected.
            r.1 == ServerAction::Read ==> self == ServerState::Waiting && succeeded,
    {
        match self {
            ServerState::Idle => if shutdown {
                (ServerState::Stopped, ServerAction::Stop)
            } else {
                (ServerState::Creating, ServerAction::Create)
            },
            ServerState::Creating => if succeeded {
                (ServerState::Waiting, ServerAction::Connect)
            } else {
                (ServerState::Idle, ServerAction::Sleep)
            },
            ServerState::Waiting => if succeeded {
                (ServerState::Reading, ServerAction::Read)
            } else {
                (ServerState::Idle, ServerAction::Close)
            },
            ServerState::Reading => (ServerState::Idle, ServerAction::DisconnectAndClose),
            ServerState::Stopped => (ServerState::Stopped, ServerAction::Stop),
        }
    }
}

// ---- laws ----

/// However the bytes from the pipe are cut, they hold the same captures: reading `a`, and then
/// what is left of it together with `b`, gives what reading both at once gives.
pub proof fn law_pipe_in_two_steps(a: Seq<u8>, b: Seq<u8>)
    requires
        !pipe_contents(a).broken,
    ensures
        ({
            let first = pipe_contents(a);
            let second = pipe_contents(first.rest + b);
            let both = pipe_contents(a + b);
            &&& both.bodies == first.bodies + second.bodies
            &&& both.rest == second.rest
            &&& both.broken == second.broken
        }),
    decreases a.len(),
{
    let empty = Seq::<Seq<u8>>::empty();
    let total = bytes::le32(a, 0);
    if a.len() < 4 || a.len() < 4 + total {
        assert(empty + pipe_contents(a + b).bodies =~= pipe_contents(a + b).bodies);
    } else {
        let n = 4 + total;
        assert(bytes::le32(a + b, 0) == total);
        assert((a + b).skip(n) =~= a.skip(n) + b);
        assert((a + b).subrange(4, n) =~= a.subrange(4, n));
        law_pipe_in_two_steps(a.skip(n), b);
        let head = seq![a.subrange(4, n)];
        let first = pipe_contents(a.skip(n));
        let second = pipe_contents(first.rest + b);
        assert(head + (first.bodies + second.bodies) =~= (head + first.bodies) + second.bodies);
    }
}

/// A capture of a payload that is not too long is read back as one body.
pub proof fn law_capture_is_read(direction: u8, src_port: u16, dst_port: u16, payload: Seq<u8>)
    requires
        CAPTURE_HEADER + payload.len() <= LONGEST_CAPTURE,
    ensures
        pipe_contents(capture(direction, src_port, dst_port, payload)) == (PipeContents {
            bodies: seq![capture_body(direction, src_port, dst_port, payload)],
            rest: Seq::empty(),
            broken: false,
        }),
{
    let body = capture_body(direction, src_port, dst_port, payload);
    let written = capture(direction, src_port, dst_port, payload);
    bytes::law_le32_round_trip(Seq::empty(), capture_total(payload), body);
    assert(written =~= Seq::<u8>::empty() + bytes::le32_bytes(capture_total(payload)) + body);
    let total = body.len() as int;
    assert(bytes::le32(written, 0) == total);
    assert(written.subrange(4, 4 + total) =~= body);
    assert(written.skip(4 + total) =~= Seq::<u8>::empty());
    let more = pipe_contents(written.skip(4 + total));
    assert(seq![body] + more.bodies =~= seq![body]);
}

/// From the body of a capture the parsing side recovers the ports, the payload, the side it
/// came from and whether it was plaintext.
pub proof fn law_capture_round_trip(
    direction: u8,
    src_port: u16,
    dst_port: u16,
    payload: Seq<u8>,
    timestamp: CaptureTime,
)
    requires
        CAPTURE_HEADER + payload.len() <= LONGEST_CAPTURE,
    ensures
        ({
            let body = capture_body(direction, src_port, dst_port, payload);
            let envelope = body_envelope(body, timestamp);
            &&& body_is_whole(body)
            &&& body_payload(body) == payload
            &&& envelope.src_port == src_port
            &&& envelope.dst_port == dst_port
            &&& envelope.src_ip == label_of(direction)
            &&& envelope.dst_ip == label_of(direction)
            &&& envelope.is_from_server == (direction == DIR_SERVER_TO_CLIENT || direction
                == DIR_PLAINTEXT_RECV)
        }),
{
    lemma_body_ports(direction, src_port, dst_port, payload);
    lemma_body_payload(direction, src_port, dst_port, payload);
}

/// One capture as values.
pub struct CaptureRecord {
    pub direction: u8,
    pub src_port: u16,
    pub dst_port: u16,
    pub payload: Seq<u8>,
}

impl CaptureRecord {
    /// The capture as it is written to the pipe.
    pub open spec fn written(self) -> Seq<u8> {
        capture(self.direction, self.src_port, self.dst_port, self.payload)
    }

    /// The capture without the length in front.
    pub open spec fn body(self) -> Seq<u8> {
        capture_body(self.direction, self.src_port, self.dst_port, self.payload)
    }
}

/// Captures written one behind the other.
pub open spec fn captures_written(captures: Seq<CaptureRecord>) -> Seq<u8>
    decreases captures.len(),
{
    if captures.len() == 0 {
        Seq::empty()
    } else {
        captures[0].written() + captures_written(captures.skip(1))
    }
}

/// Captures that are written one behind the other are read back, each once and in order.
pub proof fn law_captures_are_read_in_order(captures: Seq<CaptureRecord>)
    requires
        forall|i: int|
            0 <= i < captures.len() ==> CAPTURE_HEADER + (#[trigger] captures[i]).payload.len()
                <= LONGEST_CAPTURE,
    ensures
        pipe_contents(captures_written(captures)) == (PipeContents {
            bodies: Seq::new(captures.len(), |i: int| captures[i].body()),
            rest: Seq::empty(),
            broken: false,
        }),
    decreases captures.len(),
{
    let bodies = Seq::new(captures.len(), |i: int| captures[i].body());
    if captures.len() == 0 {
        assert(pipe_contents(captures_written(captures)).bodies =~= bodies);
    } else {
        let c = captures[0];
        let rest = captures.skip(1);
        law_captures_are_read_in_order(rest);
        law_capture_is_read(c.direction, c.src_port, c.dst_port, c.payload);
        law_pipe_in_two_steps(c.written(), captures_written(rest));
        assert(Seq::<u8>::empty() + captures_written(rest) =~= captures_written(rest));
        assert(seq![c.body()] + Seq::new(rest.len(), |i: int| rest[i].body()) =~= bodies);
    }
}

proof fn lemma_body_ports(direction: u8, src_port: u16, dst_port: u16, payload: Seq<u8>)
    ensures
        ({
            let body = capture_body(direction, src_port, dst_port, payload);
            &&& body.len() == CAPTURE_HEADER + payload.len()
            &&& body[0] == direction
            &&& bytes::le16(body, 1) == src_port
            &&& bytes::le16(body, 3) == dst_port
        }),
{
    let body = capture_body(direction, src_port, dst_port, payload);
    let src = bytes::le16_bytes(src_port);
    let dst = bytes::le16_bytes(dst_port);
    let len = bytes::le32_bytes((payload.len() as int % 0x1_0000_0000) as u32);
    bytes::law_le16_round_trip(seq![direction], src_port, dst + len + payload);
    bytes::law_le16_round_trip(seq![direction] + src, dst_port, len + payload);
    assert(body =~= seq![direction] + src + (dst + len + payload));
    assert(body =~= seq![direction] + src + dst + (len + payload));
}

proof fn lemma_body_payload(direction: u8, src_port: u16, dst_port: u16, payload: Seq<u8>)
    requires
        CAPTURE_HEADER + payload.len() <= LONGEST_CAPTURE,
    ensures
        ({
            let body = capture_body(direction, src_port, dst_port, payload);
            &&& bytes::le32(body, 5) == payload.len()
            &&& body_payload(body) == payload
        }),
{
    let body = capture_body(direction, src_port, dst_port, payload);
    let front = seq![direction] + bytes::le16_bytes(src_port) + bytes::le16_bytes(dst_port);
    let len = payload.len() as u32;
    bytes::law_le32_round_trip(front, len, payload);
    assert(body =~= front + bytes::le32_bytes(len) + payload);
    assert(body_payload(body) =~= payload);
}

// ---- laws on the layout of captures ----

/// A capture, byte by byte: the length of what follows the first four, the direction, the two ports,
/// the length of the payload, all with their low bytes first, and the payload.
pub proof fn law_capture_layout(direction: u8, src_port: u16, dst_port: u16, payload: Seq<u8>)
    requires
        payload.len() < 0xFFFF_FFF0,
    ensures
        ({
            let s = capture(direction, src_port, dst_port, payload);
            &&& s.len() == 13 + payload.len()
            &&& s[0] + 0x100 * s[1] + 0x1_0000 * s[2] + 0x100_0000 * s[3] == 9 + payload.len()
            &&& s[4] == direction
            &&& s[5] + 0x100 * s[6] == src_port
            &&& s[7] + 0x100 * s[8] == dst_port
            &&& s[9] + 0x100 * s[10] + 0x1_0000 * s[11] + 0x100_0000 * s[12] == payload.len()
            &&& s.subrange(13, s.len() as int) == payload
        }),
{
    let body = capture_body(direction, src_port, dst_port, payload);
    let s = capture(direction, src_port, dst_port, payload);
    let front = bytes::le32_bytes(capture_total(payload));
    lemma_body_ports(direction, src_port, dst_port, payload);
    bytes::law_le32_round_trip(Seq::empty(), capture_total(payload), body);
    assert(s =~= Seq::<u8>::empty() + front + body);
    let head = seq![direction] + bytes::le16_bytes(src_port) + bytes::le16_bytes(dst_port);
    let len = payload.len() as u32;
    bytes::law_le32_round_trip(front + head, len, payload);
    assert(s =~= front + head + bytes::le32_bytes(len) + payload);
    assert(s[4] == body[0] && s[5] == body[1] && s[6] == body[2] && s[7] == body[3] && s[8] == body[4]);
    assert(s.subrange(13, s.len() as int) =~= payload);
}

/// The body of a capture is read by place: the direction at 0, the ports at 1 and 3, the length of
/// the payload at 5, and the payload from 9 on; what stands behind it is left alone. It is not read
/// where it is shorter than that. Directions from 0x10 on are plaintext, and 0x01 and 0x11 come from
/// the server.
pub proof fn law_body_is_read_by_place(body: Seq<u8>, timestamp: CaptureTime)
    ensures
        ({
            let len = body[5] + 0x100 * body[6] + 0x1_0000 * body[7] + 0x100_0000 * body[8];
            let envelope = body_envelope(body, timestamp);
            &&& (body_is_whole(body) <==> body.len() >= 9 && body.len() >= 9 + len)
            &&& body_payload(body) == body.subrange(9, 9 + len)
            &&& envelope.timestamp == timestamp
            &&& envelope.src_port == body[1] + 0x100 * body[2]
            &&& envelope.dst_port == body[3] + 0x100 * body[4]
            &&& body[0] >= 0x10 ==> envelope.src_ip == "plaintext"@ && envelope.dst_ip == "plaintext"@
            &&& body[0] < 0x10 ==> envelope.src_ip == "hook"@ && envelope.dst_ip == "hook"@
            &&& (envelope.is_from_server <==> body[0] == 0x01 || body[0] == 0x11)
        }),
{
}

/// The lengths that are taken are those from 9 to 10,000,000. Where the length in front of a capture
/// is another, nothing more is read.
pub proof fn law_lengths_are_limited(s: Seq<u8>)
    requires
        s.len() >= 4,
    ensures
        ({
            let total = s[0] + 0x100 * s[1] + 0x1_0000 * s[2] + 0x100_0000 * s[3];
            let contents = pipe_contents(s);
            &&& total < 9 || total > 10_000_000 ==> contents.broken && contents.bodies.len() == 0
                && contents.rest == s
            &&& 9 <= total <= 10_000_000 && s.len() < 4 + total ==> !contents.broken
                && contents.bodies.len() == 0 && contents.rest == s
            &&& 9 <= total <= 10_000_000 && s.len() >= 4 + total ==> contents.bodies.len() > 0
                && contents.bodies[0] == s.subrange(4, 4 + total)
        }),
{
}

/// The four directions: 0 and 1 over the socket, 0x10 and 0x11 in plaintext, to the server and from
/// it.
pub proof fn law_direction_codes()
    ensures
        DIR_CLIENT_TO_SERVER == 0x00,
        DIR_SERVER_TO_CLIENT == 0x01,
        DIR_PLAINTEXT_SEND == 0x10,
        DIR_PLAINTEXT_RECV == 0x11,
{
}

/// The capture side tries ten times to open the pipe, half a second apart, and gives up after the
/// tenth; it goes on as soon as the pipe is open.
pub proof fn law_connecting_ends(attempt: int)
    requires
        attempt >= 0,
    ensures
        after_try(attempt, true) == ConnectStep::Connected,
        attempt < 9 ==> after_try(attempt, false) == ConnectStep::TryAgain,
        attempt >= 9 ==> after_try(attempt, false) == ConnectStep::GiveUp,
        MAX_RETRIES * RETRY_WAIT_MS == 5000,
        RETRY_WAIT_MS == 500,
{
}

/// Where the server stands after these steps, each with whether it was asked to end and how the last
/// action went.
pub open spec fn server_after(state: ServerState, steps: Seq<(bool, bool)>) -> ServerState
    decreases steps.len(),
{
    if steps.len() == 0 {
        state
    } else {
        server_after(state, steps.drop_last()).next(steps.last().0, steps.last().1).0
    }
}

/// Once the server was asked to end it does, four steps later at most, whatever comes of its
/// actions, and it stays ended.
pub proof fn law_server_ends(state: ServerState, steps: Seq<(bool, bool)>)
    requires
        steps.len() >= 4,
        forall|i: int| 0 <= i < steps.len() ==> (#[trigger] steps[i]).0,
    ensures
        server_after(state, steps) == ServerState::Stopped,
    decreases steps.len(),
{
    let before = steps.drop_last();
    assert(steps.last() == steps[steps.len() - 1]);
    assert forall|i: int| 0 <= i < before.len() implies (#[trigger] before[i]).0 by {
        assert(before[i] == steps[i]);
    }
    if steps.len() > 4 {
        law_server_ends(state, before);
    } else {
        reveal_with_fuel(server_after, 5);
        assert(steps[0].0 && steps[1].0 && steps[2].0 && steps[3].0);
        assert(steps.drop_last().last() == steps[2]);
        assert(steps.drop_last().drop_last().last() == steps[1]);
        assert(steps.drop_last().drop_last().drop_last().last() == steps[0]);
    }
}

/// A server that is not asked to end never does. Where all goes well it creates a pipe, waits for
/// the capture side, reads, disconnects and begins again; where the pipe cannot be created it waits
/// and begins again; where the capture side does not connect it closes the pipe and begins again.
pub proof fn law_server_goes_on(state: ServerState, succeeded: bool)
    ensures
        state != ServerState::Stopped ==> state.next(false, succeeded).0 != ServerState::Stopped,
        ServerState::Idle.next(false, succeeded) == (ServerState::Creating, ServerAction::Create),
        ServerState::Creating.next(false, true) == (ServerState::Waiting, ServerAction::Connect),
        ServerState::Waiting.next(false, true) == (ServerState::Reading, ServerAction::Read),
        ServerState::Reading.next(false, succeeded) == (
            ServerState::Idle,
            ServerAction::DisconnectAndClose,
        ),
        ServerState::Creating.next(false, false) == (ServerState::Idle, ServerAction::Sleep),
        ServerState::Waiting.next(false, false) == (ServerState::Idle, ServerAction::Close),
{
}

/// A pipe is open exactly between its creation and its closing: an action opens one only where none
/// is open, and closes one only where one is.
pub proof fn law_pipes_are_closed(state: ServerState, shutdown: bool, succeeded: bool)
    ensures
        ({
            let (after, action) = state.next(shutdown, succeeded);
            let closes = action == ServerAction::Close || action == ServerAction::DisconnectAndClose;
            &&& (closes <==> state.has_pipe() && !after.has_pipe())
            &&& (!state.has_pipe() && after.has_pipe() <==> state == ServerState::Creating && succeeded)
            &&& (action == ServerAction::DisconnectAndClose <==> state == ServerState::Reading)
        }),
{
}

} // verus!
