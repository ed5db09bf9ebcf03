//! The capture side inside the game: which memory to read when the game sends or receives a
//! message, and what to make of it.
//!
//! The functions here decide; the caller reads memory as they ask, and hands back the bytes.

use vstd::prelude::*;
use vstd::slice::slice_subrange;
use crate::bytes;
use crate::bytes::{copy_range, low_u16, push_bytes, push_u16, read_u16, read_u32, read_u64};
use crate::clock::CaptureTime;
use crate::kinp;
use crate::pipe;
use crate::pipe::{write_capture, DIR_PLAINTEXT_RECV, DIR_PLAINTEXT_SEND};

verus! {

broadcast use bytes::group_le_bytes_len;

/// Where a message object begins to hold data of its own.
pub const OBJECT_DATA: usize = 0x30;

/// How much of a message object is read.
pub const OBJECT_SIZE: usize = 0x50;

/// How much is read of the data of a message whose numbers came apart from it.
pub const NUMBERED_SIZE: usize = 4096;

// ---- pointers ----

/// Whether an address may be one of a user-mode object.
pub open spec fn valid_ptr(addr: u64) -> bool {
    0x1_0000 < addr < 0x7FFF_FFFF_FFFF
}

/// Whether an 8-byte value may be the address of a table of virtual functions.
pub open spec fn vtable_like(value: u64) -> bool {
    0x7FF0_0000_0000 < value < 0x7FFF_FFFF_FFFF
}

/// The pointer at the start of `data`, or zero where there is no room for one.
pub open spec fn ptr_at_start(data: Seq<u8>) -> u64 {
    if data.len() >= 8 {
        bytes::le64(data, 0) as u64
    } else {
        0
    }
}

/// The first eight bytes of `data`, filled with zeros.
pub open spec fn eight_bytes(data: Seq<u8>) -> Seq<u8> {
    Seq::new(8, |i: int| if i < data.len() { data[i] } else { 0 })
}

/// Whether an address may be one of a user-mode object.
pub fn is_valid_ptr(addr: u64) -> (r: bool)
    ensures
        r == valid_ptr(addr),
{
    addr > 0x1_0000 && addr < 0x7FFF_FFFF_FFFF
}

/// Reads the pointer at the start of `data`; zero where there is no room for one.
pub fn read_ptr(data: &[u8]) -> (p: u64)
    ensures
        p == ptr_at_start(data@),
{
    if data.len() >= 8 {
        read_u64(data, 0)
    } else {
        0
    }
}

/// Reads the pointer at the start of `data`, with zeros for bytes that are not there.
pub fn read_ptr_padded(data: &[u8]) -> (p: u64)
    ensures
        p == bytes::le64(eight_bytes(data@), 0),
{
    let mut buf: Vec<u8> = Vec::new();
    let mut i: usize = 0;
    while i < 8
        invariant
            i <= 8,
            buf@.len() == i,
            forall|j: int| 0 <= j < i ==> buf@[j] == eight_bytes(data@)[j],
        decreases 8 - i,
    {
        buf.push(if i < data.len() { data[i] } else { 0 });
        i += 1;
    }
    assert(buf@ =~= eight_bytes(data@));
    read_u64(buf.as_slice(), 0)
}

/// Whether a memory protection lets the memory be read.
pub open spec fn readable_protection(protect: u32) -> bool {
    protect == 0x02 || protect == 0x04 || protect == 0x08 || protect == 0x20 || protect == 0x40
        || protect == 0x80
}

/// What the system says of the memory at an address.
#[derive(Debug, Clone, Copy)]
pub struct MemoryRegion {
    pub base: u64,
    pub size: u64,
    pub state: u32,
    pub protect: u32,
}

/// How many of `desired` bytes can be read at `addr`, by what the system says of the memory there.
pub open spec fn readable_len(region: Option<MemoryRegion>, addr: u64, desired: u64) -> int {
    match region {
        Some(m) if m.size != 0 && m.state == 0x1000 && readable_protection(m.protect) => {
            let end = (m.base + m.size) % 0x1_0000_0000_0000_0000;
            if end < addr {
                0
            } else if end - addr < desired {
                end - addr
            } else {
                desired as int
            }
        },
        _ => 0,
    }
}

/// How many of `desired` bytes can be read at `addr`: none where the system knows nothing of
/// the address, or the memory there is not committed or may not be read; otherwise as many as
/// the region holds.
pub fn safe_read_len(region: Option<MemoryRegion>, addr: u64, desired: u64) -> (n: u64)
    ensures
        n == readable_len(region, addr, desired),
{
    match region {
        Some(m) => {
            let p: u32 = m.protect;
            let readable: bool = p == 0x02 || p == 0x04 || p == 0x08 || p == 0x20 || p == 0x40 || p == 0x80;
            if m.size == 0 || m.state != 0x1000 || !readable {
                return 0;
            }
            let end: u64 = m.base.wrapping_add(m.size);
            let available: u64 = if end < addr {
                0
            } else {
                end - addr
            };
            if available < desired {
                available
            } else {
                desired
            }
        },
        None => 0,
    }
}

// ---- what a call captures ----

/// A message that was captured.
pub struct Captured {
    pub service_id: u8,
    pub message_type: u8,
    pub data: Vec<u8>,
    pub is_recv: bool,
}

/// A message that was captured, as values.
#[verifier::ext_equal]
pub struct CapturedView {
    pub service_id: u8,
    pub message_type: u8,
    pub data: Seq<u8>,
    pub is_recv: bool,
}

impl View for Captured {
    type V = CapturedView;

    open spec fn view(&self) -> CapturedView {
        CapturedView {
            service_id: self.service_id,
            message_type: self.message_type,
            data: self.data@,
            is_recv: self.is_recv,
        }
    }
}

/// Readable memory: the bytes, at most as many as asked for, that can be read at an address.
pub type Memory = spec_fn(u64, usize) -> Seq<u8>;

/// How much of a message's data buffer is read.
pub open spec fn buffer_size(header: Seq<u8>) -> usize {
    let payload_len = bytes::le32(header, 0x20);
    if 0 < payload_len < 8192 {
        payload_len as usize
    } else {
        256
    }
}

/// Whether the message object at `addr` points to a data buffer.
pub open spec fn has_buffer(header: Seq<u8>, addr: u64) -> bool {
    let p = bytes::le64(header, 0x10) as u64;
    valid_ptr(p) && p != addr
}

/// The data in a message's buffer. Behind a table of virtual functions it is an object, whose
/// data begins further on.
pub open spec fn buffer_data(buffer: Seq<u8>) -> Seq<u8> {
    if buffer.len() < 4 {
        Seq::empty()
    } else if !vtable_like(ptr_at_start(buffer)) {
        buffer
    } else if buffer.len() > OBJECT_DATA {
        buffer.skip(OBJECT_DATA as int)
    } else {
        Seq::empty()
    }
}

/// The message of an object whose header was read, with this data from its buffer. An object
/// without data there holds it behind its header.
pub open spec fn object_message(header: Seq<u8>, data: Seq<u8>, is_recv: bool) -> Option<CapturedView> {
    let shown = if data.len() == 0 {
        header.skip(OBJECT_DATA as int)
    } else {
        data
    };
    if shown.len() == 0 {
        None
    } else {
        Some(
            CapturedView { service_id: header[0x28], message_type: header[0x29], data: shown, is_recv },
        )
    }
}

/// The message of the object at `addr`.
pub open spec fn object_capture(mem: Memory, addr: u64, is_recv: bool) -> Option<CapturedView> {
    let header = mem(addr, OBJECT_SIZE);
    if header.len() < OBJECT_DATA {
        None
    } else if has_buffer(header, addr) {
        let buffer = mem(bytes::le64(header, 0x10) as u64, buffer_size(header));
        object_message(header, buffer_data(buffer), is_recv)
    } else {
        object_message(header, Seq::empty(), is_recv)
    }
}

/// What a call of the sending function captures.
/// Type 1: `p2` is small, and `p1` points to the bytes of a pointer to the message object.
/// Type 2: `p1` and `p2` are the same, and point to a structure that begins with that pointer.
pub open spec fn tx_capture(mem: Memory, p1: u64, p2: u64) -> Option<CapturedView> {
    if !valid_ptr(p1) {
        None
    } else if 0 < p2 < 0x1_0000 {
        let raw = mem(p1, if p2 < 64 { p2 as usize } else { 64 });
        let object = bytes::le64(eight_bytes(raw), 0) as u64;
        if raw.len() >= 6 && valid_ptr(object) {
            object_capture(mem, object, false)
        } else {
            None
        }
    } else if p1 == p2 {
        let raw = mem(p1, 8);
        let object = ptr_at_start(raw);
        if raw.len() >= 8 && valid_ptr(object) {
            object_capture(mem, object, false)
        } else {
            None
        }
    } else {
        None
    }
}

/// The fields of a message in binary: behind its four-byte header, as long as that says, or
/// what there is of it up to 4096 bytes.
pub open spec fn binary_fields(data: Seq<u8>) -> Seq<u8> {
    let announced = bytes::le16(data, 2);
    if 4 < announced <= data.len() {
        data.subrange(4, announced)
    } else if data.len() <= 4096 {
        data.skip(4)
    } else {
        data.subrange(4, 4096)
    }
}

/// Whether a number may be the one of a service.
pub open spec fn service_like(id: int) -> bool {
    0 < id < 100
}

/// What the bytes that a call of the receiving function hands over capture: a message in
/// binary, or bytes of which no more is known.
pub open spec fn binary_message(data: Seq<u8>) -> CapturedView {
    if service_like(data[0] as int) {
        CapturedView {
            service_id: data[0],
            message_type: data[1],
            data: binary_fields(data),
            is_recv: true,
        }
    } else {
        CapturedView { service_id: 0, message_type: 0, data, is_recv: true }
    }
}

/// What the bytes at an address that comes with these two numbers capture: the message of an
/// object, or the data of the message that the numbers name.
pub open spec fn numbered_capture(
    mem: Memory,
    addr: u64,
    data: Seq<u8>,
    service_id: u8,
    message_type: u8,
) -> Option<CapturedView> {
    if data.len() >= OBJECT_DATA && vtable_like(ptr_at_start(data)) {
        object_capture(mem, addr, true)
    } else if data.len() >= 4 {
        Some(CapturedView { service_id, message_type, data, is_recv: true })
    } else {
        None
    }
}

/// What a call of the receiving function captures. It may hand over a message in binary or a
/// message object, with its length; the numbers of the service and of the message, with a
/// pointer to the message's data or to a message object; or only the latter.
pub open spec fn rx_capture(mem: Memory, p1: u64, p2: u64, p3: u64) -> Option<CapturedView> {
    if valid_ptr(p1) && 0 < p2 < 0x1_0000 {
        let data = mem(p1, if p2 < 8192 { p2 as usize } else { 8192 });
        if data.len() < 4 {
            None
        } else if vtable_like(ptr_at_start(data)) && data.len() >= OBJECT_DATA {
            object_capture(mem, p1, true)
        } else {
            Some(binary_message(data))
        }
    } else if valid_ptr(p3) && service_like(p1 as int) && 0 < p2 < 256 {
        numbered_capture(mem, p3, mem(p3, NUMBERED_SIZE), p1 as u8, p2 as u8)
    } else if valid_ptr(p3) {
        let header = mem(p3, OBJECT_SIZE);
        if header.len() >= OBJECT_DATA && vtable_like(ptr_at_start(header)) {
            object_capture(mem, p3, true)
        } else {
            None
        }
    } else {
        None
    }
}

// ---- the capture, step by step ----

/// Why memory is being read.
pub enum Pending {
    /// For the bytes of a pointer to the message object.
    SmallBuffer,
    /// For a structure that begins with a pointer to the message object.
    Wrapper,
    /// For the message object.
    Object { is_recv: bool },
    /// For the data of the message object whose header this is.
    Buffer { header: Vec<u8>, is_recv: bool },
    /// For a message in binary or a message object.
    Binary,
    /// For what may be a message object.
    MaybeObject,
    /// For the data of the message with these numbers, or a message object.
    Numbered { service_id: u8, message_type: u8 },
}

/// What a capture needs next.
pub enum Next {
    /// Read up to `len` bytes at `addr`, and resume with them.
    Read { addr: u64, len: usize, pending: Pending },
    /// Send this message.
    Send(Captured),
    /// Nothing was captured.
    Nothing,
}

impl Next {
    /// What the capture ends with in this memory.
    pub open spec fn outcome(self, mem: Memory) -> Option<CapturedView> {
        match self {
            Next::Nothing => None,
            Next::Send(message) => Some(message@),
            Next::Read { addr, len, pending } => pending.outcome(mem, addr, mem(addr, len)),
        }
    }
}

impl Pending {
    /// What the capture ends with in this memory when the bytes at `addr` are these.
    pub open spec fn outcome(self, mem: Memory, addr: u64, data: Seq<u8>) -> Option<CapturedView> {
        match self {
            Pending::SmallBuffer => {
                let object = bytes::le64(eight_bytes(data), 0) as u64;
                if data.len() >= 6 && valid_ptr(object) {
                    object_capture(mem, object, false)
                } else {
                    None
                }
            },
            Pending::Wrapper => {
                let object = ptr_at_start(data);
                if data.len() >= 8 && valid_ptr(object) {
                    object_capture(mem, object, false)
                } else {
                    None
                }
            },
            Pending::Object { is_recv } => if data.len() < OBJECT_DATA {
                None
            } else if has_buffer(data, addr) {
                let buffer = mem(bytes::le64(data, 0x10) as u64, buffer_size(data));
                object_message(data, buffer_data(buffer), is_recv)
            } else {
                object_message(data, Seq::empty(), is_recv)
            },
            Pending::Buffer { header, is_recv } => object_message(header@, buffer_data(data), is_recv),
            Pending::Binary => if data.len() < 4 {
                None
            } else if vtable_like(ptr_at_start(data)) && data.len() >= OBJECT_DATA {
                object_capture(mem, addr, true)
            } else {
                Some(binary_message(data))
            },
            Pending::MaybeObject => if data.len() >= OBJECT_DATA && vtable_like(ptr_at_start(data)) {
                object_capture(mem, addr, true)
            } else {
                None
            },
            Pending::Numbered { service_id, message_type } => {
                numbered_capture(mem, addr, data, service_id, message_type)
            },
        }
    }

    /// How many more reads may follow.
    pub open spec fn reads_left(self) -> nat {
        match self {
            Pending::Buffer { .. } => 0,
            Pending::Object { .. } => 1,
            _ => 2,
        }
    }

    /// A header that is kept is complete.
    pub open spec fn wf(self) -> bool {
        self matches Pending::Buffer { header, .. } ==> header@.len() >= OBJECT_DATA
    }
}

/// Begins the capture of a call of the sending function.
pub fn on_txmessage(p1: u64, p2: u64) -> (next: Next)
    ensures
        forall|mem: Memory| #[trigger] next.outcome(mem) == tx_capture(mem, p1, p2),
        next matches Next::Read { pending, .. } ==> pending.wf(),
{
    if !is_valid_ptr(p1) {
        return Next::Nothing;
    }
    if p2 > 0 && p2 < 0x1_0000 {
        let len: usize = if p2 < 64 {
            p2 as usize
        } else {
            64
        };
        Next::Read { addr: p1, len, pending: Pending::SmallBuffer }
    } else if p1 == p2 {
        Next::Read { addr: p1, len: 8, pending: Pending::Wrapper }
    } else {
        Next::Nothing
    }
}

/// Begins the capture of a call of the receiving function.
pub fn on_rxmessage(p1: u64, p2: u64, p3: u64) -> (next: Next)
    ensures
        forall|mem: Memory| #[trigger] next.outcome(mem) == rx_capture(mem, p1, p2, p3),
        next matches Next::Read { pending, .. } ==> pending.wf(),
{
    if is_valid_ptr(p1) && p2 > 0 && p2 < 0x1_0000 {
        let len: usize = if p2 < 8192 {
            p2 as usize
        } else {
            8192
        };
        Next::Read { addr: p1, len, pending: Pending::Binary }
    } else if is_valid_ptr(p3) && p1 > 0 && p1 < 100 && p2 > 0 && p2 < 256 {
        Next::Read {
            addr: p3,
            len: NUMBERED_SIZE,
            pending: Pending::Numbered { service_id: p1 as u8, message_type: p2 as u8 },
        }
    } else if is_valid_ptr(p3) {
        Next::Read { addr: p3, len: OBJECT_SIZE, pending: Pending::MaybeObject }
    } else {
        Next::Nothing
    }
}

/// The message of an object whose header was read, with this data from its buffer.
fn finish_object(header: &Vec<u8>, data: Vec<u8>, is_recv: bool) -> (next: Next)
    requires
        header@.len() >= OBJECT_DATA,
    ensures
        forall|mem: Memory| #[trigger]
            next.outcome(mem) == object_message(header@, data@, is_recv),
        !(next is Read),
{
    let service_id: u8 = header[0x28];
    let message_type: u8 = header[0x29];
    if data.len() > 0 {
        return Next::Send(Captured { service_id, message_type, data, is_recv });
    }
    if header.len() > OBJECT_DATA {
        let inline: Vec<u8> = copy_range(header.as_slice(), OBJECT_DATA, header.len());
        assert(inline@ =~= header@.skip(OBJECT_DATA as int));
        return Next::Send(Captured { service_id, message_type, data: inline, is_recv });
    }
    Next::Nothing
}

/// The data in a message's buffer.
fn take_buffer_data(buffer: &[u8]) -> (data: Vec<u8>)
    ensures
        data@ == buffer_data(buffer@),
{
    let n: usize = buffer.len();
    if n < 4 {
        return Vec::new();
    }
    let first: u64 = read_ptr(buffer);
    if first > 0x7FF0_0000_0000 && first < 0x7FFF_FFFF_FFFF {
        if n > OBJECT_DATA {
            let data: Vec<u8> = copy_range(buffer, OBJECT_DATA, n);
            assert(data@ =~= buffer@.skip(OBJECT_DATA as int));
            data
        } else {
            Vec::new()
        }
    } else {
        let data: Vec<u8> = copy_range(buffer, 0, n);
        assert(data@ =~= buffer@);
        data
    }
}

/// Goes on with a message object whose header was read at `addr`.
fn read_object(addr: u64, header: &[u8], is_recv: bool) -> (next: Next)
    ensures
        forall|mem: Memory| #[trigger]
            next.outcome(mem) == (Pending::Object { is_recv }).outcome(mem, addr, header@),
        next matches Next::Read { pending, .. } ==> pending.wf() && pending.reads_left() == 0,
{
    let n: usize = header.len();
    if n < OBJECT_DATA {
        return Next::Nothing;
    }
    let kept: Vec<u8> = copy_range(header, 0, n);
    assert(kept@ =~= header@);
    let data_ptr: u64 = read_u64(header, 0x10);
    if is_valid_ptr(data_ptr) && data_ptr != addr {
        let payload_len: u32 = read_u32(header, 0x20);
        let len: usize = if payload_len > 0 && payload_len < 8192 {
            payload_len as usize
        } else {
            256
        };
        Next::Read { addr: data_ptr, len, pending: Pending::Buffer { header: kept, is_recv } }
    } else {
        let none: Vec<u8> = Vec::new();
        assert(none@ =~= Seq::<u8>::empty());
        finish_object(&kept, none, is_recv)
    }
}

/// The message in bytes that a call of the receiving function hands over.
fn take_binary_message(data: &[u8]) -> (message: Captured)
    requires
        data@.len() >= 4,
    ensures
        message@ == binary_message(data@),
{
    let n: usize = data.len();
    let service_id: u8 = data[0];
    if service_id > 0 && service_id < 100 {
        let announced: usize = read_u16(data, 2) as usize;
        let end: usize = if announced > 4 && announced <= n {
            announced
        } else if n <= 4096 {
            n
        } else {
            4096
        };
        let fields: Vec<u8> = copy_range(data, 4, end);
        assert(fields@ =~= binary_fields(data@));
        Captured { service_id, message_type: data[1], data: fields, is_recv: true }
    } else {
        let all: Vec<u8> = copy_range(data, 0, n);
        assert(all@ =~= data@);
        Captured { service_id: 0, message_type: 0, data: all, is_recv: true }
    }
}

/// Goes on with the bytes that could be read at `addr`.
pub fn resume(pending: Pending, addr: u64, data: &[u8]) -> (next: Next)
    requires
        pending.wf(),
    ensures
        forall|mem: Memory| #[trigger] next.outcome(mem) == pending.outcome(mem, addr, data@),
        next matches Next::Read { pending: p, .. } ==> p.wf() && p.reads_left() < pending.reads_left(),
{
    let n: usize = data.len();
    match pending {
        Pending::SmallBuffer => {
            let object: u64 = read_ptr_padded(data);
            if n >= 6 && is_valid_ptr(object) {
                Next::Read { addr: object, len: OBJECT_SIZE, pending: Pending::Object { is_recv: false } }
            } else {
                Next::Nothing
            }
        },
        Pending::Wrapper => {
            let object: u64 = read_ptr(data);
            if n >= 8 && is_valid_ptr(object) {
                Next::Read { addr: object, len: OBJECT_SIZE, pending: Pending::Object { is_recv: false } }
            } else {
                Next::Nothing
            }
        },
        Pending::Object { is_recv } => read_object(addr, data, is_recv),
        Pending::Buffer { header, is_recv } => {
            let taken: Vec<u8> = take_buffer_data(data);
            finish_object(&header, taken, is_recv)
        },
        Pending::Binary => {
            if n < 4 {
                return Next::Nothing;
            }
            let first: u64 = read_ptr(data);
            if first > 0x7FF0_0000_0000 && first < 0x7FFF_FFFF_FFFF && n >= OBJECT_DATA {
                Next::Read { addr, len: OBJECT_SIZE, pending: Pending::Object { is_recv: true } }
            } else {
                Next::Send(take_binary_message(data))
            }
        },
        Pending::MaybeObject => {
            let first: u64 = read_ptr(data);
            if n >= OBJECT_DATA && first > 0x7FF0_0000_0000 && first < 0x7FFF_FFFF_FFFF {
                Next::Read { addr, len: OBJECT_SIZE, pending: Pending::Object { is_recv: true } }
            } else {
                Next::Nothing
            }
        },
        Pending::Numbered { service_id, message_type } => {
            let first: u64 = read_ptr(data);
            if n >= OBJECT_DATA && first > 0x7FF0_0000_0000 && first < 0x7FFF_FFFF_FFFF {
                Next::Read { addr, len: OBJECT_SIZE, pending: Pending::Object { is_recv: true } }
            } else if n >= 4 {
                let all: Vec<u8> = copy_range(data, 0, n);
                assert(all@ =~= data@);
                Next::Send(Captured { service_id, message_type, data: all, is_recv: true })
            } else {
                Next::Nothing
            }
        },
    }
}

// ---- sending ----

/// The payload of the frame that carries a captured message: its DML header and its data. The
/// length in the header counts its own four bytes, modulo 2^16.
pub open spec fn kinp_payload(service_id: u8, message_type: u8, data: Seq<u8>) -> Seq<u8> {
    seq![0u8, 0, 0, 0, service_id, message_type] + bytes::le16_bytes(
        ((data.len() as int % 0x1_0000 + 4) % 0x1_0000) as u16,
    ) + data
}

/// The frame that carries a captured message. Its length is written modulo 2^16.
pub open spec fn kinp_frame_bytes(service_id: u8, message_type: u8, data: Seq<u8>) -> Seq<u8> {
    seq![0x0Du8, 0xF0u8] + bytes::le16_bytes(
        ((data.len() as int % 0x1_0000 + 8) % 0x1_0000) as u16,
    ) + kinp_payload(service_id, message_type, data)
}

/// Constructs a synthetic KINP frame, as the viewer's decoder expects it:
///   [F00D LE] [content_len LE] [isControl=0] [opCode=0] [00 00]
///   [serviceId] [messageType] [dml_length LE] [field_data...]
pub fn kinp_frame(service_id: u8, message_type: u8, field_data: &[u8]) -> (frame: Vec<u8>)
    ensures
        frame@ == kinp_frame_bytes(service_id, message_type, field_data@),
{
    let field_data_len: u16 = low_u16(field_data.len());
    let dml_len: u16 = field_data_len.wrapping_add(4);
    let content_len: u16 = field_data_len.wrapping_add(8);
    let mut frame: Vec<u8> = Vec::new();
    frame.push(0x0D);
    frame.push(0xF0);
    push_u16(&mut frame, content_len);
    frame.push(0x00);
    frame.push(0x00);
    frame.push(0x00);
    frame.push(0x00);
    frame.push(service_id);
    frame.push(message_type);
    push_u16(&mut frame, dml_len);
    push_bytes(&mut frame, field_data);
    assert(frame@ =~= kinp_frame_bytes(service_id, message_type, field_data@));
    frame
}

/// The direction byte of a captured message.
pub open spec fn plaintext_direction(is_recv: bool) -> u8 {
    if is_recv {
        DIR_PLAINTEXT_RECV
    } else {
        DIR_PLAINTEXT_SEND
    }
}

/// What goes to the pipe for a captured message: nothing while the pipe is not connected.
pub fn send_kinp_frame(
    connected: bool,
    service_id: u8,
    message_type: u8,
    field_data: &[u8],
    is_recv: bool,
) -> (out: Option<Vec<u8>>)
    ensures
        out is Some <==> connected,
        out matches Some(written) ==> written@ == pipe::capture(
            plaintext_direction(is_recv),
            0,
            0,
            kinp_frame_bytes(service_id, message_type, field_data@),
        ),
{
    let frame: Vec<u8> = kinp_frame(service_id, message_type, field_data);
    let direction: u8 = if is_recv {
        DIR_PLAINTEXT_RECV
    } else {
        DIR_PLAINTEXT_SEND
    };
    write_capture(connected, direction, 0, 0, frame.as_slice())
}

// ---- installing ----

/// The offset of TcpSession::TxMessage in the game's image.
pub const TXMESSAGE_RVA: u64 = 0x0133_7CC0;

/// The bytes at the start of TxMessage that a detour replaces:
/// `mov rax, rsp` (3), `push rdi` (1), `sub rsp, 0x130` (7), `mov [rsp+0x68], -2` (9).
pub const TXMESSAGE_STOLEN_BYTES: usize = 20;

/// The offset of GameClient::AppProcessMessage in the game's image.
pub const RXMESSAGE_RVA: u64 = 0x0160_61D0;

/// The bytes at the start of AppProcessMessage that a detour replaces: `mov rax, rsp` (3),
/// `push rbp` (1), `push rdi` (1), `push r14` (2), `lea rbp, [rax-0x5F]` (4),
/// `sub rsp, 0xC0` (7).
pub const RXMESSAGE_STOLEN_BYTES: usize = 18;

/// Whether a function starts with `mov rax, rsp`, as both hooked functions do.
pub open spec fn prologue_fits(first_bytes: Seq<u8>) -> bool {
    first_bytes.len() >= 3 && first_bytes[0] == 0x48 && first_bytes[1] == 0x8B && first_bytes[2] == 0xC4
}

/// Whether a function starts with `mov rax, rsp`, as both hooked functions do.
pub fn prologue_matches(first_bytes: &[u8]) -> (r: bool)
    ensures
        r == prologue_fits(first_bytes@),
{
    first_bytes.len() >= 3 && first_bytes[0] == 0x48 && first_bytes[1] == 0x8B && first_bytes[2] == 0xC4
}

/// How far the installation of the game hooks is.
#[derive(Debug, Clone, Copy, PartialEq, Eq, Structural)]
pub enum HookStage {
    /// The start of TxMessage is looked at.
    TxPrologue,
    /// TxMessage is detoured.
    TxInstall,
    /// The start of AppProcessMessage is looked at.
    RxPrologue { hooked: u32 },
    /// AppProcessMessage is detoured.
    RxInstall { hooked: u32 },
    /// All is done.
    Done { hooked: u32 },
}

impl HookStage {
    /// What comes next. `succeeded` is how the stage went.
    pub open spec fn next(self, succeeded: bool) -> HookStage {
        match self {
            HookStage::TxPrologue => if succeeded {
                HookStage::TxInstall
            } else {
                HookStage::Done { hooked: 0 }
            },
            HookStage::TxInstall => HookStage::RxPrologue { hooked: if succeeded { 1 } else { 0 } },
            HookStage::RxPrologue { hooked } => if succeeded {
                HookStage::RxInstall { hooked }
            } else {
                HookStage::Done { hooked }
            },
            HookStage::RxInstall { hooked } => HookStage::Done {
                hooked: if succeeded { (hooked + 1) as u32 } else { hooked },
            },
            HookStage::Done { hooked } => self,
        }
    }

    /// The function that the stage is about.
    pub open spec fn function(self, module_base: u64) -> Option<(u64, usize)> {
        match self {
            HookStage::TxPrologue | HookStage::TxInstall => Some(
                (
                    ((module_base + TXMESSAGE_RVA) % 0x1_0000_0000_0000_0000) as u64,
                    TXMESSAGE_STOLEN_BYTES,
                ),
            ),
            HookStage::RxPrologue { .. } | HookStage::RxInstall { .. } => Some(
                (
                    ((module_base + RXMESSAGE_RVA) % 0x1_0000_0000_0000_0000) as u64,
                    RXMESSAGE_STOLEN_BYTES,
                ),
            ),
            HookStage::Done { .. } => None,
        }
    }

    /// What comes next. `succeeded` is how the stage went: whether the start of the function is
    /// the expected one, or whether the detour was installed. Where the start of TxMessage is
    /// another, the build is not the known one, and nothing is hooked.
    pub fn step(self, succeeded: bool) -> (next: HookStage)
        requires
            self matches HookStage::RxInstall { hooked } ==> hooked < u32::MAX,
        ensures
            next == self.next(succeeded),
    {
        match self {
            HookStage::TxPrologue => if succeeded {
                HookStage::TxInstall
            } else {
                HookStage::Done { hooked: 0 }
            },
            HookStage::TxInstall => HookStage::RxPrologue { hooked: if succeeded { 1 } else { 0 } },
            HookStage::RxPrologue { hooked } => if succeeded {
                HookStage::RxInstall { hooked }
            } else {
                HookStage::Done { hooked }
            },
            HookStage::RxInstall { hooked } => HookStage::Done {
                hooked: if succeeded { hooked + 1 } else { hooked },
            },
            HookStage::Done { hooked } => HookStage::Done { hooked },
        }
    }

    /// The function that the stage is about: its address in an image at `module_base`, and how
    /// many of its bytes a detour replaces.
    pub fn target(self, module_base: u64) -> (r: Option<(u64, usize)>)
        ensures
            r == self.function(module_base),
    {
        match self {
            HookStage::TxPrologue | HookStage::TxInstall => Some(
                (module_base.wrapping_add(TXMESSAGE_RVA), TXMESSAGE_STOLEN_BYTES),
            ),
            HookStage::RxPrologue { .. } | HookStage::RxInstall { .. } => Some(
                (module_base.wrapping_add(RXMESSAGE_RVA), RXMESSAGE_STOLEN_BYTES),
            ),
            HookStage::Done { .. } => None,
        }
    }
}

// ---- laws ----

/// A captured message that fits a frame is decoded by the viewer to the same message: one
/// frame and nothing left over, with the service, the message and the data that were captured.
pub proof fn law_captured_message_is_decoded(service_id: u8, message_type: u8, data: Seq<u8>)
    requires
        data.len() + 8 <= 0xFFFF,
    ensures
        ({
            let payload = kinp_payload(service_id, message_type, data);
            &&& kinp::drain(kinp_frame_bytes(service_id, message_type, data)) == (
                seq![payload],
                Seq::<u8>::empty(),
            )
            &&& payload.skip(8) == data
            &&& kinp::message_type(payload) == (kinp::MessageType::Dml {
                service_id,
                message_id: message_type,
            })
            &&& bytes::le16(payload, 6) == data.len() + 4
        }),
{
    let payload = kinp_payload(service_id, message_type, data);
    let one = seq![payload];
    assert(payload.len() == data.len() + 8);
    assert(kinp::payloads_fit(one));
    assert(kinp::frames(one) =~= kinp::frame(payload)) by {
        assert(kinp::frames(one.skip(1)) =~= Seq::<u8>::empty());
    }
    assert(kinp::frame(payload) =~= kinp_frame_bytes(service_id, message_type, data));
    kinp::law_frames_are_taken_apart(one);
    assert(payload.skip(8) =~= data);
    let front = seq![0u8, 0, 0, 0, service_id, message_type];
    bytes::law_le16_round_trip(front, (data.len() + 4) as u16, data);
}

/// What a call captures is never too long for a frame.
pub proof fn law_captures_fit_a_frame(mem: Memory, p1: u64, p2: u64, p3: u64)
    requires
        forall|addr: u64, len: usize| (#[trigger] mem(addr, len)).len() <= len,
    ensures
        tx_capture(mem, p1, p2) matches Some(m) ==> 0 < m.data.len() <= 8192 && !m.is_recv,
        rx_capture(mem, p1, p2, p3) matches Some(m) ==> m.data.len() <= 8192 && m.is_recv,
{
}

/// From the hook to the screen: what a captured message puts on the pipe is read as one
/// capture, whose payload the decoder of a fresh stream turns into one plaintext message with
/// the captured service, message and direction, and the captured data behind its header.
pub proof fn law_hook_to_viewer(captured: CapturedView, timestamp: CaptureTime)
    requires
        captured.data.len() + 8 <= 0xFFFF,
    ensures
        ({
            let frame = kinp_frame_bytes(captured.service_id, captured.message_type, captured.data);
            let direction = plaintext_direction(captured.is_recv);
            let body = pipe::capture_body(direction, 0, 0, frame);
            let envelope = pipe::body_envelope(body, timestamp);
            let payload = kinp_payload(captured.service_id, captured.message_type, captured.data);
            let message = kinp::message_of(payload, envelope);
            &&& pipe::pipe_contents(pipe::capture(direction, 0, 0, frame)).bodies == seq![body]
            &&& pipe::body_is_whole(body)
            &&& kinp::drain(pipe::body_payload(body)).0 == seq![payload]
            &&& kinp::drain(pipe::body_payload(body)).1.len() == 0
            &&& message.msg_type == (kinp::MessageType::Dml {
                service_id: captured.service_id,
                message_id: captured.message_type,
            })
            &&& message.direction == kinp::direction_of(captured.is_recv)
            &&& message.raw_payload.skip(8) == captured.data
            &&& envelope.src_ip == "plaintext"@
        }),
{
    let frame = kinp_frame_bytes(captured.service_id, captured.message_type, captured.data);
    let direction = plaintext_direction(captured.is_recv);
    law_captured_message_is_decoded(captured.service_id, captured.message_type, captured.data);
    pipe::law_capture_is_read(direction, 0, 0, frame);
    pipe::law_capture_round_trip(direction, 0, 0, frame, timestamp);
}

/// Both detours replace enough bytes for an absolute jump.
pub proof fn law_stolen_bytes_hold_a_jump()
    ensures
        TXMESSAGE_STOLEN_BYTES >= crate::detour::JMP_ABS_SIZE,
        RXMESSAGE_STOLEN_BYTES >= crate::detour::JMP_ABS_SIZE,
{
}

// ---- laws on captures, over memory ----

/// How many bytes of the message object's data are read: as many as its length at 0x20 says, if
/// that lies between 1 and 8191, and 256 otherwise.
pub open spec fn data_len_at(header: Seq<u8>) -> usize {
    let n = header[0x20] + 0x100 * header[0x21] + 0x1_0000 * header[0x22] + 0x100_0000 * header[0x23];
    if 1 <= n <= 8191 {
        n as usize
    } else {
        256
    }
}

/// Whether the first eight bytes, low byte first, lie strictly between these two numbers.
pub open spec fn starts_between(data: Seq<u8>, low: int, high: int) -> bool {
    data.len() >= 8 && low < data[0] + 0x100 * data[1] + 0x1_0000 * data[2] + 0x100_0000 * data[3]
        + 0x1_0000_0000 * data[4] + 0x100_0000_0000 * data[5] + 0x1_0000_0000_0000 * data[6]
        + 0x100_0000_0000_0000 * data[7] < high
}

/// A message object's data is all of what its pointer at 0x10 leads to, from the first byte on,
/// unless that begins with an address between 0x7FF0_0000_0000 and 0x7FFF_FFFF_FFFF. Then it is
/// an object itself, whose data begins at 0x30. Service and message are the bytes at 0x28 and
/// 0x29 of the message object.
pub proof fn law_object_data_is_all_of_its_buffer(mem: Memory, object: u64, is_recv: bool, data_ptr: u64)
    requires
        mem(object, 0x50).len() >= 0x30,
        data_ptr == bytes::le64(mem(object, 0x50), 0x10),
        0x1_0000 < data_ptr < 0x7FFF_FFFF_FFFF,
        data_ptr != object,
        mem(data_ptr, data_len_at(mem(object, 0x50))).len() >= 4,
    ensures
        ({
            let header = mem(object, 0x50);
            let buffer = mem(data_ptr, data_len_at(header));
            let first = buffer[0] + 0x100 * buffer[1] + 0x1_0000 * buffer[2] + 0x100_0000 * buffer[3]
                + 0x1_0000_0000 * buffer[4] + 0x100_0000_0000 * buffer[5] + 0x1_0000_0000_0000
                * buffer[6] + 0x100_0000_0000_0000 * buffer[7];
            let is_object = buffer.len() >= 8 && 0x7FF0_0000_0000 < first < 0x7FFF_FFFF_FFFF;
            let captured = object_capture(mem, object, is_recv);
            &&& !is_object ==> captured == Some(
                CapturedView {
                    service_id: header[0x28],
                    message_type: header[0x29],
                    data: buffer,
                    is_recv,
                },
            )
            &&& is_object && buffer.len() > 0x30 ==> captured == Some(
                CapturedView {
                    service_id: header[0x28],
                    message_type: header[0x29],
                    data: buffer.subrange(0x30, buffer.len() as int),
                    is_recv,
                },
            )
        }),
{
    let header = mem(object, 0x50);
    let buffer = mem(data_ptr, data_len_at(header));
    if buffer.len() > 0x30 {
        assert(buffer.skip(0x30) =~= buffer.subrange(0x30, buffer.len() as int));
    }
}

/// A message object that leads to no data has it behind its header, from 0x30 on; one that has
/// none there either, or whose header is not all there, is not captured. It leads to no data
/// where its pointer at 0x10 is none or its own address, where fewer than four bytes can be read
/// there, or where an object stands there that has no data.
pub proof fn law_object_data_behind_the_header(mem: Memory, object: u64, is_recv: bool)
    ensures
        ({
            let header = mem(object, 0x50);
            let data_ptr = bytes::le64(header, 0x10);
            let buffer = mem(data_ptr as u64, data_len_at(header));
            let captured = object_capture(mem, object, is_recv);
            &&& header.len() < 0x30 ==> captured is None
            &&& header.len() >= 0x30 && (data_ptr <= 0x1_0000 || data_ptr >= 0x7FFF_FFFF_FFFF || data_ptr
                == object || buffer.len() < 4 || (starts_between(
                buffer,
                0x7FF0_0000_0000,
                0x7FFF_FFFF_FFFF,
            ) && buffer.len() <= 0x30)) ==> if header.len() == 0x30 {
                captured is None
            } else {
                captured == Some(
                    CapturedView {
                        service_id: header[0x28],
                        message_type: header[0x29],
                        data: header.subrange(0x30, header.len() as int),
                        is_recv,
                    },
                )
            }
        }),
{
    let header = mem(object, 0x50);
    let data_ptr = bytes::le64(header, 0x10);
    if header.len() >= 0x30 {
        assert(header.skip(0x30) =~= header.subrange(0x30, header.len() as int));
        assert(0 <= data_ptr < 0x1_0000_0000_0000_0000);
    }
}

/// A call of the sending function with a small second argument, between 1 and 0xFFFF, hands over
/// the bytes of a pointer to the message object, of which six are enough: what is captured is
/// that object.
pub proof fn law_sent_small_buffer_leads_to_its_object(mem: Memory, p1: u64, p2: u64, object: u64)
    requires
        0x1_0000 < p1 < 0x7FFF_FFFF_FFFF,
        1 <= p2 <= 0xFFFF,
        ({
            let raw = mem(p1, if p2 <= 64 { p2 as usize } else { 64 });
            let byte = |i: int| if i < raw.len() { raw[i] as int } else { 0 };
            &&& raw.len() >= 6
            &&& object == byte(0) + 0x100 * byte(1) + 0x1_0000 * byte(2) + 0x100_0000 * byte(3)
                + 0x1_0000_0000 * byte(4) + 0x100_0000_0000 * byte(5) + 0x1_0000_0000_0000 * byte(6)
                + 0x100_0000_0000_0000 * byte(7)
        }),
    ensures
        0x1_0000 < object < 0x7FFF_FFFF_FFFF ==> tx_capture(mem, p1, p2) == object_capture(
            mem,
            object,
            false,
        ),
        !(0x1_0000 < object < 0x7FFF_FFFF_FFFF) ==> tx_capture(mem, p1, p2) is None,
{
    let raw = mem(p1, if p2 <= 64 { p2 as usize } else { 64 });
    let padded = eight_bytes(raw);
    assert(bytes::le64(padded, 0) == object);
}

/// A call of the sending function with the same argument twice hands over a structure that begins
/// with the pointer to the message object: what is captured is that object.
pub proof fn law_sent_wrapper_leads_to_its_object(mem: Memory, p: u64, object: u64)
    requires
        0x1_0000 < p < 0x7FFF_FFFF_FFFF,
        mem(p, 8).len() == 8,
        object == bytes::le64(mem(p, 8), 0),
    ensures
        0x1_0000 < object < 0x7FFF_FFFF_FFFF ==> tx_capture(mem, p, p) == object_capture(
            mem,
            object,
            false,
        ),
        !(0x1_0000 < object < 0x7FFF_FFFF_FFFF) ==> tx_capture(mem, p, p) is None,
{
}

/// Other calls of the sending function capture nothing: with a first argument that is no pointer,
/// with a second that is neither small nor the same, or where too little can be read.
pub proof fn law_other_sends_are_ignored(mem: Memory, p1: u64, p2: u64)
    ensures
        p1 <= 0x1_0000 || p1 >= 0x7FFF_FFFF_FFFF ==> tx_capture(mem, p1, p2) is None,
        (p2 == 0 || p2 > 0xFFFF) && p1 != p2 ==> tx_capture(mem, p1, p2) is None,
        1 <= p2 <= 0xFFFF && mem(p1, if p2 <= 64 { p2 as usize } else { 64 }).len() < 6 ==> tx_capture(
            mem,
            p1,
            p2,
        ) is None,
        p1 == p2 && p2 > 0xFFFF && mem(p1, 8).len() < 8 ==> tx_capture(mem, p1, p2) is None,
{
}

/// A call of the receiving function that hands over bytes and their number, between 1 and 0xFFFF,
/// of which at most 8192 are read. An object, which begins with an address between
/// 0x7FF0_0000_0000 and 0x7FFF_FFFF_FFFF and has at least 0x30 bytes, is captured as one. Bytes
/// that begin with a service from 1 to 99 are a message: its number is the second byte, and its
/// fields end where the length in the third and fourth says, or with the bytes, or after 4096 of
/// them. Of other bytes all are captured, without service and message.
pub proof fn law_received_bytes_are_captured(mem: Memory, p1: u64, p2: u64, p3: u64)
    requires
        0x1_0000 < p1 < 0x7FFF_FFFF_FFFF,
        1 <= p2 <= 0xFFFF,
    ensures
        ({
            let data = mem(p1, if p2 <= 8192 { p2 as usize } else { 8192 });
            let captured = rx_capture(mem, p1, p2, p3);
            let is_object = data.len() >= 0x30 && starts_between(
                data,
                0x7FF0_0000_0000,
                0x7FFF_FFFF_FFFF,
            );
            let announced = data[2] + 0x100 * data[3];
            let end = if 5 <= announced <= data.len() {
                announced
            } else if data.len() <= 4096 {
                data.len() as int
            } else {
                4096
            };
            &&& data.len() < 4 ==> captured is None
            &&& is_object ==> captured == object_capture(mem, p1, true)
            &&& data.len() >= 4 && !is_object && 1 <= data[0] <= 99 ==> captured == Some(
                CapturedView {
                    service_id: data[0],
                    message_type: data[1],
                    data: data.subrange(4, end),
                    is_recv: true,
                },
            )
            &&& data.len() >= 4 && !is_object && !(1 <= data[0] <= 99) ==> captured == Some(
                CapturedView { service_id: 0, message_type: 0, data, is_recv: true },
            )
        }),
{
    let data = mem(p1, if p2 <= 8192 { p2 as usize } else { 8192 });
    if data.len() >= 4 {
        assert(data.skip(4) =~= data.subrange(4, data.len() as int));
    }
}

/// A call of the receiving function that hands over a service from 1 to 99, a message from 1 to
/// 255 and a pointer: an object there is captured as one, and otherwise up to 4096 bytes there,
/// of which there have to be four, are the data of that message.
pub proof fn law_received_numbers_are_captured(mem: Memory, p1: u64, p2: u64, p3: u64)
    requires
        1 <= p1 <= 99,
        1 <= p2 <= 255,
        0x1_0000 < p3 < 0x7FFF_FFFF_FFFF,
    ensures
        ({
            let data = mem(p3, 4096);
            let captured = rx_capture(mem, p1, p2, p3);
            let is_object = data.len() >= 0x30 && starts_between(
                data,
                0x7FF0_0000_0000,
                0x7FFF_FFFF_FFFF,
            );
            &&& is_object ==> captured == object_capture(mem, p3, true)
            &&& !is_object && data.len() >= 4 ==> captured == Some(
                CapturedView { service_id: p1 as u8, message_type: p2 as u8, data, is_recv: true },
            )
            &&& data.len() < 4 ==> captured is None
        }),
{
}

/// Other calls of the receiving function capture an object that their last argument points to, and
/// nothing where it points to none.
pub proof fn law_other_receives_capture_objects(mem: Memory, p1: u64, p2: u64, p3: u64)
    requires
        !(0x1_0000 < p1 < 0x7FFF_FFFF_FFFF && 1 <= p2 <= 0xFFFF),
        !(1 <= p1 <= 99 && 1 <= p2 <= 255),
    ensures
        ({
            let header = mem(p3, 0x50);
            let is_object = 0x1_0000 < p3 < 0x7FFF_FFFF_FFFF && header.len() >= 0x30 && starts_between(
                header,
                0x7FF0_0000_0000,
                0x7FFF_FFFF_FFFF,
            );
            &&& is_object ==> rx_capture(mem, p1, p2, p3) == object_capture(mem, p3, true)
            &&& !is_object ==> rx_capture(mem, p1, p2, p3) is None
        }),
{
}

/// The frame of a captured message, byte by byte: the start signal, the length of what follows,
/// four zeros, service and message, the length of the fields with their four-byte header, and the
/// fields.
pub proof fn law_frame_layout(service_id: u8, message_type: u8, data: Seq<u8>)
    requires
        data.len() <= 0xFFF7,
    ensures
        ({
            let frame = kinp_frame_bytes(service_id, message_type, data);
            &&& frame.len() == 12 + data.len()
            &&& frame[0] == 0x0D
            &&& frame[1] == 0xF0
            &&& frame[2] + 0x100 * frame[3] == 8 + data.len()
            &&& frame[4] == 0 && frame[5] == 0 && frame[6] == 0 && frame[7] == 0
            &&& frame[8] == service_id
            &&& frame[9] == message_type
            &&& frame[10] + 0x100 * frame[11] == 4 + data.len()
            &&& frame.subrange(12, frame.len() as int) == data
        }),
{
    let frame = kinp_frame_bytes(service_id, message_type, data);
    let content = (data.len() + 8) as u16;
    let dml = (data.len() + 4) as u16;
    let payload = kinp_payload(service_id, message_type, data);
    let front = seq![0x0Du8, 0xF0u8];
    bytes::law_le16_round_trip(front, content, payload);
    let middle = front + bytes::le16_bytes(content) + seq![0u8, 0, 0, 0, service_id, message_type];
    bytes::law_le16_round_trip(middle, dml, data);
    assert(frame =~= middle + bytes::le16_bytes(dml) + data);
    assert(frame.subrange(12, frame.len() as int) =~= data);
}

/// A pointer may be one of a user-mode object exactly if it lies strictly between 0x1_0000 and
/// 0x7FFF_FFFF_FFFF. One at the start of fewer than eight bytes is zero, unless it is filled up.
pub proof fn law_pointers(data: Seq<u8>, addr: u64)
    ensures
        valid_ptr(addr) <==> 0x1_0001 <= addr <= 0x7FFF_FFFF_FFFE,
        data.len() < 8 ==> ptr_at_start(data) == 0,
        data.len() >= 8 ==> ptr_at_start(data) == data[0] + 0x100 * data[1] + 0x1_0000 * data[2]
            + 0x100_0000 * data[3] + 0x1_0000_0000 * data[4] + 0x100_0000_0000 * data[5]
            + 0x1_0000_0000_0000 * data[6] + 0x100_0000_0000_0000 * data[7],
        data.len() >= 8 ==> eight_bytes(data) == data.subrange(0, 8),
        data.len() < 8 ==> eight_bytes(data).subrange(0, data.len() as int) == data && forall|i: int|
            data.len() <= i < 8 ==> #[trigger] eight_bytes(data)[i] == 0,
{
    if data.len() >= 8 {
        assert(eight_bytes(data) =~= data.subrange(0, 8));
    } else {
        assert(eight_bytes(data).subrange(0, data.len() as int) =~= data);
    }
}

/// Plaintext that was received goes to the pipe as 0x11, plaintext that was sent as 0x10.
pub proof fn law_plaintext_directions()
    ensures
        plaintext_direction(true) == 0x11,
        plaintext_direction(false) == 0x10,
{
}

// ---- laws on reading memory and installing ----

/// Reading never goes past the region, nor past what is asked for, and nothing is left out that can
/// be read: what is asked for if the region holds it, and otherwise all of the region that is left.
pub proof fn law_reads_stay_in_the_region(region: MemoryRegion, addr: u64, desired: u64)
    requires
        region.size > 0,
        region.state == 0x1000,
        region.protect == 0x02 || region.protect == 0x04 || region.protect == 0x08 || region.protect
            == 0x20 || region.protect == 0x40 || region.protect == 0x80,
        region.base + region.size < 0x1_0000_0000_0000_0000,
    ensures
        ({
            let n = readable_len(Some(region), addr, desired);
            &&& 0 <= n <= desired
            &&& n > 0 ==> addr + n <= region.base + region.size
            &&& addr + desired <= region.base + region.size ==> n == desired
            &&& addr <= region.base + region.size < addr + desired ==> n == region.base + region.size - addr
        }),
{
}

/// Memory that is not committed, that may not be read, or of which the system says nothing is not
/// read.
pub proof fn law_unreadable_memory_is_not_read(region: MemoryRegion, addr: u64, desired: u64)
    ensures
        readable_len(None, addr, desired) == 0,
        region.size == 0 ==> readable_len(Some(region), addr, desired) == 0,
        region.state != 0x1000 ==> readable_len(Some(region), addr, desired) == 0,
        region.protect != 0x02 && region.protect != 0x04 && region.protect != 0x08 && region.protect
            != 0x20 && region.protect != 0x40 && region.protect != 0x80 ==> readable_len(
            Some(region),
            addr,
            desired,
        ) == 0,
{
}

/// The number of hooks that are in place at the end is the number of detours that were installed. The
/// second function is hooked whether or not the first was; but where the first does not begin as
/// expected, neither is.
pub proof fn law_installed_hooks_are_counted(
    tx_fits: bool,
    tx_installed: bool,
    rx_fits: bool,
    rx_installed: bool,
)
    ensures
        ({
            let tx = HookStage::TxPrologue.next(tx_fits);
            let rx = tx.next(tx_installed);
            let count = (if tx_installed { 1int } else { 0 }) + (if rx_fits && rx_installed { 1int } else { 0 });
            let done = rx.next(rx_fits).next(rx_installed);
            &&& !tx_fits ==> tx == (HookStage::Done { hooked: 0 })
            &&& tx_fits ==> tx == HookStage::TxInstall && rx is RxPrologue && (rx.next(rx_fits) is RxInstall
                <==> rx_fits)
            &&& tx_fits ==> done == (HookStage::Done { hooked: count as u32 })
        }),
{
}

/// Which functions are hooked, by their place in the game's image, and how many bytes of each are
/// replaced.
pub proof fn law_hooked_functions(module_base: u64, hooked: u32)
    requires
        module_base < 0x7FFF_FFFF_FFFF,
    ensures
        HookStage::TxPrologue.function(module_base) == Some(((module_base + 0x133_7CC0) as u64, 20usize)),
        HookStage::TxInstall.function(module_base) == HookStage::TxPrologue.function(module_base),
        (HookStage::RxPrologue { hooked }).function(module_base) == Some(
            ((module_base + 0x160_61D0) as u64, 18usize),
        ),
        (HookStage::RxInstall { hooked }).function(module_base) == (HookStage::RxPrologue {
            hooked,
        }).function(module_base),
        (HookStage::Done { hooked }).function(module_base) is None,
{
}

/// The functions to hook begin with the bytes 48 8B C4.
pub proof fn law_prologues(first_bytes: Seq<u8>)
    ensures
        prologue_fits(first_bytes) <==> first_bytes.len() >= 3 && first_bytes.subrange(0, 3) == seq![
            0x48u8,
            0x8Bu8,
            0xC4u8,
        ],
{
    if first_bytes.len() >= 3 {
        let start = first_bytes.subrange(0, 3);
        assert(start[0] == first_bytes[0] && start[1] == first_bytes[1] && start[2] == first_bytes[2]);
        if prologue_fits(first_bytes) {
            assert(start =~= seq![0x48u8, 0x8Bu8, 0xC4u8]);
        }
    }
}

/// Sending or receiving the same message object captures the same message, but for the direction.
pub proof fn law_direction_is_the_calls(mem: Memory, object: u64)
    ensures
        ({
            let sent = object_capture(mem, object, false);
            let received = object_capture(mem, object, true);
            &&& (sent is Some <==> received is Some)
            &&& sent is Some ==> {
                &&& sent->0.service_id == received->0.service_id
                &&& sent->0.message_type == received->0.message_type
                &&& sent->0.data == received->0.data
                &&& !sent->0.is_recv
                &&& received->0.is_recv
            }
        }),
{
}

/// The values of a captured message are those of its fields.
pub proof fn law_captured_values(captured: Captured)
    ensures
        captured@.service_id == captured.service_id,
        captured@.message_type == captured.message_type,
        captured@.data == captured.data@,
        captured@.is_recv == captured.is_recv,
{
}

/// Whichever way a call leads to a message object, sending or receiving, what it captures is all of
/// the bytes that the object's pointer leads to, from the first on, if there are four of them and
/// they do not begin with an address between 0x7FF0_0000_0000 and 0x7FFF_FFFF_FFFF.
pub proof fn law_calls_capture_the_whole_buffer(mem: Memory, call: u64, object: u64, data_ptr: u64)
    requires
        0x1_0000 < call < 0x7FFF_FFFF_FFFF,
        mem(call, 8).len() == 8,
        object == bytes::le64(mem(call, 8), 0),
        0x1_0000 < object < 0x7FFF_FFFF_FFFF,
        mem(object, 0x50).len() >= 0x30,
        data_ptr == bytes::le64(mem(object, 0x50), 0x10),
        0x1_0000 < data_ptr < 0x7FFF_FFFF_FFFF,
        data_ptr != object,
        mem(data_ptr, data_len_at(mem(object, 0x50))).len() >= 4,
        !starts_between(
            mem(data_ptr, data_len_at(mem(object, 0x50))),
            0x7FF0_0000_0000,
            0x7FFF_FFFF_FFFF,
        ),
    ensures
        ({
            let buffer = mem(data_ptr, data_len_at(mem(object, 0x50)));
            let sent = tx_capture(mem, call, 8);
            let sent_twice = tx_capture(mem, call, call);
            let received = rx_capture(mem, 0, 0, object);
            &&& sent is Some && sent->0.data == buffer && !sent->0.is_recv
            &&& sent_twice == sent
            &&& starts_between(mem(object, 0x50), 0x7FF0_0000_0000, 0x7FFF_FFFF_FFFF) ==> received is Some
                && received->0.data == buffer && received->0.is_recv
        }),
{
    let raw = mem(call, 8);
    assert(eight_bytes(raw) =~= raw);
    law_object_data_is_all_of_its_buffer(mem, object, false, data_ptr);
    law_object_data_is_all_of_its_buffer(mem, object, true, data_ptr);
    law_sent_wrapper_leads_to_its_object(mem, call, object);
    law_sent_small_buffer_leads_to_its_object(mem, call, 8, object);
    law_other_receives_capture_objects(mem, 0, 0, object);
}

} // verus!
