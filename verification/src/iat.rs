//! Walking the import directory of a loaded module, to put hooks in place of imported socket
//! functions and to take them out again.
//!
//! Imports are matched by the name of their library and by ordinal or function name, not by
//! the address they resolved to. The walk decides; the caller probes, reads and patches
//! memory as it asks, and hands back what came of it.

use vstd::prelude::*;
use crate::bytes;
use crate::bytes::{read_u16, read_u32, read_u64, same_bytes};
use crate::text;
use crate::text::{field_text, lower_text, same_text, starts_with_text, utf8_text};

verus! {

/// The imported functions that are hooked.
#[derive(Debug, Clone, Copy, PartialEq, Eq, Structural)]
pub enum HookedFunction {
    Send,
    Recv,
    WsaSend,
    WsaRecvEx,
}

/// An address for each hooked function.
#[derive(Debug, Clone, Copy, PartialEq, Eq, Structural)]
pub struct FunctionAddresses {
    pub send: u64,
    pub recv: u64,
    pub wsasend: u64,
    pub wsarecvex: u64,
}

impl FunctionAddresses {
    /// The address for one function.
    pub open spec fn address(self, function: HookedFunction) -> u64 {
        match function {
            HookedFunction::Send => self.send,
            HookedFunction::Recv => self.recv,
            HookedFunction::WsaSend => self.wsasend,
            HookedFunction::WsaRecvEx => self.wsarecvex,
        }
    }

    /// Whether there is an address for none of the functions.
    pub open spec fn are_none(self) -> bool {
        self.send == 0 && self.recv == 0 && self.wsasend == 0 && self.wsarecvex == 0
    }

    /// The address for one function.
    pub fn get(&self, function: HookedFunction) -> (r: u64)
        ensures
            r == self.address(function),
    {
        match function {
            HookedFunction::Send => self.send,
            HookedFunction::Recv => self.recv,
            HookedFunction::WsaSend => self.wsasend,
            HookedFunction::WsaRecvEx => self.wsarecvex,
        }
    }
}

/// The libraries whose imports are looked at.
#[derive(Debug, Clone, Copy, PartialEq, Eq, Structural)]
pub enum SocketLibrary {
    /// WSOCK32.dll, whose functions are imported by ordinal.
    Wsock32,
    /// WS2_32.dll, whose functions are imported by name.
    Ws2_32,
}

// ---- what stands in memory ----

/// An address and an offset, modulo 2^64.
pub open spec fn offset_by(base: u64, offset: int) -> u64 {
    ((base + offset) % 0x1_0000_0000_0000_0000) as u64
}

/// Where the NT headers of a module are, if its DOS header is one.
pub open spec fn nt_headers_at(base: u64, dos: Seq<u8>) -> Option<u64> {
    if dos.len() >= 64 && bytes::le16(dos, 0) == 0x5A4D {
        Some(offset_by(base, bytes::signed(bytes::le32(dos, 60), 0x8000_0000)))
    } else {
        None
    }
}

/// Where the import directory of a module is, if its NT headers are those of a 64-bit image
/// that has one.
pub open spec fn import_directory_at(base: u64, nt: Seq<u8>) -> Option<u64> {
    if nt.len() >= 148 && bytes::le32(nt, 0) == 0x4550 && bytes::le16(nt, 24) == 0x020B && bytes::le32(
        nt,
        132,
    ) > 1 && bytes::le32(nt, 144) != 0 {
        Some(offset_by(base, bytes::le32(nt, 144)))
    } else {
        None
    }
}

/// One library in the import directory.
#[derive(Debug, Clone, Copy, PartialEq, Eq, Structural)]
pub struct ImportDescriptor {
    pub original_first_thunk: u32,
    pub name_rva: u32,
    pub first_thunk: u32,
}

/// The descriptor in these bytes.
pub open spec fn descriptor_of(s: Seq<u8>) -> ImportDescriptor {
    ImportDescriptor {
        original_first_thunk: bytes::le32(s, 0) as u32,
        name_rva: bytes::le32(s, 12) as u32,
        first_thunk: bytes::le32(s, 16) as u32,
    }
}

impl ImportDescriptor {
    /// Whether the descriptor ends the directory.
    pub open spec fn is_last(self) -> bool {
        self.name_rva == 0 && self.first_thunk == 0
    }

    /// Where the names and ordinals of the imports are listed.
    pub open spec fn lookup_rva(self) -> u32 {
        if self.original_first_thunk != 0 {
            self.original_first_thunk
        } else {
            self.first_thunk
        }
    }
}

/// The socket library of this name, in any case.
pub open spec fn library_named(name: Seq<u8>) -> Option<SocketLibrary> {
    let lower = text::lower(text::utf8_decoded(name));
    if lower == "wsock32.dll"@ {
        Some(SocketLibrary::Wsock32)
    } else if lower == "ws2_32.dll"@ {
        Some(SocketLibrary::Ws2_32)
    } else {
        None
    }
}

/// Whether an import is by ordinal.
pub open spec fn by_ordinal(thunk: u64) -> bool {
    thunk >= 0x8000_0000_0000_0000
}

/// The hooked function of WSOCK32.dll with this ordinal: send(18), recv(15), WSARecvEx(111).
pub open spec fn function_with_ordinal(ordinal: int) -> Option<HookedFunction> {
    if ordinal == 18 {
        Some(HookedFunction::Send)
    } else if ordinal == 15 {
        Some(HookedFunction::Recv)
    } else if ordinal == 111 {
        Some(HookedFunction::WsaRecvEx)
    } else {
        None
    }
}

/// The hooked function of WSOCK32.dll that a thunk imports.
pub open spec fn function_of_thunk(thunk: u64) -> Option<HookedFunction> {
    if by_ordinal(thunk) {
        function_with_ordinal(thunk as int % 0x1_0000)
    } else {
        None
    }
}

/// The bytes of `WSASend`.
pub open spec fn wsasend_name() -> Seq<u8> {
    seq![0x57u8, 0x53u8, 0x41u8, 0x53u8, 0x65u8, 0x6Eu8, 0x64u8]
}

/// Whether an imported function of this name is WSASend.
pub open spec fn is_wsasend(name: Seq<u8>) -> bool {
    vstd::utf8::encode_utf8(text::utf8_decoded(name)) == wsasend_name()
}

/// Adds an offset to an address, modulo 2^64.
fn at_offset(base: u64, offset: u64) -> (r: u64)
    ensures
        r == offset_by(base, offset as int),
{
    base.wrapping_add(offset)
}

/// Where the NT headers of a module are, if its DOS header is one.
pub fn nt_headers(base: u64, dos: &[u8]) -> (r: Option<u64>)
    ensures
        r == nt_headers_at(base, dos@),
{
    if dos.len() < 64 || read_u16(dos, 0) != 0x5A4D {
        return None;
    }
    let e_lfanew: u32 = read_u32(dos, 60);
    if e_lfanew < 0x8000_0000 {
        Some(at_offset(base, e_lfanew as u64))
    } else {
        let back: u64 = 0x1_0000_0000 - e_lfanew as u64;
        Some(base.wrapping_sub(back))
    }
}

/// Where the import directory of a module is, if its NT headers are those of a 64-bit image
/// that has one.
pub fn import_directory(base: u64, nt: &[u8]) -> (r: Option<u64>)
    ensures
        r == import_directory_at(base, nt@),
{
    if nt.len() < 148 || read_u32(nt, 0) != 0x4550 || read_u16(nt, 24) != 0x020B || read_u32(nt, 132)
        <= 1 || read_u32(nt, 144) == 0 {
        return None;
    }
    Some(at_offset(base, read_u32(nt, 144) as u64))
}

/// Reads a descriptor.
fn read_descriptor(s: &[u8]) -> (d: ImportDescriptor)
    requires
        s@.len() >= 20,
    ensures
        d == descriptor_of(s@),
{
    ImportDescriptor {
        original_first_thunk: read_u32(s, 0),
        name_rva: read_u32(s, 12),
        first_thunk: read_u32(s, 16),
    }
}

/// The socket library of this name, in any case.
pub fn socket_library(name: &[u8]) -> (r: Option<SocketLibrary>)
    ensures
        r == library_named(name@),
{
    let decoded: String = utf8_text(name);
    let lower: String = lower_text(decoded.as_str());
    if same_text(lower.as_str(), "wsock32.dll") {
        Some(SocketLibrary::Wsock32)
    } else if same_text(lower.as_str(), "ws2_32.dll") {
        Some(SocketLibrary::Ws2_32)
    } else {
        None
    }
}

/// The hooked function of WSOCK32.dll that a thunk imports.
pub fn thunk_function(thunk: u64) -> (r: Option<HookedFunction>)
    ensures
        r == function_of_thunk(thunk),
{
    if thunk < 0x8000_0000_0000_0000 {
        return None;
    }
    let ordinal: u64 = thunk % 0x1_0000;
    if ordinal == 18 {
        Some(HookedFunction::Send)
    } else if ordinal == 15 {
        Some(HookedFunction::Recv)
    } else if ordinal == 111 {
        Some(HookedFunction::WsaRecvEx)
    } else {
        None
    }
}

/// Whether an imported function of this name is WSASend.
pub fn names_wsasend(name: &[u8]) -> (r: bool)
    ensures
        r == is_wsasend(name@),
{
    let decoded: String = utf8_text(name);
    let expected: [u8; 7] = [0x57u8, 0x53u8, 0x41u8, 0x53u8, 0x65u8, 0x6Eu8, 0x64u8];
    assert(expected@ =~= wsasend_name());
    same_bytes(decoded.as_str().as_bytes(), expected.as_slice())
}

// ---- the walk ----

/// What the walk is for.
#[derive(Debug, Clone, Copy, PartialEq, Eq, Structural)]
pub enum Purpose {
    /// To put these hooks in.
    Install(FunctionAddresses),
    /// To put these functions back where the hooks stand.
    Restore { hooks: FunctionAddresses, originals: FunctionAddresses },
}

/// What is written to the slot of an import of this function, which holds `current`. A hook is
/// put in unless the slot is empty or holds it already. A function is put back where the slot
/// holds the hook, if its address was kept.
pub open spec fn new_value(purpose: Purpose, function: HookedFunction, current: u64) -> Option<u64> {
    match purpose {
        Purpose::Install(hooks) => if current != 0 && current != hooks.address(function) {
            Some(hooks.address(function))
        } else {
            None
        },
        Purpose::Restore { hooks, originals } => if current == hooks.address(function)
            && originals.address(function) != 0 {
            Some(originals.address(function))
        } else {
            None
        },
    }
}

/// What is kept of a slot that held `current`: the address that a hook takes the place of.
pub open spec fn kept_value(purpose: Purpose, function: HookedFunction, current: u64) -> Option<
    (HookedFunction, u64),
> {
    match purpose {
        Purpose::Install(_) => Some((function, current)),
        Purpose::Restore { .. } => None,
    }
}

/// Where the walk stands: what it asked for last.
#[derive(Debug, Clone, Copy, PartialEq, Eq, Structural)]
pub enum Stage {
    DosProbe,
    DosLoad,
    NtProbe,
    NtLoad,
    DescriptorProbe,
    DescriptorLoad,
    LibraryProbe,
    LibraryByteProbe,
    LibraryByteLoad,
    LookupProbe,
    SlotProbe,
    ThunkLoad,
    HintProbe,
    NameProbe,
    NameByteProbe,
    NameByteLoad,
    SlotLoad,
    Patching,
    Done,
}

/// What the walk asks for.
#[derive(Debug, Clone, Copy, PartialEq, Eq)]
pub enum WalkAction {
    /// Say whether there is memory at the address.
    Probe { addr: u64 },
    /// Read this many bytes at the address.
    Load { addr: u64, len: usize },
    /// Keep the function's old address, if one is given, and write the value to the slot.
    Patch { slot: u64, value: u64, keep: Option<(HookedFunction, u64)> },
    /// The walk is over.
    Finish,
}

/// What came of what the walk asked for.
pub enum WalkReply {
    Probed(bool),
    Loaded(Vec<u8>),
    Patched(bool),
}

/// What came of what the walk asked for, as values.
pub enum WalkReplyView {
    Probed(bool),
    Loaded(Seq<u8>),
    Patched(bool),
}

impl View for WalkReply {
    type V = WalkReplyView;

    open spec fn view(&self) -> WalkReplyView {
        match self {
            WalkReply::Probed(b) => WalkReplyView::Probed(*b),
            WalkReply::Loaded(data) => WalkReplyView::Loaded(data@),
            WalkReply::Patched(b) => WalkReplyView::Patched(*b),
        }
    }
}

/// No directory has more descriptors, and no descriptor more imports, than this.
pub const LONGEST_LIST: u32 = 4096;

/// The longest library name that is read.
pub const LONGEST_LIBRARY_NAME: usize = 128;

/// The longest function name that is read.
pub const LONGEST_FUNCTION_NAME: usize = 64;

/// A walk through the imports of one module.
pub struct ImportWalk {
    pub base: u64,
    pub purpose: Purpose,
    pub stage: Stage,
    /// The headers or the descriptor that is looked at.
    pub at: u64,
    pub descriptors_left: u32,
    pub descriptor: ImportDescriptor,
    pub library: SocketLibrary,
    /// Where the ordinal or name of the import is listed.
    pub lookup: u64,
    /// Where the address of the import stands.
    pub slot: u64,
    pub imports_left: u32,
    pub function: HookedFunction,
    pub name_at: u64,
    pub name: Vec<u8>,
    /// How many slots were patched.
    pub patched: u32,
}

/// A walk as values.
#[verifier::ext_equal]
pub struct WalkView {
    pub base: u64,
    pub purpose: Purpose,
    pub stage: Stage,
    pub at: u64,
    pub descriptors_left: u32,
    pub descriptor: ImportDescriptor,
    pub library: SocketLibrary,
    pub lookup: u64,
    pub slot: u64,
    pub imports_left: u32,
    pub function: HookedFunction,
    pub name_at: u64,
    pub name: Seq<u8>,
    pub patched: u32,
}

impl View for ImportWalk {
    type V = WalkView;

    open spec fn view(&self) -> WalkView {
        WalkView {
            base: self.base,
            purpose: self.purpose,
            stage: self.stage,
            at: self.at,
            descriptors_left: self.descriptors_left,
            descriptor: self.descriptor,
            library: self.library,
            lookup: self.lookup,
            slot: self.slot,
            imports_left: self.imports_left,
            function: self.function,
            name_at: self.name_at,
            name: self.name@,
            patched: self.patched,
        }
    }
}

impl WalkView {
    /// The walk is over.
    pub open spec fn finish(self) -> (WalkView, WalkAction) {
        (WalkView { stage: Stage::Done, ..self }, WalkAction::Finish)
    }

    /// Asks whether there is memory at an address.
    pub open spec fn probe(self, stage: Stage, addr: u64) -> (WalkView, WalkAction) {
        (WalkView { stage, ..self }, WalkAction::Probe { addr })
    }

    /// Asks for bytes.
    pub open spec fn load(self, stage: Stage, addr: u64, len: usize) -> (WalkView, WalkAction) {
        (WalkView { stage, ..self }, WalkAction::Load { addr, len })
    }

    /// Asks for a slot to be patched.
    pub open spec fn patch(self, value: u64, keep: Option<(HookedFunction, u64)>) -> (
        WalkView,
        WalkAction,
    ) {
        (
            WalkView { stage: Stage::Patching, ..self },
            WalkAction::Patch { slot: self.slot, value, keep },
        )
    }

    /// Looks at the descriptor at `at`, if the directory may have another one.
    pub open spec fn this_descriptor(self) -> (WalkView, WalkAction) {
        if self.descriptors_left == 0 {
            self.finish()
        } else {
            self.probe(Stage::DescriptorProbe, self.at)
        }
    }

    /// Goes on to the next descriptor.
    pub open spec fn next_descriptor(self) -> (WalkView, WalkAction) {
        WalkView {
            at: offset_by(self.at, 20),
            descriptors_left: if self.descriptors_left == 0 {
                0
            } else {
                (self.descriptors_left - 1) as u32
            },
            ..self
        }.this_descriptor()
    }

    /// Looks at the import at `lookup` and `slot`, if the library may have another one.
    pub open spec fn this_import(self) -> (WalkView, WalkAction) {
        if self.imports_left == 0 {
            self.next_descriptor()
        } else {
            self.probe(Stage::LookupProbe, self.lookup)
        }
    }

    /// Goes on to the next import.
    pub open spec fn next_import(self) -> (WalkView, WalkAction) {
        WalkView {
            lookup: offset_by(self.lookup, 8),
            slot: offset_by(self.slot, 8),
            imports_left: if self.imports_left == 0 { 0 } else { (self.imports_left - 1) as u32 },
            ..self
        }.this_import()
    }

    /// The next byte of the library's name, if it may have another one.
    pub open spec fn library_byte(self) -> (WalkView, WalkAction) {
        if self.name.len() < LONGEST_LIBRARY_NAME {
            self.probe(Stage::LibraryByteProbe, offset_by(self.name_at, self.name.len() as int))
        } else {
            self.library_read()
        }
    }

    /// The library's name was read: its imports are looked at if it is a socket library.
    pub open spec fn library_read(self) -> (WalkView, WalkAction) {
        match library_named(self.name) {
            Some(library) => WalkView {
                library,
                lookup: offset_by(self.base, self.descriptor.lookup_rva() as int),
                slot: offset_by(self.base, self.descriptor.first_thunk as int),
                imports_left: LONGEST_LIST,
                ..self
            }.this_import(),
            None => self.next_descriptor(),
        }
    }

    /// The next byte of the function's name, if it may have another one.
    pub open spec fn function_byte(self) -> (WalkView, WalkAction) {
        if self.name.len() < LONGEST_FUNCTION_NAME {
            self.probe(Stage::NameByteProbe, offset_by(self.name_at, self.name.len() as int))
        } else {
            self.function_read()
        }
    }

    /// The function's name was read.
    pub open spec fn function_read(self) -> (WalkView, WalkAction) {
        if is_wsasend(self.name) {
            self.found(HookedFunction::WsaSend)
        } else {
            self.next_import()
        }
    }

    /// The import is one of the hooked functions: its slot is looked at.
    pub open spec fn found(self, function: HookedFunction) -> (WalkView, WalkAction) {
        WalkView { function, ..self }.load(Stage::SlotLoad, self.slot, 8)
    }

    /// The import was read.
    pub open spec fn thunk_read(self, thunk: u64) -> (WalkView, WalkAction) {
        if thunk == 0 {
            self.next_descriptor()
        } else if self.library == SocketLibrary::Wsock32 {
            match function_of_thunk(thunk) {
                Some(function) => self.found(function),
                None => self.next_import(),
            }
        } else if by_ordinal(thunk) {
            self.next_import()
        } else {
            let hint = offset_by(self.base, thunk as int % 0x8000_0000);
            let w = WalkView { name_at: offset_by(hint, 2), ..self };
            match self.purpose {
                Purpose::Install(_) => w.probe(Stage::HintProbe, hint),
                Purpose::Restore { .. } => w.probe(Stage::NameProbe, w.name_at),
            }
        }
    }

    /// The slot was read, and is patched if the purpose asks for it.
    pub open spec fn slot_read(self, current: u64) -> (WalkView, WalkAction) {
        match new_value(self.purpose, self.function, current) {
            Some(value) => self.patch(value, kept_value(self.purpose, self.function, current)),
            None => self.next_import(),
        }
    }

    /// After a probe.
    pub open spec fn after_probe(self, there: bool) -> (WalkView, WalkAction) {
        match self.stage {
            Stage::DosProbe if there => self.load(Stage::DosLoad, self.base, 64),
            Stage::NtProbe if there => self.load(Stage::NtLoad, self.at, 148),
            Stage::DescriptorProbe if there => self.load(Stage::DescriptorLoad, self.at, 20),
            Stage::LibraryProbe => if there {
                WalkView { name: Seq::empty(), ..self }.library_byte()
            } else {
                self.next_descriptor()
            },
            Stage::LibraryByteProbe => if there {
                self.load(
                    Stage::LibraryByteLoad,
                    offset_by(self.name_at, self.name.len() as int),
                    1,
                )
            } else {
                self.library_read()
            },
            Stage::LookupProbe => if there {
                self.probe(Stage::SlotProbe, self.slot)
            } else {
                self.next_descriptor()
            },
            Stage::SlotProbe => if there {
                self.load(Stage::ThunkLoad, self.lookup, 8)
            } else {
                self.next_descriptor()
            },
            Stage::HintProbe => if there {
                self.probe(Stage::NameProbe, self.name_at)
            } else {
                self.next_import()
            },
            Stage::NameProbe => if there {
                WalkView { name: Seq::empty(), ..self }.function_byte()
            } else {
                self.next_import()
            },
            Stage::NameByteProbe => if there {
                self.load(
                    Stage::NameByteLoad,
                    offset_by(self.name_at, self.name.len() as int),
                    1,
                )
            } else {
                self.function_read()
            },
            _ => self.finish(),
        }
    }

    /// After bytes were read.
    pub open spec fn after_load(self, data: Seq<u8>) -> (WalkView, WalkAction) {
        match self.stage {
            Stage::DosLoad => match nt_headers_at(self.base, data) {
                Some(at) => WalkView { at, ..self }.probe(Stage::NtProbe, at),
                None => self.finish(),
            },
            Stage::NtLoad => match import_directory_at(self.base, data) {
                Some(at) => WalkView { at, descriptors_left: LONGEST_LIST, ..self }.this_descriptor(),
                None => self.finish(),
            },
            Stage::DescriptorLoad if data.len() >= 20 && !descriptor_of(data).is_last() => {
                let d = descriptor_of(data);
                let name_at = offset_by(self.base, d.name_rva as int);
                WalkView { descriptor: d, name_at, ..self }.probe(Stage::LibraryProbe, name_at)
            },
            Stage::LibraryByteLoad if data.len() >= 1 => if data[0] == 0 {
                self.library_read()
            } else {
                WalkView { name: self.name.push(data[0]), ..self }.library_byte()
            },
            Stage::ThunkLoad if data.len() >= 8 => self.thunk_read(bytes::le64(data, 0) as u64),
            Stage::NameByteLoad if data.len() >= 1 => if data[0] == 0 {
                self.function_read()
            } else {
                WalkView { name: self.name.push(data[0]), ..self }.function_byte()
            },
            Stage::SlotLoad if data.len() >= 8 => self.slot_read(bytes::le64(data, 0) as u64),
            _ => self.finish(),
        }
    }

    /// After a slot was patched, or could not be.
    pub open spec fn after_patch(self, done: bool) -> (WalkView, WalkAction) {
        if self.stage == Stage::Patching {
            WalkView {
                patched: if done { ((self.patched + 1) % 0x1_0000_0000) as u32 } else { self.patched },
                ..self
            }.next_import()
        } else {
            self.finish()
        }
    }

    /// What comes next.
    pub open spec fn step(self, reply: WalkReplyView) -> (WalkView, WalkAction) {
        match reply {
            WalkReplyView::Probed(there) => self.after_probe(there),
            WalkReplyView::Loaded(data) => self.after_load(data),
            WalkReplyView::Patched(done) => self.after_patch(done),
        }
    }
}

impl ImportWalk {
    /// Begins a walk through the imports of the module at `base`.
    pub fn begin(base: u64, purpose: Purpose) -> (r: (ImportWalk, WalkAction))
        ensures
            r.1 == (WalkAction::Probe { addr: base }),
            r.0@.stage == Stage::DosProbe,
            r.0@.base == base,
            r.0@.purpose == purpose,
            r.0@.patched == 0,
            r.0@.wf(),
    {
        let walk = ImportWalk {
            base,
            purpose,
            stage: Stage::DosProbe,
            at: 0,
            descriptors_left: 0,
            descriptor: ImportDescriptor { original_first_thunk: 0, name_rva: 0, first_thunk: 0 },
            library: SocketLibrary::Wsock32,
            lookup: 0,
            slot: 0,
            imports_left: 0,
            function: HookedFunction::Send,
            name_at: 0,
            name: Vec::new(),
            patched: 0,
        };
        (walk, WalkAction::Probe { addr: base })
    }

    fn finish(&mut self) -> (action: WalkAction)
        ensures
            (final(self)@, action) == old(self)@.finish(),
    {
        self.stage = Stage::Done;
        WalkAction::Finish
    }

    fn probe(&mut self, stage: Stage, addr: u64) -> (action: WalkAction)
        ensures
            (final(self)@, action) == old(self)@.probe(stage, addr),
    {
        self.stage = stage;
        WalkAction::Probe { addr }
    }

    fn load(&mut self, stage: Stage, addr: u64, len: usize) -> (action: WalkAction)
        ensures
            (final(self)@, action) == old(self)@.load(stage, addr, len),
    {
        self.stage = stage;
        WalkAction::Load { addr, len }
    }

    fn patch(&mut self, value: u64, keep: Option<(HookedFunction, u64)>) -> (action: WalkAction)
        ensures
            (final(self)@, action) == old(self)@.patch(value, keep),
    {
        self.stage = Stage::Patching;
        WalkAction::Patch { slot: self.slot, value, keep }
    }

    fn this_descriptor(&mut self) -> (action: WalkAction)
        ensures
            (final(self)@, action) == old(self)@.this_descriptor(),
    {
        if self.descriptors_left == 0 {
            self.finish()
        } else {
            self.probe(Stage::DescriptorProbe, self.at)
        }
    }

    fn next_descriptor(&mut self) -> (action: WalkAction)
        ensures
            (final(self)@, action) == old(self)@.next_descriptor(),
    {
        self.at = at_offset(self.at, 20);
        self.descriptors_left = if self.descriptors_left == 0 {
            0
        } else {
            self.descriptors_left - 1
        };
        self.this_descriptor()
    }

    fn this_import(&mut self) -> (action: WalkAction)
        ensures
            (final(self)@, action) == old(self)@.this_import(),
    {
        if self.imports_left == 0 {
            self.next_descriptor()
        } else {
            self.probe(Stage::LookupProbe, self.lookup)
        }
    }

    fn next_import(&mut self) -> (action: WalkAction)
        ensures
            (final(self)@, action) == old(self)@.next_import(),
    {
        self.lookup = at_offset(self.lookup, 8);
        self.slot = at_offset(self.slot, 8);
        self.imports_left = if self.imports_left == 0 {
            0
        } else {
            self.imports_left - 1
        };
        self.this_import()
    }

    fn library_byte(&mut self) -> (action: WalkAction)
        ensures
            (final(self)@, action) == old(self)@.library_byte(),
    {
        if self.name.len() < LONGEST_LIBRARY_NAME {
            self.probe(Stage::LibraryByteProbe, at_offset(self.name_at, self.name.len() as u64))
        } else {
            self.library_read()
        }
    }

    fn library_read(&mut self) -> (action: WalkAction)
        ensures
            (final(self)@, action) == old(self)@.library_read(),
    {
        match socket_library(self.name.as_slice()) {
            Some(library) => {
                let d = self.descriptor;
                let lookup_rva: u32 = if d.original_first_thunk != 0 {
                    d.original_first_thunk
                } else {
                    d.first_thunk
                };
                self.library = library;
                self.lookup = at_offset(self.base, lookup_rva as u64);
                self.slot = at_offset(self.base, d.first_thunk as u64);
                self.imports_left = LONGEST_LIST;
                self.this_import()
            },
            None => self.next_descriptor(),
        }
    }

    fn function_byte(&mut self) -> (action: WalkAction)
        ensures
            (final(self)@, action) == old(self)@.function_byte(),
    {
        if self.name.len() < LONGEST_FUNCTION_NAME {
            self.probe(Stage::NameByteProbe, at_offset(self.name_at, self.name.len() as u64))
        } else {
            self.function_read()
        }
    }

    fn function_read(&mut self) -> (action: WalkAction)
        ensures
            (final(self)@, action) == old(self)@.function_read(),
    {
        if names_wsasend(self.name.as_slice()) {
            self.found(HookedFunction::WsaSend)
        } else {
            self.next_import()
        }
    }

    fn found(&mut self, function: HookedFunction) -> (action: WalkAction)
        ensures
            (final(self)@, action) == old(self)@.found(function),
    {
        self.function = function;
        self.load(Stage::SlotLoad, self.slot, 8)
    }

    fn thunk_read(&mut self, thunk: u64) -> (action: WalkAction)
        ensures
            (final(self)@, action) == old(self)@.thunk_read(thunk),
    {
        if thunk == 0 {
            return self.next_descriptor();
        }
        match self.library {
            SocketLibrary::Wsock32 => match thunk_function(thunk) {
                Some(function) => self.found(function),
                None => self.next_import(),
            },
            SocketLibrary::Ws2_32 => {
                if thunk >= 0x8000_0000_0000_0000 {
                    return self.next_import();
                }
                let hint: u64 = at_offset(self.base, thunk % 0x8000_0000);
                self.name_at = at_offset(hint, 2);
                match self.purpose {
                    Purpose::Install(_) => self.probe(Stage::HintProbe, hint),
                    Purpose::Restore { .. } => self.probe(Stage::NameProbe, self.name_at),
                }
            },
        }
    }

    fn slot_read(&mut self, current: u64) -> (action: WalkAction)
        ensures
            (final(self)@, action) == old(self)@.slot_read(current),
    {
        match self.purpose {
            Purpose::Install(hooks) => {
                let hook: u64 = hooks.get(self.function);
                if current != 0 && current != hook {
                    self.patch(hook, Some((self.function, current)))
                } else {
                    self.next_import()
                }
            },
            Purpose::Restore { hooks, originals } => {
                let original: u64 = originals.get(self.function);
                if current == hooks.get(self.function) && original != 0 {
                    self.patch(original, None)
                } else {
                    self.next_import()
                }
            },
        }
    }

    fn after_probe(&mut self, there: bool) -> (action: WalkAction)
        ensures
            (final(self)@, action) == old(self)@.after_probe(there),
    {
        match self.stage {
            Stage::DosProbe => if there {
                self.load(Stage::DosLoad, self.base, 64)
            } else {
                self.finish()
            },
            Stage::NtProbe => if there {
                self.load(Stage::NtLoad, self.at, 148)
            } else {
                self.finish()
            },
            Stage::DescriptorProbe => if there {
                self.load(Stage::DescriptorLoad, self.at, 20)
            } else {
                self.finish()
            },
            Stage::LibraryProbe => if there {
                self.name = Vec::new();
                self.library_byte()
            } else {
                self.next_descriptor()
            },
            Stage::LibraryByteProbe => if there {
                self.load(
                    Stage::LibraryByteLoad,
                    at_offset(self.name_at, self.name.len() as u64),
                    1,
                )
            } else {
                self.library_read()
            },
            Stage::LookupProbe => if there {
                self.probe(Stage::SlotProbe, self.slot)
            } else {
                self.next_descriptor()
            },
            Stage::SlotProbe => if there {
                self.load(Stage::ThunkLoad, self.lookup, 8)
            } else {
                self.next_descriptor()
            },
            Stage::HintProbe => if there {
                self.probe(Stage::NameProbe, self.name_at)
            } else {
                self.next_import()
            },
            Stage::NameProbe => if there {
                self.name = Vec::new();
                self.function_byte()
            } else {
                self.next_import()
            },
            Stage::NameByteProbe => if there {
                self.load(
                    Stage::NameByteLoad,
                    at_offset(self.name_at, self.name.len() as u64),
                    1,
                )
            } else {
                self.function_read()
            },
            _ => self.finish(),
        }
    }

    fn after_load(&mut self, data: &[u8]) -> (action: WalkAction)
        ensures
            (final(self)@, action) == old(self)@.after_load(data@),
    {
        match self.stage {
            Stage::DosLoad => match nt_headers(self.base, data) {
                Some(at) => {
                    self.at = at;
                    self.probe(Stage::NtProbe, at)
                },
                None => self.finish(),
            },
            Stage::NtLoad => match import_directory(self.base, data) {
                Some(at) => {
                    self.at = at;
                    self.descriptors_left = LONGEST_LIST;
                    self.this_descriptor()
                },
                None => self.finish(),
            },
            Stage::DescriptorLoad => {
                if data.len() < 20 {
                    return self.finish();
                }
                let d = read_descriptor(data);
                if d.name_rva == 0 && d.first_thunk == 0 {
                    return self.finish();
                }
                self.descriptor = d;
                self.name_at = at_offset(self.base, d.name_rva as u64);
                self.probe(Stage::LibraryProbe, self.name_at)
            },
            Stage::LibraryByteLoad => {
                if data.len() < 1 {
                    return self.finish();
                }
                if data[0] == 0 {
                    self.library_read()
                } else {
                    self.name.push(data[0]);
                    self.library_byte()
                }
            },
            Stage::ThunkLoad => {
                if data.len() < 8 {
                    return self.finish();
                }
                self.thunk_read(read_u64(data, 0))
            },
            Stage::NameByteLoad => {
                if data.len() < 1 {
                    return self.finish();
                }
                if data[0] == 0 {
                    self.function_read()
                } else {
                    self.name.push(data[0]);
                    self.function_byte()
                }
            },
            Stage::SlotLoad => {
                if data.len() < 8 {
                    return self.finish();
                }
                self.slot_read(read_u64(data, 0))
            },
            _ => self.finish(),
        }
    }

    fn after_patch(&mut self, done: bool) -> (action: WalkAction)
        ensures
            (final(self)@, action) == old(self)@.after_patch(done),
    {
        match self.stage {
            Stage::Patching => {
                if done {
                    self.patched = self.patched.wrapping_add(1);
                }
                self.next_import()
            },
            _ => self.finish(),
        }
    }

    /// Takes what came of the last action, and says what comes next. An answer to another
    /// question, or one that is too short, ends the walk.
    pub fn step(&mut self, reply: &WalkReply) -> (action: WalkAction)
        ensures
            (final(self)@, action) == old(self)@.step(reply@),
    {
        match reply {
            WalkReply::Probed(there) => self.after_probe(*there),
            WalkReply::Loaded(data) => self.after_load(data.as_slice()),
            WalkReply::Patched(done) => self.after_patch(*done),
        }
    }
}

/// Whether there is memory at an address, by the size of the region that the system knows there.
pub open spec fn is_memory(addr: u64, region_size: Option<u64>) -> bool {
    addr != 0 && (region_size matches Some(size) && size > 0)
}

/// Whether there is memory at an address: it is not zero, and the system knows a region there
/// that is not empty. `region_size` is the size of the region, if the system knows one.
pub fn is_readable(addr: u64, region_size: Option<u64>) -> (r: bool)
    ensures
        r == is_memory(addr, region_size),
{
    if addr == 0 {
        return false;
    }
    match region_size {
        Some(size) => size > 0,
        None => false,
    }
}

// ---- all modules ----

/// Whether the imports of a module are left alone: the socket libraries themselves, the system
/// core, the hook itself, and the system's API sets.
pub open spec fn is_skipped(name: Seq<char>) -> bool {
    let lower = text::lower(name);
    ||| lower == "ws2_32.dll"@
    ||| lower == "wsock32.dll"@
    ||| lower == "ntdll.dll"@
    ||| lower == "wiz_hook.dll"@
    ||| text::occurs_at(lower, "api-ms-"@, 0)
    ||| text::occurs_at(lower, "ext-ms-"@, 0)
}

/// Whether hooks are put into the module with this name, in a fixed-size UTF-16 field, at this
/// address.
pub open spec fn is_hooked(name_field: Seq<u16>, base: u64) -> bool {
    !is_skipped(text::utf16_decoded(text::until_nul(name_field))) && base != 0
}

/// Whether hooks are put into the module with this name, in a fixed-size UTF-16 field, at this
/// address.
pub fn module_is_hooked(name_field: &[u16], base: u64) -> (r: bool)
    ensures
        r == is_hooked(name_field@, base),
{
    let name: String = field_text(name_field);
    let lower: String = lower_text(name.as_str());
    let skip: bool = same_text(lower.as_str(), "ws2_32.dll") || same_text(lower.as_str(), "wsock32.dll")
        || same_text(lower.as_str(), "ntdll.dll") || same_text(lower.as_str(), "wiz_hook.dll")
        || starts_with_text(lower.as_str(), "api-ms-") || starts_with_text(lower.as_str(), "ext-ms-");
    !skip && base != 0
}

/// The modules of the process, or the address of its main module where they cannot be listed.
pub enum ModuleList {
    Listed(Vec<ModuleEntry>),
    OnlyMain { base: u64 },
}

/// A loaded module.
pub struct ModuleEntry {
    /// The name in its fixed-size UTF-16 field.
    pub name_field: Vec<u16>,
    pub base: u64,
}

/// Whether hooks are put into a module.
pub open spec fn entry_is_hooked(entry: ModuleEntry) -> bool {
    is_hooked(entry.name_field@, entry.base)
}

/// The addresses of the modules into which hooks are put.
pub open spec fn hooked_bases(entries: Seq<ModuleEntry>) -> Seq<u64>
    decreases entries.len(),
{
    if entries.len() == 0 {
        Seq::empty()
    } else if entry_is_hooked(entries.last()) {
        hooked_bases(entries.drop_last()).push(entries.last().base)
    } else {
        hooked_bases(entries.drop_last())
    }
}

/// The addresses of the modules whose imports are walked to put hooks in.
pub open spec fn bases_to_hook(modules: ModuleList) -> Seq<u64> {
    match modules {
        ModuleList::Listed(entries) => hooked_bases(entries@),
        ModuleList::OnlyMain { base } => if base != 0 {
            seq![base]
        } else {
            Seq::empty()
        },
    }
}

/// The addresses of the modules whose imports are walked to put hooks in, in order.
pub fn modules_to_hook(modules: &ModuleList) -> (bases: Vec<u64>)
    ensures
        bases@ == bases_to_hook(*modules),
{
    let mut bases: Vec<u64> = Vec::new();
    match modules {
        ModuleList::Listed(entries) => {
            let mut i: usize = 0;
            assert(entries@.take(0) =~= Seq::<ModuleEntry>::empty());
            while i < entries.len()
                invariant
                    i <= entries@.len(),
                    bases@ == hooked_bases(entries@.take(i as int)),
                decreases entries@.len() - i,
            {
                let entry = &entries[i];
                assert(entries@.take(i + 1).drop_last() =~= entries@.take(i as int));
                assert(entries@.take(i + 1).last() == *entry);
                if module_is_hooked(entry.name_field.as_slice(), entry.base) {
                    bases.push(entry.base);
                }
                i += 1;
            }
            assert(entries@.take(i as int) =~= entries@);
        },
        ModuleList::OnlyMain { base } => {
            if *base != 0 {
                bases.push(*base);
                assert(bases@ =~= seq![*base]);
            }
        },
    }
    bases
}

/// The addresses of all modules that have one.
pub open spec fn nonzero_bases(entries: Seq<ModuleEntry>) -> Seq<u64>
    decreases entries.len(),
{
    if entries.len() == 0 {
        Seq::empty()
    } else if entries.last().base != 0 {
        nonzero_bases(entries.drop_last()).push(entries.last().base)
    } else {
        nonzero_bases(entries.drop_last())
    }
}

/// The addresses of the modules whose imports are walked to put these functions back. Where
/// there is the address of none, there is nothing to put back.
pub open spec fn restored_bases(entries: Seq<ModuleEntry>, originals: FunctionAddresses) -> Seq<u64> {
    if originals.are_none() {
        Seq::empty()
    } else {
        nonzero_bases(entries)
    }
}

/// The addresses of the modules whose imports are walked to put the functions back, in order.
/// Where no address was kept, nothing was hooked, and there are none.
pub fn modules_to_restore(entries: &Vec<ModuleEntry>, originals: FunctionAddresses) -> (bases: Vec<u64>)
    ensures
        bases@ == restored_bases(entries@, originals),
{
    let mut bases: Vec<u64> = Vec::new();
    if originals.send == 0 && originals.recv == 0 && originals.wsasend == 0 && originals.wsarecvex == 0 {
        return bases;
    }
    let mut i: usize = 0;
    assert(entries@.take(0) =~= Seq::<ModuleEntry>::empty());
    while i < entries.len()
        invariant
            i <= entries@.len(),
            bases@ == nonzero_bases(entries@.take(i as int)),
        decreases entries@.len() - i,
    {
        assert(entries@.take(i + 1).drop_last() =~= entries@.take(i as int));
        if entries[i].base != 0 {
            bases.push(entries[i].base);
        }
        i += 1;
    }
    assert(entries@.take(i as int) =~= entries@);
    bases
}

// ---- laws ----

impl WalkView {
    /// Whether the walk is inside the imports of a library.
    pub open spec fn in_imports(self) -> bool {
        match self.stage {
            Stage::LookupProbe | Stage::SlotProbe | Stage::ThunkLoad | Stage::HintProbe
            | Stage::NameProbe | Stage::NameByteProbe | Stage::NameByteLoad | Stage::SlotLoad
            | Stage::Patching => true,
            _ => false,
        }
    }

    /// Whether the walk is inside a descriptor.
    pub open spec fn in_descriptor(self) -> bool {
        match self.stage {
            Stage::DescriptorProbe | Stage::DescriptorLoad | Stage::LibraryProbe
            | Stage::LibraryByteProbe | Stage::LibraryByteLoad => true,
            _ => self.in_imports(),
        }
    }

    /// What holds of every walk: its counters stay within their limits, and its slot is the one
    /// of the import that it looks at.
    pub open spec fn wf(self) -> bool {
        &&& self.descriptors_left <= LONGEST_LIST
        &&& self.imports_left <= LONGEST_LIST
        &&& self.in_descriptor() ==> self.descriptors_left > 0
        &&& self.in_imports() ==> {
            &&& self.imports_left > 0
            &&& self.slot == offset_by(
                self.base,
                self.descriptor.first_thunk + 8 * (LONGEST_LIST - self.imports_left),
            )
            &&& self.lookup == offset_by(
                self.base,
                self.descriptor.lookup_rva() + 8 * (LONGEST_LIST - self.imports_left),
            )
        }
        &&& (self.stage == Stage::LibraryByteProbe || self.stage == Stage::LibraryByteLoad)
            ==> self.name.len() < LONGEST_LIBRARY_NAME
        &&& (self.stage == Stage::NameByteProbe || self.stage == Stage::NameByteLoad)
            ==> self.name.len() < LONGEST_FUNCTION_NAME
        &&& (self.stage == Stage::HintProbe || self.stage == Stage::NameProbe || self.stage
            == Stage::NameByteProbe || self.stage == Stage::NameByteLoad) ==> self.library
            == SocketLibrary::Ws2_32
        &&& (self.stage == Stage::SlotLoad || self.stage == Stage::Patching) ==> (self.library
            == SocketLibrary::Ws2_32 <==> self.function == HookedFunction::WsaSend)
    }

    /// How much of the walk is left.
    pub open spec fn left(self) -> int {
        let name_left = 2 * (LONGEST_LIBRARY_NAME - self.name.len());
        let function_left = 2 * (LONGEST_FUNCTION_NAME - self.name.len());
        let import = 1_000 * self.imports_left;
        let descriptor = 5_000_000 * self.descriptors_left;
        match self.stage {
            Stage::DosProbe => 20_500_000_004,
            Stage::DosLoad => 20_500_000_003,
            Stage::NtProbe => 20_500_000_002,
            Stage::NtLoad => 20_500_000_001,
            Stage::DescriptorProbe => descriptor + 4_999_000,
            Stage::DescriptorLoad => descriptor + 4_998_000,
            Stage::LibraryProbe => descriptor + 4_997_000,
            Stage::LibraryByteProbe => descriptor + 4_990_001 + name_left,
            Stage::LibraryByteLoad => descriptor + 4_990_000 + name_left,
            Stage::LookupProbe => descriptor + import + 300,
            Stage::SlotProbe => descriptor + import + 290,
            Stage::ThunkLoad => descriptor + import + 280,
            Stage::HintProbe => descriptor + import + 270,
            Stage::NameProbe => descriptor + import + 260,
            Stage::NameByteProbe => descriptor + import + 21 + function_left,
            Stage::NameByteLoad => descriptor + import + 20 + function_left,
            Stage::SlotLoad => descriptor + import + 10,
            Stage::Patching => descriptor + import + 5,
            Stage::Done => 0,
        }
    }
}

proof fn lemma_next_import_slot(w: WalkView)
    requires
        0 < w.imports_left <= LONGEST_LIST,
    ensures
        offset_by(
            offset_by(w.base, w.descriptor.first_thunk + 8 * (LONGEST_LIST - w.imports_left)),
            8,
        ) == offset_by(w.base, w.descriptor.first_thunk + 8 * (LONGEST_LIST - (w.imports_left - 1))),
        offset_by(
            offset_by(w.base, w.descriptor.lookup_rva() + 8 * (LONGEST_LIST - w.imports_left)),
            8,
        ) == offset_by(w.base, w.descriptor.lookup_rva() + 8 * (LONGEST_LIST - (w.imports_left - 1))),
{
}

proof fn lemma_next_descriptor(w: WalkView)
    requires
        w.wf(),
        w.in_descriptor(),
    ensures
        w.next_descriptor().0.wf(),
        w.next_descriptor().0.left() < 5_000_000 * w.descriptors_left,
        !(w.next_descriptor().1 is Patch),
{
}

proof fn lemma_next_import(w: WalkView)
    requires
        w.wf(),
        w.in_imports(),
    ensures
        w.next_import().0.wf(),
        w.next_import().0.left() < 5_000_000 * w.descriptors_left + 1_000 * w.imports_left,
        !(w.next_import().1 is Patch),
{
    lemma_next_import_slot(w);
}

/// A patch that the walk asks for: it goes to the slot of an import of the library, writes the
/// address for the function that the import names, which is not zero when functions are put
/// back, and, when hooks are put in, keeps the old address, which is neither zero nor the hook
/// itself.
pub open spec fn patch_is_right(w: WalkView, action: WalkAction) -> bool {
    action matches WalkAction::Patch { slot, value, keep } ==> {
        &&& w.stage == Stage::Patching
        &&& slot == offset_by(
            w.base,
            w.descriptor.first_thunk + 8 * (LONGEST_LIST - w.imports_left),
        )
        &&& match w.purpose {
            Purpose::Install(hooks) => {
                &&& value == hooks.address(w.function)
                &&& keep matches Some((function, original)) && function == w.function && original != 0
                    && original != value
            },
            Purpose::Restore { originals, .. } => {
                &&& value == originals.address(w.function)
                &&& value != 0
                &&& keep is None
            },
        }
    }
}

proof fn lemma_found(w: WalkView, function: HookedFunction)
    requires
        w.wf(),
        w.in_imports(),
        w.library == SocketLibrary::Ws2_32 <==> function == HookedFunction::WsaSend,
    ensures
        w.found(function).0.wf(),
        w.found(function).0.left() <= 5_000_000 * w.descriptors_left + 1_000 * w.imports_left + 10,
        patch_is_right(w.found(function).0, w.found(function).1),
{
}

proof fn lemma_library_read(w: WalkView)
    requires
        w.wf(),
        w.in_descriptor(),
        !w.in_imports(),
    ensures
        w.library_read().0.wf(),
        w.library_read().0.left() < 5_000_000 * w.descriptors_left + 4_990_000,
        !(w.library_read().1 is Patch),
{
    lemma_next_descriptor(w);
}

proof fn lemma_function_read(w: WalkView)
    requires
        w.wf(),
        w.in_imports(),
        w.library == SocketLibrary::Ws2_32,
    ensures
        w.function_read().0.wf(),
        w.function_read().0.left() <= 5_000_000 * w.descriptors_left + 1_000 * w.imports_left + 10,
        patch_is_right(w.function_read().0, w.function_read().1),
{
    lemma_next_import(w);
    lemma_found(w, HookedFunction::WsaSend);
}

proof fn lemma_after_probe(w: WalkView, there: bool)
    requires
        w.wf(),
        w.stage != Stage::Done,
    ensures
        w.after_probe(there).0.wf(),
        w.after_probe(there).0.left() < w.left(),
        patch_is_right(w.after_probe(there).0, w.after_probe(there).1),
{
    if w.in_descriptor() {
        lemma_next_descriptor(w);
    }
    if w.in_imports() {
        lemma_next_import(w);
        if w.library == SocketLibrary::Ws2_32 {
            lemma_function_read(w);
        }
    } else if w.in_descriptor() {
        lemma_library_read(w);
    }
}

proof fn lemma_after_load(w: WalkView, data: Seq<u8>)
    requires
        w.wf(),
        w.stage != Stage::Done,
    ensures
        w.after_load(data).0.wf(),
        w.after_load(data).0.left() < w.left(),
        patch_is_right(w.after_load(data).0, w.after_load(data).1),
{
    if w.in_descriptor() {
        lemma_next_descriptor(w);
    }
    if w.in_imports() {
        lemma_next_import(w);
        if w.stage == Stage::ThunkLoad {
            match function_of_thunk(bytes::le64(data, 0) as u64) {
                Some(function) => if w.library == SocketLibrary::Wsock32 {
                    lemma_found(w, function);
                },
                None => {},
            }
        }
        if w.stage == Stage::NameByteLoad && data.len() >= 1 {
            lemma_function_read(w);
            let longer = WalkView { name: w.name.push(data[0]), ..w };
            if longer.name.len() >= LONGEST_FUNCTION_NAME {
                let probed = WalkView { stage: Stage::NameProbe, ..longer };
                lemma_function_read(probed);
                lemma_next_import(probed);
                lemma_found(probed, HookedFunction::WsaSend);
            }
        }
    } else if w.in_descriptor() {
        lemma_library_read(w);
        if w.stage == Stage::LibraryByteLoad && data.len() >= 1 {
            let longer = WalkView { name: w.name.push(data[0]), ..w };
            if longer.name.len() >= LONGEST_LIBRARY_NAME {
                let probed = WalkView { stage: Stage::LibraryProbe, ..longer };
                lemma_library_read(probed);
                lemma_next_descriptor(probed);
            }
        }
    }
}

/// Every walk comes to its end, whatever memory holds: each answer leaves less of it to do. On
/// its way it keeps its limits, and it patches only the slots of imports that it matched.
#[verifier::rlimit(30)]
pub proof fn law_walk_ends_and_patches_only_matches(w: WalkView, reply: WalkReplyView)
    requires
        w.wf(),
        w.stage != Stage::Done,
    ensures
        ({
            let (next, action) = w.step(reply);
            &&& next.wf()
            &&& 0 <= next.left() < w.left()
            &&& action == WalkAction::Finish <==> next.stage == Stage::Done
            &&& patch_is_right(next, action)
            &&& next.base == w.base
            &&& next.purpose == w.purpose
        }),
{
    match reply {
        WalkReplyView::Probed(there) => lemma_after_probe(w, there),
        WalkReplyView::Loaded(data) => lemma_after_load(w, data),
        WalkReplyView::Patched(done) => {
            let counted = WalkView {
                patched: if done { ((w.patched + 1) % 0x1_0000_0000) as u32 } else { w.patched },
                ..w
            };
            if w.stage == Stage::Patching {
                lemma_next_import(counted);
            }
        },
    }
}

/// For WSOCK32.dll, putting back looks at exactly the slots at which putting in looks: the same
/// thunk leads to the same slot.
pub proof fn law_restore_looks_where_install_looks(
    w: WalkView,
    hooks: FunctionAddresses,
    originals: FunctionAddresses,
    thunk: u64,
)
    requires
        w.library == SocketLibrary::Wsock32,
    ensures
        ({
            let install = WalkView { purpose: Purpose::Install(hooks), ..w }.thunk_read(thunk);
            let restore = WalkView { purpose: Purpose::Restore { hooks, originals }, ..w }.thunk_read(
                thunk,
            );
            let matched = thunk != 0 && function_of_thunk(thunk) is Some;
            &&& install.1 == (WalkAction::Load { addr: w.slot, len: 8 }) <==> matched
            &&& restore.1 == install.1
        }),
{
}

/// Every listed module into which hooks are put is walked again to put the functions back, as
/// soon as the address of any function was kept.
pub proof fn law_hooked_modules_are_restored(
    entries: Seq<ModuleEntry>,
    originals: FunctionAddresses,
    function: HookedFunction,
    base: u64,
)
    requires
        hooked_bases(entries).contains(base),
        originals.address(function) != 0,
    ensures
        nonzero_bases(entries).contains(base),
        restored_bases(entries, originals).contains(base),
    decreases entries.len(),
{
    if entries.len() > 0 {
        let hooked = hooked_bases(entries.drop_last());
        let walked = nonzero_bases(entries.drop_last());
        let last = entries.last().base;
        let i = choose|i: int| 0 <= i < hooked_bases(entries).len() && hooked_bases(entries)[i] == base;
        if i < hooked.len() {
            assert(hooked[i] == base);
            law_hooked_modules_are_restored(entries.drop_last(), originals, function, base);
            let j = choose|j: int| 0 <= j < walked.len() && walked[j] == base;
            assert(nonzero_bases(entries)[j] == base);
        } else {
            assert(last == base);
            assert(nonzero_bases(entries)[walked.len() as int] == base);
        }
    }
}

// ---- laws on what stands in memory ----

/// The headers of a module are read by place. The DOS header begins with `MZ` and says at 60, as a
/// number with a sign, how far the NT headers are from the module. Those begin with `PE`, are those
/// of a 64-bit image by the 0x020B at 24, and have an import directory if there is more than one
/// directory by the number at 132 and the one at 144 is not zero: that is how far it is from the
/// module.
pub proof fn law_headers_are_read_by_place(base: u64, dos: Seq<u8>, nt: Seq<u8>)
    ensures
        dos.len() < 64 ==> nt_headers_at(base, dos) is None,
        dos.len() >= 64 ==> {
            let far = dos[60] + 0x100 * dos[61] + 0x1_0000 * dos[62] + 0x100_0000 * dos[63];
            let far = if far < 0x8000_0000 { far } else { far - 0x1_0000_0000 };
            nt_headers_at(base, dos) == (if dos[0] == 0x4D && dos[1] == 0x5A {
                Some(((base + far) % 0x1_0000_0000_0000_0000) as u64)
            } else {
                None
            })
        },
        nt.len() < 148 ==> import_directory_at(base, nt) is None,
        nt.len() >= 148 ==> {
            let directories = nt[132] + 0x100 * nt[133] + 0x1_0000 * nt[134] + 0x100_0000 * nt[135];
            let far = nt[144] + 0x100 * nt[145] + 0x1_0000 * nt[146] + 0x100_0000 * nt[147];
            import_directory_at(base, nt) == (if nt[0] == 0x50 && nt[1] == 0x45 && nt[2] == 0 && nt[3] == 0
                && nt[24] == 0x0B && nt[25] == 0x02 && directories >= 2 && far != 0 {
                Some(((base + far) % 0x1_0000_0000_0000_0000) as u64)
            } else {
                None
            })
        },
{
}

/// A descriptor is read by place: where the imports are listed at 0, where the library's name is at
/// 12, and where the slots are at 16. One without name and slots is the last, and where the imports
/// are not listed apart they are listed in the slots.
pub proof fn law_descriptors_are_read_by_place(s: Seq<u8>)
    ensures
        ({
            let d = descriptor_of(s);
            let number = |i: int| s[i] + 0x100 * s[i + 1] + 0x1_0000 * s[i + 2] + 0x100_0000 * s[i + 3];
            &&& d.original_first_thunk == number(0)
            &&& d.name_rva == number(12)
            &&& d.first_thunk == number(16)
            &&& (d.is_last() <==> number(12) == 0 && number(16) == 0)
            &&& d.lookup_rva() == (if number(0) != 0 { number(0) } else { number(16) })
        }),
{
}

/// The two socket libraries are known by their names, in any case, and no other library is.
pub proof fn law_socket_libraries(name: Seq<u8>)
    ensures
        library_named(name) == Some(SocketLibrary::Wsock32) <==> text::lower(text::utf8_decoded(name))
            == "wsock32.dll"@,
        library_named(name) == Some(SocketLibrary::Ws2_32) <==> text::lower(text::utf8_decoded(name))
            == "ws2_32.dll"@,
{
    reveal_strlit("wsock32.dll");
    reveal_strlit("ws2_32.dll");
    assert("wsock32.dll"@.len() == 11 && "ws2_32.dll"@.len() == 10);
}

/// An import with its highest bit set is by ordinal, which its low 16 bits are: 18 is send, 15 is
/// recv and 111 is WSARecvEx. Other ordinals, and imports by name, are none of these.
pub proof fn law_ordinals(thunk: u64)
    ensures
        by_ordinal(thunk) <==> thunk >= 0x8000_0000_0000_0000,
        function_of_thunk(thunk) == Some(HookedFunction::Send) <==> thunk >= 0x8000_0000_0000_0000 && thunk
            as int % 0x1_0000 == 18,
        function_of_thunk(thunk) == Some(HookedFunction::Recv) <==> thunk >= 0x8000_0000_0000_0000 && thunk
            as int % 0x1_0000 == 15,
        function_of_thunk(thunk) == Some(HookedFunction::WsaRecvEx) <==> thunk >= 0x8000_0000_0000_0000
            && thunk as int % 0x1_0000 == 111,
        function_of_thunk(thunk) != Some(HookedFunction::WsaSend),
{
}

/// A function is WSASend exactly if its name is, letter for letter.
pub proof fn law_wsasend_is_known_by_its_name(name: Seq<u8>)
    ensures
        is_wsasend(name) <==> text::utf8_decoded(name) == "WSASend"@,
{
    let decoded = text::utf8_decoded(name);
    reveal_strlit("WSASend");
    let expected = "WSASend"@;
    assert(vstd::utf8::is_ascii_chars(expected));
    vstd::utf8::is_ascii_chars_encode_utf8(expected);
    assert(expected[0] as u8 == 0x57 && expected[1] as u8 == 0x53 && expected[2] as u8 == 0x41
        && expected[3] as u8 == 0x53 && expected[4] as u8 == 0x65 && expected[5] as u8 == 0x6E
        && expected[6] as u8 == 0x64);
    assert(vstd::utf8::encode_utf8(expected) =~= wsasend_name());
    vstd::utf8::encode_utf8_decode_utf8(expected);
    vstd::utf8::encode_utf8_decode_utf8(decoded);
}

/// Addresses are counted modulo 2^64. At most 4096 libraries and 4096 imports of each are looked at,
/// and names of at most 128 and 64 bytes are read.
pub proof fn law_limits(base: u64, offset: int)
    ensures
        0 <= base + offset < 0x1_0000_0000_0000_0000 ==> offset_by(base, offset) == base + offset,
        base + offset >= 0x1_0000_0000_0000_0000 && offset < 0x1_0000_0000_0000_0000 ==> offset_by(
            base,
            offset,
        ) == base + offset - 0x1_0000_0000_0000_0000,
        LONGEST_LIST == 4096,
        LONGEST_LIBRARY_NAME == 128,
        LONGEST_FUNCTION_NAME == 64,
{
}

/// What is written to a slot. A hook is put into every slot that holds an address other than it, and
/// that address is kept. A function is put back only into a slot that holds its hook, and only if an
/// address was kept; nothing is kept then.
pub proof fn law_slot_values(
    hooks: FunctionAddresses,
    originals: FunctionAddresses,
    function: HookedFunction,
    current: u64,
)
    ensures
        ({
            let install = Purpose::Install(hooks);
            let restore = Purpose::Restore { hooks, originals };
            let hook = hooks.address(function);
            let original = originals.address(function);
            &&& current != 0 && current != hook ==> new_value(install, function, current) == Some(hook)
                && kept_value(install, function, current) == Some((function, current))
            &&& current == 0 || current == hook ==> new_value(install, function, current) is None
            &&& current == hook && original != 0 ==> new_value(restore, function, current) == Some(original)
            &&& current != hook || original == 0 ==> new_value(restore, function, current) is None
            &&& kept_value(restore, function, current) is None
        }),
{
}

/// What an installation puts into a slot, a restoration with the kept address takes out again.
pub proof fn law_slot_is_given_back(
    hooks: FunctionAddresses,
    originals: FunctionAddresses,
    function: HookedFunction,
    current: u64,
)
    requires
        new_value(Purpose::Install(hooks), function, current) is Some,
        kept_value(Purpose::Install(hooks), function, current) == Some(
            (function, originals.address(function)),
        ),
    ensures
        new_value(
            Purpose::Restore { hooks, originals },
            function,
            new_value(Purpose::Install(hooks), function, current)->0,
        ) == Some(current),
{
}

/// Each function has an address of its own.
pub proof fn law_function_addresses(all: FunctionAddresses)
    ensures
        all.address(HookedFunction::Send) == all.send,
        all.address(HookedFunction::Recv) == all.recv,
        all.address(HookedFunction::WsaSend) == all.wsasend,
        all.address(HookedFunction::WsaRecvEx) == all.wsarecvex,
        all.are_none() <==> forall|function: HookedFunction| #[trigger] all.address(function) == 0,
{
    if forall|function: HookedFunction| #[trigger] all.address(function) == 0 {
        assert(all.address(HookedFunction::Send) == 0);
        assert(all.address(HookedFunction::Recv) == 0);
        assert(all.address(HookedFunction::WsaSend) == 0);
        assert(all.address(HookedFunction::WsaRecvEx) == 0);
    }
}

/// There is memory at an address that is not zero and for which the system knows a region that is
/// not empty, and only there.
pub proof fn law_where_memory_is(addr: u64, size: u64)
    ensures
        is_memory(addr, Some(size)) <==> addr != 0 && size != 0,
        !is_memory(addr, None),
{
}

// ---- laws on modules ----

/// Which modules are left alone: by their names in lower case, two socket libraries, the system core,
/// the hook itself, and all whose names begin with `api-ms-` or `ext-ms-`.
pub proof fn law_modules_left_alone(name: Seq<char>, rest: Seq<char>)
    ensures
        ({
            let lower = text::lower(name);
            &&& lower == "ws2_32.dll"@ || lower == "wsock32.dll"@ || lower == "ntdll.dll"@ || lower
                == "wiz_hook.dll"@ ==> is_skipped(name)
            &&& lower == "api-ms-"@ + rest || lower == "ext-ms-"@ + rest ==> is_skipped(name)
            &&& is_skipped(name) ==> {
                ||| lower == "ws2_32.dll"@
                ||| lower == "wsock32.dll"@
                ||| lower == "ntdll.dll"@
                ||| lower == "wiz_hook.dll"@
                ||| exists|end: Seq<char>| lower == #[trigger] ("api-ms-"@ + end)
                ||| exists|end: Seq<char>| lower == #[trigger] ("ext-ms-"@ + end)
            }
        }),
{
    let lower = text::lower(name);
    let (a, b) = ("api-ms-"@, "ext-ms-"@);
    if lower == a + rest {
        assert(lower.subrange(0, a.len() as int) =~= a);
    }
    if lower == b + rest {
        assert(lower.subrange(0, b.len() as int) =~= b);
    }
    if text::occurs_at(lower, a, 0) {
        assert(lower =~= a + lower.skip(a.len() as int));
    }
    if text::occurs_at(lower, b, 0) {
        assert(lower =~= b + lower.skip(b.len() as int));
    }
}

/// Hooks are put into the listed modules that have an address and are not left alone, in the order of
/// the list; where the modules cannot be listed, into the main module.
pub proof fn law_modules_to_hook(entries: Seq<ModuleEntry>, base: u64)
    ensures
        hooked_bases(entries) == entries.filter(
            |e: ModuleEntry| e.base != 0 && !is_skipped(text::utf16_decoded(text::until_nul(e.name_field@))),
        ).map_values(|e: ModuleEntry| e.base),
        base != 0 ==> bases_to_hook(ModuleList::OnlyMain { base }) == seq![base],
        base == 0 ==> bases_to_hook(ModuleList::OnlyMain { base }).len() == 0,
    decreases entries.len(),
{
    reveal(Seq::filter);
    let wanted = |e: ModuleEntry|
        e.base != 0 && !is_skipped(text::utf16_decoded(text::until_nul(e.name_field@)));
    let address = |e: ModuleEntry| e.base;
    if entries.len() > 0 {
        law_modules_to_hook(entries.drop_last(), base);
        let front = entries.drop_last().filter(wanted);
        if wanted(entries.last()) {
            assert(front.push(entries.last()).map_values(address) =~= front.map_values(address).push(
                entries.last().base,
            ));
        }
    } else {
        assert(entries.filter(wanted).map_values(address) =~= Seq::<u64>::empty());
    }
}

/// All listed modules that have an address are walked to put functions back, in the order of the
/// list, if the address of any function was kept, and none otherwise.
pub proof fn law_modules_to_restore(entries: Seq<ModuleEntry>, originals: FunctionAddresses)
    ensures
        originals.send == 0 && originals.recv == 0 && originals.wsasend == 0 && originals.wsarecvex == 0
            ==> restored_bases(entries, originals).len() == 0,
        originals.send != 0 || originals.recv != 0 || originals.wsasend != 0 || originals.wsarecvex != 0
            ==> restored_bases(entries, originals) == entries.filter(
            |e: ModuleEntry| e.base != 0,
        ).map_values(|e: ModuleEntry| e.base),
{
    lemma_nonzero_bases(entries);
}

proof fn lemma_nonzero_bases(entries: Seq<ModuleEntry>)
    ensures
        nonzero_bases(entries) == entries.filter(|e: ModuleEntry| e.base != 0).map_values(
            |e: ModuleEntry| e.base,
        ),
    decreases entries.len(),
{
    reveal(Seq::filter);
    let wanted = |e: ModuleEntry| e.base != 0;
    let address = |e: ModuleEntry| e.base;
    if entries.len() > 0 {
        lemma_nonzero_bases(entries.drop_last());
        let front = entries.drop_last().filter(wanted);
        if wanted(entries.last()) {
            assert(front.push(entries.last()).map_values(address) =~= front.map_values(address).push(
                entries.last().base,
            ));
        }
    } else {
        assert(entries.filter(wanted).map_values(address) =~= Seq::<u64>::empty());
    }
}

} // verus!
