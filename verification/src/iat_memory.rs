//! What a walk through the imports of a module does to the memory of the process.
//!
//! The walk in `iat` asks for one thing at a time. Here stands what it comes to over a whole
//! memory: which slots are patched, which addresses are kept, and what a second walk finds.

use vstd::prelude::*;
use crate::bytes;
use crate::iat;
use crate::iat::{
    FunctionAddresses, HookedFunction, ImportDescriptor, Purpose, SocketLibrary, Stage, WalkAction,
    WalkReplyView, WalkView, LONGEST_FUNCTION_NAME, LONGEST_LIBRARY_NAME, LONGEST_LIST,
};

verus! {

broadcast use bytes::group_le_bytes_len;

// ---- memory ----

/// The memory of a process.
#[verifier::ext_equal]
pub struct ProcessMemory {
    /// Where there is memory.
    pub there: spec_fn(u64) -> bool,
    /// Which slots can be made writable.
    pub writable: spec_fn(u64) -> bool,
    /// The byte at each address.
    pub byte: spec_fn(u64) -> u8,
}

/// How far `to` is behind `from`, modulo 2^64.
pub open spec fn distance(from: u64, to: u64) -> int {
    (to - from) % 0x1_0000_0000_0000_0000
}

/// Whether the byte at `addr` is one of the eight of a slot.
pub open spec fn covers(slot: u64, addr: u64) -> bool {
    distance(slot, addr) < 8
}

impl ProcessMemory {
    /// The bytes at an address.
    pub open spec fn load(self, addr: u64, len: int) -> Seq<u8> {
        Seq::new(len as nat, |i: int| (self.byte)(iat::offset_by(addr, i)))
    }

    /// The 64-bit number at an address.
    pub open spec fn number(self, addr: u64) -> u64 {
        bytes::le64(self.load(addr, 8), 0) as u64
    }

    /// The memory with a number written to a slot.
    pub open spec fn with(self, slot: u64, value: u64) -> ProcessMemory {
        ProcessMemory {
            byte: |addr: u64|
                if covers(slot, addr) {
                    bytes::le64_bytes(value)[distance(slot, addr)]
                } else {
                    (self.byte)(addr)
                },
            ..self
        }
    }

    /// The text at an address, up to a zero byte, to where memory ends, or to `max` bytes.
    pub open spec fn c_string(self, addr: u64, max: nat) -> Seq<u8>
        decreases max,
    {
        if max == 0 || !(self.there)(addr) || (self.byte)(addr) == 0 {
            Seq::empty()
        } else {
            seq![(self.byte)(addr)] + self.c_string(iat::offset_by(addr, 1), (max - 1) as nat)
        }
    }
}

// ---- a walk over memory ----

/// How far hooking is: the memory, the addresses that were kept, and how many slots were
/// patched.
#[verifier::ext_equal]
pub struct Progress {
    pub memory: ProcessMemory,
    pub kept: FunctionAddresses,
    pub patched: nat,
}

/// The addresses with another one for one function.
pub open spec fn with_address(all: FunctionAddresses, function: HookedFunction, addr: u64) -> FunctionAddresses {
    match function {
        HookedFunction::Send => FunctionAddresses { send: addr, ..all },
        HookedFunction::Recv => FunctionAddresses { recv: addr, ..all },
        HookedFunction::WsaSend => FunctionAddresses { wsasend: addr, ..all },
        HookedFunction::WsaRecvEx => FunctionAddresses { wsarecvex: addr, ..all },
    }
}

impl Progress {
    /// A slot is patched, if it can be written.
    pub open spec fn patch(self, slot: u64, value: u64, keep: Option<(HookedFunction, u64)>) -> Progress {
        let kept = match keep {
            Some((function, addr)) => with_address(self.kept, function, addr),
            None => self.kept,
        };
        if (self.memory.writable)(slot) {
            Progress { memory: self.memory.with(slot, value), kept, patched: self.patched + 1 }
        } else {
            Progress { kept, ..self }
        }
    }

    /// An import of one of the hooked functions is met.
    pub open spec fn visit(self, purpose: Purpose, function: HookedFunction, slot: u64) -> Progress {
        let current = self.memory.number(slot);
        match iat::new_value(purpose, function, current) {
            Some(value) => self.patch(slot, value, iat::kept_value(purpose, function, current)),
            None => self,
        }
    }
}

/// The hooked function that a thunk in the imports of a library names. For a named import, the
/// number in front of the name has to be in memory too when hooks are put in.
pub open spec fn imported_function(
    memory: ProcessMemory,
    base: u64,
    library: SocketLibrary,
    thunk: u64,
    installing: bool,
) -> Option<HookedFunction> {
    if library == SocketLibrary::Wsock32 {
        iat::function_of_thunk(thunk)
    } else if iat::by_ordinal(thunk) {
        None
    } else {
        let hint = iat::offset_by(base, thunk as int % 0x8000_0000);
        let name_at = iat::offset_by(hint, 2);
        if (installing ==> (memory.there)(hint)) && (memory.there)(name_at) && iat::is_wsasend(
            memory.c_string(name_at, LONGEST_FUNCTION_NAME as nat),
        ) {
            Some(HookedFunction::WsaSend)
        } else {
            None
        }
    }
}

/// The imports of a library are gone through, at most `n` of them.
pub open spec fn over_imports(
    p: Progress,
    base: u64,
    purpose: Purpose,
    library: SocketLibrary,
    lookup: u64,
    slot: u64,
    n: nat,
) -> Progress
    decreases n,
{
    let thunk = p.memory.number(lookup);
    if n == 0 || !(p.memory.there)(lookup) || !(p.memory.there)(slot) || thunk == 0 {
        p
    } else {
        let q = match imported_function(p.memory, base, library, thunk, purpose is Install) {
            Some(function) => p.visit(purpose, function, slot),
            None => p,
        };
        over_imports(
            q,
            base,
            purpose,
            library,
            iat::offset_by(lookup, 8),
            iat::offset_by(slot, 8),
            (n - 1) as nat,
        )
    }
}

/// The imports of the library of this name are gone through, if it is a socket library.
pub open spec fn over_named_library(
    p: Progress,
    base: u64,
    purpose: Purpose,
    descriptor: ImportDescriptor,
    name: Seq<u8>,
) -> Progress {
    match iat::library_named(name) {
        Some(library) => over_imports(
            p,
            base,
            purpose,
            library,
            iat::offset_by(base, descriptor.lookup_rva() as int),
            iat::offset_by(base, descriptor.first_thunk as int),
            LONGEST_LIST as nat,
        ),
        None => p,
    }
}

/// The library of a descriptor is gone through.
pub open spec fn over_library(
    p: Progress,
    base: u64,
    purpose: Purpose,
    descriptor: ImportDescriptor,
) -> Progress {
    let name_at = iat::offset_by(base, descriptor.name_rva as int);
    if (p.memory.there)(name_at) {
        over_named_library(
            p,
            base,
            purpose,
            descriptor,
            p.memory.c_string(name_at, LONGEST_LIBRARY_NAME as nat),
        )
    } else {
        p
    }
}

/// The libraries of an import directory are gone through, at most `n` of them.
pub open spec fn over_libraries(p: Progress, base: u64, purpose: Purpose, at: u64, n: nat) -> Progress
    decreases n,
{
    let descriptor = iat::descriptor_of(p.memory.load(at, 20));
    if n == 0 || !(p.memory.there)(at) || descriptor.is_last() {
        p
    } else {
        over_libraries(
            over_library(p, base, purpose, descriptor),
            base,
            purpose,
            iat::offset_by(at, 20),
            (n - 1) as nat,
        )
    }
}

/// Where the import directory of the module at `base` is, if there is a module that has one.
pub open spec fn directory_of(memory: ProcessMemory, base: u64) -> Option<u64> {
    if !(memory.there)(base) {
        None
    } else {
        match iat::nt_headers_at(base, memory.load(base, 64)) {
            Some(nt) if (memory.there)(nt) => iat::import_directory_at(base, memory.load(nt, 148)),
            _ => None,
        }
    }
}

/// What a walk through the imports of the module at `base` comes to.
pub open spec fn walk_over(p: Progress, base: u64, purpose: Purpose) -> Progress {
    match directory_of(p.memory, base) {
        Some(at) => over_libraries(p, base, purpose, at, LONGEST_LIST as nat),
        None => p,
    }
}

// ---- the walk, step by step, over memory ----

/// What a process with this memory answers, and what that makes of it.
pub open spec fn answer(p: Progress, action: WalkAction) -> (Progress, WalkReplyView) {
    match action {
        WalkAction::Probe { addr } => (p, WalkReplyView::Probed((p.memory.there)(addr))),
        WalkAction::Load { addr, len } => (p, WalkReplyView::Loaded(p.memory.load(addr, len as int))),
        WalkAction::Patch { slot, value, keep } => (
            p.patch(slot, value, keep),
            WalkReplyView::Patched((p.memory.writable)(slot)),
        ),
        WalkAction::Finish => (p, WalkReplyView::Patched(false)),
    }
}

/// Whether a walk that stands where `w` does has asked for this.
pub open spec fn asks(w: WalkView, action: WalkAction) -> bool {
    let next_byte = iat::offset_by(w.name_at, w.name.len() as int);
    match w.stage {
        Stage::DosProbe => action == (WalkAction::Probe { addr: w.base }),
        Stage::DosLoad => action == (WalkAction::Load { addr: w.base, len: 64 }),
        Stage::NtProbe => action == (WalkAction::Probe { addr: w.at }),
        Stage::NtLoad => action == (WalkAction::Load { addr: w.at, len: 148 }),
        Stage::DescriptorProbe => action == (WalkAction::Probe { addr: w.at }),
        Stage::DescriptorLoad => action == (WalkAction::Load { addr: w.at, len: 20 }),
        Stage::LibraryProbe => {
            &&& action == (WalkAction::Probe { addr: w.name_at })
            &&& w.name_at == iat::offset_by(w.base, w.descriptor.name_rva as int)
        },
        Stage::LibraryByteProbe => action == (WalkAction::Probe { addr: next_byte }),
        Stage::LibraryByteLoad => action == (WalkAction::Load { addr: next_byte, len: 1 }),
        Stage::LookupProbe => action == (WalkAction::Probe { addr: w.lookup }),
        Stage::SlotProbe => action == (WalkAction::Probe { addr: w.slot }),
        Stage::ThunkLoad => action == (WalkAction::Load { addr: w.lookup, len: 8 }),
        Stage::HintProbe => action matches WalkAction::Probe { addr } && w.name_at == iat::offset_by(
            addr,
            2,
        ),
        Stage::NameProbe => action == (WalkAction::Probe { addr: w.name_at }),
        Stage::NameByteProbe => action == (WalkAction::Probe { addr: next_byte }),
        Stage::NameByteLoad => action == (WalkAction::Load { addr: next_byte, len: 1 }),
        Stage::SlotLoad => action == (WalkAction::Load { addr: w.slot, len: 8 }),
        Stage::Patching => action matches WalkAction::Patch { slot, .. } && slot == w.slot,
        Stage::Done => action == WalkAction::Finish,
    }
}

/// What is left to go through behind the library that a walk looks at.
spec fn behind_library(w: WalkView, p: Progress) -> Progress {
    over_libraries(
        p,
        w.base,
        w.purpose,
        iat::offset_by(w.at, 20),
        (w.descriptors_left - 1) as nat,
    )
}

/// What is left to go through from the import on that a walk looks at.
spec fn from_import(w: WalkView, p: Progress) -> Progress {
    behind_library(
        w,
        over_imports(p, w.base, w.purpose, w.library, w.lookup, w.slot, w.imports_left as nat),
    )
}

/// What is left to go through behind the import that a walk looks at.
spec fn behind_import(w: WalkView, p: Progress) -> Progress {
    behind_library(
        w,
        over_imports(
            p,
            w.base,
            w.purpose,
            w.library,
            iat::offset_by(w.lookup, 8),
            iat::offset_by(w.slot, 8),
            (w.imports_left - 1) as nat,
        ),
    )
}

/// The import that a walk looks at is one of this function, or of none.
spec fn with_import(w: WalkView, p: Progress, function: Option<HookedFunction>) -> Progress {
    match function {
        Some(f) => behind_import(w, p.visit(w.purpose, f, w.slot)),
        None => behind_import(w, p),
    }
}

/// The library that a walk looks at has this name.
spec fn with_library(w: WalkView, p: Progress, name: Seq<u8>) -> Progress {
    behind_library(w, over_named_library(p, w.base, w.purpose, w.descriptor, name))
}

/// The import that a walk looks at has this name.
spec fn with_name(w: WalkView, p: Progress, name: Seq<u8>) -> Progress {
    with_import(
        w,
        p,
        if iat::is_wsasend(name) {
            Some(HookedFunction::WsaSend)
        } else {
            None
        },
    )
}

/// What a name of at most `max` bytes comes to of which the walk has read some.
spec fn whole_name(w: WalkView, memory: ProcessMemory, max: int) -> Seq<u8> {
    w.name + memory.c_string(
        iat::offset_by(w.name_at, w.name.len() as int),
        (max - w.name.len()) as nat,
    )
}

/// What a name of at most `max` bytes comes to whose next byte is there.
spec fn name_with_byte(w: WalkView, memory: ProcessMemory, max: int) -> Seq<u8> {
    let at = iat::offset_by(w.name_at, w.name.len() as int);
    if (memory.byte)(at) == 0 {
        w.name
    } else {
        w.name.push((memory.byte)(at)) + memory.c_string(
            iat::offset_by(at, 1),
            (max - w.name.len() - 1) as nat,
        )
    }
}

/// What a walk that has asked for something comes to, `p` being how things are once that is
/// done.
spec fn outcome(w: WalkView, p: Progress) -> Progress {
    match w.stage {
        Stage::DosProbe => walk_over(p, w.base, w.purpose),
        Stage::DosLoad => match iat::nt_headers_at(w.base, p.memory.load(w.base, 64)) {
            Some(nt) if (p.memory.there)(nt) => match iat::import_directory_at(
                w.base,
                p.memory.load(nt, 148),
            ) {
                Some(at) => over_libraries(p, w.base, w.purpose, at, LONGEST_LIST as nat),
                None => p,
            },
            _ => p,
        },
        Stage::NtProbe => match iat::import_directory_at(w.base, p.memory.load(w.at, 148)) {
            Some(at) if (p.memory.there)(w.at) => over_libraries(
                p,
                w.base,
                w.purpose,
                at,
                LONGEST_LIST as nat,
            ),
            _ => p,
        },
        Stage::NtLoad => match iat::import_directory_at(w.base, p.memory.load(w.at, 148)) {
            Some(at) => over_libraries(p, w.base, w.purpose, at, LONGEST_LIST as nat),
            None => p,
        },
        Stage::DescriptorProbe => over_libraries(
            p,
            w.base,
            w.purpose,
            w.at,
            w.descriptors_left as nat,
        ),
        Stage::DescriptorLoad => {
            let descriptor = iat::descriptor_of(p.memory.load(w.at, 20));
            if descriptor.is_last() {
                p
            } else {
                behind_library(w, over_library(p, w.base, w.purpose, descriptor))
            }
        },
        Stage::LibraryProbe => behind_library(w, over_library(p, w.base, w.purpose, w.descriptor)),
        Stage::LibraryByteProbe => with_library(
            w,
            p,
            whole_name(w, p.memory, LONGEST_LIBRARY_NAME as int),
        ),
        Stage::LibraryByteLoad => with_library(
            w,
            p,
            name_with_byte(w, p.memory, LONGEST_LIBRARY_NAME as int),
        ),
        Stage::LookupProbe => from_import(w, p),
        Stage::SlotProbe => if (p.memory.there)(w.slot) {
            thunk_outcome(w, p)
        } else {
            behind_library(w, p)
        },
        Stage::ThunkLoad => thunk_outcome(w, p),
        Stage::HintProbe => with_import(
            w,
            p,
            if (p.memory.there)(iat::offset_by(w.name_at, -2)) && (p.memory.there)(w.name_at)
                && iat::is_wsasend(p.memory.c_string(w.name_at, LONGEST_FUNCTION_NAME as nat)) {
                Some(HookedFunction::WsaSend)
            } else {
                None
            },
        ),
        Stage::NameProbe => if (p.memory.there)(w.name_at) {
            with_name(w, p, p.memory.c_string(w.name_at, LONGEST_FUNCTION_NAME as nat))
        } else {
            behind_import(w, p)
        },
        Stage::NameByteProbe => with_name(w, p, whole_name(w, p.memory, LONGEST_FUNCTION_NAME as int)),
        Stage::NameByteLoad => with_name(
            w,
            p,
            name_with_byte(w, p.memory, LONGEST_FUNCTION_NAME as int),
        ),
        Stage::SlotLoad => with_import(w, p, Some(w.function)),
        Stage::Patching => behind_import(w, p),
        Stage::Done => p,
    }
}

/// What a walk comes to that has asked for the import's thunk.
spec fn thunk_outcome(w: WalkView, p: Progress) -> Progress {
    let thunk = p.memory.number(w.lookup);
    if thunk == 0 {
        behind_library(w, p)
    } else {
        with_import(
            w,
            p,
            imported_function(p.memory, w.base, w.library, thunk, w.purpose is Install),
        )
    }
}

/// Whether a walk that goes on like this comes to `end`.
spec fn comes_to(next: (WalkView, WalkAction), p: Progress, end: Progress) -> bool {
    asks(next.0, next.1) && outcome(next.0, answer(p, next.1).0) == end
}

proof fn lemma_this_descriptor(w: WalkView, p: Progress)
    ensures
        comes_to(
            w.this_descriptor(),
            p,
            over_libraries(p, w.base, w.purpose, w.at, w.descriptors_left as nat),
        ),
{
}

proof fn lemma_next_descriptor(w: WalkView, p: Progress)
    requires
        w.descriptors_left > 0,
    ensures
        comes_to(w.next_descriptor(), p, behind_library(w, p)),
{
    lemma_this_descriptor(
        WalkView {
            at: iat::offset_by(w.at, 20),
            descriptors_left: (w.descriptors_left - 1) as u32,
            ..w
        },
        p,
    );
}

proof fn lemma_this_import(w: WalkView, p: Progress)
    requires
        w.descriptors_left > 0,
    ensures
        comes_to(w.this_import(), p, from_import(w, p)),
{
    lemma_next_descriptor(w, p);
}

proof fn lemma_next_import(w: WalkView, p: Progress)
    requires
        w.descriptors_left > 0,
        w.imports_left > 0,
    ensures
        comes_to(w.next_import(), p, behind_import(w, p)),
{
    lemma_this_import(
        WalkView {
            lookup: iat::offset_by(w.lookup, 8),
            slot: iat::offset_by(w.slot, 8),
            imports_left: (w.imports_left - 1) as u32,
            ..w
        },
        p,
    );
}

proof fn lemma_library_read(w: WalkView, p: Progress)
    requires
        w.descriptors_left > 0,
    ensures
        comes_to(w.library_read(), p, with_library(w, p, w.name)),
{
    match iat::library_named(w.name) {
        Some(library) => lemma_this_import(
            WalkView {
                library,
                lookup: iat::offset_by(w.base, w.descriptor.lookup_rva() as int),
                slot: iat::offset_by(w.base, w.descriptor.first_thunk as int),
                imports_left: LONGEST_LIST,
                ..w
            },
            p,
        ),
        None => lemma_next_descriptor(w, p),
    }
}

proof fn lemma_library_byte(w: WalkView, p: Progress)
    requires
        w.descriptors_left > 0,
        w.name.len() <= LONGEST_LIBRARY_NAME,
    ensures
        comes_to(
            w.library_byte(),
            p,
            with_library(w, p, whole_name(w, p.memory, LONGEST_LIBRARY_NAME as int)),
        ),
{
    if w.name.len() == LONGEST_LIBRARY_NAME {
        assert(whole_name(w, p.memory, LONGEST_LIBRARY_NAME as int) =~= w.name);
        lemma_library_read(w, p);
    }
}

proof fn lemma_function_read(w: WalkView, p: Progress)
    requires
        w.descriptors_left > 0,
        w.imports_left > 0,
    ensures
        comes_to(w.function_read(), p, with_name(w, p, w.name)),
{
    lemma_next_import(w, p);
}

proof fn lemma_function_byte(w: WalkView, p: Progress)
    requires
        w.descriptors_left > 0,
        w.imports_left > 0,
        w.name.len() <= LONGEST_FUNCTION_NAME,
    ensures
        comes_to(
            w.function_byte(),
            p,
            with_name(w, p, whole_name(w, p.memory, LONGEST_FUNCTION_NAME as int)),
        ),
{
    if w.name.len() == LONGEST_FUNCTION_NAME {
        assert(whole_name(w, p.memory, LONGEST_FUNCTION_NAME as int) =~= w.name);
        lemma_function_read(w, p);
    }
}

proof fn lemma_offsets(base: u64, a: int, b: int)
    ensures
        iat::offset_by(iat::offset_by(base, a), b) == iat::offset_by(base, a + b),
        iat::offset_by(base, 0) == base,
{
}

/// The whole name, once it is known whether its next byte is there.
proof fn lemma_name_probed(w: WalkView, memory: ProcessMemory, max: int)
    requires
        w.name.len() < max,
    ensures
        ({
            let at = iat::offset_by(w.name_at, w.name.len() as int);
            whole_name(w, memory, max) == (if (memory.there)(at) {
                name_with_byte(w, memory, max)
            } else {
                w.name
            })
        }),
{
    let at = iat::offset_by(w.name_at, w.name.len() as int);
    let rest = memory.c_string(iat::offset_by(at, 1), (max - w.name.len() - 1) as nat);
    assert(w.name + Seq::<u8>::empty() =~= w.name);
    assert(w.name + (seq![(memory.byte)(at)] + rest) =~= w.name.push((memory.byte)(at)) + rest);
}

/// The whole name, once its next byte was read.
proof fn lemma_name_read(w: WalkView, memory: ProcessMemory, max: int)
    requires
        w.name.len() < max,
    ensures
        ({
            let at = iat::offset_by(w.name_at, w.name.len() as int);
            let longer = WalkView { name: w.name.push((memory.byte)(at)), ..w };
            (memory.byte)(at) != 0 ==> name_with_byte(w, memory, max) == whole_name(longer, memory, max)
        }),
{
    lemma_offsets(w.name_at, w.name.len() as int, 1);
}

#[verifier::rlimit(30)]
proof fn lemma_probe_answered(w: WalkView, action: WalkAction, p: Progress)
    requires
        w.wf(),
        asks(w, action),
        action is Probe,
    ensures
        comes_to(w.step(answer(p, action).1), p, outcome(w, p)),
{
    if w.in_descriptor() {
        lemma_next_descriptor(w, p);
    }
    if w.in_imports() {
        lemma_next_import(w, p);
    }
    match w.stage {
        Stage::LibraryProbe => {
            let named = WalkView { name: Seq::empty(), ..w };
            lemma_offsets(w.name_at, 0, 0);
            assert(whole_name(named, p.memory, LONGEST_LIBRARY_NAME as int) =~= p.memory.c_string(
                w.name_at,
                LONGEST_LIBRARY_NAME as nat,
            ));
            lemma_library_byte(named, p);
        },
        Stage::LibraryByteProbe => {
            lemma_name_probed(w, p.memory, LONGEST_LIBRARY_NAME as int);
            lemma_library_read(w, p);
        },
        Stage::HintProbe => {
            let hint = action->Probe_addr;
            lemma_offsets(hint, 2, -2);
            lemma_offsets(hint, 0, 0);
        },
        Stage::NameProbe => {
            let named = WalkView { name: Seq::empty(), ..w };
            lemma_offsets(w.name_at, 0, 0);
            assert(whole_name(named, p.memory, LONGEST_FUNCTION_NAME as int) =~= p.memory.c_string(
                w.name_at,
                LONGEST_FUNCTION_NAME as nat,
            ));
            lemma_function_byte(named, p);
        },
        Stage::NameByteProbe => {
            lemma_name_probed(w, p.memory, LONGEST_FUNCTION_NAME as int);
            lemma_function_read(w, p);
        },
        _ => {},
    }
}

#[verifier::rlimit(30)]
proof fn lemma_load_answered(w: WalkView, action: WalkAction, p: Progress)
    requires
        w.wf(),
        asks(w, action),
        action is Load,
    ensures
        comes_to(w.step(answer(p, action).1), p, outcome(w, p)),
{
    if w.in_imports() {
        lemma_next_import(w, p);
        lemma_next_descriptor(w, p);
    }
    match w.stage {
        Stage::NtLoad => match iat::import_directory_at(w.base, p.memory.load(w.at, 148)) {
            Some(at) => lemma_this_descriptor(
                WalkView { at, descriptors_left: LONGEST_LIST, ..w },
                p,
            ),
            None => {},
        },
        Stage::LibraryByteLoad => {
            let at = iat::offset_by(w.name_at, w.name.len() as int);
            lemma_offsets(at, 0, 0);
            lemma_name_read(w, p.memory, LONGEST_LIBRARY_NAME as int);
            lemma_library_read(w, p);
            lemma_library_byte(WalkView { name: w.name.push((p.memory.byte)(at)), ..w }, p);
        },
        Stage::ThunkLoad => {
            let thunk = p.memory.number(w.lookup);
            let hint = iat::offset_by(w.base, thunk as int % 0x8000_0000);
            lemma_offsets(hint, 2, -2);
            lemma_offsets(hint, 0, 0);
        },
        Stage::NameByteLoad => {
            let at = iat::offset_by(w.name_at, w.name.len() as int);
            lemma_offsets(at, 0, 0);
            lemma_name_read(w, p.memory, LONGEST_FUNCTION_NAME as int);
            lemma_function_read(w, p);
            lemma_function_byte(WalkView { name: w.name.push((p.memory.byte)(at)), ..w }, p);
        },
        _ => {},
    }
}

proof fn lemma_patch_answered(w: WalkView, action: WalkAction, p: Progress)
    requires
        w.wf(),
        asks(w, action),
        action is Patch,
    ensures
        comes_to(
            w.step(answer(p, action).1),
            answer(p, action).0,
            outcome(w, answer(p, action).0),
        ),
{
    let done = (p.memory.writable)(action->slot);
    lemma_next_import(
        WalkView {
            patched: if done { ((w.patched + 1) % 0x1_0000_0000) as u32 } else { w.patched },
            ..w
        },
        answer(p, action).0,
    );
}

proof fn lemma_library_patches_nothing(w: WalkView)
    ensures
        w.next_descriptor().0.patched == w.patched,
        w.library_read().0.patched == w.patched,
        w.library_byte().0.patched == w.patched,
{
}

proof fn lemma_import_patches_nothing(w: WalkView)
    ensures
        w.next_import().0.patched == w.patched,
        w.function_read().0.patched == w.patched,
        w.function_byte().0.patched == w.patched,
{
}

proof fn lemma_probe_patches_nothing(w: WalkView, there: bool)
    ensures
        w.after_probe(there).0.patched == w.patched,
{
    let named = WalkView { name: Seq::empty(), ..w };
    lemma_library_patches_nothing(w);
    lemma_library_patches_nothing(named);
    lemma_import_patches_nothing(w);
    lemma_import_patches_nothing(named);
}

proof fn lemma_load_patches_nothing(w: WalkView, data: Seq<u8>)
    ensures
        w.after_load(data).0.patched == w.patched,
{
    let longer = WalkView { name: w.name.push(data[0]), ..w };
    lemma_library_patches_nothing(w);
    lemma_library_patches_nothing(longer);
    lemma_import_patches_nothing(w);
    lemma_import_patches_nothing(longer);
}

proof fn lemma_patched_counts(w: WalkView, action: WalkAction, p: Progress)
    requires
        w.stage != Stage::Done,
        asks(w, action),
        w.patched == p.patched % 0x1_0000_0000,
    ensures
        w.step(answer(p, action).1).0.patched == answer(p, action).0.patched % 0x1_0000_0000,
{
    match answer(p, action).1 {
        WalkReplyView::Probed(there) => lemma_probe_patches_nothing(w, there),
        WalkReplyView::Loaded(data) => lemma_load_patches_nothing(w, data),
        WalkReplyView::Patched(done) => {
            let counted = WalkView {
                patched: if done { ((w.patched + 1) % 0x1_0000_0000) as u32 } else { w.patched },
                ..w
            };
            assert(counted.next_import().0.patched == counted.patched);
        },
    }
}

/// What a walk that has asked for `action` comes to while a process answers: how things are at
/// the end, and how many slots the walk has counted.
#[verifier::opaque]
pub open spec fn run(w: WalkView, action: WalkAction, p: Progress) -> (Progress, u32)
    decreases w.left(),
    when w.wf() && asks(w, action)
{
    if w.stage == Stage::Done {
        (p, w.patched)
    } else {
        let (q, reply) = answer(p, action);
        let (next, asked) = w.step(reply);
        proof {
            iat::law_walk_ends_and_patches_only_matches(w, reply);
        }
        run(next, asked, q)
    }
}

proof fn lemma_run(w: WalkView, action: WalkAction, p: Progress)
    requires
        w.wf(),
        asks(w, action),
        w.patched == p.patched % 0x1_0000_0000,
    ensures
        run(w, action, p).0 == outcome(w, answer(p, action).0),
        run(w, action, p).1 == run(w, action, p).0.patched % 0x1_0000_0000,
    decreases w.left(),
{
    reveal(run);
    if w.stage != Stage::Done {
        let (q, reply) = answer(p, action);
        let (next, asked) = w.step(reply);
        iat::law_walk_ends_and_patches_only_matches(w, reply);
        lemma_patched_counts(w, action, p);
        match action {
            WalkAction::Probe { .. } => lemma_probe_answered(w, action, p),
            WalkAction::Load { .. } => lemma_load_answered(w, action, p),
            WalkAction::Patch { .. } => lemma_patch_answered(w, action, p),
            WalkAction::Finish => {},
        }
        lemma_run(next, asked, q);
    }
}

proof fn lemma_begun(w: WalkView, p: Progress)
    requires
        w.wf(),
        w.stage == Stage::DosProbe,
        w.patched == 0,
        p.patched == 0,
    ensures
        ({
            let (ended, count) = run(w, WalkAction::Probe { addr: w.base }, p);
            &&& ended == walk_over(p, w.base, w.purpose)
            &&& count == ended.patched % 0x1_0000_0000
        }),
{
    lemma_run(w, WalkAction::Probe { addr: w.base }, p);
    assert(outcome(w, p) == walk_over(p, w.base, w.purpose));
}

proof fn lemma_imports_counted(
    p: Progress,
    base: u64,
    purpose: Purpose,
    library: SocketLibrary,
    lookup: u64,
    slot: u64,
    n: nat,
)
    ensures
        over_imports(p, base, purpose, library, lookup, slot, n).patched <= p.patched + n,
    decreases n,
{
    let thunk = p.memory.number(lookup);
    if n > 0 {
        let q = match imported_function(p.memory, base, library, thunk, purpose is Install) {
            Some(function) => p.visit(purpose, function, slot),
            None => p,
        };
        lemma_imports_counted(
            q,
            base,
            purpose,
            library,
            iat::offset_by(lookup, 8),
            iat::offset_by(slot, 8),
            (n - 1) as nat,
        );
    }
}

proof fn lemma_libraries_counted(p: Progress, base: u64, purpose: Purpose, at: u64, n: nat)
    ensures
        over_libraries(p, base, purpose, at, n).patched <= p.patched + 4096 * n,
    decreases n,
{
    let d = iat::descriptor_of(p.memory.load(at, 20));
    let name_at = iat::offset_by(base, d.name_rva as int);
    if n > 0 {
        match iat::library_named(p.memory.c_string(name_at, LONGEST_LIBRARY_NAME as nat)) {
            Some(library) => lemma_imports_counted(
                p,
                base,
                purpose,
                library,
                iat::offset_by(base, d.lookup_rva() as int),
                iat::offset_by(base, d.first_thunk as int),
                LONGEST_LIST as nat,
            ),
            None => {},
        }
        lemma_libraries_counted(
            over_library(p, base, purpose, d),
            base,
            purpose,
            iat::offset_by(at, 20),
            (n - 1) as nat,
        );
    }
}

proof fn lemma_walk_counted(p: Progress, base: u64, purpose: Purpose)
    ensures
        walk_over(p, base, purpose).patched <= p.patched + 0x100_0000,
{
    match directory_of(p.memory, base) {
        Some(at) => lemma_libraries_counted(p, base, purpose, at, LONGEST_LIST as nat),
        None => {},
    }
}

proof fn lemma_small_count(n: nat)
    requires
        n <= 0x100_0000,
    ensures
        n % 0x1_0000_0000 == n,
{
}

/// A walk that has just begun does to the memory of a process, step by step, what `walk_over`
/// says of the whole, and it counts the slots that were patched.
pub proof fn law_walk_does_what_walk_over_says(w: WalkView, p: Progress)
    requires
        w.wf(),
        w.stage == Stage::DosProbe,
        w.patched == 0,
        p.patched == 0,
    ensures
        ({
            let (ended, counted) = run(w, WalkAction::Probe { addr: w.base }, p);
            &&& ended == walk_over(p, w.base, w.purpose)
            &&& counted == ended.patched
        }),
{
    lemma_begun(w, p);
    lemma_walk_counted(p, w.base, w.purpose);
    lemma_small_count(walk_over(p, w.base, w.purpose).patched);
}

// ---- the imports that a module lists ----

/// An import of one of the hooked functions: the function, and where its address stands.
pub struct Import {
    pub function: HookedFunction,
    pub slot: u64,
}

/// The hooked functions among the imports of a library, of which at most `n` are looked at.
pub open spec fn imports_in(
    memory: ProcessMemory,
    base: u64,
    library: SocketLibrary,
    lookup: u64,
    slot: u64,
    n: nat,
    installing: bool,
) -> Seq<Import>
    decreases n,
{
    let thunk = memory.number(lookup);
    if n == 0 || !(memory.there)(lookup) || !(memory.there)(slot) || thunk == 0 {
        Seq::empty()
    } else {
        let rest = imports_in(
            memory,
            base,
            library,
            iat::offset_by(lookup, 8),
            iat::offset_by(slot, 8),
            (n - 1) as nat,
            installing,
        );
        match imported_function(memory, base, library, thunk, installing) {
            Some(function) => seq![Import { function, slot }] + rest,
            None => rest,
        }
    }
}

/// The hooked functions among the imports of a descriptor's library.
pub open spec fn imports_of(
    memory: ProcessMemory,
    base: u64,
    descriptor: ImportDescriptor,
    installing: bool,
) -> Seq<Import> {
    let name_at = iat::offset_by(base, descriptor.name_rva as int);
    match iat::library_named(memory.c_string(name_at, LONGEST_LIBRARY_NAME as nat)) {
        Some(library) if (memory.there)(name_at) => imports_in(
            memory,
            base,
            library,
            iat::offset_by(base, descriptor.lookup_rva() as int),
            iat::offset_by(base, descriptor.first_thunk as int),
            LONGEST_LIST as nat,
            installing,
        ),
        _ => Seq::empty(),
    }
}

/// The hooked functions among the imports of a directory, of whose libraries at most `n` are
/// looked at.
pub open spec fn imports_from(
    memory: ProcessMemory,
    base: u64,
    at: u64,
    n: nat,
    installing: bool,
) -> Seq<Import>
    decreases n,
{
    let descriptor = iat::descriptor_of(memory.load(at, 20));
    if n == 0 || !(memory.there)(at) || descriptor.is_last() {
        Seq::empty()
    } else {
        imports_of(memory, base, descriptor, installing) + imports_from(
            memory,
            base,
            iat::offset_by(at, 20),
            (n - 1) as nat,
            installing,
        )
    }
}

/// The hooked functions that the module at `base` imports, in the order of their slots'
/// libraries. Putting functions back asks less of a named import than putting hooks in does.
pub open spec fn listed(memory: ProcessMemory, base: u64, installing: bool) -> Seq<Import> {
    match directory_of(memory, base) {
        Some(at) => imports_from(memory, base, at, LONGEST_LIST as nat, installing),
        None => Seq::empty(),
    }
}

// ---- modules whose slots are their own ----

/// Whether none of these bytes is among `cells`.
pub open spec fn apart(cells: Set<u64>, addr: u64, len: int) -> bool {
    forall|i: int| 0 <= i < len ==> !cells.contains(#[trigger] iat::offset_by(addr, i))
}

/// Whether none of the bytes is among `cells` that are read for a text.
pub open spec fn text_apart(memory: ProcessMemory, cells: Set<u64>, addr: u64, max: nat) -> bool
    decreases max,
{
    max == 0 || !(memory.there)(addr) || (!cells.contains(addr) && ((memory.byte)(addr) == 0
        || text_apart(memory, cells, iat::offset_by(addr, 1), (max - 1) as nat)))
}

/// The bytes of the slots of these imports.
pub open spec fn cells_of(list: Seq<Import>) -> Set<u64> {
    Set::new(|addr: u64| exists|k: int| 0 <= k < list.len() && covers(#[trigger] list[k].slot, addr))
}

/// Whether two slots have no byte in common.
pub open spec fn slots_apart(a: u64, b: u64) -> bool {
    distance(a, b) >= 8 && distance(b, a) >= 8
}

/// Whether no two of these imports share a byte of their slots.
pub open spec fn pairwise_apart(list: Seq<Import>) -> bool {
    forall|i: int, j: int|
        0 <= i < j < list.len() ==> slots_apart(#[trigger] list[i].slot, #[trigger] list[j].slot)
}

/// Whether the name that a thunk leads to, if it leads to one, is not among `cells`.
pub open spec fn name_apart(
    memory: ProcessMemory,
    cells: Set<u64>,
    base: u64,
    library: SocketLibrary,
    thunk: u64,
    installing: bool,
) -> bool {
    let hint = iat::offset_by(base, thunk as int % 0x8000_0000);
    let name_at = iat::offset_by(hint, 2);
    library == SocketLibrary::Ws2_32 && !iat::by_ordinal(thunk) && (installing ==> (memory.there)(
        hint,
    )) ==> text_apart(memory, cells, name_at, LONGEST_FUNCTION_NAME as nat)
}

/// Whether what is read to find the imports of a library is not among `cells`. With `in_slots`,
/// a thunk may stand in the slot of its own import, as it does where there is no lookup table.
pub open spec fn imports_steady(
    memory: ProcessMemory,
    cells: Set<u64>,
    base: u64,
    library: SocketLibrary,
    lookup: u64,
    slot: u64,
    n: nat,
    installing: bool,
    in_slots: bool,
) -> bool
    decreases n,
{
    let thunk = memory.number(lookup);
    let is_import = thunk != 0 && imported_function(memory, base, library, thunk, installing) is Some;
    n == 0 || !(memory.there)(lookup) || !(memory.there)(slot) || {
        &&& apart(cells, lookup, 8) || (in_slots && lookup == slot && is_import)
        &&& thunk != 0 ==> {
            &&& name_apart(memory, cells, base, library, thunk, installing)
            &&& imports_steady(
                memory,
                cells,
                base,
                library,
                iat::offset_by(lookup, 8),
                iat::offset_by(slot, 8),
                (n - 1) as nat,
                installing,
                in_slots,
            )
        }
    }
}

/// Whether what is read to find the imports of a descriptor's library is not among `cells`.
pub open spec fn library_steady(
    memory: ProcessMemory,
    cells: Set<u64>,
    base: u64,
    descriptor: ImportDescriptor,
    installing: bool,
    in_slots: bool,
) -> bool {
    let name_at = iat::offset_by(base, descriptor.name_rva as int);
    (memory.there)(name_at) ==> {
        &&& text_apart(memory, cells, name_at, LONGEST_LIBRARY_NAME as nat)
        &&& iat::library_named(memory.c_string(name_at, LONGEST_LIBRARY_NAME as nat)) matches Some(
            library,
        ) ==> imports_steady(
            memory,
            cells,
            base,
            library,
            iat::offset_by(base, descriptor.lookup_rva() as int),
            iat::offset_by(base, descriptor.first_thunk as int),
            LONGEST_LIST as nat,
            installing,
            in_slots,
        )
    }
}

/// Whether what is read to find the imports of a directory is not among `cells`.
pub open spec fn libraries_steady(
    memory: ProcessMemory,
    cells: Set<u64>,
    base: u64,
    at: u64,
    n: nat,
    installing: bool,
    in_slots: bool,
) -> bool
    decreases n,
{
    let descriptor = iat::descriptor_of(memory.load(at, 20));
    n == 0 || !(memory.there)(at) || {
        &&& apart(cells, at, 20)
        &&& descriptor.is_last() || {
            &&& library_steady(memory, cells, base, descriptor, installing, in_slots)
            &&& libraries_steady(
                memory,
                cells,
                base,
                iat::offset_by(at, 20),
                (n - 1) as nat,
                installing,
                in_slots,
            )
        }
    }
}

/// Whether the headers of the module at `base` are not among `cells`, as far as they are read.
pub open spec fn headers_apart(memory: ProcessMemory, cells: Set<u64>, base: u64) -> bool {
    (memory.there)(base) ==> {
        &&& apart(cells, base, 64)
        &&& iat::nt_headers_at(base, memory.load(base, 64)) matches Some(nt) ==> (memory.there)(nt)
            ==> apart(cells, nt, 148)
    }
}

/// Whether what is read to find the imports of the module at `base` is not among `cells`. With
/// `in_slots`, a thunk may stand in the slot of its own import.
pub open spec fn module_steady(
    memory: ProcessMemory,
    cells: Set<u64>,
    base: u64,
    installing: bool,
    in_slots: bool,
) -> bool {
    &&& headers_apart(memory, cells, base)
    &&& directory_of(memory, base) matches Some(at) ==> libraries_steady(
        memory,
        cells,
        base,
        at,
        LONGEST_LIST as nat,
        installing,
        in_slots,
    )
}

/// Whether the slots of the hooked functions that the module at `base` imports are used for
/// nothing else: no two of them overlap, and the walk reads none of them to find its way. With
/// `in_slots`, a thunk may stand in the slot of its own import.
pub open spec fn slots_are_own(
    memory: ProcessMemory,
    base: u64,
    installing: bool,
    in_slots: bool,
) -> bool {
    let list = listed(memory, base, installing);
    pairwise_apart(list) && module_steady(memory, cells_of(list), base, installing, in_slots)
}

/// Whether two memories are the same but for the slots of these imports.
pub open spec fn same_outside_slots(a: ProcessMemory, b: ProcessMemory, list: Seq<Import>) -> bool {
    &&& a.there == b.there
    &&& a.writable == b.writable
    &&& forall|addr: u64|
        !cells_of(list).contains(addr) ==> #[trigger] (a.byte)(addr) == (b.byte)(addr)
}

// ---- slots and numbers ----

/// Whether two memories are the same but for `cells`.
spec fn same_outside(a: ProcessMemory, b: ProcessMemory, cells: Set<u64>) -> bool {
    &&& a.there == b.there
    &&& a.writable == b.writable
    &&& forall|addr: u64| !cells.contains(addr) ==> #[trigger] (a.byte)(addr) == (b.byte)(addr)
}

proof fn lemma_same_load(a: ProcessMemory, b: ProcessMemory, cells: Set<u64>, addr: u64, len: int)
    requires
        same_outside(a, b, cells),
        0 <= len,
        apart(cells, addr, len),
    ensures
        a.load(addr, len) == b.load(addr, len),
{
    assert forall|i: int| 0 <= i < len implies a.load(addr, len)[i] == b.load(addr, len)[i] by {
        assert(!cells.contains(iat::offset_by(addr, i)));
    }
    assert(a.load(addr, len) =~= b.load(addr, len));
}

proof fn lemma_same_text(a: ProcessMemory, b: ProcessMemory, cells: Set<u64>, addr: u64, max: nat)
    requires
        same_outside(a, b, cells),
        text_apart(a, cells, addr, max),
    ensures
        a.c_string(addr, max) == b.c_string(addr, max),
    decreases max,
{
    if max > 0 && (a.there)(addr) && (a.byte)(addr) != 0 {
        lemma_same_text(a, b, cells, iat::offset_by(addr, 1), (max - 1) as nat);
    }
}

proof fn lemma_written_slot(m: ProcessMemory, slot: u64, value: u64)
    ensures
        m.with(slot, value).number(slot) == value,
{
    let s = m.with(slot, value).load(slot, 8);
    assert forall|i: int| 0 <= i < 8 implies #[trigger] s[i] == bytes::le64_bytes(value)[i] by {
        lemma_distances(slot, slot);
        lemma_distance_and_more(slot, slot, i);
    }
    assert(s =~= bytes::le64_bytes(value));
    bytes::law_le64_round_trip(Seq::empty(), value, Seq::empty());
    assert(Seq::<u8>::empty() + bytes::le64_bytes(value) + Seq::<u8>::empty() =~= s);
}

proof fn lemma_at_distance(from: u64, to: u64)
    ensures
        0 <= distance(from, to) < 0x1_0000_0000_0000_0000,
        iat::offset_by(from, distance(from, to)) == to,
{
}

proof fn lemma_bytes_of_word(s: Seq<u8>, t: Seq<u8>, at: int)
    requires
        bytes::le32(s, at) == bytes::le32(t, at),
    ensures
        s[at] == t[at],
        s[at + 1] == t[at + 1],
        s[at + 2] == t[at + 2],
        s[at + 3] == t[at + 3],
{
    assert(bytes::le16(s, at) == bytes::le16(t, at));
    assert(bytes::le16(s, at + 2) == bytes::le16(t, at + 2));
}

proof fn lemma_bytes_of_number(s: Seq<u8>, t: Seq<u8>)
    requires
        s.len() == 8,
        t.len() == 8,
        bytes::le64(s, 0) as u64 == bytes::le64(t, 0) as u64,
    ensures
        s == t,
{
    assert(bytes::le32(s, 0) == bytes::le32(t, 0) && bytes::le32(s, 4) == bytes::le32(t, 4)) by {
        assert(0 <= bytes::le32(s, 0) < 0x1_0000_0000);
        assert(0 <= bytes::le32(t, 0) < 0x1_0000_0000);
        assert(0 <= bytes::le32(s, 4) < 0x1_0000_0000);
        assert(0 <= bytes::le32(t, 4) < 0x1_0000_0000);
    }
    lemma_bytes_of_word(s, t, 0);
    lemma_bytes_of_word(s, t, 4);
    assert(s =~= t);
}

/// The bytes of a slot are determined by the number in it.
proof fn lemma_slot_bytes(a: ProcessMemory, b: ProcessMemory, slot: u64, addr: u64)
    requires
        a.number(slot) == b.number(slot),
        covers(slot, addr),
    ensures
        (a.byte)(addr) == (b.byte)(addr),
{
    let i = distance(slot, addr);
    let s = a.load(slot, 8);
    let t = b.load(slot, 8);
    lemma_at_distance(slot, addr);
    lemma_bytes_of_number(s, t);
    assert(s[i] == t[i]);
}

proof fn lemma_distances(a: u64, b: u64)
    ensures
        a != b ==> distance(a, b) + distance(b, a) == 0x1_0000_0000_0000_0000,
        a == b ==> distance(a, b) == 0,
{
}

proof fn lemma_distance_and_more(from: u64, to: u64, i: int)
    requires
        0 <= i,
        distance(from, to) + i < 0x1_0000_0000_0000_0000,
    ensures
        distance(from, iat::offset_by(to, i)) == distance(from, to) + i,
{
    let m = 0x1_0000_0000_0000_0000int;
    if to + i < m {
        assert(iat::offset_by(to, i) == to + i);
    } else {
        assert(iat::offset_by(to, i) == to + i - m);
    }
}

proof fn lemma_slot_uncovered(slot: u64, other: u64, i: int)
    requires
        slots_apart(slot, other),
        0 <= i < 8,
    ensures
        !covers(slot, iat::offset_by(other, i)),
{
    lemma_distances(slot, other);
    lemma_distance_and_more(slot, other, i);
}

proof fn lemma_other_slot(m: ProcessMemory, slot: u64, value: u64, other: u64)
    requires
        slots_apart(slot, other),
    ensures
        m.with(slot, value).number(other) == m.number(other),
{
    let s = m.with(slot, value).load(other, 8);
    let t = m.load(other, 8);
    assert forall|i: int| 0 <= i < 8 implies #[trigger] s[i] == t[i] by {
        lemma_slot_uncovered(slot, other, i);
    }
    assert(s =~= t);
}

// ---- going through a list of imports ----

/// These imports are met one after the other.
pub open spec fn visit_all(p: Progress, purpose: Purpose, list: Seq<Import>) -> Progress
    decreases list.len(),
{
    if list.len() == 0 {
        p
    } else {
        visit_all(p, purpose, list.drop_last()).visit(purpose, list.last().function, list.last().slot)
    }
}

/// Whether the slot of an import asks to be patched.
pub open spec fn wants_patch(memory: ProcessMemory, purpose: Purpose, import: Import) -> bool {
    iat::new_value(purpose, import.function, memory.number(import.slot)) is Some
}

/// Whether the slot of an import is patched.
pub open spec fn is_patched(memory: ProcessMemory, purpose: Purpose, import: Import) -> bool {
    wants_patch(memory, purpose, import) && (memory.writable)(import.slot)
}

/// What the slot of an import holds once it was met.
pub open spec fn left_in_slot(memory: ProcessMemory, purpose: Purpose, import: Import) -> u64 {
    let current = memory.number(import.slot);
    match iat::new_value(purpose, import.function, current) {
        Some(value) if (memory.writable)(import.slot) => value,
        _ => current,
    }
}

proof fn lemma_visit_all_add(p: Progress, purpose: Purpose, a: Seq<Import>, b: Seq<Import>)
    ensures
        visit_all(p, purpose, a + b) == visit_all(visit_all(p, purpose, a), purpose, b),
    decreases b.len(),
{
    if b.len() == 0 {
        assert(a + b =~= a);
    } else {
        assert((a + b).drop_last() =~= a + b.drop_last());
        lemma_visit_all_add(p, purpose, a, b.drop_last());
    }
}

proof fn lemma_visit_one(p: Progress, purpose: Purpose, import: Import)
    ensures
        visit_all(p, purpose, seq![import]) == p.visit(purpose, import.function, import.slot),
        same_outside(
            p.memory,
            p.visit(purpose, import.function, import.slot).memory,
            cells_of(seq![import]),
        ),
        p.visit(purpose, import.function, import.slot).memory.number(import.slot) == left_in_slot(
            p.memory,
            purpose,
            import,
        ),
{
    let one = seq![import];
    let q = p.visit(purpose, import.function, import.slot);
    assert(one.drop_last() =~= Seq::<Import>::empty());
    assert(visit_all(p, purpose, one.drop_last()) == p);
    assert forall|addr: u64| !cells_of(one).contains(addr) implies #[trigger] (p.memory.byte)(addr) == (
    q.memory.byte)(addr) by {
        assert(!covers(one[0].slot, addr));
    }
    match iat::new_value(purpose, import.function, p.memory.number(import.slot)) {
        Some(value) => lemma_written_slot(p.memory, import.slot, value),
        None => {},
    }
}

proof fn lemma_visit_all_outside(p: Progress, purpose: Purpose, list: Seq<Import>)
    ensures
        same_outside(p.memory, visit_all(p, purpose, list).memory, cells_of(list)),
    decreases list.len(),
{
    if list.len() > 0 {
        let init = list.drop_last();
        let q = visit_all(p, purpose, init);
        let last = list.last();
        lemma_visit_all_outside(p, purpose, init);
        lemma_visit_one(q, purpose, last);
        let r = visit_all(p, purpose, list);
        assert forall|addr: u64| !cells_of(list).contains(addr) implies #[trigger] (p.memory.byte)(addr)
            == (r.memory.byte)(addr) by {
            lemma_cells_of_parts(init, seq![last], addr);
            assert(init + seq![last] =~= list);
            assert((p.memory.byte)(addr) == (q.memory.byte)(addr));
            assert((q.memory.byte)(addr) == (r.memory.byte)(addr));
        }
    }
}

proof fn lemma_cells_of_parts(a: Seq<Import>, b: Seq<Import>, addr: u64)
    ensures
        cells_of(a + b).contains(addr) <==> cells_of(a).contains(addr) || cells_of(b).contains(addr),
{
    let whole = a + b;
    if cells_of(a).contains(addr) {
        let k = choose|k: int| 0 <= k < a.len() && covers(#[trigger] a[k].slot, addr);
        assert(covers(whole[k].slot, addr));
    }
    if cells_of(b).contains(addr) {
        let k = choose|k: int| 0 <= k < b.len() && covers(#[trigger] b[k].slot, addr);
        assert(covers(whole[a.len() + k].slot, addr));
    }
    if cells_of(whole).contains(addr) {
        let k = choose|k: int| 0 <= k < whole.len() && covers(#[trigger] whole[k].slot, addr);
        if k < a.len() {
            assert(covers(a[k].slot, addr));
        } else {
            assert(covers(b[k - a.len()].slot, addr));
        }
    }
}

/// A slot that overlaps none of a list's is apart from their bytes.
proof fn lemma_apart_from_list(list: Seq<Import>, slot: u64)
    requires
        forall|k: int| 0 <= k < list.len() ==> slots_apart(#[trigger] list[k].slot, slot),
    ensures
        apart(cells_of(list), slot, 8),
{
    assert forall|i: int| 0 <= i < 8 implies !cells_of(list).contains(
        #[trigger] iat::offset_by(slot, i),
    ) by {
        let addr = iat::offset_by(slot, i);
        if cells_of(list).contains(addr) {
            let k = choose|k: int| 0 <= k < list.len() && covers(#[trigger] list[k].slot, addr);
            lemma_slot_uncovered(list[k].slot, slot, i);
        }
    }
}

/// Imports whose slots do not overlap are patched each for itself.
proof fn lemma_visit_all(p: Progress, purpose: Purpose, list: Seq<Import>)
    requires
        pairwise_apart(list),
    ensures
        ({
            let q = visit_all(p, purpose, list);
            &&& forall|k: int|
                0 <= k < list.len() ==> q.memory.number(#[trigger] list[k].slot) == left_in_slot(
                    p.memory,
                    purpose,
                    list[k],
                )
            &&& q.patched == p.patched + list.filter(
                |import: Import| is_patched(p.memory, purpose, import),
            ).len()
        }),
    decreases list.len(),
{
    reveal(Seq::filter);
    if list.len() > 0 {
        let init = list.drop_last();
        let last = list.last();
        let q = visit_all(p, purpose, init);
        let r = visit_all(p, purpose, list);
        lemma_visit_all(p, purpose, init);
        lemma_visit_all_outside(p, purpose, init);
        lemma_apart_from_list(init, last.slot);
        lemma_same_load(p.memory, q.memory, cells_of(init), last.slot, 8);
        lemma_visit_one(q, purpose, last);
        assert forall|k: int| 0 <= k < list.len() implies r.memory.number(#[trigger] list[k].slot)
            == left_in_slot(p.memory, purpose, list[k]) by {
            if k < init.len() {
                assert(init[k] == list[k]);
                assert(slots_apart(list[k].slot, list[list.len() - 1].slot));
                match iat::new_value(purpose, last.function, q.memory.number(last.slot)) {
                    Some(value) => lemma_other_slot(q.memory, last.slot, value, list[k].slot),
                    None => {},
                }
            }
        }
    }
}

/// Imports whose slots do not overlap are patched each for itself, all that are patched are
/// counted, and nothing else in memory changes.
pub proof fn law_apart_imports_are_patched_alone(p: Progress, purpose: Purpose, list: Seq<Import>)
    requires
        pairwise_apart(list),
    ensures
        ({
            let q = visit_all(p, purpose, list);
            &&& forall|k: int|
                0 <= k < list.len() ==> q.memory.number(#[trigger] list[k].slot) == left_in_slot(
                    p.memory,
                    purpose,
                    list[k],
                )
            &&& same_outside_slots(p.memory, q.memory, list)
            &&& q.patched == p.patched + list.filter(
                |import: Import| is_patched(p.memory, purpose, import),
            ).len()
        }),
{
    lemma_visit_all(p, purpose, list);
    lemma_visit_all_outside(p, purpose, list);
}

/// The address of a function that is kept of these imports: the one that its last slot among
/// them held that asked to be patched, or the one from before.
pub open spec fn kept_for(
    memory: ProcessMemory,
    purpose: Purpose,
    list: Seq<Import>,
    function: HookedFunction,
    before: u64,
) -> u64
    decreases list.len(),
{
    if list.len() == 0 {
        before
    } else if list.last().function == function && wants_patch(memory, purpose, list.last()) {
        memory.number(list.last().slot)
    } else {
        kept_for(memory, purpose, list.drop_last(), function, before)
    }
}

proof fn lemma_kept(p: Progress, hooks: FunctionAddresses, list: Seq<Import>, function: HookedFunction)
    requires
        pairwise_apart(list),
    ensures
        visit_all(p, Purpose::Install(hooks), list).kept.address(function) == kept_for(
            p.memory,
            Purpose::Install(hooks),
            list,
            function,
            p.kept.address(function),
        ),
    decreases list.len(),
{
    let purpose = Purpose::Install(hooks);
    if list.len() > 0 {
        let init = list.drop_last();
        let last = list.last();
        let q = visit_all(p, purpose, init);
        lemma_kept(p, hooks, init, function);
        lemma_visit_all_outside(p, purpose, init);
        lemma_apart_from_list(init, last.slot);
        lemma_same_load(p.memory, q.memory, cells_of(init), last.slot, 8);
        assert(q.memory.number(last.slot) == p.memory.number(last.slot));
    }
}

// ---- a walk meets the imports that are listed ----

proof fn lemma_same_function(
    m: ProcessMemory,
    other: ProcessMemory,
    cells: Set<u64>,
    base: u64,
    library: SocketLibrary,
    thunk: u64,
    installing: bool,
)
    requires
        same_outside(m, other, cells),
        name_apart(m, cells, base, library, thunk, installing),
    ensures
        imported_function(m, base, library, thunk, installing) == imported_function(
            other,
            base,
            library,
            thunk,
            installing,
        ),
{
    let hint = iat::offset_by(base, thunk as int % 0x8000_0000);
    let name_at = iat::offset_by(hint, 2);
    if library == SocketLibrary::Ws2_32 && !iat::by_ordinal(thunk) && (installing ==> (m.there)(hint)) {
        lemma_same_text(m, other, cells, name_at, LONGEST_FUNCTION_NAME as nat);
    }
}

/// What holds of a list of imports of which a walk has met some: their slots are among `cells`,
/// and where thunks may stand in slots, no slot that was met overlaps one that was not.
spec fn ahead(list: Seq<Import>, cells: Set<u64>, met: Set<u64>, in_slots: bool) -> bool {
    &&& met.subset_of(cells)
    &&& cells_of(list).subset_of(cells)
    &&& in_slots ==> pairwise_apart(list) && forall|k: int|
        0 <= k < list.len() ==> apart(met, #[trigger] list[k].slot, 8)
}

/// A walk that is past the first part of a list.
proof fn lemma_ahead(
    m: ProcessMemory,
    p: Progress,
    purpose: Purpose,
    first: Seq<Import>,
    rest: Seq<Import>,
    cells: Set<u64>,
    met: Set<u64>,
    in_slots: bool,
)
    requires
        ahead(first + rest, cells, met, in_slots),
        same_outside(m, p.memory, met),
    ensures
        ahead(first, cells, met, in_slots),
        ahead(rest, cells, met.union(cells_of(first)), in_slots),
        same_outside(m, visit_all(p, purpose, first).memory, met.union(cells_of(first))),
{
    let list = first + rest;
    let q = visit_all(p, purpose, first);
    lemma_visit_all_outside(p, purpose, first);
    assert forall|addr: u64| #[trigger] cells_of(first).contains(addr) || cells_of(rest).contains(addr) implies cells.contains(
    addr) by {
        lemma_cells_of_parts(first, rest, addr);
        assert(cells_of(list).contains(addr));
    }
    assert forall|addr: u64| #[trigger] cells_of(rest).contains(addr) implies cells.contains(addr) by {
        lemma_cells_of_parts(first, rest, addr);
        assert(cells_of(list).contains(addr));
    }
    assert forall|addr: u64| !met.union(cells_of(first)).contains(addr) implies #[trigger] (m.byte)(addr)
        == (q.memory.byte)(addr) by {
        assert((m.byte)(addr) == (p.memory.byte)(addr));
        assert((p.memory.byte)(addr) == (q.memory.byte)(addr));
    }
    if in_slots {
        assert forall|i: int, j: int| 0 <= i < j < first.len() implies slots_apart(
            #[trigger] first[i].slot,
            #[trigger] first[j].slot,
        ) by {
            assert(list[i] == first[i] && list[j] == first[j]);
            assert(slots_apart(list[i].slot, list[j].slot));
        }
        let n = first.len() as int;
        assert forall|i: int, j: int| 0 <= i < j < rest.len() implies slots_apart(
            #[trigger] rest[i].slot,
            #[trigger] rest[j].slot,
        ) by {
            assert(list[n + i] == rest[i] && list[n + j] == rest[j]);
            assert(slots_apart(list[n + i].slot, list[n + j].slot));
        }
        assert forall|k: int| 0 <= k < first.len() implies apart(met, #[trigger] first[k].slot, 8) by {
            assert(list[k] == first[k]);
        }
        assert forall|k: int| 0 <= k < rest.len() implies apart(
            met.union(cells_of(first)),
            #[trigger] rest[k].slot,
            8,
        ) by {
            assert(list[n + k] == rest[k]);
            assert forall|i: int| 0 <= i < first.len() implies slots_apart(
                #[trigger] first[i].slot,
                rest[k].slot,
            ) by {
                assert(list[i] == first[i]);
                assert(slots_apart(list[i].slot, list[n + k].slot));
            }
            lemma_apart_from_list(first, rest[k].slot);
            assert(apart(met, list[n + k].slot, 8));
        }
    }
}

proof fn lemma_same_outside_more(a: ProcessMemory, b: ProcessMemory, few: Set<u64>, many: Set<u64>)
    requires
        same_outside(a, b, few),
        few.subset_of(many),
    ensures
        same_outside(a, b, many),
{
    assert forall|addr: u64| !many.contains(addr) implies #[trigger] (a.byte)(addr) == (b.byte)(addr) by {
        assert(!few.contains(addr));
    }
}

proof fn lemma_over_imports(
    m: ProcessMemory,
    cells: Set<u64>,
    met: Set<u64>,
    p: Progress,
    base: u64,
    purpose: Purpose,
    library: SocketLibrary,
    lookup: u64,
    slot: u64,
    n: nat,
    in_slots: bool,
)
    requires
        imports_steady(m, cells, base, library, lookup, slot, n, purpose is Install, in_slots),
        same_outside(m, p.memory, met),
        ahead(
            imports_in(m, base, library, lookup, slot, n, purpose is Install),
            cells,
            met,
            in_slots,
        ),
    ensures
        over_imports(p, base, purpose, library, lookup, slot, n) == visit_all(
            p,
            purpose,
            imports_in(m, base, library, lookup, slot, n, purpose is Install),
        ),
    decreases n,
{
    let installing = purpose is Install;
    let list = imports_in(m, base, library, lookup, slot, n, installing);
    let thunk = m.number(lookup);
    lemma_same_outside_more(m, p.memory, met, cells);
    if n > 0 && (m.there)(lookup) && (m.there)(slot) {
        if apart(cells, lookup, 8) {
            lemma_same_load(m, p.memory, cells, lookup, 8);
        } else {
            assert(list[0].slot == slot);
            lemma_same_load(m, p.memory, met, lookup, 8);
        }
        if thunk != 0 {
            lemma_same_function(m, p.memory, cells, base, library, thunk, installing);
            let next_lookup = iat::offset_by(lookup, 8);
            let next_slot = iat::offset_by(slot, 8);
            let less = (n - 1) as nat;
            let rest = imports_in(m, base, library, next_lookup, next_slot, less, installing);
            match imported_function(m, base, library, thunk, installing) {
                Some(function) => {
                    let first = seq![Import { function, slot }];
                    let q = p.visit(purpose, function, slot);
                    lemma_visit_one(p, purpose, first[0]);
                    lemma_visit_all_add(p, purpose, first, rest);
                    lemma_ahead(m, p, purpose, first, rest, cells, met, in_slots);
                    lemma_over_imports(
                        m,
                        cells,
                        met.union(cells_of(first)),
                        q,
                        base,
                        purpose,
                        library,
                        next_lookup,
                        next_slot,
                        less,
                        in_slots,
                    );
                },
                None => lemma_over_imports(
                    m,
                    cells,
                    met,
                    p,
                    base,
                    purpose,
                    library,
                    next_lookup,
                    next_slot,
                    less,
                    in_slots,
                ),
            }
        }
    }
}

proof fn lemma_over_library(
    m: ProcessMemory,
    cells: Set<u64>,
    met: Set<u64>,
    p: Progress,
    base: u64,
    purpose: Purpose,
    descriptor: ImportDescriptor,
    in_slots: bool,
)
    requires
        library_steady(m, cells, base, descriptor, purpose is Install, in_slots),
        same_outside(m, p.memory, met),
        ahead(imports_of(m, base, descriptor, purpose is Install), cells, met, in_slots),
    ensures
        over_library(p, base, purpose, descriptor) == visit_all(
            p,
            purpose,
            imports_of(m, base, descriptor, purpose is Install),
        ),
{
    let name_at = iat::offset_by(base, descriptor.name_rva as int);
    lemma_same_outside_more(m, p.memory, met, cells);
    if (m.there)(name_at) {
        lemma_same_text(m, p.memory, cells, name_at, LONGEST_LIBRARY_NAME as nat);
        match iat::library_named(m.c_string(name_at, LONGEST_LIBRARY_NAME as nat)) {
            Some(library) => lemma_over_imports(
                m,
                cells,
                met,
                p,
                base,
                purpose,
                library,
                iat::offset_by(base, descriptor.lookup_rva() as int),
                iat::offset_by(base, descriptor.first_thunk as int),
                LONGEST_LIST as nat,
                in_slots,
            ),
            None => {},
        }
    }
}

proof fn lemma_over_libraries(
    m: ProcessMemory,
    cells: Set<u64>,
    met: Set<u64>,
    p: Progress,
    base: u64,
    purpose: Purpose,
    at: u64,
    n: nat,
    in_slots: bool,
)
    requires
        libraries_steady(m, cells, base, at, n, purpose is Install, in_slots),
        same_outside(m, p.memory, met),
        ahead(imports_from(m, base, at, n, purpose is Install), cells, met, in_slots),
    ensures
        over_libraries(p, base, purpose, at, n) == visit_all(
            p,
            purpose,
            imports_from(m, base, at, n, purpose is Install),
        ),
    decreases n,
{
    let installing = purpose is Install;
    let descriptor = iat::descriptor_of(m.load(at, 20));
    lemma_same_outside_more(m, p.memory, met, cells);
    if n > 0 && (m.there)(at) {
        lemma_same_load(m, p.memory, cells, at, 20);
        if !descriptor.is_last() {
            let first = imports_of(m, base, descriptor, installing);
            let next_at = iat::offset_by(at, 20);
            let rest = imports_from(m, base, next_at, (n - 1) as nat, installing);
            lemma_ahead(m, p, purpose, first, rest, cells, met, in_slots);
            lemma_over_library(m, cells, met, p, base, purpose, descriptor, in_slots);
            lemma_visit_all_add(p, purpose, first, rest);
            lemma_over_libraries(
                m,
                cells,
                met.union(cells_of(first)),
                visit_all(p, purpose, first),
                base,
                purpose,
                next_at,
                (n - 1) as nat,
                in_slots,
            );
        }
    }
}

proof fn lemma_same_directory(m: ProcessMemory, other: ProcessMemory, cells: Set<u64>, base: u64)
    requires
        same_outside(m, other, cells),
        headers_apart(m, cells, base),
    ensures
        directory_of(m, base) == directory_of(other, base),
{
    if (m.there)(base) {
        lemma_same_load(m, other, cells, base, 64);
        match iat::nt_headers_at(base, m.load(base, 64)) {
            Some(nt) => if (m.there)(nt) {
                lemma_same_load(m, other, cells, nt, 148);
            },
            None => {},
        }
    }
}

proof fn lemma_over_module(
    m: ProcessMemory,
    cells: Set<u64>,
    met: Set<u64>,
    p: Progress,
    base: u64,
    purpose: Purpose,
    in_slots: bool,
)
    requires
        module_steady(m, cells, base, purpose is Install, in_slots),
        same_outside(m, p.memory, met),
        ahead(listed(m, base, purpose is Install), cells, met, in_slots),
    ensures
        walk_over(p, base, purpose) == visit_all(p, purpose, listed(m, base, purpose is Install)),
{
    lemma_same_outside_more(m, p.memory, met, cells);
    lemma_same_directory(m, p.memory, cells, base);
    match directory_of(m, base) {
        Some(at) => lemma_over_libraries(
            m,
            cells,
            met,
            p,
            base,
            purpose,
            at,
            LONGEST_LIST as nat,
            in_slots,
        ),
        None => {},
    }
}

/// A walk over memory in which a module's slots are its own meets the imports that the module
/// lists, each once and in order.
pub proof fn law_walk_meets_the_listed_imports(p: Progress, base: u64, purpose: Purpose, in_slots: bool)
    requires
        slots_are_own(p.memory, base, purpose is Install, in_slots),
    ensures
        walk_over(p, base, purpose) == visit_all(
            p,
            purpose,
            listed(p.memory, base, purpose is Install),
        ),
{
    let cells = cells_of(listed(p.memory, base, purpose is Install));
    lemma_over_module(p.memory, cells, Set::empty(), p, base, purpose, in_slots);
}

/// Putting hooks in patches exactly the slots of the hooked functions that the module imports
/// and that hold an address other than zero and the hook, and counts them. Nothing else in
/// memory changes. Of each function the address is kept that its last such slot held.
pub proof fn law_install_patches_the_matching_slots(
    p: Progress,
    base: u64,
    hooks: FunctionAddresses,
    in_slots: bool,
)
    requires
        slots_are_own(p.memory, base, true, in_slots),
    ensures
        ({
            let purpose = Purpose::Install(hooks);
            let list = listed(p.memory, base, true);
            let q = walk_over(p, base, purpose);
            &&& forall|k: int|
                0 <= k < list.len() ==> {
                    let current = p.memory.number(#[trigger] list[k].slot);
                    let hook = hooks.address(list[k].function);
                    q.memory.number(list[k].slot) == (if current != 0 && current != hook && (
                    p.memory.writable)(list[k].slot) {
                        hook
                    } else {
                        current
                    })
                }
            &&& same_outside_slots(p.memory, q.memory, list)
            &&& q.patched == p.patched + list.filter(
                |import: Import| is_patched(p.memory, purpose, import),
            ).len()
            &&& forall|function: HookedFunction| #[trigger]
                q.kept.address(function) == kept_for(
                    p.memory,
                    purpose,
                    list,
                    function,
                    p.kept.address(function),
                )
        }),
{
    let purpose = Purpose::Install(hooks);
    let list = listed(p.memory, base, true);
    law_walk_meets_the_listed_imports(p, base, purpose, in_slots);
    lemma_visit_all(p, purpose, list);
    lemma_visit_all_outside(p, purpose, list);
    let q = walk_over(p, base, purpose);
    assert forall|function: HookedFunction| #[trigger] q.kept.address(function) == kept_for(
        p.memory,
        purpose,
        list,
        function,
        p.kept.address(function),
    ) by {
        lemma_kept(p, hooks, list, function);
    }
    assert forall|k: int| 0 <= k < list.len() implies {
        let current = p.memory.number(#[trigger] list[k].slot);
        let hook = hooks.address(list[k].function);
        q.memory.number(list[k].slot) == (if current != 0 && current != hook && (p.memory.writable)(
            list[k].slot,
        ) {
            hook
        } else {
            current
        })
    } by {
        assert(q.memory.number(list[k].slot) == left_in_slot(p.memory, purpose, list[k]));
    }
}

/// Putting functions back patches exactly the slots that hold a hook whose function's address
/// was kept. A slot that holds anything else stays as it is, and so does all other memory.
pub proof fn law_restore_patches_the_hooked_slots(
    p: Progress,
    base: u64,
    hooks: FunctionAddresses,
    originals: FunctionAddresses,
    in_slots: bool,
)
    requires
        slots_are_own(p.memory, base, false, in_slots),
    ensures
        ({
            let purpose = Purpose::Restore { hooks, originals };
            let list = listed(p.memory, base, false);
            let q = walk_over(p, base, purpose);
            &&& forall|k: int|
                0 <= k < list.len() ==> {
                    let current = p.memory.number(#[trigger] list[k].slot);
                    let original = originals.address(list[k].function);
                    q.memory.number(list[k].slot) == (if current == hooks.address(list[k].function)
                        && original != 0 && (p.memory.writable)(list[k].slot) {
                        original
                    } else {
                        current
                    })
                }
            &&& same_outside_slots(p.memory, q.memory, list)
            &&& q.patched == p.patched + list.filter(
                |import: Import| is_patched(p.memory, purpose, import),
            ).len()
        }),
{
    let purpose = Purpose::Restore { hooks, originals };
    let list = listed(p.memory, base, false);
    law_walk_meets_the_listed_imports(p, base, purpose, in_slots);
    lemma_visit_all(p, purpose, list);
    lemma_visit_all_outside(p, purpose, list);
    let q = walk_over(p, base, purpose);
    assert forall|k: int| 0 <= k < list.len() implies {
        let current = p.memory.number(#[trigger] list[k].slot);
        let original = originals.address(list[k].function);
        q.memory.number(list[k].slot) == (if current == hooks.address(list[k].function) && original != 0
            && (p.memory.writable)(list[k].slot) {
            original
        } else {
            current
        })
    } by {
        assert(q.memory.number(list[k].slot) == left_in_slot(p.memory, purpose, list[k]));
    }
}

// ---- hooking twice ----

/// Whether no hook reads as an import of another function than its own.
pub open spec fn hooks_read_as_own(hooks: FunctionAddresses) -> bool {
    forall|function: HookedFunction|
        iat::function_of_thunk(#[trigger] hooks.address(function)) matches Some(other) ==> other == function
}

/// Whether the slot of each of these imports is empty or holds its hook.
spec fn all_hooked(memory: ProcessMemory, hooks: FunctionAddresses, list: Seq<Import>) -> bool {
    forall|k: int|
        0 <= k < list.len() ==> !wants_patch(memory, Purpose::Install(hooks), #[trigger] list[k])
}

proof fn lemma_all_hooked_parts(
    memory: ProcessMemory,
    hooks: FunctionAddresses,
    first: Seq<Import>,
    rest: Seq<Import>,
)
    requires
        all_hooked(memory, hooks, first + rest),
    ensures
        all_hooked(memory, hooks, first),
        all_hooked(memory, hooks, rest),
{
    let list = first + rest;
    assert forall|k: int| 0 <= k < first.len() implies !wants_patch(
        memory,
        Purpose::Install(hooks),
        #[trigger] first[k],
    ) by {
        assert(list[k] == first[k]);
    }
    assert forall|k: int| 0 <= k < rest.len() implies !wants_patch(
        memory,
        Purpose::Install(hooks),
        #[trigger] rest[k],
    ) by {
        assert(list[first.len() + k] == rest[k]);
    }
}

proof fn lemma_idle_imports(
    m: ProcessMemory,
    cells: Set<u64>,
    q: Progress,
    base: u64,
    hooks: FunctionAddresses,
    library: SocketLibrary,
    lookup: u64,
    slot: u64,
    n: nat,
    in_slots: bool,
)
    requires
        imports_steady(m, cells, base, library, lookup, slot, n, true, in_slots),
        same_outside(m, q.memory, cells),
        all_hooked(q.memory, hooks, imports_in(m, base, library, lookup, slot, n, true)),
        in_slots ==> hooks_read_as_own(hooks),
    ensures
        over_imports(q, base, Purpose::Install(hooks), library, lookup, slot, n) == q,
    decreases n,
{
    let purpose = Purpose::Install(hooks);
    let list = imports_in(m, base, library, lookup, slot, n, true);
    let thunk = m.number(lookup);
    if n > 0 && (m.there)(lookup) && (m.there)(slot) {
        if apart(cells, lookup, 8) {
            lemma_same_load(m, q.memory, cells, lookup, 8);
        }
        if thunk != 0 {
            let rest = imports_in(
                m,
                base,
                library,
                iat::offset_by(lookup, 8),
                iat::offset_by(slot, 8),
                (n - 1) as nat,
                true,
            );
            lemma_same_function(m, q.memory, cells, base, library, thunk, true);
            match imported_function(m, base, library, thunk, true) {
                Some(function) => {
                    let first = seq![Import { function, slot }];
                    lemma_all_hooked_parts(q.memory, hooks, first, rest);
                    assert(!wants_patch(q.memory, purpose, first[0]));
                    assert(q.visit(purpose, function, slot) == q);
                    assert(q.memory.number(slot) == 0 || q.memory.number(slot) == hooks.address(function));
                },
                None => {},
            }
            lemma_idle_imports(
                m,
                cells,
                q,
                base,
                hooks,
                library,
                iat::offset_by(lookup, 8),
                iat::offset_by(slot, 8),
                (n - 1) as nat,
                in_slots,
            );
        }
    }
}

proof fn lemma_idle_libraries(
    m: ProcessMemory,
    cells: Set<u64>,
    q: Progress,
    base: u64,
    hooks: FunctionAddresses,
    at: u64,
    n: nat,
    in_slots: bool,
)
    requires
        libraries_steady(m, cells, base, at, n, true, in_slots),
        same_outside(m, q.memory, cells),
        all_hooked(q.memory, hooks, imports_from(m, base, at, n, true)),
        in_slots ==> hooks_read_as_own(hooks),
    ensures
        over_libraries(q, base, Purpose::Install(hooks), at, n) == q,
    decreases n,
{
    let descriptor = iat::descriptor_of(m.load(at, 20));
    if n > 0 && (m.there)(at) {
        lemma_same_load(m, q.memory, cells, at, 20);
        if !descriptor.is_last() {
            let first = imports_of(m, base, descriptor, true);
            let rest = imports_from(m, base, iat::offset_by(at, 20), (n - 1) as nat, true);
            let name_at = iat::offset_by(base, descriptor.name_rva as int);
            lemma_all_hooked_parts(q.memory, hooks, first, rest);
            if (m.there)(name_at) {
                lemma_same_text(m, q.memory, cells, name_at, LONGEST_LIBRARY_NAME as nat);
                match iat::library_named(m.c_string(name_at, LONGEST_LIBRARY_NAME as nat)) {
                    Some(library) => lemma_idle_imports(
                        m,
                        cells,
                        q,
                        base,
                        hooks,
                        library,
                        iat::offset_by(base, descriptor.lookup_rva() as int),
                        iat::offset_by(base, descriptor.first_thunk as int),
                        LONGEST_LIST as nat,
                        in_slots,
                    ),
                    None => {},
                }
            }
            lemma_idle_libraries(
                m,
                cells,
                q,
                base,
                hooks,
                iat::offset_by(at, 20),
                (n - 1) as nat,
                in_slots,
            );
        }
    }
}

/// Imports whose slots could all be patched are hooked.
proof fn lemma_all_hooked(p: Progress, hooks: FunctionAddresses, list: Seq<Import>)
    requires
        pairwise_apart(list),
        forall|k: int|
            0 <= k < list.len() && wants_patch(p.memory, Purpose::Install(hooks), #[trigger] list[k])
                ==> (p.memory.writable)(list[k].slot),
    ensures
        all_hooked(visit_all(p, Purpose::Install(hooks), list).memory, hooks, list),
{
    let purpose = Purpose::Install(hooks);
    let q = visit_all(p, purpose, list);
    lemma_visit_all(p, purpose, list);
    assert forall|k: int| 0 <= k < list.len() implies !wants_patch(q.memory, purpose, #[trigger] list[k]) by {
        assert(q.memory.number(list[k].slot) == left_in_slot(p.memory, purpose, list[k]));
    }
}

/// Where every slot could be patched, putting the same hooks in again changes nothing: no slot,
/// no address that was kept, and not the count. A hook is never kept as the function that it
/// takes the place of.
pub proof fn law_second_install_changes_nothing(
    p: Progress,
    base: u64,
    hooks: FunctionAddresses,
    in_slots: bool,
)
    requires
        slots_are_own(p.memory, base, true, in_slots),
        in_slots ==> hooks_read_as_own(hooks),
        ({
            let list = listed(p.memory, base, true);
            forall|k: int|
                0 <= k < list.len() && wants_patch(p.memory, Purpose::Install(hooks), #[trigger] list[k])
                    ==> (p.memory.writable)(list[k].slot)
        }),
    ensures
        ({
            let purpose = Purpose::Install(hooks);
            let once = walk_over(p, base, purpose);
            walk_over(once, base, purpose) == once
        }),
{
    let purpose = Purpose::Install(hooks);
    let list = listed(p.memory, base, true);
    let once = walk_over(p, base, purpose);
    law_walk_meets_the_listed_imports(p, base, purpose, in_slots);
    lemma_visit_all_outside(p, purpose, list);
    lemma_all_hooked(p, hooks, list);
    lemma_same_directory(p.memory, once.memory, cells_of(list), base);
    match directory_of(p.memory, base) {
        Some(at) => lemma_idle_libraries(
            p.memory,
            cells_of(list),
            once,
            base,
            hooks,
            at,
            LONGEST_LIST as nat,
            in_slots,
        ),
        None => {},
    }
}

/// The imports of WSOCK32.dll that are hooked are ordinal imports of send, recv and WSARecvEx.
proof fn lemma_wsock32_imports(
    m: ProcessMemory,
    base: u64,
    lookup: u64,
    slot: u64,
    n: nat,
    k: int,
) -> (i: int)
    requires
        0 <= k < imports_in(m, base, SocketLibrary::Wsock32, lookup, slot, n, true).len(),
    ensures
        0 <= i < n,
        ({
            let import = imports_in(m, base, SocketLibrary::Wsock32, lookup, slot, n, true)[k];
            &&& import.slot == iat::offset_by(slot, 8 * i)
            &&& iat::function_of_thunk(m.number(iat::offset_by(lookup, 8 * i))) == Some(import.function)
        }),
    decreases n,
{
    let thunk = m.number(lookup);
    let next_lookup = iat::offset_by(lookup, 8);
    let next_slot = iat::offset_by(slot, 8);
    let first = imported_function(m, base, SocketLibrary::Wsock32, thunk, true);
    lemma_offsets(slot, 0, 0);
    lemma_offsets(lookup, 0, 0);
    if first is Some && k == 0 {
        0
    } else {
        let j = if first is Some { k - 1 } else { k };
        let i = lemma_wsock32_imports(m, base, next_lookup, next_slot, (n - 1) as nat, j);
        lemma_offsets(slot, 8, 8 * i);
        lemma_offsets(lookup, 8, 8 * i);
        i + 1
    }
}

/// Going through the imports of one WSOCK32.dll to put hooks in changes as many slots as it
/// counts, all of them those of ordinal imports of send, recv and WSARecvEx. Where every slot
/// could be patched, going through them again counts none, changes no slot and leaves the kept
/// addresses as they are.
pub proof fn law_wsock32_is_hooked_once(
    p: Progress,
    base: u64,
    hooks: FunctionAddresses,
    lookup: u64,
    slot: u64,
    n: nat,
    in_slots: bool,
)
    requires
        ({
            let list = imports_in(p.memory, base, SocketLibrary::Wsock32, lookup, slot, n, true);
            &&& pairwise_apart(list)
            &&& imports_steady(
                p.memory,
                cells_of(list),
                base,
                SocketLibrary::Wsock32,
                lookup,
                slot,
                n,
                true,
                in_slots,
            )
            &&& forall|k: int|
                0 <= k < list.len() && wants_patch(p.memory, Purpose::Install(hooks), #[trigger] list[k])
                    ==> (p.memory.writable)(list[k].slot)
        }),
        in_slots ==> hooks_read_as_own(hooks),
    ensures
        ({
            let purpose = Purpose::Install(hooks);
            let list = imports_in(p.memory, base, SocketLibrary::Wsock32, lookup, slot, n, true);
            let changed = list.filter(|import: Import| is_patched(p.memory, purpose, import));
            let once = over_imports(p, base, purpose, SocketLibrary::Wsock32, lookup, slot, n);
            &&& once.patched == p.patched + changed.len()
            &&& forall|k: int|
                0 <= k < list.len() ==> (once.memory.number(#[trigger] list[k].slot) != p.memory.number(
                    list[k].slot,
                ) <==> is_patched(p.memory, purpose, list[k]))
            &&& same_outside_slots(p.memory, once.memory, list)
            &&& forall|k: int|
                0 <= k < list.len() ==> exists|i: int|
                    0 <= i < n && (#[trigger] list[k]).slot == iat::offset_by(slot, 8 * i)
                        && #[trigger] iat::function_of_thunk(p.memory.number(iat::offset_by(lookup, 8 * i)))
                        == Some(list[k].function)
            &&& over_imports(once, base, purpose, SocketLibrary::Wsock32, lookup, slot, n) == once
        }),
{
    let purpose = Purpose::Install(hooks);
    let list = imports_in(p.memory, base, SocketLibrary::Wsock32, lookup, slot, n, true);
    let cells = cells_of(list);
    let once = over_imports(p, base, purpose, SocketLibrary::Wsock32, lookup, slot, n);
    lemma_over_imports(
        p.memory,
        cells,
        Set::empty(),
        p,
        base,
        purpose,
        SocketLibrary::Wsock32,
        lookup,
        slot,
        n,
        in_slots,
    );
    lemma_visit_all(p, purpose, list);
    lemma_visit_all_outside(p, purpose, list);
    lemma_all_hooked(p, hooks, list);
    assert forall|k: int| 0 <= k < list.len() implies (once.memory.number(#[trigger] list[k].slot)
        != p.memory.number(list[k].slot) <==> is_patched(p.memory, purpose, list[k])) by {
        assert(once.memory.number(list[k].slot) == left_in_slot(p.memory, purpose, list[k]));
    }
    assert forall|k: int| 0 <= k < list.len() implies exists|i: int|
        0 <= i < n && (#[trigger] list[k]).slot == iat::offset_by(slot, 8 * i)
            && #[trigger] iat::function_of_thunk(p.memory.number(iat::offset_by(lookup, 8 * i))) == Some(
            list[k].function,
        ) by {
        let i = lemma_wsock32_imports(p.memory, base, lookup, slot, n, k);
        assert(iat::function_of_thunk(p.memory.number(iat::offset_by(lookup, 8 * i))) == Some(
            list[k].function,
        ));
    }
    lemma_idle_imports(
        p.memory,
        cells,
        once,
        base,
        hooks,
        SocketLibrary::Wsock32,
        lookup,
        slot,
        n,
        in_slots,
    );
}

// ---- putting functions back ----

/// What is read to find imports for hooks is read to put functions back too.
proof fn lemma_steady_imports_to_install(
    m: ProcessMemory,
    cells: Set<u64>,
    base: u64,
    library: SocketLibrary,
    lookup: u64,
    slot: u64,
    n: nat,
)
    requires
        imports_steady(m, cells, base, library, lookup, slot, n, false, false),
    ensures
        imports_steady(m, cells, base, library, lookup, slot, n, true, false),
    decreases n,
{
    if n > 0 && (m.there)(lookup) && (m.there)(slot) && m.number(lookup) != 0 {
        lemma_steady_imports_to_install(
            m,
            cells,
            base,
            library,
            iat::offset_by(lookup, 8),
            iat::offset_by(slot, 8),
            (n - 1) as nat,
        );
    }
}

proof fn lemma_steady_libraries_to_install(
    m: ProcessMemory,
    cells: Set<u64>,
    base: u64,
    at: u64,
    n: nat,
)
    requires
        libraries_steady(m, cells, base, at, n, false, false),
    ensures
        libraries_steady(m, cells, base, at, n, true, false),
    decreases n,
{
    let descriptor = iat::descriptor_of(m.load(at, 20));
    if n > 0 && (m.there)(at) && !descriptor.is_last() {
        let name_at = iat::offset_by(base, descriptor.name_rva as int);
        match iat::library_named(m.c_string(name_at, LONGEST_LIBRARY_NAME as nat)) {
            Some(library) => if (m.there)(name_at) {
                lemma_steady_imports_to_install(
                    m,
                    cells,
                    base,
                    library,
                    iat::offset_by(base, descriptor.lookup_rva() as int),
                    iat::offset_by(base, descriptor.first_thunk as int),
                    LONGEST_LIST as nat,
                );
            },
            None => {},
        }
        lemma_steady_libraries_to_install(m, cells, base, iat::offset_by(at, 20), (n - 1) as nat);
    }
}

/// Whether all of these imports are among those, and no two share a byte of their slots if no
/// two of those do.
spec fn picked_from(some: Seq<Import>, all: Seq<Import>) -> bool {
    &&& forall|k: int| 0 <= k < some.len() ==> all.contains(#[trigger] some[k])
    &&& pairwise_apart(all) ==> pairwise_apart(some)
}

proof fn lemma_picked_parts(a: Seq<Import>, b: Seq<Import>, all_a: Seq<Import>, all_b: Seq<Import>)
    requires
        picked_from(a, all_a),
        picked_from(b, all_b),
    ensures
        picked_from(a + b, all_a + all_b),
{
    let some = a + b;
    let all = all_a + all_b;
    assert forall|k: int| 0 <= k < some.len() implies all.contains(#[trigger] some[k]) by {
        if k < a.len() {
            let j = choose|j: int| 0 <= j < all_a.len() && all_a[j] == a[k];
            assert(all[j] == some[k]);
        } else {
            let j = choose|j: int| 0 <= j < all_b.len() && all_b[j] == b[k - a.len()];
            assert(all[all_a.len() + j] == some[k]);
        }
    }
    if pairwise_apart(all) {
        assert forall|i: int, j: int| 0 <= i < j < all_a.len() implies slots_apart(
            #[trigger] all_a[i].slot,
            #[trigger] all_a[j].slot,
        ) by {
            assert(all[i] == all_a[i] && all[j] == all_a[j]);
            assert(slots_apart(all[i].slot, all[j].slot));
        }
        let n = all_a.len() as int;
        assert forall|i: int, j: int| 0 <= i < j < all_b.len() implies slots_apart(
            #[trigger] all_b[i].slot,
            #[trigger] all_b[j].slot,
        ) by {
            assert(all[n + i] == all_b[i] && all[n + j] == all_b[j]);
            assert(slots_apart(all[n + i].slot, all[n + j].slot));
        }
        assert forall|i: int, j: int| 0 <= i < j < some.len() implies slots_apart(
            #[trigger] some[i].slot,
            #[trigger] some[j].slot,
        ) by {
            if j < a.len() {
                assert(some[i] == a[i] && some[j] == a[j]);
                assert(slots_apart(a[i].slot, a[j].slot));
            } else if i >= a.len() {
                assert(some[i] == b[i - a.len()] && some[j] == b[j - a.len()]);
                assert(slots_apart(b[i - a.len()].slot, b[j - a.len()].slot));
            } else {
                assert(all_a.contains(a[i]));
                assert(all_b.contains(b[j - a.len()]));
                let x = choose|x: int| 0 <= x < all_a.len() && all_a[x] == a[i];
                let y = choose|y: int| 0 <= y < all_b.len() && all_b[y] == b[j - a.len()];
                assert(all[x] == a[i] && all[n + y] == b[j - a.len()]);
                assert(slots_apart(all[x].slot, all[n + y].slot));
            }
        }
    }
}

proof fn lemma_picked_imports(
    m: ProcessMemory,
    base: u64,
    library: SocketLibrary,
    lookup: u64,
    slot: u64,
    n: nat,
)
    ensures
        picked_from(
            imports_in(m, base, library, lookup, slot, n, true),
            imports_in(m, base, library, lookup, slot, n, false),
        ),
    decreases n,
{
    let thunk = m.number(lookup);
    if n > 0 && (m.there)(lookup) && (m.there)(slot) && thunk != 0 {
        let next_lookup = iat::offset_by(lookup, 8);
        let next_slot = iat::offset_by(slot, 8);
        let some = imports_in(m, base, library, next_lookup, next_slot, (n - 1) as nat, true);
        let all = imports_in(m, base, library, next_lookup, next_slot, (n - 1) as nat, false);
        lemma_picked_imports(m, base, library, next_lookup, next_slot, (n - 1) as nat);
        let none = Seq::<Import>::empty();
        match imported_function(m, base, library, thunk, false) {
            Some(function) => {
                let one = seq![Import { function, slot }];
                if imported_function(m, base, library, thunk, true) is Some {
                    assert(one.contains(one[0]));
                    assert(picked_from(one, one));
                    lemma_picked_parts(one, some, one, all);
                } else {
                    assert(picked_from(none, one));
                    lemma_picked_parts(none, some, one, all);
                    assert(none + some =~= some);
                }
            },
            None => {},
        }
    }
}

proof fn lemma_picked_libraries(m: ProcessMemory, base: u64, at: u64, n: nat)
    ensures
        picked_from(imports_from(m, base, at, n, true), imports_from(m, base, at, n, false)),
    decreases n,
{
    let descriptor = iat::descriptor_of(m.load(at, 20));
    if n > 0 && (m.there)(at) && !descriptor.is_last() {
        let next_at = iat::offset_by(at, 20);
        let name_at = iat::offset_by(base, descriptor.name_rva as int);
        lemma_picked_libraries(m, base, next_at, (n - 1) as nat);
        match iat::library_named(m.c_string(name_at, LONGEST_LIBRARY_NAME as nat)) {
            Some(library) => lemma_picked_imports(
                m,
                base,
                library,
                iat::offset_by(base, descriptor.lookup_rva() as int),
                iat::offset_by(base, descriptor.first_thunk as int),
                LONGEST_LIST as nat,
            ),
            None => {},
        }
        lemma_picked_parts(
            imports_of(m, base, descriptor, true),
            imports_from(m, base, next_at, (n - 1) as nat, true),
            imports_of(m, base, descriptor, false),
            imports_from(m, base, next_at, (n - 1) as nat, false),
        );
    }
}

proof fn lemma_picked_cells(some: Seq<Import>, all: Seq<Import>)
    requires
        picked_from(some, all),
    ensures
        cells_of(some).subset_of(cells_of(all)),
{
    assert forall|addr: u64| #[trigger] cells_of(some).contains(addr) implies cells_of(all).contains(addr) by {
        let k = choose|k: int| 0 <= k < some.len() && covers(#[trigger] some[k].slot, addr);
        assert(all.contains(some[k]));
        let j = choose|j: int| 0 <= j < all.len() && all[j] == some[k];
        assert(covers(all[j].slot, addr));
    }
}

/// Whether no slot of these imports holds its hook.
pub open spec fn none_hooked(memory: ProcessMemory, hooks: FunctionAddresses, list: Seq<Import>) -> bool {
    forall|k: int|
        0 <= k < list.len() ==> memory.number(#[trigger] list[k].slot) != hooks.address(list[k].function)
}

/// Whether the slots of one function, among these imports, hold the same address or none.
pub open spec fn one_address_each(memory: ProcessMemory, list: Seq<Import>) -> bool {
    forall|i: int, j: int|
        #![trigger list[i], list[j]]
        0 <= i < list.len() && 0 <= j < list.len() && list[i].function == list[j].function
            && memory.number(list[i].slot) != 0 && memory.number(list[j].slot) != 0 ==> memory.number(
            list[i].slot,
        ) == memory.number(list[j].slot)
}

/// What a slot holds after hooks were put in and taken out again.
proof fn lemma_restored_slot(
    p: Progress,
    hooks: FunctionAddresses,
    some: Seq<Import>,
    all: Seq<Import>,
    k: int,
)
    requires
        0 <= k < all.len(),
        pairwise_apart(all),
        picked_from(some, all),
        none_hooked(p.memory, hooks, all),
        one_address_each(p.memory, some),
    ensures
        ({
            let q = visit_all(p, Purpose::Install(hooks), some);
            let back = Purpose::Restore { hooks, originals: q.kept };
            left_in_slot(q.memory, back, all[k]) == p.memory.number(all[k].slot)
        }),
{
    let install = Purpose::Install(hooks);
    let q = visit_all(p, install, some);
    let back = Purpose::Restore { hooks, originals: q.kept };
    lemma_visit_all(p, install, some);
    lemma_visit_all_outside(p, install, some);
    let function = all[k].function;
    let before = p.memory.number(all[k].slot);
    if some.contains(all[k]) {
        let i = choose|i: int| 0 <= i < some.len() && some[i] == all[k];
        assert(q.memory.number(some[i].slot) == left_in_slot(p.memory, install, some[i]));
        if is_patched(p.memory, install, some[i]) {
            lemma_kept(p, hooks, some, function);
            lemma_kept_same(p.memory, hooks, some, function, p.kept.address(function), i);
        }
    } else {
        assert forall|i: int| 0 <= i < some.len() implies slots_apart(
            #[trigger] some[i].slot,
            all[k].slot,
        ) by {
            assert(all.contains(some[i]));
            let j = choose|j: int| 0 <= j < all.len() && all[j] == some[i];
            assert(j != k);
            if j < k {
                assert(slots_apart(all[j].slot, all[k].slot));
            } else {
                assert(slots_apart(all[k].slot, all[j].slot));
            }
        }
        lemma_apart_from_list(some, all[k].slot);
        lemma_same_load(p.memory, q.memory, cells_of(some), all[k].slot, 8);
    }
}

/// Where all slots of a function hold one address, that address is kept.
proof fn lemma_kept_same(
    m: ProcessMemory,
    hooks: FunctionAddresses,
    list: Seq<Import>,
    function: HookedFunction,
    before: u64,
    i: int,
)
    requires
        0 <= i < list.len(),
        list[i].function == function,
        wants_patch(m, Purpose::Install(hooks), list[i]),
        one_address_each(m, list),
    ensures
        kept_for(m, Purpose::Install(hooks), list, function, before) == m.number(list[i].slot),
    decreases list.len(),
{
    let last = list.last();
    assert(list[list.len() - 1] == last);
    if !(last.function == function && wants_patch(m, Purpose::Install(hooks), last)) {
        let init = list.drop_last();
        assert(init[i] == list[i]);
        lemma_kept_same(m, hooks, init, function, before, i);
    }
}

/// Meeting imports to put hooks in, and then those and more to put functions back, gives the
/// memory back.
proof fn lemma_visits_undone(p: Progress, hooks: FunctionAddresses, some: Seq<Import>, all: Seq<Import>)
    requires
        pairwise_apart(all),
        picked_from(some, all),
        none_hooked(p.memory, hooks, all),
        one_address_each(p.memory, some),
    ensures
        ({
            let hooked = visit_all(p, Purpose::Install(hooks), some);
            let back = Purpose::Restore { hooks, originals: hooked.kept };
            visit_all(hooked, back, all).memory == p.memory
        }),
{
    let m = p.memory;
    let cells = cells_of(all);
    let install = Purpose::Install(hooks);
    let hooked = visit_all(p, install, some);
    let back = Purpose::Restore { hooks, originals: hooked.kept };
    let restored = visit_all(hooked, back, all);
    lemma_visit_all_outside(p, install, some);
    lemma_picked_cells(some, all);
    lemma_same_outside_more(m, hooked.memory, cells_of(some), cells);
    lemma_visit_all(hooked, back, all);
    lemma_visit_all_outside(hooked, back, all);
    assert forall|addr: u64| #[trigger] (restored.memory.byte)(addr) == (m.byte)(addr) by {
        if cells.contains(addr) {
            let k = choose|k: int| 0 <= k < all.len() && covers(#[trigger] all[k].slot, addr);
            lemma_restored_slot(p, hooks, some, all, k);
            assert(restored.memory.number(all[k].slot) == left_in_slot(hooked.memory, back, all[k]));
            lemma_slot_bytes(restored.memory, m, all[k].slot, addr);
        } else {
            assert((hooked.memory.byte)(addr) == (restored.memory.byte)(addr));
            assert((m.byte)(addr) == (hooked.memory.byte)(addr));
        }
    }
    assert(restored.memory.byte =~= m.byte);
}

proof fn lemma_steady_to_install(m: ProcessMemory, cells: Set<u64>, base: u64)
    requires
        module_steady(m, cells, base, false, false),
    ensures
        module_steady(m, cells, base, true, false),
{
    match directory_of(m, base) {
        Some(at) => lemma_steady_libraries_to_install(m, cells, base, at, LONGEST_LIST as nat),
        None => {},
    }
}

proof fn lemma_picked(m: ProcessMemory, base: u64)
    ensures
        picked_from(listed(m, base, true), listed(m, base, false)),
{
    match directory_of(m, base) {
        Some(at) => lemma_picked_libraries(m, base, at, LONGEST_LIST as nat),
        None => {},
    }
}

/// Taking the hooks out of a module again gives back the memory as it was before they were put
/// in, where before no slot held its hook, and all slots of one function held the same address
/// or none: one address is kept of each function.
pub proof fn law_restore_undoes_install(p: Progress, base: u64, hooks: FunctionAddresses)
    requires
        slots_are_own(p.memory, base, false, false),
        none_hooked(p.memory, hooks, listed(p.memory, base, false)),
        one_address_each(p.memory, listed(p.memory, base, true)),
    ensures
        ({
            let hooked = walk_over(p, base, Purpose::Install(hooks));
            let back = Purpose::Restore { hooks, originals: hooked.kept };
            walk_over(hooked, base, back).memory == p.memory
        }),
{
    let m = p.memory;
    let all = listed(m, base, false);
    let some = listed(m, base, true);
    let cells = cells_of(all);
    let install = Purpose::Install(hooks);
    lemma_picked(m, base);
    lemma_picked_cells(some, all);
    lemma_steady_to_install(m, cells, base);
    lemma_over_module(m, cells, Set::empty(), p, base, install, false);
    let hooked = visit_all(p, install, some);
    lemma_visit_all_outside(p, install, some);
    let back = Purpose::Restore { hooks, originals: hooked.kept };
    lemma_over_module(m, cells, cells_of(some), hooked, base, back, false);
    lemma_visits_undone(p, hooks, some, all);
}

// ---- all modules ----

/// What walks through the imports of these modules, one after the other, come to.
pub open spec fn walk_modules(p: Progress, bases: Seq<u64>, purpose: Purpose) -> Progress
    decreases bases.len(),
{
    if bases.len() == 0 {
        p
    } else {
        walk_over(walk_modules(p, bases.drop_last(), purpose), bases.last(), purpose)
    }
}

/// The hooked functions that these modules import.
pub open spec fn listed_in(memory: ProcessMemory, bases: Seq<u64>, installing: bool) -> Seq<Import>
    decreases bases.len(),
{
    if bases.len() == 0 {
        Seq::empty()
    } else {
        listed_in(memory, bases.drop_last(), installing) + listed(memory, bases.last(), installing)
    }
}

proof fn lemma_over_modules(
    m: ProcessMemory,
    cells: Set<u64>,
    met: Set<u64>,
    p: Progress,
    bases: Seq<u64>,
    purpose: Purpose,
    in_slots: bool,
)
    requires
        forall|i: int|
            0 <= i < bases.len() ==> module_steady(
                m,
                cells,
                #[trigger] bases[i],
                purpose is Install,
                in_slots,
            ),
        same_outside(m, p.memory, met),
        ahead(listed_in(m, bases, purpose is Install), cells, met, in_slots),
    ensures
        walk_modules(p, bases, purpose) == visit_all(
            p,
            purpose,
            listed_in(m, bases, purpose is Install),
        ),
    decreases bases.len(),
{
    if bases.len() > 0 {
        let init = bases.drop_last();
        let base = bases.last();
        let first = listed_in(m, init, purpose is Install);
        let rest = listed(m, base, purpose is Install);
        lemma_ahead(m, p, purpose, first, rest, cells, met, in_slots);
        assert forall|i: int| 0 <= i < init.len() implies module_steady(
            m,
            cells,
            #[trigger] init[i],
            purpose is Install,
            in_slots,
        ) by {
            assert(init[i] == bases[i]);
        }
        lemma_over_modules(m, cells, met, p, init, purpose, in_slots);
        let q = visit_all(p, purpose, first);
        assert(bases[bases.len() - 1] == base);
        lemma_over_module(m, cells, met.union(cells_of(first)), q, base, purpose, in_slots);
        lemma_visit_all_add(p, purpose, first, rest);
    }
}

/// Walks through the imports of several modules, whose slots are used for nothing else, meet the
/// imports that the modules list, each once and in order.
pub proof fn law_walks_meet_the_listed_imports(
    p: Progress,
    bases: Seq<u64>,
    purpose: Purpose,
    in_slots: bool,
)
    requires
        ({
            let list = listed_in(p.memory, bases, purpose is Install);
            &&& pairwise_apart(list)
            &&& forall|i: int|
                0 <= i < bases.len() ==> module_steady(
                    p.memory,
                    cells_of(list),
                    #[trigger] bases[i],
                    purpose is Install,
                    in_slots,
                )
        }),
    ensures
        walk_modules(p, bases, purpose) == visit_all(
            p,
            purpose,
            listed_in(p.memory, bases, purpose is Install),
        ),
{
    let cells = cells_of(listed_in(p.memory, bases, purpose is Install));
    lemma_over_modules(p.memory, cells, Set::empty(), p, bases, purpose, in_slots);
}

proof fn lemma_picked_modules(m: ProcessMemory, entries: Seq<iat::ModuleEntry>)
    ensures
        picked_from(
            listed_in(m, iat::hooked_bases(entries), true),
            listed_in(m, iat::nonzero_bases(entries), false),
        ),
    decreases entries.len(),
{
    if entries.len() > 0 {
        let init = entries.drop_last();
        let last = entries.last();
        let hooked = iat::hooked_bases(init);
        let walked = iat::nonzero_bases(init);
        let some = listed_in(m, hooked, true);
        let all = listed_in(m, walked, false);
        lemma_picked_modules(m, init);
        if last.base != 0 {
            assert(walked.push(last.base).drop_last() =~= walked);
            if iat::entry_is_hooked(last) {
                assert(hooked.push(last.base).drop_last() =~= hooked);
                lemma_picked(m, last.base);
                lemma_picked_parts(
                    some,
                    listed(m, last.base, true),
                    all,
                    listed(m, last.base, false),
                );
            } else {
                let none = Seq::<Import>::empty();
                assert(picked_from(none, listed(m, last.base, false)));
                lemma_picked_parts(some, none, all, listed(m, last.base, false));
                assert(some + none =~= some);
            }
        }
    }
}

proof fn lemma_nothing_to_restore(
    p: Progress,
    hooks: FunctionAddresses,
    originals: FunctionAddresses,
    list: Seq<Import>,
)
    requires
        originals.are_none(),
    ensures
        visit_all(p, Purpose::Restore { hooks, originals }, list) == p,
    decreases list.len(),
{
    if list.len() > 0 {
        lemma_nothing_to_restore(p, hooks, originals, list.drop_last());
    }
}

/// Taking the hooks out of all modules gives back the memory as it was before they were put in,
/// whichever of the functions are imported. No two slots may overlap, no slot may be read to find
/// imports, none may have held its hook, and all slots of one function have to have held the same
/// address or none.
pub proof fn law_uninstall_undoes_install(
    p: Progress,
    entries: Seq<iat::ModuleEntry>,
    hooks: FunctionAddresses,
)
    requires
        ({
            let bases = iat::nonzero_bases(entries);
            let all = listed_in(p.memory, bases, false);
            &&& pairwise_apart(all)
            &&& forall|i: int|
                0 <= i < bases.len() ==> module_steady(
                    p.memory,
                    cells_of(all),
                    #[trigger] bases[i],
                    false,
                    false,
                )
            &&& none_hooked(p.memory, hooks, all)
        }),
        one_address_each(p.memory, listed_in(p.memory, iat::hooked_bases(entries), true)),
    ensures
        ({
            let hooked = walk_modules(p, iat::hooked_bases(entries), Purpose::Install(hooks));
            let restored = walk_modules(
                hooked,
                iat::restored_bases(entries, hooked.kept),
                Purpose::Restore { hooks, originals: hooked.kept },
            );
            restored.memory == p.memory
        }),
{
    let m = p.memory;
    let bases = iat::nonzero_bases(entries);
    let hooked_ones = iat::hooked_bases(entries);
    let all = listed_in(m, bases, false);
    let some = listed_in(m, hooked_ones, true);
    let cells = cells_of(all);
    let install = Purpose::Install(hooks);
    lemma_picked_modules(m, entries);
    lemma_picked_cells(some, all);
    assert forall|i: int| 0 <= i < hooked_ones.len() implies module_steady(
        m,
        cells,
        #[trigger] hooked_ones[i],
        true,
        false,
    ) by {
        assert(hooked_ones.contains(hooked_ones[i]));
        let any = FunctionAddresses { send: 1, recv: 0, wsasend: 0, wsarecvex: 0 };
        iat::law_hooked_modules_are_restored(entries, any, HookedFunction::Send, hooked_ones[i]);
        let j = choose|j: int| 0 <= j < bases.len() && bases[j] == hooked_ones[i];
        assert(module_steady(m, cells, bases[j], false, false));
        lemma_steady_to_install(m, cells, hooked_ones[i]);
    }
    lemma_over_modules(m, cells, Set::empty(), p, hooked_ones, install, false);
    let hooked = visit_all(p, install, some);
    lemma_visit_all_outside(p, install, some);
    let back = Purpose::Restore { hooks, originals: hooked.kept };
    lemma_over_modules(m, cells, cells_of(some), hooked, bases, back, false);
    lemma_visits_undone(p, hooks, some, all);
    if hooked.kept.are_none() {
        lemma_nothing_to_restore(hooked, hooks, hooked.kept, all);
    }
}

// ---- laws on the imports of a module ----

/// Which function an import names. In WSOCK32.dll it is the one of its ordinal. In WS2_32.dll an
/// import by ordinal names none; one by name has it two bytes behind where its low 31 bits point, up
/// to a zero byte and 64 bytes at most, and names WSASend if that is the name, or no function.
pub proof fn law_imported_functions(memory: ProcessMemory, base: u64, thunk: u64, installing: bool)
    ensures
        imported_function(memory, base, SocketLibrary::Wsock32, thunk, installing)
            == iat::function_of_thunk(thunk),
        thunk >= 0x8000_0000_0000_0000 ==> imported_function(
            memory,
            base,
            SocketLibrary::Ws2_32,
            thunk,
            installing,
        ) is None,
        thunk < 0x8000_0000_0000_0000 && base + 0x8000_0002 < 0x1_0000_0000_0000_0000 ==> {
            let hint = (base + thunk as int % 0x8000_0000) as u64;
            let name_at = (hint + 2) as u64;
            let named = imported_function(memory, base, SocketLibrary::Ws2_32, thunk, installing);
            &&& (named is None || named == Some(HookedFunction::WsaSend))
            &&& (named is Some <==> (memory.there)(name_at) && (!installing || (memory.there)(hint))
                && iat::is_wsasend(memory.c_string(name_at, 64)))
        },
{
}

/// A text in memory ends at the first zero byte, where memory ends, or at its limit, and holds the
/// bytes up to there.
pub proof fn law_texts_in_memory(memory: ProcessMemory, addr: u64, max: nat)
    ensures
        ({
            let s = memory.c_string(addr, max);
            let end = iat::offset_by(addr, s.len() as int);
            &&& s.len() <= max
            &&& forall|i: int|
                0 <= i < s.len() ==> (#[trigger] s[i]) != 0 && s[i] == (memory.byte)(
                    iat::offset_by(addr, i),
                ) && (memory.there)(iat::offset_by(addr, i))
            &&& s.len() < max ==> !(memory.there)(end) || (memory.byte)(end) == 0
        }),
    decreases max,
{
    let s = memory.c_string(addr, max);
    lemma_offsets(addr, 0, 0);
    if max == 0 || !(memory.there)(addr) || (memory.byte)(addr) == 0 {
    } else {
        let next = iat::offset_by(addr, 1);
        let rest = memory.c_string(next, (max - 1) as nat);
        law_texts_in_memory(memory, next, (max - 1) as nat);
        lemma_offsets(addr, 1, rest.len() as int);
        assert forall|i: int| 0 <= i < s.len() implies (#[trigger] s[i]) != 0 && s[i] == (memory.byte)(
            iat::offset_by(addr, i),
        ) && (memory.there)(iat::offset_by(addr, i)) by {
            if i > 0 {
                assert(s[i] == rest[i - 1]);
                lemma_offsets(addr, 1, i - 1);
            }
        }
    }
}

/// The imports of a library stand eight bytes apart, and so do their slots. The first is listed with
/// its slot if it names a hooked function, and the others follow; nothing is listed from where memory
/// ends or a zero stands on.
pub proof fn law_imports_are_listed(
    memory: ProcessMemory,
    base: u64,
    library: SocketLibrary,
    lookup: u64,
    slot: u64,
    n: nat,
    installing: bool,
)
    requires
        n > 0,
        lookup < 0xFFFF_FFFF_FFFF_FFF0,
        slot < 0xFFFF_FFFF_FFFF_FFF0,
    ensures
        ({
            let all = imports_in(memory, base, library, lookup, slot, n, installing);
            let rest = imports_in(
                memory,
                base,
                library,
                (lookup + 8) as u64,
                (slot + 8) as u64,
                (n - 1) as nat,
                installing,
            );
            let thunk = memory.number(lookup);
            let named = imported_function(memory, base, library, thunk, installing);
            let is_one = (memory.there)(lookup) && (memory.there)(slot) && thunk != 0;
            &&& !is_one ==> all.len() == 0
            &&& is_one && named is Some ==> all == seq![Import { function: named->0, slot }] + rest
            &&& is_one && named is None ==> all == rest
        }),
{
    assert(iat::offset_by(lookup, 8) == lookup + 8);
    assert(iat::offset_by(slot, 8) == slot + 8);
}

/// The descriptors of a directory stand twenty bytes apart. The imports of the first one's library
/// are listed, and those of the others follow; nothing is listed from where memory ends or the last
/// descriptor stands on.
pub proof fn law_libraries_are_listed(memory: ProcessMemory, base: u64, at: u64, n: nat, installing: bool)
    requires
        n > 0,
        at < 0xFFFF_FFFF_FFFF_FF00,
    ensures
        ({
            let all = imports_from(memory, base, at, n, installing);
            let rest = imports_from(memory, base, (at + 20) as u64, (n - 1) as nat, installing);
            let descriptor = iat::descriptor_of(memory.load(at, 20));
            let is_one = (memory.there)(at) && !descriptor.is_last();
            &&& !is_one ==> all.len() == 0
            &&& is_one ==> all == imports_of(memory, base, descriptor, installing) + rest
        }),
{
    assert(iat::offset_by(at, 20) == at + 20);
}

/// The imports of a library are listed under the name that its descriptor leads to, of at most 128
/// bytes, from where the descriptor says that the imports are listed and that their slots are, at
/// most 4096 of them. Only those of the socket libraries are.
pub proof fn law_where_imports_are_listed(
    memory: ProcessMemory,
    base: u64,
    descriptor: ImportDescriptor,
    installing: bool,
)
    requires
        base < 0x7FFF_FFFF_FFFF_FFFF,
    ensures
        ({
            let name_at = (base + descriptor.name_rva) as u64;
            let library = iat::library_named(memory.c_string(name_at, 128));
            let imports = imports_of(memory, base, descriptor, installing);
            &&& library is None || !(memory.there)(name_at) ==> imports.len() == 0
            &&& library is Some && (memory.there)(name_at) ==> imports == imports_in(
                memory,
                base,
                library->0,
                (base + descriptor.lookup_rva()) as u64,
                (base + descriptor.first_thunk) as u64,
                4096,
                installing,
            )
        }),
{
    assert(iat::offset_by(base, descriptor.name_rva as int) == base + descriptor.name_rva);
    assert(iat::offset_by(base, descriptor.lookup_rva() as int) == base + descriptor.lookup_rva());
    assert(iat::offset_by(base, descriptor.first_thunk as int) == base + descriptor.first_thunk);
}

/// A module lists its imports in the directory that its headers lead to, at most 4096 libraries. One
/// without headers or directory lists none.
pub proof fn law_where_libraries_are_listed(memory: ProcessMemory, base: u64, installing: bool)
    ensures
        match directory_of(memory, base) {
            Some(at) => listed(memory, base, installing) == imports_from(memory, base, at, 4096, installing),
            None => listed(memory, base, installing).len() == 0,
        },
        !(memory.there)(base) ==> directory_of(memory, base) is None,
        (memory.there)(base) ==> match iat::nt_headers_at(base, memory.load(base, 64)) {
            Some(nt) => directory_of(memory, base) == (if (memory.there)(nt) {
                iat::import_directory_at(base, memory.load(nt, 148))
            } else {
                None
            }),
            None => directory_of(memory, base) is None,
        },
{
}

} // verus!
