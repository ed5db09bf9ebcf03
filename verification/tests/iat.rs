use wiz_packets::iat::{
    import_directory, is_readable, module_is_hooked, modules_to_hook, modules_to_restore, names_wsasend, nt_headers,
    socket_library, thunk_function, FunctionAddresses, HookedFunction, ImportWalk, ModuleEntry, ModuleList, Purpose,
    SocketLibrary, WalkAction, WalkReply,
};

const BASE: u64 = 0x1_4000_0000;
const HOOKS: FunctionAddresses = FunctionAddresses { send: 0xA1, recv: 0xA2, wsasend: 0xA3, wsarecvex: 0xA4 };

/// A module in memory: headers, two socket libraries and one other.
fn image() -> Vec<u8> {
    let mut m = vec![0u8; 0x1000];
    let put = |m: &mut Vec<u8>, at: usize, data: &[u8]| m[at..at + data.len()].copy_from_slice(data);
    put(&mut m, 0, &0x5A4Du16.to_le_bytes());
    put(&mut m, 60, &0x80u32.to_le_bytes());
    put(&mut m, 0x80, &0x4550u32.to_le_bytes());
    put(&mut m, 0x80 + 24, &0x020Bu16.to_le_bytes());
    put(&mut m, 0x80 + 132, &16u32.to_le_bytes());
    put(&mut m, 0x80 + 144, &0x200u32.to_le_bytes());
    let descriptor = |m: &mut Vec<u8>, i: usize, oft: u32, name: u32, ft: u32| {
        put(m, 0x200 + 20 * i, &oft.to_le_bytes());
        put(m, 0x200 + 20 * i + 12, &name.to_le_bytes());
        put(m, 0x200 + 20 * i + 16, &ft.to_le_bytes());
    };
    descriptor(&mut m, 0, 0x400, 0x300, 0x500);
    descriptor(&mut m, 1, 0x600, 0x310, 0x700);
    descriptor(&mut m, 2, 0x800, 0x320, 0x900);
    put(&mut m, 0x300, b"WSOCK32.dll\0");
    put(&mut m, 0x310, b"KERNEL32.dll\0");
    put(&mut m, 0x320, b"ws2_32.DLL\0");
    let ordinal = |n: u64| (0x8000_0000_0000_0000 + n).to_le_bytes();
    for (i, n) in [18u64, 3, 15, 111].iter().enumerate() {
        put(&mut m, 0x400 + 8 * i, &ordinal(*n));
        put(&mut m, 0x500 + 8 * i, &(0x5000 + i as u64).to_le_bytes());
    }
    put(&mut m, 0x800, &0xA00u64.to_le_bytes());
    put(&mut m, 0x808, &0xA20u64.to_le_bytes());
    put(&mut m, 0x810, &ordinal(18));
    put(&mut m, 0x900, &0x9000u64.to_le_bytes());
    put(&mut m, 0x908, &0x9001u64.to_le_bytes());
    put(&mut m, 0x910, &0x9002u64.to_le_bytes());
    put(&mut m, 0xA02, b"WSAStartup\0");
    put(&mut m, 0xA22, b"WSASend\0");
    m
}

/// Walks the module, and returns the patched slots, the kept addresses and the count.
fn walk(m: &mut Vec<u8>, purpose: Purpose, writable: bool) -> (Vec<(u64, u64)>, Vec<(HookedFunction, u64)>, u32) {
    let (mut walk, mut action) = ImportWalk::begin(BASE, purpose);
    let mut patched = Vec::new();
    let mut kept = Vec::new();
    loop {
        let reply = match action {
            WalkAction::Finish => return (patched, kept, walk.patched),
            WalkAction::Probe { addr } => {
                WalkReply::Probed(addr >= BASE && addr < BASE + m.len() as u64)
            }
            WalkAction::Load { addr, len } => {
                let at = (addr - BASE) as usize;
                WalkReply::Loaded(m[at..at + len].to_vec())
            }
            WalkAction::Patch { slot, value, keep } => {
                kept.extend(keep);
                if writable {
                    let at = (slot - BASE) as usize;
                    m[at..at + 8].copy_from_slice(&value.to_le_bytes());
                    patched.push((slot - BASE, value));
                }
                WalkReply::Patched(writable)
            }
        };
        action = walk.step(&reply);
    }
}

const NONE: FunctionAddresses = FunctionAddresses { send: 0, recv: 0, wsasend: 0, wsarecvex: 0 };

fn originals(kept: &[(HookedFunction, u64)]) -> FunctionAddresses {
    let mut originals = NONE;
    for (function, address) in kept {
        match function {
            HookedFunction::Send => originals.send = *address,
            HookedFunction::Recv => originals.recv = *address,
            HookedFunction::WsaSend => originals.wsasend = *address,
            HookedFunction::WsaRecvEx => originals.wsarecvex = *address,
        }
    }
    originals
}

fn module(name: &str, base: u64) -> ModuleEntry {
    let mut name_field: Vec<u16> = name.encode_utf16().collect();
    name_field.push(0);
    ModuleEntry { name_field, base }
}

#[test]
fn hooks_are_put_into_matching_slots() {
    let mut m = image();
    let (patched, kept, count) = walk(&mut m, Purpose::Install(HOOKS), true);
    assert_eq!(patched, vec![(0x500, 0xA1), (0x510, 0xA2), (0x518, 0xA4), (0x908, 0xA3)]);
    assert_eq!(kept, vec![
        (HookedFunction::Send, 0x5000),
        (HookedFunction::Recv, 0x5002),
        (HookedFunction::WsaRecvEx, 0x5003),
        (HookedFunction::WsaSend, 0x9001),
    ]);
    assert_eq!(count, 4);
}

#[test]
fn hooks_are_put_in_only_once() {
    let mut m = image();
    walk(&mut m, Purpose::Install(HOOKS), true);
    assert_eq!(walk(&mut m, Purpose::Install(HOOKS), true), (vec![], vec![], 0));
}

#[test]
fn what_was_hooked_is_put_back() {
    let mut m = image();
    let (_, kept, _) = walk(&mut m, Purpose::Install(HOOKS), true);
    assert_ne!(m, image());
    let restore = Purpose::Restore { hooks: HOOKS, originals: originals(&kept) };
    assert_eq!(walk(&mut m, restore, true).2, 4);
    assert_eq!(m, image());
}

#[test]
fn all_modules_are_put_back() {
    let mut wsasend_only = image();
    wsasend_only[0x300] = b'X';
    let before = vec![image(), wsasend_only];
    let mut modules = before.clone();
    let mut all_kept = Vec::new();
    for m in modules.iter_mut() {
        all_kept.extend(walk(m, Purpose::Install(HOOKS), true).1);
    }
    assert_eq!(all_kept.len(), 5);
    assert_ne!(modules, before);
    for m in modules.iter_mut() {
        walk(m, Purpose::Restore { hooks: HOOKS, originals: originals(&all_kept) }, true);
    }
    assert_eq!(modules, before);
}

#[test]
fn only_hooked_slots_are_put_back() {
    let mut m = image();
    let others = FunctionAddresses { send: 0xB1, recv: 0xB2, wsasend: 0xB3, wsarecvex: 0xB4 };
    assert_eq!(walk(&mut m, Purpose::Restore { hooks: HOOKS, originals: others }, true), (vec![], vec![], 0));
    assert_eq!(m, image());

    let (_, kept, _) = walk(&mut m, Purpose::Install(HOOKS), true);
    m[0x510..0x518].copy_from_slice(&0x7777u64.to_le_bytes());
    let kept = FunctionAddresses { wsarecvex: 0, ..originals(&kept) };
    let (patched, _, _) = walk(&mut m, Purpose::Restore { hooks: HOOKS, originals: kept }, true);
    assert_eq!(patched, vec![(0x500, 0x5000), (0x908, 0x9001)]);
    assert_eq!(&m[0x510..0x518], &0x7777u64.to_le_bytes());
    assert_eq!(&m[0x518..0x520], &0xA4u64.to_le_bytes());
}

#[test]
fn a_module_that_imports_only_wsasend_is_put_back() {
    let mut m = image();
    m[0x300] = b'X';
    let before = m.clone();
    let (patched, kept, _) = walk(&mut m, Purpose::Install(HOOKS), true);
    assert_eq!(patched, vec![(0x908, 0xA3)]);
    let kept = originals(&kept);
    assert_eq!(kept, FunctionAddresses { wsasend: 0x9001, ..NONE });
    assert_eq!(modules_to_restore(&vec![module("a.exe", BASE)], kept), vec![BASE]);
    walk(&mut m, Purpose::Restore { hooks: HOOKS, originals: kept }, true);
    assert_eq!(m, before);
}

#[test]
fn a_slot_that_cannot_be_written_is_not_counted() {
    let mut m = image();
    let (patched, kept, count) = walk(&mut m, Purpose::Install(HOOKS), false);
    assert!(patched.is_empty());
    assert_eq!(kept.len(), 4);
    assert_eq!(count, 0);
    assert_eq!(m, image());
}

#[test]
fn an_empty_slot_is_left_alone() {
    let mut m = image();
    m[0x500..0x508].fill(0);
    assert_eq!(walk(&mut m, Purpose::Install(HOOKS), true).2, 3);
}

#[test]
fn imports_are_found_without_a_lookup_table() {
    let mut m = image();
    m[0x200..0x204].fill(0);
    let thunks = m[0x400..0x420].to_vec();
    m[0x500..0x520].copy_from_slice(&thunks);
    let (patched, _, _) = walk(&mut m, Purpose::Install(HOOKS), true);
    assert_eq!(patched[0], (0x500, 0xA1));
    assert_eq!(patched.len(), 4);
    assert_eq!(walk(&mut m, Purpose::Install(HOOKS), true), (vec![], vec![], 0));
}

#[test]
fn modules_that_are_none_are_left_alone() {
    for (at, value) in [(0, 0u8), (0x80, 0), (0x80 + 24, 0x0C), (0x80 + 132, 1), (0x80 + 145, 0)] {
        let mut m = image();
        m[at] = value;
        let untouched = m.clone();
        assert_eq!(walk(&mut m, Purpose::Install(HOOKS), true).2, 0, "{}", at);
        assert_eq!(m, untouched);
    }
}

#[test]
fn an_answer_to_another_question_ends_the_walk() {
    let (mut w, _) = ImportWalk::begin(BASE, Purpose::Install(HOOKS));
    assert_eq!(w.step(&WalkReply::Patched(true)), WalkAction::Finish);
    let (mut w, _) = ImportWalk::begin(BASE, Purpose::Install(HOOKS));
    assert_eq!(w.step(&WalkReply::Probed(true)), WalkAction::Load { addr: BASE, len: 64 });
    assert_eq!(w.step(&WalkReply::Loaded(vec![0x4D, 0x5A])), WalkAction::Finish);
    assert_eq!(w.step(&WalkReply::Probed(true)), WalkAction::Finish);
}

#[test]
fn headers_are_read() {
    let m = image();
    assert_eq!(nt_headers(BASE, &m[..64]), Some(BASE + 0x80));
    let mut dos = m[..64].to_vec();
    dos[60..64].copy_from_slice(&(-16i32).to_le_bytes());
    assert_eq!(nt_headers(BASE, &dos), Some(BASE - 16));
    assert_eq!(nt_headers(5, &dos), Some(5u64.wrapping_sub(16)));
    assert_eq!(nt_headers(BASE, &m[..63]), None);
    assert_eq!(import_directory(BASE, &m[0x80..]), Some(BASE + 0x200));
    assert_eq!(import_directory(BASE, &m[..200]), None);
}

#[test]
fn libraries_and_functions_are_known_by_name() {
    assert_eq!(socket_library(b"wsock32.DLL"), Some(SocketLibrary::Wsock32));
    assert_eq!(socket_library(b"WS2_32.dll"), Some(SocketLibrary::Ws2_32));
    assert_eq!(socket_library(b"ws2_32"), None);
    assert_eq!(socket_library(b"\xFF"), None);
    assert!(names_wsasend(b"WSASend"));
    assert!(!names_wsasend(b"wsasend"));
    assert!(!names_wsasend(b"WSASendTo"));
    assert_eq!(thunk_function(0x8000_0000_0000_0012), Some(HookedFunction::Send));
    assert_eq!(thunk_function(0x8000_0000_0000_000F), Some(HookedFunction::Recv));
    assert_eq!(thunk_function(0x8000_0000_0000_006F), Some(HookedFunction::WsaRecvEx));
    assert_eq!(thunk_function(0x8000_0000_0001_0012), Some(HookedFunction::Send));
    assert_eq!(thunk_function(0x8000_0000_0000_0001), None);
    assert_eq!(thunk_function(0x12), None);
}

#[test]
fn some_modules_are_never_hooked() {
    for name in ["WS2_32.dll", "wsock32.dll", "NTDLL.DLL", "wiz_hook.dll", "API-MS-Win-Core.dll", "ext-ms-x.dll"] {
        let entry = module(name, 1);
        assert!(!module_is_hooked(&entry.name_field, 1), "{}", name);
    }
    assert!(module_is_hooked(&module("game.exe", 1).name_field, 1));
    assert!(!module_is_hooked(&module("game.exe", 0).name_field, 0));
    assert!(module_is_hooked(&module("my-api-ms-.dll", 1).name_field, 1));
}

#[test]
fn modules_are_walked_in_order() {
    let entries = || vec![module("a.exe", 10), module("ntdll.dll", 20), module("b.dll", 0), module("c.dll", 30)];
    assert_eq!(modules_to_hook(&ModuleList::Listed(entries())), vec![10, 30]);
    assert_eq!(modules_to_hook(&ModuleList::OnlyMain { base: 7 }), vec![7]);
    assert!(modules_to_hook(&ModuleList::OnlyMain { base: 0 }).is_empty());
    assert_eq!(modules_to_restore(&entries(), HOOKS), vec![10, 20, 30]);
    for kept in [
        FunctionAddresses { send: 1, ..NONE },
        FunctionAddresses { recv: 1, ..NONE },
        FunctionAddresses { wsasend: 1, ..NONE },
        FunctionAddresses { wsarecvex: 1, ..NONE },
    ] {
        assert_eq!(modules_to_restore(&entries(), kept), vec![10, 20, 30]);
    }
    assert!(modules_to_restore(&entries(), NONE).is_empty());
}

#[test]
fn memory_is_readable_where_there_is_a_region() {
    assert!(is_readable(1, Some(1)));
    assert!(!is_readable(0, Some(1)));
    assert!(!is_readable(1, Some(0)));
    assert!(!is_readable(1, None));
}
