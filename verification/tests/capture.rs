use wiz_packets::detour::{abs_jmp, Detour};
use wiz_packets::game_hooks::{
    is_valid_ptr, kinp_frame, on_rxmessage, on_txmessage, prologue_matches, read_ptr, read_ptr_padded, resume,
    safe_read_len, send_kinp_frame, Captured, HookStage, MemoryRegion, Next,
};
use wiz_packets::hook::{
    capture_buffers, init_exit_code, library_event, socket_capture, LibraryEvent, SocketCall, SocketCapture,
};
use wiz_packets::injector::{
    failure_text, find_game_pid, hook_location, remote_path, HookLocation, InjectFailure, InjectStage, ProcessEntry,
};
use wiz_packets::kinp::{KinpDecoder, MessageType};
use wiz_packets::pipe::{capture_frame, parse_frame};

/// Memory that holds bytes at some addresses.
struct Memory(Vec<(u64, Vec<u8>)>);

impl Memory {
    fn read(&self, addr: u64, len: usize) -> Vec<u8> {
        for (at, data) in &self.0 {
            if addr >= *at && addr < at + data.len() as u64 {
                let from = (addr - at) as usize;
                return data[from..].iter().take(len).copied().collect();
            }
        }
        Vec::new()
    }

    fn run(&self, mut next: Next) -> Option<Captured> {
        loop {
            match next {
                Next::Nothing => return None,
                Next::Send(message) => return Some(message),
                Next::Read { addr, len, pending } => next = resume(pending, addr, &self.read(addr, len)),
            }
        }
    }
}

const OBJECT: u64 = 0x20_0000;
const BUFFER: u64 = 0x30_0000;
const CALL: u64 = 0x40_0000;

fn object(data_ptr: u64, payload_len: u32, inline: &[u8]) -> Vec<u8> {
    let mut o = vec![0; 0x30];
    o[0..8].copy_from_slice(&0x7FF6_0000_1000u64.to_le_bytes());
    o[0x10..0x18].copy_from_slice(&data_ptr.to_le_bytes());
    o[0x20..0x24].copy_from_slice(&payload_len.to_le_bytes());
    o[0x28] = 5;
    o[0x29] = 9;
    o.extend(inline);
    o
}

fn memory(object_bytes: Vec<u8>, buffer: Vec<u8>) -> Memory {
    Memory(vec![(OBJECT, object_bytes), (BUFFER, buffer), (CALL, OBJECT.to_le_bytes().to_vec())])
}

fn tx(m: &Memory, p1: u64, p2: u64) -> Option<(u8, u8, Vec<u8>, bool)> {
    m.run(on_txmessage(p1, p2)).map(|c| (c.service_id, c.message_type, c.data, c.is_recv))
}

fn rx(m: &Memory, p1: u64, p2: u64, p3: u64) -> Option<(u8, u8, Vec<u8>, bool)> {
    m.run(on_rxmessage(p1, p2, p3)).map(|c| (c.service_id, c.message_type, c.data, c.is_recv))
}

#[test]
fn pointers_are_read_and_judged() {
    assert!(!is_valid_ptr(0x1_0000));
    assert!(is_valid_ptr(0x1_0001));
    assert!(is_valid_ptr(0x7FFF_FFFF_FFFE));
    assert!(!is_valid_ptr(0x7FFF_FFFF_FFFF));
    assert_eq!(read_ptr(&[1, 2, 3, 4, 5, 6, 7, 8, 9]), 0x0807_0605_0403_0201);
    assert_eq!(read_ptr(&[1, 2, 3, 4, 5, 6, 7]), 0);
    assert_eq!(read_ptr_padded(&[1, 2, 3, 4, 5, 6]), 0x0000_0605_0403_0201);
    assert_eq!(read_ptr_padded(&[]), 0);
    assert_eq!(read_ptr_padded(&[0xFF; 9]), u64::MAX);
}

#[test]
fn readable_memory_is_measured() {
    let region = |state: u32, protect: u32| Some(MemoryRegion { base: 0x1000, size: 0x1000, state, protect });
    assert_eq!(safe_read_len(region(0x1000, 0x04), 0x1800, 0x100), 0x100);
    assert_eq!(safe_read_len(region(0x1000, 0x02), 0x1FF0, 0x100), 0x10);
    assert_eq!(safe_read_len(region(0x1000, 0x80), 0x3000, 0x100), 0);
    assert_eq!(safe_read_len(region(0x2000, 0x04), 0x1800, 0x100), 0);
    assert_eq!(safe_read_len(region(0x1000, 0x01), 0x1800, 0x100), 0);
    assert_eq!(safe_read_len(region(0x1000, 0x104), 0x1800, 0x100), 0);
    assert_eq!(safe_read_len(None, 0x1800, 0x100), 0);
    for protect in [0x02, 0x04, 0x08, 0x20, 0x40, 0x80] {
        assert_eq!(safe_read_len(region(0x1000, protect), 0x1000, 8), 8);
    }
}

#[test]
fn a_sent_message_is_captured_from_its_buffer() {
    let m = memory(object(BUFFER, 6, &[0xEE; 8]), vec![1, 2, 3, 4, 5, 6, 7, 8]);
    let expected = Some((5, 9, vec![1, 2, 3, 4, 5, 6], false));
    assert_eq!(tx(&m, CALL, 8), expected);
    assert_eq!(tx(&m, CALL, 6), expected);
    assert_eq!(tx(&m, CALL, CALL), expected);
    assert_eq!(tx(&m, CALL, 5), None);
    assert_eq!(tx(&m, CALL, 0), None);
    assert_eq!(tx(&m, CALL, 0x1_0000), None);
    assert_eq!(tx(&m, 0x1_0000, 8), None);
}

#[test]
fn an_object_in_the_buffer_begins_further_on() {
    let mut inner = object(0, 0, &[]);
    inner.extend([7, 7, 7]);
    let m = memory(object(BUFFER, 0x33, &[]), inner);
    assert_eq!(tx(&m, CALL, 8), Some((5, 9, vec![7, 7, 7], false)));
    let m = memory(object(BUFFER, 0x30, &[1, 2]), object(0, 0, &[]));
    assert_eq!(tx(&m, CALL, 8), Some((5, 9, vec![1, 2], false)));
}

#[test]
fn a_message_without_a_buffer_holds_its_data_itself() {
    let m = memory(object(0, 6, &[4, 5, 6]), vec![]);
    assert_eq!(tx(&m, CALL, 8), Some((5, 9, vec![4, 5, 6], false)));
    let m = memory(object(OBJECT, 6, &[4]), vec![]);
    assert_eq!(tx(&m, CALL, 8), Some((5, 9, vec![4], false)));
    let m = memory(object(BUFFER, 3, &[4]), vec![1, 2, 3]);
    assert_eq!(tx(&m, CALL, 8), Some((5, 9, vec![4], false)));
    let m = memory(object(0, 6, &[]), vec![]);
    assert_eq!(tx(&m, CALL, 8), None);
    let m = memory(object(0, 6, &[9; 0x40]), vec![]);
    assert_eq!(tx(&m, CALL, 8).unwrap().2.len(), 0x20);
}

#[test]
fn the_buffer_is_read_as_far_as_its_length_is_likely() {
    let m = memory(object(BUFFER, 0, &[]), vec![1; 300]);
    assert_eq!(tx(&m, CALL, 8).unwrap().2.len(), 256);
    let m = memory(object(BUFFER, 8192, &[]), vec![1; 300]);
    assert_eq!(tx(&m, CALL, 8).unwrap().2.len(), 256);
    let m = memory(object(BUFFER, 8191, &[]), vec![1; 9000]);
    assert_eq!(tx(&m, CALL, 8).unwrap().2.len(), 8191);
}

#[test]
fn a_received_message_in_binary_is_captured() {
    let binary = |data: Vec<u8>| Memory(vec![(CALL, data)]);
    assert_eq!(rx(&binary(vec![5, 9, 6, 0, 1, 2, 3]), CALL, 7, 0), Some((5, 9, vec![1, 2], true)));
    assert_eq!(rx(&binary(vec![5, 9, 4, 0, 1, 2, 3]), CALL, 7, 0), Some((5, 9, vec![1, 2, 3], true)));
    assert_eq!(rx(&binary(vec![5, 9, 99, 0, 1, 2, 3]), CALL, 7, 0), Some((5, 9, vec![1, 2, 3], true)));
    assert_eq!(rx(&binary(vec![0, 9, 6, 0, 1]), CALL, 5, 0), Some((0, 0, vec![0, 9, 6, 0, 1], true)));
    assert_eq!(rx(&binary(vec![100, 9, 6, 0]), CALL, 4, 0), Some((0, 0, vec![100, 9, 6, 0], true)));
    assert_eq!(rx(&binary(vec![5, 9, 6]), CALL, 3, 0), None);
    let long = rx(&binary([vec![5, 9, 0, 0], vec![1; 9000]].concat()), CALL, 9004, 0).unwrap();
    assert_eq!(long.2.len(), 4092);
}

#[test]
fn a_received_message_object_is_captured() {
    let m = memory(object(BUFFER, 4, &[]), vec![1, 2, 3, 4]);
    let expected = Some((5, 9, vec![1, 2, 3, 4], true));
    assert_eq!(rx(&m, OBJECT, 0x30, 0), expected);
    assert_eq!(rx(&m, 0, 0, OBJECT), expected);
    assert_eq!(rx(&m, OBJECT, 0, OBJECT), expected);
    assert_eq!(rx(&m, 0, 0, BUFFER), None);
    assert_eq!(rx(&m, 5, 9, 0x100), None);
}

#[test]
fn a_received_message_with_its_numbers_apart_is_captured() {
    let m = memory(object(BUFFER, 4, &[]), vec![1, 2, 3, 4]);
    assert_eq!(rx(&m, 7, 11, BUFFER), Some((7, 11, vec![1, 2, 3, 4], true)));
    assert_eq!(rx(&m, 99, 255, BUFFER), Some((99, 255, vec![1, 2, 3, 4], true)));
    assert_eq!(rx(&m, 7, 11, OBJECT), Some((5, 9, vec![1, 2, 3, 4], true)));
    for (p1, p2) in [(0, 11), (100, 11), (7, 0), (7, 256)] {
        assert_eq!(rx(&m, p1, p2, BUFFER), None);
    }
    assert_eq!(rx(&memory(vec![], vec![1, 2, 3]), 7, 11, BUFFER), None);
    let long = rx(&memory(vec![], vec![1; 9000]), 7, 11, BUFFER).unwrap();
    assert_eq!(long.2.len(), 4096);
}

#[test]
fn a_captured_message_reaches_the_viewer() {
    let written = send_kinp_frame(true, 5, 9, &[1, 2, 3], true).unwrap();
    assert_eq!(written, capture_frame(0x11, 0, 0, &kinp_frame(5, 9, &[1, 2, 3])));
    let packet = parse_frame(&written[4..]).unwrap();
    assert!(packet.is_from_server);
    assert_eq!(packet.src_ip, "plaintext");
    let messages = KinpDecoder::new().process(packet);
    assert_eq!(messages.len(), 1);
    assert_eq!(messages[0].msg_type, MessageType::Dml { service_id: 5, message_id: 9 });
    assert_eq!(messages[0].dml_length, Some(7));
    assert_eq!(&messages[0].raw_payload[8..], &[1, 2, 3]);
    assert_eq!(send_kinp_frame(false, 5, 9, &[1], false), None);
    assert_eq!(send_kinp_frame(true, 5, 9, &[1], false).unwrap()[4], 0x10);
}

#[test]
fn a_frame_is_written_byte_for_byte() {
    assert_eq!(
        kinp_frame(5, 9, &[0xAA]),
        vec![0x0D, 0xF0, 9, 0, 0, 0, 0, 0, 5, 9, 5, 0, 0xAA]
    );
    let longest = kinp_frame(1, 1, &vec![0; 65_527]);
    assert_eq!(&longest[2..4], &[0xFF, 0xFF]);
    let wrapped = kinp_frame(1, 1, &vec![0; 65_535]);
    assert_eq!(&wrapped[2..4], &[7, 0]);
    assert_eq!(&wrapped[10..12], &[3, 0]);
}

#[test]
fn hooks_are_installed_in_order() {
    assert!(prologue_matches(&[0x48, 0x8B, 0xC4, 0x57]));
    assert!(!prologue_matches(&[0x48, 0x8B, 0xC5]));
    assert!(!prologue_matches(&[0x48, 0x8B]));
    let s = HookStage::TxPrologue;
    assert_eq!(s.target(0x1_4000_0000), Some((0x1_4133_7CC0, 20)));
    assert_eq!(s.step(false), HookStage::Done { hooked: 0 });
    let s = s.step(true).step(true);
    assert_eq!(s, HookStage::RxPrologue { hooked: 1 });
    assert_eq!(s.target(0x1_4000_0000), Some((0x1_4160_61D0, 18)));
    assert_eq!(s.step(false), HookStage::Done { hooked: 1 });
    assert_eq!(s.step(true).step(true), HookStage::Done { hooked: 2 });
    assert_eq!(s.step(true).step(false), HookStage::Done { hooked: 1 });
    let s = HookStage::TxInstall.step(false).step(true).step(true);
    assert_eq!(s, HookStage::Done { hooked: 1 });
    assert_eq!(s.target(0), None);
    assert_eq!(s.step(true), s);
}

#[test]
fn a_detour_jumps_to_the_hook_and_back() {
    assert_eq!(
        abs_jmp(0x1122_3344_5566_7788),
        vec![0xFF, 0x25, 0, 0, 0, 0, 0x88, 0x77, 0x66, 0x55, 0x44, 0x33, 0x22, 0x11]
    );
    let stolen: Vec<u8> = (1..=18).collect();
    let plan = Detour::plan(0x1000, 0x9000, &stolen).unwrap();
    assert_eq!(&plan.trampoline_code[..18], &stolen[..]);
    assert_eq!(&plan.trampoline_code[18..], &abs_jmp(0x1012)[..]);
    assert_eq!(&plan.patch[..14], &abs_jmp(0x9000)[..]);
    assert_eq!(&plan.patch[14..], &[0x90; 4]);
    assert!(Detour::plan(0x1000, 0x9000, &stolen[..13]).is_none());
    assert_eq!(Detour::plan(0x1000, 0x9000, &stolen[..14]).unwrap().patch.len(), 14);
    assert_eq!(Detour::trampoline_size(18), Some(32));
    assert_eq!(Detour::trampoline_size(13), None);
    let d = Detour::installed(7, 0x1000, stolen.clone());
    assert_eq!((d.trampoline, d.target), (7, 0x1000));
    assert_eq!(d.original_bytes, stolen);
}

#[test]
fn socket_calls_are_captured_when_they_succeed() {
    let out = Some(SocketCapture { direction: 0, src_port: 10, dst_port: 20 });
    let back = Some(SocketCapture { direction: 1, src_port: 20, dst_port: 10 });
    assert_eq!(socket_capture(SocketCall::Send, 5, Some(10), 20), out);
    assert_eq!(socket_capture(SocketCall::WsaSend, 0, Some(10), 20), out);
    assert_eq!(socket_capture(SocketCall::Recv, 1, Some(10), 20), back);
    assert_eq!(socket_capture(SocketCall::WsaRecvEx, 1, Some(10), 20), back);
    assert_eq!(socket_capture(SocketCall::Send, 0, Some(10), 20), None);
    assert_eq!(socket_capture(SocketCall::Recv, -1, Some(10), 20), None);
    assert_eq!(socket_capture(SocketCall::WsaSend, 1, Some(10), 20), None);
    assert_eq!(socket_capture(SocketCall::WsaSend, -1, Some(10), 20), None);
    assert_eq!(socket_capture(SocketCall::Send, 5, None, 20), None);
}

#[test]
fn each_buffer_with_data_is_framed() {
    let capture = SocketCapture { direction: 0, src_port: 10, dst_port: 20 };
    let buffers = vec![vec![1, 2], vec![], vec![3]];
    assert_eq!(
        capture_buffers(true, capture, &buffers),
        vec![capture_frame(0, 10, 20, &[1, 2]), capture_frame(0, 10, 20, &[3])]
    );
    assert!(capture_buffers(false, capture, &buffers).is_empty());
}

#[test]
fn the_hook_starts_and_stops() {
    assert_eq!(init_exit_code(false, 3, 2), 1);
    assert_eq!(init_exit_code(true, 0, 0), 2);
    assert_eq!(init_exit_code(true, 1, 0), 0);
    assert_eq!(init_exit_code(true, 0, 2), 0);
    assert_eq!(library_event(1), LibraryEvent::Start);
    assert_eq!(library_event(0), LibraryEvent::Stop);
    assert_eq!(library_event(2), LibraryEvent::Ignore);
}

#[test]
fn the_game_is_found_by_its_name() {
    let process = |name: &str, pid: u32| {
        let mut name_field: Vec<u16> = name.encode_utf16().collect();
        name_field.push(0);
        name_field.extend([0x58; 4]);
        ProcessEntry { name_field, pid }
    };
    let list = vec![
        process("explorer.exe", 1),
        process("WIZARDGRAPHICALCLIENT.EXE", 2),
        process("WizardGraphicalClient.exe", 3),
    ];
    assert_eq!(find_game_pid(&list), Ok(2));
    assert_eq!(find_game_pid(&list[..1].iter().map(|p| ProcessEntry { name_field: p.name_field.clone(), pid: p.pid }).collect()), Err("WizardGraphicalClient.exe not found".to_string()));
    assert_eq!(find_game_pid(&vec![]), Err("WizardGraphicalClient.exe not found".to_string()));
    assert_eq!(remote_path("C:\\h"), vec![0x43, 0x3A, 0x5C, 0x68, 0]);
}

#[test]
fn loading_the_hook_goes_stage_by_stage() {
    let mut s = InjectStage::OpenProcess;
    for _ in 0..6 {
        let (next, cleanup) = s.step(true);
        assert!(!cleanup.free_memory && !cleanup.close_thread && !cleanup.close_process);
        s = next;
    }
    assert_eq!(s, InjectStage::Wait);
    let (done, cleanup) = s.step(true);
    assert_eq!(done, InjectStage::Loaded);
    assert!(cleanup.free_memory && cleanup.close_thread && cleanup.close_process);
    assert_eq!(s.step(false).0, InjectStage::Failed(InjectFailure::TimedOut));
    assert_eq!(s.step(false).1, cleanup);
    assert_eq!(done.step(false).0, InjectStage::Loaded);
}

#[test]
fn loading_the_hook_fails_with_a_reason() {
    let fails = |s: InjectStage| match s.step(false) {
        (InjectStage::Failed(f), c) => (failure_text(f, "os said no"), c.free_memory, c.close_process),
        _ => panic!(),
    };
    assert_eq!(fails(InjectStage::OpenProcess), ("OpenProcess failed: os said no".to_string(), false, false));
    assert_eq!(fails(InjectStage::Allocate), ("VirtualAllocEx failed".to_string(), false, true));
    assert_eq!(fails(InjectStage::WritePath), ("WriteProcessMemory failed".to_string(), true, true));
    assert_eq!(
        fails(InjectStage::FindSystemLibrary),
        ("GetModuleHandleA failed: os said no".to_string(), false, false)
    );
    assert_eq!(fails(InjectStage::FindLoader), ("GetProcAddress(LoadLibraryW) failed".to_string(), false, false));
    assert_eq!(fails(InjectStage::StartThread), ("CreateRemoteThread failed: os said no".to_string(), false, false));
    assert_eq!(fails(InjectStage::Wait), ("Remote thread did not complete in time".to_string(), true, true));
}

#[test]
fn the_hook_is_taken_from_the_first_place_that_has_it() {
    assert_eq!(hook_location(true, true, true), HookLocation::NextToProgram);
    assert_eq!(hook_location(false, true, true), HookLocation::ReleaseBuild);
    assert_eq!(hook_location(false, false, true), HookLocation::DebugBuild);
    assert_eq!(hook_location(false, false, false), HookLocation::NextToProgram);
}
