//! The capture side at the socket layer, and how the hook starts and stops.

use vstd::prelude::*;
use crate::pipe;
use crate::pipe::{write_capture, DIR_CLIENT_TO_SERVER, DIR_SERVER_TO_CLIENT};

verus! {

/// The socket calls that are hooked.
#[derive(Debug, Clone, Copy, PartialEq, Eq, Structural)]
pub enum SocketCall {
    Send,
    Recv,
    WsaSend,
    WsaRecvEx,
}

impl SocketCall {
    /// Whether the call sends.
    pub open spec fn sends(self) -> bool {
        self == SocketCall::Send || self == SocketCall::WsaSend
    }

    /// Whether a call that returned `result` moved data: WSASend returns zero, the others the
    /// number of bytes.
    pub open spec fn succeeded(self, result: i32) -> bool {
        if self == SocketCall::WsaSend {
            result == 0
        } else {
            result > 0
        }
    }

    /// Whether a call that returned `result` moved data: WSASend returns zero, the others the
    /// number of bytes.
    pub fn moved_data(self, result: i32) -> (r: bool)
        ensures
            r == self.succeeded(result),
    {
        match self {
            SocketCall::WsaSend => result == 0,
            _ => result > 0,
        }
    }
}

/// How the data of a socket call is captured: its direction, and its ports from the source to
/// the destination.
#[derive(Debug, Clone, Copy, PartialEq, Eq, Structural)]
pub struct SocketCapture {
    pub direction: u8,
    pub src_port: u16,
    pub dst_port: u16,
}

/// How the data of a socket call between these ports is captured: a sending call goes from the
/// local port to the remote one, a receiving call the other way.
pub open spec fn capture_between(call: SocketCall, local: u16, remote: u16) -> SocketCapture {
    if call.sends() {
        SocketCapture { direction: DIR_CLIENT_TO_SERVER, src_port: local, dst_port: remote }
    } else {
        SocketCapture { direction: DIR_SERVER_TO_CLIENT, src_port: remote, dst_port: local }
    }
}

/// Whether and how the data of a socket call is captured.
pub open spec fn capture_of_call(
    call: SocketCall,
    result: i32,
    local_port: Option<u16>,
    remote_port: u16,
) -> Option<SocketCapture> {
    match local_port {
        Some(local) if call.succeeded(result) => Some(capture_between(call, local, remote_port)),
        _ => None,
    }
}

/// Decides whether and how the data of a socket call is captured. The local port tells whether
/// the socket is a valid one: `local_port` is nothing where it could not be had.
pub fn socket_capture(call: SocketCall, result: i32, local_port: Option<u16>, remote_port: u16) -> (r:
    Option<SocketCapture>)
    ensures
        r == capture_of_call(call, result, local_port, remote_port),
{
    if !call.moved_data(result) {
        return None;
    }
    match local_port {
        Some(local) => match call {
            SocketCall::Send | SocketCall::WsaSend => Some(
                SocketCapture {
                    direction: DIR_CLIENT_TO_SERVER,
                    src_port: local,
                    dst_port: remote_port,
                },
            ),
            SocketCall::Recv | SocketCall::WsaRecvEx => Some(
                SocketCapture {
                    direction: DIR_SERVER_TO_CLIENT,
                    src_port: remote_port,
                    dst_port: local,
                },
            ),
        },
        None => None,
    }
}

/// What goes to the pipe for each buffer of a socket call, in order: the framed data of those
/// that hold any. Nothing does while the pipe is not connected.
pub open spec fn buffers_written(
    connected: bool,
    capture: SocketCapture,
    buffers: Seq<Vec<u8>>,
) -> Seq<Seq<u8>>
    decreases buffers.len(),
{
    if buffers.len() == 0 {
        Seq::empty()
    } else {
        let before = buffers_written(connected, capture, buffers.drop_last());
        if connected && buffers.last()@.len() > 0 {
            before.push(
                pipe::capture(
                    capture.direction,
                    capture.src_port,
                    capture.dst_port,
                    buffers.last()@,
                ),
            )
        } else {
            before
        }
    }
}

/// Frames the buffers of a socket call for the pipe.
pub fn capture_buffers(connected: bool, capture: SocketCapture, buffers: &Vec<Vec<u8>>) -> (written: Vec<
    Vec<u8>,
>)
    ensures
        crate::kinp::byte_views(written@) == buffers_written(connected, capture, buffers@),
{
    let mut written: Vec<Vec<u8>> = Vec::new();
    let mut i: usize = 0;
    assert(buffers@.take(0) =~= Seq::<Vec<u8>>::empty());
    assert(crate::kinp::byte_views(written@) =~= Seq::<Seq<u8>>::empty());
    while i < buffers.len()
        invariant
            i <= buffers@.len(),
            crate::kinp::byte_views(written@) == buffers_written(
                connected,
                capture,
                buffers@.take(i as int),
            ),
        decreases buffers@.len() - i,
    {
        let buffer = &buffers[i];
        assert(buffers@.take(i + 1).drop_last() =~= buffers@.take(i as int));
        assert(buffers@.take(i + 1).last() == *buffer);
        if buffer.len() > 0 {
            match write_capture(
                connected,
                capture.direction,
                capture.src_port,
                capture.dst_port,
                buffer.as_slice(),
            ) {
                Some(frame) => {
                    let ghost before = written@;
                    written.push(frame);
                    assert(crate::kinp::byte_views(written@) =~= crate::kinp::byte_views(before).push(
                        frame@,
                    ));
                },
                None => {},
            }
        }
        i += 1;
    }
    assert(buffers@.take(i as int) =~= buffers@);
    written
}

/// The exit code of the thread that starts the hook. The number of hooks is counted modulo 2^32.
pub open spec fn exit_code(pipe_connected: bool, iat_hooked: u32, game_hooked: u32) -> u32 {
    if !pipe_connected {
        1u32
    } else if (iat_hooked + game_hooked) % 0x1_0000_0000 == 0 {
        2u32
    } else {
        0u32
    }
}

/// The exit code of the thread that starts the hook: 1 where the pipe could not be opened, 2
/// where nothing was hooked, 0 otherwise.
pub fn init_exit_code(pipe_connected: bool, iat_hooked: u32, game_hooked: u32) -> (code: u32)
    ensures
        code == exit_code(pipe_connected, iat_hooked, game_hooked),
{
    if !pipe_connected {
        return 1;
    }
    let total: u32 = iat_hooked.wrapping_add(game_hooked);
    if total == 0 {
        2
    } else {
        0
    }
}

/// What the library does when the system calls it.
#[derive(Debug, Clone, Copy, PartialEq, Eq, Structural)]
pub enum LibraryEvent {
    /// Start the hook in a thread of its own.
    Start,
    /// Take the hooks out, and close the pipe.
    Stop,
    /// Nothing.
    Ignore,
}

/// What the library does when it is called for this reason.
pub open spec fn event_for(reason: u32) -> LibraryEvent {
    if reason == 1 {
        LibraryEvent::Start
    } else if reason == 0 {
        LibraryEvent::Stop
    } else {
        LibraryEvent::Ignore
    }
}

/// What the library does when it is called for this reason: 1 when the process attaches it, 0
/// when it detaches it.
pub fn library_event(reason: u32) -> (event: LibraryEvent)
    ensures
        event == event_for(reason),
{
    if reason == 1 {
        LibraryEvent::Start
    } else if reason == 0 {
        LibraryEvent::Stop
    } else {
        LibraryEvent::Ignore
    }
}

// ---- laws ----

/// Both directions of one connection name the same two ports, the other way round.
pub proof fn law_directions_mirror_each_other(out: SocketCall, back: SocketCall, local: u16, remote: u16)
    requires
        out.sends(),
        !back.sends(),
    ensures
        ({
            let there = capture_between(out, local, remote);
            let here = capture_between(back, local, remote);
            &&& there.src_port == here.dst_port
            &&& there.dst_port == here.src_port
            &&& there.direction == DIR_CLIENT_TO_SERVER
            &&& here.direction == DIR_SERVER_TO_CLIENT
        }),
{
}

/// What a socket call moved is captured in the direction in which it went: sent data from the local
/// port to the remote one, with direction 0, and received data from the remote port to the local
/// one, with direction 1.
pub proof fn law_socket_calls_are_captured(result: i32, local: u16, remote: u16)
    ensures
        result > 0 ==> capture_of_call(SocketCall::Send, result, Some(local), remote) == Some(
            SocketCapture { direction: 0, src_port: local, dst_port: remote },
        ),
        result > 0 ==> capture_of_call(SocketCall::Recv, result, Some(local), remote) == Some(
            SocketCapture { direction: 1, src_port: remote, dst_port: local },
        ),
        capture_of_call(SocketCall::WsaSend, 0, Some(local), remote) == Some(
            SocketCapture { direction: 0, src_port: local, dst_port: remote },
        ),
        result > 0 ==> capture_of_call(SocketCall::WsaRecvEx, result, Some(local), remote) == Some(
            SocketCapture { direction: 1, src_port: remote, dst_port: local },
        ),
{
}

/// A call that failed, or whose socket has no local port, is not captured.
pub proof fn law_failed_calls_are_not_captured(call: SocketCall, result: i32, local: u16, remote: u16)
    ensures
        capture_of_call(call, result, None, remote) is None,
        call != SocketCall::WsaSend && result <= 0 ==> capture_of_call(call, result, Some(local), remote)
            is None,
        call == SocketCall::WsaSend && result != 0 ==> capture_of_call(call, result, Some(local), remote)
            is None,
{
}

/// While the pipe is connected each buffer that holds data is written, framed with the capture's
/// direction and ports, in order; empty buffers are not. While it is not connected nothing is.
pub proof fn law_buffers_are_written(
    capture: SocketCapture,
    first: Seq<Vec<u8>>,
    second: Seq<Vec<u8>>,
    buffer: Vec<u8>,
)
    ensures
        buffers_written(false, capture, first).len() == 0,
        buffers_written(true, capture, first + second) == buffers_written(true, capture, first)
            + buffers_written(true, capture, second),
        buffer@.len() > 0 ==> buffers_written(true, capture, seq![buffer]) == seq![
            pipe::capture(capture.direction, capture.src_port, capture.dst_port, buffer@),
        ],
        buffer@.len() == 0 ==> buffers_written(true, capture, seq![buffer]).len() == 0,
    decreases first.len() + second.len(),
{
    if first.len() > 0 {
        law_buffers_are_written(capture, first.drop_last(), Seq::empty(), buffer);
    }
    if second.len() == 0 {
        assert(first + second =~= first);
        let done = buffers_written(true, capture, first);
        assert(done + buffers_written(true, capture, second) =~= done);
    } else {
        law_buffers_are_written(capture, first, second.drop_last(), buffer);
        assert((first + second).drop_last() =~= first + second.drop_last());
        let a = buffers_written(true, capture, first);
        let b = buffers_written(true, capture, second.drop_last());
        assert(buffers_written(true, capture, first + second) =~= a + buffers_written(
            true,
            capture,
            second,
        ));
    }
    assert(seq![buffer].drop_last() =~= Seq::<Vec<u8>>::empty());
    assert(buffers_written(true, capture, Seq::<Vec<u8>>::empty()) =~= Seq::<Seq<u8>>::empty());
    assert(seq![buffer].last() == buffer);
    if buffer@.len() > 0 {
        assert(buffers_written(true, capture, seq![buffer]) =~= seq![
            pipe::capture(capture.direction, capture.src_port, capture.dst_port, buffer@),
        ]);
    }
}

/// The hook has started exactly if the pipe is connected and at least one hook is in place; without
/// the pipe the number of hooks does not count.
pub proof fn law_exit_codes(pipe_connected: bool, iat_hooked: u32, game_hooked: u32)
    requires
        iat_hooked + game_hooked < 0x1_0000_0000,
    ensures
        exit_code(pipe_connected, iat_hooked, game_hooked) == 1 <==> !pipe_connected,
        exit_code(pipe_connected, iat_hooked, game_hooked) == 2 <==> pipe_connected && iat_hooked == 0
            && game_hooked == 0,
        exit_code(pipe_connected, iat_hooked, game_hooked) == 0 <==> pipe_connected && (iat_hooked > 0
            || game_hooked > 0),
{
}

/// The library starts the hook when the process attaches it, stops it when the process detaches it,
/// and does nothing for threads.
pub proof fn law_library_events(reason: u32)
    ensures
        event_for(reason) == LibraryEvent::Start <==> reason == 1,
        event_for(reason) == LibraryEvent::Stop <==> reason == 0,
        event_for(reason) == LibraryEvent::Ignore <==> reason >= 2,
{
}

} // verus!
