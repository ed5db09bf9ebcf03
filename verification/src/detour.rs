//! Inline detours: the bytes that replace the start of a function, and the bytes through which
//! the function can still be called.

use vstd::prelude::*;
use crate::bytes;
use crate::bytes::{push_bytes, push_u64};

verus! {

broadcast use bytes::group_le_bytes_len;

/// The bytes of an absolute jump.
pub const JMP_ABS_SIZE: usize = 14;

/// Holds state for an installed x64 inline detour (target addr, trampoline, saved bytes).
pub struct Detour {
    pub trampoline: usize,
    pub target: usize,
    pub original_bytes: Vec<u8>,
}

/// `jmp [rip+0]`, followed by the address to jump to.
pub open spec fn abs_jmp_bytes(address: u64) -> Seq<u8> {
    seq![0xFFu8, 0x25, 0, 0, 0, 0] + bytes::le64_bytes(address)
}

/// `n` bytes that do nothing.
pub open spec fn nop_bytes(n: int) -> Seq<u8> {
    Seq::new(if n < 0 { 0 } else { n as nat }, |i: int| 0x90u8)
}

/// The code of a trampoline: the stolen instructions, and a jump to what stands behind them.
pub open spec fn trampoline_bytes(target: u64, stolen: Seq<u8>) -> Seq<u8> {
    stolen + abs_jmp_bytes(((target + stolen.len()) % 0x1_0000_0000_0000_0000) as u64)
}

/// What takes the place of the stolen instructions: a jump to the hook, filled up to their length.
pub open spec fn patch_bytes(hook: u64, stolen_len: nat) -> Seq<u8> {
    abs_jmp_bytes(hook) + nop_bytes(stolen_len - JMP_ABS_SIZE)
}

/// How many bytes a trampoline takes.
pub open spec fn trampoline_len(stolen_len: int) -> int {
    stolen_len + JMP_ABS_SIZE
}

/// Writes a 14-byte absolute indirect JMP: FF 25 00000000 [8-byte address].
pub fn abs_jmp(address: u64) -> (code: Vec<u8>)
    ensures
        code@ == abs_jmp_bytes(address),
        code@.len() == JMP_ABS_SIZE,
{
    let mut code: Vec<u8> = Vec::new();
    code.push(0xFF);
    code.push(0x25);
    code.push(0x00);
    code.push(0x00);
    code.push(0x00);
    code.push(0x00);
    push_u64(&mut code, address);
    assert(code@ =~= abs_jmp_bytes(address));
    code
}

/// What to write for a detour.
pub struct DetourPlan {
    /// The stolen instructions, and a jump to the rest of the function.
    pub trampoline_code: Vec<u8>,
    /// A jump to the hook in place of the stolen instructions, filled up to their length.
    pub patch: Vec<u8>,
}

impl Detour {
    /// How many bytes a trampoline for `stolen_len` bytes takes. There is none where they do
    /// not hold an absolute jump.
    pub fn trampoline_size(stolen_len: usize) -> (r: Option<usize>)
        requires
            stolen_len + JMP_ABS_SIZE <= usize::MAX,
        ensures
            r is Some <==> stolen_len >= JMP_ABS_SIZE,
            r matches Some(n) ==> n == trampoline_len(stolen_len as int),
    {
        if stolen_len < JMP_ABS_SIZE {
            None
        } else {
            Some(stolen_len + JMP_ABS_SIZE)
        }
    }

    /// Plans a 14-byte absolute JMP detour on the target function. `stolen` are the bytes at
    /// the start of the function; there must be at least 14, and they must end on an
    /// instruction boundary.
    pub fn plan(target: u64, hook: u64, stolen: &[u8]) -> (r: Option<DetourPlan>)
        ensures
            r is Some <==> stolen@.len() >= JMP_ABS_SIZE,
            r matches Some(plan) ==> {
                &&& plan.trampoline_code@ == trampoline_bytes(target, stolen@)
                &&& plan.patch@ == patch_bytes(hook, stolen@.len())
            },
    {
        let n: usize = stolen.len();
        if n < JMP_ABS_SIZE {
            return None;
        }
        let mut trampoline_code: Vec<u8> = Vec::new();
        push_bytes(&mut trampoline_code, stolen);
        let resume: u64 = target.wrapping_add(n as u64);
        let back: Vec<u8> = abs_jmp(resume);
        push_bytes(&mut trampoline_code, back.as_slice());
        assert(trampoline_code@ =~= stolen@ + abs_jmp_bytes(resume));
        let mut patch: Vec<u8> = abs_jmp(hook);
        let mut i: usize = JMP_ABS_SIZE;
        assert(patch@ =~= abs_jmp_bytes(hook) + nop_bytes(0));
        while i < n
            invariant
                JMP_ABS_SIZE <= i <= n,
                patch@ == abs_jmp_bytes(hook) + nop_bytes(i - JMP_ABS_SIZE),
            decreases n - i,
        {
            patch.push(0x90);
            i += 1;
            assert(patch@ =~= abs_jmp_bytes(hook) + nop_bytes(i - JMP_ABS_SIZE));
        }
        Some(DetourPlan { trampoline_code, patch })
    }

    /// The detour that was installed with its trampoline at `trampoline`.
    pub fn installed(trampoline: usize, target: usize, stolen: Vec<u8>) -> (r: Detour)
        ensures
            r.trampoline == trampoline,
            r.target == target,
            r.original_bytes@ == stolen@,
    {
        Detour { trampoline, target, original_bytes: stolen }
    }
}

// ---- laws ----

/// An absolute jump takes 14 bytes, and the address in it is the one it was made for.
pub proof fn law_jump_names_its_address(address: u64)
    ensures
        abs_jmp_bytes(address).len() == JMP_ABS_SIZE,
        bytes::le64(abs_jmp_bytes(address), 6) == address,
{
    bytes::law_le64_round_trip(seq![0xFFu8, 0x25, 0, 0, 0, 0], address, Seq::empty());
    assert(seq![0xFFu8, 0x25, 0, 0, 0, 0] + bytes::le64_bytes(address) + Seq::<u8>::empty()
        =~= abs_jmp_bytes(address));
}

/// The patch covers the stolen bytes exactly: no byte of the function behind them changes, and
/// writing the saved bytes back undoes it. The trampoline starts with the stolen bytes and
/// ends with a jump to the first byte behind them.
pub proof fn law_detour_covers_the_stolen_bytes(
    function: Seq<u8>,
    stolen_len: int,
    target: u64,
    hook: u64,
)
    requires
        JMP_ABS_SIZE <= stolen_len <= function.len(),
        target + stolen_len < 0x1_0000_0000_0000_0000,
    ensures
        ({
            let stolen = function.take(stolen_len);
            let patch = abs_jmp_bytes(hook) + nop_bytes(stolen_len - JMP_ABS_SIZE);
            let code = stolen + abs_jmp_bytes((target + stolen_len) as u64);
            let patched = patch + function.skip(patch.len() as int);
            &&& patch.len() == stolen_len
            &&& patched.len() == function.len()
            &&& patched.skip(stolen_len) == function.skip(stolen_len)
            &&& stolen + patched.skip(stolen_len) == function
            &&& bytes::le64(patched, 6) == hook
            &&& code.take(stolen_len) == stolen
            &&& bytes::le64(code, stolen_len + 6) == target + stolen_len
        }),
{
    let stolen = function.take(stolen_len);
    let patch = abs_jmp_bytes(hook) + nop_bytes(stolen_len - JMP_ABS_SIZE);
    let resume = (target + stolen_len) as u64;
    let code = stolen + abs_jmp_bytes(resume);
    let opcode = seq![0xFFu8, 0x25, 0, 0, 0, 0];
    let patched = patch + function.skip(patch.len() as int);
    assert(patched.skip(stolen_len) =~= function.skip(stolen_len));
    assert(stolen + patched.skip(stolen_len) =~= function);
    assert(code.take(stolen_len) =~= stolen);
    let behind = nop_bytes(stolen_len - JMP_ABS_SIZE) + function.skip(patch.len() as int);
    bytes::law_le64_round_trip(opcode, hook, behind);
    assert(opcode + bytes::le64_bytes(hook) + behind =~= patched);
    bytes::law_le64_round_trip(stolen + opcode, resume, Seq::empty());
    assert(stolen + opcode + bytes::le64_bytes(resume) + Seq::<u8>::empty() =~= code);
}

/// A jump is the bytes FF 25 00 00 00 00 and the address, its low byte first.
pub proof fn law_jump_bytes(address: u64)
    ensures
        ({
            let s = abs_jmp_bytes(address);
            &&& s.len() == 14
            &&& s[0] == 0xFF && s[1] == 0x25
            &&& s[2] == 0 && s[3] == 0 && s[4] == 0 && s[5] == 0
            &&& s[6] + 0x100 * s[7] + 0x1_0000 * s[8] + 0x100_0000 * s[9] + 0x1_0000_0000 * s[10]
                + 0x100_0000_0000 * s[11] + 0x1_0000_0000_0000 * s[12] + 0x100_0000_0000_0000 * s[13]
                == address
        }),
{
    law_jump_names_its_address(address);
}

/// The patch is as long as the stolen bytes, begins with the jump to the hook and is filled with
/// 0x90. The trampoline is the stolen bytes and a jump to the first byte behind them, and takes
/// fourteen bytes more than they do.
pub proof fn law_detour_bytes(target: u64, hook: u64, stolen: Seq<u8>)
    requires
        stolen.len() >= 14,
        target + stolen.len() < 0x1_0000_0000_0000_0000,
    ensures
        ({
            let patch = patch_bytes(hook, stolen.len());
            let code = trampoline_bytes(target, stolen);
            let n = stolen.len() as int;
            &&& patch.len() == n
            &&& patch.subrange(0, 14) == abs_jmp_bytes(hook)
            &&& forall|i: int| 14 <= i < n ==> #[trigger] patch[i] == 0x90
            &&& code.len() == n + 14
            &&& code.len() == trampoline_len(n)
            &&& code.subrange(0, n) == stolen
            &&& code.subrange(n, n + 14) == abs_jmp_bytes((target + n) as u64)
        }),
{
    let patch = patch_bytes(hook, stolen.len());
    let code = trampoline_bytes(target, stolen);
    let n = stolen.len() as int;
    assert(patch.subrange(0, 14) =~= abs_jmp_bytes(hook));
    assert(code.subrange(0, n) =~= stolen);
    assert(code.subrange(n, n + 14) =~= abs_jmp_bytes((target + n) as u64));
}

} // verus!
