//! The process's own confinement on Linux: a filter program that the kernel
//! runs on every system call, and rules that confine file access to one tree.
//!
//! The filter is a classic BPF program over the call's number, its
//! architecture and its arguments:
//!
//! ```text
//!   load architecture, compare          3 instructions
//!   compare with each direct call       one for each
//!   compare with write, openat, ioctl   3
//!   write:  descriptor is 1 or 2        3
//!   openat: no flag that writes         3
//!   ioctl:  a terminal call, or one of
//!           the graphics driver         5
//!   deny, allow                         2
//! ```

use crate::bytes::utf8_of;
use crate::twrite::{decimal, decimal_digits};
use crate::wire::{le32, le64, push_long, push_word, push_zeros, word_at, zeros};
use vstd::prelude::*;

verus! {

pub const SECCOMP_RET_KILL_PROCESS: u32 = 0x8000_0000;

pub const SECCOMP_RET_TRAP: u32 = 0x0003_0000;

pub const SECCOMP_RET_ALLOW: u32 = 0x7fff_0000;

/// Load the word at a fixed offset.
pub const BPF_LD_W_ABS: u16 = 0x20;

/// Jump if the loaded word equals a constant.
pub const BPF_JMP_JEQ_K: u16 = 0x15;

/// End with a constant.
pub const BPF_RET_K: u16 = 0x06;

/// Mask the loaded word.
pub const BPF_ALU_AND_K: u16 = 0x54;

pub const AUDIT_ARCH_X86_64: u32 = 0xc000_003e;

pub const AUDIT_ARCH_AARCH64: u32 = 0xc000_00b7;

/// Where the call's description holds its number.
pub const SECCOMP_DATA_NR: u32 = 0;

/// Where it holds the architecture.
pub const SECCOMP_DATA_ARCH: u32 = 4;

/// Where it holds the low half of the first argument.
pub const SECCOMP_DATA_ARG0_LO: u32 = 16;

pub const SECCOMP_DATA_ARG1_LO: u32 = 24;

pub const SECCOMP_DATA_ARG2_LO: u32 = 32;

/// The flags of `openat` that write, create, truncate or append.
pub const OPENAT_DENY_FLAGS: u32 = 0x40_0643;

/// Asks for a terminal's size.
pub const TIOCGWINSZ: u32 = 0x5413;

/// Sets a terminal's modes.
pub const TCSETS: u32 = 0x5402;

/// The bits by which the graphics driver's calls are known.
pub const RM_IOCTL_MASK: u32 = 0xc000_ff00;

/// What they hold there.
pub const RM_IOCTL_VALUE: u32 = 0xc000_4600;

/// Permission to read files.
pub const LANDLOCK_ACCESS_FS_READ_FILE: u64 = 4;

/// Permission to read directories.
pub const LANDLOCK_ACCESS_FS_READ_DIR: u64 = 8;

/// One instruction.
#[derive(Clone, Copy, Debug, PartialEq, Eq, Structural)]
pub struct SockFilter {
    pub code: u16,
    pub jt: u8,
    pub jf: u8,
    pub k: u32,
}

/// A program's length and address.
#[derive(Clone, Copy, Debug, PartialEq, Eq, Structural)]
pub struct SockFprog {
    pub len: u16,
    pub filter: u64,
}

/// The processor that the filter is for.
#[derive(Clone, Copy, Debug, PartialEq, Eq, Structural)]
pub enum Arch {
    X86_64,
    Aarch64,
}

/// The architecture's number in a call's description.
pub open spec fn arch_number(arch: Arch) -> u32 {
    match arch {
        Arch::X86_64 => AUDIT_ARCH_X86_64,
        Arch::Aarch64 => AUDIT_ARCH_AARCH64,
    }
}

/// The calls that are allowed whatever their arguments: read, close, madvise,
/// nanosleep, getpid, getdents64, clock_gettime, exit_group and, where
/// blocked calls are to be reported, the return from a signal handler.
pub open spec fn direct_calls(arch: Arch, trap: bool) -> Seq<u32> {
    match (arch, trap) {
        (Arch::X86_64, false) => seq![0, 3, 28, 35, 39, 217, 228, 231],
        (Arch::X86_64, true) => seq![0, 3, 28, 35, 39, 217, 228, 231, 15],
        (Arch::Aarch64, false) => seq![63, 57, 233, 101, 172, 61, 113, 94],
        (Arch::Aarch64, true) => seq![63, 57, 233, 101, 172, 61, 113, 94, 139],
    }
}

/// The number of `write`.
pub open spec fn write_call(arch: Arch) -> u32 {
    match arch {
        Arch::X86_64 => 1,
        Arch::Aarch64 => 64,
    }
}

/// The number of `openat`.
pub open spec fn openat_call(arch: Arch) -> u32 {
    match arch {
        Arch::X86_64 => 257,
        Arch::Aarch64 => 56,
    }
}

/// The number of `ioctl`.
pub open spec fn ioctl_call(arch: Arch) -> u32 {
    match arch {
        Arch::X86_64 => 16,
        Arch::Aarch64 => 29,
    }
}

/// What becomes of a call that is not allowed.
pub open spec fn denial(trap: bool) -> u32 {
    if trap {
        SECCOMP_RET_TRAP
    } else {
        SECCOMP_RET_KILL_PROCESS
    }
}

/// What becomes of a call that is not allowed.
pub fn deny_action(trap: bool) -> (r: u32)
    ensures
        r == denial(trap),
{
    if trap {
        SECCOMP_RET_TRAP
    } else {
        SECCOMP_RET_KILL_PROCESS
    }
}

/// The architecture's number in a call's description.
pub fn audit_arch(arch: Arch) -> (r: u32)
    ensures
        r == arch_number(arch),
{
    match arch {
        Arch::X86_64 => AUDIT_ARCH_X86_64,
        Arch::Aarch64 => AUDIT_ARCH_AARCH64,
    }
}

/// The calls that are allowed whatever their arguments.
pub fn allow_direct(arch: Arch, trap: bool) -> (r: Vec<u32>)
    ensures
        r@ == direct_calls(arch, trap),
{
    let mut r: Vec<u32> = match arch {
        Arch::X86_64 => vec![0, 3, 28, 35, 39, 217, 228, 231],
        Arch::Aarch64 => vec![63, 57, 233, 101, 172, 61, 113, 94],
    };
    if trap {
        r.push(
            match arch {
                Arch::X86_64 => 15,
                Arch::Aarch64 => 139,
            },
        );
    }
    assert(r@ =~= direct_calls(arch, trap));
    r
}

/// The number of `write`.
pub fn sys_write(arch: Arch) -> (r: u32)
    ensures
        r == write_call(arch),
{
    match arch {
        Arch::X86_64 => 1,
        Arch::Aarch64 => 64,
    }
}

/// The number of `openat`.
pub fn sys_openat(arch: Arch) -> (r: u32)
    ensures
        r == openat_call(arch),
{
    match arch {
        Arch::X86_64 => 257,
        Arch::Aarch64 => 56,
    }
}

/// The number of `ioctl`.
pub fn sys_ioctl(arch: Arch) -> (r: u32)
    ensures
        r == ioctl_call(arch),
{
    match arch {
        Arch::X86_64 => 16,
        Arch::Aarch64 => 29,
    }
}

/// Whether a call is allowed. `data` is its description: number, architecture,
/// instruction pointer and six arguments.
pub open spec fn permitted(arch: Arch, trap: bool, data: Seq<u8>) -> bool {
    let nr = word_at(data, 0) as u32;
    let arg0 = word_at(data, 16) as u32;
    let arg1 = word_at(data, 24) as u32;
    let arg2 = word_at(data, 32) as u32;
    &&& word_at(data, 4) == arch_number(arch)
    &&& {
        ||| direct_calls(arch, trap).contains(nr)
        ||| nr == write_call(arch) && (arg0 == 1 || arg0 == 2)
        ||| nr == openat_call(arch) && arg2 & OPENAT_DENY_FLAGS == 0
        ||| nr == ioctl_call(arch) && (arg1 == TIOCGWINSZ || arg1 == TCSETS || arg1 & RM_IOCTL_MASK
            == RM_IOCTL_VALUE)
    }
}

/// What the kernel makes of `data` when it runs `prog` from `pc` on with `a`
/// loaded. `None` if the program leaves its bounds or holds an instruction
/// that it does not use.
pub open spec fn outcome(prog: Seq<SockFilter>, data: Seq<u8>, pc: int, a: u32) -> Option<u32>
    decreases prog.len() - pc,
{
    if pc < 0 || pc >= prog.len() {
        None
    } else {
        let i = prog[pc];
        if i.code == BPF_RET_K {
            Some(i.k)
        } else if i.code == BPF_LD_W_ABS && i.k + 4 <= data.len() {
            outcome(prog, data, pc + 1, word_at(data, i.k as int) as u32)
        } else if i.code == BPF_ALU_AND_K {
            outcome(prog, data, pc + 1, a & i.k)
        } else if i.code == BPF_JMP_JEQ_K {
            if a == i.k {
                let to = pc + 1 + i.jt;
                if to < prog.len() {
                    outcome(prog, data, to, a)
                } else {
                    None
                }
            } else {
                let to = pc + 1 + i.jf;
                if to < prog.len() {
                    outcome(prog, data, to, a)
                } else {
                    None
                }
            }
        } else {
            None
        }
    }
}

/// First comparison with a direct call.
pub const I_DIRECT_START: usize = 3;

pub const I_LD_ARCH: usize = 0;

pub const I_JEQ_ARCH: usize = 1;

pub const I_LD_NR: usize = 2;

/// Where the denial lies in a program with `n` direct calls.
pub open spec fn deny_at(n: int) -> int {
    n + 17
}

/// Where the denial lies in a program with `n` direct calls.
pub fn ret_deny_index(n: usize) -> (r: usize)
    requires
        n <= 200,
    ensures
        r == deny_at(n as int),
{
    n + 17
}

/// How many instructions a program with `n` direct calls has.
pub fn prog_len(n: usize) -> (r: usize)
    requires
        n <= 200,
    ensures
        r == n + 19,
{
    n + 19
}

/// A loading instruction.
pub open spec fn load(k: u32) -> SockFilter {
    SockFilter { code: BPF_LD_W_ABS, jt: 0, jf: 0, k }
}

/// A masking instruction.
pub open spec fn mask(k: u32) -> SockFilter {
    SockFilter { code: BPF_ALU_AND_K, jt: 0, jf: 0, k }
}

/// An ending instruction.
pub open spec fn end_with(k: u32) -> SockFilter {
    SockFilter { code: BPF_RET_K, jt: 0, jf: 0, k }
}

/// A comparison at `at` that goes on at `yes` or at `no`.
pub open spec fn branch(at: int, k: u32, yes: int, no: int) -> SockFilter {
    SockFilter {
        code: BPF_JMP_JEQ_K,
        jt: (yes - at - 1) as u8,
        jf: (no - at - 1) as u8,
        k,
    }
}

/// The instruction at `i` of the filter.
pub open spec fn instruction(arch: Arch, trap: bool, i: int) -> SockFilter {
    let direct = direct_calls(arch, trap);
    let n = direct.len() as int;
    let deny = deny_at(n);
    let allow = deny + 1;
    if i == 0 {
        load(SECCOMP_DATA_ARCH)
    } else if i == 1 {
        branch(1, arch_number(arch), 2, deny)
    } else if i == 2 {
        load(SECCOMP_DATA_NR)
    } else if i < 3 + n {
        branch(i, direct[i - 3], allow, i + 1)
    } else if i == n + 3 {
        branch(i, write_call(arch), n + 6, i + 1)
    } else if i == n + 4 {
        branch(i, openat_call(arch), n + 9, i + 1)
    } else if i == n + 5 {
        branch(i, ioctl_call(arch), n + 12, deny)
    } else if i == n + 6 {
        load(SECCOMP_DATA_ARG0_LO)
    } else if i == n + 7 {
        branch(i, 1, allow, i + 1)
    } else if i == n + 8 {
        branch(i, 2, allow, deny)
    } else if i == n + 9 {
        load(SECCOMP_DATA_ARG2_LO)
    } else if i == n + 10 {
        mask(OPENAT_DENY_FLAGS)
    } else if i == n + 11 {
        branch(i, 0, allow, deny)
    } else if i == n + 12 {
        load(SECCOMP_DATA_ARG1_LO)
    } else if i == n + 13 {
        branch(i, TIOCGWINSZ, allow, i + 1)
    } else if i == n + 14 {
        branch(i, TCSETS, allow, i + 1)
    } else if i == n + 15 {
        mask(RM_IOCTL_MASK)
    } else if i == n + 16 {
        branch(i, RM_IOCTL_VALUE, allow, deny)
    } else if i == n + 17 {
        end_with(denial(trap))
    } else {
        end_with(SECCOMP_RET_ALLOW)
    }
}

/// The filter.
pub open spec fn program(arch: Arch, trap: bool) -> Seq<SockFilter> {
    Seq::new((direct_calls(arch, trap).len() + 19) as nat, |i: int| instruction(arch, trap, i))
}

/// The distance from instruction `from` to instruction `to`, counted from the
/// one behind `from`.
fn jmp(from: usize, to: usize) -> (r: u8)
    requires
        from < to,
        to - from <= 256,
    ensures
        r == to - from - 1,
{
    (to - from - 1) as u8
}

/// A comparison at `at` that goes on at `yes` or at `no`.
fn jeq(at: usize, k: u32, yes: usize, no: usize) -> (r: SockFilter)
    requires
        at < yes <= at + 256,
        at < no <= at + 256,
        at <= 1000,
    ensures
        r == branch(at as int, k, yes as int, no as int),
{
    SockFilter { code: BPF_JMP_JEQ_K, jt: jmp(at, yes), jf: jmp(at, no), k }
}

/// A loading instruction.
fn ld(k: u32) -> (r: SockFilter)
    ensures
        r == load(k),
{
    SockFilter { code: BPF_LD_W_ABS, jt: 0, jf: 0, k }
}

/// A masking instruction.
fn alu_and(k: u32) -> (r: SockFilter)
    ensures
        r == mask(k),
{
    SockFilter { code: BPF_ALU_AND_K, jt: 0, jf: 0, k }
}

/// An ending instruction.
fn ret(k: u32) -> (r: SockFilter)
    ensures
        r == end_with(k),
{
    SockFilter { code: BPF_RET_K, jt: 0, jf: 0, k }
}

/// Builds the filter.
pub fn build_prog(arch: Arch, trap: bool) -> (r: Vec<SockFilter>)
    ensures
        r@ == program(arch, trap),
{
    let direct: Vec<u32> = allow_direct(arch, trap);
    let n: usize = direct.len();
    assert(8 <= n <= 9);
    let deny: usize = n + 17;
    let allow: usize = n + 18;
    let ghost whole = program(arch, trap);
    let mut prog: Vec<SockFilter> = Vec::new();
    prog.push(ld(SECCOMP_DATA_ARCH));
    prog.push(jeq(1, audit_arch(arch), 2, deny));
    prog.push(ld(SECCOMP_DATA_NR));
    assert(prog@ =~= whole.take(3));
    for i in 0..n
        invariant
            n == direct@.len(),
            8 <= n <= 9,
            allow == n + 18,
            direct@ == direct_calls(arch, trap),
            whole == program(arch, trap),
            prog@ == whole.take(3 + i),
    {
        prog.push(jeq(3 + i, direct[i], allow, 3 + i + 1));
        assert(whole[3 + i] == instruction(arch, trap, 3 + i));
        assert(prog@ =~= whole.take(3 + i + 1));
    }
    prog.push(jeq(n + 3, sys_write(arch), n + 6, n + 4));
    prog.push(jeq(n + 4, sys_openat(arch), n + 9, n + 5));
    prog.push(jeq(n + 5, sys_ioctl(arch), n + 12, deny));
    prog.push(ld(SECCOMP_DATA_ARG0_LO));
    prog.push(jeq(n + 7, 1, allow, n + 8));
    prog.push(jeq(n + 8, 2, allow, deny));
    prog.push(ld(SECCOMP_DATA_ARG2_LO));
    prog.push(alu_and(OPENAT_DENY_FLAGS));
    prog.push(jeq(n + 11, 0, allow, deny));
    prog.push(ld(SECCOMP_DATA_ARG1_LO));
    prog.push(jeq(n + 13, TIOCGWINSZ, allow, n + 14));
    prog.push(jeq(n + 14, TCSETS, allow, n + 15));
    prog.push(alu_and(RM_IOCTL_MASK));
    prog.push(jeq(n + 16, RM_IOCTL_VALUE, allow, deny));
    prog.push(ret(deny_action(trap)));
    prog.push(ret(SECCOMP_RET_ALLOW));
    assert(prog@ =~= whole);
    prog
}

/// From the comparison with direct call number `i` on, a call that is none of
/// the first `i` direct calls is allowed if it is a later one, and else
/// compared with the filtered calls.
proof fn lemma_direct(arch: Arch, trap: bool, data: Seq<u8>, i: int, a: u32)
    requires
        data.len() == 64,
        0 <= i <= direct_calls(arch, trap).len(),
    ensures
        outcome(program(arch, trap), data, 3 + i, a) == (if exists|j: int|
            i <= j < direct_calls(arch, trap).len() && direct_calls(arch, trap)[j] == a {
            Some(SECCOMP_RET_ALLOW)
        } else {
            outcome(program(arch, trap), data, 3 + direct_calls(arch, trap).len() as int, a)
        }),
    decreases direct_calls(arch, trap).len() - i,
{
    let direct = direct_calls(arch, trap);
    let n = direct.len() as int;
    let prog = program(arch, trap);
    if i < n {
        assert(prog[3 + i] == branch(3 + i, direct[i], n + 18, 3 + i + 1));
        assert(prog[n + 18] == end_with(SECCOMP_RET_ALLOW));
        lemma_direct(arch, trap, data, i + 1, a);
        if a == direct[i] {
            assert(outcome(prog, data, n + 18, a) == Some(SECCOMP_RET_ALLOW));
        } else {
            assert(outcome(prog, data, 3 + i, a) == outcome(prog, data, 3 + i + 1, a));
            if exists|j: int| i <= j < n && direct[j] == a {
                let j = choose|j: int| i <= j < n && direct[j] == a;
                assert(i + 1 <= j < n && direct[j] == a);
            }
        }
    }
}

/// The last two instructions end with a denial and with leave.
proof fn lemma_ends(arch: Arch, trap: bool, data: Seq<u8>, a: u32)
    ensures
        ({
            let n = direct_calls(arch, trap).len() as int;
            &&& outcome(program(arch, trap), data, n + 17, a) == Some(denial(trap))
            &&& outcome(program(arch, trap), data, n + 18, a) == Some(SECCOMP_RET_ALLOW)
        }),
{
    let n = direct_calls(arch, trap).len() as int;
    let prog = program(arch, trap);
    assert(prog[n + 17] == instruction(arch, trap, n + 17));
    assert(prog[n + 18] == instruction(arch, trap, n + 18));
}

/// What the filter makes of a write: it may go to the two outputs.
proof fn lemma_write(arch: Arch, trap: bool, data: Seq<u8>, nr: u32)
    requires
        data.len() == 64,
    ensures
        ({
            let n = direct_calls(arch, trap).len() as int;
            let arg0 = word_at(data, 16) as u32;
            outcome(program(arch, trap), data, n + 6, nr) == Some(
                if arg0 == 1 || arg0 == 2 {
                    SECCOMP_RET_ALLOW
                } else {
                    denial(trap)
                },
            )
        }),
{
    let n = direct_calls(arch, trap).len() as int;
    let prog = program(arch, trap);
    let arg0 = word_at(data, 16) as u32;
    assert(8 <= n <= 9);
    assert forall|i: int| n + 6 <= i <= n + 8 implies #[trigger] prog[i] == instruction(
        arch,
        trap,
        i,
    ) by {}
    step_load(prog, data, n + 6, nr, 16);
    step_branch(prog, data, n + 7, arg0, 1, n + 18, n + 8);
    step_branch(prog, data, n + 8, arg0, 2, n + 18, n + 17);
    lemma_ends(arch, trap, data, arg0);
}

/// What the filter makes of an opening: it may have none of the denied flags.
proof fn lemma_openat(arch: Arch, trap: bool, data: Seq<u8>, nr: u32)
    requires
        data.len() == 64,
    ensures
        ({
            let n = direct_calls(arch, trap).len() as int;
            let arg2 = word_at(data, 32) as u32;
            outcome(program(arch, trap), data, n + 9, nr) == Some(
                if arg2 & OPENAT_DENY_FLAGS == 0 {
                    SECCOMP_RET_ALLOW
                } else {
                    denial(trap)
                },
            )
        }),
{
    let n = direct_calls(arch, trap).len() as int;
    let prog = program(arch, trap);
    let arg2 = word_at(data, 32) as u32;
    let masked = arg2 & OPENAT_DENY_FLAGS;
    assert(8 <= n <= 9);
    assert forall|i: int| n + 9 <= i <= n + 11 implies #[trigger] prog[i] == instruction(
        arch,
        trap,
        i,
    ) by {}
    step_load(prog, data, n + 9, nr, 32);
    step_mask(prog, data, n + 10, arg2, OPENAT_DENY_FLAGS);
    step_branch(prog, data, n + 11, masked, 0, n + 18, n + 17);
    lemma_ends(arch, trap, data, masked);
}

/// What the filter makes of a control call: it may ask for the terminal's size,
/// set its record, or talk to the graphics driver.
proof fn lemma_ioctl(arch: Arch, trap: bool, data: Seq<u8>, nr: u32)
    requires
        data.len() == 64,
    ensures
        ({
            let n = direct_calls(arch, trap).len() as int;
            let arg1 = word_at(data, 24) as u32;
            outcome(program(arch, trap), data, n + 12, nr) == Some(
                if arg1 == TIOCGWINSZ || arg1 == TCSETS || arg1 & RM_IOCTL_MASK == RM_IOCTL_VALUE {
                    SECCOMP_RET_ALLOW
                } else {
                    denial(trap)
                },
            )
        }),
{
    let n = direct_calls(arch, trap).len() as int;
    let prog = program(arch, trap);
    let arg1 = word_at(data, 24) as u32;
    let masked = arg1 & RM_IOCTL_MASK;
    assert(8 <= n <= 9);
    assert forall|i: int| n + 12 <= i <= n + 16 implies #[trigger] prog[i] == instruction(
        arch,
        trap,
        i,
    ) by {}
    step_load(prog, data, n + 12, nr, 24);
    step_branch(prog, data, n + 13, arg1, TIOCGWINSZ, n + 18, n + 14);
    step_branch(prog, data, n + 14, arg1, TCSETS, n + 18, n + 15);
    step_mask(prog, data, n + 15, arg1, RM_IOCTL_MASK);
    step_branch(prog, data, n + 16, masked, RM_IOCTL_VALUE, n + 18, n + 17);
    lemma_ends(arch, trap, data, arg1);
    lemma_ends(arch, trap, data, masked);
}

/// What the filter makes of a call that is no direct one.
proof fn lemma_filtered(arch: Arch, trap: bool, data: Seq<u8>, nr: u32)
    requires
        data.len() == 64,
    ensures
        ({
            let arg0 = word_at(data, 16) as u32;
            let arg1 = word_at(data, 24) as u32;
            let arg2 = word_at(data, 32) as u32;
            let fine = {
                ||| nr == write_call(arch) && (arg0 == 1 || arg0 == 2)
                ||| nr == openat_call(arch) && arg2 & OPENAT_DENY_FLAGS == 0
                ||| nr == ioctl_call(arch) && (arg1 == TIOCGWINSZ || arg1 == TCSETS || arg1
                    & RM_IOCTL_MASK == RM_IOCTL_VALUE)
            };
            outcome(
                program(arch, trap),
                data,
                3 + direct_calls(arch, trap).len() as int,
                nr,
            ) == Some(
                if fine {
                    SECCOMP_RET_ALLOW
                } else {
                    denial(trap)
                },
            )
        }),
{
    let n = direct_calls(arch, trap).len() as int;
    let prog = program(arch, trap);
    assert(8 <= n <= 9);
    assert forall|i: int| n + 3 <= i <= n + 5 implies #[trigger] prog[i] == instruction(
        arch,
        trap,
        i,
    ) by {}
    step_branch(prog, data, n + 3, nr, write_call(arch), n + 6, n + 4);
    step_branch(prog, data, n + 4, nr, openat_call(arch), n + 9, n + 5);
    step_branch(prog, data, n + 5, nr, ioctl_call(arch), n + 12, n + 17);
    lemma_write(arch, trap, data, nr);
    lemma_openat(arch, trap, data, nr);
    lemma_ioctl(arch, trap, data, nr);
    lemma_ends(arch, trap, data, nr);
}

proof fn step_branch(
    prog: Seq<SockFilter>,
    data: Seq<u8>,
    pc: int,
    a: u32,
    k: u32,
    yes: int,
    no: int,
)
    requires
        0 <= pc < yes < prog.len(),
        pc < no < prog.len(),
        prog.len() <= 256,
        prog[pc] == branch(pc, k, yes, no),
    ensures
        outcome(prog, data, pc, a) == outcome(
            prog,
            data,
            if a == k {
                yes
            } else {
                no
            },
            a,
        ),
{
}

proof fn step_load(prog: Seq<SockFilter>, data: Seq<u8>, pc: int, a: u32, at: u32)
    requires
        0 <= pc < prog.len(),
        at + 4 <= data.len(),
        prog[pc] == load(at),
    ensures
        outcome(prog, data, pc, a) == outcome(prog, data, pc + 1, word_at(data, at as int) as u32),
{
}

proof fn step_mask(prog: Seq<SockFilter>, data: Seq<u8>, pc: int, a: u32, k: u32)
    requires
        0 <= pc < prog.len(),
        prog[pc] == mask(k),
    ensures
        outcome(prog, data, pc, a) == outcome(prog, data, pc + 1, a & k),
{
}

/// The filter allows exactly the permitted calls and denies all others.
pub proof fn law_filter_is_policy(arch: Arch, trap: bool, data: Seq<u8>)
    requires
        data.len() == 64,
    ensures
        outcome(program(arch, trap), data, 0, 0) == Some(
            if permitted(arch, trap, data) {
                SECCOMP_RET_ALLOW
            } else {
                denial(trap)
            },
        ),
{
    let direct = direct_calls(arch, trap);
    let n = direct.len() as int;
    let prog = program(arch, trap);
    let nr = word_at(data, 0) as u32;
    let theirs = word_at(data, 4) as u32;
    assert(8 <= n <= 9);
    assert(prog[0] == load(SECCOMP_DATA_ARCH));
    assert(prog[1] == branch(1, arch_number(arch), 2, n + 17));
    assert(prog[2] == load(SECCOMP_DATA_NR));
    assert(prog[n + 17] == end_with(denial(trap)));
    lemma_direct(arch, trap, data, 0, nr);
    lemma_filtered(arch, trap, data, nr);
    assert(outcome(prog, data, 2, theirs) == outcome(prog, data, 3, nr));
    assert(outcome(prog, data, n + 17, theirs) == Some(denial(trap)));
    assert(outcome(prog, data, 0, 0) == outcome(prog, data, 1, theirs));
    assert(direct.contains(nr) == (exists|j: int| 0 <= j < n && direct[j] == nr));
}

/// Every control call of the graphics driver is permitted.
pub proof fn law_driver_calls_permitted(arch: Arch, trap: bool, data: Seq<u8>, nr: u32, size: u32)
    requires
        data.len() == 64,
        word_at(data, 0) == ioctl_call(arch),
        word_at(data, 4) == arch_number(arch),
        word_at(data, 24) == (3u32 << 30) | (size << 16) | (0x46u32 << 8) | nr,
        nr < 0x100,
    ensures
        permitted(arch, trap, data),
{
    assert(((3u32 << 30) | (size << 16) | (0x46u32 << 8) | nr) & 0xc000_ff00 == 0xc000_4600)
        by (bit_vector)
        requires
            nr < 0x100,
    ;
}

/// The bytes of an instruction.
pub open spec fn instruction_bytes(i: SockFilter) -> Seq<u8> {
    seq![(i.code % 0x100) as u8, (i.code / 0x100) as u8, i.jt, i.jf] + le32(i.k)
}

/// The bytes of a program.
pub open spec fn program_bytes(prog: Seq<SockFilter>) -> Seq<u8>
    decreases prog.len(),
{
    if prog.len() == 0 {
        Seq::empty()
    } else {
        program_bytes(prog.drop_last()) + instruction_bytes(prog.last())
    }
}

/// The bytes of a program, as the kernel takes them.
pub fn encode_prog(prog: &Vec<SockFilter>) -> (r: Vec<u8>)
    ensures
        r@ == program_bytes(prog@),
        r@.len() == 8 * prog@.len(),
{
    let mut r: Vec<u8> = Vec::new();
    let n: usize = prog.len();
    assert(prog@.take(0) =~= Seq::empty());
    for i in 0..n
        invariant
            n == prog@.len(),
            r@ == program_bytes(prog@.take(i as int)),
            r@.len() == 8 * i,
    {
        assert(prog@.take(i + 1).drop_last() =~= prog@.take(i as int));
        let ghost before = r@;
        r.push((prog[i].code % 0x100) as u8);
        r.push((prog[i].code / 0x100) as u8);
        r.push(prog[i].jt);
        r.push(prog[i].jf);
        push_word(&mut r, prog[i].k);
        assert(r@ =~= before + instruction_bytes(prog@[i as int]));
    }
    assert(prog@.take(n as int) =~= prog@);
    r
}

/// The bytes of a program's header.
pub fn encode_fprog(p: SockFprog) -> (r: Vec<u8>)
    ensures
        r@ == seq![(p.len % 0x100) as u8, (p.len / 0x100) as u8] + zeros(6) + le64(p.filter),
        r@.len() == 16,
{
    let mut r: Vec<u8> = Vec::new();
    r.push((p.len % 0x100) as u8);
    r.push((p.len / 0x100) as u8);
    push_zeros(&mut r, 6);
    push_long(&mut r, p.filter);
    assert(r@ =~= seq![(p.len % 0x100) as u8, (p.len / 0x100) as u8] + zeros(6) + le64(p.filter));
    r
}

/// The accesses that the file rules deal with.
pub fn ruleset_attr() -> (r: Vec<u8>)
    ensures
        r@ == le64((LANDLOCK_ACCESS_FS_READ_FILE + LANDLOCK_ACCESS_FS_READ_DIR) as u64),
{
    let mut r: Vec<u8> = Vec::new();
    push_long(&mut r, LANDLOCK_ACCESS_FS_READ_FILE + LANDLOCK_ACCESS_FS_READ_DIR);
    assert(r@ =~= le64((LANDLOCK_ACCESS_FS_READ_FILE + LANDLOCK_ACCESS_FS_READ_DIR) as u64));
    r
}

/// The rule that allows them beneath the directory with descriptor `fd`.
pub fn path_rule(fd: u32) -> (r: Vec<u8>)
    ensures
        r@ == le64((LANDLOCK_ACCESS_FS_READ_FILE + LANDLOCK_ACCESS_FS_READ_DIR) as u64) + le32(fd),
{
    let mut r: Vec<u8> = ruleset_attr();
    push_word(&mut r, fd);
    r
}

/// A step of the installation.
#[derive(Clone, Copy, Debug, PartialEq, Eq, Structural)]
pub enum Step {
    /// Install the handler that reports blocked calls.
    Handler,
    /// Give up new privileges.
    NoNewPrivileges,
    /// Make a set of file rules.
    CreateRuleset,
    /// Open the tree that stays readable.
    OpenTree,
    /// Add the rule for it.
    AddRule,
    /// Put the rules in force.
    Restrict,
    /// Put the filter in force.
    Filter,
}

/// What to do next.
#[derive(Clone, Copy, Debug, PartialEq, Eq, Structural)]
pub enum Next {
    Do(Step),
    /// Stop with an error; the byte says which step failed.
    Fail(u8),
    Done,
}

/// The first step.
pub fn first_step(trap: bool) -> (r: Step)
    ensures
        r == (if trap {
            Step::Handler
        } else {
            Step::NoNewPrivileges
        }),
{
    if trap {
        Step::Handler
    } else {
        Step::NoNewPrivileges
    }
}

/// The letter by which a failed step is reported.
pub open spec fn step_letter(step: Step) -> u8 {
    match step {
        Step::Handler => 0x37,
        Step::NoNewPrivileges => 0x31,
        Step::CreateRuleset => 0x33,
        Step::OpenTree => 0x34,
        Step::AddRule => 0x35,
        Step::Restrict => 0x36,
        Step::Filter => 0x32,
    }
}

/// The step behind `step`.
pub open spec fn step_after(step: Step) -> Next {
    match step {
        Step::Handler => Next::Do(Step::NoNewPrivileges),
        Step::NoNewPrivileges => Next::Do(Step::CreateRuleset),
        Step::CreateRuleset => Next::Do(Step::OpenTree),
        Step::OpenTree => Next::Do(Step::AddRule),
        Step::AddRule => Next::Do(Step::Restrict),
        Step::Restrict => Next::Do(Step::Filter),
        Step::Filter => Next::Done,
    }
}

/// What to do when `step`'s call has returned `ret`: a negative result of any
/// step ends the installation.
pub fn install(step: Step, ret: i64) -> (r: Next)
    ensures
        r == (if ret < 0 {
            Next::Fail(step_letter(step))
        } else {
            step_after(step)
        }),
{
    let fine: bool = ret >= 0;
    match step {
        Step::Handler => if fine {
            Next::Do(Step::NoNewPrivileges)
        } else {
            Next::Fail(0x37)
        },
        Step::NoNewPrivileges => if fine {
            Next::Do(Step::CreateRuleset)
        } else {
            Next::Fail(0x31)
        },
        Step::CreateRuleset => if fine {
            Next::Do(Step::OpenTree)
        } else {
            Next::Fail(0x33)
        },
        Step::OpenTree => if fine {
            Next::Do(Step::AddRule)
        } else {
            Next::Fail(0x34)
        },
        Step::AddRule => if fine {
            Next::Do(Step::Restrict)
        } else {
            Next::Fail(0x35)
        },
        Step::Restrict => if fine {
            Next::Do(Step::Filter)
        } else {
            Next::Fail(0x36)
        },
        Step::Filter => if fine {
            Next::Done
        } else {
            Next::Fail(0x32)
        },
    }
}

/// `e` in decimal, with a sign if it is negative.
pub open spec fn signed_decimal(e: int) -> Seq<u8> {
    if e < 0 {
        seq![0x2du8] + decimal((-e) as nat)
    } else {
        decimal(e as nat)
    }
}

/// Adds `e` in decimal.
fn push_signed(out: &mut Vec<u8>, e: i64)
    ensures
        final(out)@ == old(out)@ + signed_decimal(e as int),
{
    let size: u64 = if e >= 0 {
        e as u64
    } else if e == i64::MIN {
        0x8000_0000_0000_0000
    } else {
        (-e) as u64
    };
    if e < 0 {
        out.push(0x2d);
    }
    let mut digits: Vec<u8> = decimal_digits(size);
    out.append(&mut digits);
    assert(out@ =~= old(out)@ + signed_decimal(e as int));
}

/// The message of a failed installation.
pub fn fail(letter: u8, e: i64) -> (r: Vec<u8>)
    ensures
        r@ == utf8_of("ltop: sandbox install failed (") + seq![letter] + utf8_of(" err=")
            + signed_decimal(e as int) + utf8_of(")\n"),
{
    let mut r: Vec<u8> = Vec::new();
    r.extend_from_slice("ltop: sandbox install failed (".as_bytes());
    r.push(letter);
    r.extend_from_slice(" err=".as_bytes());
    push_signed(&mut r, e);
    r.extend_from_slice(")\n".as_bytes());
    assert(r@ =~= utf8_of("ltop: sandbox install failed (") + seq![letter] + utf8_of(" err=")
        + signed_decimal(e as int) + utf8_of(")\n"));
    r
}

/// The report of a blocked call.
pub fn blocked_message(nr: i32) -> (r: Vec<u8>)
    ensures
        r@ == utf8_of("ltop: blocked syscall ") + signed_decimal(nr as int) + utf8_of("\n"),
{
    let mut r: Vec<u8> = Vec::new();
    r.extend_from_slice("ltop: blocked syscall ".as_bytes());
    push_signed(&mut r, nr as i64);
    r.extend_from_slice("\n".as_bytes());
    assert(r@ =~= utf8_of("ltop: blocked syscall ") + signed_decimal(nr as int) + utf8_of("\n"));
    r
}

/// What the kernel decides on a call, as the filter tells it.
pub open spec fn verdict(arch: Arch, trap: bool, data: Seq<u8>) -> Option<u32> {
    outcome(program(arch, trap), data, 0, 0)
}

/// A call of another architecture is denied, whatever it asks. What is denied
/// ends the program, or is reported.
pub proof fn law_foreign_calls_are_denied(arch: Arch, trap: bool, data: Seq<u8>)
    requires
        data.len() == 64,
        arch == Arch::X86_64 ==> word_at(data, 4) != 0xc000_003e,
        arch == Arch::Aarch64 ==> word_at(data, 4) != 0xc000_00b7,
    ensures
        !trap ==> verdict(arch, trap, data) == Some(0x8000_0000u32),
        trap ==> verdict(arch, trap, data) == Some(0x0003_0000u32),
{
    law_filter_is_policy(arch, trap, data);
}

/// Nothing is written but to the terminal, by its two descriptors.
pub proof fn law_writes_go_to_the_terminal(arch: Arch, trap: bool, data: Seq<u8>)
    requires
        data.len() == 64,
        arch == Arch::X86_64 ==> word_at(data, 0) == 1 && word_at(data, 4) == 0xc000_003e,
        arch == Arch::Aarch64 ==> word_at(data, 0) == 64 && word_at(data, 4) == 0xc000_00b7,
    ensures
        verdict(arch, trap, data) == Some(0x7fff_0000u32) <==> word_at(data, 16) == 1 || word_at(
            data,
            16,
        ) == 2,
{
    law_filter_is_policy(arch, trap, data);
    lemma_no_direct(arch, trap, word_at(data, 0) as u32);
}

/// Files are opened for reading only: no flag may ask to write, create, cut
/// off, append to, or make a nameless file. All other flags are free.
pub proof fn law_files_are_only_read(arch: Arch, trap: bool, data: Seq<u8>)
    requires
        data.len() == 64,
        arch == Arch::X86_64 ==> word_at(data, 0) == 257 && word_at(data, 4) == 0xc000_003e,
        arch == Arch::Aarch64 ==> word_at(data, 0) == 56 && word_at(data, 4) == 0xc000_00b7,
    ensures
        ({
            let flags = word_at(data, 32) as u32;
            verdict(arch, trap, data) == Some(0x7fff_0000u32) <==> {
                &&& flags & 1 == 0
                &&& flags & 2 == 0
                &&& flags & 0x40 == 0
                &&& flags & 0x200 == 0
                &&& flags & 0x400 == 0
                &&& flags & 0x40_0000 == 0
            }
        }),
{
    law_filter_is_policy(arch, trap, data);
    lemma_no_direct(arch, trap, word_at(data, 0) as u32);
    let flags = word_at(data, 32) as u32;
    assert(flags & 0x40_0643 == 0 <==> flags & 1 == 0 && flags & 2 == 0 && flags & 0x40 == 0
        && flags & 0x200 == 0 && flags & 0x400 == 0 && flags & 0x40_0000 == 0) by (bit_vector);
}

/// Of the device controls only the terminal's size and modes and the calls of
/// the graphics driver are let through.
pub proof fn law_other_controls_are_denied(arch: Arch, trap: bool, data: Seq<u8>)
    requires
        data.len() == 64,
        arch == Arch::X86_64 ==> word_at(data, 0) == 16 && word_at(data, 4) == 0xc000_003e,
        arch == Arch::Aarch64 ==> word_at(data, 0) == 29 && word_at(data, 4) == 0xc000_00b7,
    ensures
        ({
            let w = word_at(data, 24) as u32;
            verdict(arch, trap, data) == Some(0x7fff_0000u32) <==> w == 0x5413 || w == 0x5402 || (w
                >> 30 == 3 && (w >> 8) % 256 == 0x46)
        }),
{
    law_filter_is_policy(arch, trap, data);
    lemma_no_direct(arch, trap, word_at(data, 0) as u32);
    let w = word_at(data, 24) as u32;
    assert(w & 0xc000_ff00 == 0xc000_4600 <==> w >> 30 == 3 && (w >> 8) % 256 == 0x46)
        by (bit_vector);
}

/// Every other call is let through exactly if it is one of those that read,
/// close, advise on memory, sleep, tell the process's number, list a directory,
/// tell the time or end the program, or that returns from the report of a
/// denied call.
pub proof fn law_plain_calls(arch: Arch, trap: bool, data: Seq<u8>)
    requires
        data.len() == 64,
        arch == Arch::X86_64 ==> word_at(data, 4) == 0xc000_003e,
        arch == Arch::Aarch64 ==> word_at(data, 4) == 0xc000_00b7,
    ensures
        ({
            let nr = word_at(data, 0);
            let let_through = verdict(arch, trap, data) == Some(0x7fff_0000u32);
            &&& arch == Arch::X86_64 && nr != 1 && nr != 257 && nr != 16 ==> (let_through <==> nr
                == 0 || nr == 3 || nr == 28 || nr == 35 || nr == 39 || nr == 217 || nr == 228 || nr
                == 231 || (trap && nr == 15))
            &&& arch == Arch::Aarch64 && nr != 64 && nr != 56 && nr != 29 ==> (let_through <==> nr
                == 63 || nr == 57 || nr == 233 || nr == 101 || nr == 172 || nr == 61 || nr == 113
                || nr == 94 || (trap && nr == 139))
        }),
{
    law_filter_is_policy(arch, trap, data);
    let direct = direct_calls(arch, trap);
    let nr = word_at(data, 0) as u32;
    assert forall|i: int| 0 <= i < direct.len() implies direct.contains(#[trigger] direct[i]) by {}
}

proof fn lemma_no_direct(arch: Arch, trap: bool, nr: u32)
    requires
        arch == Arch::X86_64 ==> nr == 1 || nr == 257 || nr == 16,
        arch == Arch::Aarch64 ==> nr == 64 || nr == 56 || nr == 29,
    ensures
        !direct_calls(arch, trap).contains(nr),
{
}

/// The bytes of a program can be read back, instruction by instruction.
pub proof fn law_program_is_read_back(prog: Seq<SockFilter>, i: int)
    requires
        0 <= i < prog.len(),
    ensures
        ({
            let s = program_bytes(prog);
            &&& s.len() == 8 * prog.len()
            &&& s[8 * i] + 256 * s[8 * i + 1] == prog[i].code
            &&& s[8 * i + 2] == prog[i].jt
            &&& s[8 * i + 3] == prog[i].jf
            &&& word_at(s, 8 * i + 4) == prog[i].k
        }),
    decreases prog.len(),
{
    let before = program_bytes(prog.drop_last());
    let last = instruction_bytes(prog.last());
    let s = program_bytes(prog);
    if prog.len() > 1 {
        law_program_is_read_back(
            prog.drop_last(),
            if i < prog.len() - 1 {
                i
            } else {
                0
            },
        );
    }
    assert(before.len() == 8 * (prog.len() - 1));
    if i < prog.len() - 1 {
        assert(forall|j: int| 0 <= j < before.len() ==> s[j] == before[j]);
        assert(prog.drop_last()[i] == prog[i]);
    } else {
        let k = prog[i].k;
        let front = seq![
            (prog[i].code % 0x100) as u8,
            (prog[i].code / 0x100) as u8,
            prog[i].jt,
            prog[i].jf,
        ];
        crate::wire::law_word_round_trip(before + front, k, Seq::empty());
        assert(s =~= before + front + le32(k) + Seq::<u8>::empty());
        assert(s[8 * i] == front[0] && s[8 * i + 1] == front[1] && s[8 * i + 2] == front[2] && s[8
            * i + 3] == front[3]);
    }
}

/// Where the installation stands after `n` steps that went well, from `step` on.
pub open spec fn stands_at(step: Step, n: nat) -> Next
    decreases n,
{
    if n == 0 {
        Next::Do(step)
    } else {
        match stands_at(step, (n - 1) as nat) {
            Next::Do(s) => step_after(s),
            other => other,
        }
    }
}

/// The handler comes first, then the program gives up new privileges; the file
/// rules are made, filled and put in force before the filter, which would deny
/// all that; and behind the filter nothing is left to do.
pub proof fn law_order_of_installation()
    ensures
        stands_at(Step::Handler, 1) == Next::Do(Step::NoNewPrivileges),
        stands_at(Step::NoNewPrivileges, 1) == Next::Do(Step::CreateRuleset),
        stands_at(Step::NoNewPrivileges, 2) == Next::Do(Step::OpenTree),
        stands_at(Step::NoNewPrivileges, 3) == Next::Do(Step::AddRule),
        stands_at(Step::NoNewPrivileges, 4) == Next::Do(Step::Restrict),
        stands_at(Step::NoNewPrivileges, 5) == Next::Do(Step::Filter),
        stands_at(Step::NoNewPrivileges, 6) == Next::Done,
        stands_at(Step::Handler, 7) == Next::Done,
{
    reveal_with_fuel(stands_at, 9);
}

/// Every failed step is reported by a letter of its own.
pub proof fn law_letters_tell_steps_apart(a: Step, b: Step)
    ensures
        step_letter(a) == step_letter(b) ==> a == b,
{
}

/// A number that is reported has its sign before its size.
pub proof fn law_sign_stands_before_the_size(e: int)
    ensures
        e < 0 ==> signed_decimal(e) == seq![0x2du8] + signed_decimal(-e),
        e >= 0 ==> signed_decimal(e) == decimal(e as nat),
{
}

} // verus!
