//! The system call filter, run as the kernel runs it.

use ltop::sandbox::{
    allow_direct, audit_arch, blocked_message, build_prog, deny_action, encode_fprog, encode_prog,
    fail, first_step, install, path_rule, prog_len, ret_deny_index, ruleset_attr, sys_ioctl,
    sys_openat, sys_write, Arch, Next, SockFilter, SockFprog, Step, AUDIT_ARCH_AARCH64,
    AUDIT_ARCH_X86_64, BPF_ALU_AND_K, BPF_JMP_JEQ_K, BPF_LD_W_ABS, BPF_RET_K, I_DIRECT_START,
    I_JEQ_ARCH, I_LD_ARCH, I_LD_NR, SECCOMP_DATA_ARCH, SECCOMP_DATA_NR, SECCOMP_RET_ALLOW,
    SECCOMP_RET_KILL_PROCESS, SECCOMP_RET_TRAP, TCSETS, TIOCGWINSZ,
};

struct Machine {
    audit: u32,
    prog: Vec<SockFilter>,
    direct: Vec<u32>,
    write: u32,
    openat: u32,
    ioctl: u32,
    deny: u32,
    ret_deny: usize,
    ret_allow: usize,
    len: usize,
}

fn machines(trap: bool) -> Vec<Machine> {
    [Arch::X86_64, Arch::Aarch64]
        .into_iter()
        .map(|arch| {
            let direct = allow_direct(arch, trap);
            let n = direct.len();
            Machine {
                audit: audit_arch(arch),
                prog: build_prog(arch, trap),
                direct,
                write: sys_write(arch),
                openat: sys_openat(arch),
                ioctl: sys_ioctl(arch),
                deny: deny_action(trap),
                ret_deny: ret_deny_index(n),
                ret_allow: ret_deny_index(n) + 1,
                len: prog_len(n),
            }
        })
        .collect()
}

#[test]
fn prog_shape_is_well_formed() {
    for m in machines(false) {
        assert_eq!(m.prog[I_LD_ARCH].code, BPF_LD_W_ABS);
        assert_eq!(m.prog[I_LD_ARCH].k, SECCOMP_DATA_ARCH);
        assert_eq!(m.prog[I_JEQ_ARCH].code, BPF_JMP_JEQ_K);
        assert_eq!(m.prog[I_JEQ_ARCH].k, m.audit);
        assert_eq!(m.prog[I_LD_NR].code, BPF_LD_W_ABS);
        assert_eq!(m.prog[I_LD_NR].k, SECCOMP_DATA_NR);

        assert_eq!(m.prog[m.ret_deny].code, BPF_RET_K);
        assert_eq!(m.prog[m.ret_deny].k, m.deny);
        assert_eq!(m.prog[m.ret_allow].code, BPF_RET_K);
        assert_eq!(m.prog[m.ret_allow].k, SECCOMP_RET_ALLOW);
        assert_eq!(m.prog.len(), m.len);
    }
}

#[test]
fn direct_allow_jumps_land_on_allow() {
    for m in machines(false) {
        for (i, &nr) in m.direct.iter().enumerate() {
            let inst_idx = I_DIRECT_START + i;
            let entry = m.prog[inst_idx];
            assert_eq!(entry.code, BPF_JMP_JEQ_K);
            assert_eq!(entry.k, nr);
            assert_eq!(
                inst_idx + 1 + entry.jt as usize, m.ret_allow,
                "JEQ for syscall {nr} doesn't land on allow",
            );
        }
    }
}

#[test]
fn arch_mismatch_jumps_to_deny() {
    for m in machines(false) {
        let arch = m.prog[I_JEQ_ARCH];
        assert_eq!(I_JEQ_ARCH + 1 + arch.jf as usize, m.ret_deny);
    }
}

#[test]
fn jump_distances_fit_in_u8() {
    for m in machines(false) {
        assert!(m.len < 256, "m.len={} would overflow u8 BPF jump", m.len);
    }
}

#[test]
fn kernel_struct_layout() {
    assert_eq!(std::mem::size_of::<SockFilter>(), 8);
    assert_eq!(std::mem::align_of::<SockFilter>(), 4);
    assert_eq!(std::mem::size_of::<SockFprog>(), 16);
    assert_eq!(std::mem::align_of::<SockFprog>(), 8);
}

fn run_bpf(prog: &[SockFilter], data: &[u8; 64]) -> u32 {
    let mut pc: usize = 0;
    let mut a: u32 = 0;
    loop {
        let i = prog[pc];
        match i.code {
            BPF_LD_W_ABS => {
                let off = i.k as usize;
                a = u32::from_ne_bytes([
                    data[off], data[off + 1], data[off + 2], data[off + 3],
                ]);
                pc += 1;
            }
            BPF_JMP_JEQ_K => {
                pc += 1 + if a == i.k { i.jt } else { i.jf } as usize;
            }
            BPF_ALU_AND_K => {
                a &= i.k;
                pc += 1;
            }
            BPF_RET_K => return i.k,
            _ => panic!("unknown BPF instruction code {:#x} at pc {pc}", i.code),
        }
    }
}

fn make_data(nr: i32, arch: u32, args: &[u64]) -> [u8; 64] {
    let mut d = [0u8; 64];
    d[0..4].copy_from_slice(&nr.to_ne_bytes());
    d[4..8].copy_from_slice(&arch.to_ne_bytes());
    for (i, &a) in args.iter().enumerate().take(6) {
        let off = 16 + i * 8;
        d[off..off + 8].copy_from_slice(&a.to_ne_bytes());
    }
    d
}

#[test]
fn bpf_allows_each_direct_syscall() {
    for m in machines(false) {
        for &nr in &m.direct {
            let data = make_data(nr as i32, m.audit, &[]);
            let result = run_bpf(m.prog.as_slice(), &data);
            assert_eq!(
                result, SECCOMP_RET_ALLOW,
                "syscall {nr} should be allowed but BPF returned {result:#x}",
            );
        }
    }
}

#[test]
fn bpf_denies_dangerous_syscalls() {
    for m in machines(false) {
        let bad_nrs: &[i32] = &[
            59, 221,
            101, 117,
            9, 222,
            41, 198,
            321, 280,
            9999,
            -1,
        ];
        for &nr in bad_nrs {
            if m.direct.contains(&(nr as u32))
                || nr as u32 == m.write
                || nr as u32 == m.openat
                || nr as u32 == m.ioctl
            {
                continue;
            }
            let data = make_data(nr, m.audit, &[]);
            let result = run_bpf(m.prog.as_slice(), &data);
            assert_eq!(
                result, m.deny,
                "syscall {nr} should be denied but BPF returned {result:#x}",
            );
        }
    }
}

#[test]
fn bpf_denies_wrong_arch_even_for_allowed_nr() {
    for m in machines(false) {
        let other_arch = if m.audit == AUDIT_ARCH_X86_64 {
            AUDIT_ARCH_AARCH64
        } else {
            AUDIT_ARCH_X86_64
        };
        let data = make_data(m.direct[0] as i32, other_arch, &[]);
        let result = run_bpf(m.prog.as_slice(), &data);
        assert_eq!(result, m.deny);
    }
}

#[test]
fn bpf_denies_arch_zero() {
    for m in machines(false) {
        let data = make_data(m.direct[0] as i32, 0, &[]);
        let result = run_bpf(m.prog.as_slice(), &data);
        assert_eq!(result, m.deny);
    }
}

#[test]
fn bpf_allows_write_to_stdout() {
    for m in machines(false) {
        let data = make_data(m.write as i32, m.audit, &[1, 0, 0]);
        assert_eq!(run_bpf(m.prog.as_slice(), &data), SECCOMP_RET_ALLOW);
    }
}

#[test]
fn bpf_allows_write_to_stderr() {
    for m in machines(false) {
        let data = make_data(m.write as i32, m.audit, &[2, 0, 0]);
        assert_eq!(run_bpf(m.prog.as_slice(), &data), SECCOMP_RET_ALLOW);
    }
}

#[test]
fn bpf_denies_write_to_stdin() {
    for m in machines(false) {
        let data = make_data(m.write as i32, m.audit, &[0, 0, 0]);
        assert_eq!(run_bpf(m.prog.as_slice(), &data), m.deny);
    }
}

#[test]
fn bpf_denies_write_to_other_fds() {
    for m in machines(false) {
        for fd in [3u64, 4, 100, u32::MAX as u64] {
            let data = make_data(m.write as i32, m.audit, &[fd, 0, 0]);
            assert_eq!(
                run_bpf(m.prog.as_slice(), &data), m.deny,
                "write(fd={fd}) should be denied",
            );
        }
    }
}

#[test]
fn bpf_allows_read_only_openat() {
    for m in machines(false) {
        for flags in [0u64, 0o2000000, 0o2000000 | 0o4000] {
            let data = make_data(m.openat as i32, m.audit, &[0, 0, flags]);
            assert_eq!(
                run_bpf(m.prog.as_slice(), &data), SECCOMP_RET_ALLOW,
                "openat(flags={flags:#x}) should be allowed",
            );
        }
    }
}

#[test]
fn bpf_denies_write_mode_openat() {
    for m in machines(false) {
        let bad_flags: &[u64] = &[
            0o1,
            0o2,
            0o100,
            0o1000,
            0o2000,
            0o20000000,
            0o1 | 0o2000000,
            0o2 | 0o100,
        ];
        for &flags in bad_flags {
            let data = make_data(m.openat as i32, m.audit, &[0, 0, flags]);
            assert_eq!(
                run_bpf(m.prog.as_slice(), &data), m.deny,
                "openat(flags={flags:#o}) should be denied",
            );
        }
    }
}

#[test]
fn bpf_allows_ioctl_tiocgwinsz() {
    for m in machines(false) {
        let data = make_data(m.ioctl as i32, m.audit, &[0, TIOCGWINSZ as u64, 0]);
        assert_eq!(run_bpf(m.prog.as_slice(), &data), SECCOMP_RET_ALLOW);
    }
}

#[test]
fn bpf_allows_ioctl_tcsets() {
    for m in machines(false) {
        let data = make_data(m.ioctl as i32, m.audit, &[0, TCSETS as u64, 0]);
        assert_eq!(run_bpf(m.prog.as_slice(), &data), SECCOMP_RET_ALLOW);
    }
}

#[test]
fn bpf_allows_ioctl_rm_family() {
    for m in machines(false) {
        for size in [0u32, 0x100, 0x4000, 0x3fff] {
            for nr in [0u32, 0x2A, 0x2B, 0xCA, 0xFF] {
                let cmd = (3u32 << 30) | (size << 16) | ((b'F' as u32) << 8) | nr;
                let data = make_data(m.ioctl as i32, m.audit, &[0, cmd as u64, 0]);
                assert_eq!(
                    run_bpf(m.prog.as_slice(), &data), SECCOMP_RET_ALLOW,
                    "ioctl(cmd={cmd:#x}) should be allowed (RM)",
                );
            }
        }
    }
}

#[test]
fn bpf_denies_ioctl_tiocsti() {
    for m in machines(false) {
        const TIOCSTI: u64 = 0x5412;
        let data = make_data(m.ioctl as i32, m.audit, &[0, TIOCSTI, 0]);
        assert_eq!(run_bpf(m.prog.as_slice(), &data), m.deny);
    }
}

#[test]
fn bpf_denies_ioctl_tcgets() {
    for m in machines(false) {
        const TCGETS: u64 = 0x5401;
        let data = make_data(m.ioctl as i32, m.audit, &[0, TCGETS, 0]);
        assert_eq!(run_bpf(m.prog.as_slice(), &data), m.deny);
    }
}

#[test]
fn bpf_denies_arbitrary_ioctl_cmds() {
    for m in machines(false) {
        let bad_cmds: &[u64] = &[
            0x12345678,
            0xc0001234,
            0x40004600,
            0xff,
            u32::MAX as u64,
        ];
        for &cmd in bad_cmds {
            let data = make_data(m.ioctl as i32, m.audit, &[0, cmd, 0]);
            assert_eq!(
                run_bpf(m.prog.as_slice(), &data), m.deny,
                "ioctl(cmd={cmd:#x}) should be denied",
            );
        }
    }
}

#[test]
fn deny_action_is_kill_process_in_production() {
    for m in machines(false) {
        assert_eq!(m.deny, SECCOMP_RET_KILL_PROCESS);
    }
}

#[test]
fn deny_action_is_trap_in_diagnostic_mode() {
    for m in machines(true) {
        assert_eq!(m.deny, SECCOMP_RET_TRAP);
    }
}

#[test]
fn filter_in_kernel_form() {
    for m in machines(false) {
        let bytes = encode_prog(&m.prog);
        assert_eq!(bytes.len(), 8 * m.len);
        assert_eq!(bytes[0..8], [0x20, 0, 0, 0, 4, 0, 0, 0]);
    }
    let p = SockFprog { len: 0x0123, filter: 0x1122334455667788 };
    assert_eq!(
        encode_fprog(p),
        vec![0x23, 1, 0, 0, 0, 0, 0, 0, 0x88, 0x77, 0x66, 0x55, 0x44, 0x33, 0x22, 0x11],
    );
}

#[test]
fn file_rules_in_kernel_form() {
    assert_eq!(ruleset_attr(), vec![12, 0, 0, 0, 0, 0, 0, 0]);
    assert_eq!(path_rule(5), vec![12, 0, 0, 0, 0, 0, 0, 0, 5, 0, 0, 0]);
}

#[test]
fn steps_of_the_installation() {
    assert_eq!(first_step(false), Step::NoNewPrivileges);
    assert_eq!(first_step(true), Step::Handler);
    let mut step = first_step(true);
    let mut n = 1;
    loop {
        match install(step, 0) {
            Next::Do(next) => step = next,
            Next::Done => break,
            Next::Fail(_) => unreachable!(),
        }
        n += 1;
    }
    assert_eq!(n, 7);
    assert_eq!(step, Step::Filter);
}

#[test]
fn each_failed_step_has_its_letter() {
    assert_eq!(install(Step::NoNewPrivileges, -1), Next::Fail(b'1'));
    assert_eq!(install(Step::Filter, -22), Next::Fail(b'2'));
    assert_eq!(install(Step::CreateRuleset, -38), Next::Fail(b'3'));
    assert_eq!(install(Step::OpenTree, -2), Next::Fail(b'4'));
    assert_eq!(install(Step::AddRule, -1), Next::Fail(b'5'));
    assert_eq!(install(Step::Restrict, -1), Next::Fail(b'6'));
    assert_eq!(install(Step::Handler, -1), Next::Fail(b'7'));
}

#[test]
fn messages_name_step_and_error() {
    assert_eq!(fail(b'3', -38), b"ltop: sandbox install failed (3 err=-38)\n".to_vec());
    assert_eq!(fail(b'1', 0), b"ltop: sandbox install failed (1 err=0)\n".to_vec());
    assert_eq!(blocked_message(59), b"ltop: blocked syscall 59\n".to_vec());
    assert_eq!(blocked_message(-1), b"ltop: blocked syscall -1\n".to_vec());
}

#[test]
fn trapping_filter_traps() {
    for m in machines(true) {
        let data = make_data(59, m.audit, &[]);
        if !m.direct.contains(&59) {
            assert_eq!(run_bpf(m.prog.as_slice(), &data), SECCOMP_RET_TRAP);
        }
    }
}
