use nix::libc;
use ptrace_binds::regs::{
    arch_of, set_syscall_arg, stack_pointer, syscall_arg, syscall_number, syscall_path_args,
    Aarch64Regs, Arch, Regs, X86Regs,
};
use ptrace_binds::{aarch64, x86_64};

fn x86() -> Regs {
    Regs::X86_64(X86Regs {
        rdi: 10,
        rsi: 11,
        rdx: 12,
        r10: 13,
        r8: 14,
        r9: 15,
        orig_rax: 257,
        rsp: 1000,
    })
}

fn arm() -> Regs {
    let mut regs = [0u64; 31];
    for i in 0..31 {
        regs[i] = 100 + i as u64;
    }
    regs[8] = 56;
    Regs::Aarch64(Aarch64Regs { regs, sp: 2000 })
}

#[test]
fn arguments_of_x86() {
    let regs = x86();
    assert_eq!(arch_of(&regs), Arch::X86_64);
    assert_eq!(syscall_number(&regs), 257);
    assert_eq!(stack_pointer(&regs), 1000);
    for i in 0..6 {
        assert_eq!(syscall_arg(&regs, i), 10 + i);
    }
    assert_eq!(syscall_arg(&regs, 6), 0);
    assert_eq!(syscall_arg(&regs, usize::MAX), 0);
}

#[test]
fn arguments_of_arm() {
    let regs = arm();
    assert_eq!(arch_of(&regs), Arch::Aarch64);
    assert_eq!(syscall_number(&regs), 56);
    assert_eq!(stack_pointer(&regs), 2000);
    assert_eq!(syscall_arg(&regs, 0), 100);
    assert_eq!(syscall_arg(&regs, 30), 130);
    assert_eq!(syscall_arg(&regs, 31), 0);
}

#[test]
fn a_replaced_argument_reads_as_its_new_value() {
    for start in [x86(), arm()] {
        for i in 0..6 {
            let mut regs = start;
            set_syscall_arg(&mut regs, i, 77);
            for j in 0..7 {
                let expected = if i == j { 77 } else { syscall_arg(&start, j) };
                assert_eq!(syscall_arg(&regs, j), expected);
            }
            assert_eq!(syscall_number(&regs), syscall_number(&start));
            assert_eq!(stack_pointer(&regs), stack_pointer(&start));
        }
        let mut regs = start;
        set_syscall_arg(&mut regs, 31, 77);
        for j in 0..32 {
            assert_eq!(syscall_arg(&regs, j), syscall_arg(&start, j));
        }
    }
}

#[test]
fn negative_numbers_of_system_calls() {
    let regs = Regs::X86_64(X86Regs {
        rdi: 0,
        rsi: 0,
        rdx: 0,
        r10: 0,
        r8: 0,
        r9: 0,
        orig_rax: u64::MAX,
        rsp: 0,
    });
    assert_eq!(syscall_number(&regs), -1);
}

#[test]
fn path_arguments_of_x86() {
    let args = |n: i64| syscall_path_args(Arch::X86_64, n);
    for n in [
        x86_64::SYS_OPEN,
        x86_64::SYS_STAT,
        x86_64::SYS_LSTAT,
        x86_64::SYS_ACCESS,
        x86_64::SYS_READLINK,
        x86_64::SYS_EXECVE,
        x86_64::SYS_MKDIR,
        x86_64::SYS_UNLINK,
        x86_64::SYS_CHDIR,
        x86_64::SYS_CHROOT,
    ] {
        assert_eq!(args(n), vec![0]);
    }
    for n in [
        x86_64::SYS_OPENAT,
        x86_64::SYS_OPENAT2,
        x86_64::SYS_NEWFSTATAT,
        x86_64::SYS_STATX,
        x86_64::SYS_FACCESSAT,
        x86_64::SYS_FACCESSAT2,
        x86_64::SYS_READLINKAT,
        x86_64::SYS_EXECVEAT,
        x86_64::SYS_MKDIRAT,
        x86_64::SYS_UNLINKAT,
        x86_64::SYS_SYMLINK,
    ] {
        assert_eq!(args(n), vec![1]);
    }
    assert_eq!(args(x86_64::SYS_SYMLINKAT), vec![2]);
    assert_eq!(args(x86_64::SYS_LINK), vec![0, 1]);
    assert_eq!(args(x86_64::SYS_RENAME), vec![0, 1]);
    for n in [
        x86_64::SYS_LINKAT,
        x86_64::SYS_RENAMEAT,
        x86_64::SYS_RENAMEAT2,
    ] {
        assert_eq!(args(n), vec![1, 3]);
    }
    assert_eq!(args(0), Vec::<usize>::new());
    assert_eq!(args(-1), Vec::<usize>::new());
}

#[test]
fn path_arguments_of_arm() {
    let args = |n: i64| syscall_path_args(Arch::Aarch64, n);
    for n in [
        aarch64::SYS_EXECVE,
        aarch64::SYS_CHDIR,
        aarch64::SYS_CHROOT,
    ] {
        assert_eq!(args(n), vec![0]);
    }
    for n in [
        aarch64::SYS_OPENAT,
        aarch64::SYS_OPENAT2,
        aarch64::SYS_STATX,
        aarch64::SYS_FACCESSAT,
        aarch64::SYS_FACCESSAT2,
        aarch64::SYS_READLINKAT,
        aarch64::SYS_EXECVEAT,
        aarch64::SYS_MKDIRAT,
        aarch64::SYS_UNLINKAT,
    ] {
        assert_eq!(args(n), vec![1]);
    }
    assert_eq!(args(aarch64::SYS_SYMLINKAT), vec![2]);
    for n in [
        aarch64::SYS_LINKAT,
        aarch64::SYS_RENAMEAT,
        aarch64::SYS_RENAMEAT2,
    ] {
        assert_eq!(args(n), vec![1, 3]);
    }
    // `newfstatat` is not looked at on this architecture.
    assert_eq!(args(79), Vec::<usize>::new());
}

#[test]
fn other_architectures_have_no_path_arguments() {
    for n in 0..500 {
        assert_eq!(syscall_path_args(Arch::Other, n), Vec::<usize>::new());
    }
}

#[test]
fn numbers_of_x86_are_those_of_libc() {
    // The tests run on this architecture.
    let pairs = [
        (x86_64::SYS_OPEN, libc::SYS_open),
        (x86_64::SYS_OPENAT, libc::SYS_openat),
        (x86_64::SYS_OPENAT2, libc::SYS_openat2),
        (x86_64::SYS_STAT, libc::SYS_stat),
        (x86_64::SYS_LSTAT, libc::SYS_lstat),
        (x86_64::SYS_NEWFSTATAT, libc::SYS_newfstatat),
        (x86_64::SYS_STATX, libc::SYS_statx),
        (x86_64::SYS_ACCESS, libc::SYS_access),
        (x86_64::SYS_FACCESSAT, libc::SYS_faccessat),
        (x86_64::SYS_FACCESSAT2, libc::SYS_faccessat2),
        (x86_64::SYS_READLINK, libc::SYS_readlink),
        (x86_64::SYS_READLINKAT, libc::SYS_readlinkat),
        (x86_64::SYS_EXECVE, libc::SYS_execve),
        (x86_64::SYS_EXECVEAT, libc::SYS_execveat),
        (x86_64::SYS_MKDIR, libc::SYS_mkdir),
        (x86_64::SYS_MKDIRAT, libc::SYS_mkdirat),
        (x86_64::SYS_UNLINK, libc::SYS_unlink),
        (x86_64::SYS_UNLINKAT, libc::SYS_unlinkat),
        (x86_64::SYS_SYMLINK, libc::SYS_symlink),
        (x86_64::SYS_SYMLINKAT, libc::SYS_symlinkat),
        (x86_64::SYS_LINK, libc::SYS_link),
        (x86_64::SYS_LINKAT, libc::SYS_linkat),
        (x86_64::SYS_RENAME, libc::SYS_rename),
        (x86_64::SYS_RENAMEAT, libc::SYS_renameat),
        (x86_64::SYS_RENAMEAT2, libc::SYS_renameat2),
        (x86_64::SYS_CHDIR, libc::SYS_chdir),
        (x86_64::SYS_CHROOT, libc::SYS_chroot),
    ];
    for (ours, theirs) in pairs {
        assert_eq!(ours, theirs);
    }
}
