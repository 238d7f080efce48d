//! System calls of 64-bit ARM Linux that take paths.
use vstd::prelude::*;

verus! {

pub const SYS_OPENAT: i64 = 56;
pub const SYS_OPENAT2: i64 = 437;
pub const SYS_STATX: i64 = 291;
pub const SYS_FACCESSAT: i64 = 48;
pub const SYS_FACCESSAT2: i64 = 439;
pub const SYS_READLINKAT: i64 = 78;
pub const SYS_EXECVE: i64 = 221;
pub const SYS_EXECVEAT: i64 = 281;
pub const SYS_MKDIRAT: i64 = 34;
pub const SYS_UNLINKAT: i64 = 35;
pub const SYS_SYMLINKAT: i64 = 36;
pub const SYS_LINKAT: i64 = 37;
pub const SYS_RENAMEAT: i64 = 38;
pub const SYS_RENAMEAT2: i64 = 276;
pub const SYS_CHDIR: i64 = 49;
pub const SYS_CHROOT: i64 = 51;

/// The places of a system call's path arguments, counted from 0.
pub open spec fn path_places(number: i64) -> Seq<usize> {
    if number == SYS_EXECVE || number == SYS_CHDIR || number == SYS_CHROOT {
        seq![0usize]
    } else if number == SYS_OPENAT || number == SYS_OPENAT2 || number == SYS_STATX || number == SYS_FACCESSAT || number == SYS_FACCESSAT2 || number == SYS_READLINKAT || number == SYS_EXECVEAT || number == SYS_MKDIRAT || number == SYS_UNLINKAT {
        seq![1usize]
    } else if number == SYS_SYMLINKAT {
        seq![2usize]
    } else if number == SYS_LINKAT || number == SYS_RENAMEAT || number == SYS_RENAMEAT2 {
        seq![1usize, 3usize]
    } else {
        Seq::empty()
    }
}

/// The places of a system call's path arguments, counted from 0. Empty for a call that takes no
/// path, or none that is looked at.
pub fn path_args(number: i64) -> (r: Vec<usize>)
    ensures
        r@ == path_places(number),
{
    if number == SYS_EXECVE || number == SYS_CHDIR || number == SYS_CHROOT {
        vec![0]
    } else if number == SYS_OPENAT || number == SYS_OPENAT2 || number == SYS_STATX || number == SYS_FACCESSAT || number == SYS_FACCESSAT2 || number == SYS_READLINKAT || number == SYS_EXECVEAT || number == SYS_MKDIRAT || number == SYS_UNLINKAT {
        vec![1]
    } else if number == SYS_SYMLINKAT {
        vec![2]
    } else if number == SYS_LINKAT || number == SYS_RENAMEAT || number == SYS_RENAMEAT2 {
        vec![1, 3]
    } else {
        Vec::new()
    }
}

/// The system calls that take paths on 64-bit ARM, by their numbers: each of the numbers named here has
/// the places that stand beside it, and a call of any other number takes no path that is looked
/// at.
pub proof fn law_calls_that_take_paths(number: i64)
    ensures
        (number == 221 || number == 49 || number == 51) ==> path_places(number) == seq![0usize],
        (number == 56 || number == 437 || number == 291 || number == 48 || number == 439 || number == 78 || number == 281 || number == 34 || number == 35) ==> path_places(number) == seq![1usize],
        (number == 36) ==> path_places(number) == seq![2usize],
        (number == 37 || number == 38 || number == 276) ==> path_places(number) == seq![1usize, 3usize],
        path_places(number).len() > 0 ==> (number == 221 || number == 49 || number == 51 || number == 56 || number == 437 || number == 291 || number == 48 || number == 439 || number == 78 || number == 281 || number == 34 || number == 35 || number == 36 || number == 37 || number == 38 || number == 276),
{
}

} // verus!
