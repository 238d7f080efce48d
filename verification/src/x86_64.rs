//! System calls of x86-64 Linux that take paths.
use vstd::prelude::*;

verus! {

pub const SYS_OPEN: i64 = 2;
pub const SYS_OPENAT: i64 = 257;
pub const SYS_OPENAT2: i64 = 437;
pub const SYS_STAT: i64 = 4;
pub const SYS_LSTAT: i64 = 6;
pub const SYS_NEWFSTATAT: i64 = 262;
pub const SYS_STATX: i64 = 332;
pub const SYS_ACCESS: i64 = 21;
pub const SYS_FACCESSAT: i64 = 269;
pub const SYS_FACCESSAT2: i64 = 439;
pub const SYS_READLINK: i64 = 89;
pub const SYS_READLINKAT: i64 = 267;
pub const SYS_EXECVE: i64 = 59;
pub const SYS_EXECVEAT: i64 = 322;
pub const SYS_MKDIR: i64 = 83;
pub const SYS_MKDIRAT: i64 = 258;
pub const SYS_UNLINK: i64 = 87;
pub const SYS_UNLINKAT: i64 = 263;
pub const SYS_SYMLINK: i64 = 88;
pub const SYS_SYMLINKAT: i64 = 266;
pub const SYS_LINK: i64 = 86;
pub const SYS_LINKAT: i64 = 265;
pub const SYS_RENAME: i64 = 82;
pub const SYS_RENAMEAT: i64 = 264;
pub const SYS_RENAMEAT2: i64 = 316;
pub const SYS_CHDIR: i64 = 80;
pub const SYS_CHROOT: i64 = 161;

/// The places of a system call's path arguments, counted from 0.
pub open spec fn path_places(number: i64) -> Seq<usize> {
    if number == SYS_OPEN || number == SYS_STAT || number == SYS_LSTAT || number == SYS_ACCESS || number == SYS_READLINK || number == SYS_EXECVE || number == SYS_MKDIR || number == SYS_UNLINK || number == SYS_CHDIR || number == SYS_CHROOT {
        seq![0usize]
    } else if number == SYS_OPENAT || number == SYS_OPENAT2 || number == SYS_NEWFSTATAT || number == SYS_STATX || number == SYS_FACCESSAT || number == SYS_FACCESSAT2 || number == SYS_READLINKAT || number == SYS_EXECVEAT || number == SYS_MKDIRAT || number == SYS_UNLINKAT || number == SYS_SYMLINK {
        seq![1usize]
    } else if number == SYS_SYMLINKAT {
        seq![2usize]
    } else if number == SYS_LINK || number == SYS_RENAME {
        seq![0usize, 1usize]
    } else if number == SYS_LINKAT || number == SYS_RENAMEAT || number == SYS_RENAMEAT2 {
        seq![1usize, 3usize]
    } else {
        Seq::empty()
    }
}

/// The places of a system call's path arguments, counted from 0. Empty for a call that takes no
/// path, or none that is looked at.
pub fn path_args(number: i64) -> (r: Vec<usize>)
    ensures
        r@ == path_places(number),
{
    if number == SYS_OPEN || number == SYS_STAT || number == SYS_LSTAT || number == SYS_ACCESS || number == SYS_READLINK || number == SYS_EXECVE || number == SYS_MKDIR || number == SYS_UNLINK || number == SYS_CHDIR || number == SYS_CHROOT {
        vec![0]
    } else if number == SYS_OPENAT || number == SYS_OPENAT2 || number == SYS_NEWFSTATAT || number == SYS_STATX || number == SYS_FACCESSAT || number == SYS_FACCESSAT2 || number == SYS_READLINKAT || number == SYS_EXECVEAT || number == SYS_MKDIRAT || number == SYS_UNLINKAT || number == SYS_SYMLINK {
        vec![1]
    } else if number == SYS_SYMLINKAT {
        vec![2]
    } else if number == SYS_LINK || number == SYS_RENAME {
        vec![0, 1]
    } else if number == SYS_LINKAT || number == SYS_RENAMEAT || number == SYS_RENAMEAT2 {
        vec![1, 3]
    } else {
        Vec::new()
    }
}

/// The system calls that take paths on x86-64, by their numbers: each of the numbers named here has
/// the places that stand beside it, and a call of any other number takes no path that is looked
/// at.
pub proof fn law_calls_that_take_paths(number: i64)
    ensures
        (number == 2 || number == 4 || number == 6 || number == 21 || number == 89 || number == 59 || number == 83 || number == 87 || number == 80 || number == 161) ==> path_places(number) == seq![0usize],
        (number == 257 || number == 437 || number == 262 || number == 332 || number == 269 || number == 439 || number == 267 || number == 322 || number == 258 || number == 263 || number == 88) ==> path_places(number) == seq![1usize],
        (number == 266) ==> path_places(number) == seq![2usize],
        (number == 86 || number == 82) ==> path_places(number) == seq![0usize, 1usize],
        (number == 265 || number == 264 || number == 316) ==> path_places(number) == seq![1usize, 3usize],
        path_places(number).len() > 0 ==> (number == 2 || number == 4 || number == 6 || number == 21 || number == 89 || number == 59 || number == 83 || number == 87 || number == 80 || number == 161 || number == 257 || number == 437 || number == 262 || number == 332 || number == 269 || number == 439 || number == 267 || number == 322 || number == 258 || number == 263 || number == 88 || number == 266 || number == 86 || number == 82 || number == 265 || number == 264 || number == 316),
{
}

} // verus!
