//! The registers that carry a system call.
use vstd::prelude::*;

use crate::{aarch64, x86_64};

verus! {

/// A processor architecture.
#[derive(Clone, Copy, Debug, PartialEq, Eq, Structural)]
pub enum Arch {
    /// 64-bit ARM.
    Aarch64,
    /// 64-bit x86.
    X86_64,
    /// Any other.
    Other,
}

/// What a system call on 64-bit ARM is read from.
#[derive(Clone, Copy, Debug)]
pub struct Aarch64Regs {
    /// The general registers `x0` to `x30`.
    pub regs: [u64; 31],
    /// The stack pointer.
    pub sp: u64,
}

/// What a system call on 64-bit x86 is read from.
#[derive(Clone, Copy, Debug)]
pub struct X86Regs {
    pub rdi: u64,
    pub rsi: u64,
    pub rdx: u64,
    pub r10: u64,
    pub r8: u64,
    pub r9: u64,
    /// The number of the system call.
    pub orig_rax: u64,
    /// The stack pointer.
    pub rsp: u64,
}

/// The registers of a process that stopped at a system call.
#[derive(Clone, Copy, Debug)]
pub enum Regs {
    Aarch64(Aarch64Regs),
    X86_64(X86Regs),
}

/// The registers as a system call sees them.
#[verifier::ext_equal]
pub struct Frame {
    pub arch: Arch,
    /// The registers that hold arguments, the first argument first. On 64-bit ARM these are all
    /// the general registers.
    pub slots: Seq<u64>,
    /// The register apart that holds the number of the system call, if there is one.
    pub number: Option<u64>,
    /// The stack pointer.
    pub sp: u64,
}

impl Frame {
    /// The number of the system call. On 64-bit ARM it is in `x8`.
    pub open spec fn syscall_number(self) -> i64 {
        match self.number {
            Some(number) => number as i64,
            None => self.slots[8] as i64,
        }
    }

    /// Argument `index`, or 0 if there is no such argument.
    pub open spec fn arg(self, index: int) -> usize {
        if 0 <= index < self.slots.len() {
            self.slots[index] as usize
        } else {
            0
        }
    }

    /// The frame with argument `index` replaced. Nothing changes if there is no such argument.
    pub open spec fn with_arg(self, index: int, value: usize) -> Frame {
        if 0 <= index < self.slots.len() {
            Frame { slots: self.slots.update(index, value as u64), ..self }
        } else {
            self
        }
    }

    /// All zero, as before any registers are known.
    pub open spec fn blank() -> Frame {
        Frame { arch: Arch::Aarch64, slots: Seq::new(31, |i: int| 0u64), number: None, sp: 0 }
    }

    /// Whether the frame has as many registers as its architecture says.
    pub open spec fn well_formed(self) -> bool {
        match self.arch {
            Arch::Aarch64 => self.slots.len() == 31 && self.number is None,
            Arch::X86_64 => self.slots.len() == 6 && self.number is Some,
            Arch::Other => false,
        }
    }

    /// An argument that was replaced reads as its new value, and the others as before.
    pub proof fn law_replaced_arg(self, index: int, other: int, value: usize)
        requires
            0 <= index < self.slots.len(),
            other != index,
        ensures
            self.with_arg(index, value).arg(index) == value,
            self.with_arg(index, value).arg(other) == self.arg(other),
            self.with_arg(index, value).sp == self.sp,
    {
    }

    /// Replacing an argument of a system call keeps its number. On 64-bit ARM this leaves out
    /// `x8`, which no argument of a system call is in.
    pub proof fn law_number_kept(self, index: int, value: usize)
        requires
            self.well_formed(),
            self.arch == Arch::Aarch64 ==> index != 8,
        ensures
            self.with_arg(index, value).well_formed(),
            self.with_arg(index, value).syscall_number() == self.syscall_number(),
    {
    }
}

impl View for Regs {
    type V = Frame;

    open spec fn view(&self) -> Frame {
        match *self {
            Regs::Aarch64(r) => Frame {
                arch: Arch::Aarch64,
                slots: r.regs@,
                number: None,
                sp: r.sp,
            },
            Regs::X86_64(r) => Frame {
                arch: Arch::X86_64,
                slots: seq![r.rdi, r.rsi, r.rdx, r.r10, r.r8, r.r9],
                number: Some(r.orig_rax),
                sp: r.rsp,
            },
        }
    }
}

/// The architecture whose registers these are.
pub fn arch_of(regs: &Regs) -> (r: Arch)
    ensures
        r == regs@.arch,
        regs@.well_formed(),
{
    match regs {
        Regs::Aarch64(_) => Arch::Aarch64,
        Regs::X86_64(_) => Arch::X86_64,
    }
}

/// The number of the system call.
pub fn syscall_number(regs: &Regs) -> (r: i64)
    ensures
        r == regs@.syscall_number(),
{
    match regs {
        Regs::Aarch64(r) => r.regs[8] as i64,
        Regs::X86_64(r) => r.orig_rax as i64,
    }
}

/// Argument `index` of the system call, or 0 if there is no such argument.
pub fn syscall_arg(regs: &Regs, index: usize) -> (r: usize)
    ensures
        r == regs@.arg(index as int),
{
    match regs {
        Regs::Aarch64(r) => if index < 31 {
            r.regs[index] as usize
        } else {
            0
        },
        Regs::X86_64(r) => match index {
            0 => r.rdi as usize,
            1 => r.rsi as usize,
            2 => r.rdx as usize,
            3 => r.r10 as usize,
            4 => r.r8 as usize,
            5 => r.r9 as usize,
            _ => 0,
        },
    }
}

/// Replaces argument `index` of the system call. Does nothing if there is no such argument.
pub fn set_syscall_arg(regs: &mut Regs, index: usize, value: usize)
    ensures
        final(regs)@ == old(regs)@.with_arg(index as int, value),
{
    match regs {
        Regs::Aarch64(r) => {
            if index < 31 {
                r.regs[index] = value as u64;
            }
        },
        Regs::X86_64(r) => match index {
            0 => r.rdi = value as u64,
            1 => r.rsi = value as u64,
            2 => r.rdx = value as u64,
            3 => r.r10 = value as u64,
            4 => r.r8 = value as u64,
            5 => r.r9 = value as u64,
            _ => {},
        },
    }
}

/// The stack pointer.
pub fn stack_pointer(regs: &Regs) -> (r: usize)
    ensures
        r == regs@.sp as usize,
{
    match regs {
        Regs::Aarch64(r) => r.sp as usize,
        Regs::X86_64(r) => r.rsp as usize,
    }
}

/// The places of the path arguments of system call `number`, counted from 0.
pub open spec fn path_places(arch: Arch, number: i64) -> Seq<usize> {
    match arch {
        Arch::Aarch64 => aarch64::path_places(number),
        Arch::X86_64 => x86_64::path_places(number),
        Arch::Other => Seq::empty(),
    }
}

/// The places of the path arguments of system call `number`, counted from 0.
pub fn syscall_path_args(arch: Arch, number: i64) -> (r: Vec<usize>)
    ensures
        r@ == path_places(arch, number),
{
    match arch {
        Arch::Aarch64 => aarch64::path_args(number),
        Arch::X86_64 => x86_64::path_args(number),
        Arch::Other => Vec::new(),
    }
}

/// Whatever the system call, its path arguments are among the first four, none is named twice,
/// and there are at most two.
pub proof fn law_path_places(arch: Arch, number: i64)
    ensures
        path_places(arch, number).len() <= 2,
        path_places(arch, number).no_duplicates(),
        forall|i: int|
            0 <= i < path_places(arch, number).len() ==> #[trigger] path_places(arch, number)[i]
                < 4,
{
}

/// On 64-bit x86 a system call has its number in `orig_rax` and its arguments in `rdi`, `rsi`,
/// `rdx`, `r10`, `r8` and `r9`, in this order. There is no argument beyond those.
pub proof fn law_x86_64_arguments(r: X86Regs, beyond: int)
    requires
        !(0 <= beyond < 6),
    ensures
        ({
            let frame = Regs::X86_64(r)@;
            &&& frame.arch == Arch::X86_64
            &&& frame.syscall_number() == r.orig_rax as i64
            &&& frame.arg(0) == r.rdi as usize
            &&& frame.arg(1) == r.rsi as usize
            &&& frame.arg(2) == r.rdx as usize
            &&& frame.arg(3) == r.r10 as usize
            &&& frame.arg(4) == r.r8 as usize
            &&& frame.arg(5) == r.r9 as usize
            &&& frame.arg(beyond) == 0
            &&& frame.sp == r.rsp
        }),
{
}

/// On 64-bit ARM a system call has its number in `x8`, and argument `index` in the general
/// register of that number. There is no argument beyond the 31 registers.
pub proof fn law_aarch64_arguments(r: Aarch64Regs, index: int)
    ensures
        ({
            let frame = Regs::Aarch64(r)@;
            &&& frame.arch == Arch::Aarch64
            &&& frame.syscall_number() == r.regs@[8] as i64
            &&& 0 <= index < 31 ==> frame.arg(index) == r.regs@[index] as usize
            &&& !(0 <= index < 31) ==> frame.arg(index) == 0
            &&& frame.sp == r.sp
        }),
{
}

/// On 64-bit x86, replacing an argument writes to the one register that holds it, and to no
/// other.
pub proof fn law_x86_64_replaced(r: X86Regs, beyond: int, value: usize)
    requires
        !(0 <= beyond < 6),
    ensures
        Regs::X86_64(r)@.with_arg(0, value) == Regs::X86_64(X86Regs { rdi: value as u64, ..r })@,
        Regs::X86_64(r)@.with_arg(1, value) == Regs::X86_64(X86Regs { rsi: value as u64, ..r })@,
        Regs::X86_64(r)@.with_arg(2, value) == Regs::X86_64(X86Regs { rdx: value as u64, ..r })@,
        Regs::X86_64(r)@.with_arg(3, value) == Regs::X86_64(X86Regs { r10: value as u64, ..r })@,
        Regs::X86_64(r)@.with_arg(4, value) == Regs::X86_64(X86Regs { r8: value as u64, ..r })@,
        Regs::X86_64(r)@.with_arg(5, value) == Regs::X86_64(X86Regs { r9: value as u64, ..r })@,
        Regs::X86_64(r)@.with_arg(beyond, value) == Regs::X86_64(r)@,
{
}

/// On 64-bit ARM, replacing an argument writes to the general register of its number, and to no
/// other register.
pub proof fn law_aarch64_replaced(r: Aarch64Regs, index: int, value: usize)
    ensures
        ({
            let frame = Regs::Aarch64(r)@.with_arg(index, value);
            &&& frame.arch == Arch::Aarch64
            &&& frame.number is None
            &&& frame.sp == r.sp
            &&& frame.slots.len() == 31
            &&& forall|i: int|
                0 <= i < 31 ==> #[trigger] frame.slots[i] == if i == index {
                    value as u64
                } else {
                    r.regs@[i]
                }
        }),
{
}

/// Each architecture has its own system calls that take paths, and one that is neither 64-bit ARM
/// nor 64-bit x86 has none.
pub proof fn law_places_by_architecture(number: i64)
    ensures
        path_places(Arch::Aarch64, number) == aarch64::path_places(number),
        path_places(Arch::X86_64, number) == x86_64::path_places(number),
        path_places(Arch::Other, number).len() == 0,
{
}

/// Registers have the shape of their architecture: 31 of them on 64-bit ARM, one of which holds
/// the number of the call, and six on 64-bit x86, with the number in a register apart.
pub proof fn law_frame_shape(regs: Regs, frame: Frame)
    ensures
        regs@.well_formed(),
        frame.well_formed() <==> ((frame.arch == Arch::Aarch64 && frame.slots.len() == 31
            && frame.number is None) || (frame.arch == Arch::X86_64 && frame.slots.len() == 6
            && frame.number is Some)),
{
}

} // verus!
