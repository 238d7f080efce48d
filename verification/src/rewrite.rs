//! The rewriting of a system call's path arguments.
//!
//! When a traced process enters a system call, each of its path arguments that a bind covers is
//! replaced by the host path behind it. A host path that is no longer than the path that it
//! replaces goes into its place; a longer one goes onto the stack, below all that is in use
//! there, and the argument is pointed to it.
//!
//! `SyscallRewrite` decides what is to be done. Its caller does it, and reports back.
use vstd::prelude::*;
use vstd::utf8::*;

use crate::bind;
use crate::bind::{resolve_bind, Binds};
use crate::maps;
use crate::maps::stack_range;
use crate::memory;
use crate::regs;
use crate::regs::{
    arch_of, set_syscall_arg, stack_pointer, syscall_arg, syscall_number, syscall_path_args, Arch,
    Frame, Regs,
};
use crate::word::{WordFormat, WordSize};

verus! {

/// How far below the stack pointer a function on 64-bit x86 may keep data.
pub const RED_ZONE: usize = 128;

/// What a rewrite needs done.
pub enum Request {
    /// Fetch the registers.
    GetRegs,
    /// Read the string at this address.
    ReadString { addr: usize },
    /// Fetch the text of the process's `maps` file.
    ReadMaps,
    /// Write bytes to this address.
    WriteBytes { addr: usize, payload: Vec<u8> },
    /// Set the registers.
    SetRegs { regs: Regs },
    /// Nothing: the rewrite is over, with the number of an error if it failed.
    Finish { result: Result<(), i32> },
}

/// What a rewrite is told.
pub enum Reply {
    /// The process has entered a system call.
    Entered,
    /// The registers.
    Regs { regs: Regs },
    /// The string that was read, and how many bytes it has in the process.
    Text { path: String, len: usize },
    /// The string could not be read.
    NoText,
    /// The text of the `maps` file, if it could be read.
    Maps { text: Option<String> },
    /// What was asked for has been done.
    Done,
    /// It failed, with this error.
    Failed { errno: i32 },
}

/// `Request`, in terms of what it holds.
#[verifier::ext_equal]
pub enum RequestView {
    GetRegs,
    ReadString { addr: usize },
    ReadMaps,
    WriteBytes { addr: usize, payload: Seq<u8> },
    SetRegs { frame: Frame },
    Finish { result: Result<(), i32> },
}

impl View for Request {
    type V = RequestView;

    open spec fn view(&self) -> RequestView {
        match *self {
            Request::GetRegs => RequestView::GetRegs,
            Request::ReadString { addr } => RequestView::ReadString { addr },
            Request::ReadMaps => RequestView::ReadMaps,
            Request::WriteBytes { addr, payload } => RequestView::WriteBytes {
                addr,
                payload: payload@,
            },
            Request::SetRegs { regs } => RequestView::SetRegs { frame: regs@ },
            Request::Finish { result } => RequestView::Finish { result },
        }
    }
}

/// `Reply`, in terms of what it holds.
#[verifier::ext_equal]
pub enum ReplyView {
    Entered,
    Regs { frame: Frame },
    Text { path: Seq<char>, len: usize },
    NoText,
    Maps { text: Option<Seq<char>> },
    Done,
    Failed { errno: i32 },
}

impl View for Reply {
    type V = ReplyView;

    open spec fn view(&self) -> ReplyView {
        match *self {
            Reply::Entered => ReplyView::Entered,
            Reply::Regs { regs } => ReplyView::Regs { frame: regs@ },
            Reply::Text { path, len } => ReplyView::Text { path: path@, len },
            Reply::NoText => ReplyView::NoText,
            Reply::Maps { text } => ReplyView::Maps {
                text: match text {
                    Some(text) => Some(text@),
                    None => None,
                },
            },
            Reply::Done => ReplyView::Done,
            Reply::Failed { errno } => ReplyView::Failed { errno },
        }
    }
}

/// What a rewrite waits for.
#[verifier::ext_equal]
pub enum Stage {
    /// A system call.
    Idle,
    /// The registers.
    Registers,
    /// The string of the first pending argument.
    Text,
    /// The text of the `maps` file, to place this path on the stack.
    Maps { target: Seq<char> },
    /// The path of the first pending argument to be written to this address.
    Written { to: usize },
    /// The registers to be set.
    RegsSet,
    /// Nothing.
    Over,
}

/// Where a rewrite stands.
#[verifier::ext_equal]
pub struct Rewrite {
    pub arch: Arch,
    pub binds: Binds,
    pub width: nat,
    pub stage: Stage,
    /// The registers, with the arguments that have been rewritten.
    pub frame: Frame,
    /// The path arguments that are still to be looked at: their places and addresses.
    pub pending: Seq<(usize, usize)>,
    /// The lowest address in use on the stack.
    pub cursor: usize,
    /// The lowest address of the stack, as far as it is known.
    pub stack_start: Option<usize>,
    /// Whether `frame` differs from the registers of the process.
    pub changed: bool,
}

/// Those of some argument places at which the argument is not null, each with the argument.
pub open spec fn addresses(frame: Frame, places: Seq<usize>) -> Seq<(usize, usize)>
    decreases places.len(),
{
    if places.len() == 0 {
        Seq::empty()
    } else {
        let place = places.last();
        let before = addresses(frame, places.drop_last());
        if frame.arg(place as int) != 0 {
            before.push((place, frame.arg(place as int)))
        } else {
            before
        }
    }
}

/// The path arguments of a system call that are not null: their places and addresses.
pub open spec fn path_addresses(frame: Frame) -> Seq<(usize, usize)> {
    addresses(frame, regs::path_places(frame.arch, frame.syscall_number()))
}

/// The lowest address in use on the stack.
pub open spec fn stack_top(frame: Frame) -> usize {
    let sp = frame.sp as usize;
    if frame.arch == Arch::X86_64 {
        if sp < RED_ZONE {
            0
        } else {
            (sp - RED_ZONE) as usize
        }
    } else {
        sp
    }
}

/// Bytes with a zero byte behind them.
pub open spec fn terminated(bytes: Seq<u8>) -> Seq<u8> {
    bytes.push(0)
}

/// `bytes`, filled up with zero bytes to length `len`.
pub open spec fn padded(bytes: Seq<u8>, len: int) -> Seq<u8> {
    if bytes.len() < len {
        bytes + Seq::new((len - bytes.len()) as nat, |i: int| 0u8)
    } else {
        bytes
    }
}

impl Rewrite {
    /// Before the system call.
    pub open spec fn start(arch: Arch, binds: Binds, width: nat) -> Rewrite {
        Rewrite {
            arch,
            binds,
            width,
            stage: Stage::Idle,
            frame: Frame::blank(),
            pending: Seq::empty(),
            cursor: 0,
            stack_start: None,
            changed: false,
        }
    }

    /// An argument is being looked at only where one is pending.
    pub open spec fn well_formed(self) -> bool {
        match self.stage {
            Stage::Text | Stage::Maps { .. } | Stage::Written { .. } => self.pending.len() > 0,
            _ => true,
        }
    }

    /// Whether `reply` answers what the rewrite waits for.
    pub open spec fn expects(self, reply: ReplyView) -> bool {
        match self.stage {
            Stage::Idle => reply is Entered,
            Stage::Registers => reply is Regs || reply is Failed,
            Stage::Text => reply is Text || reply is NoText,
            Stage::Maps { .. } => reply is Maps,
            Stage::Written { .. } => reply is Done || reply is Failed,
            Stage::RegsSet => reply is Done || reply is Failed,
            Stage::Over => false,
        }
    }

    /// Over, with this result.
    pub open spec fn over(self, result: Result<(), i32>) -> (Rewrite, RequestView) {
        (Rewrite { stage: Stage::Over, ..self }, RequestView::Finish { result })
    }

    /// On to the first pending argument. If there is none, on to the registers if they changed.
    pub open spec fn onward(self) -> (Rewrite, RequestView) {
        if self.pending.len() > 0 {
            (
                Rewrite { stage: Stage::Text, ..self },
                RequestView::ReadString { addr: self.pending[0].1 },
            )
        } else if self.changed {
            (
                Rewrite { stage: Stage::RegsSet, ..self },
                RequestView::SetRegs { frame: self.frame },
            )
        } else {
            self.over(Ok(()))
        }
    }

    /// Done with the first pending argument.
    pub open spec fn skipped(self) -> (Rewrite, RequestView) {
        Rewrite { pending: self.pending.drop_first(), ..self }.onward()
    }

    /// The bytes that writing `target` onto the stack takes: whole words.
    pub open spec fn stack_need(self, target: Seq<char>) -> int {
        memory::whole_words(terminated(encode_utf8(target)).len() as int, self.width as int)
    }

    /// Whether `target` fits on the stack: below the cursor, and more than a word above the
    /// start of the stack where that is known.
    pub open spec fn has_room(self, target: Seq<char>) -> bool {
        let at = self.cursor - self.stack_need(target);
        &&& at >= 0
        &&& self.stack_start matches Some(start) ==> at >= start + self.width
    }

    /// `target` goes onto the stack, if it fits there.
    pub open spec fn on_stack(self, target: Seq<char>) -> (Rewrite, RequestView) {
        if self.has_room(target) {
            let at = (self.cursor - self.stack_need(target)) as usize;
            (
                Rewrite { stage: Stage::Written { to: at }, cursor: at, ..self },
                RequestView::WriteBytes { addr: at, payload: terminated(encode_utf8(target)) },
            )
        } else {
            self.skipped()
        }
    }

    /// The string of the first pending argument is `path`, of `len` bytes.
    pub open spec fn with_text(self, path: Seq<char>, len: usize) -> (Rewrite, RequestView) {
        match bind::resolved(path, self.binds) {
            Some(target) => if target == path {
                self.skipped()
            } else if encode_utf8(target).len() <= len {
                let addr = self.pending[0].1;
                (
                    Rewrite { stage: Stage::Written { to: addr }, ..self },
                    RequestView::WriteBytes {
                        addr,
                        payload: padded(
                            terminated(encode_utf8(target)),
                            len.saturating_add(1) as int,
                        ),
                    },
                )
            } else if self.stack_start is None {
                (Rewrite { stage: Stage::Maps { target }, ..self }, RequestView::ReadMaps)
            } else {
                self.on_stack(target)
            },
            None => self.skipped(),
        }
    }

    /// The path of the first pending argument has been written to `to`.
    pub open spec fn with_written(self, to: usize) -> (Rewrite, RequestView) {
        let (place, addr) = self.pending[0];
        if to != addr {
            Rewrite {
                frame: self.frame.with_arg(place as int, to),
                changed: true,
                ..self
            }.skipped()
        } else {
            self.skipped()
        }
    }

    /// What follows `reply`, and what is needed next.
    pub open spec fn after(self, reply: ReplyView) -> (Rewrite, RequestView) {
        match (self.stage, reply) {
            (_, ReplyView::Failed { errno }) => self.over(Err(errno)),
            (Stage::Idle, _) => if self.binds.len() == 0 || self.arch == Arch::Other {
                self.over(Ok(()))
            } else {
                (Rewrite { stage: Stage::Registers, ..self }, RequestView::GetRegs)
            },
            (Stage::Registers, ReplyView::Regs { frame }) => Rewrite {
                frame,
                pending: path_addresses(frame),
                cursor: stack_top(frame),
                ..self
            }.onward(),
            (Stage::Text, ReplyView::Text { path, len }) => self.with_text(path, len),
            (Stage::Text, _) => self.skipped(),
            (Stage::Maps { target }, ReplyView::Maps { text }) => Rewrite {
                stack_start: match text {
                    Some(text) => match maps::stack_of(text) {
                        Some((start, _)) => Some(start),
                        None => None,
                    },
                    None => None,
                },
                ..self
            }.on_stack(target),
            (Stage::Written { to }, _) => self.with_written(to),
            (_, _) => self.over(Ok(())),
        }
    }
}

impl Rewrite {
    /// A bound on the steps that are left.
    pub open spec fn steps_left(self) -> nat {
        match self.stage {
            Stage::Idle => 13,
            Stage::Registers => 12,
            Stage::Text => 4 * self.pending.len() + 3,
            Stage::Maps { .. } => 4 * self.pending.len() + 2,
            Stage::Written { .. } => 4 * self.pending.len() + 1,
            Stage::RegsSet => 1,
            Stage::Over => 0,
        }
    }

    /// Each step brings a rewrite nearer to its end.
    pub proof fn law_progress(self, reply: ReplyView)
        requires
            self.well_formed(),
            self.expects(reply),
        ensures
            self.after(reply).0.well_formed(),
            0 <= self.after(reply).0.steps_left() < self.steps_left(),
            self.after(reply).0.stage is Over <==> self.after(reply).1 is Finish,
    {
        if let ReplyView::Regs { frame } = reply {
            regs::law_path_places(frame.arch, frame.syscall_number());
            lemma_addresses(frame, regs::path_places(frame.arch, frame.syscall_number()));
        }
    }

    /// An error of the process is the result of the rewrite, at whatever stage it comes.
    pub proof fn law_errors_pass_through(self, errno: i32)
        requires
            self.expects(ReplyView::Failed { errno }),
        ensures
            self.after(ReplyView::Failed { errno }).1 == (RequestView::Finish {
                result: Err(errno),
            }),
    {
    }

    /// A string that cannot be read is passed over.
    pub proof fn law_unreadable_is_skipped(self)
        requires
            self.stage is Text,
        ensures
            self.after(ReplyView::NoText) == self.skipped(),
    {
    }

    /// Without room on the stack, an argument stays as it is.
    pub proof fn law_no_room_is_skipped(self, target: Seq<char>)
        requires
            !self.has_room(target),
        ensures
            self.on_stack(target) == self.skipped(),
    {
    }

    /// What is written onto the stack lies below the cursor, in whole words, and above the start
    /// of the stack. The cursor moves below it, so that nothing else is written there.
    pub proof fn law_stack_writes(self, target: Seq<char>)
        requires
            self.width == 4 || self.width == 8,
            self.has_room(target),
        ensures
            self.on_stack(target).1 matches RequestView::WriteBytes { addr, payload } && {
                &&& self.on_stack(target).0.cursor == addr
                &&& addr + memory::whole_words(payload.len() as int, self.width as int)
                    == self.cursor
                &&& self.stack_start matches Some(start) ==> start + self.width <= addr
            },
    {
    }

    /// What is written into the place of a string fills just that place, with the zero byte
    /// behind it.
    pub proof fn law_writes_in_place(self, path: Seq<char>, target: Seq<char>, len: usize)
        requires
            bind::resolved(path, self.binds) == Some(target),
            target != path,
            encode_utf8(target).len() <= len < usize::MAX,
        ensures
            self.with_text(path, len).0.cursor == self.cursor,
            self.with_text(path, len).1 matches RequestView::WriteBytes { addr, payload } && addr
                == self.pending[0].1 && payload.len() == len + 1,
    {
    }
}

/// There are no more addresses than places.
proof fn lemma_addresses(frame: Frame, places: Seq<usize>)
    ensures
        addresses(frame, places).len() <= places.len(),
    decreases places.len(),
{
    if places.len() > 0 {
        lemma_addresses(frame, places.drop_last());
    }
}

/// What a rewrite waits for.
enum Waiting {
    Idle,
    Registers,
    Text,
    Maps { target: String },
    Written { to: usize },
    RegsSet,
    Over,
}

/// The rewriting of one system call.
pub struct SyscallRewrite<'a> {
    arch: Arch,
    binds: &'a [(String, String)],
    format: WordFormat,
    waiting: Waiting,
    regs: Regs,
    paths: Vec<(usize, usize)>,
    next: usize,
    cursor: usize,
    stack_start: Option<usize>,
    changed: bool,
}

impl<'a> View for SyscallRewrite<'a> {
    type V = Rewrite;

    closed spec fn view(&self) -> Rewrite {
        Rewrite {
            arch: self.arch,
            binds: bind::bind_views(self.binds@),
            width: self.format.width(),
            stage: match self.waiting {
                Waiting::Idle => Stage::Idle,
                Waiting::Registers => Stage::Registers,
                Waiting::Text => Stage::Text,
                Waiting::Maps { target } => Stage::Maps { target: target@ },
                Waiting::Written { to } => Stage::Written { to },
                Waiting::RegsSet => Stage::RegsSet,
                Waiting::Over => Stage::Over,
            },
            frame: self.regs@,
            pending: self.paths@.skip(self.next as int),
            cursor: self.cursor,
            stack_start: self.stack_start,
            changed: self.changed,
        }
    }
}

/// A length, rounded up to whole words, or `None` if that is too large.
fn round_up(len: usize, format: WordFormat) -> (r: Option<usize>)
    ensures
        r is Some <==> memory::whole_words(len as int, format.width() as int) <= usize::MAX,
        r matches Some(n) ==> n == memory::whole_words(len as int, format.width() as int),
{
    let (width, mask): (usize, usize) = match format.size {
        WordSize::Four => (4, 3),
        WordSize::Eight => (8, 7),
    };
    let sum = match len.checked_add(mask) {
        Some(sum) => sum,
        None => {
            return None;
        },
    };
    assert(sum & !3usize == sum - sum % 4) by (bit_vector);
    assert(sum & !7usize == sum - sum % 8) by (bit_vector);
    Some(sum & !mask)
}

/// The bytes of `path` with a zero byte behind them, filled up with zero bytes to length `len`.
fn c_string(path: &str, len: usize) -> (r: Vec<u8>)
    ensures
        r@ == padded(terminated(encode_utf8(path@)), len as int),
{
    let bytes = path.as_bytes();
    let mut out: Vec<u8> = Vec::with_capacity(bytes.len());
    out.extend_from_slice(bytes);
    assert(out@ =~= bytes@);
    out.push(0);
    if out.len() < len {
        let ghost before = out@;
        out.resize(len, 0);
        assert(out@ =~= padded(before, len as int)) by {
            assert forall|i: int| 0 <= i < before.len() implies out@[i] == before[i] by {
                assert(out@.subrange(0, before.len() as int)[i] == before[i]);
            }
        }
    }
    out
}

impl<'a> SyscallRewrite<'a> {
    /// What holds of every rewrite between two steps.
    pub closed spec fn well_formed(&self) -> bool {
        self.next <= self.paths@.len() && self@.well_formed()
    }

    /// A well-formed rewrite stands where an argument is being looked at only if one is pending.
    pub proof fn law_well_formed(&self)
        requires
            self.well_formed(),
        ensures
            self@.well_formed(),
    {
    }

    /// Whether the next argument is one of the arguments, or behind them.
    spec fn in_range(self) -> bool {
        self.next <= self.paths@.len()
    }

    /// Before the system call.
    pub fn new(arch: Arch, binds: &'a [(String, String)], format: WordFormat) -> (r: Self)
        ensures
            r.well_formed(),
            r@.well_formed(),
            r@ == Rewrite::start(arch, bind::bind_views(binds@), format.width()),
    {
        let r = SyscallRewrite {
            arch,
            binds,
            format,
            waiting: Waiting::Idle,
            regs: Regs::Aarch64(regs::Aarch64Regs { regs: [0; 31], sp: 0 }),
            paths: Vec::new(),
            next: 0,
            cursor: 0,
            stack_start: None,
            changed: false,
        };
        assert(r@.pending =~= Seq::empty());
        assert(r@.frame.slots =~= Frame::blank().slots);
        r
    }

    /// Ends the rewrite with this result.
    fn over(&mut self, result: Result<(), i32>) -> (r: Request)
        requires
            old(self).in_range(),
        ensures
            final(self).well_formed(),
            (final(self)@, r@) == old(self)@.over(result),
    {
        self.waiting = Waiting::Over;
        Request::Finish { result }
    }

    /// Goes on to the next argument, or to the registers behind the last one.
    fn onward(&mut self) -> (r: Request)
        requires
            old(self).in_range(),
        ensures
            final(self).well_formed(),
            (final(self)@, r@) == old(self)@.onward(),
    {
        if self.next < self.paths.len() {
            self.waiting = Waiting::Text;
            Request::ReadString { addr: self.paths[self.next].1 }
        } else if self.changed {
            self.waiting = Waiting::RegsSet;
            Request::SetRegs { regs: self.regs }
        } else {
            self.over(Ok(()))
        }
    }

    /// Leaves the next argument behind.
    fn skip(&mut self) -> (r: Request)
        requires
            old(self).in_range(),
            old(self)@.pending.len() > 0,
        ensures
            final(self).well_formed(),
            (final(self)@, r@) == old(self)@.skipped(),
    {
        assert(self.next < self.paths.len());
        self.next = self.next + 1;
        assert(self@.pending =~= old(self)@.pending.drop_first());
        self.onward()
    }

    /// Puts `target` onto the stack, if there is room.
    fn place(&mut self, target: &str) -> (r: Request)
        requires
            old(self).in_range(),
            old(self)@.pending.len() > 0,
        ensures
            final(self).well_formed(),
            (final(self)@, r@) == old(self)@.on_stack(target@),
    {
        let payload = c_string(target, 0);
        let need = match round_up(payload.len(), self.format) {
            Some(need) => need,
            None => {
                return self.skip();
            },
        };
        let at = match self.cursor.checked_sub(need) {
            Some(at) => at,
            None => {
                return self.skip();
            },
        };
        if let Some(start) = self.stack_start {
            match start.checked_add(self.format.word_size()) {
                Some(lowest) if at >= lowest => {},
                _ => {
                    return self.skip();
                },
            }
        }
        self.cursor = at;
        self.waiting = Waiting::Written { to: at };
        Request::WriteBytes { addr: at, payload }
    }

    /// Takes in the string of the next argument.
    fn take_text(&mut self, path: String, len: usize) -> (r: Request)
        requires
            old(self).in_range(),
            old(self)@.pending.len() > 0,
        ensures
            final(self).well_formed(),
            (final(self)@, r@) == old(self)@.with_text(path@, len),
    {
        let target = match resolve_bind(path.as_str(), self.binds) {
            Some(target) => target,
            None => {
                return self.skip();
            },
        };
        if target == path {
            return self.skip();
        }
        if target.as_str().as_bytes().len() <= len {
            let addr = self.paths[self.next].1;
            let payload = c_string(target.as_str(), len.saturating_add(1));
            self.waiting = Waiting::Written { to: addr };
            Request::WriteBytes { addr, payload }
        } else if self.stack_start.is_none() {
            self.waiting = Waiting::Maps { target };
            Request::ReadMaps
        } else {
            self.place(target.as_str())
        }
    }

    /// Takes in that the path of the next argument has been written.
    fn take_written(&mut self, to: usize) -> (r: Request)
        requires
            old(self).in_range(),
            old(self)@.pending.len() > 0,
        ensures
            final(self).well_formed(),
            (final(self)@, r@) == old(self)@.with_written(to),
    {
        let (place, addr) = self.paths[self.next];
        if to != addr {
            let mut regs = self.regs;
            set_syscall_arg(&mut regs, place, to);
            self.regs = regs;
            self.changed = true;
        }
        self.skip()
    }

    /// Takes in the registers.
    fn take_regs(&mut self, regs: Regs) -> (r: Request)
        ensures
            final(self).well_formed(),
            (final(self)@, r@) == (Rewrite {
                frame: regs@,
                pending: path_addresses(regs@),
                cursor: stack_top(regs@),
                ..old(self)@
            }).onward(),
    {
        let places = syscall_path_args(arch_of(&regs), syscall_number(&regs));
        let mut paths: Vec<(usize, usize)> = Vec::with_capacity(places.len());
        let mut i: usize = 0;
        while i < places.len()
            invariant
                i <= places@.len(),
                paths@ == addresses(regs@, places@.take(i as int)),
            decreases places@.len() - i,
        {
            let place = places[i];
            let addr = syscall_arg(&regs, place);
            assert(places@.take(i + 1).drop_last() =~= places@.take(i as int));
            if addr != 0 {
                paths.push((place, addr));
            }
            i += 1;
        }
        assert(places@.take(i as int) =~= places@);
        let sp = stack_pointer(&regs);
        self.cursor = match regs {
            Regs::X86_64(_) => sp.saturating_sub(RED_ZONE),
            Regs::Aarch64(_) => sp,
        };
        self.regs = regs;
        self.next = 0;
        self.paths = paths;
        assert(self.paths@.skip(0) =~= paths@);
        self.onward()
    }

    /// Takes in `reply`, and says what is needed next.
    pub fn step(&mut self, reply: Reply) -> (r: Request)
        requires
            old(self).well_formed(),
            old(self)@.expects(reply@),
        ensures
            final(self).well_formed(),
            final(self)@.well_formed(),
            (final(self)@, r@) == old(self)@.after(reply@),
    {
        match reply {
            Reply::Failed { errno } => self.over(Err(errno)),
            Reply::Entered => if self.binds.is_empty() || self.arch == Arch::Other {
                self.over(Ok(()))
            } else {
                self.waiting = Waiting::Registers;
                Request::GetRegs
            },
            Reply::Regs { regs } => self.take_regs(regs),
            Reply::Text { path, len } => self.take_text(path, len),
            Reply::NoText => self.skip(),
            Reply::Maps { text } => {
                self.stack_start = match text {
                    Some(text) => match stack_range(text.as_str()) {
                        Some((start, _)) => Some(start),
                        None => None,
                    },
                    None => None,
                };
                match &self.waiting {
                    Waiting::Maps { target } => {
                        let target = target.clone();
                        self.place(target.as_str())
                    },
                    _ => self.over(Ok(())),
                }
            },
            Reply::Done => match &self.waiting {
                Waiting::Written { to } => {
                    let to = *to;
                    self.take_written(to)
                },
                _ => self.over(Ok(())),
            },
        }
    }
}

/// At each place where a system call takes a path, the argument is looked at exactly if it is not
/// null, whatever its address. Nothing else is looked at, and the arguments stand in the order of
/// their places.
pub proof fn law_arguments_looked_at(frame: Frame)
    ensures
        ({
            let places = regs::path_places(frame.arch, frame.syscall_number());
            let looked_at = path_addresses(frame);
            &&& forall|k: int|
                0 <= k < places.len() ==> (looked_at.contains(
                    (#[trigger] places[k], frame.arg(places[k] as int)),
                ) <==> frame.arg(places[k] as int) != 0)
            &&& forall|i: int|
                0 <= i < looked_at.len() ==> {
                    &&& places.contains((#[trigger] looked_at[i]).0)
                    &&& looked_at[i].1 == frame.arg(looked_at[i].0 as int)
                    &&& looked_at[i].1 != 0
                }
            &&& forall|i: int, j: int, k: int, l: int|
                0 <= i < j < looked_at.len() && 0 <= k < places.len() && 0 <= l < places.len()
                    && #[trigger] looked_at[i].0 == #[trigger] places[k]
                    && #[trigger] looked_at[j].0 == #[trigger] places[l] ==> k < l
        }),
{
    let places = regs::path_places(frame.arch, frame.syscall_number());
    regs::law_path_places(frame.arch, frame.syscall_number());
    reveal_with_fuel(addresses, 3);
    if places.len() > 0 {
        let one = places.drop_last();
        if one.len() > 0 {
            assert(one.last() == places[0]);
            assert(one.drop_last() =~= Seq::<usize>::empty());
        }
    }
    let looked_at = path_addresses(frame);
    assert forall|k: int| 0 <= k < places.len() implies (looked_at.contains(
        (#[trigger] places[k], frame.arg(places[k] as int)),
    ) <==> frame.arg(places[k] as int) != 0) by {
        if frame.arg(places[k] as int) != 0 {
            if k == places.len() - 1 {
                assert(looked_at.last() == (places[k], frame.arg(places[k] as int)));
            } else {
                assert(looked_at[0] == (places[k], frame.arg(places[k] as int)));
            }
        }
    }
}

/// The first string that is read is that of the first path argument that is not null. Where all
/// are null, the call stays as it is.
pub proof fn law_first_string(rewrite: Rewrite, frame: Frame, k: int)
    requires
        rewrite.stage is Registers,
        !rewrite.changed,
        0 <= k <= regs::path_places(frame.arch, frame.syscall_number()).len(),
        forall|j: int|
            0 <= j < k ==> frame.arg(
                #[trigger] regs::path_places(frame.arch, frame.syscall_number())[j] as int,
            ) == 0,
    ensures
        ({
            let places = regs::path_places(frame.arch, frame.syscall_number());
            let request = rewrite.after(ReplyView::Regs { frame }).1;
            &&& k < places.len() && frame.arg(places[k] as int) != 0 ==> request == (
            RequestView::ReadString { addr: frame.arg(places[k] as int) })
            &&& k == places.len() ==> request == (RequestView::Finish { result: Ok(()) })
        }),
{
    let places = regs::path_places(frame.arch, frame.syscall_number());
    let looked_at = path_addresses(frame);
    law_arguments_looked_at(frame);
    if k < places.len() && frame.arg(places[k] as int) != 0 {
        let i = choose|i: int|
            0 <= i < looked_at.len() && looked_at[i] == (places[k], frame.arg(places[k] as int));
        assert(places.contains(looked_at[0].0));
        let l = choose|l: int| 0 <= l < places.len() && places[l] == looked_at[0].0;
        regs::law_path_places(frame.arch, frame.syscall_number());
        if i > 0 {
            assert(looked_at[0].0 == places[l] && looked_at[i].0 == places[k]);
        }
    } else if k == places.len() && looked_at.len() > 0 {
        assert(places.contains(looked_at[0].0));
        let l = choose|l: int| 0 <= l < places.len() && places[l] == looked_at[0].0;
        assert(frame.arg(places[l] as int) == 0);
    }
}

/// A rewrite starts with nothing known. Without binds, or on an architecture whose calls are not
/// known, it ends at once, and well. Else it asks for the registers.
pub proof fn law_on_entry(arch: Arch, binds: Binds, width: nat)
    ensures
        ({
            let start = Rewrite::start(arch, binds, width);
            &&& start.arch == arch
            &&& start.binds == binds
            &&& start.width == width
            &&& start.stage is Idle
            &&& start.pending.len() == 0
            &&& start.stack_start is None
            &&& !start.changed
            &&& binds.len() == 0 || arch == Arch::Other ==> start.after(ReplyView::Entered) == (
                Rewrite { stage: Stage::Over, ..start },
                RequestView::Finish { result: Ok(()) },
            )
            &&& binds.len() > 0 && arch != Arch::Other ==> start.after(ReplyView::Entered) == (
                Rewrite { stage: Stage::Registers, ..start },
                RequestView::GetRegs,
            )
        }),
{
}

/// With the registers come the arguments that are to be looked at, and the lowest address in use
/// on the stack: on 64-bit x86 it is 128 bytes below the stack pointer, but not below 0, and on
/// 64-bit ARM it is the stack pointer.
pub proof fn law_on_registers(rewrite: Rewrite, frame: Frame)
    requires
        rewrite.stage is Registers,
        frame.well_formed(),
    ensures
        ({
            let (next, request) = rewrite.after(ReplyView::Regs { frame });
            let sp = frame.sp as usize;
            &&& next == (Rewrite {
                stage: next.stage,
                frame,
                pending: path_addresses(frame),
                cursor: next.cursor,
                ..rewrite
            })
            &&& frame.arch == Arch::X86_64 && sp >= 128 ==> next.cursor + 128 == sp
            &&& frame.arch == Arch::X86_64 && sp < 128 ==> next.cursor == 0
            &&& frame.arch == Arch::Aarch64 ==> next.cursor == sp
            &&& next.pending.len() > 0 ==> next.stage is Text && request == (
            RequestView::ReadString { addr: next.pending[0].1 })
            &&& next.pending.len() == 0 && rewrite.changed ==> next.stage is RegsSet && request == (
            RequestView::SetRegs { frame })
            &&& next.pending.len() == 0 && !rewrite.changed ==> next.stage is Over && request == (
            RequestView::Finish { result: Ok(()) })
        }),
{
}

/// Behind an argument comes the next one, whose string is read. Behind the last one the registers
/// are set, if an argument was pointed elsewhere, and else the rewrite ends well.
pub proof fn law_on_to_the_next(rewrite: Rewrite)
    requires
        rewrite.pending.len() > 0,
    ensures
        rewrite.pending.len() > 1 ==> rewrite.skipped() == (
            Rewrite { stage: Stage::Text, pending: rewrite.pending.skip(1), ..rewrite },
            RequestView::ReadString { addr: rewrite.pending[1].1 },
        ),
        rewrite.pending.len() == 1 && rewrite.changed ==> rewrite.skipped() == (
            Rewrite { stage: Stage::RegsSet, pending: Seq::empty(), ..rewrite },
            RequestView::SetRegs { frame: rewrite.frame },
        ),
        rewrite.pending.len() == 1 && !rewrite.changed ==> rewrite.skipped() == (
            Rewrite { stage: Stage::Over, pending: Seq::empty(), ..rewrite },
            RequestView::Finish { result: Ok(()) },
        ),
{
    assert(rewrite.pending.drop_first() =~= rewrite.pending.skip(1));
    if rewrite.pending.len() == 1 {
        assert(rewrite.pending.drop_first() =~= Seq::empty());
    }
}

/// An argument is left behind as it is if its string cannot be read, if no bind covers its path,
/// or if the host path behind that is the path itself. Else, a host path with no more bytes than
/// the string goes into its place, with zero bytes up to where the string ended. A longer one goes
/// onto the stack, once it is known where that starts.
pub proof fn law_on_text(rewrite: Rewrite, path: Seq<char>, len: usize)
    requires
        rewrite.stage is Text,
        rewrite.pending.len() > 0,
    ensures
        rewrite.after(ReplyView::NoText) == rewrite.skipped(),
        ({
            let (next, request) = rewrite.after(ReplyView::Text { path, len });
            match bind::resolved(path, rewrite.binds) {
                None => (next, request) == rewrite.skipped(),
                Some(target) => {
                    let bytes = encode_utf8(target);
                    &&& target == path ==> (next, request) == rewrite.skipped()
                    &&& target != path && bytes.len() <= len ==> {
                        &&& request matches RequestView::WriteBytes { addr, payload }
                        &&& addr == rewrite.pending[0].1
                        &&& next == (Rewrite { stage: Stage::Written { to: addr }, ..rewrite })
                        &&& len < usize::MAX ==> payload.len() == len + 1
                        &&& len == usize::MAX ==> payload.len() == len || payload.len()
                            == bytes.len() + 1
                        &&& forall|i: int|
                            0 <= i < bytes.len() ==> #[trigger] payload[i] == bytes[i]
                        &&& forall|i: int|
                            bytes.len() <= i < payload.len() ==> #[trigger] payload[i] == 0
                    }
                    &&& target != path && bytes.len() > len && rewrite.stack_start is None ==> (
                        next,
                        request,
                    ) == (
                        Rewrite { stage: Stage::Maps { target }, ..rewrite },
                        RequestView::ReadMaps,
                    )
                    &&& target != path && bytes.len() > len && rewrite.stack_start is Some ==> (
                        next,
                        request,
                    ) == rewrite.on_stack(target)
                },
            }
        }),
{
}

/// A path goes onto the stack with a zero byte behind it, in the whole words just below the lowest
/// address in use, `need` bytes of them, if there are that many addresses and, where the start of
/// the stack is known, a word more above it. Else the argument is left behind as it is.
pub proof fn law_on_the_stack(rewrite: Rewrite, target: Seq<char>, need: int)
    requires
        rewrite.width == 4 || rewrite.width == 8,
        need % (rewrite.width as int) == 0,
        encode_utf8(target).len() + 1 <= need < encode_utf8(target).len() + 1 + rewrite.width,
    ensures
        ({
            let (next, request) = rewrite.on_stack(target);
            let at = rewrite.cursor - need;
            let bytes = encode_utf8(target);
            let fits = at >= 0 && (rewrite.stack_start matches Some(start) ==> start + rewrite.width
                <= at);
            &&& !fits ==> (next, request) == rewrite.skipped()
            &&& fits ==> {
                &&& request matches RequestView::WriteBytes { addr, payload }
                &&& addr == at
                &&& next == (Rewrite { stage: Stage::Written { to: addr }, cursor: addr, ..rewrite })
                &&& payload.len() == bytes.len() + 1
                &&& forall|i: int| 0 <= i < bytes.len() ==> #[trigger] payload[i] == bytes[i]
                &&& payload[bytes.len() as int] == 0
            }
        }),
{
    memory::lemma_whole_words_unique(
        (encode_utf8(target).len() + 1) as int,
        rewrite.width as int,
        need,
    );
    assert(rewrite.stack_need(target) == need);
}

/// The start of the stack is known from then on where the `maps` file tells it, and is not where
/// it does not. Either way, the path that waited goes onto the stack.
pub proof fn law_on_maps(rewrite: Rewrite, target: Seq<char>, text: Seq<char>)
    requires
        rewrite.stage == (Stage::Maps { target }),
    ensures
        rewrite.after(ReplyView::Maps { text: None }) == (Rewrite {
            stack_start: None,
            ..rewrite
        }).on_stack(target),
        maps::stack_of(text) is None ==> rewrite.after(ReplyView::Maps { text: Some(text) }) == (
        Rewrite { stack_start: None, ..rewrite }).on_stack(target),
        maps::stack_of(text) matches Some((start, end)) ==> rewrite.after(
            ReplyView::Maps { text: Some(text) },
        ) == (Rewrite { stack_start: Some(start), ..rewrite }).on_stack(target),
{
}

/// An argument whose path was written elsewhere is pointed there. One whose path was written into
/// its place stays. Then the next one is looked at.
pub proof fn law_on_written(rewrite: Rewrite, to: usize)
    requires
        rewrite.stage == (Stage::Written { to }),
        rewrite.pending.len() > 0,
    ensures
        to == rewrite.pending[0].1 ==> rewrite.after(ReplyView::Done) == rewrite.skipped(),
        to != rewrite.pending[0].1 ==> rewrite.after(ReplyView::Done) == (Rewrite {
            frame: rewrite.frame.with_arg(rewrite.pending[0].0 as int, to),
            changed: true,
            ..rewrite
        }).skipped(),
{
}

/// Once the registers have been set the rewrite ends well. A failure at any time ends it with its
/// error.
pub proof fn law_on_the_end(rewrite: Rewrite, errno: i32)
    ensures
        rewrite.stage is RegsSet ==> rewrite.after(ReplyView::Done) == (
            Rewrite { stage: Stage::Over, ..rewrite },
            RequestView::Finish { result: Ok(()) },
        ),
        rewrite.after(ReplyView::Failed { errno }) == (
            Rewrite { stage: Stage::Over, ..rewrite },
            RequestView::Finish { result: Err(errno) },
        ),
{
}

/// Every reply that can come of what was asked for is expected: a failure where registers are
/// fetched or set or bytes written, and of a string or the `maps` file that they could not be
/// read. Nothing else is, and nothing once the rewrite is over.
pub proof fn law_expected_replies(rewrite: Rewrite, reply: ReplyView)
    ensures
        rewrite.stage is Idle ==> (rewrite.expects(reply) <==> reply is Entered),
        rewrite.stage is Registers ==> (rewrite.expects(reply) <==> reply is Regs
            || reply is Failed),
        rewrite.stage is Text ==> (rewrite.expects(reply) <==> reply is Text || reply is NoText),
        rewrite.stage is Maps ==> (rewrite.expects(reply) <==> reply is Maps),
        rewrite.stage is Written || rewrite.stage is RegsSet ==> (rewrite.expects(reply)
            <==> reply is Done || reply is Failed),
        rewrite.stage is Over ==> !rewrite.expects(reply),
        rewrite.well_formed() <==> (rewrite.stage is Text || rewrite.stage is Maps
            || rewrite.stage is Written ==> rewrite.pending.len() > 0),
{
}

/// What is asked for and replied is looked at as it stands.
pub proof fn law_views(request: Request, reply: Reply)
    ensures
        request matches Request::ReadString { addr } ==> request@ == (RequestView::ReadString {
            addr,
        }),
        request matches Request::WriteBytes { addr, payload } ==> request@ == (
        RequestView::WriteBytes { addr, payload: payload@ }),
        request matches Request::SetRegs { regs } ==> request@ == (RequestView::SetRegs {
            frame: regs@,
        }),
        request matches Request::Finish { result } ==> request@ == (RequestView::Finish { result }),
        request is GetRegs <==> request@ is GetRegs,
        request is ReadMaps <==> request@ is ReadMaps,
        reply matches Reply::Regs { regs } ==> reply@ == (ReplyView::Regs { frame: regs@ }),
        reply matches Reply::Text { path, len } ==> reply@ == (ReplyView::Text { path: path@, len }),
        reply matches Reply::Maps { text } ==> {
            &&& text is None ==> reply@ == (ReplyView::Maps { text: None })
            &&& text matches Some(t) ==> reply@ == (ReplyView::Maps { text: Some(t@) })
        },
        reply matches Reply::Failed { errno } ==> reply@ == (ReplyView::Failed { errno }),
        reply is Entered <==> reply@ is Entered,
        reply is NoText <==> reply@ is NoText,
        reply is Done <==> reply@ is Done,
{
}

} // verus!
