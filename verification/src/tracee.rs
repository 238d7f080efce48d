//! What a rewrite does to a process.
//!
//! The laws here are about a process that answers the requests of a rewrite: its strings are read
//! and its bytes are written word by word, as `CStringReader` and `WordWriter` have it. A word is
//! fetched or stored whole, or not at all where there is no memory.
use vstd::prelude::*;
use vstd::utf8::*;

use crate::bind;
use crate::bind::Binds;
use crate::cstring;
use crate::cstring::{Read, MAX_PATH};
use crate::maps;
use crate::memory;
use crate::memory::Memory;
use crate::regs;
use crate::regs::Frame;
use crate::rewrite;
use crate::rewrite::{ReplyView, RequestView, Rewrite, Stage};
use crate::text;
use crate::word::WordFormat;
use crate::writer;
use crate::writer::Write;

verus! {

/// A process that is stopped at the entry to a system call.
#[verifier::ext_equal]
pub struct Tracee {
    pub frame: Frame,
    pub memory: Memory,
    /// The text of its `maps` file, if that can be read.
    pub maps: Option<Seq<char>>,
    pub format: WordFormat,
    /// The error of a write to where there is no memory.
    pub fault: i32,
    /// The error of fetching its registers, if that fails.
    pub get_fault: Option<i32>,
    /// The error of setting its registers, if that fails.
    pub set_fault: Option<i32>,
}

impl Tracee {
    /// What becomes of the process, and what it answers, when `request` is made of it.
    pub open spec fn answer(self, request: RequestView) -> (Tracee, ReplyView) {
        match request {
            RequestView::GetRegs => (
                self,
                match self.get_fault {
                    Some(errno) => ReplyView::Failed { errno },
                    None => ReplyView::Regs { frame: self.frame },
                },
            ),
            RequestView::ReadString { addr } => (
                self,
                match cstring::found(Read::start(), self.memory, addr as int, self.format) {
                    Some(bytes) => ReplyView::Text {
                        path: cstring::text_of(bytes),
                        len: bytes.len() as usize,
                    },
                    None => ReplyView::NoText,
                },
            ),
            RequestView::ReadMaps => (self, ReplyView::Maps { text: self.maps }),
            RequestView::WriteBytes { addr, payload } => {
                let (memory, all) = writer::written(
                    Write::start(payload, self.format),
                    self.memory,
                    addr as int,
                );
                (
                    Tracee { memory, ..self },
                    if all {
                        ReplyView::Done
                    } else {
                        ReplyView::Failed { errno: self.fault }
                    },
                )
            },
            RequestView::SetRegs { frame } => match self.set_fault {
                Some(errno) => (self, ReplyView::Failed { errno }),
                None => (Tracee { frame, ..self }, ReplyView::Done),
            },
            RequestView::Finish { .. } => (self, ReplyView::Done),
        }
    }

    /// The lowest address of the stack, as far as the `maps` file tells it.
    pub open spec fn stack_start(self) -> Option<usize> {
        match self.maps {
            Some(text) => match maps::stack_of(text) {
                Some((start, _)) => Some(start),
                None => None,
            },
            None => None,
        }
    }

    /// What becomes of the process, and the result, when a rewrite that has just asked for
    /// `request` is carried to its end.
    pub open spec fn carried(self, rewrite: Rewrite, request: RequestView) -> (
        Tracee,
        Result<(), i32>,
    )
        decreases rewrite.steps_left(),
    {
        let (next, reply) = self.answer(request);
        if let RequestView::Finish { result } = request {
            (self, result)
        } else if rewrite.well_formed() && rewrite.expects(reply) {
            proof {
                rewrite.law_progress(reply);
            }
            let (further, wanted) = rewrite.after(reply);
            next.carried(further, wanted)
        } else {
            (self, Err(self.fault))
        }
    }

    /// What becomes of the process, and the result, when its system call is rewritten.
    pub open spec fn handled(self, binds: Binds) -> (Tracee, Result<(), i32>) {
        let (rewrite, request) = Rewrite::start(
            self.frame.arch,
            binds,
            self.format.width(),
        ).after(ReplyView::Entered);
        self.carried(rewrite, request)
    }

    /// The strings that are read when a rewrite that has just asked for `request` is carried to
    /// its end: their addresses and bytes, each as it is at its time.
    pub open spec fn read_by(self, rewrite: Rewrite, request: RequestView) -> Seq<
        (usize, Seq<u8>),
    >
        decreases rewrite.steps_left(),
    {
        let (next, reply) = self.answer(request);
        let first = match request {
            RequestView::ReadString { addr } => match self.string(addr) {
                Some(bytes) => seq![(addr, bytes)],
                None => Seq::empty(),
            },
            _ => Seq::empty(),
        };
        if !(request is Finish) && rewrite.well_formed() && rewrite.expects(reply) {
            proof {
                rewrite.law_progress(reply);
            }
            let (further, wanted) = rewrite.after(reply);
            first + next.read_by(further, wanted)
        } else {
            first
        }
    }

    /// The strings that are read when the system call of the process is rewritten.
    pub open spec fn strings_read(self, binds: Binds) -> Seq<(usize, Seq<u8>)> {
        let (rewrite, request) = Rewrite::start(
            self.frame.arch,
            binds,
            self.format.width(),
        ).after(ReplyView::Entered);
        self.read_by(rewrite, request)
    }
}

/// What takes the place of a string in a process, or `None` if it stays.
pub open spec fn replacement(bytes: Seq<u8>, binds: Binds) -> Option<Seq<char>> {
    let path = cstring::text_of(bytes);
    match bind::resolved(path, binds) {
        Some(target) => if target == path {
            None
        } else {
            Some(target)
        },
        None => None,
    }
}

/// What becomes of a path argument.
#[verifier::ext_equal]
pub enum Fate {
    /// It stays: it cannot be read, has no replacement, or there is no room for that.
    Kept,
    /// Its string is overwritten with `target`.
    InPlace { target: Seq<char> },
    /// It is pointed to `at` on the stack, where `target` is written.
    OnStack { target: Seq<char>, at: usize },
}

impl Fate {
    /// What the path argument is replaced by.
    pub open spec fn target(self) -> Option<Seq<char>> {
        match self {
            Fate::Kept => None,
            Fate::InPlace { target } => Some(target),
            Fate::OnStack { target, .. } => Some(target),
        }
    }

    /// The lowest address in use on the stack, where it was `cursor` before.
    pub open spec fn cursor_after(self, cursor: usize) -> usize {
        match self {
            Fate::OnStack { at, .. } => at,
            _ => cursor,
        }
    }

    /// Where the argument points to, where it was `addr` before.
    pub open spec fn address_after(self, addr: usize) -> usize {
        match self {
            Fate::OnStack { at, .. } => at,
            _ => addr,
        }
    }

    /// Whether the replacement can be read back whole: it has no zero byte, and is not too long.
    pub open spec fn readable(self) -> bool {
        self.target() matches Some(target) ==> {
            &&& encode_utf8(target).len() <= MAX_PATH
            &&& forall|i: int| 0 <= i < target.len() ==> #[trigger] target[i] != '\0'
        }
    }
}

/// Whether two stretches of memory, each from a first address for a length, have no address in
/// common.
pub open spec fn apart(a: (int, int), b: (int, int)) -> bool {
    a.0 + a.1 <= b.0 || b.0 + b.1 <= a.0 || a.1 <= 0 || b.1 <= 0
}

/// Whether an address is in a stretch of memory.
pub open spec fn within(address: int, stretch: (int, int)) -> bool {
    stretch.0 <= address < stretch.0 + stretch.1
}

impl Tracee {
    /// The bytes of the string at `addr`, or `None` if it cannot be read.
    pub open spec fn string(self, addr: usize) -> Option<Seq<u8>> {
        cstring::found(Read::start(), self.memory, addr as int, self.format)
    }

    /// The memory that decides what the string at `addr` is.
    pub open spec fn decisive(self, addr: usize) -> (int, int) {
        (addr as int, cstring::decisive(self.memory, addr as int, self.format))
    }

    /// What becomes of a path argument `addr`, where the stack is in use from `cursor` on.
    pub open spec fn fate(self, addr: usize, binds: Binds, cursor: usize) -> Fate {
        match self.string(addr) {
            Some(bytes) => match replacement(bytes, binds) {
                Some(target) => if encode_utf8(target).len() <= bytes.len() {
                    Fate::InPlace { target }
                } else {
                    let at = cursor - memory::whole_words(
                        rewrite::terminated(encode_utf8(target)).len() as int,
                        self.format.width() as int,
                    );
                    if at >= 0 && (self.stack_start() matches Some(start) ==> at >= start
                        + self.format.width()) {
                        Fate::OnStack { target, at: at as usize }
                    } else {
                        Fate::Kept
                    }
                },
                None => Fate::Kept,
            },
            None => Fate::Kept,
        }
    }

    /// What becomes of some path arguments, one after the other.
    pub open spec fn fates(self, args: Seq<(usize, usize)>, binds: Binds, cursor: usize) -> Seq<
        Fate,
    >
        decreases args.len(),
    {
        if args.len() == 0 {
            Seq::empty()
        } else {
            let fate = self.fate(args[0].1, binds, cursor);
            seq![fate] + self.fates(args.drop_first(), binds, fate.cursor_after(cursor))
        }
    }

    /// The memory that is written for a path argument `addr`: the whole of its string with the
    /// zero byte behind it, or the place on the stack.
    pub open spec fn overwritten(self, addr: usize, fate: Fate) -> (int, int) {
        match fate {
            Fate::Kept => (addr as int, 0),
            Fate::InPlace { .. } => (addr as int, (self.string(addr)->0.len() + 1) as int),
            Fate::OnStack { target, at } => (
                at as int,
                rewrite::terminated(encode_utf8(target)).len() as int,
            ),
        }
    }

    /// The memory that decides what a path argument `addr` is in the end.
    pub open spec fn settled(self, addr: usize, fate: Fate) -> (int, int) {
        match fate.target() {
            Some(target) => (
                fate.address_after(addr) as int,
                cstring::seen(encode_utf8(target)),
            ),
            None => self.decisive(addr),
        }
    }

    /// Whether there is memory at all the words that are written for a path argument.
    pub open spec fn writable(self, addr: usize, fate: Fate) -> bool {
        let (at, len) = self.overwritten(addr, fate);
        memory::mapped(self.memory, at, memory::whole_words(len, self.format.width() as int))
    }

    /// Whether the path arguments can be replaced without one getting in the way of another: what
    /// is written for one is neither part of the string of a later one, nor of what an earlier one
    /// is in the end.
    pub open spec fn undisturbed(self, args: Seq<(usize, usize)>, fates: Seq<Fate>) -> bool {
        forall|j: int, k: int|
            0 <= j < k < args.len() ==> {
                &&& apart(
                    self.overwritten((#[trigger] args[j]).1, fates[j]),
                    self.decisive((#[trigger] args[k]).1),
                )
                &&& apart(
                    self.settled(args[j].1, fates[j]),
                    self.overwritten(args[k].1, fates[k]),
                )
            }
    }

    /// Whether a path argument that was `arg` in this process has met its fate in `after`: it
    /// points to a string that is its replacement, or to one that is as before.
    pub open spec fn served(self, after: Tracee, arg: (usize, usize), fate: Fate) -> bool {
        let now = after.frame.arg(arg.0 as int);
        &&& now == fate.address_after(arg.1)
        &&& after.string(now) == match fate.target() {
            Some(target) => Some(encode_utf8(target)),
            None => self.string(arg.1),
        }
    }
}

/// Whether no two of some arguments are at the same place, and all are in registers.
pub open spec fn places_apart(frame: Frame, args: Seq<(usize, usize)>) -> bool {
    &&& forall|i: int, j: int|
        0 <= i < args.len() && 0 <= j < args.len() && i != j ==> (#[trigger] args[i]).0 != (
        #[trigger] args[j]).0
    &&& forall|i: int|
        0 <= i < args.len() ==> {
            &&& (#[trigger] args[i]).0 < 4
            &&& frame.arg(args[i].0 as int) == args[i].1
        }
}

/// Whether all replacements can be written, read back, and do not get in each other's way.
pub open spec fn calm(
    tracee: Tracee,
    args: Seq<(usize, usize)>,
    binds: Binds,
    cursor: usize,
) -> bool {
    let fates = tracee.fates(args, binds, cursor);
    &&& forall|i: int|
        0 <= i < args.len() ==> tracee.writable((#[trigger] args[i]).1, fates[i])
            && fates[i].readable()
    &&& tracee.undisturbed(args, fates)
}

/// Whether the registers can be set, or no argument has to be pointed elsewhere.
pub open spec fn settable(tracee: Tracee, args: Seq<(usize, usize)>, fates: Seq<Fate>) -> bool {
    tracee.set_fault is None || forall|i: int|
        0 <= i < args.len() ==> fates[i].address_after((#[trigger] args[i]).1) == args[i].1
}

/// There is one fate for each argument.
proof fn lemma_fates(tracee: Tracee, args: Seq<(usize, usize)>, binds: Binds, cursor: usize)
    ensures
        tracee.fates(args, binds, cursor).len() == args.len(),
    decreases args.len(),
{
    if args.len() > 0 {
        let fate = tracee.fate(args[0].1, binds, cursor);
        lemma_fates(tracee, args.drop_first(), binds, fate.cursor_after(cursor));
    }
}

/// Fates depend on the strings of the arguments and on the stack alone.
proof fn lemma_fates_agree(
    tracee: Tracee,
    later: Tracee,
    args: Seq<(usize, usize)>,
    binds: Binds,
    cursor: usize,
)
    requires
        later.maps == tracee.maps,
        later.format == tracee.format,
        forall|i: int|
            0 <= i < args.len() ==> later.string((#[trigger] args[i]).1) == tracee.string(
                args[i].1,
            ),
    ensures
        later.fates(args, binds, cursor) == tracee.fates(args, binds, cursor),
    decreases args.len(),
{
    if args.len() > 0 {
        let fate = tracee.fate(args[0].1, binds, cursor);
        let rest = args.drop_first();
        assert(later.string(args[0].1) == tracee.string(args[0].1));
        assert forall|i: int| 0 <= i < rest.len() implies later.string((#[trigger] rest[i]).1)
            == tracee.string(rest[i].1) by {
            assert(rest[i] == args[i + 1]);
        }
        lemma_fates_agree(tracee, later, rest, binds, fate.cursor_after(cursor));
    }
}

/// A string stays the same where the memory that decides it does.
proof fn lemma_string_kept(tracee: Tracee, later: Tracee, addr: usize, written: (int, int))
    requires
        later.format == tracee.format,
        later.memory.dom() == tracee.memory.dom(),
        apart(written, tracee.decisive(addr)),
        forall|a: int|
            tracee.memory.dom().contains(a) && !within(a, written) ==> #[trigger] tracee.memory[a]
                == later.memory[a],
    ensures
        later.string(addr) == tracee.string(addr),
        later.decisive(addr) == tracee.decisive(addr),
{
    cstring::law_reader_depends_on_string(
        tracee.memory,
        later.memory,
        addr as int,
        tracee.format,
    );
}

/// Once what is written for the first argument has been written, the others stand as before.
proof fn lemma_rest(
    tracee: Tracee,
    later: Tracee,
    args: Seq<(usize, usize)>,
    binds: Binds,
    cursor: usize,
)
    requires
        calm(tracee, args, binds, cursor),
        args.len() > 0,
        later.maps == tracee.maps,
        later.format == tracee.format,
        later.memory.dom() == tracee.memory.dom(),
        forall|a: int|
            tracee.memory.dom().contains(a) && !within(
                a,
                tracee.overwritten(args[0].1, tracee.fate(args[0].1, binds, cursor)),
            ) ==> #[trigger] tracee.memory[a] == later.memory[a],
    ensures
        ({
            let next = tracee.fate(args[0].1, binds, cursor).cursor_after(cursor);
            &&& calm(later, args.drop_first(), binds, next)
            &&& later.fates(args.drop_first(), binds, next) == tracee.fates(
                args,
                binds,
                cursor,
            ).drop_first()
            &&& forall|i: int|
                1 <= i < args.len() ==> {
                    &&& later.string((#[trigger] args[i]).1) == tracee.string(args[i].1)
                    &&& later.decisive(args[i].1) == tracee.decisive(args[i].1)
                }
        }),
{
    let fate = tracee.fate(args[0].1, binds, cursor);
    let next = fate.cursor_after(cursor);
    let fates = tracee.fates(args, binds, cursor);
    let rest = args.drop_first();
    lemma_fates(tracee, args, binds, cursor);
    assert(fates[0] == fate);
    assert forall|i: int| 1 <= i < args.len() implies {
        &&& later.string((#[trigger] args[i]).1) == tracee.string(args[i].1)
        &&& later.decisive(args[i].1) == tracee.decisive(args[i].1)
    } by {
        assert(apart(tracee.overwritten(args[0].1, fates[0]), tracee.decisive(args[i].1)));
        lemma_string_kept(tracee, later, args[i].1, tracee.overwritten(args[0].1, fate));
    }
    assert forall|i: int| 0 <= i < rest.len() implies later.string((#[trigger] rest[i]).1)
        == tracee.string(rest[i].1) by {
        assert(rest[i] == args[i + 1]);
    }
    lemma_fates_agree(tracee, later, rest, binds, next);
    let others = later.fates(rest, binds, next);
    assert(others =~= fates.drop_first());
    assert forall|i: int| 0 <= i < rest.len() implies later.writable(
        (#[trigger] rest[i]).1,
        others[i],
    ) && others[i].readable() by {
        assert(rest[i] == args[i + 1]);
        assert(tracee.writable(args[i + 1].1, fates[i + 1]));
    }
    assert forall|j: int, k: int| 0 <= j < k < rest.len() implies {
        &&& apart(
            later.overwritten((#[trigger] rest[j]).1, others[j]),
            later.decisive((#[trigger] rest[k]).1),
        )
        &&& apart(
            later.settled(rest[j].1, others[j]),
            later.overwritten(rest[k].1, others[k]),
        )
    } by {
        assert(rest[j] == args[j + 1] && rest[k] == args[k + 1]);
        assert(apart(
            tracee.overwritten(args[j + 1].1, fates[j + 1]),
            tracee.decisive(args[k + 1].1),
        ));
    }
}

/// Text that is stored with a zero byte behind it is the string there.
proof fn lemma_string_stored(
    tracee: Tracee,
    later: Tracee,
    at: usize,
    target: Seq<char>,
    payload: Seq<u8>,
)
    requires
        encode_utf8(target).len() <= MAX_PATH,
        forall|i: int| 0 <= i < target.len() ==> #[trigger] target[i] != '\0',
        rewrite::terminated(encode_utf8(target)).is_prefix_of(payload),
        memory::mapped(
            tracee.memory,
            at as int,
            memory::whole_words(payload.len() as int, tracee.format.width() as int),
        ),
        later.memory == memory::stored(tracee.memory, at as int, payload),
        later.format == tracee.format,
    ensures
        later.string(at) == Some(encode_utf8(target)),
{
    let bytes = encode_utf8(target);
    let whole = rewrite::terminated(bytes);
    let width = tracee.format.width() as int;
    assert(width == 4 || width == 8);
    memory::lemma_whole_words(payload.len() as int, width);
    memory::lemma_whole_words_order(cstring::seen(bytes), payload.len() as int, width);
    text::lemma_encode_no_nul(target);
    assert(later.memory.dom() =~= tracee.memory.dom());
    assert forall|i: int| 0 <= i < bytes.len() implies #[trigger] bytes[i] == later.memory[at + i]
        && bytes[i] != 0 by {
        assert(tracee.memory.dom().contains(at + i));
        assert(whole[i] == payload[i]);
    }
    assert(tracee.memory.dom().contains(at + bytes.len()));
    assert(whole[bytes.len() as int] == payload[bytes.len() as int]);
    assert(memory::string_at(later.memory, at as int, bytes));
    assert(memory::mapped(later.memory, at as int, cstring::extent(bytes, later.format)));
    cstring::law_reader_finds_string(later.memory, at as int, later.format);
}

/// Whether a rewrite is about to look at its pending arguments.
spec fn ready(rewrite: Rewrite, tracee: Tracee) -> bool {
    &&& rewrite.width == tracee.format.width()
    &&& rewrite.stack_start is None || rewrite.stack_start == tracee.stack_start()
    &&& !rewrite.changed ==> rewrite.frame == tracee.frame
    &&& rewrite.frame.well_formed()
    &&& calm(tracee, rewrite.pending, rewrite.binds, rewrite.cursor)
    &&& places_apart(rewrite.frame, rewrite.pending)
    &&& settable(
        tracee,
        rewrite.pending,
        tracee.fates(rewrite.pending, rewrite.binds, rewrite.cursor),
    )
    &&& tracee.set_fault is Some ==> !rewrite.changed
}

/// Whether `after` is what a rewrite that was `ready` makes of `before`.
spec fn finished(rewrite: Rewrite, before: Tracee, after: Tracee) -> bool {
    let args = rewrite.pending;
    let fates = before.fates(args, rewrite.binds, rewrite.cursor);
    &&& forall|i: int|
        0 <= i < args.len() ==> before.served(after, #[trigger] args[i], fates[i])
    &&& after.frame.well_formed()
    &&& after.frame.arch == rewrite.frame.arch
    &&& after.frame.sp == rewrite.frame.sp
    &&& after.frame.syscall_number() == rewrite.frame.syscall_number()
    &&& forall|place: int|
        (forall|i: int| 0 <= i < args.len() ==> (#[trigger] args[i]).0 != place)
            ==> #[trigger] after.frame.arg(place) == rewrite.frame.arg(place)
    &&& after.memory.dom() == before.memory.dom()
    &&& forall|a: int|
        before.memory.dom().contains(a) && (forall|i: int|
            0 <= i < args.len() ==> !within(
                a,
                before.overwritten((#[trigger] args[i]).1, fates[i]),
            )) ==> #[trigger] after.memory[a] == before.memory[a]
    &&& after.maps == before.maps
    &&& after.format == before.format
}

/// Whether `next` is where a rewrite stands, with the process `later`, once the first pending
/// argument has met its fate.
spec fn first_met(rewrite: Rewrite, tracee: Tracee, next: Rewrite, later: Tracee) -> bool {
    let (place, addr) = rewrite.pending[0];
    let fate = tracee.fate(addr, rewrite.binds, rewrite.cursor);
    let now = fate.address_after(addr);
    &&& next.pending == rewrite.pending.drop_first()
    &&& next.binds == rewrite.binds
    &&& next.width == rewrite.width
    &&& next.cursor == fate.cursor_after(rewrite.cursor)
    &&& next.stack_start is None || next.stack_start == tracee.stack_start()
    &&& !next.changed ==> next.frame == tracee.frame
    &&& next.frame == if now == addr {
        rewrite.frame
    } else {
        rewrite.frame.with_arg(place as int, now)
    }
    &&& next.changed ==> rewrite.changed || now != addr
    &&& later.frame == tracee.frame
    &&& later.set_fault == tracee.set_fault
    &&& later.maps == tracee.maps
    &&& later.format == tracee.format
    &&& later.memory.dom() == tracee.memory.dom()
    &&& forall|a: int|
        tracee.memory.dom().contains(a) && !within(a, tracee.overwritten(addr, fate))
            ==> #[trigger] tracee.memory[a] == later.memory[a]
    &&& later.string(now) == match fate.target() {
        Some(target) => Some(encode_utf8(target)),
        None => tracee.string(addr),
    }
    &&& fate is Kept ==> later == tracee
}

/// A string that is found is no longer than it may be.
proof fn lemma_string_len(tracee: Tracee, addr: usize)
    ensures
        tracee.string(addr) matches Some(bytes) ==> bytes.len() <= MAX_PATH,
{
    cstring::law_reader_finds_string(tracee.memory, addr as int, tracee.format);
}

/// The first pending argument is read as what it is.
proof fn lemma_text(rewrite: Rewrite, tracee: Tracee)
    requires
        rewrite.pending.len() > 0,
    ensures
        ({
            let reading = Rewrite { stage: Stage::Text, ..rewrite };
            let (next, wanted) = match tracee.string(rewrite.pending[0].1) {
                Some(bytes) => reading.with_text(cstring::text_of(bytes), bytes.len() as usize),
                None => reading.skipped(),
            };
            tracee.carried(rewrite.onward().0, rewrite.onward().1) == tracee.carried(next, wanted)
        }),
{
    let (asking, request) = rewrite.onward();
    let reply = tracee.answer(request).1;
    assert(asking.well_formed());
    assert(asking.expects(reply));
}

/// A write is carried out, and the rewrite is told so.
proof fn lemma_write(tracee: Tracee, rewrite: Rewrite, at: usize, payload: Seq<u8>)
    requires
        rewrite.stage == (Stage::Written { to: at }),
        rewrite.pending.len() > 0,
        memory::mapped(
            tracee.memory,
            at as int,
            memory::whole_words(payload.len() as int, tracee.format.width() as int),
        ),
    ensures
        tracee.carried(rewrite, RequestView::WriteBytes { addr: at, payload }) == ({
            let later = Tracee {
                memory: memory::stored(tracee.memory, at as int, payload),
                ..tracee
            };
            let (next, wanted) = rewrite.with_written(at);
            later.carried(next, wanted)
        }),
{
    writer::law_writer_stores(payload, tracee.memory, at as int, tracee.format);
    let request = RequestView::WriteBytes { addr: at, payload };
    let reply = tracee.answer(request).1;
    assert(rewrite.expects(reply));
    assert(rewrite.after(reply) == rewrite.with_written(at));
}

/// A string that stays is passed over.
proof fn lemma_kept(rewrite: Rewrite, tracee: Tracee) -> (next: Rewrite)
    requires
        ready(rewrite, tracee),
        rewrite.pending.len() > 0,
        tracee.fate(rewrite.pending[0].1, rewrite.binds, rewrite.cursor) is Kept,
    ensures
        first_met(rewrite, tracee, next, tracee),
        tracee.carried(rewrite.onward().0, rewrite.onward().1) == tracee.carried(
            next.onward().0,
            next.onward().1,
        ),
{
    lemma_text(rewrite, tracee);
    let (place, addr) = rewrite.pending[0];
    lemma_string_len(tracee, addr);
    let reading = Rewrite { stage: Stage::Text, ..rewrite };
    let passed = Rewrite { pending: rewrite.pending.drop_first(), ..reading };
    match tracee.string(addr) {
        Some(bytes) => match replacement(bytes, rewrite.binds) {
            Some(target) => {
                // There is no room on the stack.
                if rewrite.stack_start is None {
                    let (waiting, wanted) = reading.with_text(
                        cstring::text_of(bytes),
                        bytes.len() as usize,
                    );
                    let reply = tracee.answer(wanted).1;
                    assert(waiting.well_formed() && waiting.expects(reply));
                    let placing = Rewrite { stack_start: tracee.stack_start(), ..waiting };
                    assert(waiting.after(reply) == placing.on_stack(target));
                    assert(!placing.has_room(target));
                    let next = Rewrite { pending: rewrite.pending.drop_first(), ..placing };
                    assert(placing.skipped() == next.onward());
                    next
                } else {
                    assert(!reading.has_room(target));
                    passed
                }
            },
            None => passed,
        },
        None => passed,
    }
}

/// A string with a replacement that is no longer than it is replaced in its place.
proof fn lemma_in_place(rewrite: Rewrite, tracee: Tracee) -> (r: (Rewrite, Tracee))
    requires
        ready(rewrite, tracee),
        rewrite.pending.len() > 0,
        tracee.fate(rewrite.pending[0].1, rewrite.binds, rewrite.cursor) is InPlace,
    ensures
        first_met(rewrite, tracee, r.0, r.1),
        tracee.carried(rewrite.onward().0, rewrite.onward().1) == r.1.carried(
            r.0.onward().0,
            r.0.onward().1,
        ),
{
    lemma_text(rewrite, tracee);
    let (place, addr) = rewrite.pending[0];
    lemma_string_len(tracee, addr);
    let bytes = tracee.string(addr)->0;
    let fate = tracee.fate(addr, rewrite.binds, rewrite.cursor);
    let target = fate->InPlace_target;
    lemma_fates(tracee, rewrite.pending, rewrite.binds, rewrite.cursor);
    assert(tracee.writable(rewrite.pending[0].1, fate) && fate.readable());
    let whole = rewrite::terminated(encode_utf8(target));
    let payload = rewrite::padded(whole, (bytes.len() + 1) as int);
    assert(payload.len() == bytes.len() + 1);
    assert(whole.is_prefix_of(payload));
    let asking = Rewrite { stage: Stage::Written { to: addr }, ..rewrite };
    assert((Rewrite { stage: Stage::Text, ..rewrite }).with_text(
        cstring::text_of(bytes),
        bytes.len() as usize,
    ) == (asking, RequestView::WriteBytes { addr, payload }));
    lemma_write(tracee, asking, addr, payload);
    let later = Tracee { memory: memory::stored(tracee.memory, addr as int, payload), ..tracee };
    let next = Rewrite { pending: rewrite.pending.drop_first(), ..asking };
    assert(asking.with_written(addr) == next.onward());
    lemma_string_stored(tracee, later, addr, target, payload);
    assert(later.memory.dom() =~= tracee.memory.dom());
    (next, later)
}

/// A string with a longer replacement is replaced by one on the stack.
proof fn lemma_on_stack(rewrite: Rewrite, tracee: Tracee) -> (r: (Rewrite, Tracee))
    requires
        ready(rewrite, tracee),
        rewrite.pending.len() > 0,
        tracee.fate(rewrite.pending[0].1, rewrite.binds, rewrite.cursor) is OnStack,
    ensures
        first_met(rewrite, tracee, r.0, r.1),
        tracee.carried(rewrite.onward().0, rewrite.onward().1) == r.1.carried(
            r.0.onward().0,
            r.0.onward().1,
        ),
{
    lemma_text(rewrite, tracee);
    let (place, addr) = rewrite.pending[0];
    lemma_string_len(tracee, addr);
    let bytes = tracee.string(addr)->0;
    let fate = tracee.fate(addr, rewrite.binds, rewrite.cursor);
    let target = fate->OnStack_target;
    let at = fate->at;
    lemma_fates(tracee, rewrite.pending, rewrite.binds, rewrite.cursor);
    assert(tracee.writable(rewrite.pending[0].1, fate) && fate.readable());
    let payload = rewrite::terminated(encode_utf8(target));
    let width = tracee.format.width() as int;
    assert(width == 4 || width == 8);
    memory::lemma_whole_words(payload.len() as int, width);
    let reading = Rewrite { stage: Stage::Text, ..rewrite };
    // What is known of the stack by the time the path goes there.
    let placing = if rewrite.stack_start is None {
        Rewrite { stage: Stage::Maps { target }, stack_start: tracee.stack_start(), ..rewrite }
    } else {
        reading
    };
    assert(placing.has_room(target));
    let (waiting, wanted) = reading.with_text(cstring::text_of(bytes), bytes.len() as usize);
    assert(tracee.carried(waiting, wanted) == tracee.carried(
        placing.on_stack(target).0,
        placing.on_stack(target).1,
    )) by {
        if rewrite.stack_start is None {
            let reply = tracee.answer(wanted).1;
            assert(waiting.well_formed() && waiting.expects(reply));
            assert(waiting.after(reply) == placing.on_stack(target));
        }
    }
    let asking = Rewrite { stage: Stage::Written { to: at }, cursor: at, ..placing };
    assert(placing.on_stack(target) == (asking, RequestView::WriteBytes { addr: at, payload }));
    lemma_write(tracee, asking, at, payload);
    let later = Tracee { memory: memory::stored(tracee.memory, at as int, payload), ..tracee };
    let pointed = if at != addr {
        Rewrite { frame: rewrite.frame.with_arg(place as int, at), changed: true, ..asking }
    } else {
        asking
    };
    let next = Rewrite { pending: rewrite.pending.drop_first(), ..pointed };
    assert(asking.with_written(at) == next.onward());
    lemma_string_stored(tracee, later, at, target, payload);
    assert(later.memory.dom() =~= tracee.memory.dom());
    (next, later)
}

/// Once the first argument has met its fate, the rewrite is ready for the others.
proof fn lemma_next_ready(rewrite: Rewrite, tracee: Tracee, next: Rewrite, later: Tracee)
    requires
        ready(rewrite, tracee),
        rewrite.pending.len() > 0,
        first_met(rewrite, tracee, next, later),
    ensures
        ready(next, later),
        next.frame.arch == rewrite.frame.arch,
        next.frame.sp == rewrite.frame.sp,
        next.frame.syscall_number() == rewrite.frame.syscall_number(),
        next.frame.arg(rewrite.pending[0].0 as int) == tracee.fate(
            rewrite.pending[0].1,
            rewrite.binds,
            rewrite.cursor,
        ).address_after(rewrite.pending[0].1),
        forall|other: int|
            other != rewrite.pending[0].0 ==> #[trigger] next.frame.arg(other)
                == rewrite.frame.arg(other),
{
    let (place, addr) = rewrite.pending[0];
    let fate = tracee.fate(addr, rewrite.binds, rewrite.cursor);
    let now = fate.address_after(addr);
    assert(rewrite.pending[0].0 < 4);
    rewrite.frame.law_number_kept(place as int, now);
    assert forall|other: int| other != place implies #[trigger] next.frame.arg(other)
        == rewrite.frame.arg(other) by {
        rewrite.frame.law_replaced_arg(place as int, other, now);
    }
    rewrite.frame.law_replaced_arg(place as int, place - 1, now);
    assert(places_apart(next.frame, next.pending)) by {
        assert forall|i: int| 0 <= i < next.pending.len() implies {
            &&& (#[trigger] next.pending[i]).0 < 4
            &&& next.frame.arg(next.pending[i].0 as int) == next.pending[i].1
        } by {
            assert(next.pending[i] == rewrite.pending[i + 1]);
            assert(rewrite.pending[i + 1].0 != rewrite.pending[0].0);
        }
    }
    lemma_rest(tracee, later, rewrite.pending, rewrite.binds, rewrite.cursor);
    lemma_fates(tracee, rewrite.pending, rewrite.binds, rewrite.cursor);
    let fates = tracee.fates(rewrite.pending, rewrite.binds, rewrite.cursor);
    assert(fates[0] == fate);
    if tracee.set_fault is Some {
        assert(fates[0].address_after(rewrite.pending[0].1) == rewrite.pending[0].1);
        assert forall|i: int| 0 <= i < next.pending.len() implies fates.drop_first()[i].address_after(
            (#[trigger] next.pending[i]).1,
        ) == next.pending[i].1 by {
            assert(next.pending[i] == rewrite.pending[i + 1]);
            assert(fates[i + 1].address_after(rewrite.pending[i + 1].1) == rewrite.pending[i
                + 1].1);
        }
    }
}

/// What holds of the others once the first argument has met its fate makes it hold of all.
proof fn lemma_finished(
    rewrite: Rewrite,
    tracee: Tracee,
    next: Rewrite,
    later: Tracee,
    after: Tracee,
)
    requires
        ready(rewrite, tracee),
        rewrite.pending.len() > 0,
        first_met(rewrite, tracee, next, later),
        finished(next, later, after),
    ensures
        finished(rewrite, tracee, after),
{
    let args = rewrite.pending;
    let rest = next.pending;
    let (place, addr) = args[0];
    let fates = tracee.fates(args, rewrite.binds, rewrite.cursor);
    let others = later.fates(rest, next.binds, next.cursor);
    let now = fates[0].address_after(addr);
    lemma_fates(tracee, args, rewrite.binds, rewrite.cursor);
    lemma_next_ready(rewrite, tracee, next, later);
    lemma_rest(tracee, later, args, rewrite.binds, rewrite.cursor);
    assert(others == fates.drop_first());
    assert forall|i: int| 0 <= i < rest.len() implies rest[i] == args[i + 1] && later.overwritten(
        (#[trigger] rest[i]).1,
        others[i],
    ) == tracee.overwritten(args[i + 1].1, fates[i + 1]) by {
        assert(later.string(args[i + 1].1) == tracee.string(args[i + 1].1));
    }
    assert(after.frame.arg(place as int) == now) by {
        assert forall|i: int| 0 <= i < rest.len() implies (#[trigger] rest[i]).0 != place by {
            assert(args[i + 1].0 != args[0].0);
        }
    }
    assert(later.decisive(now) == tracee.settled(addr, fates[0]));
    assert(after.string(now) == later.string(now)) by {
        assert forall|a: int|
            within(a, later.decisive(now)) && later.memory.dom().contains(
                a,
            ) implies #[trigger] later.memory[a] == after.memory[a] by {
            assert forall|i: int| 0 <= i < rest.len() implies !within(
                a,
                later.overwritten((#[trigger] rest[i]).1, others[i]),
            ) by {
                assert(apart(
                    tracee.settled(args[0].1, fates[0]),
                    tracee.overwritten(args[i + 1].1, fates[i + 1]),
                ));
            }
        }
        cstring::law_reader_depends_on_string(
            later.memory,
            after.memory,
            now as int,
            later.format,
        );
    }
    assert forall|i: int| 0 <= i < args.len() implies tracee.served(
        after,
        #[trigger] args[i],
        fates[i],
    ) by {
        if i > 0 {
            assert(rest[i - 1] == args[i]);
            assert(later.served(after, rest[i - 1], others[i - 1]));
        }
    }
    assert forall|other: int|
        (forall|i: int| 0 <= i < args.len() ==> (#[trigger] args[i]).0
            != other) implies #[trigger] after.frame.arg(other) == rewrite.frame.arg(other) by {
        assert(args[0].0 != other);
        assert forall|i: int| 0 <= i < rest.len() implies (#[trigger] rest[i]).0 != other by {
            assert(rest[i] == args[i + 1]);
        }
        assert(next.frame.arg(other) == rewrite.frame.arg(other));
    }
    assert forall|a: int|
        tracee.memory.dom().contains(a) && (forall|i: int|
            0 <= i < args.len() ==> !within(
                a,
                tracee.overwritten((#[trigger] args[i]).1, fates[i]),
            )) implies #[trigger] after.memory[a] == tracee.memory[a] by {
        assert(!within(a, tracee.overwritten(args[0].1, fates[0])));
        assert forall|i: int| 0 <= i < rest.len() implies !within(
            a,
            later.overwritten((#[trigger] rest[i]).1, others[i]),
        ) by {
            assert(!within(a, tracee.overwritten(args[i + 1].1, fates[i + 1])));
        }
        assert(tracee.memory[a] == later.memory[a]);
        assert(after.memory[a] == later.memory[a]);
    }
}

/// All pending arguments meet their fates.
proof fn lemma_carried(rewrite: Rewrite, tracee: Tracee)
    requires
        ready(rewrite, tracee),
    ensures
        ({
            let (after, result) = tracee.carried(rewrite.onward().0, rewrite.onward().1);
            result == Ok::<(), i32>(()) && finished(rewrite, tracee, after)
        }),
    decreases rewrite.pending.len(),
{
    let (asking, request) = rewrite.onward();
    let (after, result) = tracee.carried(asking, request);
    if rewrite.pending.len() == 0 {
        if rewrite.changed {
            let (later, reply) = tracee.answer(request);
            assert(asking.well_formed() && asking.expects(reply));
            let (over, done) = asking.after(reply);
            assert(later.carried(over, done) == (later, Ok::<(), i32>(())));
            assert(after == later);
        }
    } else {
        let fate = tracee.fate(rewrite.pending[0].1, rewrite.binds, rewrite.cursor);
        let (next, later) = match fate {
            Fate::Kept => (lemma_kept(rewrite, tracee), tracee),
            Fate::InPlace { .. } => lemma_in_place(rewrite, tracee),
            Fate::OnStack { .. } => lemma_on_stack(rewrite, tracee),
        };
        lemma_next_ready(rewrite, tracee, next, later);
        lemma_carried(next, later);
        lemma_finished(rewrite, tracee, next, later, after);
    }
}

/// The path arguments of a system call are at different places, in registers.
proof fn lemma_path_addresses(frame: Frame)
    ensures
        places_apart(frame, rewrite::path_addresses(frame)),
{
    let places = regs::path_places(frame.arch, frame.syscall_number());
    regs::law_path_places(frame.arch, frame.syscall_number());
    reveal_with_fuel(rewrite::addresses, 3);
    assert(forall|i: int| 0 <= i < places.len() ==> #[trigger] places[i] < 4);
    if places.len() == 1 {
        assert(places.drop_last().len() == 0);
    } else if places.len() == 2 {
        assert(places.drop_last().len() == 1);
        assert(places.drop_last().drop_last().len() == 0);
        assert(places.drop_last().last() == places[0]);
        assert(places[0] != places[1]);
    }
}

/// The first step of a rewrite with binds is to fetch the registers; then it looks at the path
/// arguments.
proof fn lemma_handled(tracee: Tracee, binds: Binds) -> (looking: Rewrite)
    requires
        tracee.frame.arch != regs::Arch::Other,
        tracee.get_fault is None,
        binds.len() > 0,
    ensures
        tracee.handled(binds) == tracee.carried(looking.onward().0, looking.onward().1),
        tracee.strings_read(binds) == tracee.read_by(looking.onward().0, looking.onward().1),
        looking.frame == tracee.frame,
        looking.binds == binds,
        looking.width == tracee.format.width(),
        looking.pending == rewrite::path_addresses(tracee.frame),
        looking.cursor == rewrite::stack_top(tracee.frame),
        looking.stack_start is None,
        !looking.changed,
{
    let (fetching, request) = Rewrite::start(
        tracee.frame.arch,
        binds,
        tracee.format.width(),
    ).after(ReplyView::Entered);
    let reply = tracee.answer(request).1;
    assert(fetching.well_formed() && fetching.expects(reply));
    let looking = Rewrite {
        frame: tracee.frame,
        pending: rewrite::path_addresses(tracee.frame),
        cursor: rewrite::stack_top(tracee.frame),
        ..fetching
    };
    assert(fetching.after(reply) == looking.onward());
    lemma_step(tracee, fetching, request);
    looking
}

/// Without binds, or where the registers are not known, no argument is looked at.
proof fn lemma_not_looked_at(tracee: Tracee, binds: Binds)
    requires
        binds.len() == 0 || tracee.frame.arch == regs::Arch::Other || tracee.get_fault is Some,
    ensures
        tracee.strings_read(binds) == Seq::<(usize, Seq<u8>)>::empty(),
        tracee.handled(binds) == (
            tracee,
            if binds.len() == 0 || tracee.frame.arch == regs::Arch::Other {
                Ok::<(), i32>(())
            } else {
                Err(tracee.get_fault->0)
            },
        ),
{
    let (rewrite, request) = Rewrite::start(
        tracee.frame.arch,
        binds,
        tracee.format.width(),
    ).after(ReplyView::Entered);
    if !(request is Finish) {
        let (next, reply) = tracee.answer(request);
        assert(rewrite.well_formed() && rewrite.expects(reply));
        lemma_step(tracee, rewrite, request);
        let (over, done) = rewrite.after(reply);
        assert(next.read_by(over, done) =~= Seq::empty());
    }
    assert(tracee.strings_read(binds) =~= Seq::empty());
}

/// Once its system call has been rewritten, a process sees at each path argument the host path
/// behind the path that was there, in place of it or on the stack. It sees what was there before
/// where no bind covers that or there is no room.
///
/// All else is as before: the number of the call, the other arguments, the stack pointer, and the
/// memory but for what was written for the path arguments.
///
/// This holds where there is memory to write to, the registers can be fetched and set, the host
/// paths can be read back, having no zero byte and not being too long, and the path arguments do
/// not get in each other's way.
pub proof fn law_bound_paths_served(tracee: Tracee, binds: Binds)
    requires
        tracee.frame.well_formed(),
        binds.len() > 0,
        tracee.get_fault is None,
        settable(
            tracee,
            rewrite::path_addresses(tracee.frame),
            tracee.fates(
                rewrite::path_addresses(tracee.frame),
                binds,
                rewrite::stack_top(tracee.frame),
            ),
        ),
        calm(
            tracee,
            rewrite::path_addresses(tracee.frame),
            binds,
            rewrite::stack_top(tracee.frame),
        ),
    ensures
        ({
            let args = rewrite::path_addresses(tracee.frame);
            let fates = tracee.fates(args, binds, rewrite::stack_top(tracee.frame));
            let (after, result) = tracee.handled(binds);
            &&& result == Ok::<(), i32>(())
            &&& forall|i: int|
                0 <= i < args.len() ==> tracee.served(after, #[trigger] args[i], fates[i])
            &&& after.frame.syscall_number() == tracee.frame.syscall_number()
            &&& after.frame.sp == tracee.frame.sp
            &&& forall|place: int|
                (forall|i: int| 0 <= i < args.len() ==> (#[trigger] args[i]).0 != place)
                    ==> #[trigger] after.frame.arg(place) == tracee.frame.arg(place)
            &&& after.memory.dom() == tracee.memory.dom()
            &&& forall|a: int|
                tracee.memory.dom().contains(a) && (forall|i: int|
                    0 <= i < args.len() ==> !within(
                        a,
                        tracee.overwritten((#[trigger] args[i]).1, fates[i]),
                    )) ==> #[trigger] after.memory[a] == tracee.memory[a]
        }),
{
    lemma_path_addresses(tracee.frame);
    let looking = lemma_handled(tracee, binds);
    lemma_carried(looking, tracee);
}

/// A system call with one path argument sees the host path behind it, if some bind covers it and
/// there is memory and room for the host path, whatever else is in memory.
pub proof fn law_single_bound_path_served(
    tracee: Tracee,
    binds: Binds,
    place: usize,
    addr: usize,
    path: Seq<char>,
    target: Seq<char>,
)
    requires
        tracee.frame.well_formed(),
        rewrite::path_addresses(tracee.frame) == seq![(place, addr)],
        tracee.string(addr) == Some(encode_utf8(path)),
        bind::resolved(path, binds) == Some(target),
        encode_utf8(target).len() <= MAX_PATH,
        forall|i: int| 0 <= i < target.len() ==> #[trigger] target[i] != '\0',
        ({
            let fate = tracee.fate(addr, binds, rewrite::stack_top(tracee.frame));
            &&& target != path ==> !(fate is Kept)
            &&& tracee.writable(addr, fate)
            &&& tracee.get_fault is None
            &&& tracee.set_fault is None || fate.address_after(addr) == addr
        }),
    ensures
        ({
            let (after, result) = tracee.handled(binds);
            &&& result == Ok::<(), i32>(())
            &&& after.string(after.frame.arg(place as int)) == Some(encode_utf8(target))
        }),
{
    let args = rewrite::path_addresses(tracee.frame);
    let top = rewrite::stack_top(tracee.frame);
    let fate = tracee.fate(addr, binds, top);
    cstring::law_text_of_encoded(path);
    if binds.len() == 0 {
        bind::law_covered_is_served(path, binds);
    }
    assert(args.drop_first() =~= Seq::empty());
    assert(tracee.fates(args.drop_first(), binds, fate.cursor_after(top)) =~= Seq::empty());
    let fates = tracee.fates(args, binds, top);
    assert(fates[0] == fate);
    assert(calm(tracee, args, binds, top)) by {
        assert forall|i: int| 0 <= i < args.len() implies tracee.writable(
            (#[trigger] args[i]).1,
            fates[i],
        ) && fates[i].readable() by {
            assert(i == 0);
        }
    }
    law_bound_paths_served(tracee, binds);
    assert(tracee.served(tracee.handled(binds).0, args[0], fates[0]));
}

/// Without binds a process is left as it is, and so is one of an architecture that is not known.
pub proof fn law_left_alone_without_binds(tracee: Tracee, binds: Binds)
    requires
        binds.len() == 0 || tracee.frame.arch == regs::Arch::Other,
    ensures
        tracee.handled(binds) == (tracee, Ok::<(), i32>(())),
{
}

/// Whether the string of an argument is to stay: it cannot be read, or has no replacement.
pub open spec fn stays(tracee: Tracee, arg: (usize, usize), binds: Binds) -> bool {
    tracee.string(arg.1) matches Some(bytes) ==> replacement(bytes, binds) is None
}

proof fn lemma_stays(rewrite: Rewrite, tracee: Tracee)
    requires
        !rewrite.changed,
        forall|i: int|
            0 <= i < rewrite.pending.len() ==> stays(
                tracee,
                #[trigger] rewrite.pending[i],
                rewrite.binds,
            ),
    ensures
        tracee.carried(rewrite.onward().0, rewrite.onward().1) == (tracee, Ok::<(), i32>(())),
    decreases rewrite.pending.len(),
{
    if rewrite.pending.len() > 0 {
        lemma_text(rewrite, tracee);
        assert(stays(tracee, rewrite.pending[0], rewrite.binds));
        let next = Rewrite {
            stage: Stage::Text,
            pending: rewrite.pending.drop_first(),
            ..rewrite
        };
        assert forall|i: int| 0 <= i < next.pending.len() implies stays(
            tracee,
            #[trigger] next.pending[i],
            next.binds,
        ) by {
            assert(next.pending[i] == rewrite.pending[i + 1]);
        }
        lemma_stays(next, tracee);
    }
}

/// A process whose path arguments no bind changes is left as it is. This takes in system calls
/// without path arguments, null pointers, and strings that cannot be read. The one error that may
/// come is that of fetching the registers.
pub proof fn law_left_alone_without_bound_paths(tracee: Tracee, binds: Binds)
    requires
        forall|i: int|
            0 <= i < rewrite::path_addresses(tracee.frame).len() ==> stays(
                tracee,
                #[trigger] rewrite::path_addresses(tracee.frame)[i],
                binds,
            ),
    ensures
        tracee.handled(binds).0 == tracee,
        tracee.get_fault is None ==> tracee.handled(binds).1 == Ok::<(), i32>(()),
{
    if binds.len() > 0 && tracee.frame.arch != regs::Arch::Other && tracee.get_fault is None {
        let looking = lemma_handled(tracee, binds);
        lemma_stays(looking, tracee);
    } else {
        lemma_not_looked_at(tracee, binds);
    }
}

/// What becomes of a process, and what is read, is the same before a step and after it.
proof fn lemma_step(tracee: Tracee, rewrite: Rewrite, request: RequestView)
    requires
        !(request is Finish),
        rewrite.well_formed(),
        rewrite.expects(tracee.answer(request).1),
    ensures
        ({
            let (next, reply) = tracee.answer(request);
            let (further, wanted) = rewrite.after(reply);
            &&& tracee.carried(rewrite, request) == next.carried(further, wanted)
            &&& !(request is ReadString) ==> tracee.read_by(rewrite, request) == next.read_by(
                further,
                wanted,
            )
            &&& request matches RequestView::ReadString { addr } ==> tracee.read_by(
                rewrite,
                request,
            ) == reading(tracee, addr) + next.read_by(further, wanted)
        }),
{
    let (next, reply) = tracee.answer(request);
    let (further, wanted) = rewrite.after(reply);
    assert(Seq::<(usize, Seq<u8>)>::empty() + next.read_by(further, wanted) =~= next.read_by(
        further,
        wanted,
    ));
}

/// What the reading of the string at `addr` reads.
spec fn reading(tracee: Tracee, addr: usize) -> Seq<(usize, Seq<u8>)> {
    match tracee.string(addr) {
        Some(bytes) => seq![(addr, bytes)],
        None => Seq::empty(),
    }
}

/// Whether an address is in one of some strings, or is that of the byte behind it.
pub open spec fn in_strings(strings: Seq<(usize, Seq<u8>)>, address: int) -> bool {
    exists|j: int|
        0 <= j < strings.len() && within(
            address,
            ((#[trigger] strings[j]).0 as int, (strings[j].1.len() + 1) as int),
        )
}

/// Whether an address is on the stack of a process, as far as that is known, below `cursor`.
pub open spec fn on_free_stack(tracee: Tracee, cursor: usize, address: int) -> bool {
    &&& 0 <= address < cursor
    &&& tracee.stack_start() matches Some(start) ==> start + tracee.format.width() <= address
}

/// Whether two frames differ at no other places than those of some arguments.
pub open spec fn differ_at(frame: Frame, other: Frame, args: Seq<(usize, usize)>) -> bool {
    &&& frame.arch == other.arch
    &&& frame.number == other.number
    &&& frame.sp == other.sp
    &&& frame.slots.len() == other.slots.len()
    &&& forall|place: int|
        0 <= place < frame.slots.len() && (forall|i: int|
            0 <= i < args.len() ==> (#[trigger] args[i]).0 != place)
            ==> #[trigger] frame.slots[place] == other.slots[place]
}

/// How one path argument is dealt with.
#[verifier::ext_equal]
struct Turn {
    /// Where the rewrite stands then, if nothing failed.
    next: Rewrite,
    later: Tracee,
    failed: bool,
    /// What was written, and where.
    at: usize,
    bytes: Seq<u8>,
}

impl Turn {
    /// Whether this is what happens to the first pending argument of a rewrite.
    spec fn follows(self, rewrite: Rewrite, tracee: Tracee) -> bool {
        let addr = rewrite.pending[0].1;
        let (asking, request) = rewrite.onward();
        let (further, wanted) = self.next.onward();
        &&& !self.failed ==> {
            &&& tracee.carried(asking, request) == self.later.carried(further, wanted)
            &&& tracee.read_by(asking, request) == reading(tracee, addr) + self.later.read_by(
                further,
                wanted,
            )
            &&& self.bytes.len() > 0 ==> self.bytes.last() == 0
        }
        &&& self.failed ==> {
            &&& tracee.carried(asking, request) == (self.later, Err::<(), i32>(tracee.fault))
            &&& tracee.read_by(asking, request) == reading(tracee, addr)
        }
        &&& self.next.pending == rewrite.pending.drop_first()
        &&& self.next.width == rewrite.width
        &&& self.next.stack_start is None || self.next.stack_start == tracee.stack_start()
        &&& self.next.cursor <= rewrite.cursor
        &&& differ_at(self.next.frame, rewrite.frame, seq![rewrite.pending[0]])
        &&& self.later == Tracee {
            memory: memory::stored(tracee.memory, self.at as int, self.bytes),
            ..tracee
        }
        &&& memory::mapped(tracee.memory, self.at as int, self.bytes.len() as int)
        &&& self.in_bounds(rewrite, tracee)
    }

    /// Whether what was written lies in the string of the argument, or on the stack.
    spec fn in_bounds(self, rewrite: Rewrite, tracee: Tracee) -> bool {
        let addr = rewrite.pending[0].1;
        ||| self.bytes.len() == 0
        ||| self.at == addr && tracee.string(addr) is Some && self.bytes.len() <= tracee.string(
            addr,
        )->0.len() + 1
        ||| forall|a: int|
            #![trigger on_free_stack(tracee, rewrite.cursor, a)]
            within(a, (self.at as int, self.bytes.len() as int)) ==> on_free_stack(
                tracee,
                rewrite.cursor,
                a,
            )
    }
}

/// Where nothing is written, the next argument follows.
proof fn lemma_turn_passed(rewrite: Rewrite, tracee: Tracee, next: Rewrite) -> (turn: Turn)
    requires
        rewrite.pending.len() > 0,
        next.pending == rewrite.pending.drop_first(),
        next.width == rewrite.width,
        next.stack_start is None || next.stack_start == tracee.stack_start(),
        next.cursor == rewrite.cursor,
        next.frame == rewrite.frame,
        tracee.carried(rewrite.onward().0, rewrite.onward().1) == tracee.carried(
            next.onward().0,
            next.onward().1,
        ),
        tracee.read_by(rewrite.onward().0, rewrite.onward().1) == reading(
            tracee,
            rewrite.pending[0].1,
        ) + tracee.read_by(next.onward().0, next.onward().1),
    ensures
        turn.follows(rewrite, tracee),
        turn.next == next,
{
    assert(memory::stored(tracee.memory, 0, Seq::empty()) =~= tracee.memory);
    Turn { next, later: tracee, failed: false, at: 0, bytes: Seq::empty() }
}

/// Where something is written, the next argument follows if the write did not fail.
proof fn lemma_turn_written(
    rewrite: Rewrite,
    tracee: Tracee,
    asking: Rewrite,
    at: usize,
    payload: Seq<u8>,
) -> (turn: Turn)
    requires
        rewrite.pending.len() > 0,
        asking.stage == (Stage::Written { to: at }),
        asking.pending == rewrite.pending,
        asking.width == rewrite.width,
        asking.stack_start is None || asking.stack_start == tracee.stack_start(),
        asking.cursor <= rewrite.cursor,
        asking.frame == rewrite.frame,
        payload.len() > 0,
        payload.last() == 0,
        ({
            let request = RequestView::WriteBytes { addr: at, payload };
            &&& tracee.carried(rewrite.onward().0, rewrite.onward().1) == tracee.carried(
                asking,
                request,
            )
            &&& tracee.read_by(rewrite.onward().0, rewrite.onward().1) == reading(
                tracee,
                rewrite.pending[0].1,
            ) + tracee.read_by(asking, request)
        }),
        ({
            let addr = rewrite.pending[0].1;
            ||| at == addr && tracee.string(addr) is Some && payload.len() <= tracee.string(
                addr,
            )->0.len() + 1
            ||| forall|a: int|
                #![trigger on_free_stack(tracee, rewrite.cursor, a)]
                within(a, (at as int, payload.len() as int)) ==> on_free_stack(
                    tracee,
                    rewrite.cursor,
                    a,
                )
        }),
    ensures
        turn.follows(rewrite, tracee),
{
    let request = RequestView::WriteBytes { addr: at, payload };
    writer::law_writer_stops(payload, tracee.memory, at as int, tracee.format);
    let n = writer::fitting(Write::start(payload, tracee.format), tracee.memory, at as int);
    let bytes = payload.take(n);
    let (later, reply) = tracee.answer(request);
    assert(asking.well_formed() && asking.expects(reply));
    lemma_step(tracee, asking, request);
    let (place, addr) = rewrite.pending[0];
    let pointed = if at != addr {
        Rewrite { frame: asking.frame.with_arg(place as int, at), changed: true, ..asking }
    } else {
        asking
    };
    let next = Rewrite { pending: asking.pending.drop_first(), ..pointed };
    assert(asking.with_written(at) == next.onward());
    let failed = reply is Failed;
    assert(differ_at(next.frame, rewrite.frame, seq![rewrite.pending[0]])) by {
        assert(seq![rewrite.pending[0]][0] == rewrite.pending[0]);
    }
    if failed {
        let (over, done) = asking.after(reply);
        assert(later.read_by(over, done) =~= Seq::empty());
        assert(reading(tracee, addr) + Seq::<(usize, Seq<u8>)>::empty() =~= reading(tracee, addr));
    } else {
        assert(bytes =~= payload);
    }
    Turn { next, later, failed, at, bytes }
}

/// What happens to the first pending argument.
proof fn lemma_turn(rewrite: Rewrite, tracee: Tracee) -> (turn: Turn)
    requires
        rewrite.pending.len() > 0,
        rewrite.width == tracee.format.width(),
        rewrite.stack_start is None || rewrite.stack_start == tracee.stack_start(),
    ensures
        turn.follows(rewrite, tracee),
{
    let (place, addr) = rewrite.pending[0];
    let (asking, request) = rewrite.onward();
    let reply = tracee.answer(request).1;
    assert(asking.well_formed() && asking.expects(reply));
    lemma_step(tracee, asking, request);
    lemma_string_len(tracee, addr);
    let width = tracee.format.width() as int;
    assert(width == 4 || width == 8);
    let passed = Rewrite { pending: rewrite.pending.drop_first(), ..asking };
    assert(asking.skipped() == passed.onward());
    if tracee.string(addr) is None {
        return lemma_turn_passed(rewrite, tracee, passed);
    }
    let bytes = tracee.string(addr)->0;
    if replacement(bytes, rewrite.binds) is None {
        return lemma_turn_passed(rewrite, tracee, passed);
    }
    let target = replacement(bytes, rewrite.binds)->0;
    let whole = rewrite::terminated(encode_utf8(target));
    if encode_utf8(target).len() <= bytes.len() {
        let payload = rewrite::padded(whole, (bytes.len() + 1) as int);
        assert(payload.len() == bytes.len() + 1);
        assert(payload.last() == 0);
        let writing = Rewrite { stage: Stage::Written { to: addr }, ..rewrite };
        return lemma_turn_written(rewrite, tracee, writing, addr, payload);
    }
    let placing = if rewrite.stack_start is None {
        let (waiting, wanted) = asking.after(reply);
        let answer = tracee.answer(wanted).1;
        assert(waiting.well_formed() && waiting.expects(answer));
        lemma_step(tracee, waiting, wanted);
        let placing = Rewrite { stack_start: tracee.stack_start(), ..waiting };
        assert(waiting.after(answer) == placing.on_stack(target));
        placing
    } else {
        assert(asking.after(reply) == asking.on_stack(target));
        asking
    };
    memory::lemma_whole_words(whole.len() as int, width);
    if placing.has_room(target) {
        let at = (placing.cursor - placing.stack_need(target)) as usize;
        let writing = Rewrite { stage: Stage::Written { to: at }, cursor: at, ..placing };
        assert(placing.on_stack(target) == (
            writing,
            RequestView::WriteBytes { addr: at, payload: whole },
        ));
        assert(whole.last() == 0);
        lemma_turn_written(rewrite, tracee, writing, at, whole)
    } else {
        let next = Rewrite { pending: rewrite.pending.drop_first(), ..placing };
        assert(placing.skipped() == next.onward());
        lemma_turn_passed(rewrite, tracee, next)
    }
}

/// Whether `after` is what a rewrite may make of `before`, with this result, where it has read
/// `strings`.
spec fn touched(
    rewrite: Rewrite,
    before: Tracee,
    after: Tracee,
    result: Result<(), i32>,
    strings: Seq<(usize, Seq<u8>)>,
) -> bool {
    &&& after.memory.dom() == before.memory.dom()
    &&& forall|a: int|
        before.memory.dom().contains(a) && #[trigger] after.memory[a] != before.memory[a]
            ==> on_free_stack(before, rewrite.cursor, a) || in_strings(strings, a)
    &&& forall|j: int|
        0 <= j < strings.len() ==> exists|i: int|
            0 <= i < rewrite.pending.len() && (#[trigger] rewrite.pending[i]).1 == (
            #[trigger] strings[j]).0
    &&& after.frame == before.frame || differ_at(after.frame, rewrite.frame, rewrite.pending)
    &&& result is Err ==> after.frame == before.frame
    &&& result matches Err(errno) ==> errno == before.fault || before.set_fault == Some(errno)
    &&& after.maps == before.maps
    &&& after.format == before.format
}

/// A rewrite touches what it may from its first pending argument on.
proof fn lemma_touched(rewrite: Rewrite, tracee: Tracee)
    requires
        rewrite.width == tracee.format.width(),
        rewrite.stack_start is None || rewrite.stack_start == tracee.stack_start(),
    ensures
        ({
            let (asking, request) = rewrite.onward();
            touched(
                rewrite,
                tracee,
                tracee.carried(asking, request).0,
                tracee.carried(asking, request).1,
                tracee.read_by(asking, request),
            )
        }),
    decreases rewrite.pending.len(),
{
    let (asking, request) = rewrite.onward();
    let after = tracee.carried(asking, request).0;
    let strings = tracee.read_by(asking, request);
    if rewrite.pending.len() == 0 {
        if rewrite.changed {
            let (later, reply) = tracee.answer(request);
            assert(asking.well_formed() && asking.expects(reply));
            lemma_step(tracee, asking, request);
            let (over, done) = asking.after(reply);
            assert(later.read_by(over, done) =~= Seq::empty());
            assert(after == later);
        } else {
            assert(strings =~= Seq::empty());
        }
    } else {
        let turn = lemma_turn(rewrite, tracee);
        let (place, addr) = rewrite.pending[0];
        let first = reading(tracee, addr);
        let (next, later) = (turn.next, turn.later);
        assert(later.memory.dom() =~= tracee.memory.dom());
        let rest = if turn.failed {
            Seq::empty()
        } else {
            lemma_touched(next, later);
            later.read_by(next.onward().0, next.onward().1)
        };
        assert(strings =~= first + rest);
        assert forall|a: int|
            tracee.memory.dom().contains(a) && #[trigger] after.memory[a]
                != tracee.memory[a] implies on_free_stack(tracee, rewrite.cursor, a) || in_strings(
            strings,
            a,
        ) by {
            if later.memory[a] != tracee.memory[a] {
                assert(within(a, (turn.at as int, turn.bytes.len() as int)));
                if !on_free_stack(tracee, rewrite.cursor, a) {
                    assert(strings[0] == first[0]);
                }
            } else {
                assert(after.memory[a] != later.memory[a]);
                if !on_free_stack(later, next.cursor, a) {
                    let j = choose|j: int|
                        0 <= j < rest.len() && within(
                            a,
                            ((#[trigger] rest[j]).0 as int, (rest[j].1.len() + 1) as int),
                        );
                    assert(strings[first.len() + j] == rest[j]);
                }
            }
        }
        assert forall|j: int| 0 <= j < strings.len() implies exists|i: int|
            0 <= i < rewrite.pending.len() && (#[trigger] rewrite.pending[i]).1 == (
            #[trigger] strings[j]).0 by {
            if j < first.len() {
                assert(rewrite.pending[0].1 == strings[j].0);
            } else {
                assert(strings[j] == rest[j - first.len()]);
                let i = choose|i: int|
                    0 <= i < next.pending.len() && (#[trigger] next.pending[i]).1 == rest[j
                        - first.len()].0;
                assert(rewrite.pending[i + 1] == next.pending[i]);
            }
        }
        if after.frame != tracee.frame {
            assert forall|p: int|
                0 <= p < after.frame.slots.len() && (forall|i: int|
                    0 <= i < rewrite.pending.len() ==> (#[trigger] rewrite.pending[i]).0
                        != p) implies #[trigger] after.frame.slots[p] == rewrite.frame.slots[p] by {
                assert(rewrite.pending[0].0 != p);
                assert forall|i: int| 0 <= i < next.pending.len() implies (
                #[trigger] next.pending[i]).0 != p by {
                    assert(next.pending[i] == rewrite.pending[i + 1]);
                }
                assert(after.frame.slots[p] == next.frame.slots[p]);
                assert(next.frame.slots[p] == rewrite.frame.slots[p]);
            }
        }
    }
}

/// What a rewrite may touch, whatever the process and the binds, and whether it succeeds or fails.
///
/// Each byte that changes lies in a string that was read at a path argument, or is the byte behind
/// such a string, or lies on the stack below all that is in use there. There is memory where there
/// was before. Only registers of path arguments change, and none does if the rewrite fails. Its
/// error is then that of a write, or of fetching or setting the registers.
pub proof fn law_touches_strings_and_free_stack_only(tracee: Tracee, binds: Binds)
    ensures
        ({
            let args = rewrite::path_addresses(tracee.frame);
            let strings = tracee.strings_read(binds);
            let (after, result) = tracee.handled(binds);
            &&& after.memory.dom() == tracee.memory.dom()
            &&& forall|a: int|
                tracee.memory.dom().contains(a) && #[trigger] after.memory[a] != tracee.memory[a]
                    ==> on_free_stack(tracee, rewrite::stack_top(tracee.frame), a) || in_strings(
                    strings,
                    a,
                )
            &&& forall|j: int|
                0 <= j < strings.len() ==> exists|i: int|
                    0 <= i < args.len() && (#[trigger] args[i]).1 == (#[trigger] strings[j]).0
            &&& differ_at(after.frame, tracee.frame, args)
            &&& result is Err ==> after.frame == tracee.frame
            &&& result matches Err(errno) ==> {
                ||| errno == tracee.fault
                ||| tracee.get_fault == Some(errno)
                ||| tracee.set_fault == Some(errno)
            }
        }),
{
    if binds.len() > 0 && tracee.frame.arch != regs::Arch::Other && tracee.get_fault is None {
        let looking = lemma_handled(tracee, binds);
        lemma_touched(looking, tracee);
    } else {
        lemma_not_looked_at(tracee, binds);
    }
}

/// Whether an address is in the string of one of some arguments as it is in this process, or is
/// that of the byte behind it.
pub open spec fn in_own_strings(tracee: Tracee, args: Seq<(usize, usize)>, address: int) -> bool {
    exists|i: int|
        0 <= i < args.len() && tracee.string((#[trigger] args[i]).1) is Some && within(
            address,
            (args[i].1 as int, (tracee.string(args[i].1)->0.len() + 1) as int),
        )
}

/// Whether an address may be touched, as it looks from the process at the start.
spec fn free(origin: Tracee, args: Seq<(usize, usize)>, top: usize, address: int) -> bool {
    on_free_stack(origin, top, address) || in_own_strings(origin, args, address)
}

/// Whether a string that is read through `from` ends at `to` or before, with nothing on the way
/// that may not be touched.
spec fn walled(
    origin: Tracee,
    args: Seq<(usize, usize)>,
    top: usize,
    memory: Memory,
    from: int,
    to: int,
) -> bool {
    &&& from <= to
    &&& memory.dom().contains(to)
    &&& memory[to] == 0
    &&& forall|a: int| from <= a <= to ==> #[trigger] free(origin, args, top, a)
}

/// Whether a process differs from that at the start only where it may, and no string has grown
/// beyond that.
spec fn confined(origin: Tracee, args: Seq<(usize, usize)>, top: usize, tracee: Tracee) -> bool {
    &&& tracee.memory.dom() == origin.memory.dom()
    &&& tracee.maps == origin.maps
    &&& tracee.format == origin.format
    &&& forall|a: int|
        origin.memory.dom().contains(a) && !free(origin, args, top, a)
            ==> #[trigger] tracee.memory[a] == origin.memory[a]
    &&& forall|a: int|
        origin.memory.dom().contains(a) && origin.memory[a] == 0 && #[trigger] tracee.memory[a] != 0
            ==> exists|to: int| walled(origin, args, top, tracee.memory, a, to)
}

/// The string of an argument, as it is later, lies where it may be touched.
proof fn lemma_string_confined(
    origin: Tracee,
    args: Seq<(usize, usize)>,
    top: usize,
    tracee: Tracee,
    addr: usize,
    k: int,
)
    requires
        confined(origin, args, top, tracee),
        0 <= k < args.len(),
        args[k].1 == addr,
        origin.string(addr) is Some,
        tracee.string(addr) is Some,
    ensures
        forall|a: int|
            within(a, (addr as int, (tracee.string(addr)->0.len() + 1) as int))
                ==> #[trigger] free(origin, args, top, a),
{
    let before = origin.string(addr)->0;
    let now = tracee.string(addr)->0;
    let width = origin.format.width() as int;
    assert(width == 4 || width == 8);
    cstring::law_reader_finds_string(origin.memory, addr as int, origin.format);
    cstring::law_reader_finds_string(tracee.memory, addr as int, tracee.format);
    assert forall|a: int|
        addr <= a <= addr + before.len() implies #[trigger] free(origin, args, top, a) by {
        assert(within(a, (args[k].1 as int, (origin.string(args[k].1)->0.len() + 1) as int)));
    }
    if now.len() > before.len() {
        let end = addr + before.len();
        memory::lemma_whole_words(cstring::seen(before), width);
        assert(origin.memory.dom().contains(end));
        assert(now[before.len() as int] == tracee.memory[end]);
        let to = choose|to: int| walled(origin, args, top, tracee.memory, end, to);
        assert(walled(origin, args, top, tracee.memory, end, to));
        if to < addr + now.len() {
            assert(now[to - addr] == tracee.memory[to]);
        }
    }
}

/// What is written where it may be, with a zero byte at its end, lets no string grow beyond that.
proof fn lemma_write_confined(
    origin: Tracee,
    args: Seq<(usize, usize)>,
    top: usize,
    tracee: Tracee,
    later: Tracee,
    at: int,
    bytes: Seq<u8>,
)
    requires
        confined(origin, args, top, tracee),
        later == (Tracee { memory: memory::stored(tracee.memory, at, bytes), ..tracee }),
        forall|a: int|
            within(a, (at, bytes.len() as int)) ==> #[trigger] free(origin, args, top, a),
        bytes.len() > 0 ==> {
            &&& bytes.last() == 0
            &&& memory::mapped(tracee.memory, at, bytes.len() as int)
        },
    ensures
        confined(origin, args, top, later),
{
    assert(later.memory.dom() =~= tracee.memory.dom());
    let last = at + bytes.len() - 1;
    assert forall|a: int|
        origin.memory.dom().contains(a) && origin.memory[a] == 0 && #[trigger] later.memory[a]
            != 0 implies exists|to: int| walled(origin, args, top, later.memory, a, to) by {
        if within(a, (at, bytes.len() as int)) {
            assert(tracee.memory.dom().contains(last));
            assert(walled(origin, args, top, later.memory, a, last));
        } else {
            assert(tracee.memory[a] != 0);
            let to = choose|to: int| walled(origin, args, top, tracee.memory, a, to);
            assert(walled(origin, args, top, tracee.memory, a, to));
            if within(to, (at, bytes.len() as int)) {
                assert(tracee.memory.dom().contains(last));
                assert forall|b: int| a <= b <= last implies #[trigger] free(
                    origin,
                    args,
                    top,
                    b,
                ) by {
                    if b > to {
                        assert(within(b, (at, bytes.len() as int)));
                    }
                }
                assert(walled(origin, args, top, later.memory, a, last));
            } else {
                assert(later.memory[to] == 0);
                assert(walled(origin, args, top, later.memory, a, to));
            }
        }
    }
}

/// A rewrite touches what it may, as it looks from the process at the start, from its first
/// pending argument on.
proof fn lemma_confined(
    origin: Tracee,
    args: Seq<(usize, usize)>,
    top: usize,
    rewrite: Rewrite,
    tracee: Tracee,
)
    requires
        confined(origin, args, top, tracee),
        rewrite.width == tracee.format.width(),
        rewrite.stack_start is None || rewrite.stack_start == tracee.stack_start(),
        rewrite.cursor <= top,
        forall|i: int| 0 <= i < args.len() ==> origin.string((#[trigger] args[i]).1) is Some,
        forall|i: int|
            0 <= i < rewrite.pending.len() ==> args.contains(#[trigger] rewrite.pending[i]),
    ensures
        ({
            let after = tracee.carried(rewrite.onward().0, rewrite.onward().1).0;
            forall|a: int|
                origin.memory.dom().contains(a) && !free(origin, args, top, a)
                    ==> #[trigger] after.memory[a] == origin.memory[a]
        }),
    decreases rewrite.pending.len(),
{
    let (asking, request) = rewrite.onward();
    let after = tracee.carried(asking, request).0;
    if rewrite.pending.len() == 0 {
        if rewrite.changed {
            let (later, reply) = tracee.answer(request);
            assert(asking.well_formed() && asking.expects(reply));
            lemma_step(tracee, asking, request);
            assert(after.memory == tracee.memory);
        }
    } else {
        let turn = lemma_turn(rewrite, tracee);
        let (place, addr) = rewrite.pending[0];
        let (next, later) = (turn.next, turn.later);
        assert(args.contains(rewrite.pending[0]));
        let k = choose|k: int| 0 <= k < args.len() && args[k] == rewrite.pending[0];
        assert(origin.string(args[k].1) is Some);
        if tracee.string(addr) is Some {
            lemma_string_confined(origin, args, top, tracee, addr, k);
        }
        assert forall|a: int|
            within(a, (turn.at as int, turn.bytes.len() as int)) implies #[trigger] free(
            origin,
            args,
            top,
            a,
        ) by {
            if on_free_stack(tracee, rewrite.cursor, a) {
                assert(on_free_stack(origin, top, a));
            }
        }
        if turn.failed {
            assert(later.memory.dom() =~= tracee.memory.dom());
        } else {
            lemma_write_confined(
                origin,
                args,
                top,
                tracee,
                later,
                turn.at as int,
                turn.bytes,
            );
            assert forall|i: int| 0 <= i < next.pending.len() implies args.contains(
                #[trigger] next.pending[i],
            ) by {
                assert(next.pending[i] == rewrite.pending[i + 1]);
            }
            lemma_confined(origin, args, top, next, later);
        }
    }
}

/// Where all path arguments can be read, the bytes that change lie in their strings as these were
/// before, or are the bytes behind them, or lie on the stack below all that is in use there.
///
/// This leaves out arguments that cannot be read: one that ends where memory does may become
/// readable once another, which it runs into, has been replaced.
pub proof fn law_touches_strings_as_they_were(tracee: Tracee, binds: Binds)
    requires
        forall|i: int|
            0 <= i < rewrite::path_addresses(tracee.frame).len() ==> tracee.string(
                (#[trigger] rewrite::path_addresses(tracee.frame)[i]).1,
            ) is Some,
    ensures
        ({
            let args = rewrite::path_addresses(tracee.frame);
            let after = tracee.handled(binds).0;
            forall|a: int|
                tracee.memory.dom().contains(a) && #[trigger] after.memory[a] != tracee.memory[a]
                    ==> on_free_stack(tracee, rewrite::stack_top(tracee.frame), a)
                    || in_own_strings(tracee, args, a)
        }),
{
    let args = rewrite::path_addresses(tracee.frame);
    let top = rewrite::stack_top(tracee.frame);
    if binds.len() > 0 && tracee.frame.arch != regs::Arch::Other && tracee.get_fault is None {
        let looking = lemma_handled(tracee, binds);
        assert(confined(tracee, args, top, tracee));
        assert forall|i: int| 0 <= i < looking.pending.len() implies args.contains(
            #[trigger] looking.pending[i],
        ) by {
            assert(args[i] == looking.pending[i]);
        }
        lemma_confined(tracee, args, top, looking, tracee);
        let after = tracee.handled(binds).0;
        assert forall|a: int|
            tracee.memory.dom().contains(a) && #[trigger] after.memory[a]
                != tracee.memory[a] implies on_free_stack(tracee, top, a) || in_own_strings(
            tracee,
            args,
            a,
        ) by {
            assert(free(tracee, args, top, a));
        }
    } else {
        lemma_not_looked_at(tracee, binds);
    }
}

/// Once its system call has been rewritten, a process sees what it is to see at every place where
/// the call takes a path and the argument is not null, whatever its address: one of the arguments
/// that `law_bound_paths_served` speaks of is at that place. A null argument stays null.
pub proof fn law_every_path_argument_served(tracee: Tracee, binds: Binds, k: int)
    requires
        tracee.frame.well_formed(),
        binds.len() > 0,
        tracee.get_fault is None,
        settable(
            tracee,
            rewrite::path_addresses(tracee.frame),
            tracee.fates(
                rewrite::path_addresses(tracee.frame),
                binds,
                rewrite::stack_top(tracee.frame),
            ),
        ),
        calm(
            tracee,
            rewrite::path_addresses(tracee.frame),
            binds,
            rewrite::stack_top(tracee.frame),
        ),
        0 <= k < regs::path_places(tracee.frame.arch, tracee.frame.syscall_number()).len(),
    ensures
        ({
            let args = rewrite::path_addresses(tracee.frame);
            let fates = tracee.fates(args, binds, rewrite::stack_top(tracee.frame));
            let after = tracee.handled(binds).0;
            let place = regs::path_places(tracee.frame.arch, tracee.frame.syscall_number())[k];
            let addr = tracee.frame.arg(place as int);
            &&& addr != 0 ==> exists|i: int|
                0 <= i < args.len() && #[trigger] args[i] == (place, addr) && tracee.served(
                    after,
                    (place, addr),
                    fates[i],
                )
            &&& addr == 0 ==> after.frame.arg(place as int) == 0
        }),
{
    let args = rewrite::path_addresses(tracee.frame);
    let fates = tracee.fates(args, binds, rewrite::stack_top(tracee.frame));
    let places = regs::path_places(tracee.frame.arch, tracee.frame.syscall_number());
    let place = places[k];
    let addr = tracee.frame.arg(place as int);
    law_bound_paths_served(tracee, binds);
    rewrite::law_arguments_looked_at(tracee.frame);
    assert(args.contains((places[k], tracee.frame.arg(places[k] as int))) <==> addr != 0);
    if addr != 0 {
        let i = choose|i: int| 0 <= i < args.len() && args[i] == (place, addr);
        assert(tracee.served(tracee.handled(binds).0, args[i], fates[i]));
    } else {
        assert forall|i: int| 0 <= i < args.len() implies (#[trigger] args[i]).0 != place by {
            if args[i].0 == place {
                assert(args[i].1 == tracee.frame.arg(args[i].0 as int));
            }
        }
    }
}

/// What becomes of a path argument whose string and host path are known, where there is room for
/// the longest path on the stack.
proof fn lemma_fate(
    tracee: Tracee,
    binds: Binds,
    addr: usize,
    path: Seq<char>,
    target: Seq<char>,
    cursor: usize,
    low: int,
)
    requires
        tracee.string(addr) == Some(encode_utf8(path)),
        target == match bind::resolved(path, binds) {
            Some(found) => found,
            None => path,
        },
        encode_utf8(target).len() <= MAX_PATH,
        forall|i: int| 0 <= i < target.len() ==> #[trigger] target[i] != '\0',
        0 <= low <= cursor - 4104,
        tracee.stack_start() matches Some(start) ==> start + 8 <= low,
    ensures
        ({
            let fate = tracee.fate(addr, binds, cursor);
            let need = memory::whole_words(
                (encode_utf8(target).len() + 1) as int,
                tracee.format.width() as int,
            );
            &&& fate.readable()
            &&& encode_utf8(target).len() < need <= 4104
            &&& target == path ==> fate == Fate::Kept
            &&& target != path && encode_utf8(target).len() <= encode_utf8(path).len() ==> fate
                == (Fate::InPlace { target })
            &&& target != path && encode_utf8(target).len() > encode_utf8(path).len() ==> fate == (
            Fate::OnStack { target, at: (cursor - need) as usize })
        }),
{
    cstring::law_text_of_encoded(path);
    let width = tracee.format.width() as int;
    assert(width == 4 || width == 8);
    let len = encode_utf8(target).len() + 1;
    memory::lemma_whole_words(len as int, width);
    assert(memory::whole_words(len as int, width) <= 4104) by {
        memory::lemma_whole_words_order(len as int, 4097, width);
        if width == 4 {
            assert(memory::whole_words(4097, 4) == 4100);
        } else {
            assert(memory::whole_words(4097, 8) == 4104);
        }
    }
}

/// Whether `path` is the string at `addr`, apart from the free stack, and `target` what is to be
/// read in its place.
spec fn stands(
    tracee: Tracee,
    binds: Binds,
    addr: usize,
    path: Seq<char>,
    target: Seq<char>,
    top: usize,
) -> bool {
    let bytes = encode_utf8(path);
    &&& bytes.len() < 4096
    &&& forall|a: int|
        addr <= a < addr + bytes.len() + 8 ==> #[trigger] tracee.memory.dom().contains(a)
    &&& forall|i: int|
        0 <= i < bytes.len() ==> #[trigger] bytes[i] == tracee.memory[addr + i] && bytes[i] != 0
    &&& tracee.memory[addr + bytes.len()] == 0
    &&& addr + bytes.len() < top - 8208 || top <= addr
    &&& bind::resolved(path, binds) matches Some(found) ==> target == found
    &&& bind::resolved(path, binds) is None ==> target == path
    &&& encode_utf8(target).len() <= 4096
    &&& forall|i: int| 0 <= i < target.len() ==> #[trigger] target[i] != '\0'
}

/// Whether a stretch of memory is empty, part of the string at `addr` with the byte behind it, or
/// on the stack between two addresses.
spec fn kept_to(stretch: (int, int), addr: usize, len: int, low: int, high: int) -> bool {
    ||| stretch.1 <= 0
    ||| stretch.0 == addr && stretch.1 <= len + 1
    ||| low <= stretch.0 && stretch.0 + stretch.1 <= high
}

/// What becomes of a path argument whose string and host path are known.
proof fn lemma_stands(
    tracee: Tracee,
    binds: Binds,
    addr: usize,
    path: Seq<char>,
    target: Seq<char>,
    top: usize,
    cursor: usize,
)
    requires
        stands(tracee, binds, addr, path, target, top),
        4104 <= top - 8208 + 4104 <= cursor <= top,
        tracee.stack_start() matches Some(start) ==> start + 8 <= top - 8208,
        forall|a: int| top - 8208 <= a < top ==> #[trigger] tracee.memory.dom().contains(a),
    ensures
        ({
            let bytes = encode_utf8(path);
            let fate = tracee.fate(addr, binds, cursor);
            let below = fate.cursor_after(cursor);
            &&& tracee.string(addr) == Some(bytes)
            &&& tracee.decisive(addr) == (addr as int, (bytes.len() + 1) as int)
            &&& tracee.writable(addr, fate)
            &&& fate.readable()
            &&& cursor - 4104 <= below <= cursor
            &&& kept_to(
                tracee.overwritten(addr, fate),
                addr,
                bytes.len() as int,
                below as int,
                cursor as int,
            )
            &&& kept_to(
                tracee.settled(addr, fate),
                addr,
                bytes.len() as int,
                below as int,
                cursor as int,
            )
            &&& fate.target() == if target == path {
                None
            } else {
                Some(target)
            }
            &&& encode_utf8(target).len() <= bytes.len() ==> fate.address_after(addr) == addr
            &&& encode_utf8(target).len() > bytes.len() ==> fate.address_after(addr) == below
                && below + encode_utf8(target).len() < cursor
        }),
{
    let bytes = encode_utf8(path);
    let width = tracee.format.width() as int;
    assert(width == 4 || width == 8);
    memory::lemma_whole_words((bytes.len() + 1) as int, width);
    let room = memory::whole_words((bytes.len() + 1) as int, width);
    assert(room <= bytes.len() + 8);
    cstring::law_string_read(tracee.memory, addr as int, tracee.format, bytes, room);
    lemma_fate(tracee, binds, addr, path, target, cursor, cursor - 4104);
}

/// Arguments whose strings and host paths are known do not get in each other's way.
proof fn lemma_calm(
    tracee: Tracee,
    binds: Binds,
    args: Seq<(usize, usize)>,
    paths: spec_fn(usize) -> Seq<char>,
    targets: spec_fn(usize) -> Seq<char>,
    top: usize,
)
    requires
        args.len() <= 2,
        top >= 8208,
        tracee.stack_start() matches Some(start) ==> start + 8 <= top - 8208,
        forall|a: int| top - 8208 <= a < top ==> #[trigger] tracee.memory.dom().contains(a),
        forall|i: int|
            0 <= i < args.len() ==> stands(
                tracee,
                binds,
                (#[trigger] args[i]).1,
                paths(args[i].0),
                targets(args[i].0),
                top,
            ),
        args.len() == 2 ==> args[0].1 + encode_utf8(paths(args[0].0)).len() < args[1].1 || args[1].1
            + encode_utf8(paths(args[1].0)).len() < args[0].1,
    ensures
        calm(tracee, args, binds, top),
        forall|i: int|
            0 <= i < args.len() ==> {
                let (place, addr) = #[trigger] args[i];
                let bytes = encode_utf8(paths(place));
                let target = targets(place);
                let fate = tracee.fates(args, binds, top)[i];
                &&& tracee.string(addr) == Some(bytes)
                &&& fate.target() == if target == paths(place) {
                    None
                } else {
                    Some(target)
                }
                &&& encode_utf8(target).len() <= bytes.len() ==> fate.address_after(addr) == addr
                &&& encode_utf8(target).len() > bytes.len() ==> top - 8208 <= fate.address_after(
                    addr,
                ) && fate.address_after(addr) + encode_utf8(target).len() < top
            },
{
    let fates = tracee.fates(args, binds, top);
    lemma_fates(tracee, args, binds, top);
    if args.len() > 0 {
        reveal_with_fuel(Tracee::fates, 3);
        let (p0, a0) = args[0];
        assert(fates[0] == tracee.fate(a0, binds, top));
        assert(stands(tracee, binds, args[0].1, paths(args[0].0), targets(args[0].0), top));
        lemma_stands(tracee, binds, a0, paths(p0), targets(p0), top, top);
        if args.len() == 2 {
            let (p1, a1) = args[1];
            let below = fates[0].cursor_after(top);
            assert(args.drop_first()[0] == args[1]);
            assert(fates[1] == tracee.fate(a1, binds, below));
            assert(stands(tracee, binds, args[1].1, paths(args[1].0), targets(args[1].0), top));
            lemma_stands(tracee, binds, a1, paths(p1), targets(p1), top, below);
        }
    }
    assert forall|i: int| 0 <= i < args.len() implies tracee.writable(
        (#[trigger] args[i]).1,
        fates[i],
    ) && fates[i].readable() by {
        assert(i == 0 || i == 1);
    }
    assert(tracee.undisturbed(args, fates)) by {
        assert forall|j: int, k: int| 0 <= j < k < args.len() implies {
            &&& apart(
                tracee.overwritten((#[trigger] args[j]).1, fates[j]),
                tracee.decisive((#[trigger] args[k]).1),
            )
            &&& apart(
                tracee.settled(args[j].1, fates[j]),
                tracee.overwritten(args[k].1, fates[k]),
            )
        } by {
            assert(j == 0 && k == 1);
        }
    }
}

/// What stands at the places of a system call's paths stands at its path arguments.
proof fn lemma_all_stand(
    tracee: Tracee,
    binds: Binds,
    paths: spec_fn(usize) -> Seq<char>,
    targets: spec_fn(usize) -> Seq<char>,
    top: usize,
    places: Seq<usize>,
    args: Seq<(usize, usize)>,
)
    requires
        forall|i: int|
            0 <= i < args.len() ==> {
                &&& places.contains((#[trigger] args[i]).0)
                &&& args[i].1 == tracee.frame.arg(args[i].0 as int)
                &&& args[i].1 != 0
            },
        forall|i: int, j: int, k: int, l: int|
            0 <= i < j < args.len() && 0 <= k < places.len() && 0 <= l < places.len()
                && #[trigger] args[i].0 == #[trigger] places[k] && #[trigger] args[j].0
                == #[trigger] places[l] ==> k < l,
        forall|k: int|
            0 <= k < places.len() && tracee.frame.arg(#[trigger] places[k] as int) != 0 ==> stands(
                tracee,
                binds,
                tracee.frame.arg(places[k] as int),
                paths(places[k]),
                targets(places[k]),
                top,
            ),
        forall|k: int, l: int|
            0 <= k < l < places.len() && tracee.frame.arg(#[trigger] places[k] as int) != 0
                && tracee.frame.arg(#[trigger] places[l] as int) != 0 ==> {
                let one = tracee.frame.arg(places[k] as int);
                let other = tracee.frame.arg(places[l] as int);
                one + encode_utf8(paths(places[k])).len() < other || other + encode_utf8(
                    paths(places[l]),
                ).len() < one
            },
    ensures
        forall|i: int|
            0 <= i < args.len() ==> stands(
                tracee,
                binds,
                (#[trigger] args[i]).1,
                paths(args[i].0),
                targets(args[i].0),
                top,
            ),
        args.len() == 2 ==> args[0].1 + encode_utf8(paths(args[0].0)).len() < args[1].1 || args[1].1
            + encode_utf8(paths(args[1].0)).len() < args[0].1,
{
    assert forall|i: int| 0 <= i < args.len() implies stands(
        tracee,
        binds,
        (#[trigger] args[i]).1,
        paths(args[i].0),
        targets(args[i].0),
        top,
    ) by {
        assert(places.contains(args[i].0));
        let k = choose|k: int| 0 <= k < places.len() && places[k] == args[i].0;
        assert(tracee.frame.arg(places[k] as int) != 0);
    }
    if args.len() == 2 {
        assert(places.contains(args[0].0) && places.contains(args[1].0));
        let k = choose|k: int| 0 <= k < places.len() && places[k] == args[0].0;
        let l = choose|l: int| 0 <= l < places.len() && places[l] == args[1].0;
        assert(args[0].0 == places[k] && args[1].0 == places[l]);
        assert(k < l);
    }
}

/// There are at most two path arguments.
proof fn lemma_two_paths(frame: Frame)
    ensures
        rewrite::path_addresses(frame).len() <= 2,
{
    let places = regs::path_places(frame.arch, frame.syscall_number());
    regs::law_path_places(frame.arch, frame.syscall_number());
    reveal_with_fuel(rewrite::addresses, 3);
    if places.len() == 2 {
        assert(places.drop_last().drop_last().len() == 0);
    }
}

/// A path argument that has met its fate is read as what it is to be.
proof fn lemma_read(
    tracee: Tracee,
    after: Tracee,
    arg: (usize, usize),
    path: Seq<char>,
    target: Seq<char>,
    fate: Fate,
)
    requires
        tracee.served(after, arg, fate),
        tracee.string(arg.1) == Some(encode_utf8(path)),
        fate.target() == if target == path {
            None
        } else {
            Some(target)
        },
    ensures
        ({
            let now = after.frame.arg(arg.0 as int);
            let bytes = encode_utf8(target);
            &&& now == fate.address_after(arg.1)
            &&& forall|i: int| 0 <= i < bytes.len() ==> #[trigger] bytes[i] == after.memory[now + i]
            &&& bytes.len() < 4096 ==> after.memory[now + bytes.len()] == 0
        }),
{
    let now = after.frame.arg(arg.0 as int);
    cstring::law_reader_finds_string(after.memory, now as int, after.format);
}

/// Once its system call has been rewritten, a process reads, at every place where the call takes a
/// path and the argument is not null, whatever its address, the host path behind the path that was
/// there, or that path if no bind covers it. The argument points to it where it pointed before, if
/// it is no longer than the path, and else into the free stack. A null argument stays null, and
/// the call is the same.
///
/// `paths` and `targets` give for each place the path before and after. The process can be read
/// and written, the paths before are shorter than 4096 bytes and do not overlap each other or the
/// free stack, and the paths after have no zero byte and no more than 4096 bytes. Of the stack,
/// 8208 bytes are free, which is what two such paths can take.
pub proof fn law_host_paths_are_read_at_every_place(
    tracee: Tracee,
    binds: Binds,
    paths: spec_fn(usize) -> Seq<char>,
    targets: spec_fn(usize) -> Seq<char>,
    top: usize,
)
    requires
        tracee.frame.well_formed(),
        binds.len() > 0,
        tracee.get_fault is None,
        tracee.set_fault is None,
        tracee.frame.arch == regs::Arch::X86_64 ==> top + 128 == tracee.frame.sp as usize,
        tracee.frame.arch == regs::Arch::Aarch64 ==> top == tracee.frame.sp as usize,
        top >= 8208,
        tracee.stack_start() matches Some(start) ==> start + 8 <= top - 8208,
        forall|a: int| top - 8208 <= a < top ==> #[trigger] tracee.memory.dom().contains(a),
        ({
            let places = regs::path_places(tracee.frame.arch, tracee.frame.syscall_number());
            forall|k: int|
                0 <= k < places.len() && tracee.frame.arg(#[trigger] places[k] as int) != 0 ==> {
                    let addr = tracee.frame.arg(places[k] as int);
                    let path = paths(places[k]);
                    let bytes = encode_utf8(path);
                    let target = targets(places[k]);
                    &&& bytes.len() < 4096
                    &&& forall|a: int|
                        addr <= a < addr + bytes.len() + 8
                            ==> #[trigger] tracee.memory.dom().contains(a)
                    &&& forall|i: int|
                        0 <= i < bytes.len() ==> #[trigger] bytes[i] == tracee.memory[addr + i]
                            && bytes[i] != 0
                    &&& tracee.memory[addr + bytes.len()] == 0
                    &&& addr + bytes.len() < top - 8208 || top <= addr
                    &&& bind::resolved(path, binds) matches Some(found) ==> target == found
                    &&& bind::resolved(path, binds) is None ==> target == path
                    &&& encode_utf8(target).len() <= 4096
                    &&& forall|i: int| 0 <= i < target.len() ==> #[trigger] target[i] != '\0'
                }
        }),
        ({
            let places = regs::path_places(tracee.frame.arch, tracee.frame.syscall_number());
            forall|k: int, l: int|
                0 <= k < l < places.len() && tracee.frame.arg(#[trigger] places[k] as int) != 0
                    && tracee.frame.arg(#[trigger] places[l] as int) != 0 ==> {
                    let one = tracee.frame.arg(places[k] as int);
                    let other = tracee.frame.arg(places[l] as int);
                    one + encode_utf8(paths(places[k])).len() < other || other + encode_utf8(
                        paths(places[l]),
                    ).len() < one
                }
        }),
    ensures
        ({
            let places = regs::path_places(tracee.frame.arch, tracee.frame.syscall_number());
            let (after, result) = tracee.handled(binds);
            &&& result == Ok::<(), i32>(())
            &&& after.frame.syscall_number() == tracee.frame.syscall_number()
            &&& forall|k: int|
                0 <= k < places.len() && tracee.frame.arg(#[trigger] places[k] as int) == 0
                    ==> after.frame.arg(places[k] as int) == 0
            &&& forall|k: int|
                0 <= k < places.len() && tracee.frame.arg(#[trigger] places[k] as int) != 0 ==> {
                    let addr = tracee.frame.arg(places[k] as int);
                    let now = after.frame.arg(places[k] as int);
                    let before = encode_utf8(paths(places[k]));
                    let bytes = encode_utf8(targets(places[k]));
                    &&& forall|i: int|
                        0 <= i < bytes.len() ==> #[trigger] bytes[i] == after.memory[now + i]
                    &&& bytes.len() < 4096 ==> after.memory[now + bytes.len()] == 0
                    &&& bytes.len() <= before.len() ==> now == addr
                    &&& bytes.len() > before.len() ==> top - 8208 <= now && now + bytes.len() < top
                }
        }),
{
    let frame = tracee.frame;
    let places = regs::path_places(frame.arch, frame.syscall_number());
    let args = rewrite::path_addresses(frame);
    assert(rewrite::stack_top(frame) == top);
    rewrite::law_arguments_looked_at(frame);
    lemma_two_paths(frame);
    assert forall|k: int|
        0 <= k < places.len() && frame.arg(#[trigger] places[k] as int) != 0 implies stands(
        tracee,
        binds,
        frame.arg(places[k] as int),
        paths(places[k]),
        targets(places[k]),
        top,
    ) by {}
    lemma_all_stand(tracee, binds, paths, targets, top, places, args);
    lemma_calm(tracee, binds, args, paths, targets, top);
    law_bound_paths_served(tracee, binds);
    let fates = tracee.fates(args, binds, top);
    let after = tracee.handled(binds).0;
    assert forall|k: int|
        0 <= k < places.len() && frame.arg(#[trigger] places[k] as int)
            == 0 implies after.frame.arg(places[k] as int) == 0 by {
        law_every_path_argument_served(tracee, binds, k);
    }
    assert forall|k: int|
        0 <= k < places.len() && frame.arg(#[trigger] places[k] as int) != 0 implies {
        let addr = frame.arg(places[k] as int);
        let now = after.frame.arg(places[k] as int);
        let before = encode_utf8(paths(places[k]));
        let bytes = encode_utf8(targets(places[k]));
        &&& forall|i: int| 0 <= i < bytes.len() ==> #[trigger] bytes[i] == after.memory[now + i]
        &&& bytes.len() < 4096 ==> after.memory[now + bytes.len()] == 0
        &&& bytes.len() <= before.len() ==> now == addr
        &&& bytes.len() > before.len() ==> top - 8208 <= now && now + bytes.len() < top
    } by {
        assert(args.contains((places[k], frame.arg(places[k] as int))));
        let i = choose|i: int|
            0 <= i < args.len() && args[i] == (places[k], frame.arg(places[k] as int));
        assert(tracee.served(after, args[i], fates[i]));
        lemma_read(tracee, after, args[i], paths(args[i].0), targets(args[i].0), fates[i]);
    }
}

} // verus!
