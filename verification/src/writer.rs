//! Bytes in the memory of a process, written word by word.
use vstd::prelude::*;

use crate::memory;
use crate::memory::Memory;
use crate::word;
use crate::word::{WordFormat, WordSize};

verus! {

/// What has to be done next to write some bytes.
#[derive(Clone, Copy, Debug, PartialEq, Eq, Structural)]
pub enum WriteStep {
    /// Store `word` at this distance from the first byte.
    Store { offset: usize, word: i64 },
    /// The bytes end within the word at this distance. Fetch it, merge the bytes into it, and
    /// store it.
    Merge { offset: usize },
    /// All has been written.
    Done,
}

/// How far some bytes have been written.
#[verifier::ext_equal]
pub struct Write {
    pub payload: Seq<u8>,
    /// How many of them have been written.
    pub offset: int,
    pub format: WordFormat,
}

impl Write {
    /// Before the first word.
    pub open spec fn start(payload: Seq<u8>, format: WordFormat) -> Write {
        Write { payload, offset: 0, format }
    }

    /// Whether all has been written.
    pub open spec fn done(self) -> bool {
        self.offset >= self.payload.len()
    }

    /// How many bytes go into the next word.
    pub open spec fn chunk_len(self) -> int {
        if self.payload.len() - self.offset < self.format.width() {
            self.payload.len() - self.offset
        } else {
            self.format.width() as int
        }
    }

    /// The bytes that go into the next word.
    pub open spec fn chunk(self) -> Seq<u8> {
        self.payload.subrange(self.offset, self.offset + self.chunk_len())
    }

    /// The next word, where `existing` is the word in its place: the next bytes, and behind them
    /// those of `existing`.
    pub open spec fn merged(self, existing: i64) -> i64 {
        self.format.decoded(self.chunk() + self.format.encoded(existing).skip(self.chunk_len()))
    }

    /// After the next word.
    pub open spec fn advanced(self) -> Write {
        Write { offset: self.offset + self.chunk_len(), ..self }
    }

    /// What is to be done next.
    pub open spec fn step(self) -> WriteStep {
        if self.done() {
            WriteStep::Done
        } else if self.chunk_len() < self.format.width() {
            WriteStep::Merge { offset: self.offset as usize }
        } else {
            WriteStep::Store {
                offset: self.offset as usize,
                word: self.format.decoded(self.chunk()),
            }
        }
    }
}

/// Writes bytes into a process. The caller fetches and stores the words.
pub struct WordWriter {
    payload: Vec<u8>,
    offset: usize,
    format: WordFormat,
}

impl View for WordWriter {
    type V = Write;

    closed spec fn view(&self) -> Write {
        Write { payload: self.payload@, offset: self.offset as int, format: self.format }
    }
}

impl WordWriter {
    #[verifier::type_invariant]
    spec fn in_range(self) -> bool {
        self.offset <= self.payload@.len()
    }

    /// Starts with the first byte.
    pub fn new(payload: Vec<u8>, format: WordFormat) -> (r: WordWriter)
        ensures
            r@ == Write::start(payload@, format),
    {
        WordWriter { payload, offset: 0, format }
    }

    /// The bytes of the next word, with room for those of the word in its place.
    fn chunk(&self) -> (r: Vec<u8>)
        requires
            !self@.done(),
        ensures
            r@ == self@.chunk(),
            r@.len() == self@.chunk_len(),
    {
        let width = self.format.word_size();
        let rest: usize = self.payload.len() - self.offset;
        let len: usize = if rest < width {
            rest
        } else {
            width
        };
        let mut out: Vec<u8> = Vec::with_capacity(width);
        let mut i: usize = 0;
        while i < len
            invariant
                i <= len,
                self.offset + len <= self.payload.len(),
                out@ == self.payload@.subrange(self.offset as int, self.offset + i),
            decreases len - i,
        {
            out.push(self.payload[self.offset + i]);
            i += 1;
        }
        out
    }

    /// What is to be done next.
    pub fn next_step(&self) -> (r: WriteStep)
        ensures
            r == self@.step(),
            r is Done <==> self@.offset >= self@.payload.len(),
            r matches WriteStep::Store { offset, word } ==> offset == self@.offset,
            r matches WriteStep::Merge { offset } ==> offset == self@.offset,
    {
        proof {
            use_type_invariant(self);
        }
        if self.offset >= self.payload.len() {
            return WriteStep::Done;
        }
        let chunk = self.chunk();
        if chunk.len() < self.format.word_size() {
            WriteStep::Merge { offset: self.offset }
        } else {
            WriteStep::Store { offset: self.offset, word: self.format.from_bytes(chunk.as_slice()) }
        }
    }

    /// The next word, where `existing` is the word in its place.
    pub fn merge(&self, existing: i64) -> (r: i64)
        requires
            !self@.done(),
        ensures
            r == self@.merged(existing),
    {
        let mut bytes = self.chunk();
        let below = self.format.to_bytes(existing);
        let ghost chunk = bytes@;
        let mut i: usize = bytes.len();
        while i < below.len()
            invariant
                chunk.len() <= i <= below@.len(),
                below@.len() == self.format.width(),
                bytes@ == chunk + below@.subrange(chunk.len() as int, i as int),
            decreases below@.len() - i,
        {
            bytes.push(below[i]);
            i += 1;
            assert(bytes@ =~= chunk + below@.subrange(chunk.len() as int, i as int));
        }
        assert(below@.subrange(chunk.len() as int, i as int) =~= below@.skip(chunk.len() as int));
        self.format.from_bytes(bytes.as_slice())
    }

    /// Goes on behind the next word, once it has been stored.
    pub fn advance(&mut self)
        requires
            !old(self)@.done(),
        ensures
            final(self)@ == old(self)@.advanced(),
    {
        let width = self.format.word_size();
        if self.payload.len() - self.offset < width {
            self.offset = self.payload.len();
        } else {
            self.offset = self.offset + width;
        }
    }
}

/// The memory once a writer that stands at `write` is done, for bytes that go to `at`, and whether
/// all has been written: it stops at the first word where there is no memory, and the words before
/// that one stay written.
pub open spec fn written(write: Write, memory: Memory, at: int) -> (Memory, bool)
    decreases write.payload.len() - write.offset,
{
    let here = at + write.offset;
    if write.done() {
        (memory, true)
    } else if !memory::mapped(memory, here, write.format.width() as int) {
        (memory, false)
    } else {
        let existing = write.format.decoded(
            memory::bytes_at(memory, here, write.format.width()),
        );
        let word = match write.step() {
            WriteStep::Store { word, .. } => word,
            _ => write.merged(existing),
        };
        written(
            write.advanced(),
            memory::stored(memory, here, write.format.encoded(word)),
            at,
        )
    }
}

/// How many bytes a writer that stands at `write` has written in the end: all, or those before the
/// first word where there is no memory.
pub open spec fn fitting(write: Write, memory: Memory, at: int) -> int
    decreases write.payload.len() - write.offset,
{
    if write.done() {
        write.payload.len() as int
    } else if !memory::mapped(memory, at + write.offset, write.format.width() as int) {
        write.offset
    } else {
        fitting(write.advanced(), memory, at)
    }
}

/// How far a writer gets depends on where there is memory, not on what is in it.
proof fn lemma_fitting(write: Write, memory: Memory, other: Memory, at: int)
    requires
        memory.dom() == other.dom(),
        0 <= write.offset <= write.payload.len(),
        write.offset % (write.format.width() as int) == 0 || write.done(),
        memory::mapped(memory, at, write.offset),
    ensures
        fitting(write, memory, at) == fitting(write, other, at),
        write.offset <= fitting(write, memory, at) <= write.payload.len(),
        memory::mapped(memory, at, fitting(write, memory, at)),
        fitting(write, memory, at) < write.payload.len() ==> {
            let n = fitting(write, memory, at);
            &&& n % (write.format.width() as int) == 0
            &&& !memory::mapped(memory, at + n, write.format.width() as int)
        },
        fitting(write, memory, at) == write.payload.len() && !write.done() ==> memory::mapped(
            memory,
            at,
            memory::whole_words(write.payload.len() as int, write.format.width() as int),
        ),
    decreases write.payload.len() - write.offset,
{
    let width = write.format.width() as int;
    assert(width == 4 || width == 8);
    let here = at + write.offset;
    assert(memory::mapped(memory, here, width) == memory::mapped(other, here, width));
    if !write.done() && memory::mapped(memory, here, width) {
        let next = write.advanced();
        assert(memory::mapped(memory, at, write.offset + width));
        lemma_fitting(next, memory, other, at);
        if next.done() {
            assert(memory::whole_words(write.payload.len() as int, width) == write.offset + width)
                by {
                memory::lemma_whole_words(write.payload.len() as int, width);
            }
        }
    }
}

proof fn lemma_written(write: Write, memory: Memory, at: int)
    requires
        0 <= write.offset <= write.payload.len(),
        write.offset % (write.format.width() as int) == 0 || write.done(),
        memory::mapped(memory, at, write.offset),
    ensures
        written(write, memory, at) == (
            memory::stored(
                memory,
                at + write.offset,
                write.payload.subrange(write.offset, fitting(write, memory, at)),
            ),
            fitting(write, memory, at) == write.payload.len(),
        ),
    decreases write.payload.len() - write.offset,
{
    let width = write.format.width() as int;
    assert(width == 4 || width == 8);
    let here = at + write.offset;
    lemma_fitting(write, memory, memory, at);
    let end = fitting(write, memory, at);
    let rest = write.payload.subrange(write.offset, end);
    if write.done() || !memory::mapped(memory, here, width) {
        assert(memory::stored(memory, here, rest) =~= memory);
    } else {
        let held = memory::bytes_at(memory, here, write.format.width());
        let existing = write.format.decoded(held);
        let word = match write.step() {
            WriteStep::Store { word, .. } => word,
            _ => write.merged(existing),
        };
        let chunk = write.chunk();
        write.format.law_encode_decoded(held);
        let bytes = chunk + held.skip(write.chunk_len());
        assert(chunk.len() == width ==> bytes =~= chunk);
        write.format.law_encode_decoded(bytes);
        assert(write.format.encoded(word) == bytes);
        let next = memory::stored(memory, here, bytes);
        assert(next =~= memory::stored(memory, here, chunk)) by {
            assert forall|a: int| #[trigger] next.dom().contains(a) implies next[a]
                == memory::stored(memory, here, chunk)[a] by {
                if here + chunk.len() <= a < here + width {
                    assert(bytes[a - here] == held[a - here]);
                }
            }
        }
        assert(next.dom() =~= memory.dom());
        assert(memory::mapped(next, at, write.advanced().offset)) by {
            assert(memory::mapped(memory, at, write.offset + width));
        }
        lemma_fitting(write.advanced(), next, memory, at);
        lemma_written(write.advanced(), next, at);
        let after = write.payload.subrange(write.advanced().offset, end);
        assert(memory::stored(next, here + chunk.len(), after) =~= memory::stored(
            memory,
            here,
            rest,
        )) by {
            assert(rest =~= chunk + after);
        }
    }
}

/// A writer stores the bytes before the first word where there is no memory, and leaves all other
/// memory as it was. It stores them all exactly if there is memory at all the words that they
/// take.
pub proof fn law_writer_stops(payload: Seq<u8>, memory: Memory, at: int, format: WordFormat)
    ensures
        ({
            let write = Write::start(payload, format);
            let width = format.width() as int;
            let n = fitting(write, memory, at);
            let (after, all) = written(write, memory, at);
            &&& 0 <= n <= payload.len()
            &&& after == memory::stored(memory, at, payload.take(n))
            &&& memory::mapped(memory, at, n)
            &&& all <==> n == payload.len()
            &&& all <==> memory::mapped(
                memory,
                at,
                memory::whole_words(payload.len() as int, width),
            )
            &&& !all ==> n % width == 0 && !memory::mapped(memory, at + n, width)
        }),
{
    let write = Write::start(payload, format);
    let width = format.width() as int;
    assert(width == 4 || width == 8);
    lemma_fitting(write, memory, memory, at);
    lemma_written(write, memory, at);
    let n = fitting(write, memory, at);
    memory::lemma_whole_words(payload.len() as int, width);
    if n < payload.len() && memory::mapped(
        memory,
        at,
        memory::whole_words(payload.len() as int, width),
    ) {
        assert(n + width <= memory::whole_words(payload.len() as int, width));
        assert(memory::mapped(memory, at + n, width));
    }
}

/// A writer stores its bytes and leaves all other memory as it was, if there is memory at all the
/// words that it touches.
pub proof fn law_writer_stores(payload: Seq<u8>, memory: Memory, at: int, format: WordFormat)
    requires
        memory::mapped(
            memory,
            at,
            memory::whole_words(payload.len() as int, format.width() as int),
        ),
    ensures
        written(Write::start(payload, format), memory, at) == (
            memory::stored(memory, at, payload),
            true,
        ),
{
    law_writer_stops(payload, memory, at, format);
    assert(payload.take(payload.len() as int) =~= payload);
}

/// A writer starts with the first of its bytes, and each step is at the place of its own word, as
/// many bytes in as have been written. With a whole word left it is to store those bytes there.
/// With less, it is to fetch the word there, of which the bytes behind the last one stay. The next
/// step is behind the bytes of this one, and there is none once all have been written.
pub proof fn law_step_is_at_its_word(write: Write, existing: i64)
    requires
        0 <= write.offset <= usize::MAX,
    ensures
        Write::start(write.payload, write.format) == (Write { offset: 0, ..write }),
        ({
            let n = write.offset;
            let len = write.payload.len() as int;
            let width: int = if write.format.size == WordSize::Four {
                4
            } else {
                8
            };
            &&& write.done() <==> n >= len
            &&& n >= len <==> write.step() is Done
            &&& n + width <= len ==> {
                &&& write.step() matches WriteStep::Store { offset, word }
                &&& offset == n
                &&& write.format.encoded(word) == write.payload.subrange(n, n + width)
                &&& write.advanced() == (Write { offset: n + width, ..write })
            }
            &&& n < len < n + width ==> {
                let merged = write.format.encoded(write.merged(existing));
                &&& write.step() matches WriteStep::Merge { offset }
                &&& offset == n
                &&& merged.len() == width
                &&& forall|i: int| 0 <= i < len - n ==> #[trigger] merged[i] == write.payload[n + i]
                &&& forall|i: int|
                    len - n <= i < width ==> #[trigger] merged[i] == write.format.encoded(
                        existing,
                    )[i]
                &&& write.advanced() == (Write { offset: len, ..write })
            }
        }),
{
    let n = write.offset;
    let len = write.payload.len() as int;
    let width = write.format.width() as int;
    if n + width <= len {
        write.format.law_encode_decoded(write.payload.subrange(n, n + width));
    } else if n < len {
        let bytes = write.chunk() + write.format.encoded(existing).skip(write.chunk_len());
        assert(write.format.encoded(existing).len() == width) by {
            word::law_bytes_of_word(write.format, existing);
        }
        write.format.law_encode_decoded(bytes);
    }
}

/// The memory once the steps of a writer that stands at `write` have been done one by one, each at
/// the distance from `at` that the step itself names, and whether all of them could be done.
pub open spec fn performed(write: Write, memory: Memory, at: int) -> (Memory, bool)
    decreases write.payload.len() - write.offset,
{
    let width = write.format.width();
    match write.step() {
        WriteStep::Done => (memory, true),
        WriteStep::Store { offset, word } => if memory::mapped(memory, at + offset, width as int) {
            performed(
                write.advanced(),
                memory::stored(memory, at + offset, write.format.encoded(word)),
                at,
            )
        } else {
            (memory, false)
        },
        WriteStep::Merge { offset } => if memory::mapped(memory, at + offset, width as int) {
            let existing = write.format.decoded(memory::bytes_at(memory, at + offset, width));
            performed(
                write.advanced(),
                memory::stored(memory, at + offset, write.format.encoded(write.merged(existing))),
                at,
            )
        } else {
            (memory, false)
        },
    }
}

proof fn lemma_performed(write: Write, memory: Memory, at: int)
    requires
        0 <= write.offset,
        write.payload.len() <= usize::MAX,
    ensures
        performed(write, memory, at) == written(write, memory, at),
    decreases write.payload.len() - write.offset,
{
    if !write.done() {
        law_step_is_at_its_word(write, 0);
        let here = at + write.offset;
        let existing = write.format.decoded(memory::bytes_at(memory, here, write.format.width()));
        let word = match write.step() {
            WriteStep::Store { word, .. } => word,
            _ => write.merged(existing),
        };
        lemma_performed(
            write.advanced(),
            memory::stored(memory, here, write.format.encoded(word)),
            at,
        );
    }
}

/// Bytes have been written once every word that a writer hands out has been stored at the distance
/// that its step names. This is all that changes memory, or tells that it is not there.
pub proof fn law_steps_make_the_write(payload: Seq<u8>, memory: Memory, at: int, format: WordFormat)
    requires
        payload.len() <= usize::MAX,
    ensures
        performed(Write::start(payload, format), memory, at) == written(
            Write::start(payload, format),
            memory,
            at,
        ),
{
    lemma_performed(Write::start(payload, format), memory, at);
}

/// Where there is memory at all the words that some bytes take, the steps of a writer put each
/// byte at its own address and change no other.
pub proof fn law_bytes_go_to_their_addresses(
    payload: Seq<u8>,
    memory: Memory,
    at: int,
    format: WordFormat,
    room: int,
)
    requires
        payload.len() <= usize::MAX,
        payload.len() <= room,
        room % (if format.size == WordSize::Four {
            4int
        } else {
            8int
        }) == 0,
        forall|a: int| at <= a < at + room ==> #[trigger] memory.dom().contains(a),
    ensures
        ({
            let (after, all) = performed(Write::start(payload, format), memory, at);
            &&& all
            &&& after.dom() == memory.dom()
            &&& forall|i: int| 0 <= i < payload.len() ==> after[at + i] == #[trigger] payload[i]
            &&& forall|a: int|
                memory.dom().contains(a) && !(at <= a < at + payload.len()) ==> #[trigger] after[a]
                    == memory[a]
        }),
{
    let width = format.width() as int;
    memory::lemma_whole_words(payload.len() as int, width);
    let n = memory::whole_words(payload.len() as int, width);
    assert(n <= room) by {
        if width == 4 {
            assert(n < payload.len() + 4 && n % 4 == 0 && room % 4 == 0);
        } else {
            assert(n < payload.len() + 8 && n % 8 == 0 && room % 8 == 0);
        }
    }
    law_writer_stores(payload, memory, at, format);
    law_steps_make_the_write(payload, memory, at, format);
    let after = memory::stored(memory, at, payload);
    assert(after.dom() =~= memory.dom());
    assert forall|i: int| 0 <= i < payload.len() implies after[at + i] == #[trigger] payload[i] by {
        assert(memory.dom().contains(at + i));
    }
}

} // verus!
