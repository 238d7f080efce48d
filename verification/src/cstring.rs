//! Strings in the memory of a process, read word by word.
use vstd::prelude::*;
use vstd::utf8::*;

use crate::memory;
use crate::memory::Memory;
use crate::word::{WordFormat, WordSize};

verus! {

/// How many bytes of a string are read at most.
pub const MAX_PATH: usize = 4096;

/// What `String::from_utf8_lossy` makes of bytes.
pub uninterp spec fn utf8_lossy(bytes: Seq<u8>) -> Seq<char>;

/// Calls `String::from_utf8_lossy`. Its result is a function of the bytes alone, named
/// `utf8_lossy`; of bytes that are UTF-8 it is the characters that they encode. What it makes of
/// other bytes, with U+FFFD for the parts that are not UTF-8, is left to the name.
#[verifier::external_body]
fn string_from_utf8_lossy(bytes: &[u8]) -> (r: String)
    ensures
        r@ == utf8_lossy(bytes@),
        valid_utf8(bytes@) ==> r@ == decode_utf8(bytes@),
{
    String::from_utf8_lossy(bytes).into_owned()
}

/// The characters that bytes stand for: those that they encode, if they are UTF-8.
pub open spec fn text_of(bytes: Seq<u8>) -> Seq<char> {
    if valid_utf8(bytes) {
        decode_utf8(bytes)
    } else {
        utf8_lossy(bytes)
    }
}

/// Text reads back from its encoding.
pub proof fn law_text_of_encoded(text: Seq<char>)
    ensures
        text_of(encode_utf8(text)) == text,
{
    encode_utf8_valid_utf8(text);
    encode_utf8_decode_utf8(text);
}

/// The index of the first zero byte, or the length if there is none.
pub open spec fn nul_in(bytes: Seq<u8>) -> int
    decreases bytes.len(),
{
    if bytes.len() == 0 || bytes[0] == 0 {
        0
    } else {
        1 + nul_in(bytes.drop_first())
    }
}

/// How far a string has been read.
#[verifier::ext_equal]
pub struct Read {
    /// The bytes before the end of the string, as far as they are known.
    pub bytes: Seq<u8>,
    /// Whether the zero byte that ends the string has been seen.
    pub ended: bool,
}

impl Read {
    /// Before the first word.
    pub open spec fn start() -> Read {
        Read { bytes: Seq::empty(), ended: false }
    }

    /// Whether no further word is needed.
    pub open spec fn done(self) -> bool {
        self.ended || self.bytes.len() >= MAX_PATH
    }

    /// How far from the beginning of the string the next word is, or `None` if no further word is
    /// needed.
    pub open spec fn next(self) -> Option<int> {
        if self.done() {
            None
        } else {
            Some(self.bytes.len() as int)
        }
    }

    /// How many bytes may still be read.
    pub open spec fn remaining(self) -> int {
        if self.done() {
            0
        } else {
            MAX_PATH - self.bytes.len()
        }
    }

    /// What is known once the next bytes are `chunk`: all that precedes the zero byte, up to
    /// `MAX_PATH` bytes.
    pub open spec fn after(self, chunk: Seq<u8>) -> Read {
        let room = MAX_PATH - self.bytes.len();
        let nul = nul_in(chunk);
        if nul < chunk.len() && nul < room {
            Read { bytes: self.bytes + chunk.take(nul), ended: true }
        } else if chunk.len() < room {
            Read { bytes: self.bytes + chunk, ended: false }
        } else {
            Read { bytes: self.bytes + chunk.take(room), ended: false }
        }
    }
}

/// Reads a string out of a process. The caller fetches the words.
pub struct CStringReader {
    bytes: Vec<u8>,
    ended: bool,
    format: WordFormat,
}

impl View for CStringReader {
    type V = Read;

    closed spec fn view(&self) -> Read {
        Read { bytes: self.bytes@, ended: self.ended }
    }
}

impl CStringReader {
    /// The format of the words.
    pub closed spec fn format(&self) -> WordFormat {
        self.format
    }

    /// Starts at the beginning of a string.
    pub fn new(format: WordFormat) -> (r: CStringReader)
        ensures
            r@ == Read::start(),
            r.format() == format,
    {
        CStringReader { bytes: Vec::new(), ended: false, format }
    }

    /// How far from the beginning of the string the next word is to be fetched, or `None` if the
    /// string has been read.
    pub fn next_offset(&self) -> (r: Option<usize>)
        ensures
            r is None <==> self@.done(),
            r matches Some(offset) ==> offset == self@.bytes.len() && offset < MAX_PATH,
            r matches Some(offset) ==> self@.next() == Some(offset as int),
    {
        if self.ended || self.bytes.len() >= MAX_PATH {
            None
        } else {
            Some(self.bytes.len())
        }
    }

    /// Takes in the next word.
    pub fn absorb(&mut self, word: i64)
        requires
            !old(self)@.done(),
        ensures
            final(self)@ == old(self)@.after(old(self).format().encoded(word)),
            final(self).format() == old(self).format(),
    {
        let chunk = self.format.to_bytes(word);
        let ghost before = self.bytes@;
        let mut i: usize = 0;
        assert(before + chunk@.take(0) =~= before);
        assert(chunk@.skip(0) =~= chunk@);
        while i < chunk.len()
            invariant
                i <= chunk@.len(),
                before.len() + i < MAX_PATH,
                self.bytes@ == before + chunk@.take(i as int),
                self.ended == false,
                self.format == old(self).format,
                before == old(self)@.bytes,
                chunk@ == old(self).format().encoded(word),
                nul_in(chunk@) == i + nul_in(chunk@.skip(i as int)),
            decreases chunk@.len() - i,
        {
            let byte = chunk[i];
            assert(chunk@.skip(i as int)[0] == byte);
            assert(chunk@.skip(i as int).drop_first() =~= chunk@.skip(i + 1));
            if byte == 0 {
                self.ended = true;
                return;
            }
            self.bytes.push(byte);
            assert(self.bytes@ =~= before + chunk@.take(i + 1));
            i += 1;
            if self.bytes.len() >= MAX_PATH {
                proof {
                    lemma_nul_in(chunk@.skip(i as int));
                }
                return;
            }
        }
        assert(chunk@.take(chunk@.len() as int) =~= chunk@);
        assert(nul_in(chunk@.skip(i as int)) == 0);
    }

    /// The string that was read, and how many bytes it has in the process.
    pub fn finish(&self) -> (r: (String, usize))
        ensures
            r.0@ == text_of(self@.bytes),
            r.1 == self@.bytes.len(),
            valid_utf8(self@.bytes) ==> encode_utf8(r.0@) == self@.bytes && r.1 == encode_utf8(
                r.0@,
            ).len(),
    {
        proof {
            law_text_of_bytes(self@.bytes);
        }
        (string_from_utf8_lossy(self.bytes.as_slice()), self.bytes.len())
    }
}

proof fn lemma_nul_in(bytes: Seq<u8>)
    ensures
        0 <= nul_in(bytes) <= bytes.len(),
        forall|i: int| 0 <= i < nul_in(bytes) ==> bytes[i] != 0,
        nul_in(bytes) < bytes.len() ==> bytes[nul_in(bytes)] == 0,
    decreases bytes.len(),
{
    if bytes.len() > 0 && bytes[0] != 0 {
        let rest = bytes.drop_first();
        lemma_nul_in(rest);
        assert forall|i: int| 0 <= i < nul_in(bytes) implies bytes[i] != 0 by {
            if i > 0 {
                assert(rest[i - 1] == bytes[i]);
            }
        }
    }
}

/// What a reader that stands at `read` finds at `at`: it fetches word after word until it is
/// done. `None` if there is no memory at one of those words.
pub open spec fn found(read: Read, memory: Memory, at: int, format: WordFormat) -> Option<Seq<u8>>
    decreases read.remaining(),
{
    match read.next() {
        None => Some(read.bytes),
        Some(offset) => {
            let here = at + offset;
            if memory::mapped(memory, here, format.width() as int) {
                found(
                    read.after(memory::bytes_at(memory, here, format.width())),
                    memory,
                    at,
                    format,
                )
            } else {
                None
            }
        },
    }
}

/// How many bytes from its beginning make a string what it is: the string with the zero byte
/// behind it, or `MAX_PATH` bytes.
pub open spec fn seen(bytes: Seq<u8>) -> int {
    if bytes.len() < MAX_PATH {
        (bytes.len() + 1) as int
    } else {
        MAX_PATH as int
    }
}

/// How much memory is fetched to read a string: the whole words that hold the bytes that make it
/// what it is.
pub open spec fn extent(bytes: Seq<u8>, format: WordFormat) -> int {
    memory::whole_words(seen(bytes), format.width() as int)
}

/// How far a reader that stands at `read` gets before there is no memory.
pub open spec fn reached(read: Read, memory: Memory, at: int, format: WordFormat) -> int
    decreases read.remaining(),
{
    let here = at + read.bytes.len();
    if !read.done() && memory::mapped(memory, here, format.width() as int) {
        reached(read.after(memory::bytes_at(memory, here, format.width())), memory, at, format)
    } else {
        read.bytes.len() as int
    }
}

/// How many bytes from `at` on decide what a reader finds there.
pub open spec fn decisive(memory: Memory, at: int, format: WordFormat) -> int {
    match found(Read::start(), memory, at, format) {
        Some(bytes) => seen(bytes),
        None => reached(Read::start(), memory, at, format),
    }
}

/// Whether a reader has taken in whole words out of `memory` and not met the end.
spec fn underway(read: Read, memory: Memory, at: int, format: WordFormat) -> bool {
    &&& !read.ended
    &&& read.bytes.len() <= MAX_PATH
    &&& read.bytes.len() % format.width() == 0
    &&& forall|i: int|
        0 <= i < read.bytes.len() ==> #[trigger] read.bytes[i] == memory[at + i] && read.bytes[i]
            != 0
    &&& memory::mapped(memory, at, read.bytes.len() as int)
}

proof fn lemma_found(read: Read, memory: Memory, at: int, format: WordFormat)
    requires
        underway(read, memory, at, format),
    ensures
        found(read, memory, at, format) matches Some(s) ==> memory::string_at(memory, at, s)
            && memory::mapped(memory, at, extent(s, format)),
        forall|s: Seq<u8>|
            #![trigger memory::string_at(memory, at, s)]
            memory::string_at(memory, at, s) && memory::mapped(
                memory,
                at,
                extent(s, format),
            ) ==> found(read, memory, at, format) == Some(s),
    decreases MAX_PATH - read.bytes.len(),
{
    let width = format.width() as int;
    let len = read.bytes.len() as int;
    let here = at + len;
    assert(width == 4 || width == 8);
    if len >= MAX_PATH {
        assert(memory::string_at(memory, at, read.bytes));
        assert(extent(read.bytes, format) == len);
        assert forall|s: Seq<u8>| #[trigger] memory::string_at(memory, at, s) implies s
            == read.bytes by {
            memory::law_string_unique(memory, at, s, read.bytes);
        }
    } else {
        assert forall|s: Seq<u8>|
            #![trigger memory::string_at(memory, at, s)]
            memory::string_at(memory, at, s) && memory::mapped(
                memory,
                at,
                extent(s, format),
            ) implies memory::mapped(memory, here, width) by {
            if s.len() < len {
                assert(read.bytes[s.len() as int] != 0);
            }
            assert(len + width <= extent(s, format));
        }
        if memory::mapped(memory, here, width) {
            let chunk = memory::bytes_at(memory, here, format.width());
            let next = read.after(chunk);
            lemma_nul_in(chunk);
            assert forall|i: int| 0 <= i < next.bytes.len() implies #[trigger] next.bytes[i]
                == memory[at + i] && next.bytes[i] != 0 by {
                if i >= len {
                    assert(next.bytes[i] == chunk[i - len]);
                    assert(chunk[i - len] == memory[here + (i - len)]);
                } else {
                    assert(next.bytes[i] == read.bytes[i]);
                }
            }
            assert(memory::mapped(memory, at, len + width));
            if next.ended {
                assert(chunk[nul_in(chunk)] == memory[here + nul_in(chunk)]);
                assert(memory::string_at(memory, at, next.bytes));
                assert forall|s: Seq<u8>| #[trigger] memory::string_at(memory, at, s) implies s
                    == next.bytes by {
                    memory::law_string_unique(memory, at, s, next.bytes);
                }
                assert(extent(next.bytes, format) <= len + width);
                assert(found(next, memory, at, format) == Some(next.bytes));
                assert(memory::mapped(memory, at, extent(next.bytes, format)));
            } else {
                assert(next.bytes.len() == len + width);
                lemma_found(next, memory, at, format);
            }
        }
    }
}

/// A reader finds the string at an address exactly if there is memory at all the words that hold
/// it and its end.
pub proof fn law_reader_finds_string(memory: Memory, at: int, format: WordFormat)
    ensures
        found(Read::start(), memory, at, format) matches Some(s) ==> memory::string_at(
            memory,
            at,
            s,
        ) && memory::mapped(memory, at, extent(s, format)),
        forall|s: Seq<u8>|
            #![trigger memory::string_at(memory, at, s)]
            memory::string_at(memory, at, s) && memory::mapped(
                memory,
                at,
                extent(s, format),
            ) ==> found(Read::start(), memory, at, format) == Some(s),
{
    lemma_found(Read::start(), memory, at, format);
}

proof fn lemma_unreadable_kept(
    read: Read,
    memory: Memory,
    other: Memory,
    at: int,
    format: WordFormat,
)
    requires
        memory.dom() == other.dom(),
        found(read, memory, at, format) is None,
        read.bytes.len() <= MAX_PATH,
        forall|a: int|
            at <= a < at + reached(read, memory, at, format) && memory.dom().contains(a)
                ==> #[trigger] memory[a] == other[a],
    ensures
        found(read, other, at, format) is None,
        reached(read, other, at, format) == reached(read, memory, at, format),
        reached(read, memory, at, format) >= read.bytes.len(),
    decreases MAX_PATH - read.bytes.len(),
{
    let width = format.width() as int;
    assert(width == 4 || width == 8);
    let here = at + read.bytes.len();
    assert(memory::mapped(memory, here, width) == memory::mapped(other, here, width));
    if memory::mapped(memory, here, width) {
        let chunk = memory::bytes_at(memory, here, format.width());
        let next = read.after(chunk);
        lemma_nul_in(chunk);
        assert(found(next, memory, at, format) is None);
        assert(!next.done());
        assert(next.bytes.len() == read.bytes.len() + width);
        lemma_reached(next, memory, at, format);
        assert(chunk =~= memory::bytes_at(other, here, format.width())) by {
            assert forall|i: int| 0 <= i < width implies #[trigger] memory.dom().contains(here + i)
                && memory[here + i] == other[here + i] by {}
        }
        lemma_unreadable_kept(next, memory, other, at, format);
    }
}

proof fn lemma_reached(read: Read, memory: Memory, at: int, format: WordFormat)
    requires
        read.bytes.len() <= MAX_PATH,
    ensures
        reached(read, memory, at, format) >= read.bytes.len(),
    decreases read.remaining(),
{
    let width = format.width() as int;
    assert(width == 4 || width == 8);
    let here = at + read.bytes.len();
    if !read.done() && memory::mapped(memory, here, width) {
        let chunk = memory::bytes_at(memory, here, format.width());
        lemma_nul_in(chunk);
        lemma_reached(read.after(chunk), memory, at, format);
    }
}

/// What a reader finds at an address depends on no other bytes than those that decide it.
pub proof fn law_reader_depends_on_string(
    memory: Memory,
    other: Memory,
    at: int,
    format: WordFormat,
)
    requires
        memory.dom() == other.dom(),
        forall|a: int|
            at <= a < at + decisive(memory, at, format) && memory.dom().contains(a)
                ==> #[trigger] memory[a] == other[a],
    ensures
        found(Read::start(), other, at, format) == found(Read::start(), memory, at, format),
        decisive(other, at, format) == decisive(memory, at, format),
{
    match found(Read::start(), memory, at, format) {
        Some(bytes) => {
            law_reader_finds_string(memory, at, format);
            law_reader_finds_string(other, at, format);
            assert(memory::mapped(other, at, extent(bytes, format)));
            memory::lemma_whole_words(seen(bytes), format.width() as int);
            assert(memory::string_at(other, at, bytes)) by {
                assert forall|i: int| 0 <= i < bytes.len() implies #[trigger] bytes[i] == other[at
                    + i] && bytes[i] != 0 by {
                    assert(memory.dom().contains(at + i));
                    assert(memory[at + i] == other[at + i]);
                }
                if bytes.len() < MAX_PATH {
                    assert(memory.dom().contains(at + bytes.len()));
                    assert(memory[at + bytes.len()] == other[at + bytes.len()]);
                }
            }
        },
        None => {
            lemma_unreadable_kept(Read::start(), memory, other, at, format);
        },
    }
}

/// A reader finds `bytes` at an address exactly if they are what stands there before the first
/// zero byte, or the first 4096 bytes where none is zero, and there is memory at all the words
/// that hold them, and the zero byte if it counts. Those words hold `room` bytes.
pub proof fn law_string_read(
    memory: Memory,
    at: int,
    format: WordFormat,
    bytes: Seq<u8>,
    room: int,
)
    requires
        ({
            let width: int = if format.size == WordSize::Four {
                4
            } else {
                8
            };
            let needed: int = if bytes.len() < 4096 {
                (bytes.len() + 1) as int
            } else {
                4096
            };
            room % width == 0 && needed <= room < needed + width
        }),
    ensures
        found(Read::start(), memory, at, format) == Some(bytes) <==> {
            &&& bytes.len() <= 4096
            &&& forall|i: int|
                0 <= i < bytes.len() ==> #[trigger] bytes[i] == memory[at + i] && bytes[i] != 0
            &&& bytes.len() < 4096 ==> memory[at + bytes.len()] == 0
            &&& forall|a: int| at <= a < at + room ==> #[trigger] memory.dom().contains(a)
        },
{
    law_reader_finds_string(memory, at, format);
    let width = format.width() as int;
    memory::lemma_whole_words_unique(seen(bytes), width, room);
    assert(memory::string_at(memory, at, bytes) && memory::mapped(memory, at, room) ==> found(
        Read::start(),
        memory,
        at,
        format,
    ) == Some(bytes));
}

/// A word adds to a string its bytes before the first zero byte, up to 4096 in all, and the string
/// ends at that zero byte if it comes before. A reader starts with nothing, and goes on until the
/// string has ended or has 4096 bytes, always with the word behind the bytes it knows.
pub proof fn law_word_read(read: Read, chunk: Seq<u8>)
    requires
        read.bytes.len() <= 4096,
    ensures
        Read::start().bytes.len() == 0 && !Read::start().ended,
        read.done() <==> read.ended || read.bytes.len() == 4096,
        read.next() == if read.ended || read.bytes.len() == 4096 {
            None
        } else {
            Some(read.bytes.len() as int)
        },
        ({
            let after = read.after(chunk);
            let n = after.bytes.len() - read.bytes.len();
            &&& 0 <= n <= chunk.len()
            &&& after.bytes == read.bytes + chunk.take(n)
            &&& after.bytes.len() <= 4096
            &&& forall|i: int| 0 <= i < n ==> #[trigger] chunk[i] != 0
            &&& after.ended ==> n < chunk.len() && chunk[n] == 0 && after.bytes.len() < 4096
            &&& !after.ended ==> n == chunk.len() || after.bytes.len() == 4096
        }),
{
    lemma_nul_in(chunk);
    assert(chunk.take(chunk.len() as int) =~= chunk);
}

/// Bytes that are UTF-8 stand for the one text that they encode. Of other bytes it is the text
/// that the conversion with loss makes of them.
pub proof fn law_text_of_bytes(bytes: Seq<u8>)
    ensures
        valid_utf8(bytes) ==> encode_utf8(text_of(bytes)) == bytes,
        !valid_utf8(bytes) ==> text_of(bytes) == utf8_lossy(bytes),
{
    if valid_utf8(bytes) {
        decode_utf8_encode_utf8(bytes);
    }
}

} // verus!
