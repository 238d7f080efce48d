//! The memory of a process, as the laws of this crate speak of it.
use vstd::prelude::*;

use crate::cstring::MAX_PATH;

verus! {

/// The bytes of a process at the addresses where it has memory.
pub type Memory = Map<int, u8>;

/// Whether there is memory at `len` addresses from `at` on.
pub open spec fn mapped(memory: Memory, at: int, len: int) -> bool {
    forall|a: int| at <= a < at + len ==> #[trigger] memory.dom().contains(a)
}

/// The `len` bytes from `at` on.
pub open spec fn bytes_at(memory: Memory, at: int, len: nat) -> Seq<u8> {
    Seq::new(len, |i: int| memory[at + i])
}

/// The memory after `bytes` have been stored from `at` on.
pub open spec fn stored(memory: Memory, at: int, bytes: Seq<u8>) -> Memory {
    Map::new(
        |a: int| memory.dom().contains(a),
        |a: int|
            if at <= a < at + bytes.len() {
                bytes[a - at]
            } else {
                memory[a]
            },
    )
}

/// Whether `bytes` is the string at `at`: what precedes the first zero byte, or the first
/// `MAX_PATH` bytes if there is none among them.
pub open spec fn string_at(memory: Memory, at: int, bytes: Seq<u8>) -> bool {
    &&& bytes.len() <= MAX_PATH
    &&& forall|i: int| 0 <= i < bytes.len() ==> #[trigger] bytes[i] == memory[at + i] && bytes[i] != 0
    &&& bytes.len() < MAX_PATH ==> memory[at + bytes.len()] == 0
}

/// A length, rounded up to whole words.
pub open spec fn whole_words(len: int, width: int) -> int
    recommends
        width > 0,
{
    (len + width - 1) / width * width
}

/// Whole words hold what they are rounded up from, with less than a word to spare.
pub proof fn lemma_whole_words(len: int, width: int)
    requires
        width == 4 || width == 8,
    ensures
        len <= whole_words(len, width) < len + width,
        whole_words(len, width) % width == 0,
{
    if width == 4 {
        assert(whole_words(len, 4) == (len + 3) / 4 * 4);
    } else {
        assert(whole_words(len, 8) == (len + 7) / 8 * 8);
    }
}

/// No other number of whole words holds a length with less than a word to spare.
pub proof fn lemma_whole_words_unique(len: int, width: int, room: int)
    requires
        width == 4 || width == 8,
        room % width == 0,
        len <= room < len + width,
    ensures
        whole_words(len, width) == room,
{
    lemma_whole_words(len, width);
    let n = whole_words(len, width);
    if width == 4 {
        assert(n % 4 == 0 && room % 4 == 0);
    } else {
        assert(n % 8 == 0 && room % 8 == 0);
    }
}

/// More bytes take no fewer words.
pub proof fn lemma_whole_words_order(a: int, b: int, width: int)
    requires
        width == 4 || width == 8,
        a <= b,
    ensures
        whole_words(a, width) <= whole_words(b, width),
{
    if width == 4 {
        assert(whole_words(a, 4) == (a + 3) / 4 * 4 && whole_words(b, 4) == (b + 3) / 4 * 4);
    } else {
        assert(whole_words(a, 8) == (a + 7) / 8 * 8 && whole_words(b, 8) == (b + 7) / 8 * 8);
    }
}

/// There is one string at an address.
pub proof fn law_string_unique(memory: Memory, at: int, a: Seq<u8>, b: Seq<u8>)
    requires
        string_at(memory, at, a),
        string_at(memory, at, b),
    ensures
        a == b,
{
    if a.len() < b.len() {
        assert(b[a.len() as int] != 0);
    }
    if b.len() < a.len() {
        assert(a[b.len() as int] != 0);
    }
    assert(a =~= b);
}

/// What was stored reads back, and the bytes around it are as before.
pub proof fn law_stored_reads_back(memory: Memory, at: int, bytes: Seq<u8>, other: int, len: nat)
    requires
        mapped(memory, at, bytes.len() as int),
        mapped(memory, other, len as int),
        other + len <= at || at + bytes.len() <= other,
    ensures
        bytes_at(stored(memory, at, bytes), at, bytes.len()) == bytes,
        bytes_at(stored(memory, at, bytes), other, len) == bytes_at(memory, other, len),
{
    assert(bytes_at(stored(memory, at, bytes), at, bytes.len()) =~= bytes);
    assert(bytes_at(stored(memory, at, bytes), other, len) =~= bytes_at(memory, other, len));
}

} // verus!
