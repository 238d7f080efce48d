//! Machine words as the bytes they hold in memory.
//!
//! A traced process is read and written one word at a time, a word being a C `long`.
use vstd::prelude::*;

verus! {

/// How many bytes a word has.
#[derive(Clone, Copy, Debug, PartialEq, Eq, Structural)]
pub enum WordSize {
    Four,
    Eight,
}

/// Which byte of a word comes first in memory.
#[derive(Clone, Copy, Debug, PartialEq, Eq, Structural)]
pub enum ByteOrder {
    /// The least significant byte first.
    Little,
    /// The most significant byte first.
    Big,
}

/// The shape of a machine's words.
#[derive(Clone, Copy, Debug, PartialEq, Eq, Structural)]
pub struct WordFormat {
    pub size: WordSize,
    pub order: ByteOrder,
}

/// Byte `i` of a number, counted from the least significant one.
pub open spec fn byte_of(number: u64, i: int) -> u8 {
    if i == 0 {
        (number & 0xff) as u8
    } else if i == 1 {
        ((number >> 8) & 0xff) as u8
    } else if i == 2 {
        ((number >> 16) & 0xff) as u8
    } else if i == 3 {
        ((number >> 24) & 0xff) as u8
    } else if i == 4 {
        ((number >> 32) & 0xff) as u8
    } else if i == 5 {
        ((number >> 40) & 0xff) as u8
    } else if i == 6 {
        ((number >> 48) & 0xff) as u8
    } else {
        ((number >> 56) & 0xff) as u8
    }
}

/// The number with these eight bytes, the least significant one first.
pub open spec fn number_of(b: Seq<u8>) -> u64 {
    (b[0] as u64) | ((b[1] as u64) << 8) | ((b[2] as u64) << 16) | ((b[3] as u64) << 24) | ((
    b[4] as u64) << 32) | ((b[5] as u64) << 40) | ((b[6] as u64) << 48) | ((b[7] as u64) << 56)
}

/// The number with these four bytes, the least significant one first.
pub open spec fn half_number_of(b: Seq<u8>) -> u32 {
    (b[0] as u32) | ((b[1] as u32) << 8) | ((b[2] as u32) << 16) | ((b[3] as u32) << 24)
}

impl WordFormat {
    /// How many bytes a word has.
    pub open spec fn width(self) -> nat {
        match self.size {
            WordSize::Four => 4,
            WordSize::Eight => 8,
        }
    }

    /// Bytes in memory order, put with the least significant one first, or the reverse.
    pub open spec fn arranged(self, bytes: Seq<u8>) -> Seq<u8> {
        match self.order {
            ByteOrder::Little => bytes,
            ByteOrder::Big => bytes.reverse(),
        }
    }

    /// The bytes of `word` in memory. Of a word of four bytes the upper half of `word` plays no
    /// part.
    pub open spec fn encoded(self, word: i64) -> Seq<u8> {
        self.arranged(Seq::new(self.width(), |i: int| byte_of(word as u64, i)))
    }

    /// The word with these bytes in memory.
    pub open spec fn decoded(self, bytes: Seq<u8>) -> i64 {
        match self.size {
            WordSize::Four => (half_number_of(self.arranged(bytes)) as i32) as i64,
            WordSize::Eight => number_of(self.arranged(bytes)) as i64,
        }
    }

    /// Whether `word` is the value of some word of this format.
    pub open spec fn holds(self, word: i64) -> bool {
        match self.size {
            WordSize::Four => i32::MIN <= word <= i32::MAX,
            WordSize::Eight => true,
        }
    }

    /// A word is what its bytes decode to.
    pub proof fn law_decode_encoded(self, word: i64)
        requires
            self.holds(word),
        ensures
            self.encoded(word).len() == self.width(),
            self.decoded(self.encoded(word)) == word,
    {
        let plain = Seq::new(self.width(), |i: int| byte_of(word as u64, i));
        assert(self.arranged(self.encoded(word)) =~= plain);
        match self.size {
            WordSize::Four => {
                assert({
                    let n = word as u64;
                    let b0 = (n & 0xff) as u8;
                    let b1 = ((n >> 8) & 0xff) as u8;
                    let b2 = ((n >> 16) & 0xff) as u8;
                    let b3 = ((n >> 24) & 0xff) as u8;
                    (((b0 as u32) | ((b1 as u32) << 8) | ((b2 as u32) << 16) | ((b3 as u32) << 24))
                        as i32) as i64 == word
                }) by (bit_vector)
                    requires
                        -0x8000_0000 <= word <= 0x7fff_ffff,
                ;
            },
            WordSize::Eight => {
                assert({
                    let n = word as u64;
                    let b0 = (n & 0xff) as u8;
                    let b1 = ((n >> 8) & 0xff) as u8;
                    let b2 = ((n >> 16) & 0xff) as u8;
                    let b3 = ((n >> 24) & 0xff) as u8;
                    let b4 = ((n >> 32) & 0xff) as u8;
                    let b5 = ((n >> 40) & 0xff) as u8;
                    let b6 = ((n >> 48) & 0xff) as u8;
                    let b7 = ((n >> 56) & 0xff) as u8;
                    ((b0 as u64) | ((b1 as u64) << 8) | ((b2 as u64) << 16) | ((b3 as u64) << 24)
                        | ((b4 as u64) << 32) | ((b5 as u64) << 40) | ((b6 as u64) << 48) | ((
                    b7 as u64) << 56)) as i64 == word
                }) by (bit_vector);
            },
        }
    }

    /// Bytes are what the word that they decode to encodes to.
    pub proof fn law_encode_decoded(self, bytes: Seq<u8>)
        requires
            bytes.len() == self.width(),
        ensures
            self.holds(self.decoded(bytes)),
            self.encoded(self.decoded(bytes)) == bytes,
    {
        let b = self.arranged(bytes);
        let word = self.decoded(bytes);
        let plain = Seq::new(self.width(), |i: int| byte_of(word as u64, i));
        let (b0, b1, b2, b3) = (b[0], b[1], b[2], b[3]);
        match self.size {
            WordSize::Four => {
                assert({
                    let n = ((((b0 as u32) | ((b1 as u32) << 8) | ((b2 as u32) << 16) | ((b3 as u32)
                        << 24)) as i32) as i64) as u64;
                    &&& b0 == (n & 0xff) as u8
                    &&& b1 == ((n >> 8) & 0xff) as u8
                    &&& b2 == ((n >> 16) & 0xff) as u8
                    &&& b3 == ((n >> 24) & 0xff) as u8
                }) by (bit_vector);
            },
            WordSize::Eight => {
                let (b4, b5, b6, b7) = (b[4], b[5], b[6], b[7]);
                assert({
                    let n = (((b0 as u64) | ((b1 as u64) << 8) | ((b2 as u64) << 16) | ((b3 as u64)
                        << 24) | ((b4 as u64) << 32) | ((b5 as u64) << 40) | ((b6 as u64) << 48) | (
                    (b7 as u64) << 56)) as i64) as u64;
                    &&& b0 == (n & 0xff) as u8
                    &&& b1 == ((n >> 8) & 0xff) as u8
                    &&& b2 == ((n >> 16) & 0xff) as u8
                    &&& b3 == ((n >> 24) & 0xff) as u8
                    &&& b4 == ((n >> 32) & 0xff) as u8
                    &&& b5 == ((n >> 40) & 0xff) as u8
                    &&& b6 == ((n >> 48) & 0xff) as u8
                    &&& b7 == ((n >> 56) & 0xff) as u8
                }) by (bit_vector);
            },
        }
        assert(plain =~= b);
        assert(self.arranged(b) =~= bytes);
    }

    /// How many bytes a word has.
    pub fn word_size(&self) -> (r: usize)
        ensures
            r == self.width(),
    {
        match self.size {
            WordSize::Four => 4,
            WordSize::Eight => 8,
        }
    }

    /// The bytes of `word` in memory.
    pub fn to_bytes(&self, word: i64) -> (r: Vec<u8>)
        ensures
            r@ == self.encoded(word),
    {
        let n = word as u64;
        let mut low: Vec<u8> = vec![
            (n & 0xff) as u8,
            ((n >> 8) & 0xff) as u8,
            ((n >> 16) & 0xff) as u8,
            ((n >> 24) & 0xff) as u8,
        ];
        match self.size {
            WordSize::Four => {},
            WordSize::Eight => {
                low.push(((n >> 32) & 0xff) as u8);
                low.push(((n >> 40) & 0xff) as u8);
                low.push(((n >> 48) & 0xff) as u8);
                low.push(((n >> 56) & 0xff) as u8);
            },
        }
        let ghost plain = Seq::new(self.width(), |i: int| byte_of(word as u64, i));
        assert(low@ =~= plain);
        match self.order {
            ByteOrder::Little => low,
            ByteOrder::Big => {
                let mut high: Vec<u8> = Vec::new();
                let mut i: usize = low.len();
                while i > 0
                    invariant
                        i <= low@.len(),
                        high@.len() == low@.len() - i,
                        forall|j: int|
                            0 <= j < high@.len() ==> high@[j] == low@[low@.len() - 1 - j],
                    decreases i,
                {
                    i -= 1;
                    high.push(low[i]);
                }
                assert(high@ =~= low@.reverse());
                high
            },
        }
    }

    /// The word with these bytes in memory.
    pub fn from_bytes(&self, bytes: &[u8]) -> (r: i64)
        requires
            bytes@.len() == self.width(),
        ensures
            r == self.decoded(bytes@),
    {
        match (self.size, self.order) {
            (WordSize::Four, ByteOrder::Little) => {
                let n = (bytes[0] as u32) | ((bytes[1] as u32) << 8) | ((bytes[2] as u32) << 16) | ((
                bytes[3] as u32) << 24);
                (n as i32) as i64
            },
            (WordSize::Four, ByteOrder::Big) => {
                let n = (bytes[3] as u32) | ((bytes[2] as u32) << 8) | ((bytes[1] as u32) << 16) | ((
                bytes[0] as u32) << 24);
                (n as i32) as i64
            },
            (WordSize::Eight, ByteOrder::Little) => {
                let n = (bytes[0] as u64) | ((bytes[1] as u64) << 8) | ((bytes[2] as u64) << 16) | ((
                bytes[3] as u64) << 24) | ((bytes[4] as u64) << 32) | ((bytes[5] as u64) << 40) | ((
                bytes[6] as u64) << 48) | ((bytes[7] as u64) << 56);
                n as i64
            },
            (WordSize::Eight, ByteOrder::Big) => {
                let n = (bytes[7] as u64) | ((bytes[6] as u64) << 8) | ((bytes[5] as u64) << 16) | ((
                bytes[4] as u64) << 24) | ((bytes[3] as u64) << 32) | ((bytes[2] as u64) << 40) | ((
                bytes[1] as u64) << 48) | ((bytes[0] as u64) << 56);
                n as i64
            },
        }
    }
}

/// A word of eight bytes is the number that its bytes are the digits of, in base 256 and in two's
/// complement: the first byte in memory counts least in the little-endian order, and most in the
/// big-endian one.
pub proof fn law_value_of_eight(format: WordFormat, bytes: Seq<u8>)
    requires
        format.size == WordSize::Eight,
        bytes.len() == 8,
    ensures
        format.width() == 8,
        ({
            let b = bytes;
            let little = b[0] + 0x100 * b[1] + 0x1_0000 * b[2] + 0x100_0000 * b[3] + 0x1_0000_0000
                * b[4] + 0x100_0000_0000 * b[5] + 0x1_0000_0000_0000 * b[6] + 0x100_0000_0000_0000
                * b[7];
            let big = b[7] + 0x100 * b[6] + 0x1_0000 * b[5] + 0x100_0000 * b[4] + 0x1_0000_0000
                * b[3] + 0x100_0000_0000 * b[2] + 0x1_0000_0000_0000 * b[1] + 0x100_0000_0000_0000
                * b[0];
            let value = if format.order == ByteOrder::Little {
                little
            } else {
                big
            };
            format.decoded(bytes) == if value < 0x8000_0000_0000_0000 {
                value
            } else {
                value - 0x1_0000_0000_0000_0000
            }
        }),
{
    let c = format.arranged(bytes);
    let (b0, b1, b2, b3) = (c[0], c[1], c[2], c[3]);
    let (b4, b5, b6, b7) = (c[4], c[5], c[6], c[7]);
    assert({
        let n = (b0 as u64) | ((b1 as u64) << 8) | ((b2 as u64) << 16) | ((b3 as u64) << 24) | ((
        b4 as u64) << 32) | ((b5 as u64) << 40) | ((b6 as u64) << 48) | ((b7 as u64) << 56);
        let v = b0 + 0x100 * b1 + 0x1_0000 * b2 + 0x100_0000 * b3 + 0x1_0000_0000 * b4
            + 0x100_0000_0000 * b5 + 0x1_0000_0000_0000 * b6 + 0x100_0000_0000_0000 * b7;
        &&& v == n
        &&& n as i64 == if n < 0x8000_0000_0000_0000 {
            n as int
        } else {
            n - 0x1_0000_0000_0000_0000
        }
    }) by (bit_vector);
}

/// A word of four bytes is the number that its bytes are the digits of, as one of eight is.
pub proof fn law_value_of_four(format: WordFormat, bytes: Seq<u8>)
    requires
        format.size == WordSize::Four,
        bytes.len() == 4,
    ensures
        format.width() == 4,
        ({
            let b = bytes;
            let value = if format.order == ByteOrder::Little {
                b[0] + 0x100 * b[1] + 0x1_0000 * b[2] + 0x100_0000 * b[3]
            } else {
                b[3] + 0x100 * b[2] + 0x1_0000 * b[1] + 0x100_0000 * b[0]
            };
            format.decoded(bytes) == if value < 0x8000_0000 {
                value
            } else {
                value - 0x1_0000_0000
            }
        }),
{
    let c = format.arranged(bytes);
    let (b0, b1, b2, b3) = (c[0], c[1], c[2], c[3]);
    assert({
        let n = (b0 as u32) | ((b1 as u32) << 8) | ((b2 as u32) << 16) | ((b3 as u32) << 24);
        let v = b0 + 0x100 * b1 + 0x1_0000 * b2 + 0x100_0000 * b3;
        &&& v == n
        &&& (n as i32) as i64 == if n < 0x8000_0000 {
            n as int
        } else {
            n - 0x1_0000_0000
        }
    }) by (bit_vector);
}

/// Whatever the word, its bytes in memory are as many as a word has, and decode to it. Of a word
/// of four bytes this is so of its lower half, which is all that its bytes depend on.
pub proof fn law_bytes_of_word(format: WordFormat, word: i64)
    ensures
        format.size == WordSize::Eight ==> format.encoded(word).len() == 8 && format.decoded(
            format.encoded(word),
        ) == word,
        format.size == WordSize::Four ==> format.encoded(word).len() == 4 && format.decoded(
            format.encoded(word),
        ) == (word as i32) as i64,
        -0x8000_0000 <= word <= 0x7fff_ffff ==> format.decoded(format.encoded(word)) == word,
{
    match format.size {
        WordSize::Eight => {
            format.law_decode_encoded(word);
        },
        WordSize::Four => {
            let half = (word as i32) as i64;
            format.law_decode_encoded(half);
            assert({
                let n = word as u64;
                let h = ((word as i32) as i64) as u64;
                &&& n & 0xff == h & 0xff
                &&& (n >> 8) & 0xff == (h >> 8) & 0xff
                &&& (n >> 16) & 0xff == (h >> 16) & 0xff
                &&& (n >> 24) & 0xff == (h >> 24) & 0xff
            }) by (bit_vector);
            assert(format.encoded(word) =~= format.encoded(half));
        },
    }
}

} // verus!
