//! Facts about UTF-8 that let byte-level code speak of characters.
use vstd::prelude::*;
use vstd::utf8::*;

verus! {

/// The byte that encodes `/`.
pub const SLASH: u8 = 0x2f;

/// Encoding a concatenation concatenates the encodings.
pub proof fn lemma_encode_concat(a: Seq<char>, b: Seq<char>)
    ensures
        encode_utf8(a + b) == encode_utf8(a) + encode_utf8(b),
    decreases a.len(),
{
    if a.len() == 0 {
        assert(a + b =~= b);
        assert(encode_utf8(a) + encode_utf8(b) =~= encode_utf8(b));
    } else {
        lemma_encode_concat(a.drop_first(), b);
        assert((a + b).drop_first() =~= a.drop_first() + b);
        assert(encode_utf8(a + b) =~= encode_utf8(a) + encode_utf8(b));
    }
}

/// Two character sequences with the same encoding are the same.
pub proof fn lemma_encode_injective(a: Seq<char>, b: Seq<char>)
    requires
        encode_utf8(a) == encode_utf8(b),
    ensures
        a == b,
{
    encode_utf8_decode_utf8(a);
    encode_utf8_decode_utf8(b);
}

/// The encoding of a nonempty sequence is nonempty.
pub proof fn lemma_encode_nonempty(a: Seq<char>)
    ensures
        encode_utf8(a).len() == 0 <==> a.len() == 0,
        encode_utf8(a).len() >= a.len(),
    decreases a.len(),
{
    if a.len() > 0 {
        lemma_encode_nonempty(a.drop_first());
    }
}

/// The encoding of one character.
pub proof fn lemma_encode_singleton(c: char)
    ensures
        encode_utf8(seq![c]) == encode_scalar(c as u32),
{
    let s = seq![c];
    assert(s.drop_first() =~= Seq::<char>::empty());
    assert(encode_utf8(s.drop_first()) =~= Seq::<u8>::empty());
    assert(encode_utf8(s) =~= encode_scalar(c as u32));
}

/// The first and the last byte of a character's encoding are `/` exactly for the character `/`.
pub proof fn lemma_scalar_slash(c: char)
    ensures
        encode_scalar(c as u32)[0] == SLASH <==> c == '/',
        encode_scalar(c as u32).last() == SLASH <==> c == '/',
        c == '/' ==> encode_scalar(c as u32) == seq![SLASH],
{
    let v = c as u32;
    char_is_scalar(c);
    if has_width_1_encoding(v) {
        assert((v & 0x7F) as u8 == 0x2f <==> v == 0x2f) by (bit_vector)
            requires
                v <= 0x7f,
        ;
    } else {
        let w1 = ((v >> 6) & 0x1F) as u8;
        let w2 = ((v >> 12) & 0x0F) as u8;
        let w3 = ((v >> 18) & 0x7) as u8;
        let w4 = (v & 0x3F) as u8;
        assert(0xC0 | w1 != 0x2f) by (bit_vector);
        assert(0xE0 | w2 != 0x2f) by (bit_vector);
        assert(0xF0 | w3 != 0x2f) by (bit_vector);
        assert(0x80 | w4 != 0x2f) by (bit_vector);
    }
}

/// The encoding of a nonempty sequence starts with `/` exactly if the sequence does.
pub proof fn lemma_first_slash(s: Seq<char>)
    requires
        s.len() > 0,
    ensures
        encode_utf8(s).len() > 0,
        encode_utf8(s)[0] == SLASH <==> s[0] == '/',
{
    lemma_scalar_slash(s[0]);
}

/// The encoding of a nonempty sequence ends with `/` exactly if the sequence does.
pub proof fn lemma_last_slash(s: Seq<char>)
    requires
        s.len() > 0,
    ensures
        encode_utf8(s).len() > 0,
        encode_utf8(s).last() == SLASH <==> s.last() == '/',
{
    assert(s =~= s.drop_last() + seq![s.last()]);
    lemma_encode_concat(s.drop_last(), seq![s.last()]);
    lemma_encode_singleton(s.last());
    lemma_scalar_slash(s.last());
}

/// If the bytes of `guest` start the bytes of `path`, the characters of `guest` start those of
/// `path`; what follows is the encoding of the remaining characters.
pub proof fn lemma_byte_prefix(path: Seq<char>, guest: Seq<char>)
    ensures
        encode_utf8(guest).is_prefix_of(encode_utf8(path)) <==> guest.is_prefix_of(path),
        guest.is_prefix_of(path) ==> {
            let n = encode_utf8(guest).len() as int;
            &&& encode_utf8(path).subrange(n, encode_utf8(path).len() as int) == encode_utf8(
                path.skip(guest.len() as int),
            )
            &&& is_char_boundary(encode_utf8(path), n)
        },
{
    let p = encode_utf8(path);
    let g = encode_utf8(guest);
    encode_utf8_valid_utf8(path);
    encode_utf8_valid_utf8(guest);
    if g.is_prefix_of(p) {
        let n = g.len() as int;
        let tail = p.subrange(n, p.len() as int);
        assert(p.subrange(0, n) =~= g);
        if !valid_utf8(tail) {
            partial_valid_partial_invalid_utf8(p, n);
        }
        let rest = decode_utf8(tail);
        decode_utf8_encode_utf8(tail);
        lemma_encode_concat(guest, rest);
        assert(g + tail =~= p);
        lemma_encode_injective(guest + rest, path);
        assert(guest.is_prefix_of(path));
    }
    if guest.is_prefix_of(path) {
        let rest = path.skip(guest.len() as int);
        assert(guest + rest =~= path);
        lemma_encode_concat(guest, rest);
        assert(g.is_prefix_of(p));
        let n = g.len() as int;
        assert(p.subrange(n, p.len() as int) =~= encode_utf8(rest));
        if rest.len() == 0 {
            lemma_encode_nonempty(rest);
            is_char_boundary_start_end_of_seq(p);
        } else {
            encode_utf8_first_scalar(rest);
            assert(p[n] == encode_utf8(rest)[0]);
            is_char_boundary_iff_not_is_continuation_byte(p, n);
        }
    }
}

/// The encoding of a character other than U+0000 has no zero byte.
proof fn lemma_scalar_no_nul(c: char)
    requires
        c != '\0',
    ensures
        forall|i: int|
            0 <= i < encode_scalar(c as u32).len() ==> #[trigger] encode_scalar(c as u32)[i] != 0,
{
    let v = c as u32;
    char_is_scalar(c);
    if has_width_1_encoding(v) {
        assert((v & 0x7F) as u8 != 0) by (bit_vector)
            requires
                0 < v <= 0x7f,
        ;
    } else {
        let w1 = ((v >> 6) & 0x1F) as u8;
        let w2 = ((v >> 12) & 0x0F) as u8;
        let w3 = ((v >> 18) & 0x7) as u8;
        let w4 = (v & 0x3F) as u8;
        let w5 = ((v >> 6) & 0x3F) as u8;
        let w6 = ((v >> 12) & 0x3F) as u8;
        assert(0xC0 | w1 != 0 && 0xE0 | w2 != 0 && 0xF0 | w3 != 0 && 0x80 | w4 != 0 && 0x80 | w5
            != 0 && 0x80 | w6 != 0) by (bit_vector);
    }
}

/// The encoding of text without the character U+0000 has no zero byte.
pub proof fn lemma_encode_no_nul(s: Seq<char>)
    requires
        forall|i: int| 0 <= i < s.len() ==> #[trigger] s[i] != '\0',
    ensures
        forall|i: int| 0 <= i < encode_utf8(s).len() ==> #[trigger] encode_utf8(s)[i] != 0,
    decreases s.len(),
{
    if s.len() > 0 {
        let rest = s.drop_first();
        let first = encode_scalar(s[0] as u32);
        assert(s[0] != '\0');
        lemma_scalar_no_nul(s[0]);
        lemma_encode_no_nul(rest);
        assert forall|i: int| 0 <= i < encode_utf8(s).len() implies #[trigger] encode_utf8(s)[i]
            != 0 by {
            if i >= first.len() {
                assert(encode_utf8(s)[i] == encode_utf8(rest)[i - first.len()]);
            } else {
                assert(encode_utf8(s)[i] == first[i]);
            }
        }
    }
}

} // verus!
