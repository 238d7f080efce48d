//! The stack of a process, out of the text of its `/proc/<pid>/maps`.
use vstd::prelude::*;
use vstd::slice::*;

verus! {

/// The first index from `i` on at which `stop` holds, or the length if there is none.
pub open spec fn until(s: Seq<char>, i: int, stop: spec_fn(char) -> bool) -> int
    decreases s.len() - i,
{
    if i < 0 || i >= s.len() {
        s.len() as int
    } else if stop(s[i]) {
        i
    } else {
        until(s, i + 1, stop)
    }
}

/// Where a line ends.
pub open spec fn newline() -> spec_fn(char) -> bool {
    |c: char| c == '\n'
}

/// Where a word ends.
pub open spec fn white() -> spec_fn(char) -> bool {
    |c: char| is_white(c)
}

/// Where a word starts.
pub open spec fn black() -> spec_fn(char) -> bool {
    |c: char| !is_white(c)
}

/// Where one end of a range ends.
pub open spec fn hyphen() -> spec_fn(char) -> bool {
    |c: char| c == '-'
}

/// Whether Unicode gives `c` the property `White_Space`.
pub open spec fn is_white(c: char) -> bool {
    ||| '\u{9}' <= c <= '\u{d}'
    ||| c == ' '
    ||| c == '\u{85}'
    ||| c == '\u{a0}'
    ||| c == '\u{1680}'
    ||| '\u{2000}' <= c <= '\u{200a}'
    ||| '\u{2028}' <= c <= '\u{2029}'
    ||| c == '\u{202f}'
    ||| c == '\u{205f}'
    ||| c == '\u{3000}'
}

/// `s` without a carriage return at its end.
pub open spec fn without_cr(s: Seq<char>) -> Seq<char> {
    if s.len() > 0 && s.last() == '\r' {
        s.drop_last()
    } else {
        s
    }
}

/// The lines of a text. A line ends with a newline, which a carriage return may precede; the last
/// line may go without.
pub open spec fn lines(s: Seq<char>) -> Seq<Seq<char>>
    decreases s.len(),
{
    let n = until(s, 0, newline());
    if s.len() == 0 {
        Seq::empty()
    } else if n < 0 || n >= s.len() {
        seq![s]
    } else {
        seq![without_cr(s.take(n))] + lines(s.skip(n + 1))
    }
}

/// The first of some lines that ends with the tag of the stack.
pub open spec fn stack_line(lines: Seq<Seq<char>>) -> Option<Seq<char>>
    decreases lines.len(),
{
    if lines.len() == 0 {
        None
    } else if "[stack]"@.is_suffix_of(lines[0]) {
        Some(lines[0])
    } else {
        stack_line(lines.drop_first())
    }
}

/// The first word of a line, empty if it has none.
pub open spec fn first_word(line: Seq<char>) -> Seq<char> {
    let start = until(line, 0, black());
    line.subrange(start, until(line, start, white()))
}

/// What a hexadecimal digit stands for.
pub open spec fn hex_digit(c: char) -> Option<nat> {
    if '0' <= c <= '9' {
        Some((c as nat - '0' as nat) as nat)
    } else if 'a' <= c <= 'f' {
        Some((c as nat - 'a' as nat + 10) as nat)
    } else if 'A' <= c <= 'F' {
        Some((c as nat - 'A' as nat + 10) as nat)
    } else {
        None
    }
}

/// Whether `s` holds hexadecimal digits only.
pub open spec fn all_hex(s: Seq<char>) -> bool {
    forall|i: int| 0 <= i < s.len() ==> hex_digit(#[trigger] s[i]) is Some
}

/// The number that hexadecimal digits stand for.
pub open spec fn hex_value(s: Seq<char>) -> nat
    decreases s.len(),
{
    if s.len() == 0 {
        0
    } else {
        16 * hex_value(s.drop_last()) + hex_digit(s.last())->0
    }
}

/// The digits of a number, which a `+` may precede.
pub open spec fn digits_of(s: Seq<char>) -> Seq<char> {
    if s.len() > 0 && s[0] == '+' {
        s.skip(1)
    } else {
        s
    }
}

/// The address that `s` stands for, or `None` if it is no hexadecimal number or too large.
pub open spec fn address(s: Seq<char>) -> Option<usize> {
    let digits = digits_of(s);
    if digits.len() > 0 && all_hex(digits) && hex_value(digits) <= usize::MAX {
        Some(hex_value(digits) as usize)
    } else {
        None
    }
}

/// The two addresses of a range `start-end`. What follows a second hyphen plays no part.
pub open spec fn range_of(word: Seq<char>) -> Option<(usize, usize)> {
    let h = until(word, 0, hyphen());
    if h < word.len() {
        let start = address(word.take(h));
        let end = address(word.subrange(h + 1, until(word, h + 1, hyphen())));
        if start is Some && end is Some {
            Some((start->0, end->0))
        } else {
            None
        }
    } else {
        None
    }
}

/// The stack's range in the text of a `maps` file: that of the first line with the stack's tag.
pub open spec fn stack_of(maps: Seq<char>) -> Option<(usize, usize)> {
    match stack_line(lines(maps)) {
        Some(line) => range_of(first_word(line)),
        None => None,
    }
}

/// `until` moves with a text that loses its front.
proof fn lemma_until_skip(s: Seq<char>, k: int, i: int, stop: spec_fn(char) -> bool)
    requires
        0 <= k <= s.len(),
        0 <= i <= s.len() - k,
    ensures
        until(s.skip(k), i, stop) == until(s, k + i, stop) - k,
    decreases s.len() - k - i,
{
    if i < s.len() - k {
        assert(s.skip(k)[i] == s[k + i]);
        if !stop(s[k + i]) {
            lemma_until_skip(s, k, i + 1, stop);
        }
    }
}

/// Leading digits never exceed the whole number.
proof fn lemma_hex_prefix(s: Seq<char>, n: int)
    requires
        0 <= n <= s.len(),
    ensures
        hex_value(s.take(n)) <= hex_value(s),
    decreases s.len() - n,
{
    if n == s.len() {
        assert(s.take(n) =~= s);
    } else {
        assert(s.take(n + 1).drop_last() =~= s.take(n));
        assert(hex_value(s.take(n)) <= hex_value(s.take(n + 1)));
        lemma_hex_prefix(s, n + 1);
    }
}

/// The characters of a text.
fn chars_of(s: &str) -> (r: Vec<char>)
    ensures
        r@ == s@,
{
    let mut out: Vec<char> = Vec::new();
    for c in it: s.chars()
        invariant
            it.seq() == s@,
            out@ == it.seq().take(it.index()),
    {
        out.push(c);
    }
    out
}

/// Whether Unicode gives `c` the property `White_Space`.
pub fn is_white_space(c: char) -> (r: bool)
    ensures
        r == is_white(c),
{
    (c >= '\u{9}' && c <= '\u{d}') || c == ' ' || c == '\u{85}' || c == '\u{a0}' || c == '\u{1680}'
        || (c >= '\u{2000}' && c <= '\u{200a}') || (c >= '\u{2028}' && c <= '\u{2029}') || c
        == '\u{202f}' || c == '\u{205f}' || c == '\u{3000}'
}

/// The first index from `from` on at which `stop` holds, or the length if there is none.
fn find<F: Fn(char) -> bool>(
    s: &[char],
    from: usize,
    stop: F,
    Ghost(p): Ghost<spec_fn(char) -> bool>,
) -> (r: usize)
    requires
        from <= s@.len(),
        forall|c: char| stop.requires((c,)),
        forall|c: char, b: bool| stop.ensures((c,), b) ==> b == p(c),
    ensures
        r == until(s@, from as int, p),
        from <= r <= s@.len(),
{
    let mut i: usize = from;
    while i < s.len()
        invariant
            from <= i <= s@.len(),
            until(s@, i as int, p) == until(s@, from as int, p),
            forall|c: char| stop.requires((c,)),
            forall|c: char, b: bool| stop.ensures((c,), b) ==> b == p(c),
        decreases s@.len() - i,
    {
        if stop(s[i]) {
            return i;
        }
        i += 1;
    }
    i
}

/// Whether `line` ends with `tag`.
fn ends_with(line: &[char], tag: &[char]) -> (r: bool)
    ensures
        r == tag@.is_suffix_of(line@),
{
    if line.len() < tag.len() {
        return false;
    }
    let from: usize = line.len() - tag.len();
    let mut i: usize = 0;
    while i < tag.len()
        invariant
            i <= tag@.len() <= line@.len(),
            from + tag.len() == line.len(),
            forall|j: int| 0 <= j < i ==> tag@[j] == line@[from + j],
        decreases tag@.len() - i,
    {
        if line[from + i] != tag[i] {
            assert(tag@[i as int] != line@.subrange(from as int, line@.len() as int)[i as int]);
            return false;
        }
        i += 1;
    }
    assert(tag@ =~= line@.subrange(from as int, line@.len() as int));
    true
}

/// What a hexadecimal digit stands for.
fn digit_value(c: char) -> (r: Option<usize>)
    ensures
        r is Some <==> hex_digit(c) is Some,
        r matches Some(d) ==> hex_digit(c) == Some(d as nat) && d < 16,
{
    if c >= '0' && c <= '9' {
        Some((c as u32 - '0' as u32) as usize)
    } else if c >= 'a' && c <= 'f' {
        Some((c as u32 - 'a' as u32 + 10) as usize)
    } else if c >= 'A' && c <= 'F' {
        Some((c as u32 - 'A' as u32 + 10) as usize)
    } else {
        None
    }
}

/// The address that `s` stands for, or `None` if it is no hexadecimal number or too large.
fn parse_address(s: &[char]) -> (r: Option<usize>)
    ensures
        r == address(s@),
{
    let from: usize = if s.len() > 0 && s[0] == '+' {
        1
    } else {
        0
    };
    let digits = slice_subrange(s, from, s.len());
    assert(digits@ =~= digits_of(s@));
    if digits.len() == 0 {
        return None;
    }
    let mut value: usize = 0;
    let mut i: usize = 0;
    while i < digits.len()
        invariant
            i <= digits@.len(),
            digits@ == digits_of(s@),
            all_hex(digits@.take(i as int)),
            value == hex_value(digits@.take(i as int)),
        decreases digits@.len() - i,
    {
        let ghost next = digits@.take(i + 1);
        assert(next.drop_last() =~= digits@.take(i as int));
        proof {
            lemma_hex_prefix(digits@, i + 1);
        }
        let digit = match digit_value(digits[i]) {
            Some(digit) => digit,
            None => {
                return None;
            },
        };
        let shifted = match value.checked_mul(16) {
            Some(shifted) => shifted,
            None => {
                return None;
            },
        };
        value = match shifted.checked_add(digit) {
            Some(sum) => sum,
            None => {
                return None;
            },
        };
        assert forall|j: int| 0 <= j < next.len() implies hex_digit(#[trigger] next[j]) is Some by {
            if j < i {
                assert(digits@.take(i as int)[j] == next[j]);
            }
        }
        i += 1;
    }
    assert(digits@.take(digits@.len() as int) =~= digits@);
    Some(value)
}

/// The two addresses of a range `start-end`.
fn parse_range(word: &[char]) -> (r: Option<(usize, usize)>)
    ensures
        r == range_of(word@),
{
    let h = find(word, 0, |c: char| -> (b: bool) ensures b == (c == '-') { c == '-' }, Ghost(hyphen()));
    if h >= word.len() {
        return None;
    }
    let e = find(
        word,
        h + 1,
        |c: char| -> (b: bool) ensures b == (c == '-') { c == '-' },
        Ghost(hyphen()),
    );
    let start = parse_address(slice_subrange(word, 0, h));
    let end = parse_address(slice_subrange(word, h + 1, e));
    match (start, end) {
        (Some(start), Some(end)) => Some((start, end)),
        _ => None,
    }
}

/// The first word of a line.
fn word_of(line: &[char]) -> (r: &[char])
    ensures
        r@ == first_word(line@),
{
    let start = find(
        line,
        0,
        |c: char| -> (b: bool) ensures b == !is_white(c) { !is_white_space(c) },
        Ghost(black()),
    );
    let end = find(
        line,
        start,
        |c: char| -> (b: bool) ensures b == is_white(c) { is_white_space(c) },
        Ghost(white()),
    );
    slice_subrange(line, start, end)
}

/// The range of addresses of the stack, out of the text of a `maps` file, or `None` if no line
/// has the stack's tag or the first such line does not start with a range.
pub fn stack_range(maps: &str) -> (r: Option<(usize, usize)>)
    ensures
        r == stack_of(maps@),
{
    let text = chars_of(maps);
    let text = text.as_slice();
    let tag = chars_of("[stack]");
    let mut at: usize = 0;
    assert(text@.skip(0) =~= text@);
    while at < text.len()
        invariant
            at <= text@.len(),
            text@ == maps@,
            tag@ == "[stack]"@,
            stack_line(lines(text@.skip(at as int))) == stack_line(lines(text@)),
        decreases text@.len() - at,
    {
        let ghost rest = text@.skip(at as int);
        let n = find(
            text,
            at,
            |c: char| -> (b: bool) ensures b == (c == '\n') { c == '\n' },
            Ghost(newline()),
        );
        proof {
            lemma_until_skip(text@, at as int, 0, newline());
        }
        let end: usize = if n < text.len() && n > at && text[n - 1] == '\r' {
            n - 1
        } else {
            n
        };
        let line = slice_subrange(text, at, end);
        if n < text.len() {
            assert(line@ =~= without_cr(rest.take(n - at)));
            assert(rest.skip(n - at + 1) =~= text@.skip(n + 1));
            assert(lines(rest).drop_first() =~= lines(text@.skip(n + 1)));
        } else {
            assert(line@ =~= rest);
            assert(lines(rest).drop_first() =~= Seq::<Seq<char>>::empty());
        }
        assert(lines(rest)[0] == line@);
        if ends_with(line, tag.as_slice()) {
            return parse_range(word_of(line));
        }
        if n >= text.len() {
            proof {
                reveal_with_fuel(stack_line, 2);
            }
            return None;
        }
        at = n + 1;
    }
    assert(text@.skip(at as int) =~= Seq::<char>::empty());
    None
}

/// `until` is the first index at which `stop` holds.
proof fn lemma_until(s: Seq<char>, i: int, n: int, stop: spec_fn(char) -> bool)
    requires
        0 <= i <= n <= s.len(),
        forall|j: int| i <= j < n ==> !stop(#[trigger] s[j]),
        n < s.len() ==> stop(s[n]),
    ensures
        until(s, i, stop) == n,
    decreases n - i,
{
    if i < n {
        assert(!stop(s[i]));
        lemma_until(s, i + 1, n, stop);
    }
}

/// A text that starts with a line has that line as its first.
proof fn lemma_first_line(line: Seq<char>, rest: Seq<char>)
    requires
        forall|i: int| 0 <= i < line.len() ==> #[trigger] line[i] != '\n',
    ensures
        lines(line + seq!['\n'] + rest) == seq![without_cr(line)] + lines(rest),
        line.len() > 0 ==> lines(line) == seq![line],
{
    let s = line + seq!['\n'] + rest;
    let n = line.len() as int;
    assert forall|j: int| 0 <= j < n implies !newline()(#[trigger] s[j]) by {
        assert(s[j] == line[j]);
    }
    lemma_until(s, 0, n, newline());
    assert(s.take(n) =~= line);
    assert(s.skip(n + 1) =~= rest);
    assert forall|j: int| 0 <= j < n implies !newline()(#[trigger] line[j]) by {}
    lemma_until(line, 0, n, newline());
}

/// The tag of the stack, character by character.
proof fn lemma_tag()
    ensures
        "[stack]"@ == seq!['[', 's', 't', 'a', 'c', 'k', ']'],
{
    reveal_strlit("[stack]");
    assert("[stack]"@ =~= seq!['[', 's', 't', 'a', 'c', 'k', ']']);
}

/// A line that does not end with `[stack]`, before its newline and a carriage return in front of
/// that, plays no part.
pub proof fn law_other_lines_are_passed_over(line: Seq<char>, rest: Seq<char>)
    requires
        forall|i: int| 0 <= i < line.len() ==> #[trigger] line[i] != '\n',
        !seq!['[', 's', 't', 'a', 'c', 'k', ']'].is_suffix_of(line),
        !seq!['[', 's', 't', 'a', 'c', 'k', ']', '\r'].is_suffix_of(line),
    ensures
        stack_of(line + seq!['\n'] + rest) == stack_of(rest),
{
    lemma_tag();
    lemma_first_line(line, rest);
    let all = seq![without_cr(line)] + lines(rest);
    assert(all.drop_first() =~= lines(rest));
    let tag = seq!['[', 's', 't', 'a', 'c', 'k', ']'];
    let long = seq!['[', 's', 't', 'a', 'c', 'k', ']', '\r'];
    if line.len() > 0 && line.last() == '\r' && tag.is_suffix_of(line.drop_last()) {
        let cut = line.drop_last();
        let from = cut.len() - 7;
        assert forall|i: int| 0 <= i < 8 implies #[trigger] long[i] == line.subrange(
            line.len() - 8,
            line.len() as int,
        )[i] by {
            if i < 7 {
                assert(tag[i] == cut.subrange(from, cut.len() as int)[i]);
            }
        }
        assert(long =~= line.subrange(line.len() - 8, line.len() as int));
    }
}

/// A text whose only line does not end with `[stack]` tells nothing.
pub proof fn law_no_stack_in_other_lines(line: Seq<char>)
    requires
        forall|i: int| 0 <= i < line.len() ==> #[trigger] line[i] != '\n',
        !seq!['[', 's', 't', 'a', 'c', 'k', ']'].is_suffix_of(line),
    ensures
        stack_of(line) is None,
{
    lemma_tag();
    lemma_first_line(line, Seq::empty());
    reveal_with_fuel(stack_line, 2);
}

/// The first line that ends with `[stack]` decides, whatever comes behind it, and whether or not a
/// carriage return stands before its newline.
pub proof fn law_first_stack_line_decides(line: Seq<char>, rest: Seq<char>)
    requires
        forall|i: int| 0 <= i < line.len() ==> #[trigger] line[i] != '\n',
        seq!['[', 's', 't', 'a', 'c', 'k', ']'].is_suffix_of(line),
    ensures
        stack_of(line + seq!['\n'] + rest) == stack_of(line),
        stack_of(line + seq!['\r', '\n'] + rest) == stack_of(line),
{
    lemma_tag();
    lemma_first_line(line, rest);
    let tag = seq!['[', 's', 't', 'a', 'c', 'k', ']'];
    assert(line.last() == ']') by {
        assert(tag[6] == line.subrange(line.len() - 7, line.len() as int)[6]);
    }
    let carried = line.push('\r');
    lemma_first_line(carried, rest);
    assert(carried.drop_last() =~= line);
    assert(line + seq!['\r', '\n'] + rest =~= carried + seq!['\n'] + rest);
}

/// The first word of a line.
proof fn lemma_first_word(blank: Seq<char>, word: Seq<char>, tail: Seq<char>)
    requires
        forall|i: int| 0 <= i < blank.len() ==> is_white(#[trigger] blank[i]),
        forall|i: int| 0 <= i < word.len() ==> !is_white(#[trigger] word[i]),
        word.len() > 0,
        tail.len() > 0 ==> is_white(tail[0]),
    ensures
        first_word(blank + word + tail) == word,
{
    let line = blank + word + tail;
    let n = blank.len() as int;
    let m = n + word.len();
    assert forall|j: int| 0 <= j < n implies !black()(#[trigger] line[j]) by {
        assert(line[j] == blank[j]);
    }
    assert(line[n] == word[0]);
    lemma_until(line, 0, n, black());
    assert forall|j: int| n <= j < m implies !white()(#[trigger] line[j]) by {
        assert(line[j] == word[j - n]);
    }
    if tail.len() > 0 {
        assert(line[m] == tail[0]);
    }
    lemma_until(line, n, m, white());
    assert(line.subrange(n, m) =~= word);
}

/// A line that ends with `[stack]` tells the range that it starts with, behind white space: two
/// addresses with a hyphen between them. A second hyphen, and what follows it up to the next white
/// space, plays no part. If one of the two is no address, the line tells nothing.
pub proof fn law_stack_line_gives_range(
    blank: Seq<char>,
    start: Seq<char>,
    end: Seq<char>,
    more: Seq<char>,
    tail: Seq<char>,
)
    requires
        ({
            let line = blank + (start + seq!['-'] + end + more) + tail;
            &&& forall|i: int| 0 <= i < line.len() ==> #[trigger] line[i] != '\n'
            &&& seq!['[', 's', 't', 'a', 'c', 'k', ']'].is_suffix_of(line)
        }),
        forall|i: int| 0 <= i < blank.len() ==> is_white(#[trigger] blank[i]),
        forall|i: int| 0 <= i < start.len() ==> !is_white(#[trigger] start[i]) && start[i] != '-',
        forall|i: int| 0 <= i < end.len() ==> !is_white(#[trigger] end[i]) && end[i] != '-',
        forall|i: int| 0 <= i < more.len() ==> !is_white(#[trigger] more[i]),
        more.len() > 0 ==> more[0] == '-',
        tail.len() > 0 ==> is_white(tail[0]),
    ensures
        ({
            let line = blank + (start + seq!['-'] + end + more) + tail;
            match (address(start), address(end)) {
                (Some(low), Some(high)) => stack_of(line) == Some((low, high)),
                _ => stack_of(line) is None,
            }
        }),
{
    let word = start + seq!['-'] + end + more;
    let line = blank + word + tail;
    lemma_tag();
    lemma_first_line(line, Seq::empty());
    assert forall|i: int| 0 <= i < word.len() implies !is_white(#[trigger] word[i]) by {
        if i < start.len() {
            assert(word[i] == start[i]);
        } else if i == start.len() {
            assert(word[i] == '-');
        } else if i < start.len() + 1 + end.len() {
            assert(word[i] == end[i - start.len() - 1]);
        } else {
            assert(word[i] == more[i - start.len() - 1 - end.len()]);
        }
    }
    lemma_first_word(blank, word, tail);
    let h = start.len() as int;
    let e = h + 1 + end.len();
    assert forall|j: int| 0 <= j < h implies !hyphen()(#[trigger] word[j]) by {
        assert(word[j] == start[j]);
    }
    assert(word[h] == '-');
    lemma_until(word, 0, h, hyphen());
    assert forall|j: int| h + 1 <= j < e implies !hyphen()(#[trigger] word[j]) by {
        assert(word[j] == end[j - h - 1]);
    }
    if more.len() > 0 {
        assert(word[e] == more[0]);
    }
    lemma_until(word, h + 1, e, hyphen());
    assert(word.take(h) =~= start);
    assert(word.subrange(h + 1, e) =~= end);
}

/// A line that ends with `[stack]` and does not start with a range, for want of a hyphen in its
/// first word, tells nothing.
pub proof fn law_stack_line_without_range(blank: Seq<char>, word: Seq<char>, tail: Seq<char>)
    requires
        ({
            let line = blank + word + tail;
            &&& forall|i: int| 0 <= i < line.len() ==> #[trigger] line[i] != '\n'
            &&& seq!['[', 's', 't', 'a', 'c', 'k', ']'].is_suffix_of(line)
        }),
        forall|i: int| 0 <= i < blank.len() ==> is_white(#[trigger] blank[i]),
        forall|i: int| 0 <= i < word.len() ==> !is_white(#[trigger] word[i]) && word[i] != '-',
        word.len() > 0,
        tail.len() > 0 ==> is_white(tail[0]),
    ensures
        stack_of(blank + word + tail) is None,
{
    let line = blank + word + tail;
    lemma_tag();
    lemma_first_line(line, Seq::empty());
    lemma_first_word(blank, word, tail);
    assert forall|j: int| 0 <= j < word.len() implies !hyphen()(#[trigger] word[j]) by {}
    lemma_until(word, 0, word.len() as int, hyphen());
}

/// An address of one character is a hexadecimal digit, and stands for its value. There is none of
/// no characters, and none of a sign alone.
pub proof fn law_address_of_one(c: char)
    ensures
        address(Seq::empty()) is None,
        '0' <= c <= '9' ==> address(seq![c]) == Some((c as int - '0' as int) as usize),
        'a' <= c <= 'f' ==> address(seq![c]) == Some((10 + c as int - 'a' as int) as usize),
        'A' <= c <= 'F' ==> address(seq![c]) == Some((10 + c as int - 'A' as int) as usize),
        !('0' <= c <= '9') && !('a' <= c <= 'f') && !('A' <= c <= 'F') ==> address(
            seq![c],
        ) is None,
{
    let s = seq![c];
    assert(s.drop_last() =~= Seq::empty());
    reveal_with_fuel(hex_value, 2);
    assert(all_hex(s) <==> hex_digit(c) is Some) by {
        assert(s[0] == c);
    }
    if c == '+' {
        assert(digits_of(s) =~= Seq::empty());
    }
}

/// One `+` may precede an address and does not change it.
pub proof fn law_address_with_sign(s: Seq<char>)
    ensures
        s.len() == 0 || s[0] != '+' ==> address(seq!['+'] + s) == address(s),
        s.len() > 0 && s[0] == '+' ==> address(seq!['+'] + s) is None,
{
    let signed = seq!['+'] + s;
    assert(signed.skip(1) =~= s);
    if s.len() > 0 && s[0] == '+' {
        assert(hex_digit(s[0]) is None);
    }
}

/// A further hexadecimal digit makes an address sixteen times what it was and the digit, unless
/// that is too large. Any other character makes it none, and what was none does not become one.
pub proof fn law_address_grows(s: Seq<char>, c: char)
    requires
        s.len() > 0,
        s != seq!['+'],
    ensures
        ({
            let digit: int = if '0' <= c <= '9' {
                c as int - '0' as int
            } else if 'a' <= c <= 'f' {
                10 + c as int - 'a' as int
            } else if 'A' <= c <= 'F' {
                10 + c as int - 'A' as int
            } else {
                -1
            };
            match address(s) {
                None => address(s.push(c)) is None,
                Some(value) => address(s.push(c)) == if 0 <= digit && 16 * value + digit
                    <= usize::MAX {
                    Some((16 * value + digit) as usize)
                } else {
                    None
                },
            }
        }),
{
    let digits = digits_of(s);
    let longer = s.push(c);
    if s[0] == '+' {
        if s.len() == 1 {
            assert(s =~= seq!['+']);
        }
    }
    assert(digits_of(longer) =~= digits.push(c));
    let more = digits.push(c);
    assert(more.drop_last() =~= digits);
    assert(hex_value(more) == 16 * hex_value(digits) + hex_digit(c)->0);
    assert(all_hex(more) <==> all_hex(digits) && hex_digit(c) is Some) by {
        if all_hex(more) {
            assert forall|i: int| 0 <= i < digits.len() implies hex_digit(
                #[trigger] digits[i],
            ) is Some by {
                assert(more[i] == digits[i]);
            }
            assert(more[digits.len() as int] == c);
        }
    }
}

/// White space is what Unicode says it is, by code point.
pub proof fn law_white_space(c: char)
    ensures
        is_white(c) <==> {
            let n = c as int;
            ||| 0x9 <= n <= 0xd
            ||| n == 0x20
            ||| n == 0x85
            ||| n == 0xa0
            ||| n == 0x1680
            ||| 0x2000 <= n <= 0x200a
            ||| n == 0x2028
            ||| n == 0x2029
            ||| n == 0x202f
            ||| n == 0x205f
            ||| n == 0x3000
        },
{
}

} // verus!
