use ptrace_binds::maps::{is_white_space, stack_range};

const MAPS: &str = "\
55d0c0a00000-55d0c0a21000 rw-p 00000000 00:00 0                          [heap]
7ffd1c5e2000-7ffd1c603000 rw-p 00000000 00:00 0                          [stack]
7ffd1c7f4000-7ffd1c7f8000 r--p 00000000 00:00 0                          [vvar]
";

#[test]
fn stack_range_of_a_maps_file() {
    assert_eq!(
        stack_range(MAPS),
        Some((0x7ffd_1c5e_2000, 0x7ffd_1c60_3000))
    );
}

#[test]
fn stack_range_without_a_stack() {
    assert_eq!(stack_range(""), None);
    assert_eq!(stack_range("\n\n"), None);
    assert_eq!(stack_range("1000-2000 rw-p [heap]\n"), None);
    assert_eq!(stack_range("1000-2000 rw-p [stack] \n"), None);
}

#[test]
fn stack_range_takes_the_first_tagged_line() {
    assert_eq!(
        stack_range("10-20 [stack]\n30-40 [stack]\n"),
        Some((0x10, 0x20))
    );
    // A first line without a range is not passed over.
    assert_eq!(stack_range("[stack]\n30-40 [stack]\n"), None);
    assert_eq!(stack_range("10 [stack]\n30-40 [stack]\n"), None);
}

#[test]
fn stack_range_knows_line_ends() {
    assert_eq!(stack_range("1-2 [stack]"), Some((1, 2)));
    assert_eq!(stack_range("1-2 [stack]\r\n"), Some((1, 2)));
    assert_eq!(stack_range("1-2 [stack]\r"), None);
    assert_eq!(stack_range("1-2 [stack]\r\r\n"), None);
    assert_eq!(stack_range("x\r\n1-2 [stack]\n"), Some((1, 2)));
}

#[test]
fn stack_range_knows_words() {
    assert_eq!(stack_range("  \t1-2\u{2003}[stack]"), Some((1, 2)));
    assert_eq!(stack_range("1-2-3 [stack]"), Some((1, 2)));
    assert_eq!(stack_range("1- [stack]"), None);
    assert_eq!(stack_range("-2 [stack]"), None);
    assert_eq!(stack_range("1-2[stack]"), None);
}

#[test]
fn stack_range_knows_numbers() {
    assert_eq!(stack_range("aF-+Fa [stack]"), Some((0xaf, 0xfa)));
    assert_eq!(stack_range("+-1 [stack]"), None);
    assert_eq!(stack_range("++1-2 [stack]"), None);
    assert_eq!(stack_range("0x1-2 [stack]"), None);
    assert_eq!(stack_range("1_0-2 [stack]"), None);
    let max = format!("0-{:x} [stack]", usize::MAX);
    assert_eq!(stack_range(&max), Some((0, usize::MAX)));
    let more = format!("0-1{:x} [stack]", 0 as usize).replace("-1", &format!("-1{:x}", usize::MAX));
    assert_eq!(stack_range(&more), None);
    assert_eq!(stack_range("000000000000000000000000001-2 [stack]"), Some((1, 2)));
}

/// The same, put together from the pieces of the standard library.
fn expected(maps: &str) -> Option<(usize, usize)> {
    for line in maps.lines() {
        if !line.ends_with("[stack]") {
            continue;
        }
        let range = line.split_whitespace().next()?;
        let mut parts = range.split('-');
        let start = usize::from_str_radix(parts.next()?, 16).ok()?;
        let end = usize::from_str_radix(parts.next()?, 16).ok()?;
        return Some((start, end));
    }
    None
}

#[test]
fn stack_range_agrees_with_the_standard_library() {
    let pieces = [
        "1-2", "a-", "-", "+3", " ", "\n", "\r", "\r\n", "[stack]", "\u{a0}", "g", "ü",
        "ffffffffffffffff", "10000000000000000",
    ];
    for a in pieces {
        for b in pieces {
            for c in pieces {
                for d in pieces {
                    let text = format!("{a}{b}{c}{d}");
                    assert_eq!(stack_range(&text), expected(&text), "{:?}", text);
                    let text = format!("{a}{b}{c} [stack]{d}");
                    assert_eq!(stack_range(&text), expected(&text), "{:?}", text);
                }
            }
        }
    }
}

#[test]
fn white_space_is_that_of_unicode() {
    for c in '\0'..=char::MAX {
        assert_eq!(is_white_space(c), c.is_whitespace(), "{:?}", c);
    }
}
