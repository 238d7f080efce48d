use ptrace_binds::word::{ByteOrder, WordFormat, WordSize};

const FORMATS: [WordFormat; 4] = [
    WordFormat {
        size: WordSize::Four,
        order: ByteOrder::Little,
    },
    WordFormat {
        size: WordSize::Four,
        order: ByteOrder::Big,
    },
    WordFormat {
        size: WordSize::Eight,
        order: ByteOrder::Little,
    },
    WordFormat {
        size: WordSize::Eight,
        order: ByteOrder::Big,
    },
];

#[test]
fn words_have_the_bytes_of_the_standard_library() {
    for word in [0i64, 1, -1, 0x0102_0304_0506_0708, i64::MIN, i64::MAX, -0x1234_5678] {
        assert_eq!(FORMATS[0].to_bytes(word), (word as i32).to_le_bytes());
        assert_eq!(FORMATS[1].to_bytes(word), (word as i32).to_be_bytes());
        assert_eq!(FORMATS[2].to_bytes(word), word.to_le_bytes());
        assert_eq!(FORMATS[3].to_bytes(word), word.to_be_bytes());
    }
}

#[test]
fn bytes_make_the_words_of_the_standard_library() {
    let four = [0x81, 2, 3, 0xf4];
    assert_eq!(FORMATS[0].from_bytes(&four), i32::from_le_bytes(four) as i64);
    assert_eq!(FORMATS[1].from_bytes(&four), i32::from_be_bytes(four) as i64);
    let eight = [0x81, 2, 3, 4, 5, 6, 7, 0xf8];
    assert_eq!(FORMATS[2].from_bytes(&eight), i64::from_le_bytes(eight));
    assert_eq!(FORMATS[3].from_bytes(&eight), i64::from_be_bytes(eight));
}

#[test]
fn words_and_bytes_go_round() {
    for format in FORMATS {
        for word in [0i64, 5, -7, i32::MAX as i64, i32::MIN as i64] {
            let bytes = format.to_bytes(word);
            assert_eq!(bytes.len(), format.word_size());
            assert_eq!(format.from_bytes(&bytes), word);
        }
    }
    assert_eq!(FORMATS[0].word_size(), 4);
    assert_eq!(FORMATS[3].word_size(), 8);
}
