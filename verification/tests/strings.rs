use ptrace_binds::cstring::{CStringReader, MAX_PATH};
use ptrace_binds::word::{ByteOrder, WordFormat, WordSize};
use ptrace_binds::writer::{WordWriter, WriteStep};

const EIGHT: WordFormat = WordFormat {
    size: WordSize::Eight,
    order: ByteOrder::Little,
};

fn formats() -> Vec<WordFormat> {
    let mut out = Vec::new();
    for size in [WordSize::Four, WordSize::Eight] {
        for order in [ByteOrder::Little, ByteOrder::Big] {
            out.push(WordFormat { size, order });
        }
    }
    out
}

/// Reads the string at the start of `memory`, or `None` where that ends too soon.
fn read(memory: &[u8], format: WordFormat) -> Option<(String, usize)> {
    let mut reader = CStringReader::new(format);
    while let Some(offset) = reader.next_offset() {
        let word = memory.get(offset..offset + format.word_size())?;
        reader.absorb(format.from_bytes(word));
    }
    Some(reader.finish())
}

/// Writes `payload` to the start of `memory`.
fn write(memory: &mut [u8], payload: &[u8], format: WordFormat) {
    let mut writer = WordWriter::new(payload.to_vec(), format);
    loop {
        let (offset, word) = match writer.next_step() {
            WriteStep::Done => return,
            WriteStep::Store { offset, word } => (offset, word),
            WriteStep::Merge { offset } => {
                let existing = format.from_bytes(&memory[offset..offset + format.word_size()]);
                (offset, writer.merge(existing))
            }
        };
        memory[offset..offset + format.word_size()].copy_from_slice(&format.to_bytes(word));
        writer.advance();
    }
}

#[test]
fn a_string_ends_at_its_zero_byte() {
    for format in formats() {
        for len in 0..20 {
            let mut memory = vec![b'x'; len];
            memory.push(0);
            memory.extend_from_slice(b"behind the string, up to the last word");
            assert_eq!(read(&memory, format), Some(("x".repeat(len), len)));
        }
    }
}

#[test]
fn a_string_is_read_in_whole_words() {
    assert_eq!(read(b"abc\0", EIGHT), None);
    assert_eq!(read(b"abc\0....", EIGHT), Some(("abc".to_string(), 3)));
    assert_eq!(read(b"abcdefgh", EIGHT), None);
    assert_eq!(
        read(b"abcdefgh\0.......", EIGHT),
        Some(("abcdefgh".to_string(), 8))
    );
}

#[test]
fn a_string_is_cut_at_its_greatest_length() {
    for format in formats() {
        let memory = vec![b'p'; MAX_PATH + 16];
        assert_eq!(
            read(&memory, format),
            Some(("p".repeat(MAX_PATH), MAX_PATH))
        );
        let memory = vec![b'p'; MAX_PATH];
        assert_eq!(
            read(&memory, format),
            Some(("p".repeat(MAX_PATH), MAX_PATH))
        );
        let mut memory = vec![b'p'; MAX_PATH];
        memory[MAX_PATH - 1] = 0;
        assert_eq!(
            read(&memory, format),
            Some(("p".repeat(MAX_PATH - 1), MAX_PATH - 1))
        );
    }
    assert_eq!(MAX_PATH, 4096);
}

#[test]
fn bytes_that_are_no_text_are_replaced() {
    // The length is that in the process, not that of the text.
    assert_eq!(
        read(b"/a\xff/b\0...", EIGHT),
        Some(("/a\u{fffd}/b".to_string(), 5))
    );
    assert_eq!(
        read("/gäste\0.......".as_bytes(), EIGHT),
        Some(("/gäste".to_string(), 7))
    );
}

#[test]
fn the_steps_of_a_write() {
    let mut writer = WordWriter::new(b"0123456789".to_vec(), EIGHT);
    assert_eq!(
        writer.next_step(),
        WriteStep::Store {
            offset: 0,
            word: i64::from_le_bytes(*b"01234567")
        }
    );
    writer.advance();
    assert_eq!(writer.next_step(), WriteStep::Merge { offset: 8 });
    let existing = i64::from_le_bytes(*b"ABCDEFGH");
    assert_eq!(writer.merge(existing), i64::from_le_bytes(*b"89CDEFGH"));
    writer.advance();
    assert_eq!(writer.next_step(), WriteStep::Done);
    assert_eq!(
        WordWriter::new(Vec::new(), EIGHT).next_step(),
        WriteStep::Done
    );
}

#[test]
fn a_write_stores_its_bytes_and_no_others() {
    for format in formats() {
        for len in 0..24usize {
            let before: Vec<u8> = (100..140).collect();
            let payload: Vec<u8> = (1..=len as u8).collect();
            let mut after = before.clone();
            write(&mut after, &payload, format);
            assert_eq!(&after[..len], &payload[..]);
            assert_eq!(&after[len..], &before[len..]);
        }
    }
}

#[test]
fn a_string_that_was_written_reads_back() {
    for format in formats() {
        for text in ["", "/", "/host/app/bin", "/gäste/tür"] {
            let mut memory = vec![b'#'; 64];
            let mut payload = text.as_bytes().to_vec();
            payload.push(0);
            write(&mut memory, &payload, format);
            assert_eq!(
                read(&memory, format),
                Some((text.to_string(), text.len()))
            );
        }
    }
}
