use ptrace_binds::cstring::CStringReader;
use ptrace_binds::regs::{
    set_syscall_arg, syscall_arg, syscall_number, Aarch64Regs, Arch, Regs, X86Regs,
};
use ptrace_binds::rewrite::{Reply, Request, SyscallRewrite, RED_ZONE};
use ptrace_binds::word::{ByteOrder, WordFormat, WordSize};
use ptrace_binds::writer::{WordWriter, WriteStep};
use ptrace_binds::{aarch64, x86_64};
use std::collections::BTreeMap;

const FORMAT: WordFormat = WordFormat {
    size: WordSize::Eight,
    order: ByteOrder::Little,
};

const EIO: i32 = 5;

/// Where the strings of the process are.
const HEAP: usize = 0x1000;

/// Where its stack is, and how far it is in use.
const STACK: usize = 0x7000;
const STACK_POINTER: usize = 0x7800;
const STACK_END: usize = 0x8000;

/// A process with some memory.
#[derive(Clone)]
struct Process {
    memory: BTreeMap<usize, u8>,
    regs: Regs,
    maps: Option<String>,
    log: Vec<String>,
}

impl Process {
    fn new(arch: Arch, number: i64) -> Process {
        let regs = match arch {
            Arch::Aarch64 => {
                let mut regs = [0u64; 31];
                regs[8] = number as u64;
                Regs::Aarch64(Aarch64Regs {
                    regs,
                    sp: STACK_POINTER as u64,
                })
            }
            _ => Regs::X86_64(X86Regs {
                rdi: 0,
                rsi: 0,
                rdx: 0,
                r10: 0,
                r8: 0,
                r9: 0,
                orig_rax: number as u64,
                rsp: STACK_POINTER as u64,
            }),
        };
        let mut memory = BTreeMap::new();
        for a in HEAP..HEAP + 0x4000 {
            memory.insert(a, b'~');
        }
        for a in STACK..STACK_END {
            memory.insert(a, b'_');
        }
        Process {
            memory,
            regs,
            maps: Some(format!(
                "{:x}-{:x} rw-p 00000000 00:00 0 [stack]\n",
                STACK, STACK_END
            )),
            log: Vec::new(),
        }
    }

    fn with_arg(mut self, index: usize, addr: usize, text: &str) -> Process {
        set_syscall_arg(&mut self.regs, index, addr);
        for (i, byte) in text.bytes().chain([0]).enumerate() {
            self.memory.insert(addr + i, byte);
        }
        self
    }

    fn word(&self, addr: usize) -> Option<i64> {
        let bytes: Option<Vec<u8>> = (addr..addr + 8)
            .map(|a| self.memory.get(&a).copied())
            .collect();
        Some(FORMAT.from_bytes(&bytes?))
    }

    fn store(&mut self, addr: usize, word: i64) -> bool {
        if self.word(addr).is_none() {
            return false;
        }
        for (i, byte) in FORMAT.to_bytes(word).into_iter().enumerate() {
            self.memory.insert(addr + i, byte);
        }
        true
    }

    fn string(&self, addr: usize) -> Option<(String, usize)> {
        let mut reader = CStringReader::new(FORMAT);
        while let Some(offset) = reader.next_offset() {
            reader.absorb(self.word(addr + offset)?);
        }
        Some(reader.finish())
    }

    fn arg_string(&self, index: usize) -> String {
        self.string(syscall_arg(&self.regs, index)).unwrap().0
    }

    fn write(&mut self, addr: usize, payload: Vec<u8>) -> bool {
        let mut writer = WordWriter::new(payload, FORMAT);
        loop {
            let (offset, word) = match writer.next_step() {
                WriteStep::Done => return true,
                WriteStep::Store { offset, word } => (offset, word),
                WriteStep::Merge { offset } => match self.word(addr + offset) {
                    Some(existing) => (offset, writer.merge(existing)),
                    None => return false,
                },
            };
            if !self.store(addr + offset, word) {
                return false;
            }
            writer.advance();
        }
    }

    fn handle(&mut self, arch: Arch, binds: &[(String, String)]) -> Result<(), i32> {
        let mut rewrite = SyscallRewrite::new(arch, binds, FORMAT);
        let mut reply = Reply::Entered;
        loop {
            reply = match rewrite.step(reply) {
                Request::GetRegs => {
                    self.log.push("get".to_string());
                    Reply::Regs { regs: self.regs }
                }
                Request::ReadString { addr } => {
                    self.log.push(format!("read {addr:x}"));
                    match self.string(addr) {
                        Some((path, len)) => Reply::Text { path, len },
                        None => Reply::NoText,
                    }
                }
                Request::ReadMaps => {
                    self.log.push("maps".to_string());
                    Reply::Maps {
                        text: self.maps.clone(),
                    }
                }
                Request::WriteBytes { addr, payload } => {
                    self.log.push(format!("write {addr:x} {}", payload.len()));
                    if self.write(addr, payload) {
                        Reply::Done
                    } else {
                        Reply::Failed { errno: EIO }
                    }
                }
                Request::SetRegs { regs } => {
                    self.log.push("set".to_string());
                    self.regs = regs;
                    Reply::Done
                }
                Request::Finish { result } => return result,
            };
        }
    }
}

fn binds(pairs: &[(&str, &str)]) -> Vec<(String, String)> {
    pairs
        .iter()
        .map(|(host, guest)| (host.to_string(), guest.to_string()))
        .collect()
}

fn open(text: &str) -> Process {
    Process::new(Arch::X86_64, x86_64::SYS_OPENAT).with_arg(1, HEAP, text)
}

#[test]
fn without_binds_nothing_is_done() {
    let mut process = open("/guest/a");
    assert_eq!(process.handle(Arch::X86_64, &[]), Ok(()));
    assert!(process.log.is_empty());
}

#[test]
fn on_other_architectures_nothing_is_done() {
    let mut process = open("/guest/a");
    assert_eq!(
        process.handle(Arch::Other, &binds(&[("/h", "/guest")])),
        Ok(())
    );
    assert!(process.log.is_empty());
}

#[test]
fn calls_without_paths_are_left_alone() {
    let mut process = Process::new(Arch::X86_64, 0).with_arg(1, HEAP, "/guest/a");
    let before = process.memory.clone();
    assert_eq!(
        process.handle(Arch::X86_64, &binds(&[("/h", "/guest")])),
        Ok(())
    );
    assert_eq!(process.log, vec!["get"]);
    assert_eq!(process.memory, before);
}

#[test]
fn null_and_unreadable_arguments_are_left_alone() {
    let mut process = Process::new(Arch::X86_64, x86_64::SYS_OPENAT);
    assert_eq!(
        process.handle(Arch::X86_64, &binds(&[("/h", "/guest")])),
        Ok(())
    );
    assert_eq!(process.log, vec!["get"]);
    let mut process = Process::new(Arch::X86_64, x86_64::SYS_OPENAT);
    set_syscall_arg(&mut process.regs, 1, 0x10);
    assert_eq!(
        process.handle(Arch::X86_64, &binds(&[("/h", "/guest")])),
        Ok(())
    );
    assert_eq!(process.log, vec!["get", "read 10"]);
}

#[test]
fn paths_outside_the_binds_are_left_alone() {
    for path in ["/other", "/guestroom", ""] {
        let mut process = open(path);
        let before = process.memory.clone();
        assert_eq!(
            process.handle(Arch::X86_64, &binds(&[("/h", "/guest")])),
            Ok(())
        );
        assert_eq!(process.memory, before);
        assert_eq!(process.arg_string(1), path);
        assert_eq!(process.log, vec!["get", "read 1000"]);
    }
}

#[test]
fn a_path_bound_to_itself_is_left_alone() {
    let mut process = open("/guest/a");
    assert_eq!(
        process.handle(Arch::X86_64, &binds(&[("/guest", "/guest")])),
        Ok(())
    );
    assert_eq!(process.log, vec!["get", "read 1000"]);
}

#[test]
fn a_host_path_that_is_not_longer_goes_in_place() {
    for (host, expected) in [("/h", "/h/a"), ("/hosts", "/hosts/a")] {
        let mut process = open("/guest/a");
        let before = process.memory.clone();
        let regs = syscall_arg(&process.regs, 1);
        assert_eq!(
            process.handle(Arch::X86_64, &binds(&[(host, "/guest")])),
            Ok(())
        );
        assert_eq!(process.arg_string(1), expected);
        assert_eq!(syscall_arg(&process.regs, 1), regs);
        // The rest of the old path is filled with zero bytes, and no byte behind it changes.
        assert_eq!(process.log, vec!["get", "read 1000", "write 1000 9"]);
        for (a, byte) in &process.memory {
            if *a >= HEAP + expected.len() && *a <= HEAP + "/guest/a".len() {
                assert_eq!(*byte, 0);
            } else if *a < HEAP || *a > HEAP + "/guest/a".len() {
                assert_eq!(byte, &before[a]);
            }
        }
    }
}

#[test]
fn a_longer_host_path_goes_onto_the_stack() {
    let mut process = open("/guest/a");
    let before = process.memory.clone();
    assert_eq!(
        process.handle(Arch::X86_64, &binds(&[("/a/longer/host", "/guest")])),
        Ok(())
    );
    assert_eq!(process.arg_string(1), "/a/longer/host/a");
    // Seventeen bytes take three words, below the red zone.
    let at = STACK_POINTER - RED_ZONE - 24;
    assert_eq!(syscall_arg(&process.regs, 1), at);
    assert_eq!(
        process.log,
        vec![
            "get".to_string(),
            "read 1000".to_string(),
            "maps".to_string(),
            format!("write {at:x} 17"),
            "set".to_string()
        ]
    );
    for (a, byte) in &process.memory {
        if *a < at || *a >= at + 17 {
            assert_eq!(byte, &before[a]);
        }
    }
    assert_eq!(syscall_number(&process.regs), x86_64::SYS_OPENAT);
}

#[test]
fn there_is_no_red_zone_on_arm() {
    let mut process =
        Process::new(Arch::Aarch64, aarch64::SYS_OPENAT).with_arg(1, HEAP, "/guest/a");
    assert_eq!(
        process.handle(Arch::Aarch64, &binds(&[("/a/longer/host", "/guest")])),
        Ok(())
    );
    assert_eq!(process.arg_string(1), "/a/longer/host/a");
    assert_eq!(syscall_arg(&process.regs, 1), STACK_POINTER - 24);
    assert_eq!(syscall_number(&process.regs), aarch64::SYS_OPENAT);
}

#[test]
fn two_paths_go_below_each_other() {
    let mut process = Process::new(Arch::X86_64, x86_64::SYS_RENAME)
        .with_arg(0, HEAP, "/guest/a")
        .with_arg(1, HEAP + 0x100, "/guest/b");
    assert_eq!(
        process.handle(Arch::X86_64, &binds(&[("/a/longer/host", "/guest")])),
        Ok(())
    );
    assert_eq!(process.arg_string(0), "/a/longer/host/a");
    assert_eq!(process.arg_string(1), "/a/longer/host/b");
    let top = STACK_POINTER - RED_ZONE;
    assert_eq!(syscall_arg(&process.regs, 0), top - 24);
    assert_eq!(syscall_arg(&process.regs, 1), top - 48);
    // The stack is looked up once, and the registers are set once.
    assert_eq!(process.log.iter().filter(|l| *l == "maps").count(), 1);
    assert_eq!(process.log.iter().filter(|l| *l == "set").count(), 1);
}

#[test]
fn one_string_for_two_arguments_gets_two_copies() {
    let mut process = Process::new(Arch::X86_64, x86_64::SYS_LINK)
        .with_arg(0, HEAP, "/guest/a")
        .with_arg(1, HEAP, "/guest/a");
    assert_eq!(
        process.handle(Arch::X86_64, &binds(&[("/a/longer/host", "/guest")])),
        Ok(())
    );
    assert_eq!(process.arg_string(0), "/a/longer/host/a");
    assert_eq!(process.arg_string(1), "/a/longer/host/a");
    assert_eq!(process.string(HEAP).unwrap().0, "/guest/a");
}

#[test]
fn each_path_is_looked_at_on_its_own() {
    let mut process = Process::new(Arch::X86_64, x86_64::SYS_RENAMEAT2)
        .with_arg(1, HEAP, "/other/a")
        .with_arg(3, HEAP + 0x100, "/guest/b");
    assert_eq!(
        process.handle(Arch::X86_64, &binds(&[("/h", "/guest")])),
        Ok(())
    );
    assert_eq!(process.arg_string(1), "/other/a");
    assert_eq!(process.arg_string(3), "/h/b");
}

#[test]
fn without_room_on_the_stack_a_path_is_kept() {
    // The path would end within a word of the lowest address of the stack.
    for (above, kept) in [(31, true), (32, false)] {
        let mut process = open("/guest/a");
        if let Regs::X86_64(regs) = &mut process.regs {
            regs.rsp = (STACK + RED_ZONE + above) as u64;
        }
        assert_eq!(
            process.handle(Arch::X86_64, &binds(&[("/a/longer/host", "/guest")])),
            Ok(())
        );
        let expected = if kept { "/guest/a" } else { "/a/longer/host/a" };
        assert_eq!(process.arg_string(1), expected);
    }
    // The stack pointer is too low for any path.
    let mut process = open("/guest/a");
    if let Regs::X86_64(regs) = &mut process.regs {
        regs.rsp = 100;
    }
    assert_eq!(
        process.handle(Arch::X86_64, &binds(&[("/a/longer/host", "/guest")])),
        Ok(())
    );
    assert_eq!(process.arg_string(1), "/guest/a");
}

#[test]
fn a_stack_that_is_not_known_has_no_start() {
    for maps in [None, Some("".to_string()), Some("x [stack]".to_string())] {
        let mut process = Process::new(Arch::X86_64, x86_64::SYS_RENAME)
            .with_arg(0, HEAP, "/guest/a")
            .with_arg(1, HEAP + 0x100, "/guest/b");
        process.maps = maps;
        assert_eq!(
            process.handle(Arch::X86_64, &binds(&[("/a/longer/host", "/guest")])),
            Ok(())
        );
        assert_eq!(process.arg_string(0), "/a/longer/host/a");
        assert_eq!(process.arg_string(1), "/a/longer/host/b");
        // It is looked up anew for each path.
        assert_eq!(process.log.iter().filter(|l| *l == "maps").count(), 2);
    }
}

#[test]
fn a_failed_write_is_the_result() {
    let mut process = open("/guest/a");
    if let Regs::X86_64(regs) = &mut process.regs {
        regs.rsp = 0x6800;
    }
    process.maps = None;
    assert_eq!(
        process.handle(Arch::X86_64, &binds(&[("/a/longer/host", "/guest")])),
        Err(EIO)
    );
    assert_eq!(process.arg_string(1), "/guest/a");
}

#[test]
fn a_failure_changes_no_register() {
    // The first path goes onto the stack, and the second one fails to.
    let mut process = Process::new(Arch::X86_64, x86_64::SYS_RENAME)
        .with_arg(0, HEAP, "/guest/a")
        .with_arg(1, HEAP + 0x100, "/guest/b");
    let top = STACK_POINTER - RED_ZONE;
    for a in top - 48..top - 24 {
        process.memory.remove(&a);
    }
    assert_eq!(
        process.handle(Arch::X86_64, &binds(&[("/a/longer/host", "/guest")])),
        Err(EIO)
    );
    assert_eq!(process.string(top - 24).unwrap().0, "/a/longer/host/a");
    assert_eq!(syscall_arg(&process.regs, 0), HEAP);
    assert_eq!(syscall_arg(&process.regs, 1), HEAP + 0x100);
    assert_eq!(process.log.iter().filter(|l| *l == "set").count(), 0);
}

#[test]
fn a_write_that_stops_part_way_leaves_what_it_wrote() {
    let mut process = open("/guest/a");
    let at = STACK_POINTER - RED_ZONE - 24;
    // The second word of the place on the stack is missing.
    for a in at + 8..at + 16 {
        process.memory.remove(&a);
    }
    let before = process.memory.clone();
    assert_eq!(
        process.handle(Arch::X86_64, &binds(&[("/a/longer/host", "/guest")])),
        Err(EIO)
    );
    for (i, byte) in b"/a/longe".iter().enumerate() {
        assert_eq!(process.memory[&(at + i)], *byte);
    }
    for (a, byte) in &before {
        if *a < at || *a >= at + 8 {
            assert_eq!(&process.memory[a], byte);
        }
    }
    assert_eq!(syscall_arg(&process.regs, 1), HEAP);
}

#[test]
fn only_strings_and_the_free_stack_change() {
    let texts = ["/guest/a", "/guest/guest/guest", "/other", "/g"];
    let hosts = ["/h", "/a/rather/long/host/path", "/guest/guest"];
    for first in texts {
        for second in texts {
            for host in hosts {
                for distance in [0, 3, 8, 0x100] {
                    let mut process = Process::new(Arch::X86_64, x86_64::SYS_RENAME)
                        .with_arg(0, HEAP, first)
                        .with_arg(1, HEAP + distance, second);
                    let before = process.clone();
                    let result = process.handle(Arch::X86_64, &binds(&[(host, "/guest")]));
                    assert_eq!(result, Ok(()));
                    for (a, byte) in &before.memory {
                        let in_string = [HEAP, HEAP + distance].iter().any(|start| {
                            let len = before.string(*start).unwrap().1;
                            *a >= *start && *a <= *start + len
                        });
                        let on_stack = *a >= STACK + 8 && *a < STACK_POINTER - RED_ZONE;
                        if !in_string && !on_stack {
                            assert_eq!(&process.memory[a], byte);
                        }
                    }
                    assert_eq!(process.memory.len(), before.memory.len());
                    for i in 2..6 {
                        assert_eq!(
                            syscall_arg(&process.regs, i),
                            syscall_arg(&before.regs, i)
                        );
                    }
                    assert_eq!(
                        syscall_number(&process.regs),
                        syscall_number(&before.regs)
                    );
                }
            }
        }
    }
}

#[test]
fn failures_to_get_or_set_registers_are_results() {
    let binds = binds(&[("/a/longer/host", "/guest")]);
    let mut rewrite = SyscallRewrite::new(Arch::X86_64, &binds, FORMAT);
    assert!(matches!(rewrite.step(Reply::Entered), Request::GetRegs));
    assert!(matches!(
        rewrite.step(Reply::Failed { errno: 3 }),
        Request::Finish { result: Err(3) }
    ));
    let mut rewrite = SyscallRewrite::new(Arch::X86_64, &binds, FORMAT);
    rewrite.step(Reply::Entered);
    rewrite.step(Reply::Regs {
        regs: open("/guest/a").regs,
    });
    rewrite.step(Reply::Text {
        path: "/guest/a".to_string(),
        len: 8,
    });
    rewrite.step(Reply::Maps { text: None });
    assert!(matches!(rewrite.step(Reply::Done), Request::SetRegs { .. }));
    assert!(matches!(
        rewrite.step(Reply::Failed { errno: 3 }),
        Request::Finish { result: Err(3) }
    ));
}

#[test]
fn the_length_in_the_process_decides_what_fits() {
    // Each byte that is no text counts once in the process, and three times in the text.
    let mut process = open("/guest/");
    process.memory.insert(HEAP + 7, 0xff);
    process.memory.insert(HEAP + 8, 0);
    assert_eq!(
        process.handle(Arch::X86_64, &binds(&[("/abc", "/guest")])),
        Ok(())
    );
    // Eight bytes become `/abc/` and three bytes for U+FFFD, which fit.
    assert_eq!(process.arg_string(1), "/abc/\u{fffd}");
    assert_eq!(syscall_arg(&process.regs, 1), HEAP);
}
