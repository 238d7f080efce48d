use nix::libc;
use ptrace_binds::trace::{
    Outcome, Resume, Task, TraceError, TraceOptions, Tracer, WaitStatus, ESRCH, SIGTRAP,
};

fn bound() -> Vec<(String, String)> {
    vec![("/host".to_string(), "/guest".to_string())]
}

fn status(tracer: &mut Tracer, status: WaitStatus) {
    assert_eq!(tracer.next_task(), Task::Wait);
    tracer.step(Outcome::Status { status });
}

fn resumed(tracer: &mut Tracer, how: Resume, signal: Option<u8>) {
    assert_eq!(tracer.next_task(), Task::Resume { how, signal });
    tracer.step(Outcome::Done);
}

/// A tracer whose process has been let go for the first time.
fn running(binds: &[(String, String)]) -> Tracer {
    let mut tracer = Tracer::new(binds);
    assert_eq!(tracer.next_task(), Task::Attach);
    tracer.step(Outcome::Done);
    status(&mut tracer, WaitStatus::Stopped { signal: 19 });
    assert_eq!(
        tracer.next_task(),
        Task::SetOptions {
            options: TraceOptions {
                sysgood: true,
                exit_kill: true
            }
        }
    );
    tracer.step(Outcome::Done);
    let how = if binds.is_empty() {
        Resume::Continue
    } else {
        Resume::Syscall
    };
    resumed(&mut tracer, how, None);
    tracer
}

#[test]
fn constants_are_those_of_the_system() {
    assert_eq!(ESRCH, libc::ESRCH);
    assert_eq!(SIGTRAP as i32, libc::SIGTRAP);
}

#[test]
fn the_exit_code_is_that_of_the_process() {
    let mut tracer = running(&[]);
    status(&mut tracer, WaitStatus::Exited { code: 42 });
    assert_eq!(tracer.next_task(), Task::Finish { result: Ok(42) });
}

#[test]
fn a_signal_makes_an_exit_code() {
    let mut tracer = running(&bound());
    status(&mut tracer, WaitStatus::Signaled { signal: 9 });
    assert_eq!(tracer.next_task(), Task::Finish { result: Ok(137) });
}

#[test]
fn a_process_may_end_before_it_is_attached_to() {
    let gone = |outcome: Outcome| {
        let mut tracer = Tracer::new(&[]);
        tracer.step(Outcome::Failed { errno: ESRCH });
        assert_eq!(tracer.next_task(), Task::Wait);
        tracer.step(outcome);
        tracer.next_task()
    };
    assert_eq!(
        gone(Outcome::Status {
            status: WaitStatus::Exited { code: 3 }
        }),
        Task::Finish { result: Ok(3) }
    );
    assert_eq!(
        gone(Outcome::Status {
            status: WaitStatus::Signaled { signal: 15 }
        }),
        Task::Finish { result: Ok(143) }
    );
    assert_eq!(
        gone(Outcome::Status {
            status: WaitStatus::Stopped { signal: 5 }
        }),
        Task::Finish {
            result: Err(TraceError::AttachFailed)
        }
    );
    assert_eq!(
        gone(Outcome::Failed { errno: 10 }),
        Task::Finish {
            result: Err(TraceError::Errno { errno: 10 })
        }
    );
}

#[test]
fn a_process_may_end_before_its_first_stop() {
    let mut tracer = Tracer::new(&[]);
    tracer.step(Outcome::Done);
    status(&mut tracer, WaitStatus::Exited { code: 0 });
    assert_eq!(tracer.next_task(), Task::Finish { result: Ok(0) });
}

#[test]
fn failures_end_tracing() {
    let failed = Task::Finish {
        result: Err(TraceError::Errno { errno: 1 }),
    };
    let mut tracer = Tracer::new(&[]);
    let mut tracers = vec![tracer];
    tracer.step(Outcome::Done);
    tracers.push(tracer);
    tracer.step(Outcome::Status {
        status: WaitStatus::Continued,
    });
    tracers.push(tracer);
    tracer.step(Outcome::Done);
    tracers.push(tracer);
    tracer.step(Outcome::Done);
    tracers.push(tracer);
    tracer.step(Outcome::Status {
        status: WaitStatus::PtraceSyscall,
    });
    tracers.push(tracer);
    for mut tracer in tracers {
        tracer.step(Outcome::Failed { errno: 1 });
        assert_eq!(tracer.next_task(), failed);
    }
    // Past the first attempt to attach, a process that is gone is an error as any other.
    let mut tracer = running(&[]);
    tracer.step(Outcome::Failed { errno: ESRCH });
    assert_eq!(
        tracer.next_task(),
        Task::Finish {
            result: Err(TraceError::Errno { errno: ESRCH })
        }
    );
}

#[test]
fn system_calls_are_handled_at_their_entry() {
    let mut tracer = running(&bound());
    for _ in 0..3 {
        status(&mut tracer, WaitStatus::PtraceSyscall);
        assert_eq!(tracer.next_task(), Task::HandleSyscall);
        tracer.step(Outcome::Done);
        resumed(&mut tracer, Resume::Syscall, None);
        status(&mut tracer, WaitStatus::PtraceSyscall);
        resumed(&mut tracer, Resume::Syscall, None);
    }
}

#[test]
fn signals_between_entry_and_exit_do_not_count() {
    let mut tracer = running(&bound());
    status(&mut tracer, WaitStatus::PtraceSyscall);
    assert_eq!(tracer.next_task(), Task::HandleSyscall);
    tracer.step(Outcome::Done);
    resumed(&mut tracer, Resume::Syscall, None);
    status(&mut tracer, WaitStatus::Stopped { signal: 10 });
    resumed(&mut tracer, Resume::Syscall, Some(10));
    status(&mut tracer, WaitStatus::PtraceSyscall);
    resumed(&mut tracer, Resume::Syscall, None);
}

#[test]
fn signals_are_delivered_except_sigtrap() {
    for (binds, how) in [(Vec::new(), Resume::Continue), (bound(), Resume::Syscall)] {
        let mut tracer = running(&binds);
        for signal in 1..32u8 {
            status(&mut tracer, WaitStatus::Stopped { signal });
            let delivered = if signal == SIGTRAP { None } else { Some(signal) };
            resumed(&mut tracer, how, delivered);
        }
        status(&mut tracer, WaitStatus::PtraceEvent);
        resumed(&mut tracer, how, None);
        status(&mut tracer, WaitStatus::Continued);
        resumed(&mut tracer, how, None);
        status(&mut tracer, WaitStatus::StillAlive);
        assert_eq!(tracer.next_task(), Task::Wait);
    }
}
