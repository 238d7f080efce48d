//! The life of a traced process, from attaching to it to its end.
//!
//! `Tracer` decides what is to be done. Its caller does it, and reports back.
use vstd::prelude::*;

verus! {

/// The error of an attempt to attach to a process that is no longer there.
pub const ESRCH: i32 = 3;

/// The signal by which a process reports that it is traced.
pub const SIGTRAP: u8 = 5;

/// The exit code of a process that a signal ended is this plus the number of the signal.
pub const SIGNALED: i32 = 128;

/// What a process was found to do.
#[derive(Clone, Copy, Debug, PartialEq, Eq, Structural)]
pub enum WaitStatus {
    /// It ended by itself, with this exit code.
    Exited { code: i32 },
    /// This signal ended it.
    Signaled { signal: u8 },
    /// It stopped on this signal.
    Stopped { signal: u8 },
    /// It stopped at an event of tracing.
    PtraceEvent,
    /// It stopped at the entry to a system call, or at the exit from one.
    PtraceSyscall,
    /// It continued.
    Continued,
    /// It did nothing.
    StillAlive,
}

/// How a process is traced.
#[derive(Clone, Copy, Debug, PartialEq, Eq, Structural)]
pub struct TraceOptions {
    /// Whether the stop at a system call can be told from one on a `SIGTRAP`.
    pub sysgood: bool,
    /// Whether the process ends when its tracer does.
    pub exit_kill: bool,
}

/// How far a process is let go.
#[derive(Clone, Copy, Debug, PartialEq, Eq, Structural)]
pub enum Resume {
    /// To the next system call.
    Syscall,
    /// To the next signal.
    Continue,
}

/// Why tracing failed.
#[derive(Clone, Copy, Debug, PartialEq, Eq, Structural)]
pub enum TraceError {
    /// An operation failed, with this error.
    Errno { errno: i32 },
    /// The process could not be attached to, and did not end either.
    AttachFailed,
}

/// What tracing needs done.
#[derive(Clone, Copy, Debug, PartialEq, Eq)]
pub enum Task {
    /// Attach to the process.
    Attach,
    /// Wait for the process to do something.
    Wait,
    /// Set these tracing options.
    SetOptions { options: TraceOptions },
    /// Let the process go, with this signal for it.
    Resume { how: Resume, signal: Option<u8> },
    /// Rewrite the system call that the process entered.
    HandleSyscall,
    /// Nothing: tracing is over, with the exit code of the process.
    Finish { result: Result<i32, TraceError> },
}

/// What tracing is told.
#[derive(Clone, Copy, Debug, PartialEq, Eq, Structural)]
pub enum Outcome {
    /// What was asked for has been done.
    Done,
    /// It failed, with this error.
    Failed { errno: i32 },
    /// What the process was found to do.
    Status { status: WaitStatus },
}

/// How far tracing has come.
#[derive(Clone, Copy, Debug, PartialEq, Eq)]
pub enum Stage {
    /// To be attached to.
    Attach,
    /// Not there to be attached to: to be waited for.
    Reap,
    /// Attached to: to be waited for.
    FirstStop,
    /// Stopped for the first time: to be given its options.
    Configure,
    /// Stopped: to be let go.
    Resume { how: Resume, signal: Option<u8> },
    /// Let go: to be waited for.
    Wait,
    /// Stopped at the entry to a system call.
    Handle,
    /// Over.
    Over { result: Result<i32, TraceError> },
}

/// The exit code of a process that ended.
pub open spec fn exit_code(status: WaitStatus) -> Option<i32> {
    match status {
        WaitStatus::Exited { code } => Some(code),
        WaitStatus::Signaled { signal } => Some((SIGNALED + signal) as i32),
        _ => None,
    }
}

/// The tracing of one process.
#[derive(Clone, Copy, Debug, PartialEq, Eq)]
pub struct Tracer {
    /// Whether system calls are looked at.
    pub syscall_tracing: bool,
    /// Whether the process is in a system call.
    pub in_syscall: bool,
    pub stage: Stage,
}

impl Tracer {
    /// Before anything is done. System calls are looked at if there are binds.
    pub open spec fn start(bound: bool) -> Tracer {
        Tracer { syscall_tracing: bound, in_syscall: false, stage: Stage::Attach }
    }

    /// What is to be done at this stage.
    pub open spec fn task(self) -> Task {
        match self.stage {
            Stage::Attach => Task::Attach,
            Stage::Reap | Stage::FirstStop | Stage::Wait => Task::Wait,
            Stage::Configure => Task::SetOptions {
                options: TraceOptions { sysgood: true, exit_kill: true },
            },
            Stage::Resume { how, signal } => Task::Resume { how, signal },
            Stage::Handle => Task::HandleSyscall,
            Stage::Over { result } => Task::Finish { result },
        }
    }

    /// Whether `outcome` is one of the task at this stage.
    pub open spec fn expects(self, outcome: Outcome) -> bool {
        match self.task() {
            Task::Finish { .. } => false,
            Task::Wait => outcome is Status || outcome is Failed,
            _ => outcome is Done || outcome is Failed,
        }
    }

    /// At `stage`.
    pub open spec fn at(self, stage: Stage) -> Tracer {
        Tracer { stage, ..self }
    }

    /// Over, with the error of an operation.
    pub open spec fn failed(self, errno: i32) -> Tracer {
        self.at(Stage::Over { result: Err(TraceError::Errno { errno }) })
    }

    /// To be let go as far as the binds ask for.
    pub open spec fn released(self, signal: Option<u8>) -> Tracer {
        self.at(
            Stage::Resume {
                how: if self.syscall_tracing {
                    Resume::Syscall
                } else {
                    Resume::Continue
                },
                signal,
            },
        )
    }

    /// To be let go to the next system call, whatever the binds.
    pub open spec fn released_to_syscall(self) -> Tracer {
        self.at(Stage::Resume { how: Resume::Syscall, signal: None })
    }

    /// The process, once let go, was found to do this.
    pub open spec fn observed(self, status: WaitStatus) -> Tracer {
        match status {
            WaitStatus::PtraceSyscall => {
                let toggled = Tracer { in_syscall: !self.in_syscall, ..self };
                if toggled.in_syscall {
                    toggled.at(Stage::Handle)
                } else {
                    toggled.released_to_syscall()
                }
            },
            WaitStatus::PtraceEvent | WaitStatus::Continued => self.released(None),
            WaitStatus::Stopped { signal } => self.released(
                if signal == SIGTRAP {
                    None
                } else {
                    Some(signal)
                },
            ),
            _ => self,
        }
    }

    /// What follows `outcome`.
    pub open spec fn after(self, outcome: Outcome) -> Tracer {
        match outcome {
            Outcome::Failed { errno } => if self.stage is Attach && errno == ESRCH {
                self.at(Stage::Reap)
            } else {
                self.failed(errno)
            },
            Outcome::Status { status } => match exit_code(status) {
                Some(code) => self.at(Stage::Over { result: Ok(code) }),
                None => match self.stage {
                    Stage::Reap => self.at(Stage::Over { result: Err(TraceError::AttachFailed) }),
                    Stage::FirstStop => self.at(Stage::Configure),
                    _ => self.observed(status),
                },
            },
            Outcome::Done => match self.stage {
                Stage::Attach => self.at(Stage::FirstStop),
                Stage::Configure => self.released(None),
                Stage::Handle => self.released_to_syscall(),
                _ => self.at(Stage::Wait),
            },
        }
    }

    /// Before anything is done.
    pub fn new(binds: &[(String, String)]) -> (r: Tracer)
        ensures
            r == Tracer::start(binds@.len() > 0),
            r.syscall_tracing <==> binds@.len() > 0,
            r.task() is Attach,
    {
        Tracer { syscall_tracing: !binds.is_empty(), in_syscall: false, stage: Stage::Attach }
    }

    /// What is to be done now.
    pub fn next_task(&self) -> (r: Task)
        ensures
            r == self.task(),
    {
        match self.stage {
            Stage::Attach => Task::Attach,
            Stage::Reap => Task::Wait,
            Stage::FirstStop => Task::Wait,
            Stage::Wait => Task::Wait,
            Stage::Configure => Task::SetOptions {
                options: TraceOptions { sysgood: true, exit_kill: true },
            },
            Stage::Resume { how, signal } => Task::Resume { how, signal },
            Stage::Handle => Task::HandleSyscall,
            Stage::Over { result } => Task::Finish { result },
        }
    }

    /// Has the process let go as far as the binds ask for.
    fn release(&mut self, signal: Option<u8>)
        ensures
            *final(self) == old(self).released(signal),
    {
        let how = if self.syscall_tracing {
            Resume::Syscall
        } else {
            Resume::Continue
        };
        self.stage = Stage::Resume { how, signal };
    }

    /// Has the process let go to its next system call.
    fn release_to_syscall(&mut self)
        ensures
            *final(self) == old(self).released_to_syscall(),
    {
        self.stage = Stage::Resume { how: Resume::Syscall, signal: None };
    }

    /// Takes in what the process, once let go, was found to do.
    fn observe(&mut self, status: WaitStatus)
        ensures
            *final(self) == old(self).observed(status),
    {
        match status {
            WaitStatus::PtraceSyscall => {
                self.in_syscall = !self.in_syscall;
                if self.in_syscall {
                    self.stage = Stage::Handle;
                } else {
                    self.release_to_syscall();
                }
            },
            WaitStatus::PtraceEvent => self.release(None),
            WaitStatus::Continued => self.release(None),
            WaitStatus::Stopped { signal } => {
                let deliver = if signal == SIGTRAP {
                    None
                } else {
                    Some(signal)
                };
                self.release(deliver);
            },
            _ => {},
        }
    }

    /// Takes in the outcome of the task.
    pub fn step(&mut self, outcome: Outcome)
        requires
            old(self).expects(outcome),
        ensures
            *final(self) == old(self).after(outcome),
            outcome matches Outcome::Status { status: WaitStatus::Exited { code } }
                ==> final(self).task() == (Task::Finish { result: Ok::<i32, TraceError>(code) }),
            outcome matches Outcome::Status { status: WaitStatus::Signaled { signal } }
                ==> final(self).task() == (Task::Finish { result: Ok::<i32, TraceError>((128 + signal) as i32) }),
    {
        match outcome {
            Outcome::Failed { errno } => match self.stage {
                Stage::Attach if errno == ESRCH => {
                    self.stage = Stage::Reap;
                },
                _ => {
                    self.stage = Stage::Over { result: Err(TraceError::Errno { errno }) };
                },
            },
            Outcome::Status { status: WaitStatus::Exited { code } } => {
                self.stage = Stage::Over { result: Ok(code) };
            },
            Outcome::Status { status: WaitStatus::Signaled { signal } } => {
                self.stage = Stage::Over { result: Ok(SIGNALED + signal as i32) };
            },
            Outcome::Status { status } => match self.stage {
                Stage::Reap => {
                    self.stage = Stage::Over { result: Err(TraceError::AttachFailed) };
                },
                Stage::FirstStop => {
                    self.stage = Stage::Configure;
                },
                _ => self.observe(status),
            },
            Outcome::Done => match self.stage {
                Stage::Attach => {
                    self.stage = Stage::FirstStop;
                },
                Stage::Configure => self.release(None),
                Stage::Handle => self.release_to_syscall(),
                _ => {
                    self.stage = Stage::Wait;
                },
            },
        }
    }
}

/// Where a tracer stands after some outcomes.
pub open spec fn ran(tracer: Tracer, outcomes: Seq<Outcome>) -> Tracer
    decreases outcomes.len(),
{
    if outcomes.len() == 0 {
        tracer
    } else {
        ran(tracer, outcomes.drop_last()).after(outcomes.last())
    }
}

/// Whether each of some outcomes is one of the task at its time.
pub open spec fn orderly(tracer: Tracer, outcomes: Seq<Outcome>) -> bool
    decreases outcomes.len(),
{
    outcomes.len() == 0 || (orderly(tracer, outcomes.drop_last()) && ran(
        tracer,
        outcomes.drop_last(),
    ).expects(outcomes.last()))
}

/// How often the process, once let go, stopped at a system call.
pub open spec fn syscall_stops(tracer: Tracer, outcomes: Seq<Outcome>) -> nat
    decreases outcomes.len(),
{
    if outcomes.len() == 0 {
        0
    } else {
        let before = ran(tracer, outcomes.drop_last());
        let stopped = before.stage is Wait && outcomes.last() == (Outcome::Status {
            status: WaitStatus::PtraceSyscall,
        });
        syscall_stops(tracer, outcomes.drop_last()) + if stopped {
            1nat
        } else {
            0
        }
    }
}

/// The stops at system calls are entries and exits in turn, and system calls are rewritten at
/// their entries only.
pub proof fn law_entries_and_exits_alternate(bound: bool, outcomes: Seq<Outcome>)
    requires
        orderly(Tracer::start(bound), outcomes),
    ensures
        ({
            let tracer = ran(Tracer::start(bound), outcomes);
            &&& tracer.in_syscall <==> syscall_stops(Tracer::start(bound), outcomes) % 2 == 1
            &&& tracer.stage is Handle ==> tracer.in_syscall
            &&& tracer.syscall_tracing == bound
        }),
    decreases outcomes.len(),
{
    if outcomes.len() > 0 {
        law_entries_and_exits_alternate(bound, outcomes.drop_last());
    }
}

/// A tracer that ends with an exit code was told just before that the process ended with it.
pub proof fn law_exit_code_is_that_of_the_process(bound: bool, outcomes: Seq<Outcome>, code: i32)
    requires
        orderly(Tracer::start(bound), outcomes),
        ran(Tracer::start(bound), outcomes).task() == (Task::Finish {
            result: Ok::<i32, TraceError>(code),
        }),
    ensures
        outcomes.len() > 0,
        outcomes.last() matches Outcome::Status { status } && exit_code(status) == Some(code),
{
}

/// Whenever a process is found to have ended, tracing ends with its exit code.
pub proof fn law_end_of_the_process_ends_tracing(tracer: Tracer, status: WaitStatus, code: i32)
    requires
        tracer.task() is Wait,
        exit_code(status) == Some(code),
    ensures
        tracer.after(Outcome::Status { status }).task() == (Task::Finish {
            result: Ok::<i32, TraceError>(code),
        }),
{
}

/// A failure ends tracing with its error, but for that to attach to a process that is gone.
pub proof fn law_failure_ends_tracing(tracer: Tracer, errno: i32)
    requires
        tracer.expects(Outcome::Failed { errno }),
        !(tracer.stage is Attach && errno == ESRCH),
    ensures
        tracer.after(Outcome::Failed { errno }).task() == (Task::Finish {
            result: Err::<i32, TraceError>(TraceError::Errno { errno }),
        }),
{
}

/// A process that stopped on a signal is let go with that signal, but for `SIGTRAP`, which it is
/// not given.
pub proof fn law_signals_are_delivered(tracer: Tracer, signal: u8)
    requires
        tracer.stage is Wait,
    ensures
        tracer.after(Outcome::Status { status: WaitStatus::Stopped { signal } }).task() == (
        Task::Resume {
            how: if tracer.syscall_tracing {
                Resume::Syscall
            } else {
                Resume::Continue
            },
            signal: if signal == SIGTRAP {
                None
            } else {
                Some(signal)
            },
        }),
{
}

/// A process that stopped is let go once, and then waited for again. At the entry to a system
/// call this comes after the call has been rewritten.
pub proof fn law_stopped_process_goes_on(tracer: Tracer, status: WaitStatus)
    requires
        tracer.stage is Wait,
        exit_code(status) is None,
        !(status is StillAlive),
    ensures
        ({
            let stopped = tracer.after(Outcome::Status { status });
            let ready = if stopped.task() is HandleSyscall {
                stopped.after(Outcome::Done)
            } else {
                stopped
            };
            &&& ready.task() is Resume
            &&& ready.after(Outcome::Done).task() is Wait
        }),
{
}

/// Without binds, a process that never stops at a system call is never made to.
pub proof fn law_system_calls_are_not_looked_at_without_binds(outcomes: Seq<Outcome>)
    requires
        orderly(Tracer::start(false), outcomes),
        syscall_stops(Tracer::start(false), outcomes) == 0,
    ensures
        ({
            let task = ran(Tracer::start(false), outcomes).task();
            &&& !(task is HandleSyscall)
            &&& task matches Task::Resume { how, .. } ==> how == Resume::Continue
        }),
    decreases outcomes.len(),
{
    if outcomes.len() > 0 {
        law_entries_and_exits_alternate(false, outcomes.drop_last());
        law_system_calls_are_not_looked_at_without_binds(outcomes.drop_last());
    }
}

/// With binds, a process is let go to its next system call each time.
pub proof fn law_system_calls_are_looked_at_with_binds(outcomes: Seq<Outcome>)
    requires
        orderly(Tracer::start(true), outcomes),
    ensures
        ran(Tracer::start(true), outcomes).task() matches Task::Resume { how, .. } ==> how
            == Resume::Syscall,
    decreases outcomes.len(),
{
    if outcomes.len() > 0 {
        law_entries_and_exits_alternate(true, outcomes.drop_last());
        law_system_calls_are_looked_at_with_binds(outcomes.drop_last());
    }
}

/// Wherever a process is waited for, its end ends tracing: if it exited, with the very code that
/// it exited with, and if a signal killed it, with 128 and the number of that signal.
pub proof fn law_end_gives_code(tracer: Tracer, code: i32, signal: u8)
    requires
        tracer.task() is Wait,
    ensures
        tracer.after(Outcome::Status { status: WaitStatus::Exited { code } }).task() == (
        Task::Finish { result: Ok::<i32, TraceError>(code) }),
        tracer.after(Outcome::Status { status: WaitStatus::Signaled { signal } }).task() == (
        Task::Finish { result: Ok::<i32, TraceError>((128 + signal) as i32) }),
{
}

/// Tracing ends with a code only because the process was just found to have exited with that code,
/// or to have been killed by the signal whose number and 128 make it.
pub proof fn law_code_comes_from_the_end(tracer: Tracer, outcome: Outcome, code: i32)
    requires
        tracer.expects(outcome),
        tracer.after(outcome).task() == (Task::Finish { result: Ok::<i32, TraceError>(code) }),
    ensures
        outcome == (Outcome::Status { status: WaitStatus::Exited { code } }) || (
        outcome matches Outcome::Status { status: WaitStatus::Signaled { signal } } && code == 128
            + signal),
{
}

/// A tracing starts by attaching to the process. If that cannot be done because there is no such
/// process (error 3), the process is waited for once, and if that does not show its end, tracing
/// ends with the error that it could not be attached to.
pub proof fn law_attaching(bound: bool, errno: i32, status: WaitStatus)
    ensures
        ({
            let tracer = Tracer::start(bound);
            let gone = tracer.after(Outcome::Failed { errno: 3 });
            &&& tracer.task() is Attach
            &&& tracer.syscall_tracing == bound
            &&& !tracer.in_syscall
            &&& gone.task() is Wait
            &&& !(status is Exited) && !(status is Signaled) ==> gone.after(
                Outcome::Status { status },
            ).task() == (Task::Finish { result: Err::<i32, TraceError>(TraceError::AttachFailed) })
            &&& errno != 3 ==> tracer.after(Outcome::Failed { errno }).task() == (Task::Finish {
                result: Err::<i32, TraceError>(TraceError::Errno { errno }),
            })
        }),
{
}

/// A process that was attached to is waited for. At its first stop it is told to mark its stops
/// at system calls and to be killed with its tracer. Then it is let go without a signal, to its
/// next system call if there are binds, and waited for again.
pub proof fn law_first_steps(bound: bool, status: WaitStatus)
    requires
        !(status is Exited),
        !(status is Signaled),
    ensures
        ({
            let attached = Tracer::start(bound).after(Outcome::Done);
            let stopped = attached.after(Outcome::Status { status });
            let configured = stopped.after(Outcome::Done);
            let going = configured.after(Outcome::Done);
            &&& attached.task() is Wait
            &&& stopped.task() == (Task::SetOptions {
                options: TraceOptions { sysgood: true, exit_kill: true },
            })
            &&& configured.task() == (Task::Resume {
                how: if bound {
                    Resume::Syscall
                } else {
                    Resume::Continue
                },
                signal: None,
            })
            &&& going == (Tracer { syscall_tracing: bound, in_syscall: false, stage: Stage::Wait })
        }),
{
}

/// A process that was let go and is found to have stopped goes on. At a stop at a system call
/// that it enters, the call is handled, and then, as after the stop at which it leaves the call,
/// it is let go to the next one. At any other stop it is let go as far as the binds ask for, with
/// the signal that it stopped on, unless that is 5, the signal of a trap. A process that has
/// done nothing is waited for again.
pub proof fn law_stops(tracer: Tracer, signal: u8)
    requires
        tracer.stage is Wait,
    ensures
        ({
            let at_call = tracer.after(Outcome::Status { status: WaitStatus::PtraceSyscall });
            let go = Task::Resume { how: Resume::Syscall, signal: None };
            &&& at_call.in_syscall == !tracer.in_syscall
            &&& !tracer.in_syscall ==> at_call.task() is HandleSyscall
            &&& !tracer.in_syscall ==> at_call.after(Outcome::Done).task() == go
            &&& !tracer.in_syscall ==> at_call.after(Outcome::Done).in_syscall
            &&& !tracer.in_syscall ==> at_call.after(Outcome::Done).after(Outcome::Done)
                == at_call.at(Stage::Wait)
            &&& tracer.in_syscall ==> at_call.task() == go
            &&& tracer.in_syscall ==> at_call.after(Outcome::Done) == at_call.at(Stage::Wait)
            &&& at_call.syscall_tracing == tracer.syscall_tracing
        }),
        ({
            let how = if tracer.syscall_tracing {
                Resume::Syscall
            } else {
                Resume::Continue
            };
            let event = tracer.after(Outcome::Status { status: WaitStatus::PtraceEvent });
            let continued = tracer.after(Outcome::Status { status: WaitStatus::Continued });
            let stopped = tracer.after(Outcome::Status { status: WaitStatus::Stopped { signal } });
            &&& event.task() == (Task::Resume { how, signal: None })
            &&& event.after(Outcome::Done) == tracer
            &&& continued.task() == (Task::Resume { how, signal: None })
            &&& continued.after(Outcome::Done) == tracer
            &&& stopped.task() == (Task::Resume {
                how,
                signal: if signal == 5 {
                    None
                } else {
                    Some(signal)
                },
            })
            &&& stopped.after(Outcome::Done) == tracer
        }),
        tracer.after(Outcome::Status { status: WaitStatus::StillAlive }) == tracer,
{
}

/// Any outcome is expected that its task can have: a status of a wait, success of anything else,
/// and failure of either. Of a tracing that is over nothing is expected.
pub proof fn law_expected_outcomes(tracer: Tracer, status: WaitStatus, errno: i32)
    ensures
        tracer.expects(Outcome::Status { status }) <==> tracer.task() is Wait,
        tracer.expects(Outcome::Done) <==> !(tracer.task() is Wait) && !(tracer.task() is Finish),
        tracer.expects(Outcome::Failed { errno }) <==> !(tracer.task() is Finish),
        tracer.task() is Finish <==> tracer.stage is Over,
        tracer.task() is Wait <==> tracer.stage is Reap || tracer.stage is FirstStop
            || tracer.stage is Wait,
{
}

} // verus!
