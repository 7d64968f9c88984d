//! Values exchanged between a scheduler and the driver that steps it.
use vstd::prelude::*;

verus! {

/// A process identifier. The first forked process is pid 1.
pub type Pid = usize;

/// The state a process is in.
#[derive(Clone, Copy, Debug, PartialEq, Eq)]
pub enum ProcessState {
    Ready,
    Running,
    /// Blocked; `event` is the awaited event, or `None` for a timed sleep.
    Waiting { event: Option<usize> },
}

/// A system call issued by the process on the CPU.
#[derive(Clone, Copy, Debug, PartialEq, Eq)]
pub enum Syscall {
    /// Create a new process with the given priority.
    Fork(i8),
    /// Wake every process waiting for the event.
    Signal(usize),
    /// Sleep for the given number of ticks.
    Sleep(usize),
    /// Wait for the event.
    Wait(usize),
    /// Terminate the calling process.
    Exit,
}

/// Why the process on the CPU stopped running.
#[derive(Clone, Copy, Debug, PartialEq, Eq)]
pub enum StopReason {
    /// Its timeslice ran out.
    Expired,
    /// It issued a system call with `remaining` ticks of its timeslice left.
    Syscall { syscall: Syscall, remaining: usize },
}

/// The outcome of servicing a stop.
#[derive(Clone, Copy, Debug, PartialEq, Eq)]
pub enum SyscallResult {
    Success,
    /// The pid of a freshly forked process.
    Pid(Pid),
    NoRunningProcess,
}

/// What the driver must do next.
#[derive(Clone, Copy, Debug, PartialEq, Eq)]
pub enum SchedulingDecision {
    /// Run `pid` for at most `timeslice` ticks (always positive).
    Run { pid: Pid, timeslice: usize },
    /// Nothing is ready: let this many ticks pass (always positive).
    Sleep(usize),
    /// No process is left.
    Done,
    /// The init process (pid 1) is gone while others remain.
    Panic,
    /// Processes remain, but none is ready and none sleeps on a timer.
    Deadlock,
}

impl StopReason {
    /// Ticks of the timeslice left when the process stopped.
    pub open spec fn remaining_after(self) -> usize {
        match self {
            StopReason::Expired => 0,
            StopReason::Syscall { remaining, .. } => remaining,
        }
    }
}

/// Ticks that passed in a step begun with `budget` ticks and ended with
/// `left` ticks unused.
pub open spec fn elapsed_of(budget: usize, left: usize) -> usize {
    if left <= budget {
        (budget - left) as usize
    } else {
        0
    }
}

/// Addition that stops at `usize::MAX`.
pub open spec fn sat_add(a: usize, b: usize) -> usize {
    if a + b > usize::MAX {
        usize::MAX
    } else {
        (a + b) as usize
    }
}

/// Subtraction that stops at zero.
pub open spec fn sat_sub(a: usize, b: usize) -> usize {
    if a >= b {
        (a - b) as usize
    } else {
        0
    }
}

} // verus!
