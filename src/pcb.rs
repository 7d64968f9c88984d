//! The process control block: the per-process record every scheduler keeps.
use vstd::prelude::*;
use crate::types::{Pid, ProcessState};

verus! {

/// The condition a waiting process wakes up on.
#[derive(Clone, Copy, Debug, PartialEq, Eq)]
pub enum WakeupCondition {
    /// Ticks left before the process wakes up.
    Sleep(usize),
    /// The event the process waits for.
    Signal(usize),
    /// The process is not waiting.
    Awake,
}

/// What a [`Pcb`] holds, as mathematical values.
pub ghost struct PcbView {
    pub pid: Pid,
    pub state: ProcessState,
    /// `(total, syscall, execution)` ticks.
    pub timings: (usize, usize, usize),
    pub vruntime: usize,
    pub wakeup: WakeupCondition,
    pub fork_priority: i8,
    pub priority: i8,
    pub extra: Seq<char>,
}

/// A freshly forked process.
pub open spec fn fresh(pid: Pid, priority: i8, vruntime: usize) -> PcbView {
    PcbView {
        pid,
        state: ProcessState::Ready,
        timings: (0, 0, 0),
        vruntime,
        wakeup: WakeupCondition::Awake,
        fork_priority: priority,
        priority,
        extra: Seq::empty(),
    }
}

impl PcbView {
    pub open spec fn with_state(self, state: ProcessState) -> PcbView {
        PcbView { state, ..self }
    }

    pub open spec fn with_wakeup(self, wakeup: WakeupCondition) -> PcbView {
        PcbView { wakeup, ..self }
    }

    /// Timings after `total`, `syscall` and `execution` more ticks (saturating).
    pub open spec fn charged(self, total: usize, syscall: usize, execution: usize) -> PcbView {
        PcbView {
            timings: (
                crate::types::sat_add(self.timings.0, total),
                crate::types::sat_add(self.timings.1, syscall),
                crate::types::sat_add(self.timings.2, execution),
            ),
            ..self
        }
    }

    /// Priority one higher, but never above the fork priority.
    pub open spec fn raised(self) -> PcbView {
        if self.priority < self.fork_priority {
            PcbView { priority: (self.priority + 1) as i8, ..self }
        } else {
            self
        }
    }

    /// Priority one lower, but never under zero.
    pub open spec fn lowered(self) -> PcbView {
        if self.priority > 0 {
            PcbView { priority: (self.priority - 1) as i8, ..self }
        } else {
            self
        }
    }
}

/// A process control block.
#[derive(Clone, Debug)]
pub struct Pcb {
    pid: Pid,
    process_state: ProcessState,
    /// Ticks since the fork.
    total_time: usize,
    /// Ticks spent in system calls.
    syscall_time: usize,
    /// Ticks spent on the processor.
    execution_time: usize,
    vruntime: usize,
    wakeup: WakeupCondition,
    /// The priority the process was forked with; aging never goes above it.
    fork_priority: i8,
    priority: i8,
    /// A free-form annotation.
    extra: String,
}

impl View for Pcb {
    type V = PcbView;

    closed spec fn view(&self) -> PcbView {
        PcbView {
            pid: self.pid,
            state: self.process_state,
            timings: (self.total_time, self.syscall_time, self.execution_time),
            vruntime: self.vruntime,
            wakeup: self.wakeup,
            fork_priority: self.fork_priority,
            priority: self.priority,
            extra: self.extra@,
        }
    }
}

impl Pcb {
    /// A new ready process with zero timings, no wakeup condition and an
    /// empty annotation.
    pub fn new(pid: Pid, priority: i8, vruntime: usize) -> (r: Self)
        ensures
            r@ == fresh(pid, priority, vruntime),
    {
        Pcb {
            pid,
            process_state: ProcessState::Ready,
            total_time: 0,
            syscall_time: 0,
            execution_time: 0,
            vruntime,
            wakeup: WakeupCondition::Awake,
            fork_priority: priority,
            priority,
            extra: String::new(),
        }
    }

    pub fn set_state(&mut self, state: ProcessState)
        ensures
            final(self)@ == old(self)@.with_state(state),
    {
        self.process_state = state;
    }

    pub fn vruntime(&self) -> (r: usize)
        ensures
            r == self@.vruntime,
    {
        self.vruntime
    }

    pub fn wakeup(&self) -> (r: WakeupCondition)
        ensures
            r == self@.wakeup,
    {
        self.wakeup
    }

    pub fn set_wakeup(&mut self, wakeup: WakeupCondition)
        ensures
            final(self)@ == old(self)@.with_wakeup(wakeup),
    {
        self.wakeup = wakeup;
    }

    pub fn set_extra(&mut self, extra: String)
        ensures
            final(self)@ == (PcbView { extra: extra@, ..old(self)@ }),
    {
        self.extra = extra;
    }

    /// Adds `time` to the virtual runtime (saturating).
    pub fn advance_vruntime(&mut self, time: usize)
        ensures
            final(self)@ == (PcbView {
                vruntime: crate::types::sat_add(old(self)@.vruntime, time),
                ..old(self)@
            }),
    {
        self.vruntime = self.vruntime.saturating_add(time);
    }

    /// Adds to the total, syscall and execution times (each saturating).
    pub fn increment_timings(&mut self, total_time: usize, syscall_time: usize, execution_time: usize)
        ensures
            final(self)@ == old(self)@.charged(total_time, syscall_time, execution_time),
    {
        self.total_time = self.total_time.saturating_add(total_time);
        self.syscall_time = self.syscall_time.saturating_add(syscall_time);
        self.execution_time = self.execution_time.saturating_add(execution_time);
    }

    /// Raises the priority by one, but not above the fork priority.
    pub fn increment_priority(&mut self)
        ensures
            final(self)@ == old(self)@.raised(),
    {
        if self.priority < self.fork_priority {
            self.priority = self.priority + 1;
        }
    }

    /// Lowers the priority by one, but not under zero.
    pub fn decrement_priority(&mut self)
        ensures
            final(self)@ == old(self)@.lowered(),
    {
        if self.priority > 0 {
            self.priority = self.priority - 1;
        }
    }

    pub fn pid(&self) -> (r: Pid)
        ensures
            r == self@.pid,
    {
        self.pid
    }

    pub fn state(&self) -> (r: ProcessState)
        ensures
            r == self@.state,
    {
        self.process_state
    }

    /// `(total, syscall, execution)` ticks.
    pub fn timings(&self) -> (r: (usize, usize, usize))
        ensures
            r == self@.timings,
    {
        (self.total_time, self.syscall_time, self.execution_time)
    }

    pub fn priority(&self) -> (r: i8)
        ensures
            r == self@.priority,
    {
        self.priority
    }

    pub fn fork_priority(&self) -> (r: i8)
        ensures
            r == self@.fork_priority,
    {
        self.fork_priority
    }

    pub fn extra(&self) -> (r: String)
        ensures
            r@ == self@.extra,
    {
        self.extra.clone()
    }
}

} // verus!
