//! Round robin: one first-in first-out ready queue and a fixed timeslice.
use vstd::prelude::*;
use crate::pcb::{fresh, Pcb, PcbView, WakeupCondition};
use crate::procs::{
    pid_strict, lemma_bag_of_multiset, lemma_sorted_unique,
    bag, ignores_status, lemma_bag4, lemma_bag_concat, lemma_bag_empty,
    lemma_bag_push, lemma_bag_signalled, lemma_bag_take, lemma_bag_single, lemma_bag_split,
    lemma_has_pid_bag, lemma_pids_kept, lemma_projections_ignore_status, pid_of,
    stamp, holds_sleep, pid_bag, idle_stamp, lemma_stamps_idle,
    all_idle_for, all_signalled, find_pid, find_sleep_time, has_pid, lemma_idle_keeps,
    lemma_signal_keeps, lemma_sleep_positive, lemma_split_keeps, opt_view, pass_time, ran_for,
    opt_seq, pid_sorted, push_refs, ready_well, ref_views, shortest_sleep, sort_by_pid, signal_waiters, still_blocked, take_ready, views, waits_or_woke,
    waits_well, woken,
};
use crate::types::{elapsed_of, Pid, ProcessState, SchedulingDecision, StopReason, Syscall, SyscallResult};

verus! {

/// The state of a [`RoundRobinScheduler`], as mathematical values.
pub ghost struct RoundRobinView {
    /// The process on the processor.
    pub running: Option<PcbView>,
    /// The process whose stop is being serviced; empty between calls.
    pub stopped: Option<PcbView>,
    /// Ticks left of the running process's timeslice.
    pub remaining_time: usize,
    pub ready: Seq<PcbView>,
    pub waiting: Seq<PcbView>,
    pub timeslice: usize,
    /// The least timeslice left that keeps a process on the processor after
    /// a system call.
    pub minimum_remaining_timeslice: usize,
    /// The last pid handed out.
    pub highest_pid: usize,
    /// Ticks the next decision lets pass before anything else.
    pub sleep_time: usize,
}

impl RoundRobinView {
    /// The state between two calls.
    pub open spec fn wf(self) -> bool {
        &&& self.timeslice > 0
        &&& self.stopped is None
        &&& (self.running is Some <==> self.remaining_time > 0)
        &&& (self.running matches Some(p) ==> p.state == ProcessState::Running && p.wakeup
            == WakeupCondition::Awake)
        &&& forall|i: int| 0 <= i < self.ready.len() ==> ready_well(#[trigger] self.ready[i])
        &&& forall|i: int| 0 <= i < self.waiting.len() ==> waits_well(#[trigger] self.waiting[i])
    }

    /// Whether the scheduler may be stopped for `reason`: a system call costs
    /// one tick of the timeslice, a sleep lasts at least one tick, and there
    /// must be a pid left to hand out.
    pub open spec fn accepts(self, reason: StopReason) -> bool {
        match reason {
            StopReason::Expired => true,
            StopReason::Syscall { syscall, remaining } => {
                &&& (self.running is Some ==> remaining < self.remaining_time)
                &&& (syscall matches Syscall::Sleep(n) ==> n > 0)
                &&& (syscall is Fork ==> self.highest_pid < usize::MAX)
            },
        }
    }

    /// Every process the scheduler holds.
    pub open spec fn processes(self) -> Seq<PcbView> {
        opt_seq(self.running) + self.ready + self.waiting
    }

    /// Every process, the stopped one included.
    pub open spec fn everyone(self) -> Seq<PcbView> {
        opt_seq(self.running) + opt_seq(self.stopped) + self.ready + self.waiting
    }

    /// Each pid is held by at most one process, and only pids handed out are held.
    pub open spec fn pids_unique(self) -> bool {
        forall|pid: Pid|
            #[trigger] pid_bag(self.everyone()).count(pid) <= 1 && (pid_bag(self.everyone()).count(pid)
                > 0 ==> 1 <= pid <= self.highest_pid)
    }

    /// Is no process left anywhere?
    pub open spec fn is_done(self) -> bool {
        self.running is None && self.ready.len() == 0 && self.waiting.len() == 0
    }

    /// Does the init process exist?
    pub open spec fn pid_1_exists(self) -> bool {
        ||| (self.running matches Some(p) && p.pid == 1)
        ||| has_pid(self.ready, 1)
        ||| has_pid(self.waiting, 1)
    }

    /// Waiters marked ready move to the back of the ready queue.
    pub open spec fn promoted(self) -> Self {
        RoundRobinView { ready: self.ready + woken(self.waiting), waiting: still_blocked(self.waiting), ..self }
    }

    /// The pending sleep, if any, has passed.
    pub open spec fn slept(self) -> Self {
        if self.sleep_time != 0 {
            RoundRobinView {
                waiting: all_idle_for(self.waiting, self.sleep_time),
                sleep_time: 0,
                ..self
            }.promoted()
        } else {
            self
        }
    }

    /// The state and decision after `next`.
    pub open spec fn after_next(self) -> (Self, SchedulingDecision) {
        let s = self.slept();
        if s.is_done() {
            (s, SchedulingDecision::Done)
        } else if !s.pid_1_exists() {
            (s, SchedulingDecision::Panic)
        } else if s.running is Some {
            (s, SchedulingDecision::Run { pid: s.running->0.pid, timeslice: s.remaining_time })
        } else if s.ready.len() > 0 {
            (
                RoundRobinView {
                    running: Some(s.ready[0].with_state(ProcessState::Running)),
                    ready: s.ready.drop_first(),
                    remaining_time: s.timeslice,
                    ..s
                },
                SchedulingDecision::Run { pid: s.ready[0].pid, timeslice: s.timeslice },
            )
        } else {
            match shortest_sleep(s.waiting) {
                Some(n) => (RoundRobinView { sleep_time: n, ..s }, SchedulingDecision::Sleep(n)),
                None => (s, SchedulingDecision::Deadlock),
            }
        }
    }

    /// Ticks that passed in the step that `reason` ends.
    pub open spec fn elapsed(self, reason: StopReason) -> usize {
        elapsed_of(self.remaining_time, reason.remaining_after())
    }

    /// The running process leaves the processor and every process is charged
    /// for the step.
    pub open spec fn charged(self, reason: StopReason) -> Self {
        let e = self.elapsed(reason);
        RoundRobinView {
            running: None,
            stopped: match self.running {
                Some(p) => Some(ran_for(p, e, reason is Syscall)),
                None => None,
            },
            ready: all_idle_for(self.ready, e),
            waiting: all_idle_for(self.waiting, e),
            ..self
        }
    }

    /// The stopped process keeps the processor if enough of its timeslice,
    /// and at least one tick, is left, else it joins the back of the ready queue.
    pub open spec fn resumed(self, remaining: usize) -> Self {
        match self.stopped {
            Some(p) => if remaining >= self.minimum_remaining_timeslice && remaining > 0 {
                RoundRobinView {
                    running: Some(p.with_state(ProcessState::Running)),
                    stopped: None,
                    remaining_time: remaining,
                    ..self
                }
            } else {
                RoundRobinView {
                    ready: self.ready.push(p.with_state(ProcessState::Ready)),
                    stopped: None,
                    remaining_time: 0,
                    ..self
                }
            },
            None => RoundRobinView { remaining_time: 0, ..self },
        }
    }

    /// The stopped process goes to the waiting list with `wakeup`.
    pub open spec fn blocked(self, state: ProcessState, wakeup: WakeupCondition) -> (Self, SyscallResult) {
        match self.stopped {
            Some(p) => (
                RoundRobinView {
                    waiting: self.waiting.push(p.with_state(state).with_wakeup(wakeup)),
                    stopped: None,
                    remaining_time: 0,
                    ..self
                },
                SyscallResult::Success,
            ),
            None => (RoundRobinView { remaining_time: 0, ..self }, SyscallResult::NoRunningProcess),
        }
    }

    /// The state and result after servicing `syscall`.
    pub open spec fn serviced(self, syscall: Syscall, remaining: usize) -> (Self, SyscallResult) {
        match syscall {
            Syscall::Fork(priority) => {
                let pid = (self.highest_pid + 1) as usize;
                (
                    RoundRobinView {
                        ready: self.ready.push(fresh(pid, priority, 0)),
                        highest_pid: pid,
                        ..self
                    }.resumed(remaining),
                    SyscallResult::Pid(pid),
                )
            },
            Syscall::Signal(event) => (
                RoundRobinView { waiting: all_signalled(self.waiting, event), ..self }.promoted().resumed(
                    remaining,
                ),
                SyscallResult::Success,
            ),
            Syscall::Sleep(n) => self.blocked(
                ProcessState::Waiting { event: None },
                WakeupCondition::Sleep(n),
            ),
            Syscall::Wait(event) => self.blocked(
                ProcessState::Waiting { event: Some(event) },
                WakeupCondition::Signal(event),
            ),
            Syscall::Exit => (
                RoundRobinView { stopped: None, remaining_time: 0, ..self },
                SyscallResult::Success,
            ),
        }
    }

    /// The state and result after `stop(reason)`.
    pub open spec fn after_stop(self, reason: StopReason) -> (Self, SyscallResult) {
        let s = self.charged(reason).promoted();
        match reason {
            StopReason::Expired => match s.stopped {
                Some(p) => (
                    RoundRobinView {
                        ready: s.ready.push(p.with_state(ProcessState::Ready)),
                        stopped: None,
                        remaining_time: 0,
                        ..s
                    },
                    SyscallResult::Success,
                ),
                None => (RoundRobinView { remaining_time: 0, ..s }, SyscallResult::NoRunningProcess),
            },
            StopReason::Syscall { syscall, remaining } => s.serviced(syscall, remaining),
        }
    }
}

/// Promotion makes a state whose waiters are each consistent or woken into
/// one whose ready queue and waiting list are consistent.
proof fn lemma_promoted_wf(s: RoundRobinView)
    requires
        forall|i: int| 0 <= i < s.ready.len() ==> ready_well(#[trigger] s.ready[i]),
        forall|i: int| 0 <= i < s.waiting.len() ==> waits_or_woke(#[trigger] s.waiting[i]),
    ensures
        forall|i: int| 0 <= i < s.promoted().ready.len() ==> ready_well(#[trigger] s.promoted().ready[i]),
        forall|i: int| 0 <= i < s.promoted().waiting.len() ==> waits_well(
            #[trigger] s.promoted().waiting[i],
        ),
{
    lemma_split_keeps(s.waiting);
    let r = s.promoted().ready;
    assert forall|i: int| 0 <= i < r.len() implies ready_well(#[trigger] r[i]) by {
        if i >= s.ready.len() {
            assert(r[i] == woken(s.waiting)[i - s.ready.len()]);
        }
    }
}

/// `next` keeps the state consistent, and hands out positive durations.
proof fn lemma_next(s: RoundRobinView)
    requires
        s.wf(),
    ensures
        s.after_next().0.wf(),
        s.after_next().1 matches SchedulingDecision::Run { timeslice, .. } ==> timeslice > 0,
        s.after_next().1 matches SchedulingDecision::Sleep(n) ==> n > 0,
{
    if s.sleep_time != 0 {
        let t = RoundRobinView { waiting: all_idle_for(s.waiting, s.sleep_time), sleep_time: 0, ..s };
        assert forall|i: int| 0 <= i < s.waiting.len() implies waits_or_woke(#[trigger] s.waiting[i]) by {
            assert(waits_well(s.waiting[i]));
        }
        lemma_idle_keeps(s.waiting, s.sleep_time);
        lemma_promoted_wf(t);
    }
    let u = s.slept();
    lemma_sleep_positive(u.waiting);
    if !u.is_done() && u.pid_1_exists() && u.running is None && u.ready.len() > 0 {
        let n = u.after_next().0;
        assert forall|i: int| 0 <= i < n.ready.len() implies ready_well(#[trigger] n.ready[i]) by {
            assert(n.ready[i] == u.ready[i + 1]);
        }
    }
}

/// `stop` keeps the state consistent.
proof fn lemma_stop(s: RoundRobinView, reason: StopReason)
    requires
        s.wf(),
        s.accepts(reason),
    ensures
        s.after_stop(reason).0.wf(),
{
    let c = s.charged(reason);
    let e = s.elapsed(reason);
    assert forall|i: int| 0 <= i < s.waiting.len() implies waits_or_woke(#[trigger] s.waiting[i]) by {
        assert(waits_well(s.waiting[i]));
    }
    lemma_idle_keeps(s.ready, e);
    lemma_idle_keeps(s.waiting, e);
    lemma_promoted_wf(c);
    let p = c.promoted();
    match reason {
        StopReason::Expired => {
            let n = s.after_stop(reason).0;
            assert forall|i: int| 0 <= i < n.ready.len() implies ready_well(#[trigger] n.ready[i]) by {
                if i < p.ready.len() {
                    assert(n.ready[i] == p.ready[i]);
                }
            }
        },
        StopReason::Syscall { syscall, remaining } => {
            match syscall {
                Syscall::Fork(priority) => {
                    let pid = (p.highest_pid + 1) as usize;
                    let f = RoundRobinView { ready: p.ready.push(fresh(pid, priority, 0)), highest_pid: pid, ..p };
                    assert forall|i: int| 0 <= i < f.ready.len() implies ready_well(#[trigger] f.ready[i]) by {
                        if i < p.ready.len() {
                            assert(f.ready[i] == p.ready[i]);
                        }
                    }
                    lemma_resumed_wf(f, remaining);
                },
                Syscall::Signal(event) => {
                    let g = RoundRobinView { waiting: all_signalled(p.waiting, event), ..p };
                    assert forall|i: int| 0 <= i < p.waiting.len() implies waits_or_woke(
                        #[trigger] p.waiting[i],
                    ) by {
                        assert(waits_well(p.waiting[i]));
                    }
                    lemma_signal_keeps(p.waiting, event);
                    lemma_promoted_wf(g);
                    lemma_resumed_wf(g.promoted(), remaining);
                },
                Syscall::Sleep(k) => {
                    let n = s.after_stop(reason).0;
                    assert forall|i: int| 0 <= i < n.waiting.len() implies waits_well(#[trigger] n.waiting[i]) by {
                        if i < p.waiting.len() {
                            assert(n.waiting[i] == p.waiting[i]);
                        }
                    }
                },
                Syscall::Wait(event) => {
                    let n = s.after_stop(reason).0;
                    assert forall|i: int| 0 <= i < n.waiting.len() implies waits_well(#[trigger] n.waiting[i]) by {
                        if i < p.waiting.len() {
                            assert(n.waiting[i] == p.waiting[i]);
                        }
                    }
                },
                Syscall::Exit => {},
            }
        },
    }
}

/// Resuming the stopped process leaves a consistent state.
proof fn lemma_resumed_wf(s: RoundRobinView, remaining: usize)
    requires
        s.timeslice > 0,
        s.running is None,
        forall|i: int| 0 <= i < s.ready.len() ==> ready_well(#[trigger] s.ready[i]),
        forall|i: int| 0 <= i < s.waiting.len() ==> waits_well(#[trigger] s.waiting[i]),
        s.stopped matches Some(p) ==> p.wakeup == WakeupCondition::Awake,
    ensures
        s.resumed(remaining).wf(),
{
    let n = s.resumed(remaining);
    assert forall|i: int| 0 <= i < n.ready.len() implies ready_well(#[trigger] n.ready[i]) by {
        if i < s.ready.len() {
            assert(n.ready[i] == s.ready[i]);
        }
    }
}

/// A round robin scheduler.
pub struct RoundRobinScheduler {
    running_process: Option<Pcb>,
    stopped_process: Option<Pcb>,
    remaining_time: usize,
    ready_processes: Vec<Pcb>,
    waiting_processes: Vec<Pcb>,
    timeslice: usize,
    minimum_remaining_timeslice: usize,
    highest_pid: usize,
    sleep_time: usize,
}

impl View for RoundRobinScheduler {
    type V = RoundRobinView;

    closed spec fn view(&self) -> RoundRobinView {
        RoundRobinView {
            running: opt_view(self.running_process),
            stopped: opt_view(self.stopped_process),
            remaining_time: self.remaining_time,
            ready: views(self.ready_processes@),
            waiting: views(self.waiting_processes@),
            timeslice: self.timeslice,
            minimum_remaining_timeslice: self.minimum_remaining_timeslice,
            highest_pid: self.highest_pid,
            sleep_time: self.sleep_time,
        }
    }
}

impl RoundRobinScheduler {
    /// A scheduler with no process, giving each process `timeslice` ticks.
    pub fn new(timeslice: usize, minimum_remaining_timeslice: usize) -> (r: Self)
        requires
            timeslice > 0,
        ensures
            r@ == (RoundRobinView {
                running: None,
                stopped: None,
                remaining_time: 0,
                ready: Seq::empty(),
                waiting: Seq::empty(),
                timeslice,
                minimum_remaining_timeslice,
                highest_pid: 0,
                sleep_time: 0,
            }),
            r@.wf(),
            r@.pids_unique(),
    {
        proof {
            lemma_bag_empty(|p: PcbView| pid_of(p));
        }
        let r = RoundRobinScheduler {
            running_process: None,
            stopped_process: None,
            remaining_time: 0,
            ready_processes: Vec::new(),
            waiting_processes: Vec::new(),
            timeslice,
            minimum_remaining_timeslice,
            highest_pid: 0,
            sleep_time: 0,
        };
        assert(r@.ready =~= Seq::empty());
        assert(r@.waiting =~= Seq::empty());
        assert(r@.everyone() =~= Seq::empty());
        r
    }

    /// Moves the waiters marked ready to the back of the ready queue.
    fn wakeup_processes(&mut self)
        ensures
            final(self)@ == old(self)@.promoted(),
    {
        let mut woken_up = take_ready(&mut self.waiting_processes);
        let ghost before = self.ready_processes@;
        let ghost added = woken_up@;
        self.ready_processes.append(&mut woken_up);
        assert(views(self.ready_processes@) =~= views(before) + views(added));
    }

    /// Charges every process for the step that `reason` ends.
    fn increment_timings(&mut self, reason: &StopReason)
        requires
            old(self)@.running is None,
            old(self)@.stopped is Some && reason is Syscall ==> reason.remaining_after()
                < old(self)@.remaining_time,
        ensures
            final(self)@ == (RoundRobinView { running: old(self)@.stopped, ..old(self)@ }).charged(
                *reason,
            ),
    {
        let time = match reason {
            StopReason::Expired => self.remaining_time,
            StopReason::Syscall { remaining, .. } => {
                if *remaining <= self.remaining_time {
                    self.remaining_time - *remaining
                } else {
                    0
                }
            },
        };
        match &mut self.stopped_process {
            Some(p) => match reason {
                StopReason::Syscall { .. } => p.increment_timings(time, 1, time - 1),
                StopReason::Expired => p.increment_timings(time, 0, time),
            },
            None => {},
        }
        pass_time(&mut self.ready_processes, time);
        pass_time(&mut self.waiting_processes, time);
    }

    /// Lets the pending sleep pass.
    fn sleep(&mut self)
        requires
            old(self)@.sleep_time != 0,
        ensures
            final(self)@ == old(self)@.slept(),
    {
        pass_time(&mut self.waiting_processes, self.sleep_time);
        self.sleep_time = 0;
        self.wakeup_processes();
    }

    /// Gives the processor back to the stopped process, or queues it.
    fn resume(&mut self, remaining: usize)
        ensures
            final(self)@ == old(self)@.resumed(remaining),
    {
        match self.stopped_process.take() {
            Some(mut p) => {
                if remaining >= self.minimum_remaining_timeslice && remaining > 0 {
                    p.set_state(ProcessState::Running);
                    self.running_process = Some(p);
                    self.remaining_time = remaining;
                } else {
                    p.set_state(ProcessState::Ready);
                    self.ready_processes.push(p);
                    self.remaining_time = 0;
                    assert(self@.ready =~= old(self)@.ready.push(p@));
                }
            },
            None => {
                self.remaining_time = 0;
            },
        }
    }

    /// Moves the stopped process to the waiting list.
    fn block(&mut self, state: ProcessState, wakeup: WakeupCondition) -> (r: SyscallResult)
        ensures
            (final(self)@, r) == old(self)@.blocked(state, wakeup),
    {
        self.remaining_time = 0;
        match self.stopped_process.take() {
            Some(mut p) => {
                p.set_state(state);
                p.set_wakeup(wakeup);
                self.waiting_processes.push(p);
                assert(self@.waiting =~= old(self)@.waiting.push(p@));
                SyscallResult::Success
            },
            None => SyscallResult::NoRunningProcess,
        }
    }

    /// Whether the init process exists.
    fn pid_1_exists(&self) -> (r: bool)
        ensures
            r == self@.pid_1_exists(),
    {
        match &self.running_process {
            Some(p) => {
                if p.pid() == 1 {
                    return true;
                }
            },
            None => {},
        }
        find_pid(&self.ready_processes, 1) || find_pid(&self.waiting_processes, 1)
    }

    /// Services a system call of the stopped process.
    fn syscall_handler(&mut self, syscall: Syscall, remaining: usize) -> (r: SyscallResult)
        requires
            syscall is Fork ==> old(self)@.highest_pid < usize::MAX,
        ensures
            (final(self)@, r) == old(self)@.serviced(syscall, remaining),
    {
        match syscall {
            Syscall::Fork(priority) => {
                self.highest_pid = self.highest_pid + 1;
                let ghost before = self.ready_processes@;
                let child = Pcb::new(self.highest_pid, priority, 0);
                self.ready_processes.push(child);
                assert(views(self.ready_processes@) =~= views(before).push(child@));
                self.resume(remaining);
                SyscallResult::Pid(self.highest_pid)
            },
            Syscall::Signal(event) => {
                signal_waiters(&mut self.waiting_processes, event);
                self.wakeup_processes();
                self.resume(remaining);
                SyscallResult::Success
            },
            Syscall::Sleep(n) => self.block(
                ProcessState::Waiting { event: None },
                WakeupCondition::Sleep(n),
            ),
            Syscall::Wait(event) => self.block(
                ProcessState::Waiting { event: Some(event) },
                WakeupCondition::Signal(event),
            ),
            Syscall::Exit => {
                self.stopped_process = None;
                self.remaining_time = 0;
                SyscallResult::Success
            },
        }
    }

    /// Whether `stop(reason)` may be called now: a system call must leave
    /// at least one tick of the running process's timeslice used, a sleep
    /// must last at least one tick, and a pid must be left to hand out.
    pub fn accepts(&self, reason: &StopReason) -> (r: bool)
        ensures
            r == self@.accepts(*reason),
    {
        match reason {
            StopReason::Expired => true,
            StopReason::Syscall { syscall, remaining } => {
                (self.running_process.is_none() || *remaining < self.remaining_time) && match syscall {
                    Syscall::Sleep(n) => *n > 0,
                    Syscall::Fork(_) => self.highest_pid < usize::MAX,
                    _ => true,
                }
            },
        }
    }

    /// Decides what runs next: lets a pending sleep pass, then reports
    /// completion, a missing init process, the process still on the
    /// processor, the head of the ready queue, a sleep until the nearest
    /// timer, or a deadlock.
    pub fn next(&mut self) -> (r: SchedulingDecision)
        requires
            old(self)@.wf(),
        ensures
            (final(self)@, r) == old(self)@.after_next(),
            final(self)@.wf(),
            r matches SchedulingDecision::Run { timeslice, .. } ==> timeslice > 0,
            r matches SchedulingDecision::Sleep(n) ==> n > 0,
    {
        proof {
            lemma_next(self@);
        }
        if self.sleep_time != 0 {
            self.sleep();
        }
        if self.running_process.is_none() && self.ready_processes.len() == 0
            && self.waiting_processes.len() == 0 {
            return SchedulingDecision::Done;
        }
        if !self.pid_1_exists() {
            return SchedulingDecision::Panic;
        }
        match &self.running_process {
            Some(p) => {
                return SchedulingDecision::Run { pid: p.pid(), timeslice: self.remaining_time };
            },
            None => {},
        }
        if self.ready_processes.len() > 0 {
            let ghost before = self.ready_processes@;
            let mut p = self.ready_processes.remove(0);
            assert(views(self.ready_processes@) =~= views(before).drop_first());
            p.set_state(ProcessState::Running);
            let pid = p.pid();
            self.running_process = Some(p);
            self.remaining_time = self.timeslice;
            return SchedulingDecision::Run { pid, timeslice: self.timeslice };
        }
        match find_sleep_time(&self.waiting_processes) {
            Some(n) => {
                self.sleep_time = n;
                SchedulingDecision::Sleep(n)
            },
            None => SchedulingDecision::Deadlock,
        }
    }

    /// Takes the running process off the processor for `reason`: charges
    /// every process for the step, wakes the waiters whose timer ran out, and
    /// queues the process or services its system call.
    pub fn stop(&mut self, reason: StopReason) -> (r: SyscallResult)
        requires
            old(self)@.wf(),
            old(self)@.accepts(reason),
        ensures
            (final(self)@, r) == old(self)@.after_stop(reason),
            final(self)@.wf(),
    {
        proof {
            lemma_stop(self@, reason);
        }
        self.stopped_process = self.running_process.take();
        self.increment_timings(&reason);
        self.wakeup_processes();
        match reason {
            StopReason::Expired => {
                self.remaining_time = 0;
                match self.stopped_process.take() {
                    Some(mut p) => {
                        p.set_state(ProcessState::Ready);
                        let ghost before = self.ready_processes@;
                        self.ready_processes.push(p);
                        assert(views(self.ready_processes@) =~= views(before).push(p@));
                        SyscallResult::Success
                    },
                    None => SyscallResult::NoRunningProcess,
                }
            },
            StopReason::Syscall { syscall, remaining } => self.syscall_handler(syscall, remaining),
        }
    }

    /// Every process, in ascending pid order.
    pub fn list(&self) -> (r: Vec<&Pcb>)
        ensures
            ref_views(r@).to_multiset() == self@.processes().to_multiset(),
            pid_sorted(ref_views(r@)),
            self@.wf() && self@.pids_unique() ==> pid_strict(ref_views(r@)),
    {
        let mut all: Vec<&Pcb> = Vec::new();
        match &self.running_process {
            Some(p) => {
                all.push(p);
            },
            None => {},
        }
        assert(ref_views(all@) =~= opt_seq(self@.running));
        push_refs(&mut all, &self.ready_processes);
        push_refs(&mut all, &self.waiting_processes);
        let r = sort_by_pid(all);
        proof {
            if self@.wf() && self@.pids_unique() {
                assert(self@.everyone() =~= self@.processes());
                lemma_bag_of_multiset(ref_views(r@), self@.processes(), |p: PcbView| pid_of(p));
                assert(pid_bag(ref_views(r@)) == pid_bag(self@.everyone()));
                assert forall|pid: Pid| #[trigger] pid_bag(ref_views(r@)).count(pid) <= 1 by {
                    assert(pid_bag(self@.everyone()).count(pid) <= 1);
                }
                lemma_sorted_unique(ref_views(r@));
            }
        }
        r
    }
}

/// Promotion moves processes without losing or adding any.
proof fn lemma_promoted_bag<A>(s: RoundRobinView, f: spec_fn(PcbView) -> A)
    ensures
        bag(s.promoted().everyone(), f) == bag(s.everyone(), f),
{
    let t = s.promoted();
    lemma_bag4(opt_seq(s.running), opt_seq(s.stopped), s.ready, s.waiting, f);
    lemma_bag4(opt_seq(t.running), opt_seq(t.stopped), t.ready, t.waiting, f);
    lemma_bag_concat(s.ready, woken(s.waiting), f);
    lemma_bag_split(s.waiting, f);
    assert(bag(t.everyone(), f) =~= bag(s.everyone(), f));
}

/// Resuming the stopped process moves it without losing or adding any.
proof fn lemma_resumed_bag<A>(s: RoundRobinView, remaining: usize, f: spec_fn(PcbView) -> A)
    requires
        ignores_status(f),
        s.running is None,
    ensures
        bag(s.resumed(remaining).everyone(), f) == bag(s.everyone(), f),
{
    let t = s.resumed(remaining);
    lemma_bag4(opt_seq(s.running), opt_seq(s.stopped), s.ready, s.waiting, f);
    lemma_bag4(opt_seq(t.running), opt_seq(t.stopped), t.ready, t.waiting, f);
    lemma_bag_empty(f);
    match s.stopped {
        Some(p) => {
            lemma_bag_single(p, f);
            assert(f(p.with_state(ProcessState::Running)) == f(p.with_state(ProcessState::Running).with_wakeup(p.wakeup)));
            assert(f(p.with_state(ProcessState::Ready)) == f(p.with_state(ProcessState::Ready).with_wakeup(p.wakeup)));
            lemma_bag_single(p.with_state(ProcessState::Running), f);
            lemma_bag_push(s.ready, p.with_state(ProcessState::Ready), f);
        },
        None => {},
    }
    assert(bag(t.everyone(), f) =~= bag(s.everyone(), f));
}

/// `next` moves processes without losing or adding any.
proof fn lemma_next_bag<A>(s: RoundRobinView, f: spec_fn(PcbView) -> A)
    requires
        s.wf(),
        ignores_status(f),
    ensures
        bag(s.after_next().0.everyone(), f) == bag(s.slept().everyone(), f),
{
    let u = s.slept();
    let n = s.after_next().0;
    if !u.is_done() && u.pid_1_exists() && u.running is None && u.ready.len() > 0 {
        let x = u.ready[0];
        lemma_bag4(opt_seq(u.running), opt_seq(u.stopped), u.ready, u.waiting, f);
        lemma_bag4(opt_seq(n.running), opt_seq(n.stopped), n.ready, n.waiting, f);
        lemma_bag_empty(f);
        lemma_bag_single(x.with_state(ProcessState::Running), f);
        assert(f(x.with_state(ProcessState::Running)) == f(x.with_state(ProcessState::Running).with_wakeup(x.wakeup)));
        lemma_bag_take(u.ready, 0, x.with_state(ProcessState::Running), f);
        assert(u.ready.drop_first() =~= u.ready.remove(0));
        assert(bag(n.everyone(), f) =~= bag(u.everyone(), f));
    } else {
        assert(n.everyone() =~= u.everyone());
    }
}

/// What a stop does to the processes: none is lost or added, but for the
/// child of a fork and an exiting process.
proof fn lemma_stop_bag<A>(s: RoundRobinView, reason: StopReason, f: spec_fn(PcbView) -> A)
    requires
        s.wf(),
        s.accepts(reason),
        ignores_status(f),
    ensures
        ({
            let c = s.charged(reason);
            let after = s.after_stop(reason).0;
            match reason {
                StopReason::Syscall { syscall: Syscall::Fork(priority), .. } => bag(after.everyone(), f)
                    == bag(c.everyone(), f).insert(f(fresh((s.highest_pid + 1) as usize, priority, 0))),
                StopReason::Syscall { syscall: Syscall::Exit, .. } => match c.stopped {
                    Some(q) => bag(after.everyone(), f) == bag(c.everyone(), f).remove(f(q)),
                    None => bag(after.everyone(), f) == bag(c.everyone(), f),
                },
                _ => bag(after.everyone(), f) == bag(c.everyone(), f),
            }
        }),
{
    let c = s.charged(reason);
    let p = c.promoted();
    let after = s.after_stop(reason).0;
    lemma_promoted_bag(c, f);
    lemma_bag_empty(f);
    lemma_bag4(opt_seq(p.running), opt_seq(p.stopped), p.ready, p.waiting, f);
    lemma_bag4(opt_seq(after.running), opt_seq(after.stopped), after.ready, after.waiting, f);
    match reason {
        StopReason::Expired => {
            match p.stopped {
                Some(q) => {
                    lemma_bag_single(q, f);
                    assert(f(q.with_state(ProcessState::Ready)) == f(q.with_state(ProcessState::Ready).with_wakeup(q.wakeup)));
                    lemma_bag_push(p.ready, q.with_state(ProcessState::Ready), f);
                },
                None => {},
            }
            assert(bag(after.everyone(), f) =~= bag(c.everyone(), f));
        },
        StopReason::Syscall { syscall, remaining } => {
            match syscall {
                Syscall::Fork(priority) => {
                    let child = fresh((s.highest_pid + 1) as usize, priority, 0);
                    let g = RoundRobinView {
                        ready: p.ready.push(child),
                        highest_pid: (p.highest_pid + 1) as usize,
                        ..p
                    };
                    lemma_bag_push(p.ready, child, f);
                    lemma_bag4(opt_seq(g.running), opt_seq(g.stopped), g.ready, g.waiting, f);
                    lemma_resumed_bag(g, remaining, f);
                    assert(bag(after.everyone(), f) =~= bag(c.everyone(), f).insert(f(child)));
                },
                Syscall::Signal(event) => {
                    let g = RoundRobinView { waiting: all_signalled(p.waiting, event), ..p };
                    lemma_bag_signalled(p.waiting, event, f);
                    lemma_bag4(opt_seq(g.running), opt_seq(g.stopped), g.ready, g.waiting, f);
                    lemma_promoted_bag(g, f);
                    lemma_resumed_bag(g.promoted(), remaining, f);
                    assert(bag(g.everyone(), f) =~= bag(p.everyone(), f));
                },
                Syscall::Sleep(_) | Syscall::Wait(_) => {
                    match p.stopped {
                        Some(q) => {
                            lemma_bag_single(q, f);
                            let w = after.waiting.last();
                            assert(after.waiting == p.waiting.push(w));
                            assert(f(w) == f(q));
                            lemma_bag_push(p.waiting, w, f);
                        },
                        None => {},
                    }
                    assert(bag(after.everyone(), f) =~= bag(c.everyone(), f));
                },
                Syscall::Exit => {
                    match p.stopped {
                        Some(q) => {
                            lemma_bag_single(q, f);
                            assert(bag(after.everyone(), f) =~= bag(c.everyone(), f).remove(f(q)));
                        },
                        None => {
                            assert(bag(after.everyone(), f) =~= bag(c.everyone(), f));
                        },
                    }
                },
            }
        },
    }
}

/// The pids a state holds, between calls, tell whether the init process exists.
proof fn lemma_pid_1_bag(s: RoundRobinView)
    requires
        s.stopped is None,
    ensures
        s.pid_1_exists() <==> pid_bag(s.everyone()).count(1) > 0,
{
    let f = |p: PcbView| pid_of(p);
    lemma_bag4(opt_seq(s.running), opt_seq(s.stopped), s.ready, s.waiting, f);
    lemma_bag_empty(f);
    lemma_has_pid_bag(s.ready, 1);
    lemma_has_pid_bag(s.waiting, 1);
    match s.running {
        Some(p) => {
            lemma_bag_single(p, f);
        },
        None => {},
    }
}

/// Letting the pending sleep pass keeps every pid.
proof fn lemma_slept_pids(s: RoundRobinView)
    ensures
        pid_bag(s.slept().everyone()) == pid_bag(s.everyone()),
{
    if s.sleep_time != 0 {
        let f = |p: PcbView| pid_of(p);
        let t = RoundRobinView { waiting: all_idle_for(s.waiting, s.sleep_time), sleep_time: 0, ..s };
        lemma_bag4(opt_seq(s.running), opt_seq(s.stopped), s.ready, s.waiting, f);
        lemma_bag4(opt_seq(t.running), opt_seq(t.stopped), t.ready, t.waiting, f);
        lemma_pids_kept(s.waiting, s.sleep_time, 0);
        lemma_promoted_bag(t, f);
    }
}

/// Charging for a step keeps every pid.
proof fn lemma_charged_pids(s: RoundRobinView, reason: StopReason)
    requires
        s.stopped is None,
    ensures
        pid_bag(s.charged(reason).everyone()) == pid_bag(s.everyone()),
{
    let f = |p: PcbView| pid_of(p);
    let c = s.charged(reason);
    let e = s.elapsed(reason);
    lemma_bag4(opt_seq(s.running), opt_seq(s.stopped), s.ready, s.waiting, f);
    lemma_bag4(opt_seq(c.running), opt_seq(c.stopped), c.ready, c.waiting, f);
    lemma_bag_empty(f);
    lemma_pids_kept(s.ready, e, 0);
    lemma_pids_kept(s.waiting, e, 0);
    match s.running {
        Some(p) => {
            lemma_bag_single(p, f);
            lemma_bag_single(ran_for(p, e, reason is Syscall), f);
        },
        None => {},
    }
    assert(pid_bag(c.everyone()) =~= pid_bag(s.everyone()));
}

/// Each pid belongs to exactly one process: `next` and `stop` keep every pid
/// held by one process only, and hold only pids handed out.
pub proof fn law_pids_unique(s: RoundRobinView, reason: StopReason)
    requires
        s.wf(),
        s.pids_unique(),
        s.accepts(reason),
    ensures
        s.after_next().0.pids_unique(),
        s.after_stop(reason).0.pids_unique(),
{
    let f = |p: PcbView| pid_of(p);
    lemma_projections_ignore_status();
    lemma_next_bag(s, f);
    lemma_slept_pids(s);
    lemma_stop_bag(s, reason, f);
    lemma_charged_pids(s, reason);
    let a = s.after_stop(reason).0;
    assert forall|pid: Pid| #[trigger] pid_bag(a.everyone()).count(pid) <= 1 && (pid_bag(
        a.everyone(),
    ).count(pid) > 0 ==> 1 <= pid <= a.highest_pid) by {
        assert(pid_bag(s.everyone()).count(pid) <= 1);
        assert(pid_bag(s.everyone()).count((s.highest_pid + 1) as usize) <= 1);
    }
}

/// Time is conserved: a stop charges every process for the step that ended.
/// A process off the processor gains the elapsed ticks in total time only,
/// the stopped one gains its share as [`ran_for`] gives it, and, but for a
/// forked child and an exiting process, these are exactly the pids and
/// timings held after the stop. A system call always leaves at least one
/// tick to charge.
pub proof fn law_stop_charges_time(s: RoundRobinView, reason: StopReason)
    requires
        s.wf(),
        s.accepts(reason),
    ensures
        ({
            let e = s.elapsed(reason);
            let charged = bag(
                opt_seq(s.running),
                |p: PcbView| stamp(ran_for(p, e, reason is Syscall)),
            ).add(bag(s.ready + s.waiting, |p: PcbView| idle_stamp(p, e)));
            let after = bag(s.after_stop(reason).0.everyone(), |p: PcbView| stamp(p));
            &&& (reason is Syscall && s.running is Some ==> e >= 1)
            &&& match reason {
                StopReason::Syscall { syscall: Syscall::Fork(priority), .. } => after == charged.insert(
                    ((s.highest_pid + 1) as usize, (0usize, 0usize, 0usize)),
                ),
                StopReason::Syscall { syscall: Syscall::Exit, .. } => match s.running {
                    Some(q) => after == charged.remove(stamp(ran_for(q, e, true))),
                    None => after == charged,
                },
                _ => after == charged,
            }
        }),
{
    let f = |p: PcbView| stamp(p);
    let e = s.elapsed(reason);
    let c = s.charged(reason);
    lemma_projections_ignore_status();
    lemma_stop_bag(s, reason, f);
    lemma_bag4(opt_seq(c.running), opt_seq(c.stopped), c.ready, c.waiting, f);
    lemma_bag_empty(f);
    lemma_stamps_idle(s.ready, e);
    lemma_stamps_idle(s.waiting, e);
    lemma_bag_concat(s.ready, s.waiting, |p: PcbView| idle_stamp(p, e));
    let g = |p: PcbView| stamp(ran_for(p, e, reason is Syscall));
    match s.running {
        Some(p) => {
            lemma_bag_single(p, g);
            lemma_bag_single(ran_for(p, e, reason is Syscall), f);
        },
        None => {
            lemma_bag_empty(g);
        },
    }
    let charged = bag(opt_seq(s.running), g).add(bag(s.ready + s.waiting, |p: PcbView| idle_stamp(p, e)));
    assert(bag(c.everyone(), f) =~= charged);
}

/// Pids only grow: a fork hands out the pid after the last one handed out
/// and records it, and nothing else changes the last pid handed out; a new
/// scheduler has handed out none, so its first fork gives pid 1.
pub proof fn law_fork_pids_increase(s: RoundRobinView, reason: StopReason)
    requires
        s.wf(),
        s.accepts(reason),
    ensures
        s.after_next().0.highest_pid == s.highest_pid,
        reason matches StopReason::Syscall { syscall: Syscall::Fork(_), .. } ==> s.after_stop(reason).1
            == SyscallResult::Pid((s.highest_pid + 1) as usize) && s.after_stop(reason).0.highest_pid
            == s.highest_pid + 1,
        !(reason matches StopReason::Syscall { syscall: Syscall::Fork(_), .. }) ==> s.after_stop(
            reason,
        ).0.highest_pid == s.highest_pid,
{
}

/// A sleep is as long as the shortest timer among the waiters, and the
/// decision after it, with no stop between, runs a process.
pub proof fn law_sleep_fast_forward(s: RoundRobinView)
    requires
        s.wf(),
        s.after_next().1 is Sleep,
    ensures
        ({
            let n = s.after_next().1->Sleep_0;
            let t = s.after_next().0;
            &&& holds_sleep(t.waiting, n)
            &&& forall|k: usize| holds_sleep(t.waiting, k) ==> n <= k
            &&& t.after_next().1 is Run
        }),
{
    lemma_next(s);
    let u = s.slept();
    let t = s.after_next().0;
    let n = s.after_next().1->Sleep_0;
    lemma_sleep_positive(t.waiting);
    let i = choose|i: int| 0 <= i < t.waiting.len() && (#[trigger] t.waiting[i]).wakeup
        == WakeupCondition::Sleep(n);
    let w = all_idle_for(t.waiting, n);
    let up = |q: PcbView| q.state == ProcessState::Ready;
    assert(up(w[i]));
    w.lemma_filter_contains(up, i);
    let v = t.slept();
    assert(v.ready.len() > 0);
    lemma_pid_1_bag(t);
    lemma_slept_pids(t);
    lemma_pid_1_bag(v);
}

/// A process that forks or signals with enough of its timeslice left runs
/// again next, for what is left of its timeslice.
pub proof fn law_retained_runs_next(s: RoundRobinView, reason: StopReason)
    requires
        s.wf(),
        s.accepts(reason),
        s.pid_1_exists(),
        s.running is Some,
        reason matches StopReason::Syscall { syscall, remaining } && (syscall is Fork || syscall is Signal)
            && remaining >= s.minimum_remaining_timeslice && remaining > 0,
    ensures
        s.after_stop(reason).0.after_next().1 == (SchedulingDecision::Run {
            pid: s.running->0.pid,
            timeslice: reason.remaining_after(),
        }),
{
    let f = |p: PcbView| pid_of(p);
    let a = s.after_stop(reason).0;
    lemma_stop(s, reason);
    lemma_projections_ignore_status();
    lemma_pid_1_bag(s);
    lemma_charged_pids(s, reason);
    lemma_stop_bag(s, reason, f);
    lemma_pid_1_bag(a);
    lemma_slept_pids(a);
    lemma_pid_1_bag(a.slept());
}

/// Progress toward completion: an exit by the process on the processor
/// removes exactly that process, `next` neither adds nor removes any, and
/// `next` decides `Done` exactly when, once the pending sleep has passed, no
/// process is left.
pub proof fn law_exit_removes_process(s: RoundRobinView, reason: StopReason)
    requires
        s.wf(),
        s.accepts(reason),
        s.running is Some,
        reason matches StopReason::Syscall { syscall: Syscall::Exit, .. },
    ensures
        pid_bag(s.after_stop(reason).0.everyone()) == pid_bag(s.everyone()).remove(s.running->0.pid),
        pid_bag(s.after_next().0.everyone()) == pid_bag(s.everyone()),
        s.after_next().1 is Done <==> s.slept().is_done(),
{
    let f = |p: PcbView| pid_of(p);
    lemma_projections_ignore_status();
    lemma_stop_bag(s, reason, f);
    lemma_charged_pids(s, reason);
    lemma_next_bag(s, f);
    lemma_slept_pids(s);
}

} // verus!
