//! A completely fair scheduler: the ready process that has used the least
//! processor time (its virtual runtime) runs next, for a timeslice that
//! shrinks as more processes compete.
use vstd::prelude::*;
use vstd::string::StringExecFns;
use crate::pcb::{fresh, Pcb, PcbView, WakeupCondition};
use crate::procs::{
    pid_strict, lemma_bag_of_multiset, lemma_sorted_unique, lemma_pid_twice,
    bag, ignores_status, lemma_bag4, lemma_bag_concat, lemma_bag_empty, lemma_bag_push,
    lemma_bag_signalled, lemma_bag_single, lemma_bag_split, lemma_bag_take, lemma_has_pid_bag,
    lemma_pids_kept, lemma_projections_ignore_status, pid_of, stamp, holds_sleep, pid_bag,
    idle_stamp, lemma_stamps_idle, vstamp,
    all_idle_for, all_signalled, find_pid, find_sleep_time, has_pid, lemma_idle_keeps,
    lemma_signal_keeps, lemma_sleep_positive, lemma_split_keeps, opt_seq, opt_view, pass_time,
    pid_sorted, push_refs, ran_for, ready_well, ref_views, shortest_sleep, signal_waiters,
    sort_by_pid, still_blocked, take_ready, views, waits_or_woke, waits_well, woken,
};
use crate::types::{elapsed_of, sat_add, Pid, ProcessState, SchedulingDecision, StopReason, Syscall, SyscallResult};

verus! {

/// The character of a decimal digit.
pub open spec fn digit(d: nat) -> char {
    seq!['0', '1', '2', '3', '4', '5', '6', '7', '8', '9'][d as int]
}

/// `n` written in decimal, without leading zeros.
pub open spec fn decimal(n: nat) -> Seq<char>
    decreases n,
{
    if n < 10 {
        seq![digit(n)]
    } else {
        decimal(n / 10) + seq![digit(n % 10)]
    }
}

/// The annotation a process carries: `vruntime=` and its virtual runtime.
pub open spec fn label(vruntime: usize) -> Seq<char> {
    "vruntime="@ + decimal(vruntime as nat)
}

/// Relies on `ToString` for `usize` (through `Display`): the decimal digits
/// of `n`, with no sign, padding or leading zeros.
#[verifier::external_body]
fn decimal_string(n: usize) -> (r: String)
    ensures
        r@ == decimal(n as nat),
{
    n.to_string()
}

/// The annotation for a virtual runtime.
fn vruntime_label(vruntime: usize) -> (r: String)
    ensures
        r@ == label(vruntime),
{
    let digits = decimal_string(vruntime);
    let mut r = String::from_str("vruntime=");
    r.append(digits.as_str());
    proof {
        reveal_strlit("vruntime=");
    }
    r
}

/// The timeslice for `n` competing processes: an equal share of `cpu_time`,
/// unless that share would fall under `minimum`, which is then given.
pub open spec fn slice_for(cpu_time: usize, minimum: usize, n: usize) -> usize {
    if cpu_time / minimum >= n {
        (cpu_time / n) as usize
    } else {
        minimum
    }
}

/// Does `a` run before `b`: a smaller virtual runtime, or an equal one and a
/// smaller pid?
pub open spec fn runs_before(a: PcbView, b: PcbView) -> bool {
    a.vruntime < b.vruntime || (a.vruntime == b.vruntime && a.pid < b.pid)
}

/// The index of the first process of `s` that no other runs before.
pub open spec fn pick(s: Seq<PcbView>) -> int
    decreases s.len(),
{
    if s.len() <= 1 {
        0
    } else {
        let i = pick(s.drop_last());
        if runs_before(s.last(), s[i]) {
            s.len() - 1
        } else {
            i
        }
    }
}

/// The least virtual runtime in `s`, if `s` holds a process.
pub open spec fn least_vruntime(s: Seq<PcbView>) -> Option<usize>
    decreases s.len(),
{
    if s.len() == 0 {
        None
    } else {
        match least_vruntime(s.drop_last()) {
            Some(m) => Some(if s.last().vruntime < m { s.last().vruntime } else { m }),
            None => Some(s.last().vruntime),
        }
    }
}

/// A process after `elapsed` more ticks of virtual runtime, annotated with it.
pub open spec fn advanced(p: PcbView, elapsed: usize) -> PcbView {
    let v = sat_add(p.vruntime, elapsed);
    PcbView { vruntime: v, extra: label(v), ..p }
}

/// A freshly forked process with virtual runtime `vruntime`.
pub open spec fn newborn(pid: usize, priority: i8, vruntime: usize) -> PcbView {
    PcbView { extra: label(vruntime), ..fresh(pid, priority, vruntime) }
}

/// The state of a [`Cfs`] scheduler, as mathematical values.
pub ghost struct CfsView {
    /// The process on the processor.
    pub running: Option<PcbView>,
    /// The process whose stop is being serviced; empty between calls.
    pub stopped: Option<PcbView>,
    /// Ticks left of the running process's timeslice.
    pub remaining_time: usize,
    pub ready: Seq<PcbView>,
    pub waiting: Seq<PcbView>,
    /// The processor time shared among the competing processes.
    pub cpu_time: usize,
    /// The least timeslice left that keeps a process on the processor after
    /// a system call, and the least timeslice handed out.
    pub minimum_remaining_timeslice: usize,
    /// The last pid handed out.
    pub highest_pid: usize,
    /// Ticks the next decision lets pass before anything else.
    pub sleep_time: usize,
}

impl CfsView {
    /// The state between two calls.
    pub open spec fn wf(self) -> bool {
        &&& self.cpu_time > 0
        &&& self.minimum_remaining_timeslice > 0
        &&& self.stopped is None
        &&& (self.running is Some <==> self.remaining_time > 0)
        &&& (self.running matches Some(p) ==> p.state == ProcessState::Running && p.wakeup
            == WakeupCondition::Awake)
        &&& forall|i: int| 0 <= i < self.ready.len() ==> ready_well(#[trigger] self.ready[i])
        &&& forall|i: int| 0 <= i < self.waiting.len() ==> waits_well(#[trigger] self.waiting[i])
    }

    /// Whether the scheduler may be stopped for `reason`: a system call costs
    /// one tick of the timeslice, a sleep lasts at least one tick, and there
    /// must be a pid left to hand out.
    pub open spec fn accepts(self, reason: StopReason) -> bool {
        match reason {
            StopReason::Expired => true,
            StopReason::Syscall { syscall, remaining } => {
                &&& (self.running is Some ==> remaining < self.remaining_time)
                &&& (syscall matches Syscall::Sleep(n) ==> n > 0)
                &&& (syscall is Fork ==> self.highest_pid < usize::MAX)
            },
        }
    }

    /// Every process the scheduler holds.
    pub open spec fn processes(self) -> Seq<PcbView> {
        opt_seq(self.running) + self.ready + self.waiting
    }

    /// The processes competing for the processor (saturating).
    pub open spec fn size(self) -> usize {
        let n = self.ready.len() + (if self.running is Some { 1int } else { 0 }) + (if self.stopped is Some {
            1int
        } else {
            0
        });
        if n > usize::MAX {
            usize::MAX
        } else {
            n as usize
        }
    }

    /// The timeslice for the processes competing now.
    pub open spec fn timeslice(self) -> usize {
        slice_for(self.cpu_time, self.minimum_remaining_timeslice, self.size())
    }

    /// The least virtual runtime among the ready and stopped processes, or 0.
    pub open spec fn min_vruntime(self) -> usize {
        match least_vruntime(self.ready + opt_seq(self.stopped)) {
            Some(m) => m,
            None => 0,
        }
    }

    /// Every process, the stopped one included.
    pub open spec fn everyone(self) -> Seq<PcbView> {
        opt_seq(self.running) + opt_seq(self.stopped) + self.ready + self.waiting
    }

    /// Each pid is held by at most one process, and only pids handed out are held.
    pub open spec fn pids_unique(self) -> bool {
        forall|pid: Pid|
            #[trigger] pid_bag(self.everyone()).count(pid) <= 1 && (pid_bag(self.everyone()).count(pid)
                > 0 ==> 1 <= pid <= self.highest_pid)
    }

    /// Is no process left anywhere?
    pub open spec fn is_done(self) -> bool {
        self.running is None && self.ready.len() == 0 && self.waiting.len() == 0
    }

    /// Does the init process exist?
    pub open spec fn pid_1_exists(self) -> bool {
        ||| (self.running matches Some(p) && p.pid == 1)
        ||| has_pid(self.ready, 1)
        ||| has_pid(self.waiting, 1)
    }

    /// Waiters marked ready join the ready processes.
    pub open spec fn promoted(self) -> Self {
        CfsView { ready: self.ready + woken(self.waiting), waiting: still_blocked(self.waiting), ..self }
    }

    /// The pending sleep, if any, has passed.
    pub open spec fn slept(self) -> Self {
        if self.sleep_time != 0 {
            CfsView { waiting: all_idle_for(self.waiting, self.sleep_time), sleep_time: 0, ..self }.promoted()
        } else {
            self
        }
    }

    /// The state and decision after `next`.
    pub open spec fn after_next(self) -> (Self, SchedulingDecision) {
        let s = self.slept();
        let i = pick(s.ready);
        if s.is_done() {
            (s, SchedulingDecision::Done)
        } else if !s.pid_1_exists() {
            (s, SchedulingDecision::Panic)
        } else if s.running is Some {
            (s, SchedulingDecision::Run { pid: s.running->0.pid, timeslice: s.remaining_time })
        } else if s.ready.len() > 0 {
            (
                CfsView {
                    running: Some(s.ready[i].with_state(ProcessState::Running)),
                    ready: s.ready.remove(i),
                    remaining_time: s.timeslice(),
                    ..s
                },
                SchedulingDecision::Run { pid: s.ready[i].pid, timeslice: s.timeslice() },
            )
        } else {
            match shortest_sleep(s.waiting) {
                Some(n) => (CfsView { sleep_time: n, ..s }, SchedulingDecision::Sleep(n)),
                None => (s, SchedulingDecision::Deadlock),
            }
        }
    }

    /// Ticks that passed in the step that `reason` ends.
    pub open spec fn elapsed(self, reason: StopReason) -> usize {
        elapsed_of(self.remaining_time, reason.remaining_after())
    }

    /// The running process leaves the processor, gains the step in virtual
    /// runtime, and every process is charged for the step.
    pub open spec fn charged(self, reason: StopReason) -> Self {
        let e = self.elapsed(reason);
        CfsView {
            running: None,
            stopped: match self.running {
                Some(p) => Some(ran_for(advanced(p, e), e, reason is Syscall)),
                None => None,
            },
            ready: all_idle_for(self.ready, e),
            waiting: all_idle_for(self.waiting, e),
            ..self
        }
    }

    /// The stopped process keeps the processor, with a fresh timeslice, if
    /// enough of its timeslice is left; else it joins the ready processes.
    pub open spec fn resumed(self, remaining: usize) -> Self {
        match self.stopped {
            Some(p) => if remaining >= self.minimum_remaining_timeslice {
                let s = CfsView { running: Some(p.with_state(ProcessState::Running)), stopped: None, ..self };
                CfsView { remaining_time: s.timeslice(), ..s }
            } else {
                CfsView {
                    ready: self.ready.push(
                        p.with_state(ProcessState::Ready).with_wakeup(WakeupCondition::Awake),
                    ),
                    stopped: None,
                    remaining_time: 0,
                    ..self
                }
            },
            None => CfsView { remaining_time: 0, ..self },
        }
    }

    /// The stopped process goes to the waiting list with `wakeup`.
    pub open spec fn blocked(self, state: ProcessState, wakeup: WakeupCondition) -> (Self, SyscallResult) {
        match self.stopped {
            Some(p) => (
                CfsView {
                    waiting: self.waiting.push(p.with_state(state).with_wakeup(wakeup)),
                    stopped: None,
                    remaining_time: 0,
                    ..self
                },
                SyscallResult::Success,
            ),
            None => (CfsView { remaining_time: 0, ..self }, SyscallResult::NoRunningProcess),
        }
    }

    /// The state and result after servicing `syscall`.
    pub open spec fn serviced(self, syscall: Syscall, remaining: usize) -> (Self, SyscallResult) {
        match syscall {
            Syscall::Fork(priority) => {
                let pid = (self.highest_pid + 1) as usize;
                (
                    CfsView {
                        ready: self.ready.push(newborn(pid, priority, self.min_vruntime())),
                        highest_pid: pid,
                        ..self
                    }.resumed(remaining),
                    SyscallResult::Pid(pid),
                )
            },
            Syscall::Signal(event) => (
                CfsView { waiting: all_signalled(self.waiting, event), ..self }.promoted().resumed(remaining),
                SyscallResult::Success,
            ),
            Syscall::Sleep(n) => self.blocked(
                ProcessState::Waiting { event: None },
                WakeupCondition::Sleep(n),
            ),
            Syscall::Wait(event) => self.blocked(
                ProcessState::Waiting { event: Some(event) },
                WakeupCondition::Signal(event),
            ),
            Syscall::Exit => (CfsView { stopped: None, remaining_time: 0, ..self }, SyscallResult::Success),
        }
    }

    /// The state and result after `stop(reason)`.
    pub open spec fn after_stop(self, reason: StopReason) -> (Self, SyscallResult) {
        let s = self.charged(reason).promoted();
        match reason {
            StopReason::Expired => match s.stopped {
                Some(p) => (
                    CfsView {
                        ready: s.ready.push(
                            p.with_state(ProcessState::Ready).with_wakeup(WakeupCondition::Awake),
                        ),
                        stopped: None,
                        remaining_time: 0,
                        ..s
                    },
                    SyscallResult::Success,
                ),
                None => (CfsView { remaining_time: 0, ..s }, SyscallResult::NoRunningProcess),
            },
            StopReason::Syscall { syscall, remaining } => s.serviced(syscall, remaining),
        }
    }
}

/// Every timeslice handed out is positive.
pub proof fn lemma_slice_positive(cpu_time: usize, minimum: usize, n: usize)
    requires
        cpu_time > 0,
        minimum > 0,
        n > 0,
    ensures
        slice_for(cpu_time, minimum, n) > 0,
{
    if cpu_time / minimum >= n {
        assert(cpu_time >= n) by (nonlinear_arith)
            requires
                cpu_time / minimum >= n,
                minimum > 0,
                n > 0,
        {
            assert(minimum * (cpu_time / minimum) <= cpu_time);
            assert(minimum * (cpu_time / minimum) >= cpu_time / minimum);
        }
        assert(cpu_time / n >= 1) by (nonlinear_arith)
            requires
                cpu_time >= n,
                n > 0,
        {}
    }
}

/// Promotion makes a state whose waiters are each consistent or woken into
/// one whose ready and waiting processes are consistent.
proof fn lemma_promoted_wf(s: CfsView)
    requires
        forall|i: int| 0 <= i < s.ready.len() ==> ready_well(#[trigger] s.ready[i]),
        forall|i: int| 0 <= i < s.waiting.len() ==> waits_or_woke(#[trigger] s.waiting[i]),
    ensures
        forall|i: int| 0 <= i < s.promoted().ready.len() ==> ready_well(#[trigger] s.promoted().ready[i]),
        forall|i: int| 0 <= i < s.promoted().waiting.len() ==> waits_well(
            #[trigger] s.promoted().waiting[i],
        ),
{
    lemma_split_keeps(s.waiting);
    let r = s.promoted().ready;
    assert forall|i: int| 0 <= i < r.len() implies ready_well(#[trigger] r[i]) by {
        if i >= s.ready.len() {
            assert(r[i] == woken(s.waiting)[i - s.ready.len()]);
        }
    }
}

/// Resuming the stopped process leaves a consistent state.
proof fn lemma_resumed_wf(s: CfsView, remaining: usize)
    requires
        s.cpu_time > 0,
        s.minimum_remaining_timeslice > 0,
        s.running is None,
        forall|i: int| 0 <= i < s.ready.len() ==> ready_well(#[trigger] s.ready[i]),
        forall|i: int| 0 <= i < s.waiting.len() ==> waits_well(#[trigger] s.waiting[i]),
        s.stopped matches Some(p) ==> p.wakeup == WakeupCondition::Awake,
    ensures
        s.resumed(remaining).wf(),
{
    let n = s.resumed(remaining);
    if s.stopped is Some && remaining >= s.minimum_remaining_timeslice {
        let t = CfsView { running: Some(s.stopped->0.with_state(ProcessState::Running)), stopped: None, ..s };
        lemma_slice_positive(t.cpu_time, t.minimum_remaining_timeslice, t.size());
    }
    assert forall|i: int| 0 <= i < n.ready.len() implies ready_well(#[trigger] n.ready[i]) by {
        if i < s.ready.len() {
            assert(n.ready[i] == s.ready[i]);
        }
    }
}

/// `next` keeps the state consistent, and hands out positive durations.
proof fn lemma_next(s: CfsView)
    requires
        s.wf(),
    ensures
        s.after_next().0.wf(),
        s.after_next().1 matches SchedulingDecision::Run { timeslice, .. } ==> timeslice > 0,
        s.after_next().1 matches SchedulingDecision::Sleep(n) ==> n > 0,
{
    if s.sleep_time != 0 {
        let t = CfsView { waiting: all_idle_for(s.waiting, s.sleep_time), sleep_time: 0, ..s };
        assert forall|i: int| 0 <= i < s.waiting.len() implies waits_or_woke(#[trigger] s.waiting[i]) by {
            assert(waits_well(s.waiting[i]));
        }
        lemma_idle_keeps(s.waiting, s.sleep_time);
        lemma_promoted_wf(t);
    }
    let u = s.slept();
    lemma_sleep_positive(u.waiting);
    if !u.is_done() && u.pid_1_exists() && u.running is None && u.ready.len() > 0 {
        let i = pick(u.ready);
        lemma_pick_bounds(u.ready);
        lemma_slice_positive(u.cpu_time, u.minimum_remaining_timeslice, u.size());
        let n = u.after_next().0;
        assert(ready_well(u.ready[i]));
        assert forall|j: int| 0 <= j < n.ready.len() implies ready_well(#[trigger] n.ready[j]) by {
            if j < i {
                assert(n.ready[j] == u.ready[j]);
            } else {
                assert(n.ready[j] == u.ready[j + 1]);
            }
        }
    }
}

/// `stop` keeps the state consistent.
proof fn lemma_stop(s: CfsView, reason: StopReason)
    requires
        s.wf(),
        s.accepts(reason),
    ensures
        s.after_stop(reason).0.wf(),
{
    let c = s.charged(reason);
    let e = s.elapsed(reason);
    assert forall|i: int| 0 <= i < s.waiting.len() implies waits_or_woke(#[trigger] s.waiting[i]) by {
        assert(waits_well(s.waiting[i]));
    }
    lemma_idle_keeps(s.ready, e);
    lemma_idle_keeps(s.waiting, e);
    lemma_promoted_wf(c);
    let p = c.promoted();
    match reason {
        StopReason::Expired => {
            let n = s.after_stop(reason).0;
            assert forall|i: int| 0 <= i < n.ready.len() implies ready_well(#[trigger] n.ready[i]) by {
                if i < p.ready.len() {
                    assert(n.ready[i] == p.ready[i]);
                }
            }
        },
        StopReason::Syscall { syscall, remaining } => {
            match syscall {
                Syscall::Fork(priority) => {
                    let pid = (p.highest_pid + 1) as usize;
                    let f = CfsView {
                        ready: p.ready.push(newborn(pid, priority, p.min_vruntime())),
                        highest_pid: pid,
                        ..p
                    };
                    assert forall|i: int| 0 <= i < f.ready.len() implies ready_well(#[trigger] f.ready[i]) by {
                        if i < p.ready.len() {
                            assert(f.ready[i] == p.ready[i]);
                        }
                    }
                    lemma_resumed_wf(f, remaining);
                },
                Syscall::Signal(event) => {
                    let g = CfsView { waiting: all_signalled(p.waiting, event), ..p };
                    assert forall|i: int| 0 <= i < p.waiting.len() implies waits_or_woke(
                        #[trigger] p.waiting[i],
                    ) by {
                        assert(waits_well(p.waiting[i]));
                    }
                    lemma_signal_keeps(p.waiting, event);
                    lemma_promoted_wf(g);
                    lemma_resumed_wf(g.promoted(), remaining);
                },
                Syscall::Sleep(_) | Syscall::Wait(_) => {
                    let n = s.after_stop(reason).0;
                    assert forall|i: int| 0 <= i < n.waiting.len() implies waits_well(#[trigger] n.waiting[i]) by {
                        if i < p.waiting.len() {
                            assert(n.waiting[i] == p.waiting[i]);
                        }
                    }
                },
                Syscall::Exit => {},
            }
        },
    }
}

/// The picked index lies within a non-empty sequence.
pub proof fn lemma_pick_bounds(s: Seq<PcbView>)
    ensures
        s.len() > 0 ==> 0 <= pick(s) < s.len(),
    decreases s.len(),
{
    if s.len() > 1 {
        lemma_pick_bounds(s.drop_last());
    }
}

/// The index of the process of `v` that runs first.
fn pick_index(v: &Vec<Pcb>) -> (r: usize)
    requires
        v@.len() > 0,
    ensures
        r == pick(views(v@)),
        r < v@.len(),
{
    proof {
        lemma_pick_bounds(views(v@));
    }
    let mut best: usize = 0;
    let mut i: usize = 1;
    while i < v.len()
        invariant
            1 <= i <= v@.len(),
            best < i,
            best == pick(views(v@).take(i as int)),
        decreases v@.len() - i,
    {
        let ghost t = views(v@).take(i + 1);
        proof {
            assert(t.drop_last() =~= views(v@).take(i as int));
            assert(t.last() == v@[i as int]@);
            assert(t[best as int] == v@[best as int]@);
        }
        let a = &v[i];
        let b = &v[best];
        if a.vruntime() < b.vruntime() || (a.vruntime() == b.vruntime() && a.pid() < b.pid()) {
            best = i;
        }
        i = i + 1;
    }
    assert(views(v@).take(i as int) =~= views(v@));
    best
}

/// A completely fair scheduler.
pub struct Cfs {
    running_process: Option<Pcb>,
    stopped_process: Option<Pcb>,
    remaining_time: usize,
    ready_processes: Vec<Pcb>,
    waiting_processes: Vec<Pcb>,
    cpu_time: usize,
    minimum_remaining_timeslice: usize,
    highest_pid: usize,
    sleep_time: usize,
}

impl View for Cfs {
    type V = CfsView;

    closed spec fn view(&self) -> CfsView {
        CfsView {
            running: opt_view(self.running_process),
            stopped: opt_view(self.stopped_process),
            remaining_time: self.remaining_time,
            ready: views(self.ready_processes@),
            waiting: views(self.waiting_processes@),
            cpu_time: self.cpu_time,
            minimum_remaining_timeslice: self.minimum_remaining_timeslice,
            highest_pid: self.highest_pid,
            sleep_time: self.sleep_time,
        }
    }
}

impl Cfs {
    /// A scheduler with no process that shares `cpu_time` ticks among the
    /// competing processes, never handing out less than
    /// `minimum_remaining_timeslice`.
    pub fn new(cpu_time: usize, minimum_remaining_timeslice: usize) -> (r: Self)
        requires
            cpu_time > 0,
            minimum_remaining_timeslice > 0,
        ensures
            r@ == (CfsView {
                running: None,
                stopped: None,
                remaining_time: 0,
                ready: Seq::empty(),
                waiting: Seq::empty(),
                cpu_time,
                minimum_remaining_timeslice,
                highest_pid: 0,
                sleep_time: 0,
            }),
            r@.wf(),
            r@.pids_unique(),
    {
        proof {
            lemma_bag_empty(|p: PcbView| pid_of(p));
        }
        let r = Cfs {
            running_process: None,
            stopped_process: None,
            remaining_time: 0,
            ready_processes: Vec::new(),
            waiting_processes: Vec::new(),
            cpu_time,
            minimum_remaining_timeslice,
            highest_pid: 0,
            sleep_time: 0,
        };
        assert(r@.ready =~= Seq::empty());
        assert(r@.waiting =~= Seq::empty());
        assert(r@.everyone() =~= Seq::empty());
        r
    }

    /// Charges every process for the step that `reason` ends, and the
    /// stopped process in virtual runtime too.
    fn increment_timings(&mut self, reason: &StopReason)
        requires
            old(self)@.running is None,
            old(self)@.stopped is Some && reason is Syscall ==> reason.remaining_after()
                < old(self)@.remaining_time,
        ensures
            final(self)@ == (CfsView { running: old(self)@.stopped, ..old(self)@ }).charged(*reason),
    {
        let time = match reason {
            StopReason::Expired => self.remaining_time,
            StopReason::Syscall { remaining, .. } => {
                if *remaining <= self.remaining_time {
                    self.remaining_time - *remaining
                } else {
                    0
                }
            },
        };
        match &mut self.stopped_process {
            Some(p) => {
                p.advance_vruntime(time);
                let v = p.vruntime();
                p.set_extra(vruntime_label(v));
                match reason {
                    StopReason::Syscall { .. } => p.increment_timings(time, 1, time - 1),
                    StopReason::Expired => p.increment_timings(time, 0, time),
                }
            },
            None => {},
        }
        pass_time(&mut self.ready_processes, time);
        pass_time(&mut self.waiting_processes, time);
    }

    /// Moves the waiters marked ready to the ready processes.
    fn wakeup_processes(&mut self)
        ensures
            final(self)@ == old(self)@.promoted(),
    {
        let mut woken_up = take_ready(&mut self.waiting_processes);
        let ghost before = self.ready_processes@;
        let ghost added = woken_up@;
        self.ready_processes.append(&mut woken_up);
        assert(views(self.ready_processes@) =~= views(before) + views(added));
    }

    /// Lets the pending sleep pass.
    fn sleep(&mut self)
        requires
            old(self)@.sleep_time != 0,
        ensures
            final(self)@ == old(self)@.slept(),
    {
        pass_time(&mut self.waiting_processes, self.sleep_time);
        self.sleep_time = 0;
        self.wakeup_processes();
    }

    /// Creates a ready process with the next pid, `priority` and `vruntime`.
    fn new_process(&mut self, priority: i8, vruntime: usize)
        requires
            old(self)@.highest_pid < usize::MAX,
        ensures
            final(self)@ == (CfsView {
                ready: old(self)@.ready.push(
                    newborn((old(self)@.highest_pid + 1) as usize, priority, vruntime),
                ),
                highest_pid: (old(self)@.highest_pid + 1) as usize,
                ..old(self)@
            }),
    {
        self.highest_pid = self.highest_pid + 1;
        let mut p = Pcb::new(self.highest_pid, priority, vruntime);
        p.set_extra(vruntime_label(vruntime));
        let ghost before = self.ready_processes@;
        self.ready_processes.push(p);
        assert(views(self.ready_processes@) =~= views(before).push(p@));
    }

    /// The number of processes competing for the processor.
    fn size(&self) -> (r: usize)
        ensures
            r == self@.size(),
    {
        let mut length = self.ready_processes.len();
        if self.running_process.is_some() {
            length = length.saturating_add(1);
        }
        if self.stopped_process.is_some() {
            length = length.saturating_add(1);
        }
        length
    }

    /// Adds `p` to the ready processes and leaves the processor idle.
    fn set_ready(&mut self, p: Pcb)
        ensures
            final(self)@ == (CfsView {
                ready: old(self)@.ready.push(
                    p@.with_state(ProcessState::Ready).with_wakeup(WakeupCondition::Awake),
                ),
                remaining_time: 0,
                ..old(self)@
            }),
    {
        let mut p = p;
        p.set_state(ProcessState::Ready);
        p.set_wakeup(WakeupCondition::Awake);
        let ghost before = self.ready_processes@;
        self.ready_processes.push(p);
        assert(views(self.ready_processes@) =~= views(before).push(p@));
        self.remaining_time = 0;
    }

    /// Puts `p` on the processor for `timeslice` ticks.
    fn set_running(&mut self, p: Pcb, timeslice: usize)
        ensures
            final(self)@ == (CfsView {
                running: Some(p@.with_state(ProcessState::Running)),
                remaining_time: timeslice,
                ..old(self)@
            }),
    {
        let mut p = p;
        p.set_state(ProcessState::Running);
        self.running_process = Some(p);
        self.remaining_time = timeslice;
    }

    /// Whether no process is left anywhere.
    fn is_done(&self) -> (r: bool)
        ensures
            r == self@.is_done(),
    {
        self.running_process.is_none() && self.ready_processes.len() == 0
            && self.waiting_processes.len() == 0
    }

    /// Whether the init process exists.
    fn pid_1_exists(&self) -> (r: bool)
        ensures
            r == self@.pid_1_exists(),
    {
        match &self.running_process {
            Some(p) => {
                if p.pid() == 1 {
                    return true;
                }
            },
            None => {},
        }
        find_pid(&self.ready_processes, 1) || find_pid(&self.waiting_processes, 1)
    }

    /// Takes the ready process with the least virtual runtime (the least pid
    /// among equals).
    fn scheduled_process(&mut self) -> (r: Option<Pcb>)
        ensures
            old(self)@.ready.len() == 0 ==> r is None && final(self)@ == old(self)@,
            old(self)@.ready.len() > 0 ==> (r matches Some(p) && p@ == old(self)@.ready[pick(
                old(self)@.ready,
            )]),
            old(self)@.ready.len() > 0 ==> final(self)@ == (CfsView {
                ready: old(self)@.ready.remove(pick(old(self)@.ready)),
                ..old(self)@
            }),
    {
        if self.ready_processes.len() == 0 {
            return None;
        }
        let i = pick_index(&self.ready_processes);
        let ghost before = self.ready_processes@;
        let p = self.ready_processes.remove(i);
        assert(views(self.ready_processes@) =~= views(before).remove(i as int));
        Some(p)
    }

    /// The shortest sleep among the waiters.
    fn find_sleep_time(&self) -> (r: Option<usize>)
        ensures
            r == shortest_sleep(self@.waiting),
    {
        find_sleep_time(&self.waiting_processes)
    }

    /// Every process: the running one, then the ready ones, then the waiters.
    fn get_all_processes(&self) -> (r: Vec<&Pcb>)
        ensures
            ref_views(r@) == self@.processes(),
    {
        let mut all: Vec<&Pcb> = Vec::new();
        match &self.running_process {
            Some(p) => {
                all.push(p);
            },
            None => {},
        }
        assert(ref_views(all@) =~= opt_seq(self@.running));
        push_refs(&mut all, &self.ready_processes);
        push_refs(&mut all, &self.waiting_processes);
        all
    }

    /// The least virtual runtime among the ready and stopped processes, or 0.
    fn min_vruntime(&self) -> (r: usize)
        ensures
            r == self@.min_vruntime(),
    {
        let mut least: Option<usize> = None;
        let mut i: usize = 0;
        while i < self.ready_processes.len()
            invariant
                i <= self.ready_processes@.len(),
                least == least_vruntime(self@.ready.take(i as int)),
            decreases self.ready_processes@.len() - i,
        {
            let v = self.ready_processes[i].vruntime();
            proof {
                let t = self@.ready.take(i + 1);
                assert(t.drop_last() =~= self@.ready.take(i as int));
                assert(t.last().vruntime == v);
            }
            least = match least {
                Some(m) => Some(if v < m { v } else { m }),
                None => Some(v),
            };
            i = i + 1;
        }
        assert(self@.ready.take(i as int) =~= self@.ready);
        match &self.stopped_process {
            Some(p) => {
                let v = p.vruntime();
                proof {
                    let all = self@.ready + opt_seq(self@.stopped);
                    assert(all.drop_last() =~= self@.ready);
                }
                least = match least {
                    Some(m) => Some(if v < m { v } else { m }),
                    None => Some(v),
                };
            },
            None => {
                assert(self@.ready + opt_seq(self@.stopped) =~= self@.ready);
            },
        }
        match least {
            Some(m) => m,
            None => 0,
        }
    }

    /// The timeslice for the processes competing now.
    fn compute_timeslice(&self) -> (r: usize)
        requires
            self@.cpu_time > 0,
            self@.minimum_remaining_timeslice > 0,
            self@.size() > 0,
        ensures
            r == self@.timeslice(),
            r > 0,
    {
        proof {
            lemma_slice_positive(self@.cpu_time, self@.minimum_remaining_timeslice, self@.size());
        }
        let n = self.size();
        if self.cpu_time / self.minimum_remaining_timeslice >= n {
            self.cpu_time / n
        } else {
            self.minimum_remaining_timeslice
        }
    }

    /// Gives the processor back to the stopped process with a fresh
    /// timeslice, or adds it to the ready processes.
    fn resume(&mut self, remaining: usize)
        requires
            old(self)@.cpu_time > 0,
            old(self)@.minimum_remaining_timeslice > 0,
        ensures
            final(self)@ == old(self)@.resumed(remaining),
    {
        match self.stopped_process.take() {
            Some(mut p) => {
                if remaining >= self.minimum_remaining_timeslice {
                    p.set_state(ProcessState::Running);
                    self.running_process = Some(p);
                    self.remaining_time = self.compute_timeslice();
                } else {
                    self.set_ready(p);
                }
            },
            None => {
                self.remaining_time = 0;
            },
        }
    }

    /// Moves the stopped process to the waiting list.
    fn block(&mut self, state: ProcessState, wakeup: WakeupCondition) -> (r: SyscallResult)
        ensures
            (final(self)@, r) == old(self)@.blocked(state, wakeup),
    {
        self.remaining_time = 0;
        match self.stopped_process.take() {
            Some(mut p) => {
                p.set_state(state);
                p.set_wakeup(wakeup);
                self.waiting_processes.push(p);
                assert(self@.waiting =~= old(self)@.waiting.push(p@));
                SyscallResult::Success
            },
            None => SyscallResult::NoRunningProcess,
        }
    }

    /// Services a system call of the stopped process.
    fn syscall_handler(&mut self, syscall: Syscall, remaining: usize) -> (r: SyscallResult)
        requires
            old(self)@.cpu_time > 0,
            old(self)@.minimum_remaining_timeslice > 0,
            syscall is Fork ==> old(self)@.highest_pid < usize::MAX,
        ensures
            (final(self)@, r) == old(self)@.serviced(syscall, remaining),
    {
        match syscall {
            Syscall::Fork(priority) => {
                let vruntime = self.min_vruntime();
                self.new_process(priority, vruntime);
                self.resume(remaining);
                SyscallResult::Pid(self.highest_pid)
            },
            Syscall::Signal(event) => {
                signal_waiters(&mut self.waiting_processes, event);
                self.wakeup_processes();
                self.resume(remaining);
                SyscallResult::Success
            },
            Syscall::Sleep(n) => self.block(
                ProcessState::Waiting { event: None },
                WakeupCondition::Sleep(n),
            ),
            Syscall::Wait(event) => self.block(
                ProcessState::Waiting { event: Some(event) },
                WakeupCondition::Signal(event),
            ),
            Syscall::Exit => {
                self.stopped_process = None;
                self.remaining_time = 0;
                SyscallResult::Success
            },
        }
    }

    /// Whether `stop(reason)` may be called now: a system call must leave
    /// at least one tick of the running process's timeslice used, a sleep
    /// must last at least one tick, and a pid must be left to hand out.
    pub fn accepts(&self, reason: &StopReason) -> (r: bool)
        ensures
            r == self@.accepts(*reason),
    {
        match reason {
            StopReason::Expired => true,
            StopReason::Syscall { syscall, remaining } => {
                (self.running_process.is_none() || *remaining < self.remaining_time) && match syscall {
                    Syscall::Sleep(n) => *n > 0,
                    Syscall::Fork(_) => self.highest_pid < usize::MAX,
                    _ => true,
                }
            },
        }
    }

    /// Decides what runs next: lets a pending sleep pass, then reports
    /// completion, a missing init process, the process still on the
    /// processor, the ready process with the least virtual runtime, a sleep
    /// until the nearest timer, or a deadlock.
    pub fn next(&mut self) -> (r: SchedulingDecision)
        requires
            old(self)@.wf(),
        ensures
            (final(self)@, r) == old(self)@.after_next(),
            final(self)@.wf(),
            r matches SchedulingDecision::Run { timeslice, .. } ==> timeslice > 0,
            r matches SchedulingDecision::Sleep(n) ==> n > 0,
    {
        proof {
            lemma_next(self@);
        }
        if self.sleep_time != 0 {
            self.sleep();
        }
        if self.is_done() {
            return SchedulingDecision::Done;
        }
        if !self.pid_1_exists() {
            return SchedulingDecision::Panic;
        }
        match &self.running_process {
            Some(p) => {
                return SchedulingDecision::Run { pid: p.pid(), timeslice: self.remaining_time };
            },
            None => {},
        }
        if self.ready_processes.len() > 0 {
            let timeslice = self.compute_timeslice();
            match self.scheduled_process() {
                Some(p) => {
                    let pid = p.pid();
                    self.set_running(p, timeslice);
                    return SchedulingDecision::Run { pid, timeslice };
                },
                None => {},
            }
        }
        match self.find_sleep_time() {
            Some(n) => {
                self.sleep_time = n;
                SchedulingDecision::Sleep(n)
            },
            None => SchedulingDecision::Deadlock,
        }
    }

    /// Takes the running process off the processor for `reason`: charges
    /// every process for the step, wakes the waiters whose timer ran out, and
    /// makes the process ready or services its system call.
    pub fn stop(&mut self, reason: StopReason) -> (r: SyscallResult)
        requires
            old(self)@.wf(),
            old(self)@.accepts(reason),
        ensures
            (final(self)@, r) == old(self)@.after_stop(reason),
            final(self)@.wf(),
    {
        proof {
            lemma_stop(self@, reason);
        }
        self.stopped_process = self.running_process.take();
        self.increment_timings(&reason);
        self.wakeup_processes();
        match reason {
            StopReason::Expired => {
                match self.stopped_process.take() {
                    Some(p) => {
                        self.set_ready(p);
                        SyscallResult::Success
                    },
                    None => {
                        self.remaining_time = 0;
                        SyscallResult::NoRunningProcess
                    },
                }
            },
            StopReason::Syscall { syscall, remaining } => self.syscall_handler(syscall, remaining),
        }
    }

    /// Every process, in ascending pid order.
    pub fn list(&self) -> (r: Vec<&Pcb>)
        ensures
            ref_views(r@).to_multiset() == self@.processes().to_multiset(),
            pid_sorted(ref_views(r@)),
            self@.wf() && self@.pids_unique() ==> pid_strict(ref_views(r@)),
    {
        let r = sort_by_pid(self.get_all_processes());
        proof {
            if self@.wf() && self@.pids_unique() {
                assert(self@.everyone() =~= self@.processes());
                lemma_bag_of_multiset(ref_views(r@), self@.processes(), |p: PcbView| pid_of(p));
                assert(pid_bag(ref_views(r@)) == pid_bag(self@.everyone()));
                assert forall|pid: Pid| #[trigger] pid_bag(ref_views(r@)).count(pid) <= 1 by {
                    assert(pid_bag(self@.everyone()).count(pid) <= 1);
                }
                lemma_sorted_unique(ref_views(r@));
            }
        }
        r
    }
}

/// Promotion moves processes without losing or adding any.
proof fn lemma_promoted_bag<A>(s: CfsView, f: spec_fn(PcbView) -> A)
    ensures
        bag(s.promoted().everyone(), f) == bag(s.everyone(), f),
{
    let t = s.promoted();
    lemma_bag4(opt_seq(s.running), opt_seq(s.stopped), s.ready, s.waiting, f);
    lemma_bag4(opt_seq(t.running), opt_seq(t.stopped), t.ready, t.waiting, f);
    lemma_bag_concat(s.ready, woken(s.waiting), f);
    lemma_bag_split(s.waiting, f);
    assert(bag(t.everyone(), f) =~= bag(s.everyone(), f));
}

/// Resuming the stopped process moves it without losing or adding any.
proof fn lemma_resumed_bag<A>(s: CfsView, remaining: usize, f: spec_fn(PcbView) -> A)
    requires
        ignores_status(f),
        s.running is None,
    ensures
        bag(s.resumed(remaining).everyone(), f) == bag(s.everyone(), f),
{
    let t = s.resumed(remaining);
    lemma_bag4(opt_seq(s.running), opt_seq(s.stopped), s.ready, s.waiting, f);
    lemma_bag4(opt_seq(t.running), opt_seq(t.stopped), t.ready, t.waiting, f);
    lemma_bag_empty(f);
    match s.stopped {
        Some(p) => {
            lemma_bag_single(p, f);
            assert(f(p.with_state(ProcessState::Running)) == f(p.with_state(ProcessState::Running).with_wakeup(p.wakeup)));
            let r = p.with_state(ProcessState::Ready).with_wakeup(WakeupCondition::Awake);
            assert(f(r) == f(p));
            lemma_bag_single(p.with_state(ProcessState::Running), f);
            lemma_bag_push(s.ready, r, f);
        },
        None => {},
    }
    assert(bag(t.everyone(), f) =~= bag(s.everyone(), f));
}

/// `next` moves processes without losing or adding any.
proof fn lemma_next_bag<A>(s: CfsView, f: spec_fn(PcbView) -> A)
    requires
        s.wf(),
        ignores_status(f),
    ensures
        bag(s.after_next().0.everyone(), f) == bag(s.slept().everyone(), f),
{
    let u = s.slept();
    let n = s.after_next().0;
    if !u.is_done() && u.pid_1_exists() && u.running is None && u.ready.len() > 0 {
        lemma_pick_bounds(u.ready);
        let x = u.ready[pick(u.ready)];
        lemma_bag4(opt_seq(u.running), opt_seq(u.stopped), u.ready, u.waiting, f);
        lemma_bag4(opt_seq(n.running), opt_seq(n.stopped), n.ready, n.waiting, f);
        lemma_bag_empty(f);
        lemma_bag_single(x.with_state(ProcessState::Running), f);
        assert(f(x.with_state(ProcessState::Running)) == f(x.with_state(ProcessState::Running).with_wakeup(x.wakeup)));
        lemma_bag_take(u.ready, pick(u.ready), x.with_state(ProcessState::Running), f);
        assert(bag(n.everyone(), f) =~= bag(u.everyone(), f));
    } else {
        assert(n.everyone() =~= u.everyone());
    }
}

/// What a stop does to the processes: none is lost or added, but for the
/// child of a fork and an exiting process.
proof fn lemma_stop_bag<A>(s: CfsView, reason: StopReason, f: spec_fn(PcbView) -> A)
    requires
        s.wf(),
        s.accepts(reason),
        ignores_status(f),
    ensures
        ({
            let c = s.charged(reason);
            let after = s.after_stop(reason).0;
            match reason {
                StopReason::Syscall { syscall: Syscall::Fork(priority), .. } => bag(after.everyone(), f)
                    == bag(c.everyone(), f).insert(
                    f(newborn((s.highest_pid + 1) as usize, priority, c.promoted().min_vruntime())),
                ),
                StopReason::Syscall { syscall: Syscall::Exit, .. } => match c.stopped {
                    Some(q) => bag(after.everyone(), f) == bag(c.everyone(), f).remove(f(q)),
                    None => bag(after.everyone(), f) == bag(c.everyone(), f),
                },
                _ => bag(after.everyone(), f) == bag(c.everyone(), f),
            }
        }),
{
    let c = s.charged(reason);
    let p = c.promoted();
    let after = s.after_stop(reason).0;
    lemma_promoted_bag(c, f);
    lemma_bag_empty(f);
    lemma_bag4(opt_seq(p.running), opt_seq(p.stopped), p.ready, p.waiting, f);
    lemma_bag4(opt_seq(after.running), opt_seq(after.stopped), after.ready, after.waiting, f);
    match reason {
        StopReason::Expired => {
            match p.stopped {
                Some(q) => {
                    lemma_bag_single(q, f);
                    let r = q.with_state(ProcessState::Ready).with_wakeup(WakeupCondition::Awake);
                    assert(f(r) == f(q));
                    lemma_bag_push(p.ready, r, f);
                },
                None => {},
            }
            assert(bag(after.everyone(), f) =~= bag(c.everyone(), f));
        },
        StopReason::Syscall { syscall, remaining } => {
            match syscall {
                Syscall::Fork(priority) => {
                    let child = newborn((s.highest_pid + 1) as usize, priority, p.min_vruntime());
                    let g = CfsView {
                        ready: p.ready.push(child),
                        highest_pid: (p.highest_pid + 1) as usize,
                        ..p
                    };
                    lemma_bag_push(p.ready, child, f);
                    lemma_bag4(opt_seq(g.running), opt_seq(g.stopped), g.ready, g.waiting, f);
                    lemma_resumed_bag(g, remaining, f);
                    assert(bag(after.everyone(), f) =~= bag(c.everyone(), f).insert(f(child)));
                },
                Syscall::Signal(event) => {
                    let g = CfsView { waiting: all_signalled(p.waiting, event), ..p };
                    lemma_bag_signalled(p.waiting, event, f);
                    lemma_bag4(opt_seq(g.running), opt_seq(g.stopped), g.ready, g.waiting, f);
                    lemma_promoted_bag(g, f);
                    lemma_resumed_bag(g.promoted(), remaining, f);
                    assert(bag(g.everyone(), f) =~= bag(p.everyone(), f));
                },
                Syscall::Sleep(_) | Syscall::Wait(_) => {
                    match p.stopped {
                        Some(q) => {
                            lemma_bag_single(q, f);
                            let w = after.waiting.last();
                            assert(after.waiting == p.waiting.push(w));
                            assert(f(w) == f(q));
                            lemma_bag_push(p.waiting, w, f);
                        },
                        None => {},
                    }
                    assert(bag(after.everyone(), f) =~= bag(c.everyone(), f));
                },
                Syscall::Exit => {
                    match p.stopped {
                        Some(q) => {
                            lemma_bag_single(q, f);
                            assert(bag(after.everyone(), f) =~= bag(c.everyone(), f).remove(f(q)));
                        },
                        None => {
                            assert(bag(after.everyone(), f) =~= bag(c.everyone(), f));
                        },
                    }
                },
            }
        },
    }
}

/// The pids a state holds, between calls, tell whether the init process exists.
proof fn lemma_pid_1_bag(s: CfsView)
    requires
        s.stopped is None,
    ensures
        s.pid_1_exists() <==> pid_bag(s.everyone()).count(1) > 0,
{
    let f = |p: PcbView| pid_of(p);
    lemma_bag4(opt_seq(s.running), opt_seq(s.stopped), s.ready, s.waiting, f);
    lemma_bag_empty(f);
    lemma_has_pid_bag(s.ready, 1);
    lemma_has_pid_bag(s.waiting, 1);
    match s.running {
        Some(p) => {
            lemma_bag_single(p, f);
        },
        None => {},
    }
}

/// Letting the pending sleep pass keeps every pid.
proof fn lemma_slept_pids(s: CfsView)
    ensures
        pid_bag(s.slept().everyone()) == pid_bag(s.everyone()),
{
    if s.sleep_time != 0 {
        let f = |p: PcbView| pid_of(p);
        let t = CfsView { waiting: all_idle_for(s.waiting, s.sleep_time), sleep_time: 0, ..s };
        lemma_bag4(opt_seq(s.running), opt_seq(s.stopped), s.ready, s.waiting, f);
        lemma_bag4(opt_seq(t.running), opt_seq(t.stopped), t.ready, t.waiting, f);
        lemma_pids_kept(s.waiting, s.sleep_time, 0);
        lemma_promoted_bag(t, f);
    }
}

/// Charging for a step keeps every pid.
proof fn lemma_charged_pids(s: CfsView, reason: StopReason)
    requires
        s.stopped is None,
    ensures
        pid_bag(s.charged(reason).everyone()) == pid_bag(s.everyone()),
{
    let f = |p: PcbView| pid_of(p);
    let c = s.charged(reason);
    let e = s.elapsed(reason);
    lemma_bag4(opt_seq(s.running), opt_seq(s.stopped), s.ready, s.waiting, f);
    lemma_bag4(opt_seq(c.running), opt_seq(c.stopped), c.ready, c.waiting, f);
    lemma_bag_empty(f);
    lemma_pids_kept(s.ready, e, 0);
    lemma_pids_kept(s.waiting, e, 0);
    match s.running {
        Some(p) => {
            lemma_bag_single(p, f);
            lemma_bag_single(ran_for(advanced(p, e), e, reason is Syscall), f);
        },
        None => {},
    }
    assert(pid_bag(c.everyone()) =~= pid_bag(s.everyone()));
}

/// Each pid belongs to exactly one process: `next` and `stop` keep every pid
/// held by one process only, and hold only pids handed out.
pub proof fn law_pids_unique(s: CfsView, reason: StopReason)
    requires
        s.wf(),
        s.pids_unique(),
        s.accepts(reason),
    ensures
        s.after_next().0.pids_unique(),
        s.after_stop(reason).0.pids_unique(),
{
    let f = |p: PcbView| pid_of(p);
    lemma_projections_ignore_status();
    lemma_next_bag(s, f);
    lemma_slept_pids(s);
    lemma_stop_bag(s, reason, f);
    lemma_charged_pids(s, reason);
    let a = s.after_stop(reason).0;
    assert forall|pid: Pid| #[trigger] pid_bag(a.everyone()).count(pid) <= 1 && (pid_bag(
        a.everyone(),
    ).count(pid) > 0 ==> 1 <= pid <= a.highest_pid) by {
        assert(pid_bag(s.everyone()).count(pid) <= 1);
        assert(pid_bag(s.everyone()).count((s.highest_pid + 1) as usize) <= 1);
    }
}

/// Time is conserved: a stop charges every process for the step that ended.
/// A process off the processor gains the elapsed ticks in total time only,
/// the stopped one gains its share as [`ran_for`] gives it, and, but for a
/// forked child and an exiting process, these are exactly the pids and
/// timings held after the stop. A system call always leaves at least one
/// tick to charge.
pub proof fn law_stop_charges_time(s: CfsView, reason: StopReason)
    requires
        s.wf(),
        s.accepts(reason),
    ensures
        ({
            let e = s.elapsed(reason);
            let charged = bag(
                opt_seq(s.running),
                |p: PcbView| stamp(ran_for(p, e, reason is Syscall)),
            ).add(bag(s.ready + s.waiting, |p: PcbView| idle_stamp(p, e)));
            let after = bag(s.after_stop(reason).0.everyone(), |p: PcbView| stamp(p));
            &&& (reason is Syscall && s.running is Some ==> e >= 1)
            &&& match reason {
                StopReason::Syscall { syscall: Syscall::Fork(priority), .. } => after == charged.insert(
                    ((s.highest_pid + 1) as usize, (0usize, 0usize, 0usize)),
                ),
                StopReason::Syscall { syscall: Syscall::Exit, .. } => match s.running {
                    Some(q) => after == charged.remove(stamp(ran_for(q, e, true))),
                    None => after == charged,
                },
                _ => after == charged,
            }
        }),
{
    let f = |p: PcbView| stamp(p);
    let e = s.elapsed(reason);
    let c = s.charged(reason);
    lemma_projections_ignore_status();
    lemma_stop_bag(s, reason, f);
    lemma_bag4(opt_seq(c.running), opt_seq(c.stopped), c.ready, c.waiting, f);
    lemma_bag_empty(f);
    lemma_stamps_idle(s.ready, e);
    lemma_stamps_idle(s.waiting, e);
    lemma_bag_concat(s.ready, s.waiting, |p: PcbView| idle_stamp(p, e));
    let g = |p: PcbView| stamp(ran_for(p, e, reason is Syscall));
    match s.running {
        Some(p) => {
            lemma_bag_single(p, g);
            lemma_bag_single(ran_for(advanced(p, e), e, reason is Syscall), f);
        },
        None => {
            lemma_bag_empty(g);
        },
    }
    let charged = bag(opt_seq(s.running), g).add(bag(s.ready + s.waiting, |p: PcbView| idle_stamp(p, e)));
    assert(bag(c.everyone(), f) =~= charged);
}

/// Pids only grow: a fork hands out the pid after the last one handed out
/// and records it, and nothing else changes the last pid handed out; a new
/// scheduler has handed out none, so its first fork gives pid 1.
pub proof fn law_fork_pids_increase(s: CfsView, reason: StopReason)
    requires
        s.wf(),
        s.accepts(reason),
    ensures
        s.after_next().0.highest_pid == s.highest_pid,
        reason matches StopReason::Syscall { syscall: Syscall::Fork(_), .. } ==> s.after_stop(reason).1
            == SyscallResult::Pid((s.highest_pid + 1) as usize) && s.after_stop(reason).0.highest_pid
            == s.highest_pid + 1,
        !(reason matches StopReason::Syscall { syscall: Syscall::Fork(_), .. }) ==> s.after_stop(
            reason,
        ).0.highest_pid == s.highest_pid,
{
}

/// A sleep is as long as the shortest timer among the waiters, and the
/// decision after it, with no stop between, runs a process.
pub proof fn law_sleep_fast_forward(s: CfsView)
    requires
        s.wf(),
        s.after_next().1 is Sleep,
    ensures
        ({
            let n = s.after_next().1->Sleep_0;
            let t = s.after_next().0;
            &&& holds_sleep(t.waiting, n)
            &&& forall|k: usize| holds_sleep(t.waiting, k) ==> n <= k
            &&& t.after_next().1 is Run
        }),
{
    lemma_next(s);
    let u = s.slept();
    let t = s.after_next().0;
    let n = s.after_next().1->Sleep_0;
    lemma_sleep_positive(t.waiting);
    let i = choose|i: int| 0 <= i < t.waiting.len() && (#[trigger] t.waiting[i]).wakeup
        == WakeupCondition::Sleep(n);
    let w = all_idle_for(t.waiting, n);
    let up = |q: PcbView| q.state == ProcessState::Ready;
    assert(up(w[i]));
    w.lemma_filter_contains(up, i);
    let v = t.slept();
    assert(v.ready.len() > 0);
    lemma_pid_1_bag(t);
    lemma_slept_pids(t);
    lemma_pid_1_bag(v);
}

/// A process that forks or signals with enough of its timeslice left runs
/// again next, for a timeslice computed afresh.
pub proof fn law_retained_runs_next(s: CfsView, reason: StopReason)
    requires
        s.wf(),
        s.accepts(reason),
        s.pid_1_exists(),
        s.running is Some,
        reason matches StopReason::Syscall { syscall, remaining } && (syscall is Fork || syscall is Signal)
            && remaining >= s.minimum_remaining_timeslice,
    ensures
        s.after_stop(reason).0.after_next().1 == (SchedulingDecision::Run {
            pid: s.running->0.pid,
            timeslice: s.after_stop(reason).0.remaining_time,
        }),
{
    let f = |p: PcbView| pid_of(p);
    let a = s.after_stop(reason).0;
    lemma_stop(s, reason);
    lemma_projections_ignore_status();
    lemma_pid_1_bag(s);
    lemma_charged_pids(s, reason);
    lemma_stop_bag(s, reason, f);
    lemma_pid_1_bag(a);
    lemma_slept_pids(a);
    lemma_pid_1_bag(a.slept());
}

/// No process of `s` runs before the picked one.
pub proof fn lemma_pick_least(s: Seq<PcbView>)
    requires
        s.len() > 0,
    ensures
        forall|j: int| 0 <= j < s.len() ==> !runs_before(#[trigger] s[j], s[pick(s)]),
    decreases s.len(),
{
    lemma_pick_bounds(s);
    if s.len() > 1 {
        let t = s.drop_last();
        lemma_pick_least(t);
        lemma_pick_bounds(t);
        assert forall|j: int| 0 <= j < s.len() implies !runs_before(#[trigger] s[j], s[pick(s)]) by {
            if j < s.len() - 1 {
                assert(s[j] == t[j]);
            }
            assert(s[pick(t)] == t[pick(t)]);
        }
    }
}

/// The least virtual runtime of `s` belongs to one of its processes and is
/// no larger than any; there is one exactly when `s` is not empty.
pub proof fn lemma_least_vruntime(s: Seq<PcbView>)
    ensures
        least_vruntime(s) is None <==> s.len() == 0,
        least_vruntime(s) matches Some(m) ==> (exists|i: int| 0 <= i < s.len() && (#[trigger] s[i]).vruntime
            == m) && forall|i: int| 0 <= i < s.len() ==> m <= (#[trigger] s[i]).vruntime,
    decreases s.len(),
{
    if s.len() > 0 {
        let t = s.drop_last();
        lemma_least_vruntime(t);
        let m = least_vruntime(s)->0;
        if least_vruntime(t) is Some && m == least_vruntime(t)->0 {
            let i = choose|i: int| 0 <= i < t.len() && (#[trigger] t[i]).vruntime == least_vruntime(t)->0;
            assert(s[i] == t[i]);
        } else {
            assert(s[s.len() - 1].vruntime == m);
        }
        assert forall|i: int| 0 <= i < s.len() implies m <= (#[trigger] s[i]).vruntime by {
            if i < s.len() - 1 {
                assert(s[i] == t[i]);
            }
        }
    }
}

/// The ready process that runs next is one that no other ready process runs
/// before: the least virtual runtime, and the least pid among equals.
pub proof fn law_least_vruntime_runs(s: CfsView)
    requires
        s.wf(),
        s.slept().running is None,
        s.slept().ready.len() > 0,
        s.slept().pid_1_exists(),
    ensures
        ({
            let r = s.slept().ready;
            &&& 0 <= pick(r) < r.len()
            &&& s.after_next().1 == (SchedulingDecision::Run {
                pid: r[pick(r)].pid,
                timeslice: s.slept().timeslice(),
            })
            &&& forall|j: int| 0 <= j < r.len() ==> !runs_before(#[trigger] r[j], r[pick(r)])
        }),
{
    lemma_pick_bounds(s.slept().ready);
    lemma_pick_least(s.slept().ready);
}

/// Virtual runtime counts time on the processor: a stop adds the elapsed
/// ticks to the stopped process's virtual runtime and leaves every other
/// process's as it was, but for a forked child and an exiting process; `next`
/// changes none.
pub proof fn law_vruntime_accumulates(s: CfsView, reason: StopReason)
    requires
        s.wf(),
        s.accepts(reason),
    ensures
        ({
            let e = s.elapsed(reason);
            let c = s.charged(reason);
            let counted = bag(opt_seq(s.running), |p: PcbView| (p.pid, sat_add(p.vruntime, e))).add(
                bag(s.ready + s.waiting, |p: PcbView| vstamp(p)),
            );
            let after = bag(s.after_stop(reason).0.everyone(), |p: PcbView| vstamp(p));
            &&& bag(s.after_next().0.everyone(), |p: PcbView| vstamp(p)) == bag(
                s.everyone(),
                |p: PcbView| vstamp(p),
            )
            &&& match reason {
                StopReason::Syscall { syscall: Syscall::Fork(_), .. } => after == counted.insert(
                    ((s.highest_pid + 1) as usize, c.promoted().min_vruntime()),
                ),
                StopReason::Syscall { syscall: Syscall::Exit, .. } => match s.running {
                    Some(q) => after == counted.remove((q.pid, sat_add(q.vruntime, e))),
                    None => after == counted,
                },
                _ => after == counted,
            }
        }),
{
    let f = |p: PcbView| vstamp(p);
    let e = s.elapsed(reason);
    let c = s.charged(reason);
    lemma_projections_ignore_status();
    lemma_stop_bag(s, reason, f);
    lemma_next_bag(s, f);
    lemma_bag4(opt_seq(c.running), opt_seq(c.stopped), c.ready, c.waiting, f);
    lemma_bag4(opt_seq(s.running), opt_seq(s.stopped), s.ready, s.waiting, f);
    lemma_bag_empty(f);
    assert(all_idle_for(s.ready, e).map_values(f) =~= s.ready.map_values(f));
    assert(all_idle_for(s.waiting, e).map_values(f) =~= s.waiting.map_values(f));
    lemma_bag_concat(s.ready, s.waiting, f);
    let g = |p: PcbView| (p.pid, sat_add(p.vruntime, e));
    match s.running {
        Some(p) => {
            lemma_bag_single(p, g);
            lemma_bag_single(ran_for(advanced(p, e), e, reason is Syscall), f);
        },
        None => {
            lemma_bag_empty(g);
        },
    }
    assert(bag(c.everyone(), f) =~= bag(opt_seq(s.running), g).add(bag(s.ready + s.waiting, f)));
    if s.sleep_time != 0 {
        let t = CfsView { waiting: all_idle_for(s.waiting, s.sleep_time), sleep_time: 0, ..s };
        lemma_bag4(opt_seq(t.running), opt_seq(t.stopped), t.ready, t.waiting, f);
        assert(all_idle_for(s.waiting, s.sleep_time).map_values(f) =~= s.waiting.map_values(f));
        lemma_promoted_bag(t, f);
    }
}

/// A newborn starts with the least virtual runtime among the ready and
/// stopped processes at the time of the fork, or 0 when there are none.
pub proof fn law_newborn_vruntime(s: CfsView, reason: StopReason)
    requires
        s.wf(),
        s.accepts(reason),
        reason matches StopReason::Syscall { syscall: Syscall::Fork(_), .. },
    ensures
        ({
            let at_fork = s.charged(reason).promoted();
            let m = at_fork.min_vruntime();
            let others = at_fork.ready + opt_seq(at_fork.stopped);
            &&& others.len() == 0 ==> m == 0
            &&& others.len() > 0 ==> (exists|i: int| 0 <= i < others.len() && (#[trigger] others[i]).vruntime
                == m) && forall|i: int| 0 <= i < others.len() ==> m <= (#[trigger] others[i]).vruntime
            &&& bag(s.after_stop(reason).0.everyone(), |p: PcbView| vstamp(p)) == bag(
                at_fork.everyone(),
                |p: PcbView| vstamp(p),
            ).insert(((s.highest_pid + 1) as usize, m))
        }),
{
    let f = |p: PcbView| vstamp(p);
    let at_fork = s.charged(reason).promoted();
    lemma_least_vruntime(at_fork.ready + opt_seq(at_fork.stopped));
    lemma_projections_ignore_status();
    lemma_stop_bag(s, reason, f);
    lemma_promoted_bag(s.charged(reason), f);
}

/// Progress toward completion: an exit by the process on the processor
/// removes exactly that process, `next` neither adds nor removes any, and
/// `next` decides `Done` exactly when, once the pending sleep has passed, no
/// process is left.
pub proof fn law_exit_removes_process(s: CfsView, reason: StopReason)
    requires
        s.wf(),
        s.accepts(reason),
        s.running is Some,
        reason matches StopReason::Syscall { syscall: Syscall::Exit, .. },
    ensures
        pid_bag(s.after_stop(reason).0.everyone()) == pid_bag(s.everyone()).remove(s.running->0.pid),
        pid_bag(s.after_next().0.everyone()) == pid_bag(s.everyone()),
        s.after_next().1 is Done <==> s.slept().is_done(),
{
    let f = |p: PcbView| pid_of(p);
    lemma_projections_ignore_status();
    lemma_stop_bag(s, reason, f);
    lemma_charged_pids(s, reason);
    lemma_next_bag(s, f);
    lemma_slept_pids(s);
}

/// The state after, for each reason in turn, `next` and then `stop` for it.
pub open spec fn run_steps(s: CfsView, reasons: Seq<StopReason>) -> CfsView
    decreases reasons.len(),
{
    if reasons.len() == 0 {
        s
    } else {
        run_steps(s.after_next().0.after_stop(reasons[0]).0, reasons.drop_first())
    }
}

/// Every one of those steps ran `pid`, was a stop the scheduler accepts, and
/// none was an exit.
pub open spec fn runs_only(s: CfsView, reasons: Seq<StopReason>, pid: Pid) -> bool
    decreases reasons.len(),
{
    if reasons.len() == 0 {
        true
    } else {
        let t = s.after_next().0;
        &&& s.after_next().1 matches SchedulingDecision::Run { pid: q, .. } && q == pid
        &&& t.accepts(reasons[0])
        &&& !(reasons[0] matches StopReason::Syscall { syscall: Syscall::Exit, .. })
        &&& runs_only(t.after_stop(reasons[0]).0, reasons.drop_first(), pid)
    }
}

/// The ticks those steps lasted, together.
pub open spec fn ticks(s: CfsView, reasons: Seq<StopReason>) -> nat
    decreases reasons.len(),
{
    if reasons.len() == 0 {
        0
    } else {
        let t = s.after_next().0;
        (t.elapsed(reasons[0]) + ticks(t.after_stop(reasons[0]).0, reasons.drop_first())) as nat
    }
}

/// With unique pids, a process's virtual runtime is the one its pid is
/// counted with.
proof fn lemma_vruntime_of(s: Seq<PcbView>, i: int, v: usize)
    requires
        0 <= i < s.len(),
        forall|pid: Pid| #[trigger] pid_bag(s).count(pid) <= 1,
        bag(s, |p: PcbView| vstamp(p)).count((s[i].pid, v)) > 0,
    ensures
        s[i].vruntime == v,
{
    let m = s.map_values(|p: PcbView| vstamp(p));
    vstd::seq_lib::to_multiset_contains(m, (s[i].pid, v));
    let j = choose|j: int| 0 <= j < m.len() && m[j] == (s[i].pid, v);
    if j != i {
        lemma_pid_twice(s, i, j);
    }
}

/// One step of `pid`: its virtual runtime grows by the ticks of the step.
proof fn lemma_one_step(s: CfsView, reason: StopReason, pid: Pid, v: usize)
    requires
        s.wf(),
        s.pids_unique(),
        s.after_next().1 matches SchedulingDecision::Run { pid: q, .. } && q == pid,
        s.after_next().0.accepts(reason),
        !(reason matches StopReason::Syscall { syscall: Syscall::Exit, .. }),
        bag(s.everyone(), |p: PcbView| vstamp(p)).count((pid, v)) > 0,
        v + s.after_next().0.elapsed(reason) <= usize::MAX,
    ensures
        ({
            let a = s.after_next().0.after_stop(reason).0;
            &&& a.wf()
            &&& a.pids_unique()
            &&& bag(a.everyone(), |p: PcbView| vstamp(p)).count(
                (pid, (v + s.after_next().0.elapsed(reason)) as usize),
            ) > 0
        }),
{
    let f = |p: PcbView| vstamp(p);
    let t = s.after_next().0;
    lemma_next(s);
    law_pids_unique(s, StopReason::Expired);
    law_vruntime_accumulates(s, StopReason::Expired);
    law_pids_unique(t, reason);
    lemma_stop(t, reason);
    law_vruntime_accumulates(t, reason);
    let x = t.running->0;
    assert(t.everyone()[0] == x);
    lemma_vruntime_of(t.everyone(), 0, v);
    let e = t.elapsed(reason);
    let g = |p: PcbView| (p.pid, sat_add(p.vruntime, e));
    lemma_bag_single(x, g);
}

/// Virtual runtime is time on the processor: after steps that all run one
/// process, none of them an exit, its virtual runtime has grown by the ticks
/// those steps lasted.
pub proof fn law_vruntime_sums_steps(s: CfsView, reasons: Seq<StopReason>, pid: Pid, v: usize)
    requires
        s.wf(),
        s.pids_unique(),
        runs_only(s, reasons, pid),
        bag(s.everyone(), |p: PcbView| vstamp(p)).count((pid, v)) > 0,
        v + ticks(s, reasons) <= usize::MAX,
    ensures
        bag(run_steps(s, reasons).everyone(), |p: PcbView| vstamp(p)).count(
            (pid, (v + ticks(s, reasons)) as usize),
        ) > 0,
    decreases reasons.len(),
{
    if reasons.len() > 0 {
        let t = s.after_next().0;
        let e = t.elapsed(reasons[0]);
        lemma_one_step(s, reasons[0], pid, v);
        let a = t.after_stop(reasons[0]).0;
        law_vruntime_sums_steps(a, reasons.drop_first(), pid, (v + e) as usize);
    } else {
        assert((v + ticks(s, reasons)) as usize == v);
    }
}

} // verus!
