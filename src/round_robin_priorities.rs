//! Round robin with priorities: six first-in first-out queues, one for each
//! priority from 0 to 5; the highest non-empty queue runs first. A process
//! loses a level each time its timeslice runs out and regains one, up to its
//! fork priority, when it blocks or yields.
use vstd::prelude::*;
use crate::pcb::{fresh, Pcb, PcbView, WakeupCondition};
use crate::procs::{
    pid_strict, lemma_bag_of_multiset, lemma_sorted_unique,
    bag, ignores_status, lemma_bag4, lemma_bag_concat, lemma_bag_empty, lemma_bag_push,
    lemma_bag_signalled, lemma_bag_single, lemma_bag_split, lemma_bag_take, lemma_has_pid_bag,
    lemma_pids_kept, lemma_projections_ignore_status, pid_of, stamp, holds_sleep, pid_bag,
    idle_stamp, lemma_stamps_idle,
    all_idle_for, all_signalled, find_pid, has_pid, lemma_filter_all, lemma_idle_keeps,
    lemma_signal_keeps, lemma_sleep_positive, lemma_split_keeps, opt_seq, opt_view, pass_time,
    pid_sorted, push_refs, ran_for, ready_well, ref_views, shortest_sleep, signal_waiters,
    sort_by_pid, still_blocked, take_ready, views, waits_or_woke, waits_well, woken,
};
use crate::types::{elapsed_of, Pid, ProcessState, SchedulingDecision, StopReason, Syscall, SyscallResult};

verus! {

/// The number of priority levels.
pub const LEVELS: usize = 6;

/// A priority within range and not above the fork priority.
pub open spec fn prio_ok(p: PcbView) -> bool {
    0 <= p.priority <= p.fork_priority < LEVELS
}

/// The processes of `s` at priority `k`, in order.
pub open spec fn level(s: Seq<PcbView>, k: int) -> Seq<PcbView> {
    s.filter(|p: PcbView| p.priority == k)
}

/// The queues after each process of `s` joins the back of its priority's queue.
pub open spec fn enqueued(q: Seq<Seq<PcbView>>, s: Seq<PcbView>) -> Seq<Seq<PcbView>> {
    Seq::new(q.len(), |k: int| q[k] + level(s, k))
}

/// The highest level at or below `k` whose queue is not empty, or -1.
pub open spec fn top_from(q: Seq<Seq<PcbView>>, k: int) -> int
    decreases k + 1,
{
    if k < 0 {
        -1
    } else if q[k].len() > 0 {
        k
    } else {
        top_from(q, k - 1)
    }
}

/// The highest level whose queue is not empty, or -1.
pub open spec fn top(q: Seq<Seq<PcbView>>) -> int {
    top_from(q, LEVELS - 1)
}

/// The queues one after another, lowest level first.
pub open spec fn joined(q: Seq<Seq<PcbView>>) -> Seq<PcbView>
    decreases q.len(),
{
    if q.len() == 0 {
        Seq::empty()
    } else {
        joined(q.drop_last()) + q.last()
    }
}

/// The views of the ready queues.
pub open spec fn queue_views(q: Seq<Vec<Pcb>>) -> Seq<Seq<PcbView>> {
    q.map_values(|v: Vec<Pcb>| views(v@))
}

/// The state of a [`RoundRobinPrioritiesScheduler`], as mathematical values.
pub ghost struct RoundRobinPrioritiesView {
    /// The process on the processor.
    pub running: Option<PcbView>,
    /// The process whose stop is being serviced; empty between calls.
    pub stopped: Option<PcbView>,
    /// Ticks left of the running process's timeslice.
    pub remaining_time: usize,
    /// One queue per priority level.
    pub ready: Seq<Seq<PcbView>>,
    pub waiting: Seq<PcbView>,
    pub timeslice: usize,
    /// The least timeslice left that keeps a process on the processor after
    /// a system call.
    pub minimum_remaining_timeslice: usize,
    /// The last pid handed out.
    pub highest_pid: usize,
    /// Ticks the next decision lets pass before anything else.
    pub sleep_time: usize,
}

impl RoundRobinPrioritiesView {
    /// The state between two calls.
    pub open spec fn wf(self) -> bool {
        &&& self.timeslice > 0
        &&& self.stopped is None
        &&& (self.running is Some <==> self.remaining_time > 0)
        &&& (self.running matches Some(p) ==> p.state == ProcessState::Running && p.wakeup
            == WakeupCondition::Awake && prio_ok(p))
        &&& queues_well(self.ready)
        &&& forall|i: int| 0 <= i < self.waiting.len() ==> waits_well(#[trigger] self.waiting[i])
            && prio_ok(self.waiting[i])
    }

    /// Whether the scheduler may be stopped for `reason`: a system call costs
    /// one tick of the timeslice, a sleep lasts at least one tick, a fork asks
    /// for a priority from 0 to 5, and there must be a pid left to hand out.
    pub open spec fn accepts(self, reason: StopReason) -> bool {
        match reason {
            StopReason::Expired => true,
            StopReason::Syscall { syscall, remaining } => {
                &&& (self.running is Some ==> remaining < self.remaining_time)
                &&& (syscall matches Syscall::Sleep(n) ==> n > 0)
                &&& (syscall matches Syscall::Fork(priority) ==> 0 <= priority < LEVELS
                    && self.highest_pid < usize::MAX)
            },
        }
    }

    /// Every process the scheduler holds.
    pub open spec fn processes(self) -> Seq<PcbView> {
        opt_seq(self.running) + joined(self.ready) + self.waiting
    }

    /// Every process, the stopped one included.
    pub open spec fn everyone(self) -> Seq<PcbView> {
        opt_seq(self.running) + opt_seq(self.stopped) + joined(self.ready) + self.waiting
    }

    /// Each pid is held by at most one process, and only pids handed out are held.
    pub open spec fn pids_unique(self) -> bool {
        forall|pid: Pid|
            #[trigger] pid_bag(self.everyone()).count(pid) <= 1 && (pid_bag(self.everyone()).count(pid)
                > 0 ==> 1 <= pid <= self.highest_pid)
    }

    /// Is no process left anywhere?
    pub open spec fn is_done(self) -> bool {
        &&& self.running is None
        &&& forall|k: int| 0 <= k < self.ready.len() ==> (#[trigger] self.ready[k]).len() == 0
        &&& self.waiting.len() == 0
    }

    /// Does the init process exist?
    pub open spec fn pid_1_exists(self) -> bool {
        ||| (self.running matches Some(p) && p.pid == 1)
        ||| exists|k: int| 0 <= k < self.ready.len() && has_pid(#[trigger] self.ready[k], 1)
        ||| has_pid(self.waiting, 1)
    }

    /// Waiters marked ready move to the back of their priority's queue.
    pub open spec fn promoted(self) -> Self {
        RoundRobinPrioritiesView {
            ready: enqueued(self.ready, woken(self.waiting)),
            waiting: still_blocked(self.waiting),
            ..self
        }
    }

    /// The pending sleep, if any, has passed.
    pub open spec fn slept(self) -> Self {
        if self.sleep_time != 0 {
            RoundRobinPrioritiesView {
                waiting: all_idle_for(self.waiting, self.sleep_time),
                sleep_time: 0,
                ..self
            }.promoted()
        } else {
            self
        }
    }

    /// The state and decision after `next`.
    pub open spec fn after_next(self) -> (Self, SchedulingDecision) {
        let s = self.slept();
        let k = top(s.ready);
        if s.is_done() {
            (s, SchedulingDecision::Done)
        } else if !s.pid_1_exists() {
            (s, SchedulingDecision::Panic)
        } else if s.running is Some {
            (s, SchedulingDecision::Run { pid: s.running->0.pid, timeslice: s.remaining_time })
        } else if k >= 0 {
            (
                RoundRobinPrioritiesView {
                    running: Some(s.ready[k][0].with_state(ProcessState::Running)),
                    ready: s.ready.update(k, s.ready[k].drop_first()),
                    remaining_time: s.timeslice,
                    ..s
                },
                SchedulingDecision::Run { pid: s.ready[k][0].pid, timeslice: s.timeslice },
            )
        } else {
            match shortest_sleep(s.waiting) {
                Some(n) => (RoundRobinPrioritiesView { sleep_time: n, ..s }, SchedulingDecision::Sleep(n)),
                None => (s, SchedulingDecision::Deadlock),
            }
        }
    }

    /// Ticks that passed in the step that `reason` ends.
    pub open spec fn elapsed(self, reason: StopReason) -> usize {
        elapsed_of(self.remaining_time, reason.remaining_after())
    }

    /// The running process leaves the processor and every process is charged
    /// for the step.
    pub open spec fn charged(self, reason: StopReason) -> Self {
        let e = self.elapsed(reason);
        RoundRobinPrioritiesView {
            running: None,
            stopped: match self.running {
                Some(p) => Some(ran_for(p, e, reason is Syscall)),
                None => None,
            },
            ready: self.ready.map_values(|q: Seq<PcbView>| all_idle_for(q, e)),
            waiting: all_idle_for(self.waiting, e),
            ..self
        }
    }

    /// `p` joins the back of its priority's queue, ready and awake.
    pub open spec fn queued(self, p: PcbView) -> Self {
        let q = p.with_state(ProcessState::Ready).with_wakeup(WakeupCondition::Awake);
        RoundRobinPrioritiesView {
            ready: self.ready.update(p.priority as int, self.ready[p.priority as int].push(q)),
            remaining_time: 0,
            ..self
        }
    }

    /// The stopped process keeps the processor if enough of its timeslice,
    /// and at least one tick, is left; else it is queued, one level higher
    /// when `raise` holds.
    pub open spec fn resumed(self, remaining: usize, raise: bool) -> Self {
        match self.stopped {
            Some(p) => if remaining >= self.minimum_remaining_timeslice && remaining > 0 {
                RoundRobinPrioritiesView {
                    running: Some(p.with_state(ProcessState::Running)),
                    stopped: None,
                    remaining_time: remaining,
                    ..self
                }
            } else {
                RoundRobinPrioritiesView { stopped: None, ..self }.queued(
                    if raise {
                        p.raised()
                    } else {
                        p
                    },
                )
            },
            None => RoundRobinPrioritiesView { remaining_time: 0, ..self },
        }
    }

    /// The stopped process goes to the waiting list one level higher.
    pub open spec fn blocked(self, state: ProcessState, wakeup: WakeupCondition) -> (Self, SyscallResult) {
        match self.stopped {
            Some(p) => (
                RoundRobinPrioritiesView {
                    waiting: self.waiting.push(p.with_state(state).with_wakeup(wakeup).raised()),
                    stopped: None,
                    remaining_time: 0,
                    ..self
                },
                SyscallResult::Success,
            ),
            None => (RoundRobinPrioritiesView { remaining_time: 0, ..self }, SyscallResult::NoRunningProcess),
        }
    }

    /// The state and result after servicing `syscall`.
    pub open spec fn serviced(self, syscall: Syscall, remaining: usize) -> (Self, SyscallResult) {
        match syscall {
            Syscall::Fork(priority) => {
                let pid = (self.highest_pid + 1) as usize;
                let k = priority as int;
                (
                    RoundRobinPrioritiesView {
                        ready: self.ready.update(k, self.ready[k].push(fresh(pid, priority, 0))),
                        highest_pid: pid,
                        ..self
                    }.resumed(remaining, false),
                    SyscallResult::Pid(pid),
                )
            },
            Syscall::Signal(event) => (
                RoundRobinPrioritiesView { waiting: all_signalled(self.waiting, event), ..self }.promoted().resumed(
                    remaining,
                    true,
                ),
                SyscallResult::Success,
            ),
            Syscall::Sleep(n) => self.blocked(
                ProcessState::Waiting { event: None },
                WakeupCondition::Sleep(n),
            ),
            Syscall::Wait(event) => self.blocked(
                ProcessState::Waiting { event: Some(event) },
                WakeupCondition::Signal(event),
            ),
            Syscall::Exit => (
                RoundRobinPrioritiesView { stopped: None, remaining_time: 0, ..self },
                SyscallResult::Success,
            ),
        }
    }

    /// The state and result after `stop(reason)`.
    pub open spec fn after_stop(self, reason: StopReason) -> (Self, SyscallResult) {
        let s = self.charged(reason).promoted();
        match reason {
            StopReason::Expired => match s.stopped {
                Some(p) => (
                    RoundRobinPrioritiesView { stopped: None, ..s }.queued(p.lowered()),
                    SyscallResult::Success,
                ),
                None => (
                    RoundRobinPrioritiesView { remaining_time: 0, ..s },
                    SyscallResult::NoRunningProcess,
                ),
            },
            StopReason::Syscall { syscall, remaining } => s.serviced(syscall, remaining),
        }
    }
}

/// Adding one more process to the back of its queue.
proof fn lemma_enqueue_push(q: Seq<Seq<PcbView>>, s: Seq<PcbView>, p: PcbView)
    requires
        0 <= p.priority < q.len(),
    ensures
        enqueued(q, s.push(p)) == enqueued(q, s).update(
            p.priority as int,
            enqueued(q, s)[p.priority as int].push(p),
        ),
{
    let a = enqueued(q, s.push(p));
    let b = enqueued(q, s).update(p.priority as int, enqueued(q, s)[p.priority as int].push(p));
    assert forall|k: int| 0 <= k < q.len() implies a[k] == b[k] by {
        s.lemma_filter_push(p, |x: PcbView| x.priority == k);
        if k == p.priority {
            assert(a[k] =~= b[k]);
        } else {
            assert(a[k] =~= b[k]);
        }
    }
    assert(a =~= b);
}

/// Nothing is added by no process.
proof fn lemma_enqueue_none(q: Seq<Seq<PcbView>>)
    ensures
        enqueued(q, Seq::empty()) == q,
{
    assert forall|k: int| 0 <= k < q.len() implies enqueued(q, Seq::empty())[k] == q[k] by {
        reveal(Seq::filter);
        assert(level(Seq::empty(), k) =~= Seq::<PcbView>::empty());
        assert(q[k] + Seq::<PcbView>::empty() =~= q[k]);
    }
    assert(enqueued(q, Seq::empty()) =~= q);
}

/// The level `top_from` finds holds a process, and every level above it up
/// to `k` is empty.
pub proof fn lemma_top_from(q: Seq<Seq<PcbView>>, k: int)
    requires
        -1 <= k < q.len(),
    ensures
        -1 <= top_from(q, k) <= k,
        top_from(q, k) >= 0 ==> q[top_from(q, k)].len() > 0,
        forall|j: int| top_from(q, k) < j <= k ==> (#[trigger] q[j]).len() == 0,
    decreases k + 1,
{
    if k >= 0 && q[k].len() == 0 {
        lemma_top_from(q, k - 1);
    }
}

/// A process in queue `k` as the scheduler keeps it.
pub open spec fn queued_well(p: PcbView, k: int) -> bool {
    ready_well(p) && p.priority == k && prio_ok(p)
}

/// Every queue holds consistent processes of its own level.
pub open spec fn queues_well(q: Seq<Seq<PcbView>>) -> bool {
    &&& q.len() == LEVELS
    &&& forall|k: int, i: int| 0 <= k < LEVELS && 0 <= i < q[k].len() ==> queued_well(#[trigger] q[k][i], k)
}

/// Replacing one queue changes only its view.
proof fn lemma_queue_views_update(q: Seq<Vec<Pcb>>, k: int, v: Vec<Pcb>)
    requires
        0 <= k < q.len(),
    ensures
        queue_views(q.update(k, v)) == queue_views(q).update(k, views(v@)),
{
    assert(queue_views(q.update(k, v)) =~= queue_views(q).update(k, views(v@)));
}

/// Promotion makes a state whose waiters are each consistent or woken into
/// one whose queues and waiting list are consistent.
proof fn lemma_promoted_wf(s: RoundRobinPrioritiesView)
    requires
        queues_well(s.ready),
        forall|i: int| 0 <= i < s.waiting.len() ==> waits_or_woke(#[trigger] s.waiting[i]) && prio_ok(
            s.waiting[i],
        ),
    ensures
        queues_well(s.promoted().ready),
        forall|i: int| 0 <= i < s.promoted().waiting.len() ==> waits_well(
            #[trigger] s.promoted().waiting[i],
        ) && prio_ok(s.promoted().waiting[i]),
{
    let up = |q: PcbView| q.state == ProcessState::Ready;
    let down = |q: PcbView| q.state != ProcessState::Ready;
    lemma_split_keeps(s.waiting);
    lemma_filter_all(s.waiting, up, |p: PcbView| prio_ok(p));
    lemma_filter_all(s.waiting, down, |p: PcbView| prio_ok(p));
    let w = woken(s.waiting);
    let r = s.promoted().ready;
    assert forall|k: int, i: int| 0 <= k < LEVELS && 0 <= i < r[k].len() implies queued_well(
        #[trigger] r[k][i],
        k,
    ) by {
        if i >= s.ready[k].len() {
            lemma_filter_all(w, |p: PcbView| p.priority == k, |p: PcbView| ready_well(p) && prio_ok(p));
            assert(r[k][i] == level(w, k)[i - s.ready[k].len()]);
        }
    }
}

/// Resuming the stopped process leaves a consistent state.
proof fn lemma_resumed_wf(s: RoundRobinPrioritiesView, remaining: usize, raise: bool)
    requires
        s.timeslice > 0,
        s.running is None,
        queues_well(s.ready),
        forall|i: int| 0 <= i < s.waiting.len() ==> waits_well(#[trigger] s.waiting[i]) && prio_ok(
            s.waiting[i],
        ),
        s.stopped matches Some(p) ==> p.wakeup == WakeupCondition::Awake && prio_ok(p),
    ensures
        s.resumed(remaining, raise).wf(),
{
    let n = s.resumed(remaining, raise);
    assert forall|k: int, i: int| 0 <= k < LEVELS && 0 <= i < n.ready[k].len() implies queued_well(
        #[trigger] n.ready[k][i],
        k,
    ) by {
        if i < s.ready[k].len() {
            assert(n.ready[k][i] == s.ready[k][i]);
        }
    }
}

/// `next` keeps the state consistent, and hands out positive durations.
proof fn lemma_next(s: RoundRobinPrioritiesView)
    requires
        s.wf(),
    ensures
        s.after_next().0.wf(),
        s.after_next().1 matches SchedulingDecision::Run { timeslice, .. } ==> timeslice > 0,
        s.after_next().1 matches SchedulingDecision::Sleep(n) ==> n > 0,
{
    assert(queues_well(s.ready));
    if s.sleep_time != 0 {
        let t = RoundRobinPrioritiesView {
            waiting: all_idle_for(s.waiting, s.sleep_time),
            sleep_time: 0,
            ..s
        };
        assert forall|i: int| 0 <= i < s.waiting.len() implies waits_or_woke(#[trigger] s.waiting[i]) by {
            assert(waits_well(s.waiting[i]));
        }
        lemma_idle_keeps(s.waiting, s.sleep_time);
        lemma_promoted_wf(t);
    }
    let u = s.slept();
    lemma_sleep_positive(u.waiting);
    lemma_top_from(u.ready, LEVELS - 1);
    let k = top(u.ready);
    if !u.is_done() && u.pid_1_exists() && u.running is None && k >= 0 {
        let n = u.after_next().0;
        assert(queued_well(u.ready[k][0], k));
        assert forall|j: int, i: int| 0 <= j < LEVELS && 0 <= i < n.ready[j].len() implies queued_well(
            #[trigger] n.ready[j][i],
            j,
        ) by {
            if j == k {
                assert(n.ready[j][i] == u.ready[j][i + 1]);
            } else {
                assert(n.ready[j][i] == u.ready[j][i]);
            }
        }
    }
}

/// `stop` keeps the state consistent.
proof fn lemma_stop(s: RoundRobinPrioritiesView, reason: StopReason)
    requires
        s.wf(),
        s.accepts(reason),
    ensures
        s.after_stop(reason).0.wf(),
{
    let c = s.charged(reason);
    let e = s.elapsed(reason);
    assert forall|i: int| 0 <= i < s.waiting.len() implies waits_or_woke(#[trigger] s.waiting[i]) by {
        assert(waits_well(s.waiting[i]));
    }
    lemma_idle_keeps(s.waiting, e);
    assert forall|k: int, i: int| 0 <= k < LEVELS && 0 <= i < c.ready[k].len() implies queued_well(
        #[trigger] c.ready[k][i],
        k,
    ) by {
        lemma_idle_keeps(s.ready[k], e);
        assert(queued_well(s.ready[k][i], k));
    }
    lemma_promoted_wf(c);
    let p = c.promoted();
    match reason {
        StopReason::Expired => {
            let n = s.after_stop(reason).0;
            assert forall|k: int, i: int| 0 <= k < LEVELS && 0 <= i < n.ready[k].len() implies queued_well(
                #[trigger] n.ready[k][i],
                k,
            ) by {
                if i < p.ready[k].len() {
                    assert(n.ready[k][i] == p.ready[k][i]);
                }
            }
        },
        StopReason::Syscall { syscall, remaining } => {
            match syscall {
                Syscall::Fork(priority) => {
                    let pid = (p.highest_pid + 1) as usize;
                    let k0 = priority as int;
                    let f = RoundRobinPrioritiesView {
                        ready: p.ready.update(k0, p.ready[k0].push(fresh(pid, priority, 0))),
                        highest_pid: pid,
                        ..p
                    };
                    assert forall|k: int, i: int| 0 <= k < LEVELS && 0 <= i < f.ready[k].len() implies queued_well(
                        #[trigger] f.ready[k][i],
                        k,
                    ) by {
                        if i < p.ready[k].len() {
                            assert(f.ready[k][i] == p.ready[k][i]);
                        }
                    }
                    lemma_resumed_wf(f, remaining, false);
                },
                Syscall::Signal(event) => {
                    let g = RoundRobinPrioritiesView { waiting: all_signalled(p.waiting, event), ..p };
                    assert forall|i: int| 0 <= i < p.waiting.len() implies waits_or_woke(
                        #[trigger] p.waiting[i],
                    ) by {
                        assert(waits_well(p.waiting[i]));
                    }
                    lemma_signal_keeps(p.waiting, event);
                    lemma_promoted_wf(g);
                    lemma_resumed_wf(g.promoted(), remaining, true);
                },
                Syscall::Sleep(_) | Syscall::Wait(_) => {
                    let n = s.after_stop(reason).0;
                    assert forall|i: int| 0 <= i < n.waiting.len() implies waits_well(#[trigger] n.waiting[i])
                        && prio_ok(n.waiting[i]) by {
                        if i < p.waiting.len() {
                            assert(n.waiting[i] == p.waiting[i]);
                        }
                    }
                },
                Syscall::Exit => {},
            }
        },
    }
}

/// A round robin scheduler with priorities.
pub struct RoundRobinPrioritiesScheduler {
    running_process: Option<Pcb>,
    stopped_process: Option<Pcb>,
    remaining_time: usize,
    /// One queue per priority level.
    ready_processes: Vec<Vec<Pcb>>,
    waiting_processes: Vec<Pcb>,
    timeslice: usize,
    minimum_remaining_timeslice: usize,
    highest_pid: usize,
    sleep_time: usize,
}

impl View for RoundRobinPrioritiesScheduler {
    type V = RoundRobinPrioritiesView;

    closed spec fn view(&self) -> RoundRobinPrioritiesView {
        RoundRobinPrioritiesView {
            running: opt_view(self.running_process),
            stopped: opt_view(self.stopped_process),
            remaining_time: self.remaining_time,
            ready: queue_views(self.ready_processes@),
            waiting: views(self.waiting_processes@),
            timeslice: self.timeslice,
            minimum_remaining_timeslice: self.minimum_remaining_timeslice,
            highest_pid: self.highest_pid,
            sleep_time: self.sleep_time,
        }
    }
}

impl RoundRobinPrioritiesScheduler {
    /// A scheduler with no process, giving each process `timeslice` ticks.
    pub fn new(timeslice: usize, minimum_remaining_timeslice: usize) -> (r: Self)
        requires
            timeslice > 0,
        ensures
            r@ == (RoundRobinPrioritiesView {
                running: None,
                stopped: None,
                remaining_time: 0,
                ready: Seq::new(LEVELS as nat, |k: int| Seq::empty()),
                waiting: Seq::empty(),
                timeslice,
                minimum_remaining_timeslice,
                highest_pid: 0,
                sleep_time: 0,
            }),
            r@.wf(),
            r@.pids_unique(),
    {
        let mut ready: Vec<Vec<Pcb>> = Vec::new();
        while ready.len() < LEVELS
            invariant
                ready@.len() <= LEVELS,
                forall|k: int| 0 <= k < ready@.len() ==> (#[trigger] ready@[k])@.len() == 0,
            decreases LEVELS - ready@.len(),
        {
            ready.push(Vec::new());
        }
        let r = RoundRobinPrioritiesScheduler {
            running_process: None,
            stopped_process: None,
            remaining_time: 0,
            ready_processes: ready,
            waiting_processes: Vec::new(),
            timeslice,
            minimum_remaining_timeslice,
            highest_pid: 0,
            sleep_time: 0,
        };
        assert forall|k: int| 0 <= k < LEVELS implies #[trigger] r@.ready[k] == Seq::<PcbView>::empty() by {
            assert(r@.ready[k] =~= Seq::<PcbView>::empty());
        }
        assert(r@.ready =~= Seq::new(LEVELS as nat, |k: int| Seq::<PcbView>::empty()));
        assert(r@.waiting =~= Seq::empty());
        proof {
            lemma_joined_empty(r@.ready);
            lemma_bag_empty(|p: PcbView| pid_of(p));
            assert(r@.everyone() =~= Seq::empty());
        }
        r
    }

    /// Puts `p` at the back of the queue of its priority.
    fn push_queue(&mut self, p: Pcb)
        requires
            old(self)@.ready.len() == LEVELS,
            0 <= p@.priority < LEVELS,
        ensures
            final(self)@ == (RoundRobinPrioritiesView {
                ready: old(self)@.ready.update(
                    p@.priority as int,
                    old(self)@.ready[p@.priority as int].push(p@),
                ),
                ..old(self)@
            }),
    {
        let k = p.priority() as usize;
        let ghost q = self.ready_processes@;
        let ghost pv = p@;
        self.ready_processes[k].push(p);
        proof {
            lemma_queue_views_update(q, k as int, self.ready_processes@[k as int]);
            assert(views(self.ready_processes@[k as int]@) =~= views(q[k as int]@).push(pv));
        }
    }

    /// Moves the waiters marked ready to the back of their priority's queue.
    fn wakeup_processes(&mut self)
        requires
            old(self)@.ready.len() == LEVELS,
            forall|i: int| 0 <= i < old(self)@.waiting.len() ==> prio_ok(#[trigger] old(self)@.waiting[i]),
        ensures
            final(self)@ == old(self)@.promoted(),
    {
        let ghost w0 = old(self)@.waiting;
        let mut woken_up = take_ready(&mut self.waiting_processes);
        proof {
            lemma_filter_all(w0, |q: PcbView| q.state == ProcessState::Ready, |p: PcbView| prio_ok(p));
            lemma_enqueue_none(old(self)@.ready);
        }
        assert(views(woken_up@.take(0)) =~= Seq::<PcbView>::empty());
        let ghost all = woken_up@;
        proof {
            assert forall|j: int| 0 <= j < all.len() implies prio_ok(#[trigger] all[j]@) by {
                assert(views(all)[j] == all[j]@);
            }
        }
        let ghost mut i: int = 0;
        while woken_up.len() > 0
            invariant
                0 <= i <= all.len(),
                old(self)@.ready.len() == LEVELS,
                woken_up@ == all.skip(i),
                views(all) == woken(w0),
                forall|j: int| 0 <= j < all.len() ==> prio_ok(#[trigger] all[j]@),
                self@ == (RoundRobinPrioritiesView {
                    ready: enqueued(old(self)@.ready, views(all.take(i))),
                    waiting: still_blocked(w0),
                    ..old(self)@
                }),
            decreases woken_up@.len(),
        {
            let p = woken_up.remove(0);
            proof {
                assert(all[i] == p);
                assert(prio_ok(all[i]@));
                assert(enqueued(old(self)@.ready, views(all.take(i))).len() == LEVELS);
                assert(all.skip(i + 1) =~= all.skip(i).remove(0));
                assert(views(all.take(i + 1)) =~= views(all.take(i)).push(p@));
                lemma_enqueue_push(old(self)@.ready, views(all.take(i)), p@);
                i = i + 1;
            }
            self.push_queue(p);
        }
        proof {
            assert(all.take(i) =~= all);
        }
    }

    /// Charges every process for the step that `reason` ends.
    fn increment_timings(&mut self, reason: &StopReason)
        requires
            old(self)@.running is None,
            old(self)@.ready.len() == LEVELS,
            old(self)@.stopped is Some && reason is Syscall ==> reason.remaining_after()
                < old(self)@.remaining_time,
        ensures
            final(self)@ == (RoundRobinPrioritiesView { running: old(self)@.stopped, ..old(self)@ }).charged(
                *reason,
            ),
    {
        let time = match reason {
            StopReason::Expired => self.remaining_time,
            StopReason::Syscall { remaining, .. } => {
                if *remaining <= self.remaining_time {
                    self.remaining_time - *remaining
                } else {
                    0
                }
            },
        };
        match &mut self.stopped_process {
            Some(p) => match reason {
                StopReason::Syscall { .. } => p.increment_timings(time, 1, time - 1),
                StopReason::Expired => p.increment_timings(time, 0, time),
            },
            None => {},
        }
        let ghost q0 = old(self)@.ready;
        let mut k: usize = 0;
        while k < LEVELS
            invariant
                k <= LEVELS,
                self.ready_processes@.len() == LEVELS,
                q0.len() == LEVELS,
                forall|j: int| 0 <= j < k ==> (#[trigger] queue_views(self.ready_processes@)[j])
                    == all_idle_for(q0[j], time),
                forall|j: int| k <= j < LEVELS ==> (#[trigger] queue_views(self.ready_processes@)[j])
                    == q0[j],
                self.stopped_process == old(self).stopped_process || old(self).stopped_process is Some,
                opt_view(self.stopped_process) == (RoundRobinPrioritiesView {
                    running: old(self)@.stopped,
                    ..old(self)@
                }).charged(*reason).stopped,
                self.waiting_processes == old(self).waiting_processes,
                self.remaining_time == old(self).remaining_time,
                self.running_process is None,
                self.timeslice == old(self).timeslice,
                self.minimum_remaining_timeslice == old(self).minimum_remaining_timeslice,
                self.highest_pid == old(self).highest_pid,
                self.sleep_time == old(self).sleep_time,
            decreases LEVELS - k,
        {
            let ghost q = self.ready_processes@;
            pass_time(&mut self.ready_processes[k], time);
            proof {
                lemma_queue_views_update(q, k as int, self.ready_processes@[k as int]);
                assert(self.ready_processes@ == q.update(k as int, self.ready_processes@[k as int]));
                assert(queue_views(q)[k as int] == views(q[k as int]@));
            }
            k = k + 1;
        }
        pass_time(&mut self.waiting_processes, time);
        assert(self@.ready =~= q0.map_values(|q: Seq<PcbView>| all_idle_for(q, time)));
    }

    /// Lets the pending sleep pass.
    fn sleep(&mut self)
        requires
            old(self)@.sleep_time != 0,
            old(self)@.ready.len() == LEVELS,
            forall|i: int| 0 <= i < old(self)@.waiting.len() ==> prio_ok(#[trigger] old(self)@.waiting[i]),
        ensures
            final(self)@ == old(self)@.slept(),
    {
        pass_time(&mut self.waiting_processes, self.sleep_time);
        self.sleep_time = 0;
        self.wakeup_processes();
    }

    /// Creates a ready process with the next pid and `priority`.
    fn new_process(&mut self, priority: i8)
        requires
            old(self)@.ready.len() == LEVELS,
            0 <= priority < LEVELS,
            old(self)@.highest_pid < usize::MAX,
        ensures
            final(self)@ == (RoundRobinPrioritiesView {
                ready: old(self)@.ready.update(
                    priority as int,
                    old(self)@.ready[priority as int].push(
                        fresh((old(self)@.highest_pid + 1) as usize, priority, 0),
                    ),
                ),
                highest_pid: (old(self)@.highest_pid + 1) as usize,
                ..old(self)@
            }),
    {
        self.highest_pid = self.highest_pid + 1;
        self.push_queue(Pcb::new(self.highest_pid, priority, 0));
    }

    /// Queues `p` as ready and leaves the processor idle.
    fn set_ready(&mut self, p: Pcb)
        requires
            old(self)@.ready.len() == LEVELS,
            0 <= p@.priority < LEVELS,
        ensures
            final(self)@ == old(self)@.queued(p@),
    {
        let mut p = p;
        p.set_state(ProcessState::Ready);
        p.set_wakeup(WakeupCondition::Awake);
        self.push_queue(p);
        self.remaining_time = 0;
    }

    /// Puts `p` on the processor with a full timeslice.
    fn set_running(&mut self, p: Pcb)
        ensures
            final(self)@ == (RoundRobinPrioritiesView {
                running: Some(p@.with_state(ProcessState::Running)),
                remaining_time: old(self)@.timeslice,
                ..old(self)@
            }),
    {
        let mut p = p;
        p.set_state(ProcessState::Running);
        self.running_process = Some(p);
        self.remaining_time = self.timeslice;
    }

    /// Gives the processor back to the stopped process, or queues it, one
    /// level higher when `raise` holds.
    fn resume(&mut self, remaining: usize, raise: bool)
        requires
            old(self)@.ready.len() == LEVELS,
            old(self)@.stopped matches Some(p) ==> prio_ok(p),
        ensures
            final(self)@ == old(self)@.resumed(remaining, raise),
    {
        match self.stopped_process.take() {
            Some(mut p) => {
                if remaining >= self.minimum_remaining_timeslice && remaining > 0 {
                    p.set_state(ProcessState::Running);
                    self.running_process = Some(p);
                    self.remaining_time = remaining;
                } else {
                    if raise {
                        p.increment_priority();
                    }
                    self.set_ready(p);
                }
            },
            None => {
                self.remaining_time = 0;
            },
        }
    }

    /// Moves the stopped process to the waiting list, one level higher.
    fn block(&mut self, state: ProcessState, wakeup: WakeupCondition) -> (r: SyscallResult)
        ensures
            (final(self)@, r) == old(self)@.blocked(state, wakeup),
    {
        self.remaining_time = 0;
        match self.stopped_process.take() {
            Some(mut p) => {
                p.set_state(state);
                p.set_wakeup(wakeup);
                p.increment_priority();
                self.waiting_processes.push(p);
                assert(self@.waiting =~= old(self)@.waiting.push(p@));
                SyscallResult::Success
            },
            None => SyscallResult::NoRunningProcess,
        }
    }

    /// Services a system call of the stopped process.
    fn syscall_handler(&mut self, syscall: Syscall, remaining: usize) -> (r: SyscallResult)
        requires
            old(self)@.ready.len() == LEVELS,
            old(self)@.stopped matches Some(p) ==> prio_ok(p),
            forall|i: int| 0 <= i < old(self)@.waiting.len() ==> prio_ok(#[trigger] old(self)@.waiting[i]),
            syscall matches Syscall::Fork(priority) ==> 0 <= priority < LEVELS && old(self)@.highest_pid
                < usize::MAX,
        ensures
            (final(self)@, r) == old(self)@.serviced(syscall, remaining),
    {
        match syscall {
            Syscall::Fork(priority) => {
                self.new_process(priority);
                self.resume(remaining, false);
                SyscallResult::Pid(self.highest_pid)
            },
            Syscall::Signal(event) => {
                signal_waiters(&mut self.waiting_processes, event);
                assert forall|i: int| 0 <= i < self@.waiting.len() implies prio_ok(
                    #[trigger] self@.waiting[i],
                ) by {
                    assert(self@.waiting[i] == crate::procs::signalled(old(self)@.waiting[i], event));
                }
                self.wakeup_processes();
                self.resume(remaining, true);
                SyscallResult::Success
            },
            Syscall::Sleep(n) => self.block(
                ProcessState::Waiting { event: None },
                WakeupCondition::Sleep(n),
            ),
            Syscall::Wait(event) => self.block(
                ProcessState::Waiting { event: Some(event) },
                WakeupCondition::Signal(event),
            ),
            Syscall::Exit => {
                self.stopped_process = None;
                self.remaining_time = 0;
                SyscallResult::Success
            },
        }
    }

    /// Whether no process is left anywhere.
    fn is_done(&self) -> (r: bool)
        ensures
            r == self@.is_done(),
    {
        if self.running_process.is_some() || self.waiting_processes.len() > 0 {
            return false;
        }
        let mut k: usize = 0;
        while k < self.ready_processes.len()
            invariant
                k <= self.ready_processes@.len(),
                forall|j: int| 0 <= j < k ==> (#[trigger] self@.ready[j]).len() == 0,
            decreases self.ready_processes@.len() - k,
        {
            if self.ready_processes[k].len() > 0 {
                assert(self@.ready[k as int].len() > 0);
                return false;
            }
            assert(self@.ready[k as int].len() == 0);
            k = k + 1;
        }
        true
    }

    /// Whether the init process exists.
    fn pid_1_exists(&self) -> (r: bool)
        ensures
            r == self@.pid_1_exists(),
    {
        match &self.running_process {
            Some(p) => {
                if p.pid() == 1 {
                    return true;
                }
            },
            None => {},
        }
        let mut k: usize = 0;
        while k < self.ready_processes.len()
            invariant
                k <= self.ready_processes@.len(),
                forall|j: int| 0 <= j < k ==> !has_pid(#[trigger] self@.ready[j], 1),
            decreases self.ready_processes@.len() - k,
        {
            if find_pid(&self.ready_processes[k], 1) {
                assert(has_pid(self@.ready[k as int], 1));
                return true;
            }
            assert(!has_pid(self@.ready[k as int], 1));
            k = k + 1;
        }
        find_pid(&self.waiting_processes, 1)
    }

    /// Takes the process at the head of the highest non-empty queue.
    fn scheduled_process(&mut self) -> (r: Option<Pcb>)
        requires
            old(self)@.ready.len() == LEVELS,
        ensures
            top(old(self)@.ready) < 0 ==> r is None && final(self)@ == old(self)@,
            top(old(self)@.ready) >= 0 ==> (r matches Some(p) && p@ == old(self)@.ready[top(
                old(self)@.ready,
            )][0]),
            top(old(self)@.ready) >= 0 ==> final(self)@ == (RoundRobinPrioritiesView {
                ready: old(self)@.ready.update(
                    top(old(self)@.ready),
                    old(self)@.ready[top(old(self)@.ready)].drop_first(),
                ),
                ..old(self)@
            }),
    {
        let mut k: usize = LEVELS;
        while k > 0
            invariant
                k <= LEVELS,
                self == old(self),
                self@.ready.len() == LEVELS,
                top(self@.ready) == top_from(self@.ready, k - 1),
            decreases k,
        {
            if self.ready_processes[k - 1].len() > 0 {
                let ghost q = self.ready_processes@;
                assert(self@.ready[k - 1].len() > 0);
                let p = self.ready_processes[k - 1].remove(0);
                proof {
                    lemma_queue_views_update(q, k - 1, self.ready_processes@[k - 1]);
                    assert(self.ready_processes@ == q.update(k - 1, self.ready_processes@[k - 1]));
                    assert(views(self.ready_processes@[k - 1]@) =~= views(q[k - 1]@).drop_first());
                }
                return Some(p);
            }
            assert(self@.ready[k - 1].len() == 0);
            k = k - 1;
        }
        None
    }

    /// The shortest sleep among the waiters.
    fn find_sleep_time(&self) -> (r: Option<usize>)
        ensures
            r == shortest_sleep(self@.waiting),
    {
        crate::procs::find_sleep_time(&self.waiting_processes)
    }

    /// Every process: the running one, then the queues from the lowest
    /// level up, then the waiters.
    fn get_all_processes(&self) -> (r: Vec<&Pcb>)
        ensures
            ref_views(r@) == self@.processes(),
    {
        let mut all: Vec<&Pcb> = Vec::new();
        match &self.running_process {
            Some(p) => {
                all.push(p);
            },
            None => {},
        }
        assert(ref_views(all@) =~= opt_seq(self@.running));
        let mut k: usize = 0;
        while k < self.ready_processes.len()
            invariant
                k <= self.ready_processes@.len(),
                ref_views(all@) == opt_seq(self@.running) + joined(self@.ready.take(k as int)),
            decreases self.ready_processes@.len() - k,
        {
            let ghost before = all@;
            push_refs(&mut all, &self.ready_processes[k]);
            proof {
                let t = self@.ready.take(k + 1);
                assert(t.drop_last() =~= self@.ready.take(k as int));
                assert(t.last() == views(self.ready_processes@[k as int]@));
            }
            k = k + 1;
        }
        assert(self@.ready.take(k as int) =~= self@.ready);
        push_refs(&mut all, &self.waiting_processes);
        all
    }

    /// Whether `stop(reason)` may be called now: a system call must leave
    /// at least one tick of the running process's timeslice used, a sleep
    /// must last at least one tick, a fork must ask for a priority
    /// from 0 to 5, and a pid must be left to hand out.
    pub fn accepts(&self, reason: &StopReason) -> (r: bool)
        ensures
            r == self@.accepts(*reason),
    {
        match reason {
            StopReason::Expired => true,
            StopReason::Syscall { syscall, remaining } => {
                (self.running_process.is_none() || *remaining < self.remaining_time) && match syscall {
                    Syscall::Sleep(n) => *n > 0,
                    Syscall::Fork(priority) => 0 <= *priority && (*priority as usize) < LEVELS
                        && self.highest_pid < usize::MAX,
                    _ => true,
                }
            },
        }
    }

    /// Decides what runs next: lets a pending sleep pass, then reports
    /// completion, a missing init process, the process still on the
    /// processor, the head of the highest non-empty queue, a sleep until the
    /// nearest timer, or a deadlock.
    pub fn next(&mut self) -> (r: SchedulingDecision)
        requires
            old(self)@.wf(),
        ensures
            (final(self)@, r) == old(self)@.after_next(),
            final(self)@.wf(),
            r matches SchedulingDecision::Run { timeslice, .. } ==> timeslice > 0,
            r matches SchedulingDecision::Sleep(n) ==> n > 0,
    {
        proof {
            lemma_next(self@);
        }
        if self.sleep_time != 0 {
            self.sleep();
        }
        if self.is_done() {
            return SchedulingDecision::Done;
        }
        if !self.pid_1_exists() {
            return SchedulingDecision::Panic;
        }
        match &self.running_process {
            Some(p) => {
                return SchedulingDecision::Run { pid: p.pid(), timeslice: self.remaining_time };
            },
            None => {},
        }
        match self.scheduled_process() {
            Some(p) => {
                let pid = p.pid();
                self.set_running(p);
                return SchedulingDecision::Run { pid, timeslice: self.timeslice };
            },
            None => {},
        }
        match self.find_sleep_time() {
            Some(n) => {
                self.sleep_time = n;
                SchedulingDecision::Sleep(n)
            },
            None => SchedulingDecision::Deadlock,
        }
    }

    /// Takes the running process off the processor for `reason`: charges
    /// every process for the step, wakes the waiters whose timer ran out, and
    /// queues the process one level lower or services its system call.
    pub fn stop(&mut self, reason: StopReason) -> (r: SyscallResult)
        requires
            old(self)@.wf(),
            old(self)@.accepts(reason),
        ensures
            (final(self)@, r) == old(self)@.after_stop(reason),
            final(self)@.wf(),
    {
        proof {
            lemma_stop(self@, reason);
        }
        self.stopped_process = self.running_process.take();
        self.increment_timings(&reason);
        assert forall|i: int| 0 <= i < self@.waiting.len() implies prio_ok(#[trigger] self@.waiting[i]) by {
            assert(prio_ok(old(self)@.waiting[i]));
        }
        let ghost w = self@.waiting;
        self.wakeup_processes();
        proof {
            lemma_filter_all(w, |q: PcbView| q.state != ProcessState::Ready, |p: PcbView| prio_ok(p));
        }
        match reason {
            StopReason::Expired => {
                match self.stopped_process.take() {
                    Some(mut p) => {
                        p.decrement_priority();
                        self.set_ready(p);
                        SyscallResult::Success
                    },
                    None => {
                        self.remaining_time = 0;
                        SyscallResult::NoRunningProcess
                    },
                }
            },
            StopReason::Syscall { syscall, remaining } => self.syscall_handler(syscall, remaining),
        }
    }

    /// Every process, in ascending pid order.
    pub fn list(&self) -> (r: Vec<&Pcb>)
        ensures
            ref_views(r@).to_multiset() == self@.processes().to_multiset(),
            pid_sorted(ref_views(r@)),
            self@.wf() && self@.pids_unique() ==> pid_strict(ref_views(r@)),
    {
        let r = sort_by_pid(self.get_all_processes());
        proof {
            if self@.wf() && self@.pids_unique() {
                assert(self@.everyone() =~= self@.processes());
                lemma_bag_of_multiset(ref_views(r@), self@.processes(), |p: PcbView| pid_of(p));
                assert(pid_bag(ref_views(r@)) == pid_bag(self@.everyone()));
                assert forall|pid: Pid| #[trigger] pid_bag(ref_views(r@)).count(pid) <= 1 by {
                    assert(pid_bag(self@.everyone()).count(pid) <= 1);
                }
                lemma_sorted_unique(ref_views(r@));
            }
        }
        r
    }
}

/// Replacing one queue by `x` trades its processes for those of `x`.
proof fn lemma_joined_update<A>(q: Seq<Seq<PcbView>>, k: int, x: Seq<PcbView>, f: spec_fn(PcbView) -> A)
    requires
        0 <= k < q.len(),
    ensures
        bag(joined(q.update(k, x)), f).add(bag(q[k], f)) == bag(joined(q), f).add(bag(x, f)),
        forall|v: A|
            #[trigger] bag(joined(q.update(k, x)), f).count(v) + bag(q[k], f).count(v) == bag(
                joined(q),
                f,
            ).count(v) + bag(x, f).count(v),
    decreases q.len(),
{
    let u = q.update(k, x);
    let jq = joined(q.drop_last());
    let ju = joined(u.drop_last());
    assert(joined(q) == jq + q.last());
    assert(joined(u) == ju + u.last());
    lemma_bag_concat(jq, q.last(), f);
    lemma_bag_concat(ju, u.last(), f);
    if k == q.len() - 1 {
        assert(u.drop_last() =~= q.drop_last());
        assert(u.last() == x);
        assert(q.last() == q[k]);
        assert(bag(joined(u), f) == bag(jq, f).add(bag(x, f)));
        assert(bag(joined(q), f) == bag(jq, f).add(bag(q[k], f)));
        assert(bag(joined(u), f).add(bag(q[k], f)) =~= bag(joined(q), f).add(bag(x, f)));
    } else {
        assert(u.drop_last() =~= q.drop_last().update(k, x));
        assert(q.drop_last()[k] == q[k]);
        assert(u.last() == q.last());
        lemma_joined_update(q.drop_last(), k, x, f);
        assert(bag(ju, f).add(bag(q[k], f)) == bag(jq, f).add(bag(x, f)));
        assert(bag(joined(u), f) == bag(ju, f).add(bag(q.last(), f)));
        assert(bag(joined(q), f) == bag(jq, f).add(bag(q.last(), f)));
        assert forall|v: A| #[trigger] bag(joined(u), f).add(bag(q[k], f)).count(v) == bag(
            joined(q),
            f,
        ).add(bag(x, f)).count(v) by {
            assert(bag(ju, f).add(bag(q[k], f)).count(v) == bag(jq, f).add(bag(x, f)).count(v));
        }
        assert(bag(joined(u), f).add(bag(q[k], f)) =~= bag(joined(q), f).add(bag(x, f)));
    }
    assert forall|v: A| #[trigger] bag(joined(u), f).count(v) + bag(q[k], f).count(v) == bag(
        joined(q),
        f,
    ).count(v) + bag(x, f).count(v) by {
        assert(bag(joined(u), f).add(bag(q[k], f)).count(v) == bag(joined(q), f).add(bag(x, f)).count(v));
    }
}

/// Empty queues join to nothing.
proof fn lemma_joined_empty(q: Seq<Seq<PcbView>>)
    requires
        forall|k: int| 0 <= k < q.len() ==> (#[trigger] q[k]).len() == 0,
    ensures
        joined(q) == Seq::<PcbView>::empty(),
    decreases q.len(),
{
    if q.len() > 0 {
        lemma_joined_empty(q.drop_last());
        assert(joined(q) =~= Seq::<PcbView>::empty());
    }
}

/// Appending each process to its level's queue adds exactly those processes.
proof fn lemma_joined_enqueued<A>(q: Seq<Seq<PcbView>>, s: Seq<PcbView>, f: spec_fn(PcbView) -> A)
    requires
        forall|i: int| 0 <= i < s.len() ==> 0 <= (#[trigger] s[i]).priority < q.len(),
    ensures
        bag(joined(enqueued(q, s)), f) == bag(joined(q), f).add(bag(s, f)),
    decreases s.len(),
{
    if s.len() == 0 {
        lemma_enqueue_none(q);
        lemma_bag_empty(f);
        assert(s =~= Seq::<PcbView>::empty());
        assert(bag(joined(q), f).add(bag(s, f)) =~= bag(joined(q), f));
    } else {
        let t = s.drop_last();
        let x = s.last();
        assert(s =~= t.push(x));
        lemma_joined_enqueued(q, t, f);
        lemma_enqueue_push(q, t, x);
        let e = enqueued(q, t);
        let k = x.priority as int;
        lemma_joined_update(e, k, e[k].push(x), f);
        lemma_bag_push(e[k], x, f);
        lemma_bag_push(t, x, f);
        assert forall|v: A| #[trigger] bag(joined(enqueued(q, s)), f).count(v) == bag(joined(q), f).add(
            bag(s, f),
        ).count(v) by {
            assert(bag(joined(e.update(k, e[k].push(x))), f).count(v) + bag(e[k], f).count(v) == bag(
                joined(e),
                f,
            ).count(v) + bag(e[k].push(x), f).count(v));
            assert(bag(e[k].push(x), f).count(v) == bag(e[k], f).insert(f(x)).count(v));
            assert(bag(s, f).count(v) == bag(t, f).insert(f(x)).count(v));
            assert(bag(joined(e), f).count(v) == bag(joined(q), f).add(bag(t, f)).count(v));
        }
        assert(bag(joined(enqueued(q, s)), f) =~= bag(joined(q), f).add(bag(s, f)));
    }
}

/// Time passing in every queue is time passing in the joined queues.
proof fn lemma_joined_idle(q: Seq<Seq<PcbView>>, time: usize)
    ensures
        joined(q.map_values(|x: Seq<PcbView>| all_idle_for(x, time))) == all_idle_for(joined(q), time),
    decreases q.len(),
{
    let m = q.map_values(|x: Seq<PcbView>| all_idle_for(x, time));
    if q.len() > 0 {
        assert(m.drop_last() =~= q.drop_last().map_values(|x: Seq<PcbView>| all_idle_for(x, time)));
        lemma_joined_idle(q.drop_last(), time);
    }
    assert(joined(m) =~= all_idle_for(joined(q), time));
}

/// Promotion moves processes without losing or adding any.
proof fn lemma_promoted_bag<A>(s: RoundRobinPrioritiesView, f: spec_fn(PcbView) -> A)
    requires
        s.ready.len() == LEVELS,
        forall|i: int| 0 <= i < s.waiting.len() ==> prio_ok(#[trigger] s.waiting[i]),
    ensures
        bag(s.promoted().everyone(), f) == bag(s.everyone(), f),
{
    let t = s.promoted();
    let w = woken(s.waiting);
    lemma_filter_all(s.waiting, |q: PcbView| q.state == ProcessState::Ready, |p: PcbView| prio_ok(p));
    assert forall|i: int| 0 <= i < w.len() implies 0 <= (#[trigger] w[i]).priority < s.ready.len() by {
        assert(prio_ok(w[i]));
    }
    lemma_joined_enqueued(s.ready, w, f);
    lemma_bag4(opt_seq(s.running), opt_seq(s.stopped), joined(s.ready), s.waiting, f);
    lemma_bag4(opt_seq(t.running), opt_seq(t.stopped), joined(t.ready), t.waiting, f);
    lemma_bag_split(s.waiting, f);
    assert(bag(t.everyone(), f) =~= bag(s.everyone(), f));
}

/// Queuing `p` adds it, with its new status, to the processes.
proof fn lemma_queued_bag<A>(s: RoundRobinPrioritiesView, p: PcbView, f: spec_fn(PcbView) -> A)
    requires
        ignores_status(f),
        s.ready.len() == LEVELS,
        0 <= p.priority < LEVELS,
    ensures
        bag(joined(s.queued(p).ready), f) == bag(joined(s.ready), f).insert(f(p)),
{
    let k = p.priority as int;
    let r = p.with_state(ProcessState::Ready).with_wakeup(WakeupCondition::Awake);
    assert(f(r) == f(p));
    lemma_joined_update(s.ready, k, s.ready[k].push(r), f);
    lemma_bag_push(s.ready[k], r, f);
    assert forall|v: A| #[trigger] bag(joined(s.queued(p).ready), f).count(v) == bag(joined(s.ready), f).insert(
        f(p),
    ).count(v) by {
        assert(bag(joined(s.ready.update(k, s.ready[k].push(r))), f).count(v) + bag(s.ready[k], f).count(v)
            == bag(joined(s.ready), f).count(v) + bag(s.ready[k].push(r), f).count(v));
        assert(bag(s.ready[k].push(r), f).count(v) == bag(s.ready[k], f).insert(f(r)).count(v));
    }
    assert(bag(joined(s.queued(p).ready), f) =~= bag(joined(s.ready), f).insert(f(p)));
}

/// Resuming the stopped process moves it without losing or adding any.
proof fn lemma_resumed_bag<A>(s: RoundRobinPrioritiesView, remaining: usize, raise: bool, f: spec_fn(PcbView) -> A)
    requires
        ignores_status(f),
        s.running is None,
        s.ready.len() == LEVELS,
        s.stopped matches Some(p) ==> prio_ok(p),
    ensures
        bag(s.resumed(remaining, raise).everyone(), f) == bag(s.everyone(), f),
{
    let t = s.resumed(remaining, raise);
    lemma_bag4(opt_seq(s.running), opt_seq(s.stopped), joined(s.ready), s.waiting, f);
    lemma_bag4(opt_seq(t.running), opt_seq(t.stopped), joined(t.ready), t.waiting, f);
    lemma_bag_empty(f);
    match s.stopped {
        Some(p) => {
            lemma_bag_single(p, f);
            assert(f(p.with_state(ProcessState::Running)) == f(p.with_state(ProcessState::Running).with_wakeup(p.wakeup)));
            lemma_bag_single(p.with_state(ProcessState::Running), f);
            let q = if raise { p.raised() } else { p };
            assert(f(p.with_state(p.state).with_wakeup(p.wakeup)) == f(p));
            lemma_queued_bag(RoundRobinPrioritiesView { stopped: None, ..s }, q, f);
        },
        None => {},
    }
    assert(bag(t.everyone(), f) =~= bag(s.everyone(), f));
}

/// `next` moves processes without losing or adding any.
proof fn lemma_next_bag<A>(s: RoundRobinPrioritiesView, f: spec_fn(PcbView) -> A)
    requires
        s.wf(),
        ignores_status(f),
    ensures
        bag(s.after_next().0.everyone(), f) == bag(s.slept().everyone(), f),
{
    lemma_next(s);
    let u = s.slept();
    let n = s.after_next().0;
    lemma_top_from(u.ready, LEVELS - 1);
    let k = top(u.ready);
    if !u.is_done() && u.pid_1_exists() && u.running is None && k >= 0 {
        let x = u.ready[k][0];
        lemma_bag4(opt_seq(u.running), opt_seq(u.stopped), joined(u.ready), u.waiting, f);
        lemma_bag4(opt_seq(n.running), opt_seq(n.stopped), joined(n.ready), n.waiting, f);
        lemma_bag_empty(f);
        lemma_bag_single(x.with_state(ProcessState::Running), f);
        assert(f(x.with_state(ProcessState::Running)) == f(x.with_state(ProcessState::Running).with_wakeup(x.wakeup)));
        lemma_bag_take(u.ready[k], 0, x.with_state(ProcessState::Running), f);
        assert(u.ready[k].drop_first() =~= u.ready[k].remove(0));
        lemma_joined_update(u.ready, k, u.ready[k].drop_first(), f);
        let y = x.with_state(ProcessState::Running);
        assert forall|v: A| #[trigger] bag(n.everyone(), f).count(v) == bag(u.everyone(), f).count(v) by {
            assert(bag(joined(u.ready.update(k, u.ready[k].drop_first())), f).count(v) + bag(u.ready[k], f).count(
                v,
            ) == bag(joined(u.ready), f).count(v) + bag(u.ready[k].drop_first(), f).count(v));
            assert(bag(u.ready[k].remove(0), f).insert(f(y)).count(v) == bag(u.ready[k], f).count(v));
        }
        assert(bag(n.everyone(), f) =~= bag(u.everyone(), f));
    } else {
        assert(n.everyone() =~= u.everyone());
    }
}

/// What a stop does to the processes: none is lost or added, but for the
/// child of a fork and an exiting process.
proof fn lemma_stop_bag<A>(s: RoundRobinPrioritiesView, reason: StopReason, f: spec_fn(PcbView) -> A)
    requires
        s.wf(),
        s.accepts(reason),
        ignores_status(f),
    ensures
        ({
            let c = s.charged(reason);
            let after = s.after_stop(reason).0;
            match reason {
                StopReason::Syscall { syscall: Syscall::Fork(priority), .. } => bag(after.everyone(), f)
                    == bag(c.everyone(), f).insert(f(fresh((s.highest_pid + 1) as usize, priority, 0))),
                StopReason::Syscall { syscall: Syscall::Exit, .. } => match c.stopped {
                    Some(q) => bag(after.everyone(), f) == bag(c.everyone(), f).remove(f(q)),
                    None => bag(after.everyone(), f) == bag(c.everyone(), f),
                },
                _ => bag(after.everyone(), f) == bag(c.everyone(), f),
            }
        }),
{
    let c = s.charged(reason);
    let p = c.promoted();
    let after = s.after_stop(reason).0;
    let e = s.elapsed(reason);
    assert forall|i: int| 0 <= i < c.waiting.len() implies prio_ok(#[trigger] c.waiting[i]) by {
        assert(prio_ok(s.waiting[i]));
    }
    lemma_promoted_bag(c, f);
    lemma_filter_all(c.waiting, |q: PcbView| q.state != ProcessState::Ready, |p: PcbView| prio_ok(p));
    lemma_bag_empty(f);
    lemma_bag4(opt_seq(p.running), opt_seq(p.stopped), joined(p.ready), p.waiting, f);
    lemma_bag4(opt_seq(after.running), opt_seq(after.stopped), joined(after.ready), after.waiting, f);
    match reason {
        StopReason::Expired => {
            match p.stopped {
                Some(q) => {
                    lemma_bag_single(q, f);
                    assert(f(q.with_state(q.state).with_wakeup(q.wakeup)) == f(q));
                    lemma_queued_bag(RoundRobinPrioritiesView { stopped: None, ..p }, q.lowered(), f);
                },
                None => {},
            }
            assert(bag(after.everyone(), f) =~= bag(c.everyone(), f));
        },
        StopReason::Syscall { syscall, remaining } => {
            match syscall {
                Syscall::Fork(priority) => {
                    let child = fresh((s.highest_pid + 1) as usize, priority, 0);
                    let k = priority as int;
                    let g = RoundRobinPrioritiesView {
                        ready: p.ready.update(k, p.ready[k].push(child)),
                        highest_pid: (p.highest_pid + 1) as usize,
                        ..p
                    };
                    lemma_joined_update(p.ready, k, p.ready[k].push(child), f);
                    lemma_bag_push(p.ready[k], child, f);
                    lemma_bag4(opt_seq(g.running), opt_seq(g.stopped), joined(g.ready), g.waiting, f);
                    lemma_resumed_bag(g, remaining, false, f);
                    assert forall|v: A| #[trigger] bag(g.everyone(), f).count(v) == bag(p.everyone(), f).insert(
                        f(child),
                    ).count(v) by {
                        assert(bag(joined(g.ready), f).count(v) + bag(p.ready[k], f).count(v) == bag(
                            joined(p.ready),
                            f,
                        ).count(v) + bag(p.ready[k].push(child), f).count(v));
                        assert(bag(p.ready[k].push(child), f).count(v) == bag(p.ready[k], f).insert(
                            f(child),
                        ).count(v));
                    }
                    assert(bag(after.everyone(), f) =~= bag(c.everyone(), f).insert(f(child)));
                },
                Syscall::Signal(event) => {
                    let g = RoundRobinPrioritiesView { waiting: all_signalled(p.waiting, event), ..p };
                    lemma_bag_signalled(p.waiting, event, f);
                    assert forall|i: int| 0 <= i < g.waiting.len() implies prio_ok(#[trigger] g.waiting[i]) by {
                        assert(prio_ok(p.waiting[i]));
                    }
                    lemma_bag4(opt_seq(g.running), opt_seq(g.stopped), joined(g.ready), g.waiting, f);
                    lemma_promoted_bag(g, f);
                    lemma_resumed_bag(g.promoted(), remaining, true, f);
                    assert(bag(g.everyone(), f) =~= bag(p.everyone(), f));
                },
                Syscall::Sleep(_) | Syscall::Wait(_) => {
                    match p.stopped {
                        Some(q) => {
                            lemma_bag_single(q, f);
                            let w = after.waiting.last();
                            assert(after.waiting == p.waiting.push(w));
                            let b = q.with_state(w.state).with_wakeup(w.wakeup);
                            assert(f(b) == f(q));
                            assert(f(b.with_state(b.state).with_wakeup(b.wakeup)) == f(b));
                            assert(f(w) == f(q));
                            lemma_bag_push(p.waiting, w, f);
                        },
                        None => {},
                    }
                    assert(bag(after.everyone(), f) =~= bag(c.everyone(), f));
                },
                Syscall::Exit => {
                    match p.stopped {
                        Some(q) => {
                            lemma_bag_single(q, f);
                            assert(bag(after.everyone(), f) =~= bag(c.everyone(), f).remove(f(q)));
                        },
                        None => {
                            assert(bag(after.everyone(), f) =~= bag(c.everyone(), f));
                        },
                    }
                },
            }
        },
    }
}

/// The pids a state holds, between calls, tell whether the init process exists.
proof fn lemma_pid_1_bag(s: RoundRobinPrioritiesView)
    requires
        s.stopped is None,
    ensures
        s.pid_1_exists() <==> pid_bag(s.everyone()).count(1) > 0,
    decreases s.ready.len(),
{
    let f = |p: PcbView| pid_of(p);
    lemma_bag4(opt_seq(s.running), opt_seq(s.stopped), joined(s.ready), s.waiting, f);
    lemma_bag_empty(f);
    lemma_has_pid_joined(s.ready, 1);
    lemma_has_pid_bag(joined(s.ready), 1);
    lemma_has_pid_bag(s.waiting, 1);
    match s.running {
        Some(p) => {
            lemma_bag_single(p, f);
        },
        None => {},
    }
}

/// A pid occurs in the joined queues exactly when it occurs in one of them.
proof fn lemma_has_pid_joined(q: Seq<Seq<PcbView>>, pid: usize)
    ensures
        has_pid(joined(q), pid) <==> exists|k: int| 0 <= k < q.len() && has_pid(#[trigger] q[k], pid),
    decreases q.len(),
{
    if q.len() > 0 {
        let t = q.drop_last();
        lemma_has_pid_joined(t, pid);
        let j = joined(q);
        assert(j == joined(t) + q.last());
        if has_pid(j, pid) {
            let i = choose|i: int| 0 <= i < j.len() && (#[trigger] j[i]).pid == pid;
            if i < joined(t).len() {
                assert(joined(t)[i] == j[i]);
                let k = choose|k: int| 0 <= k < t.len() && has_pid(#[trigger] t[k], pid);
                assert(q[k] == t[k]);
            } else {
                assert(q.last()[i - joined(t).len()] == j[i]);
                assert(has_pid(q[q.len() - 1], pid));
            }
        }
        if exists|k: int| 0 <= k < q.len() && has_pid(#[trigger] q[k], pid) {
            let k = choose|k: int| 0 <= k < q.len() && has_pid(#[trigger] q[k], pid);
            let i = choose|i: int| 0 <= i < q[k].len() && (#[trigger] q[k][i]).pid == pid;
            if k < q.len() - 1 {
                assert(t[k] == q[k]);
                assert(has_pid(joined(t), pid));
                let i2 = choose|i2: int| 0 <= i2 < joined(t).len() && (#[trigger] joined(t)[i2]).pid == pid;
                assert(j[i2] == joined(t)[i2]);
            } else {
                assert(j[joined(t).len() + i] == q[k][i]);
            }
        }
    }
}

/// Letting the pending sleep pass keeps every pid.
proof fn lemma_slept_pids(s: RoundRobinPrioritiesView)
    requires
        s.wf(),
    ensures
        pid_bag(s.slept().everyone()) == pid_bag(s.everyone()),
{
    if s.sleep_time != 0 {
        let f = |p: PcbView| pid_of(p);
        let t = RoundRobinPrioritiesView {
            waiting: all_idle_for(s.waiting, s.sleep_time),
            sleep_time: 0,
            ..s
        };
        assert forall|i: int| 0 <= i < t.waiting.len() implies prio_ok(#[trigger] t.waiting[i]) by {
            assert(prio_ok(s.waiting[i]));
        }
        lemma_bag4(opt_seq(s.running), opt_seq(s.stopped), joined(s.ready), s.waiting, f);
        lemma_bag4(opt_seq(t.running), opt_seq(t.stopped), joined(t.ready), t.waiting, f);
        lemma_pids_kept(s.waiting, s.sleep_time, 0);
        lemma_promoted_bag(t, f);
    }
}

/// Charging for a step keeps every pid.
proof fn lemma_charged_pids(s: RoundRobinPrioritiesView, reason: StopReason)
    requires
        s.stopped is None,
    ensures
        pid_bag(s.charged(reason).everyone()) == pid_bag(s.everyone()),
{
    let f = |p: PcbView| pid_of(p);
    let c = s.charged(reason);
    let e = s.elapsed(reason);
    lemma_bag4(opt_seq(s.running), opt_seq(s.stopped), joined(s.ready), s.waiting, f);
    lemma_bag4(opt_seq(c.running), opt_seq(c.stopped), joined(c.ready), c.waiting, f);
    lemma_bag_empty(f);
    lemma_joined_idle(s.ready, e);
    lemma_pids_kept(joined(s.ready), e, 0);
    lemma_pids_kept(s.waiting, e, 0);
    match s.running {
        Some(p) => {
            lemma_bag_single(p, f);
            lemma_bag_single(ran_for(p, e, reason is Syscall), f);
        },
        None => {},
    }
    assert(pid_bag(c.everyone()) =~= pid_bag(s.everyone()));
}

/// Each pid belongs to exactly one process: `next` and `stop` keep every pid
/// held by one process only, and hold only pids handed out.
pub proof fn law_pids_unique(s: RoundRobinPrioritiesView, reason: StopReason)
    requires
        s.wf(),
        s.pids_unique(),
        s.accepts(reason),
    ensures
        s.after_next().0.pids_unique(),
        s.after_stop(reason).0.pids_unique(),
{
    let f = |p: PcbView| pid_of(p);
    lemma_projections_ignore_status();
    lemma_next_bag(s, f);
    lemma_slept_pids(s);
    lemma_stop_bag(s, reason, f);
    lemma_charged_pids(s, reason);
    let a = s.after_stop(reason).0;
    assert forall|pid: Pid| #[trigger] pid_bag(a.everyone()).count(pid) <= 1 && (pid_bag(
        a.everyone(),
    ).count(pid) > 0 ==> 1 <= pid <= a.highest_pid) by {
        assert(pid_bag(s.everyone()).count(pid) <= 1);
        assert(pid_bag(s.everyone()).count((s.highest_pid + 1) as usize) <= 1);
    }
}

/// Time is conserved: a stop charges every process for the step that ended.
/// A process off the processor gains the elapsed ticks in total time only,
/// the stopped one gains its share as [`ran_for`] gives it, and, but for a
/// forked child and an exiting process, these are exactly the pids and
/// timings held after the stop. A system call always leaves at least one
/// tick to charge.
pub proof fn law_stop_charges_time(s: RoundRobinPrioritiesView, reason: StopReason)
    requires
        s.wf(),
        s.accepts(reason),
    ensures
        ({
            let e = s.elapsed(reason);
            let charged = bag(
                opt_seq(s.running),
                |p: PcbView| stamp(ran_for(p, e, reason is Syscall)),
            ).add(bag(joined(s.ready) + s.waiting, |p: PcbView| idle_stamp(p, e)));
            let after = bag(s.after_stop(reason).0.everyone(), |p: PcbView| stamp(p));
            &&& (reason is Syscall && s.running is Some ==> e >= 1)
            &&& match reason {
                StopReason::Syscall { syscall: Syscall::Fork(priority), .. } => after == charged.insert(
                    ((s.highest_pid + 1) as usize, (0usize, 0usize, 0usize)),
                ),
                StopReason::Syscall { syscall: Syscall::Exit, .. } => match s.running {
                    Some(q) => after == charged.remove(stamp(ran_for(q, e, true))),
                    None => after == charged,
                },
                _ => after == charged,
            }
        }),
{
    let f = |p: PcbView| stamp(p);
    let e = s.elapsed(reason);
    let c = s.charged(reason);
    lemma_projections_ignore_status();
    lemma_stop_bag(s, reason, f);
    lemma_bag4(opt_seq(c.running), opt_seq(c.stopped), joined(c.ready), c.waiting, f);
    lemma_bag_empty(f);
    lemma_joined_idle(s.ready, e);
    lemma_stamps_idle(joined(s.ready), e);
    lemma_stamps_idle(s.waiting, e);
    lemma_bag_concat(joined(s.ready), s.waiting, |p: PcbView| idle_stamp(p, e));
    let g = |p: PcbView| stamp(ran_for(p, e, reason is Syscall));
    match s.running {
        Some(p) => {
            lemma_bag_single(p, g);
            lemma_bag_single(ran_for(p, e, reason is Syscall), f);
        },
        None => {
            lemma_bag_empty(g);
        },
    }
    let charged = bag(opt_seq(s.running), g).add(
        bag(joined(s.ready) + s.waiting, |p: PcbView| idle_stamp(p, e)),
    );
    assert(bag(c.everyone(), f) =~= charged);
}

/// Pids only grow: a fork hands out the pid after the last one handed out
/// and records it, and nothing else changes the last pid handed out; a new
/// scheduler has handed out none, so its first fork gives pid 1.
pub proof fn law_fork_pids_increase(s: RoundRobinPrioritiesView, reason: StopReason)
    requires
        s.wf(),
        s.accepts(reason),
    ensures
        s.after_next().0.highest_pid == s.highest_pid,
        reason matches StopReason::Syscall { syscall: Syscall::Fork(_), .. } ==> s.after_stop(reason).1
            == SyscallResult::Pid((s.highest_pid + 1) as usize) && s.after_stop(reason).0.highest_pid
            == s.highest_pid + 1,
        !(reason matches StopReason::Syscall { syscall: Syscall::Fork(_), .. }) ==> s.after_stop(
            reason,
        ).0.highest_pid == s.highest_pid,
{
}

/// A sleep is as long as the shortest timer among the waiters, and the
/// decision after it, with no stop between, runs a process.
pub proof fn law_sleep_fast_forward(s: RoundRobinPrioritiesView)
    requires
        s.wf(),
        s.after_next().1 is Sleep,
    ensures
        ({
            let n = s.after_next().1->Sleep_0;
            let t = s.after_next().0;
            &&& holds_sleep(t.waiting, n)
            &&& forall|k: usize| holds_sleep(t.waiting, k) ==> n <= k
            &&& t.after_next().1 is Run
        }),
{
    lemma_next(s);
    let t = s.after_next().0;
    let n = s.after_next().1->Sleep_0;
    lemma_sleep_positive(t.waiting);
    let i = choose|i: int| 0 <= i < t.waiting.len() && (#[trigger] t.waiting[i]).wakeup
        == WakeupCondition::Sleep(n);
    let w = all_idle_for(t.waiting, n);
    let up = |q: PcbView| q.state == ProcessState::Ready;
    assert(up(w[i]));
    w.lemma_filter_contains(up, i);
    let wk = woken(w);
    let j = choose|j: int| 0 <= j < wk.len() && wk[j] == w[i];
    let k = w[i].priority as int;
    assert(prio_ok(t.waiting[i]));
    let at_k = |q: PcbView| q.priority == k;
    wk.lemma_filter_contains(at_k, j);
    let v = t.slept();
    assert(v.ready[k].len() > 0);
    lemma_top_from(v.ready, LEVELS - 1);
    lemma_pid_1_bag(t);
    lemma_slept_pids(t);
    lemma_pid_1_bag(v);
}

/// A process that forks or signals with enough of its timeslice left runs
/// again next, for what is left of its timeslice.
pub proof fn law_retained_runs_next(s: RoundRobinPrioritiesView, reason: StopReason)
    requires
        s.wf(),
        s.accepts(reason),
        s.pid_1_exists(),
        s.running is Some,
        reason matches StopReason::Syscall { syscall, remaining } && (syscall is Fork || syscall is Signal)
            && remaining >= s.minimum_remaining_timeslice && remaining > 0,
    ensures
        s.after_stop(reason).0.after_next().1 == (SchedulingDecision::Run {
            pid: s.running->0.pid,
            timeslice: reason.remaining_after(),
        }),
{
    let f = |p: PcbView| pid_of(p);
    let a = s.after_stop(reason).0;
    lemma_stop(s, reason);
    lemma_projections_ignore_status();
    lemma_pid_1_bag(s);
    lemma_charged_pids(s, reason);
    lemma_stop_bag(s, reason, f);
    lemma_pid_1_bag(a);
    lemma_slept_pids(a);
    lemma_pid_1_bag(a.slept());
}

/// The head of the highest non-empty queue runs next, and leaves the front
/// of its queue: queues are first in, first out.
pub proof fn law_highest_priority_first(s: RoundRobinPrioritiesView)
    requires
        s.wf(),
        s.slept().running is None,
        s.slept().pid_1_exists(),
        exists|k: int| 0 <= k < LEVELS && (#[trigger] s.slept().ready[k]).len() > 0,
    ensures
        ({
            let u = s.slept();
            let k = top(u.ready);
            &&& 0 <= k < LEVELS
            &&& u.ready[k].len() > 0
            &&& forall|j: int| k < j < LEVELS ==> (#[trigger] u.ready[j]).len() == 0
            &&& s.after_next().1 == (SchedulingDecision::Run {
                pid: u.ready[k][0].pid,
                timeslice: u.timeslice,
            })
            &&& s.after_next().0.ready == u.ready.update(k, u.ready[k].drop_first())
        }),
{
    lemma_next(s);
    let u = s.slept();
    lemma_top_from(u.ready, LEVELS - 1);
    let k0 = choose|k: int| 0 <= k < LEVELS && (#[trigger] u.ready[k]).len() > 0;
    assert(!u.is_done());
}

/// A process whose timeslice runs out loses one priority level, but not
/// under 0, and joins the back of that level's queue.
pub proof fn law_expired_lowers_priority(s: RoundRobinPrioritiesView)
    requires
        s.wf(),
        s.running is Some,
    ensures
        ({
            let p = s.running->0;
            let a = s.after_stop(StopReason::Expired).0;
            let k = if p.priority > 0 { p.priority - 1 } else { 0 };
            &&& a.ready[k].len() > 0
            &&& a.ready[k].last().pid == p.pid
            &&& a.ready[k].last().priority == k
        }),
{
}

/// A process that sleeps or waits gains one priority level, but not above
/// its fork priority.
pub proof fn law_blocking_raises_priority(s: RoundRobinPrioritiesView, reason: StopReason)
    requires
        s.wf(),
        s.running is Some,
        reason matches StopReason::Syscall { syscall, .. } && (syscall is Sleep || syscall is Wait),
    ensures
        ({
            let p = s.running->0;
            let a = s.after_stop(reason).0;
            &&& a.waiting.len() > 0
            &&& a.waiting.last().pid == p.pid
            &&& a.waiting.last().priority == if p.priority < p.fork_priority {
                p.priority + 1
            } else {
                p.priority as int
            }
        }),
{
}

/// Progress toward completion: an exit by the process on the processor
/// removes exactly that process, `next` neither adds nor removes any, and
/// `next` decides `Done` exactly when, once the pending sleep has passed, no
/// process is left.
pub proof fn law_exit_removes_process(s: RoundRobinPrioritiesView, reason: StopReason)
    requires
        s.wf(),
        s.accepts(reason),
        s.running is Some,
        reason matches StopReason::Syscall { syscall: Syscall::Exit, .. },
    ensures
        pid_bag(s.after_stop(reason).0.everyone()) == pid_bag(s.everyone()).remove(s.running->0.pid),
        pid_bag(s.after_next().0.everyone()) == pid_bag(s.everyone()),
        s.after_next().1 is Done <==> s.slept().is_done(),
{
    let f = |p: PcbView| pid_of(p);
    lemma_projections_ignore_status();
    lemma_stop_bag(s, reason, f);
    lemma_charged_pids(s, reason);
    lemma_next_bag(s, f);
    lemma_slept_pids(s);
}

} // verus!
