//! Operations on lists of process control blocks that every scheduler shares:
//! letting time pass, moving woken processes out, and lookups.
use vstd::prelude::*;
use vstd::multiset::Multiset;
use crate::pcb::{Pcb, PcbView, WakeupCondition};
use crate::types::{Pid, ProcessState};

verus! {

/// A process after `time` ticks passed while it was off the processor: its
/// total time grows, and a sleep counter runs down, waking it at zero.
pub open spec fn idle_for(p: PcbView, time: usize) -> PcbView {
    let q = p.charged(time, 0, 0);
    match p.wakeup {
        WakeupCondition::Sleep(k) => if k > time {
            q.with_wakeup(WakeupCondition::Sleep((k - time) as usize))
        } else {
            q.with_wakeup(WakeupCondition::Awake).with_state(ProcessState::Ready)
        },
        _ => q,
    }
}

/// The view of an optional process control block.
pub open spec fn opt_view(o: Option<Pcb>) -> Option<PcbView> {
    match o {
        Some(p) => Some(p@),
        None => None,
    }
}

/// A process as a signal for `event` leaves it: woken if it waited for it.
pub open spec fn signalled(p: PcbView, event: usize) -> PcbView {
    if p.wakeup == WakeupCondition::Signal(event) {
        p.with_state(ProcessState::Ready).with_wakeup(WakeupCondition::Awake)
    } else {
        p
    }
}

/// Every process of `s` after a signal for `event`.
pub open spec fn all_signalled(s: Seq<PcbView>, event: usize) -> Seq<PcbView> {
    s.map_values(|p: PcbView| signalled(p, event))
}

/// The process that held the processor for `elapsed` ticks: all of them
/// count as execution, but for one tick of system call when it stopped on one.
pub open spec fn ran_for(p: PcbView, elapsed: usize, syscall: bool) -> PcbView {
    if syscall {
        p.charged(elapsed, 1, crate::types::sat_sub(elapsed, 1))
    } else {
        p.charged(elapsed, 0, elapsed)
    }
}

/// A process in a consistent waiting state: a positive sleep counter with no
/// event, or a signal with its event.
pub open spec fn waits_well(p: PcbView) -> bool {
    match p.wakeup {
        WakeupCondition::Sleep(k) => k > 0 && p.state == (ProcessState::Waiting { event: None }),
        WakeupCondition::Signal(e) => p.state == (ProcessState::Waiting { event: Some(e) }),
        WakeupCondition::Awake => false,
    }
}

/// A process in a consistent ready state.
pub open spec fn ready_well(p: PcbView) -> bool {
    p.state == ProcessState::Ready && p.wakeup == WakeupCondition::Awake
}

/// An optional process as a sequence of zero or one.
pub open spec fn opt_seq(o: Option<PcbView>) -> Seq<PcbView> {
    match o {
        Some(p) => seq![p],
        None => Seq::empty(),
    }
}

/// The views of a list of borrowed process control blocks.
pub open spec fn ref_views(s: Seq<&Pcb>) -> Seq<PcbView> {
    s.map_values(|p: &Pcb| p@)
}

/// Are the processes of `s` in ascending pid order?
pub open spec fn pid_sorted(s: Seq<PcbView>) -> bool {
    forall|i: int, j: int| 0 <= i < j < s.len() ==> (#[trigger] s[i]).pid <= (#[trigger] s[j]).pid
}

/// The views of a list of process control blocks.
pub open spec fn views(s: Seq<Pcb>) -> Seq<PcbView> {
    s.map_values(|p: Pcb| p@)
}

/// Every process of `s` after `time` ticks off the processor.
pub open spec fn all_idle_for(s: Seq<PcbView>, time: usize) -> Seq<PcbView> {
    s.map_values(|p: PcbView| idle_for(p, time))
}

/// The processes of `s` marked ready, in order.
pub open spec fn woken(s: Seq<PcbView>) -> Seq<PcbView> {
    s.filter(|p: PcbView| p.state == ProcessState::Ready)
}

/// The processes of `s` not marked ready, in order.
pub open spec fn still_blocked(s: Seq<PcbView>) -> Seq<PcbView> {
    s.filter(|p: PcbView| p.state != ProcessState::Ready)
}

/// Does some process in `s` have this pid?
pub open spec fn has_pid(s: Seq<PcbView>, pid: Pid) -> bool {
    exists|i: int| 0 <= i < s.len() && (#[trigger] s[i]).pid == pid
}

/// Is `k` a sleep counter held by some process in `s`?
pub open spec fn holds_sleep(s: Seq<PcbView>, k: usize) -> bool {
    exists|i: int| 0 <= i < s.len() && (#[trigger] s[i]).wakeup == WakeupCondition::Sleep(k)
}

/// The shortest sleep in `s`, if any process sleeps on a timer.
pub open spec fn shortest_sleep(s: Seq<PcbView>) -> Option<usize> {
    if exists|k: usize| holds_sleep(s, k) {
        Some(choose|k: usize| holds_sleep(s, k) && forall|j: usize| holds_sleep(s, j) ==> k <= j)
    } else {
        None
    }
}

/// A process that is either settled in the waiting list or ready to leave it.
pub open spec fn waits_or_woke(p: PcbView) -> bool {
    waits_well(p) || ready_well(p)
}

/// Time passing keeps ready processes ready, and leaves each waiter either
/// waiting consistently or woken.
pub proof fn lemma_idle_keeps(s: Seq<PcbView>, time: usize)
    ensures
        (forall|i: int| 0 <= i < s.len() ==> ready_well(#[trigger] s[i])) ==> forall|i: int|
            0 <= i < s.len() ==> ready_well(#[trigger] all_idle_for(s, time)[i]),
        (forall|i: int| 0 <= i < s.len() ==> waits_or_woke(#[trigger] s[i])) ==> forall|i: int|
            0 <= i < s.len() ==> waits_or_woke(#[trigger] all_idle_for(s, time)[i]),
{
}

/// A signal leaves each waiter either waiting consistently or woken.
pub proof fn lemma_signal_keeps(s: Seq<PcbView>, event: usize)
    requires
        forall|i: int| 0 <= i < s.len() ==> waits_or_woke(#[trigger] s[i]),
    ensures
        forall|i: int| 0 <= i < s.len() ==> waits_or_woke(#[trigger] all_signalled(s, event)[i]),
{
}

/// Splitting waiters into woken and still blocked ones gives consistent parts.
pub proof fn lemma_split_keeps(s: Seq<PcbView>)
    requires
        forall|i: int| 0 <= i < s.len() ==> waits_or_woke(#[trigger] s[i]),
    ensures
        forall|i: int| 0 <= i < woken(s).len() ==> ready_well(#[trigger] woken(s)[i]),
        forall|i: int| 0 <= i < still_blocked(s).len() ==> waits_well(#[trigger] still_blocked(s)[i]),
{
    let up = |q: PcbView| q.state == ProcessState::Ready;
    let down = |q: PcbView| q.state != ProcessState::Ready;
    assert forall|i: int| 0 <= i < woken(s).len() implies ready_well(#[trigger] woken(s)[i]) by {
        s.lemma_filter_pred(up, i);
        assert(woken(s).contains(woken(s)[i]));
        s.lemma_filter_contains_rev(up, woken(s)[i]);
    }
    assert forall|i: int| 0 <= i < still_blocked(s).len() implies waits_well(
        #[trigger] still_blocked(s)[i],
    ) by {
        s.lemma_filter_pred(down, i);
        assert(still_blocked(s).contains(still_blocked(s)[i]));
        s.lemma_filter_contains_rev(down, still_blocked(s)[i]);
    }
}

/// What holds of every element of `s` holds of every element of a filter of
/// it, which also meets the filter's predicate.
pub proof fn lemma_filter_all(
    s: Seq<PcbView>,
    pred: spec_fn(PcbView) -> bool,
    prop: spec_fn(PcbView) -> bool,
)
    requires
        forall|i: int| 0 <= i < s.len() ==> prop(#[trigger] s[i]),
    ensures
        forall|i: int| 0 <= i < s.filter(pred).len() ==> prop(#[trigger] s.filter(pred)[i]) && pred(
            s.filter(pred)[i],
        ),
{
    assert forall|i: int| 0 <= i < s.filter(pred).len() implies prop(#[trigger] s.filter(pred)[i])
        && pred(s.filter(pred)[i]) by {
        s.lemma_filter_pred(pred, i);
        assert(s.filter(pred).contains(s.filter(pred)[i]));
        s.lemma_filter_contains_rev(pred, s.filter(pred)[i]);
    }
}

/// A counter that sleeps in `s` is positive when every waiter is consistent.
pub proof fn lemma_sleep_positive(s: Seq<PcbView>)
    requires
        forall|i: int| 0 <= i < s.len() ==> waits_well(#[trigger] s[i]),
    ensures
        shortest_sleep(s) matches Some(n) ==> n > 0 && holds_sleep(s, n)
            && forall|k: usize| holds_sleep(s, k) ==> n <= k,
{
    if exists|k: usize| holds_sleep(s, k) {
        let k0 = choose|k: usize| holds_sleep(s, k);
        lemma_least_sleep(s, k0);
        let n = shortest_sleep(s)->0;
        let i = choose|i: int| 0 <= i < s.len() && (#[trigger] s[i]).wakeup == WakeupCondition::Sleep(n);
        assert(waits_well(s[i]));
    }
}

/// Some counter in `s` is no larger than any other.
proof fn lemma_least_sleep(s: Seq<PcbView>, k0: usize)
    requires
        holds_sleep(s, k0),
    ensures
        exists|k: usize| holds_sleep(s, k) && forall|j: usize| holds_sleep(s, j) ==> k <= j,
    decreases k0,
{
    if exists|j: usize| holds_sleep(s, j) && j < k0 {
        let j = choose|j: usize| holds_sleep(s, j) && j < k0;
        lemma_least_sleep(s, j);
    } else {
        assert(forall|j: usize| holds_sleep(s, j) ==> k0 <= j);
    }
}

/// Lets `time` ticks pass for every process of `v`.
pub fn pass_time(v: &mut Vec<Pcb>, time: usize)
    ensures
        views(final(v)@) == all_idle_for(views(old(v)@), time),
{
    let n = v.len();
    let mut i: usize = 0;
    while i < n
        invariant
            n == old(v)@.len(),
            v@.len() == n,
            i <= n,
            forall|j: int| 0 <= j < i ==> (#[trigger] v@[j])@ == idle_for(old(v)@[j]@, time),
            forall|j: int| i <= j < n ==> #[trigger] v@[j] == old(v)@[j],
        decreases n - i,
    {
        v[i].increment_timings(time, 0, 0);
        match v[i].wakeup() {
            WakeupCondition::Sleep(k) => {
                if k > time {
                    v[i].set_wakeup(WakeupCondition::Sleep(k - time));
                } else {
                    v[i].set_wakeup(WakeupCondition::Awake);
                    v[i].set_state(ProcessState::Ready);
                }
            },
            _ => {},
        }
        i = i + 1;
    }
    assert(views(v@) =~= all_idle_for(views(old(v)@), time));
}

/// Takes the processes marked ready out of `v`, keeping the order of both parts.
pub fn take_ready(v: &mut Vec<Pcb>) -> (ready: Vec<Pcb>)
    ensures
        views(ready@) == woken(views(old(v)@)),
        views(final(v)@) == still_blocked(views(old(v)@)),
{
    let ghost orig = v@;
    let ghost mut k: int = 0;
    let mut ready: Vec<Pcb> = Vec::new();
    let mut blocked: Vec<Pcb> = Vec::new();
    while v.len() > 0
        invariant
            0 <= k <= orig.len(),
            v@ == orig.skip(k),
            views(ready@) == woken(views(orig.take(k))),
            views(blocked@) == still_blocked(views(orig.take(k))),
        decreases v@.len(),
    {
        let p = v.remove(0);
        proof {
            let pre = views(orig.take(k));
            assert(views(orig.take(k + 1)) =~= pre.push(p@));
            pre.lemma_filter_push(p@, |q: PcbView| q.state == ProcessState::Ready);
            pre.lemma_filter_push(p@, |q: PcbView| q.state != ProcessState::Ready);
            assert(orig.skip(k + 1) =~= orig.skip(k).remove(0));
            k = k + 1;
        }
        let ghost before_w = ready@;
        let ghost before_b = blocked@;
        if matches!(p.state(), ProcessState::Ready) {
            ready.push(p);
            assert(views(ready@) =~= views(before_w).push(p@));
        } else {
            blocked.push(p);
            assert(views(blocked@) =~= views(before_b).push(p@));
        }
    }
    proof {
        assert(orig.take(k) =~= orig);
    }
    *v = blocked;
    ready
}

/// Wakes every process of `v` that waits for `event`.
pub fn signal_waiters(v: &mut Vec<Pcb>, event: usize)
    ensures
        views(final(v)@) == all_signalled(views(old(v)@), event),
{
    let n = v.len();
    let mut i: usize = 0;
    while i < n
        invariant
            n == old(v)@.len(),
            v@.len() == n,
            i <= n,
            forall|j: int| 0 <= j < i ==> (#[trigger] v@[j])@ == signalled(old(v)@[j]@, event),
            forall|j: int| i <= j < n ==> #[trigger] v@[j] == old(v)@[j],
        decreases n - i,
    {
        match v[i].wakeup() {
            WakeupCondition::Signal(e) => {
                if e == event {
                    v[i].set_state(ProcessState::Ready);
                    v[i].set_wakeup(WakeupCondition::Awake);
                }
            },
            _ => {},
        }
        i = i + 1;
    }
    assert(views(v@) =~= all_signalled(views(old(v)@), event));
}

/// Whether some process of `v` has this pid.
pub fn find_pid(v: &Vec<Pcb>, pid: Pid) -> (r: bool)
    ensures
        r == has_pid(views(v@), pid),
{
    let mut i: usize = 0;
    while i < v.len()
        invariant
            i <= v@.len(),
            forall|j: int| 0 <= j < i ==> (#[trigger] v@[j])@.pid != pid,
        decreases v@.len() - i,
    {
        if v[i].pid() == pid {
            assert(views(v@)[i as int].pid == pid);
            return true;
        }
        i = i + 1;
    }
    assert forall|j: int| 0 <= j < v@.len() implies (#[trigger] views(v@)[j]).pid != pid by {
        assert(views(v@)[j] == v@[j]@);
    }
    false
}

/// The shortest sleep among the processes of `v`.
pub fn find_sleep_time(v: &Vec<Pcb>) -> (r: Option<usize>)
    ensures
        r == shortest_sleep(views(v@)),
        r is None <==> forall|k: usize| !holds_sleep(views(v@), k),
        r matches Some(m) ==> holds_sleep(views(v@), m) && forall|k: usize|
            holds_sleep(views(v@), k) ==> m <= k,
{
    let mut best: Option<usize> = None;
    let mut i: usize = 0;
    while i < v.len()
        invariant
            i <= v@.len(),
            best is None ==> forall|j: int| 0 <= j < i ==> !((#[trigger] v@[j])@.wakeup is Sleep),
            best matches Some(m) ==> holds_sleep(views(v@), m) && forall|j: int|
                0 <= j < i && (#[trigger] v@[j])@.wakeup is Sleep ==> m <= v@[j]@.wakeup->Sleep_0,
        decreases v@.len() - i,
    {
        match v[i].wakeup() {
            WakeupCondition::Sleep(k) => {
                assert(views(v@)[i as int].wakeup == WakeupCondition::Sleep(k));
                match best {
                    Some(m) => {
                        if k < m {
                            best = Some(k);
                        }
                    },
                    None => {
                        best = Some(k);
                    },
                }
            },
            _ => {},
        }
        i = i + 1;
    }
    proof {
        match best {
            Some(m) => {
                assert forall|k: usize| holds_sleep(views(v@), k) implies m <= k by {
                    let j = choose|j: int| 0 <= j < v@.len() && (#[trigger] views(v@)[j]).wakeup == WakeupCondition::Sleep(k);
                    assert(v@[j]@ == views(v@)[j]);
                }
                assert(holds_sleep(views(v@), m) && forall|j: usize| holds_sleep(views(v@), j) ==> m <= j);
                let c = choose|c: usize| holds_sleep(views(v@), c) && forall|j: usize| holds_sleep(views(v@), j) ==> c <= j;
                assert(c == m);
            },
            None => {
                assert forall|k: usize| !holds_sleep(views(v@), k) by {
                    if holds_sleep(views(v@), k) {
                        let j = choose|j: int| 0 <= j < v@.len() && (#[trigger] views(v@)[j]).wakeup == WakeupCondition::Sleep(k);
                    assert(v@[j]@ == views(v@)[j]);
                    }
                }
            },
        }
    }
    best
}

/// Appends a borrow of each process of `v` to `out`.
pub fn push_refs<'a>(out: &mut Vec<&'a Pcb>, v: &'a Vec<Pcb>)
    ensures
        ref_views(final(out)@) == ref_views(old(out)@) + views(v@),
{
    let mut i: usize = 0;
    while i < v.len()
        invariant
            i <= v@.len(),
            ref_views(out@) == ref_views(old(out)@) + views(v@).take(i as int),
        decreases v@.len() - i,
    {
        let ghost before = out@;
        out.push(&v[i]);
        assert(ref_views(out@) =~= ref_views(before).push(v@[i as int]@));
        assert(views(v@).take(i + 1) =~= views(v@).take(i as int).push(v@[i as int]@));
        i = i + 1;
    }
    assert(views(v@).take(i as int) =~= views(v@));
}

/// The same borrows, in ascending pid order.
pub fn sort_by_pid<'a>(v: Vec<&'a Pcb>) -> (r: Vec<&'a Pcb>)
    ensures
        ref_views(r@).to_multiset() == ref_views(v@).to_multiset(),
        pid_sorted(ref_views(r@)),
{
    broadcast use vstd::seq_lib::group_to_multiset_ensures;
    let mut out: Vec<&'a Pcb> = Vec::new();
    let mut i: usize = 0;
    while i < v.len()
        invariant
            i <= v@.len(),
            ref_views(out@).to_multiset() == ref_views(v@).take(i as int).to_multiset(),
            pid_sorted(ref_views(out@)),
        decreases v@.len() - i,
    {
        let p = v[i];
        let pid = p.pid();
        let mut j: usize = 0;
        while j < out.len() && out[j].pid() <= pid
            invariant
                j <= out@.len(),
                forall|k: int| 0 <= k < j ==> (#[trigger] ref_views(out@)[k]).pid <= pid,
            decreases out@.len() - j,
        {
            j = j + 1;
        }
        let ghost before = ref_views(out@);
        out.insert(j, p);
        proof {
            let after = ref_views(out@);
            assert(after =~= before.insert(j as int, p@));
            assert(ref_views(v@).take(i + 1) =~= ref_views(v@).take(i as int).push(p@));
            vstd::seq_lib::to_multiset_insert(before, j as int, p@);
            vstd::seq_lib::to_multiset_build(ref_views(v@).take(i as int), p@);
            assert forall|a: int, b: int| 0 <= a < b < after.len() implies (#[trigger] after[a]).pid
                <= (#[trigger] after[b]).pid by {
                if b < j {
                } else if b == j {
                } else if a < j {
                    assert(before[a].pid <= pid);
                    assert(before[j as int].pid > pid);
                    assert(before[j as int].pid <= before[b - 1].pid);
                } else if a == j {
                    assert(before[j as int].pid > pid);
                    if b - 1 > j {
                        assert(before[j as int].pid <= before[b - 1].pid);
                    }
                } else {
                    assert(before[a - 1].pid <= before[b - 1].pid);
                }
            }
        }
        i = i + 1;
    }
    assert(ref_views(v@).take(i as int) =~= ref_views(v@));
    out
}

/// What `f` sees of each process of `s`, counted with multiplicity.
pub open spec fn bag<A>(s: Seq<PcbView>, f: spec_fn(PcbView) -> A) -> Multiset<A> {
    s.map_values(f).to_multiset()
}

/// The pids of `s`, counted with multiplicity.
pub open spec fn pid_bag(s: Seq<PcbView>) -> Multiset<Pid> {
    bag(s, |p: PcbView| pid_of(p))
}

/// Does `f` see only what stays when a process changes state, wakeup
/// condition or priority?
pub open spec fn ignores_status<A>(f: spec_fn(PcbView) -> A) -> bool {
    forall|p: PcbView, st: ProcessState, w: WakeupCondition|
        #![trigger p.with_state(st).with_wakeup(w)]
        {
            &&& f(p.with_state(st)) == f(p)
            &&& f(p.with_wakeup(w)) == f(p)
            &&& f(p.with_state(st).with_wakeup(w)) == f(p)
            &&& f(p.raised()) == f(p)
            &&& f(p.lowered()) == f(p)
        }
}

/// The pid of a process.
pub open spec fn pid_of(p: PcbView) -> Pid {
    p.pid
}

/// The pid and timings of a process.
pub open spec fn stamp(p: PcbView) -> (Pid, (usize, usize, usize)) {
    (p.pid, p.timings)
}

/// The bag of a concatenation is the sum of the bags.
pub proof fn lemma_bag_concat<A>(a: Seq<PcbView>, b: Seq<PcbView>, f: spec_fn(PcbView) -> A)
    ensures
        bag(a + b, f) == bag(a, f).add(bag(b, f)),
{
    assert((a + b).map_values(f) =~= a.map_values(f) + b.map_values(f));
    vstd::seq_lib::lemma_multiset_commutative(a.map_values(f), b.map_values(f));
}

/// Appending a process adds what `f` sees of it.
pub proof fn lemma_bag_push<A>(s: Seq<PcbView>, p: PcbView, f: spec_fn(PcbView) -> A)
    ensures
        bag(s.push(p), f) == bag(s, f).insert(f(p)),
{
    assert(s.push(p).map_values(f) =~= s.map_values(f).push(f(p)));
    vstd::seq_lib::to_multiset_build(s.map_values(f), f(p));
}

/// Removing a process takes away what `f` sees of it.
pub proof fn lemma_bag_remove<A>(s: Seq<PcbView>, i: int, f: spec_fn(PcbView) -> A)
    requires
        0 <= i < s.len(),
    ensures
        bag(s.remove(i), f) == bag(s, f).remove(f(s[i])),
{
    assert(s.remove(i).map_values(f) =~= s.map_values(f).remove(i));
    vstd::seq_lib::to_multiset_remove(s.map_values(f), i);
}

/// No process, nothing seen.
pub proof fn lemma_bag_empty<A>(f: spec_fn(PcbView) -> A)
    ensures
        bag(Seq::<PcbView>::empty(), f) == Multiset::<A>::empty(),
{
    assert(Seq::<PcbView>::empty().map_values(f) =~= Seq::<A>::empty());
    broadcast use vstd::seq_lib::group_to_multiset_ensures;
    assert(bag(Seq::<PcbView>::empty(), f) =~= Multiset::<A>::empty());
}

/// One process, seen once.
pub proof fn lemma_bag_single<A>(p: PcbView, f: spec_fn(PcbView) -> A)
    ensures
        bag(seq![p], f) == Multiset::<A>::empty().insert(f(p)),
{
    lemma_bag_empty(f);
    assert(seq![p] =~= Seq::<PcbView>::empty().push(p));
    lemma_bag_push(Seq::<PcbView>::empty(), p, f);
}

/// Splitting a list into its woken and still blocked parts keeps every process.
pub proof fn lemma_bag_split<A>(s: Seq<PcbView>, f: spec_fn(PcbView) -> A)
    ensures
        bag(woken(s), f).add(bag(still_blocked(s), f)) == bag(s, f),
    decreases s.len(),
{
    if s.len() == 0 {
        reveal(Seq::filter);
        lemma_bag_empty(f);
        assert(woken(s) =~= Seq::<PcbView>::empty());
        assert(still_blocked(s) =~= Seq::<PcbView>::empty());
        assert(bag(woken(s), f).add(bag(still_blocked(s), f)) =~= bag(s, f));
    } else {
        let t = s.drop_last();
        let x = s.last();
        assert(s =~= t.push(x));
        lemma_bag_split(t, f);
        t.lemma_filter_push(x, |q: PcbView| q.state == ProcessState::Ready);
        t.lemma_filter_push(x, |q: PcbView| q.state != ProcessState::Ready);
        lemma_bag_push(t, x, f);
        if x.state == ProcessState::Ready {
            lemma_bag_push(woken(t), x, f);
        } else {
            lemma_bag_push(still_blocked(t), x, f);
        }
        assert(bag(woken(s), f).add(bag(still_blocked(s), f)) =~= bag(s, f));
    }
}

/// The bag of four concatenated lists is the sum of their bags.
pub proof fn lemma_bag4<A>(
    a: Seq<PcbView>,
    b: Seq<PcbView>,
    c: Seq<PcbView>,
    d: Seq<PcbView>,
    f: spec_fn(PcbView) -> A,
)
    ensures
        bag(a + b + c + d, f) == bag(a, f).add(bag(b, f)).add(bag(c, f)).add(bag(d, f)),
{
    lemma_bag_concat(a, b, f);
    lemma_bag_concat(a + b, c, f);
    lemma_bag_concat(a + b + c, d, f);
}

/// A pid occurs in `s` exactly when the pid bag of `s` counts it.
pub proof fn lemma_has_pid_bag(s: Seq<PcbView>, pid: Pid)
    ensures
        has_pid(s, pid) <==> bag(s, |p: PcbView| pid_of(p)).count(pid) > 0,
{
    let m = s.map_values(|p: PcbView| pid_of(p));
    vstd::seq_lib::to_multiset_contains(m, pid);
    if has_pid(s, pid) {
        let i = choose|i: int| 0 <= i < s.len() && (#[trigger] s[i]).pid == pid;
        assert(m[i] == pid);
    }
    if m.contains(pid) {
        let i = choose|i: int| 0 <= i < m.len() && m[i] == pid;
        assert(s[i].pid == pid);
    }
}

/// Time passing and signals leave every pid where it was.
pub proof fn lemma_pids_kept(s: Seq<PcbView>, time: usize, event: usize)
    ensures
        bag(all_idle_for(s, time), |p: PcbView| pid_of(p)) == bag(s, |p: PcbView| pid_of(p)),
        bag(all_signalled(s, event), |p: PcbView| pid_of(p)) == bag(s, |p: PcbView| pid_of(p)),
{
    assert(all_idle_for(s, time).map_values(|p: PcbView| pid_of(p)) =~= s.map_values(
        |p: PcbView| pid_of(p),
    ));
    assert(all_signalled(s, event).map_values(|p: PcbView| pid_of(p)) =~= s.map_values(
        |p: PcbView| pid_of(p),
    ));
}

/// The pid and virtual runtime of a process.
pub open spec fn vstamp(p: PcbView) -> (Pid, usize) {
    (p.pid, p.vruntime)
}

/// Pids, stamps and virtual runtimes see only what stays when a process
/// changes status.
pub proof fn lemma_projections_ignore_status()
    ensures
        ignores_status(|p: PcbView| pid_of(p)),
        ignores_status(|p: PcbView| stamp(p)),
        ignores_status(|p: PcbView| vstamp(p)),
{
}

/// A signal changes only the status of processes.
pub proof fn lemma_bag_signalled<A>(s: Seq<PcbView>, event: usize, f: spec_fn(PcbView) -> A)
    requires
        ignores_status(f),
    ensures
        bag(all_signalled(s, event), f) == bag(s, f),
{
    assert forall|i: int| 0 <= i < s.len() implies #[trigger] f(signalled(s[i], event)) == f(s[i]) by {
        let q = s[i];
        assert(f(q.with_state(ProcessState::Ready).with_wakeup(WakeupCondition::Awake)) == f(q));
    }
    assert(all_signalled(s, event).map_values(f) =~= s.map_values(f));
}

/// Taking the element at `i` out and putting its image `x` back, where `f`
/// sees no difference, leaves the bag as it was.
pub proof fn lemma_bag_take<A>(s: Seq<PcbView>, i: int, x: PcbView, f: spec_fn(PcbView) -> A)
    requires
        0 <= i < s.len(),
        f(x) == f(s[i]),
    ensures
        bag(s.remove(i), f).insert(f(x)) == bag(s, f),
{
    lemma_bag_remove(s, i, f);
    assert(s.map_values(f)[i] == f(s[i]));
    vstd::seq_lib::to_multiset_contains(s.map_values(f), f(s[i]));
    assert(bag(s.remove(i), f).insert(f(x)) =~= bag(s, f));
}

/// The pid and timings of a process off the processor after `time` ticks.
pub open spec fn idle_stamp(p: PcbView, time: usize) -> (Pid, (usize, usize, usize)) {
    (p.pid, (crate::types::sat_add(p.timings.0, time), p.timings.1, p.timings.2))
}

/// Time passing adds to the total time of each process and to nothing else.
pub proof fn lemma_stamps_idle(s: Seq<PcbView>, time: usize)
    ensures
        bag(all_idle_for(s, time), |p: PcbView| stamp(p)) == bag(s, |p: PcbView| idle_stamp(p, time)),
{
    assert(all_idle_for(s, time).map_values(|p: PcbView| stamp(p)) =~= s.map_values(
        |p: PcbView| idle_stamp(p, time),
    ));
}

/// The share of a step that the process on the processor receives: all of
/// the `elapsed` ticks in total time, split between execution and, when it
/// stopped on a system call, one tick of system call.
pub proof fn law_running_share(p: PcbView, elapsed: usize, syscall: bool)
    requires
        p.timings.0 + elapsed <= usize::MAX,
        p.timings.1 + 1 <= usize::MAX,
        p.timings.2 + elapsed <= usize::MAX,
        syscall ==> elapsed >= 1,
    ensures
        ({
            let q = ran_for(p, elapsed, syscall);
            &&& q.pid == p.pid
            &&& q.timings.0 == p.timings.0 + elapsed
            &&& (q.timings.1 - p.timings.1) + (q.timings.2 - p.timings.2) == elapsed
            &&& syscall ==> q.timings.1 == p.timings.1 + 1 && q.timings.2 == p.timings.2 + elapsed - 1
            &&& !syscall ==> q.timings.1 == p.timings.1 && q.timings.2 == p.timings.2 + elapsed
        }),
{
}

/// Two processes of `s` with one pid make that pid count twice.
pub proof fn lemma_pid_twice(s: Seq<PcbView>, i: int, j: int)
    requires
        0 <= i < s.len(),
        0 <= j < s.len(),
        i != j,
        s[i].pid == s[j].pid,
    ensures
        pid_bag(s).count(s[i].pid) >= 2,
{
    let f = |p: PcbView| pid_of(p);
    lemma_bag_remove(s, i, f);
    let r = s.remove(i);
    let j2 = if j < i { j } else { j - 1 };
    assert(r[j2] == s[j]);
    let m = r.map_values(f);
    assert(m[j2] == s[i].pid);
    vstd::seq_lib::to_multiset_contains(m, s[i].pid);
}

/// Are the processes of `s` in strictly ascending pid order?
pub open spec fn pid_strict(s: Seq<PcbView>) -> bool {
    forall|i: int, j: int| 0 <= i < j < s.len() ==> (#[trigger] s[i]).pid < (#[trigger] s[j]).pid
}

/// Lists holding the same processes show `f` the same things.
pub proof fn lemma_bag_of_multiset<A>(s: Seq<PcbView>, t: Seq<PcbView>, f: spec_fn(PcbView) -> A)
    requires
        s.to_multiset() == t.to_multiset(),
    ensures
        bag(s, f) == bag(t, f),
    decreases s.len(),
{
    broadcast use vstd::seq_lib::group_to_multiset_ensures;
    vstd::seq_lib::to_multiset_len(s);
    vstd::seq_lib::to_multiset_len(t);
    if s.len() == 0 {
        assert(t.len() == 0);
        assert(s =~= t);
    } else {
        let x = s.last();
        let u = s.drop_last();
        assert(s =~= u.push(x));
        assert(s.contains(x));
        assert(t.to_multiset().count(x) > 0);
        assert(t.contains(x));
        let j = choose|j: int| 0 <= j < t.len() && t[j] == x;
        assert(t.remove(j).to_multiset() =~= t.to_multiset().remove(x));
        assert(u.to_multiset() =~= s.to_multiset().remove(x));
        lemma_bag_of_multiset(u, t.remove(j), f);
        lemma_bag_push(u, x, f);
        lemma_bag_take(t, j, x, f);
    }
}

/// In pid order with no pid twice, the order is strict.
pub proof fn lemma_sorted_unique(s: Seq<PcbView>)
    requires
        pid_sorted(s),
        forall|pid: Pid| #[trigger] pid_bag(s).count(pid) <= 1,
    ensures
        pid_strict(s),
{
    assert forall|i: int, j: int| 0 <= i < j < s.len() implies (#[trigger] s[i]).pid < (#[trigger] s[j]).pid by {
        if s[i].pid == s[j].pid {
            lemma_pid_twice(s, i, j);
            assert(pid_bag(s).count(s[i].pid) <= 1);
        }
    }
}

} // verus!
