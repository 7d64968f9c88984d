use scheduler::cfs::Cfs;
use scheduler::round_robin::RoundRobinScheduler;
use scheduler::round_robin_priorities::RoundRobinPrioritiesScheduler;
use scheduler::types::{SchedulingDecision, StopReason, Syscall, SyscallResult};

fn syscall(call: Syscall, remaining: usize) -> StopReason {
    StopReason::Syscall { syscall: call, remaining }
}

/// Pid 1 running with pids 2 and 3 ready behind it (timeslice 4, threshold 1).
fn three_processes() -> RoundRobinScheduler {
    let mut s = RoundRobinScheduler::new(4, 1);
    assert_eq!(s.stop(syscall(Syscall::Fork(0), 1)), SyscallResult::Pid(1));
    assert_eq!(s.next(), SchedulingDecision::Run { pid: 1, timeslice: 4 });
    assert_eq!(s.stop(syscall(Syscall::Fork(0), 3)), SyscallResult::Pid(2));
    assert_eq!(s.next(), SchedulingDecision::Run { pid: 1, timeslice: 3 });
    assert_eq!(s.stop(syscall(Syscall::Fork(0), 2)), SyscallResult::Pid(3));
    assert_eq!(s.next(), SchedulingDecision::Run { pid: 1, timeslice: 2 });
    s
}

#[test]
fn every_total_advances_by_elapsed() {
    let mut s = three_processes();
    let before: Vec<usize> = s.list().iter().map(|p| p.timings().0).collect();
    assert_eq!(before, vec![2, 1, 0]);
    assert_eq!(s.stop(StopReason::Expired), SyscallResult::Success);
    let after: Vec<usize> = s.list().iter().map(|p| p.timings().0).collect();
    assert_eq!(after, vec![4, 3, 2]);
}

#[test]
fn running_share_on_syscall_and_expiry() {
    let mut s = three_processes();
    assert_eq!(s.list()[0].timings(), (2, 2, 0));
    assert_eq!(s.stop(syscall(Syscall::Signal(9), 0)), SyscallResult::Success);
    assert_eq!(s.list()[0].timings(), (4, 3, 1));
    assert_eq!(s.next(), SchedulingDecision::Run { pid: 2, timeslice: 4 });
    assert_eq!(s.stop(StopReason::Expired), SyscallResult::Success);
    assert_eq!(s.list()[1].timings(), (7, 0, 4));
}

#[test]
fn pids_stay_unique_and_sorted() {
    let mut s = three_processes();
    assert_eq!(s.stop(StopReason::Expired), SyscallResult::Success);
    assert_eq!(s.next(), SchedulingDecision::Run { pid: 2, timeslice: 4 });
    assert_eq!(s.stop(syscall(Syscall::Exit, 3)), SyscallResult::Success);
    assert_eq!(s.next(), SchedulingDecision::Run { pid: 3, timeslice: 4 });
    assert_eq!(s.stop(syscall(Syscall::Fork(0), 3)), SyscallResult::Pid(4));
    let pids: Vec<usize> = s.list().iter().map(|p| p.pid()).collect();
    assert_eq!(pids, vec![1, 3, 4]);
}

#[test]
fn fork_pids_increase() {
    let mut s = RoundRobinScheduler::new(10, 1);
    assert_eq!(s.stop(syscall(Syscall::Fork(0), 1)), SyscallResult::Pid(1));
    assert_eq!(s.next(), SchedulingDecision::Run { pid: 1, timeslice: 10 });
    assert_eq!(s.stop(syscall(Syscall::Fork(0), 9)), SyscallResult::Pid(2));
    assert_eq!(s.next(), SchedulingDecision::Run { pid: 1, timeslice: 9 });
    assert_eq!(s.stop(syscall(Syscall::Fork(0), 8)), SyscallResult::Pid(3));
}

#[test]
fn list_orders_by_pid() {
    let mut s = three_processes();
    assert_eq!(s.stop(syscall(Syscall::Wait(1), 1)), SyscallResult::Success);
    assert_eq!(s.next(), SchedulingDecision::Run { pid: 2, timeslice: 4 });
    let pids: Vec<usize> = s.list().iter().map(|p| p.pid()).collect();
    assert_eq!(pids, vec![1, 2, 3]);
}

#[test]
fn sleep_is_shortest_timer_then_run() {
    let mut s = RoundRobinScheduler::new(4, 1);
    assert_eq!(s.stop(syscall(Syscall::Fork(0), 1)), SyscallResult::Pid(1));
    assert_eq!(s.next(), SchedulingDecision::Run { pid: 1, timeslice: 4 });
    assert_eq!(s.stop(syscall(Syscall::Fork(0), 3)), SyscallResult::Pid(2));
    assert_eq!(s.next(), SchedulingDecision::Run { pid: 1, timeslice: 3 });
    assert_eq!(s.stop(syscall(Syscall::Sleep(9), 2)), SyscallResult::Success);
    assert_eq!(s.next(), SchedulingDecision::Run { pid: 2, timeslice: 4 });
    assert_eq!(s.stop(syscall(Syscall::Sleep(3), 3)), SyscallResult::Success);
    assert_eq!(s.next(), SchedulingDecision::Sleep(3));
    assert_eq!(s.next(), SchedulingDecision::Run { pid: 2, timeslice: 4 });
}

#[test]
fn retained_process_runs_next() {
    let mut s = three_processes();
    assert_eq!(s.stop(syscall(Syscall::Signal(3), 1)), SyscallResult::Success);
    assert_eq!(s.next(), SchedulingDecision::Run { pid: 1, timeslice: 1 });
}

#[test]
fn short_remainder_requeues() {
    let mut s = RoundRobinScheduler::new(4, 3);
    assert_eq!(s.stop(syscall(Syscall::Fork(0), 1)), SyscallResult::Pid(1));
    assert_eq!(s.next(), SchedulingDecision::Run { pid: 1, timeslice: 4 });
    assert_eq!(s.stop(syscall(Syscall::Fork(0), 2)), SyscallResult::Pid(2));
    assert_eq!(s.next(), SchedulingDecision::Run { pid: 2, timeslice: 4 });
}

#[test]
fn signal_wakes_waiter() {
    let mut s = RoundRobinScheduler::new(4, 1);
    assert_eq!(s.stop(syscall(Syscall::Fork(0), 1)), SyscallResult::Pid(1));
    assert_eq!(s.next(), SchedulingDecision::Run { pid: 1, timeslice: 4 });
    assert_eq!(s.stop(syscall(Syscall::Fork(0), 3)), SyscallResult::Pid(2));
    assert_eq!(s.next(), SchedulingDecision::Run { pid: 1, timeslice: 3 });
    assert_eq!(s.stop(syscall(Syscall::Wait(5), 2)), SyscallResult::Success);
    assert_eq!(s.next(), SchedulingDecision::Run { pid: 2, timeslice: 4 });
    assert_eq!(s.stop(syscall(Syscall::Signal(5), 0)), SyscallResult::Success);
    assert_eq!(s.next(), SchedulingDecision::Run { pid: 1, timeslice: 4 });
}

#[test]
fn no_running_process_errors() {
    let mut s = RoundRobinScheduler::new(2, 1);
    assert_eq!(s.stop(syscall(Syscall::Sleep(3), 0)), SyscallResult::NoRunningProcess);
    assert_eq!(s.stop(syscall(Syscall::Wait(3), 0)), SyscallResult::NoRunningProcess);
    assert_eq!(s.stop(StopReason::Expired), SyscallResult::NoRunningProcess);
    assert_eq!(s.stop(syscall(Syscall::Exit, 0)), SyscallResult::Success);
    assert_eq!(s.next(), SchedulingDecision::Done);
}

#[test]
fn stop_preconditions_are_checked() {
    let mut s = RoundRobinScheduler::new(2, 1);
    assert!(s.accepts(&syscall(Syscall::Fork(0), 1)));
    assert_eq!(s.stop(syscall(Syscall::Fork(0), 1)), SyscallResult::Pid(1));
    assert_eq!(s.next(), SchedulingDecision::Run { pid: 1, timeslice: 2 });
    assert!(!s.accepts(&syscall(Syscall::Exit, 2)));
    assert!(!s.accepts(&syscall(Syscall::Sleep(0), 1)));
    assert!(s.accepts(&syscall(Syscall::Sleep(1), 1)));
    assert!(s.accepts(&StopReason::Expired));
    let p = RoundRobinPrioritiesScheduler::new(2, 1);
    assert!(!p.accepts(&syscall(Syscall::Fork(6), 0)));
    assert!(!p.accepts(&syscall(Syscall::Fork(-1), 0)));
    assert!(p.accepts(&syscall(Syscall::Fork(5), 0)));
}

#[test]
fn highest_queue_first_fifo_within() {
    let mut s = RoundRobinPrioritiesScheduler::new(4, 1);
    assert_eq!(s.stop(syscall(Syscall::Fork(1), 1)), SyscallResult::Pid(1));
    assert_eq!(s.next(), SchedulingDecision::Run { pid: 1, timeslice: 4 });
    assert_eq!(s.stop(syscall(Syscall::Fork(4), 3)), SyscallResult::Pid(2));
    assert_eq!(s.next(), SchedulingDecision::Run { pid: 1, timeslice: 3 });
    assert_eq!(s.stop(syscall(Syscall::Fork(4), 2)), SyscallResult::Pid(3));
    assert_eq!(s.next(), SchedulingDecision::Run { pid: 1, timeslice: 2 });
    assert_eq!(s.stop(StopReason::Expired), SyscallResult::Success);
    assert_eq!(s.next(), SchedulingDecision::Run { pid: 2, timeslice: 4 });
    assert_eq!(s.stop(syscall(Syscall::Exit, 3)), SyscallResult::Success);
    assert_eq!(s.next(), SchedulingDecision::Run { pid: 3, timeslice: 4 });
    assert_eq!(s.stop(syscall(Syscall::Exit, 3)), SyscallResult::Success);
    assert_eq!(s.next(), SchedulingDecision::Run { pid: 1, timeslice: 4 });
    assert_eq!(s.list()[0].priority(), 0);
}

#[test]
fn requeue_after_signal_raises_priority() {
    let mut s = RoundRobinPrioritiesScheduler::new(2, 2);
    assert_eq!(s.stop(syscall(Syscall::Fork(3), 1)), SyscallResult::Pid(1));
    assert_eq!(s.next(), SchedulingDecision::Run { pid: 1, timeslice: 2 });
    assert_eq!(s.stop(StopReason::Expired), SyscallResult::Success);
    assert_eq!(s.list()[0].priority(), 2);
    assert_eq!(s.next(), SchedulingDecision::Run { pid: 1, timeslice: 2 });
    assert_eq!(s.stop(syscall(Syscall::Signal(1), 1)), SyscallResult::Success);
    assert_eq!(s.list()[0].priority(), 3);
    assert_eq!(s.stop(syscall(Syscall::Fork(2), 0)), SyscallResult::Pid(2));
    assert_eq!(s.list()[0].priority(), 3);
}

#[test]
fn cfs_timeslice_shares_cpu_time() {
    let mut s = Cfs::new(10, 2);
    assert_eq!(s.stop(syscall(Syscall::Fork(0), 1)), SyscallResult::Pid(1));
    assert_eq!(s.next(), SchedulingDecision::Run { pid: 1, timeslice: 10 });
    assert_eq!(s.stop(syscall(Syscall::Fork(0), 5)), SyscallResult::Pid(2));
    assert_eq!(s.next(), SchedulingDecision::Run { pid: 1, timeslice: 5 });
    assert_eq!(s.stop(syscall(Syscall::Fork(0), 4)), SyscallResult::Pid(3));
    assert_eq!(s.next(), SchedulingDecision::Run { pid: 1, timeslice: 3 });
    assert_eq!(s.stop(syscall(Syscall::Fork(0), 2)), SyscallResult::Pid(4));
    assert_eq!(s.next(), SchedulingDecision::Run { pid: 1, timeslice: 2 });
    assert_eq!(s.stop(syscall(Syscall::Fork(0), 1)), SyscallResult::Pid(5));
    assert_eq!(s.next(), SchedulingDecision::Run { pid: 2, timeslice: 2 });
    assert_eq!(s.stop(syscall(Syscall::Fork(0), 1)), SyscallResult::Pid(6));
    assert_eq!(s.next(), SchedulingDecision::Run { pid: 3, timeslice: 2 });
}

#[test]
fn cfs_least_vruntime_runs_and_accumulates() {
    let mut s = Cfs::new(10, 2);
    assert_eq!(s.stop(syscall(Syscall::Fork(0), 1)), SyscallResult::Pid(1));
    assert_eq!(s.next(), SchedulingDecision::Run { pid: 1, timeslice: 10 });
    assert_eq!(s.stop(syscall(Syscall::Fork(0), 5)), SyscallResult::Pid(2));
    assert_eq!(s.list()[0].vruntime(), 5);
    assert_eq!(s.list()[0].extra(), "vruntime=5");
    assert_eq!(s.list()[1].vruntime(), 5);
    assert_eq!(s.list()[1].extra(), "vruntime=5");
    assert_eq!(s.next(), SchedulingDecision::Run { pid: 1, timeslice: 5 });
    assert_eq!(s.stop(StopReason::Expired), SyscallResult::Success);
    assert_eq!(s.list()[0].vruntime(), 10);
    assert_eq!(s.list()[0].extra(), "vruntime=10");
    assert_eq!(s.next(), SchedulingDecision::Run { pid: 2, timeslice: 5 });
    assert_eq!(s.stop(syscall(Syscall::Fork(0), 2)), SyscallResult::Pid(3));
    assert_eq!(s.list()[1].vruntime(), 8);
    assert_eq!(s.list()[2].vruntime(), 8);
    assert_eq!(s.next(), SchedulingDecision::Run { pid: 2, timeslice: 3 });
    assert_eq!(s.stop(StopReason::Expired), SyscallResult::Success);
    assert_eq!(s.list()[1].vruntime(), 11);
    assert_eq!(s.next(), SchedulingDecision::Run { pid: 3, timeslice: 3 });
}

#[test]
fn cfs_ties_go_to_smaller_pid() {
    let mut s = Cfs::new(12, 1);
    assert_eq!(s.stop(syscall(Syscall::Fork(0), 1)), SyscallResult::Pid(1));
    assert_eq!(s.stop(syscall(Syscall::Fork(0), 1)), SyscallResult::Pid(2));
    assert_eq!(s.stop(syscall(Syscall::Fork(0), 1)), SyscallResult::Pid(3));
    assert_eq!(s.next(), SchedulingDecision::Run { pid: 1, timeslice: 4 });
    assert_eq!(s.stop(StopReason::Expired), SyscallResult::Success);
    assert_eq!(s.next(), SchedulingDecision::Run { pid: 2, timeslice: 4 });
}

#[test]
fn cfs_newborn_gets_zero_when_alone() {
    let mut s = Cfs::new(4, 1);
    assert_eq!(s.stop(syscall(Syscall::Fork(0), 0)), SyscallResult::Pid(1));
    assert_eq!(s.list()[0].vruntime(), 0);
    assert_eq!(s.list()[0].extra(), "vruntime=0");
}
