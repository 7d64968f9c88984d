use scheduler::round_robin::RoundRobinScheduler;
use scheduler::round_robin_priorities::RoundRobinPrioritiesScheduler;
use scheduler::types::{ProcessState, SchedulingDecision, StopReason, Syscall, SyscallResult};

fn syscall(call: Syscall, remaining: usize) -> StopReason {
    StopReason::Syscall { syscall: call, remaining }
}

#[test]
fn single_fork_then_exit() {
    let mut s = RoundRobinScheduler::new(2, 1);
    assert_eq!(s.stop(syscall(Syscall::Fork(5), 1)), SyscallResult::Pid(1));
    assert_eq!(s.next(), SchedulingDecision::Run { pid: 1, timeslice: 2 });
    assert_eq!(s.stop(syscall(Syscall::Exit, 1)), SyscallResult::Success);
    assert_eq!(s.next(), SchedulingDecision::Done);
    assert!(s.list().is_empty());
}

#[test]
fn expired_round_robin() {
    let mut s = RoundRobinScheduler::new(2, 1);
    assert_eq!(s.stop(syscall(Syscall::Fork(0), 1)), SyscallResult::Pid(1));
    assert_eq!(s.next(), SchedulingDecision::Run { pid: 1, timeslice: 2 });
    assert_eq!(s.stop(syscall(Syscall::Fork(0), 0)), SyscallResult::Pid(2));
    assert_eq!(s.next(), SchedulingDecision::Run { pid: 2, timeslice: 2 });
    assert_eq!(s.stop(StopReason::Expired), SyscallResult::Success);
    assert_eq!(s.next(), SchedulingDecision::Run { pid: 1, timeslice: 2 });
}

#[test]
fn init_exit_panics() {
    let mut s = RoundRobinScheduler::new(2, 1);
    assert_eq!(s.stop(syscall(Syscall::Fork(0), 1)), SyscallResult::Pid(1));
    assert_eq!(s.next(), SchedulingDecision::Run { pid: 1, timeslice: 2 });
    assert_eq!(s.stop(syscall(Syscall::Fork(0), 1)), SyscallResult::Pid(2));
    assert_eq!(s.next(), SchedulingDecision::Run { pid: 1, timeslice: 1 });
    assert_eq!(s.stop(syscall(Syscall::Exit, 0)), SyscallResult::Success);
    assert_eq!(s.next(), SchedulingDecision::Panic);
}

#[test]
fn all_waiting_deadlocks() {
    let mut s = RoundRobinScheduler::new(2, 1);
    assert_eq!(s.stop(syscall(Syscall::Fork(0), 1)), SyscallResult::Pid(1));
    assert_eq!(s.next(), SchedulingDecision::Run { pid: 1, timeslice: 2 });
    assert_eq!(s.stop(syscall(Syscall::Fork(0), 1)), SyscallResult::Pid(2));
    assert_eq!(s.next(), SchedulingDecision::Run { pid: 1, timeslice: 1 });
    assert_eq!(s.stop(syscall(Syscall::Wait(7), 0)), SyscallResult::Success);
    assert_eq!(s.next(), SchedulingDecision::Run { pid: 2, timeslice: 2 });
    assert_eq!(s.stop(syscall(Syscall::Wait(8), 1)), SyscallResult::Success);
    assert_eq!(s.next(), SchedulingDecision::Deadlock);
    let states: Vec<ProcessState> = s.list().iter().map(|p| p.state()).collect();
    assert_eq!(
        states,
        vec![ProcessState::Waiting { event: Some(7) }, ProcessState::Waiting { event: Some(8) }]
    );
}

#[test]
fn sleep_fast_forward() {
    let mut s = RoundRobinScheduler::new(2, 1);
    assert_eq!(s.stop(syscall(Syscall::Fork(0), 1)), SyscallResult::Pid(1));
    assert_eq!(s.next(), SchedulingDecision::Run { pid: 1, timeslice: 2 });
    assert_eq!(s.stop(syscall(Syscall::Sleep(5), 1)), SyscallResult::Success);
    assert_eq!(s.list()[0].timings(), (1, 1, 0));
    assert_eq!(s.next(), SchedulingDecision::Sleep(5));
    assert_eq!(s.next(), SchedulingDecision::Run { pid: 1, timeslice: 2 });
    assert_eq!(s.list()[0].timings(), (6, 1, 0));
}

#[test]
fn priority_aging() {
    let mut s = RoundRobinPrioritiesScheduler::new(2, 1);
    assert_eq!(s.stop(syscall(Syscall::Fork(3), 1)), SyscallResult::Pid(1));
    assert_eq!(s.list()[0].priority(), 3);
    assert_eq!(s.next(), SchedulingDecision::Run { pid: 1, timeslice: 2 });
    assert_eq!(s.stop(StopReason::Expired), SyscallResult::Success);
    assert_eq!(s.list()[0].priority(), 2);
    assert_eq!(s.next(), SchedulingDecision::Run { pid: 1, timeslice: 2 });
    assert_eq!(s.stop(StopReason::Expired), SyscallResult::Success);
    assert_eq!(s.list()[0].priority(), 1);
    assert_eq!(s.next(), SchedulingDecision::Run { pid: 1, timeslice: 2 });
    assert_eq!(s.stop(syscall(Syscall::Sleep(1), 1)), SyscallResult::Success);
    assert_eq!(s.list()[0].priority(), 2);
    assert_eq!(s.next(), SchedulingDecision::Sleep(1));
    assert_eq!(s.next(), SchedulingDecision::Run { pid: 1, timeslice: 2 });
    assert_eq!(s.list()[0].priority(), 2);
}
