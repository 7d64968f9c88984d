use scheduler::pcb::{Pcb, WakeupCondition};
use scheduler::types::ProcessState;

#[test]
fn new_pcb_defaults() {
    let p = Pcb::new(3, 2, 7);
    assert_eq!(p.pid(), 3);
    assert_eq!(p.priority(), 2);
    assert_eq!(p.fork_priority(), 2);
    assert_eq!(p.vruntime(), 7);
    assert_eq!(p.state(), ProcessState::Ready);
    assert_eq!(p.timings(), (0, 0, 0));
    assert_eq!(p.wakeup(), WakeupCondition::Awake);
    assert_eq!(p.extra(), "");
}

#[test]
fn priority_clamps() {
    let mut p = Pcb::new(1, 2, 0);
    p.increment_priority();
    assert_eq!(p.priority(), 2);
    p.decrement_priority();
    p.decrement_priority();
    assert_eq!(p.priority(), 0);
    p.decrement_priority();
    assert_eq!(p.priority(), 0);
    p.increment_priority();
    p.increment_priority();
    p.increment_priority();
    assert_eq!(p.priority(), 2);
}

#[test]
fn timings_add_and_saturate() {
    let mut p = Pcb::new(1, 0, 0);
    p.increment_timings(5, 1, 4);
    p.increment_timings(2, 0, 2);
    assert_eq!(p.timings(), (7, 1, 6));
    p.increment_timings(usize::MAX, 0, 0);
    assert_eq!(p.timings(), (usize::MAX, 1, 6));
}

#[test]
fn setters_replace_fields() {
    let mut p = Pcb::new(1, 0, 0);
    p.set_state(ProcessState::Waiting { event: Some(4) });
    p.set_wakeup(WakeupCondition::Signal(4));
    p.set_extra(String::from("note"));
    p.advance_vruntime(9);
    assert_eq!(p.state(), ProcessState::Waiting { event: Some(4) });
    assert_eq!(p.wakeup(), WakeupCondition::Signal(4));
    assert_eq!(p.extra(), "note");
    assert_eq!(p.vruntime(), 9);
}
