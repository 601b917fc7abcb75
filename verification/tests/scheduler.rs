use ciao::env::Boundary;
use ciao::env::Environment;
use ciao::futs::Poll;
use ciao::futs::Suspendable;
use ciao::init;
use ciao::init_attempt;
use ciao::program::Program;
use ciao::step;
use ciao::step_attempt;
use ciao::TaskSlot;

/// A host whose answers are set by the test and which counts what it is asked.
struct Script {
    button: bool,
    message: bool,
    button_asked: u32,
    message_asked: u32,
    notified: u32,
}

impl Environment for Script {
    fn button_pressed(&mut self) -> bool {
        self.button_asked += 1;
        self.button
    }

    fn message_received(&mut self) -> bool {
        self.message_asked += 1;
        self.message
    }

    fn notify_mail_arrived(&mut self) {
        self.notified += 1;
    }
}

fn host(button: bool, message: bool) -> Boundary<Script> {
    Boundary::new(Script { button, message, button_asked: 0, message_asked: 0, notified: 0 })
}

/// Steps with the given answers and gives back the result and the host.
fn step_with(slot: &TaskSlot, button: bool, message: bool) -> (bool, Script) {
    let mut env = host(button, message);
    let terminal = step(slot, &mut env);
    (terminal, env.into_host())
}

#[test]
fn pressed_button_stops_on_the_ninth_call() {
    let slot = TaskSlot::new(None);
    init(&slot);
    let mut env = host(true, false);
    for _ in 1..=8 {
        assert!(!step(&slot, &mut env));
    }
    assert!(step(&slot, &mut env));
    assert!(slot.lock().is_none());
    let seen = env.into_host();
    assert_eq!(seen.button_asked, 1);
    assert_eq!(seen.message_asked, 8);
    assert_eq!(seen.notified, 0);
}

#[test]
fn message_on_the_fifth_call_starts_the_wait_again() {
    let slot = TaskSlot::new(None);
    init(&slot);
    for _ in 1..=4 {
        let (terminal, seen) = step_with(&slot, false, false);
        assert!(!terminal);
        assert_eq!(seen.notified, 0);
    }
    let (terminal, seen) = step_with(&slot, false, true);
    assert!(!terminal);
    assert_eq!(seen.notified, 1);
    assert_eq!(*slot.lock(), Some(Program::new()));
    for _ in 6..=13 {
        let (terminal, seen) = step_with(&slot, true, false);
        assert!(!terminal);
        assert_eq!(seen.notified, 0);
    }
    let (terminal, seen) = step_with(&slot, true, false);
    assert!(terminal);
    assert_eq!(seen.notified, 0);
}

#[test]
fn message_on_the_ninth_call_does_not_stop_the_finish() {
    let slot = TaskSlot::new(None);
    init(&slot);
    for _ in 1..=8 {
        assert!(!step_with(&slot, true, false).0);
    }
    let (terminal, seen) = step_with(&slot, false, true);
    assert!(terminal);
    assert_eq!(seen.button_asked, 0);
    assert_eq!(seen.message_asked, 0);
    assert_eq!(seen.notified, 0);
}

#[test]
fn every_message_starts_the_wait_again() {
    let slot = TaskSlot::new(None);
    init(&slot);
    let mut notified = 0;
    for _ in 0..3 {
        for _ in 0..7 {
            assert!(!step_with(&slot, true, false).0);
        }
        let (terminal, seen) = step_with(&slot, true, true);
        assert!(!terminal);
        notified += seen.notified;
    }
    assert_eq!(notified, 3);
    for _ in 1..=8 {
        assert!(!step_with(&slot, true, false).0);
    }
    assert!(step_with(&slot, true, false).0);
}

#[test]
fn button_pressed_late_finishes_on_that_call() {
    let slot = TaskSlot::new(None);
    init(&slot);
    for _ in 0..20 {
        assert!(!step_with(&slot, false, false).0);
    }
    assert!(step_with(&slot, true, false).0);
}

#[test]
fn step_on_an_empty_slot_does_nothing() {
    let slot = TaskSlot::new(None);
    let (terminal, seen) = step_with(&slot, true, true);
    assert!(!terminal);
    assert_eq!(seen.button_asked, 0);
    assert_eq!(seen.message_asked, 0);
    assert_eq!(seen.notified, 0);
    assert!(slot.lock().is_none());
}

#[test]
fn init_populates_an_empty_slot() {
    let slot = TaskSlot::new(None);
    assert!(slot.lock().is_none());
    init(&slot);
    assert_eq!(*slot.lock(), Some(Program::new()));
}

#[test]
fn second_init_does_not_reset_the_program() {
    let slot = TaskSlot::new(None);
    init(&slot);
    for _ in 1..=4 {
        assert!(!step_with(&slot, true, false).0);
    }
    let running = slot.lock().clone();
    init(&slot);
    assert_eq!(*slot.lock(), running);
    for _ in 5..=8 {
        assert!(!step_with(&slot, false, false).0);
    }
    assert!(step_with(&slot, false, false).0);
}

#[test]
fn slot_is_empty_after_the_terminal_step_and_can_be_populated_again() {
    let slot = TaskSlot::new(None);
    init(&slot);
    for _ in 1..=8 {
        assert!(!step_with(&slot, true, false).0);
    }
    assert!(step_with(&slot, true, false).0);
    assert!(slot.lock().is_none());
    assert!(!step_with(&slot, true, false).0);
    assert!(slot.lock().is_none());
    init(&slot);
    for _ in 1..=8 {
        assert!(!step_with(&slot, true, false).0);
    }
    assert!(step_with(&slot, true, false).0);
}

#[test]
fn step_under_contention_is_as_if_not_made() {
    let slot = TaskSlot::new(None);
    init(&slot);
    for _ in 1..=3 {
        assert!(!step_with(&slot, true, false).0);
    }
    let before = slot.lock().clone();
    {
        let guard = slot.lock();
        for _ in 0..50 {
            let (terminal, seen) = step_with(&slot, true, true);
            assert!(!terminal);
            assert_eq!(seen.button_asked, 0);
            assert_eq!(seen.message_asked, 0);
            assert_eq!(seen.notified, 0);
        }
        assert_eq!(*guard, before);
    }
    assert_eq!(*slot.lock(), before);
    for _ in 4..=8 {
        assert!(!step_with(&slot, false, false).0);
    }
    assert!(step_with(&slot, false, false).0);
}

#[test]
fn init_under_contention_is_as_if_not_made() {
    let slot = TaskSlot::new(None);
    {
        let guard = slot.lock();
        init(&slot);
        assert!(guard.is_none());
    }
    assert!(slot.lock().is_none());
    init(&slot);
    assert!(slot.lock().is_some());
}

#[test]
fn init_under_contention_leaves_a_running_program_alone() {
    let slot = TaskSlot::new(None);
    init(&slot);
    assert!(!step_with(&slot, true, false).0);
    let running = slot.lock().clone();
    {
        let guard = slot.lock();
        init(&slot);
        assert_eq!(*guard, running);
    }
    assert_eq!(*slot.lock(), running);
}

#[test]
fn lock_is_free_again_after_each_call() {
    let slot = TaskSlot::new(None);
    init(&slot);
    assert!(!slot.is_locked());
    step_with(&slot, false, false);
    assert!(!slot.is_locked());
    assert!(slot.try_lock().is_some());
}

#[test]
fn attempt_without_the_lock_does_nothing() {
    let mut env = host(true, true);
    assert!(!step_attempt(None, &mut env));
    init_attempt(None);
    let seen = env.into_host();
    assert_eq!(seen.button_asked, 0);
    assert_eq!(seen.message_asked, 0);
    assert_eq!(seen.notified, 0);
}

#[test]
fn attempt_with_the_lock_advances_what_it_finds() {
    let mut held: Option<Program> = None;
    let mut env = host(true, false);
    assert!(!step_attempt(Some(&mut held), &mut env));
    assert!(held.is_none());
    init_attempt(Some(&mut held));
    assert_eq!(held, Some(Program::new()));
    assert!(!step_attempt(Some(&mut held), &mut env));
    assert_ne!(held, Some(Program::new()));
    let running = held.clone();
    init_attempt(Some(&mut held));
    assert_eq!(held, running);
    for _ in 2..=8 {
        assert!(!step_attempt(Some(&mut held), &mut env));
    }
    assert!(step_attempt(Some(&mut held), &mut env));
    assert!(held.is_none());
}

#[test]
fn program_reports_pending_once_it_has_finished() {
    let mut env = host(true, false);
    let mut program = Program::new();
    for _ in 1..=8 {
        assert_eq!(program.poll(&mut env), Poll::Pending);
    }
    assert_eq!(program.poll(&mut env), Poll::Ready(()));
    let finished = program.clone();
    assert_eq!(program.poll(&mut env), Poll::Pending);
    assert_eq!(program, finished);
    assert_eq!(env.host().button_asked, 1);
    assert_eq!(env.host().message_asked, 8);
}

#[test]
fn program_asks_for_the_button_until_it_was_pressed() {
    let mut program = Program::new();
    let mut env = host(false, false);
    for _ in 0..5 {
        assert_eq!(program.poll(&mut env), Poll::Pending);
    }
    assert_eq!(env.host().button_asked, 5);
    assert_eq!(env.host().message_asked, 5);
    env = host(true, false);
    for _ in 0..3 {
        assert_eq!(program.poll(&mut env), Poll::Pending);
    }
    assert_eq!(env.host().button_asked, 1);
    assert_eq!(env.host().message_asked, 3);
    assert_eq!(program.poll(&mut env), Poll::Ready(()));
    assert_eq!(env.host().message_asked, 3);
}

#[test]
fn program_notifies_once_for_each_message() {
    let mut program = Program::new();
    let mut env = host(false, true);
    for _ in 0..4 {
        assert_eq!(program.poll(&mut env), Poll::Pending);
        assert_eq!(program, Program::new());
    }
    let seen = env.into_host();
    assert_eq!(seen.notified, 4);
    assert_eq!(seen.message_asked, 4);
    assert_eq!(seen.button_asked, 4);
}
