use std::cell::Cell;

use navmesh::defer;
use navmesh::sim::Input;
use navmesh::state::Step;

#[test]
fn deferred_runs_on_drop() {
    let ran = Cell::new(0);
    {
        let _guard = defer(|| ran.set(ran.get() + 1));
        assert_eq!(ran.get(), 0);
    }
    assert_eq!(ran.get(), 1);
}

#[test]
fn disarmed_guard_does_not_run() {
    let ran = Cell::new(0);
    let guard = defer(|| ran.set(ran.get() + 1));
    guard.disarm();
    assert_eq!(ran.get(), 0);
}

#[test]
fn input_reports_only_the_start_of_a_press() {
    let mut input = Input::new();
    assert!(!input.update(false));
    assert!(input.update(true));
    assert!(!input.update(true));
    assert!(!input.update(false));
    assert!(input.update(true));
}

#[test]
fn step_counter_wraps() {
    let mut step = Step(0);
    step.advance();
    assert_eq!(step.0, 1);
    let mut last = Step(u64::MAX);
    last.advance();
    assert_eq!(last.0, 0);
}
