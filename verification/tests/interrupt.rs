use calc_core::interrupt::{CtrlC, Interrupt, Never, SignalAction};

#[test]
fn never_does_not_interrupt() {
    assert!(!Never::default().should_interrupt());
    assert!(!Never {}.should_interrupt());
}

#[test]
fn a_fresh_state_does_not_interrupt() {
    assert!(!CtrlC::new().should_interrupt());
}

#[test]
fn the_first_signal_asks_to_stop() {
    let mut state = CtrlC::new();
    assert_eq!(state.on_signal(), SignalAction::Continue);
    assert!(state.should_interrupt());
}

#[test]
fn a_second_signal_ends_the_program() {
    let mut state = CtrlC::new();
    assert_eq!(state.on_signal(), SignalAction::Continue);
    assert_eq!(state.on_signal(), SignalAction::Exit);
    assert!(state.should_interrupt());
}

#[test]
fn reset_lets_the_next_computation_run() {
    let mut state = CtrlC::new();
    state.on_signal();
    state.reset();
    assert!(!state.should_interrupt());
    assert_eq!(state.on_signal(), SignalAction::Continue);
}
