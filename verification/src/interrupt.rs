//! Cooperative cancellation of long computations: what may be asked to stop,
//! and what a Ctrl-C does to it.

use vstd::prelude::*;

verus! {

/// Something that a long computation asks from time to time whether it should
/// stop.
pub trait Interrupt {
    /// Whether the computation should stop now.
    fn should_interrupt(&self) -> bool;
}

/// What the program does after a Ctrl-C.
#[derive(Debug, Clone, Copy, PartialEq, Eq, Structural)]
pub enum SignalAction {
    /// The computation is asked to stop, and the program goes on.
    Continue,
    /// The program ends.
    Exit,
}

/// The state of the Ctrl-C handling: whether a computation may run on.
#[derive(Debug, Clone, Copy, PartialEq, Eq, Structural)]
pub struct CtrlC {
    pub running: bool,
}

impl CtrlC {
    /// The state in which nothing has asked to stop.
    pub fn new() -> (r: CtrlC)
        ensures
            r.running,
    {
        CtrlC { running: true }
    }

    /// Makes ready for the next computation: it may run on.
    pub fn reset(&mut self)
        ensures
            final(self).running,
    {
        self.running = true;
    }

    /// One Ctrl-C. The first asks the computation to stop; one that comes
    /// while that still stands ends the program.
    pub fn on_signal(&mut self) -> (r: SignalAction)
        ensures
            old(self).running ==> r == SignalAction::Continue && !final(self).running,
            !old(self).running ==> r == SignalAction::Exit && !final(self).running,
    {
        if !self.running {
            return SignalAction::Exit;
        }
        self.running = false;
        SignalAction::Continue
    }
}

impl Interrupt for CtrlC {
    fn should_interrupt(&self) -> (r: bool)
        ensures
            r == !self.running,
    {
        !self.running
    }
}

/// An interrupt that never asks to stop.
#[derive(Default)]
pub struct Never {}

impl Interrupt for Never {
    fn should_interrupt(&self) -> (r: bool)
        ensures
            !r,
    {
        false
    }
}

} // verus!
