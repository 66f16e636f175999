use vstd::prelude::*;

verus! {

/// Abstract state of [`WorkerSignals`].
pub ghost struct SignalsView {
    pub join: bool,
    pub termination: bool,
}

/// Two signals for a worker: to join, and to terminate.
pub struct WorkerSignals {
    join_signal: bool,
    termination_signal: bool,
}

impl View for WorkerSignals {
    type V = SignalsView;

    closed spec fn view(&self) -> SignalsView {
        SignalsView { join: self.join_signal, termination: self.termination_signal }
    }
}

impl WorkerSignals {
    pub fn new() -> (signals: Self)
        ensures
            signals@ == (SignalsView { join: false, termination: false }),
    {
        let join_signal: bool = false;
        let termination_signal: bool = false;
        WorkerSignals { join_signal, termination_signal }
    }

    pub fn get_join_signal(&self) -> (b: bool)
        ensures
            b == self@.join,
    {
        let join_signal: bool = self.join_signal;
        join_signal
    }

    pub fn get_termination_signal(&self) -> (b: bool)
        ensures
            b == self@.termination,
    {
        let termination_signal: bool = self.termination_signal;
        termination_signal
    }

    pub fn set_join_signal(&mut self, state: bool)
        ensures
            final(self)@ == (SignalsView { join: state, ..old(self)@ }),
    {
        self.join_signal = state;
    }

    pub fn set_termination_signal(&mut self, state: bool)
        ensures
            final(self)@ == (SignalsView { termination: state, ..old(self)@ }),
    {
        self.termination_signal = state;
    }
}

} // verus!
