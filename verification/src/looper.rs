use vstd::prelude::*;

verus! {

/// Abstract state of a [`ThreadLooper`].
pub ghost struct LooperView {
    pub active: bool,
    pub terminating: bool,
}

/// The state of a background loop: whether it runs, and whether it was
/// told to stop. The loop runs its function while [`keep_looping`] holds,
/// then calls [`finish`].
///
/// [`keep_looping`]: ThreadLooper::keep_looping
/// [`finish`]: ThreadLooper::finish
pub struct ThreadLooper {
    status: bool,
    termination: bool,
}

impl View for ThreadLooper {
    type V = LooperView;

    closed spec fn view(&self) -> LooperView {
        LooperView { active: self.status, terminating: self.termination }
    }
}

impl ThreadLooper {
    pub fn new() -> (looper: Self)
        ensures
            looper@ == (LooperView { active: false, terminating: false }),
    {
        ThreadLooper { status: false, termination: false }
    }

    /// Whether the loop runs.
    pub fn is_active(&self) -> (b: bool)
        ensures
            b == self@.active,
    {
        self.status
    }

    /// Starts the loop unless it runs already. Returns whether a thread has
    /// to be started for it.
    pub fn start(&mut self) -> (spawn: bool)
        ensures
            spawn == !old(self)@.active,
            spawn ==> final(self)@ == (LooperView { active: true, terminating: false }),
            !spawn ==> final(self)@ == old(self)@,
    {
        if !self.is_active() {
            self.status = true;
            self.termination = false;
            true
        } else {
            false
        }
    }

    /// Tells the loop to stop after the turn under way.
    pub fn terminate(&mut self)
        ensures
            final(self)@ == (LooperView { terminating: true, ..old(self)@ }),
    {
        self.termination = true;
    }

    /// Whether the loop should run its function once more.
    pub fn keep_looping(&self) -> (b: bool)
        ensures
            b == !self@.terminating,
    {
        !self.termination
    }

    /// The loop has ended: it no longer runs and the order to stop is spent.
    pub fn finish(&mut self)
        ensures
            final(self)@ == (LooperView { active: false, terminating: false }),
    {
        self.status = false;
        self.termination = false;
    }
}

} // verus!
