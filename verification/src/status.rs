use vstd::prelude::*;

verus! {

/// A counter moved up by one, wrapping around at `usize::MAX` as an atomic
/// `fetch_add` does.
pub open spec fn count_up(x: usize) -> usize {
    if x == usize::MAX {
        0
    } else {
        (x + 1) as usize
    }
}

/// A counter moved down by one, wrapping around at zero as an atomic
/// `fetch_sub` does.
pub open spec fn count_down(x: usize) -> usize {
    if x == 0 {
        usize::MAX
    } else {
        (x - 1) as usize
    }
}

/// A counter moved up when `up` holds and down otherwise.
pub open spec fn count_toward(x: usize, up: bool) -> usize {
    if up {
        count_up(x)
    } else {
        count_down(x)
    }
}

/// Moving a counter up and then down leaves it where it was, and so does
/// moving it down and then up: every `set_*(true)` is undone by a
/// `set_*(false)`.
pub proof fn lemma_count_up_down(x: usize)
    ensures
        count_down(count_up(x)) == x,
        count_up(count_down(x)) == x,
{
}

fn increment(x: usize) -> (r: usize)
    ensures
        r == count_up(x),
{
    x.wrapping_add(1)
}

fn decrement(x: usize) -> (r: usize)
    ensures
        r == count_down(x),
{
    x.wrapping_sub(1)
}

/// The thread counters of a pool.
pub ghost struct ManagerCounts {
    pub active: usize,
    pub waiting: usize,
    pub busy: usize,
}

/// How many workers of a pool are active, waiting for a job, or busy with one.
pub struct ManagerStatus {
    active_threads: usize,
    waiting_threads: usize,
    busy_threads: usize,
}

impl View for ManagerStatus {
    type V = ManagerCounts;

    closed spec fn view(&self) -> ManagerCounts {
        ManagerCounts {
            active: self.active_threads,
            waiting: self.waiting_threads,
            busy: self.busy_threads,
        }
    }
}

impl ManagerStatus {
    pub fn new() -> (status: Self)
        ensures
            status@ == (ManagerCounts { active: 0, waiting: 0, busy: 0 }),
    {
        ManagerStatus { active_threads: 0, waiting_threads: 0, busy_threads: 0 }
    }

    pub fn active_threads(&self) -> (n: usize)
        ensures
            n == self@.active,
    {
        self.active_threads
    }

    pub fn waiting_threads(&self) -> (n: usize)
        ensures
            n == self@.waiting,
    {
        self.waiting_threads
    }

    pub fn busy_threads(&self) -> (n: usize)
        ensures
            n == self@.busy,
    {
        self.busy_threads
    }

    /// Counts one more active worker when `state` holds, one fewer otherwise.
    pub fn set_active(&mut self, state: bool)
        ensures
            final(self)@ == (ManagerCounts {
                active: count_toward(old(self)@.active, state),
                ..old(self)@
            }),
    {
        if state {
            self.active_threads = increment(self.active_threads);
        } else {
            self.active_threads = decrement(self.active_threads);
        }
    }

    /// Counts one more waiting worker when `state` holds, one fewer otherwise.
    pub fn set_waiting(&mut self, state: bool)
        ensures
            final(self)@ == (ManagerCounts {
                waiting: count_toward(old(self)@.waiting, state),
                ..old(self)@
            }),
    {
        if state {
            self.waiting_threads = increment(self.waiting_threads);
        } else {
            self.waiting_threads = decrement(self.waiting_threads);
        }
    }

    /// Counts one more busy worker when `state` holds, one fewer otherwise.
    pub fn set_busy(&mut self, state: bool)
        ensures
            final(self)@ == (ManagerCounts {
                busy: count_toward(old(self)@.busy, state),
                ..old(self)@
            }),
    {
        if state {
            self.busy_threads = increment(self.busy_threads);
        } else {
            self.busy_threads = decrement(self.busy_threads);
        }
    }
}

/// The state of one worker.
pub ghost struct WorkerFlags {
    pub active: bool,
    pub waiting: bool,
    pub busy: bool,
    pub received: usize,
}

/// Whether one worker is active, waiting for a job or busy with one, and
/// how many jobs it has taken.
pub struct WorkerStatus {
    active: bool,
    waiting: bool,
    busy: bool,
    received: usize,
}

impl View for WorkerStatus {
    type V = WorkerFlags;

    closed spec fn view(&self) -> WorkerFlags {
        WorkerFlags {
            active: self.active,
            waiting: self.waiting,
            busy: self.busy,
            received: self.received,
        }
    }
}

impl WorkerStatus {
    pub fn new() -> (status: Self)
        ensures
            status@ == (WorkerFlags { active: false, waiting: false, busy: false, received: 0 }),
    {
        WorkerStatus { active: false, waiting: false, busy: false, received: 0 }
    }

    pub fn is_active(&self) -> (b: bool)
        ensures
            b == self@.active,
    {
        self.active
    }

    pub fn is_waiting(&self) -> (b: bool)
        ensures
            b == self@.waiting,
    {
        self.waiting
    }

    pub fn is_busy(&self) -> (b: bool)
        ensures
            b == self@.busy,
    {
        self.busy
    }

    /// The number of jobs this worker has taken from its channel.
    pub fn received(&self) -> (n: usize)
        ensures
            n == self@.received,
    {
        self.received
    }

    pub fn set_active(&mut self, state: bool)
        ensures
            final(self)@ == (WorkerFlags { active: state, ..old(self)@ }),
    {
        self.active = state;
    }

    pub fn set_waiting(&mut self, state: bool)
        ensures
            final(self)@ == (WorkerFlags { waiting: state, ..old(self)@ }),
    {
        self.waiting = state;
    }

    pub fn set_busy(&mut self, state: bool)
        ensures
            final(self)@ == (WorkerFlags { busy: state, ..old(self)@ }),
    {
        self.busy = state;
    }

    /// Counts one more job taken by this worker.
    pub fn add_received(&mut self)
        ensures
            final(self)@ == (WorkerFlags { received: count_up(old(self)@.received), ..old(self)@ }),
    {
        self.received = increment(self.received);
    }
}

/// The message counters of a channel.
pub ghost struct ChannelCounts {
    pub sent: usize,
    pub sending: usize,
    pub received: usize,
    pub receiving: usize,
    pub concluded: usize,
}

impl ChannelCounts {
    /// Every message sent has been followed through to its end.
    pub open spec fn finished(self) -> bool {
        self.concluded == self.sent
    }

    /// Messages sent and not yet received.
    pub open spec fn available(self) -> int {
        self.sent - self.received
    }

    /// Messages sent or being sent, and not yet received.
    pub open spec fn pending(self) -> int {
        self.sent + self.sending - self.received
    }

    /// The counters once one more message has gone through.
    pub open spec fn after_send(self) -> ChannelCounts {
        ChannelCounts { sent: count_up(self.sent), ..self }
    }

    /// The counters once a message has been taken out; only a job counts
    /// as received.
    pub open spec fn after_receive(self, took_job: bool) -> ChannelCounts {
        if took_job {
            ChannelCounts { received: count_up(self.received), ..self }
        } else {
            self
        }
    }

    /// The counters once one more message has been followed through.
    pub open spec fn after_conclude(self) -> ChannelCounts {
        ChannelCounts { concluded: count_up(self.concluded), ..self }
    }
}

/// Counters of the messages that went through a channel: sent, being sent,
/// received, being received, and concluded (followed through to the end).
#[derive(Clone, Copy)]
pub struct ChannelStatus {
    sent: usize,
    sending: usize,
    received: usize,
    receiving: usize,
    concluded: usize,
}

impl View for ChannelStatus {
    type V = ChannelCounts;

    closed spec fn view(&self) -> ChannelCounts {
        ChannelCounts {
            sent: self.sent,
            sending: self.sending,
            received: self.received,
            receiving: self.receiving,
            concluded: self.concluded,
        }
    }
}

impl ChannelStatus {
    pub fn new() -> (status: Self)
        ensures
            status@ == (ChannelCounts {
                sent: 0,
                sending: 0,
                received: 0,
                receiving: 0,
                concluded: 0,
            }),
    {
        ChannelStatus { sent: 0, sending: 0, received: 0, receiving: 0, concluded: 0 }
    }

    /// Messages sent and not yet received.
    pub fn available(&self) -> (n: usize)
        requires
            self@.received <= self@.sent,
        ensures
            n == self@.available(),
    {
        let sent_count: usize = self.sent();
        let received_count: usize = self.received();
        sent_count - received_count
    }

    /// Messages sent or being sent, and not yet received.
    pub fn pending(&self) -> (n: usize)
        requires
            self@.sent + self@.sending <= usize::MAX,
            self@.received <= self@.sent + self@.sending,
        ensures
            n == self@.pending(),
    {
        let sent_count: usize = self.sent();
        let sending_count: usize = self.sending();
        let received_count: usize = self.received();
        (sent_count + sending_count) - received_count
    }

    pub fn sent(&self) -> (n: usize)
        ensures
            n == self@.sent,
    {
        self.sent
    }

    pub fn sending(&self) -> (n: usize)
        ensures
            n == self@.sending,
    {
        self.sending
    }

    pub fn received(&self) -> (n: usize)
        ensures
            n == self@.received,
    {
        self.received
    }

    pub fn receiving(&self) -> (n: usize)
        ensures
            n == self@.receiving,
    {
        self.receiving
    }

    pub fn concluded(&self) -> (n: usize)
        ensures
            n == self@.concluded,
    {
        self.concluded
    }

    pub fn add_sent(&mut self)
        ensures
            final(self)@ == (ChannelCounts { sent: count_up(old(self)@.sent), ..old(self)@ }),
    {
        self.sent = increment(self.sent);
    }

    pub fn add_sending(&mut self)
        ensures
            final(self)@ == (ChannelCounts { sending: count_up(old(self)@.sending), ..old(self)@ }),
    {
        self.sending = increment(self.sending);
    }

    pub fn add_received(&mut self)
        ensures
            final(self)@ == (ChannelCounts { received: count_up(old(self)@.received), ..old(self)@ }),
    {
        self.received = increment(self.received);
    }

    pub fn add_receiving(&mut self)
        ensures
            final(self)@ == (ChannelCounts {
                receiving: count_up(old(self)@.receiving),
                ..old(self)@
            }),
    {
        self.receiving = increment(self.receiving);
    }

    pub fn add_concluded(&mut self)
        ensures
            final(self)@ == (ChannelCounts {
                concluded: count_up(old(self)@.concluded),
                ..old(self)@
            }),
    {
        self.concluded = increment(self.concluded);
    }

    pub fn sub_sending(&mut self)
        ensures
            final(self)@ == (ChannelCounts {
                sending: count_down(old(self)@.sending),
                ..old(self)@
            }),
    {
        self.sending = decrement(self.sending);
    }

    pub fn sub_receiving(&mut self)
        ensures
            final(self)@ == (ChannelCounts {
                receiving: count_down(old(self)@.receiving),
                ..old(self)@
            }),
    {
        self.receiving = decrement(self.receiving);
    }
}

/// A job sent and then received leaves as many messages available and
/// pending as before, as long as no counter wraps around.
pub proof fn lemma_send_receive_balance(c: ChannelCounts)
    requires
        c.sent < usize::MAX,
        c.received < usize::MAX,
    ensures
        c.after_send().after_receive(true).available() == c.available(),
        c.after_send().after_receive(true).pending() == c.pending(),
{
}

/// A channel is finished again once every job sent through it is
/// concluded: a send makes a finished channel unfinished, and concluding
/// that job makes it finished again.
pub proof fn lemma_send_conclude_finishes(c: ChannelCounts)
    requires
        c.finished(),
    ensures
        !c.after_send().finished(),
        c.after_send().after_receive(true).after_conclude().finished(),
{
}

} // verus!
