use crate::channel::{ChannelSendError, JobChannel, MessageKind, ResultChannel};
use crate::status::{count_down, count_up, lemma_count_up_down, count_toward, ManagerCounts, ManagerStatus, WorkerFlags, WorkerStatus};
use vstd::prelude::*;

verus! {

/// A counter of workers, once one worker's flag went from `before` to
/// `after`.
pub open spec fn shift_count(x: usize, before: bool, after: bool) -> usize {
    if before == after {
        x
    } else if after {
        count_up(x)
    } else {
        count_down(x)
    }
}

/// The pool's counters, once one worker's flags went from `before` to `after`.
pub open spec fn counts_follow(m: ManagerCounts, before: WorkerFlags, after: WorkerFlags) -> ManagerCounts {
    ManagerCounts {
        active: shift_count(m.active, before.active, after.active),
        waiting: shift_count(m.waiting, before.waiting, after.waiting),
        busy: shift_count(m.busy, before.busy, after.busy),
    }
}

/// Abstract state of a [`Worker`].
pub ghost struct WorkerView {
    pub id: usize,
    pub terminating: bool,
    pub flags: WorkerFlags,
}

/// A worker once started: an inactive worker becomes active and forgets a
/// termination order; an active one stays as it is.
pub open spec fn after_start(w: WorkerView) -> WorkerView {
    if w.flags.active {
        w
    } else {
        WorkerView { terminating: false, flags: WorkerFlags { active: true, ..w.flags }, ..w }
    }
}

/// A worker after one turn of its loop ended with `event`.
pub open spec fn after_poll<F>(w: WorkerView, event: WorkerEvent<F>) -> WorkerView {
    match event {
        WorkerEvent::Stop => WorkerView {
            terminating: false,
            flags: WorkerFlags { active: false, waiting: false, ..w.flags },
            ..w
        },
        WorkerEvent::Job(_) => WorkerView {
            flags: WorkerFlags {
                waiting: false,
                busy: true,
                received: count_up(w.flags.received),
                ..w.flags
            },
            ..w
        },
        WorkerEvent::Idle => WorkerView { flags: WorkerFlags { waiting: true, ..w.flags }, ..w },
    }
}

/// A worker once the result of its job has been reported.
pub open spec fn after_complete(w: WorkerView) -> WorkerView {
    WorkerView { flags: WorkerFlags { busy: false, ..w.flags }, ..w }
}

/// What a turn of the worker loop finds on a channel holding `q`: nothing
/// to do when it is empty, else the oldest message: a job to run, or the
/// order to stop.
pub open spec fn event_for<F>(q: Seq<MessageKind<F>>) -> WorkerEvent<F> {
    if q.len() == 0 {
        WorkerEvent::Idle
    } else {
        match q[0] {
            MessageKind::Job(job) => WorkerEvent::Job(job),
            MessageKind::Release => WorkerEvent::Stop,
        }
    }
}

/// A channel holding `q` after a turn of the worker loop looked at it: its
/// oldest message, if any, has been taken.
pub open spec fn queue_after_poll<F>(q: Seq<MessageKind<F>>) -> Seq<MessageKind<F>> {
    if q.len() == 0 {
        q
    } else {
        q.drop_first()
    }
}

/// The event a turn of the worker loop makes of message `m` once it is
/// the oldest in the channel.
pub open spec fn event_of<F>(m: MessageKind<F>) -> WorkerEvent<F> {
    match m {
        MessageKind::Job(job) => WorkerEvent::Job(job),
        MessageKind::Release => WorkerEvent::Stop,
    }
}

/// The events that turns of the worker loop hand out, one turn after the
/// other, until the channel holding `q` is empty (with nothing sent in
/// between).
pub open spec fn poll_events<F>(q: Seq<MessageKind<F>>) -> Seq<WorkerEvent<F>>
    decreases q.len(),
{
    if q.len() == 0 {
        Seq::empty()
    } else {
        seq![event_for(q)] + poll_events(queue_after_poll(q))
    }
}

/// Turns of the worker loop hand out the messages of a channel in the
/// order they were sent, each exactly once: the `i`-th turn gets the `i`-th
/// message. A job sent behind the messages already queued comes out after
/// all of them, and right after them.
pub proof fn lemma_polls_hand_out_in_order<F>(q: Seq<MessageKind<F>>, job: F)
    ensures
        poll_events(q).len() == q.len(),
        forall|i: int| 0 <= i < q.len() ==> #[trigger] poll_events(q)[i] == event_of(q[i]),
        poll_events(q.push(MessageKind::Job(job))) == poll_events(q).push(WorkerEvent::Job(job)),
    decreases q.len(),
{
    if q.len() > 0 {
        let rest = q.drop_first();
        lemma_polls_hand_out_in_order(rest, job);
        assert forall|i: int| 0 <= i < q.len() implies #[trigger] poll_events(q)[i] == event_of(q[i]) by {
            if i > 0 {
                assert(poll_events(q)[i] == poll_events(rest)[i - 1]);
                assert(rest[i - 1] == q[i]);
            }
        }
        let qp = q.push(MessageKind::Job(job));
        assert(qp.drop_first() =~= rest.push(MessageKind::Job(job)));
        assert(qp[0] == q[0]);
        assert(event_for(qp) == event_for(q));
        assert(poll_events(qp) =~= poll_events(q).push(WorkerEvent::Job(job)));
    } else {
        let qp = q.push(MessageKind::Job(job));
        assert(qp.drop_first() =~= Seq::<MessageKind<F>>::empty());
        assert(poll_events(qp.drop_first()) =~= Seq::<WorkerEvent<F>>::empty());
        assert(poll_events(qp) =~= poll_events(q).push(WorkerEvent::Job(job)));
    }
}

/// What a worker does after looking at its channel.
#[derive(Debug)]
pub enum WorkerEvent<F> {
    /// Run this job, then report its result with [`Worker::complete`].
    Job(F),
    /// No message yet: look again later.
    Idle,
    /// Leave the loop: the worker was released or told to terminate.
    Stop,
}

/// The bookkeeping of one worker of a pool: its number, whether it was told
/// to terminate, and its status flags.
pub struct Worker {
    id: usize,
    termination: bool,
    worker_status: WorkerStatus,
}

impl View for Worker {
    type V = WorkerView;

    closed spec fn view(&self) -> WorkerView {
        WorkerView { id: self.id, terminating: self.termination, flags: self.worker_status@ }
    }
}

impl Worker {
    pub fn new(id: usize) -> (worker: Self)
        ensures
            worker@ == (WorkerView {
                id,
                terminating: false,
                flags: WorkerFlags { active: false, waiting: false, busy: false, received: 0 },
            }),
    {
        Worker { id, termination: false, worker_status: WorkerStatus::new() }
    }

    pub fn id(&self) -> (id: usize)
        ensures
            id == self@.id,
    {
        self.id
    }

    pub fn status(&self) -> (status: &WorkerStatus)
        ensures
            status@ == self@.flags,
    {
        &self.worker_status
    }

    /// Whether the worker was told to terminate.
    pub fn termination(&self) -> (b: bool)
        ensures
            b == self@.terminating,
    {
        self.termination
    }

    /// Marks the worker active or not, and counts it in the pool's counter.
    pub fn set_active(&mut self, manager_status: &mut ManagerStatus, state: bool)
        ensures
            final(self)@ == (WorkerView {
                flags: WorkerFlags { active: state, ..old(self)@.flags },
                ..old(self)@
            }),
            final(manager_status)@ == (ManagerCounts {
                active: count_toward(old(manager_status)@.active, state),
                ..old(manager_status)@
            }),
    {
        self.worker_status.set_active(state);
        manager_status.set_active(state);
    }

    /// Marks the worker waiting or not, and counts it in the pool's counter.
    pub fn set_waiting(&mut self, manager_status: &mut ManagerStatus, state: bool)
        ensures
            final(self)@ == (WorkerView {
                flags: WorkerFlags { waiting: state, ..old(self)@.flags },
                ..old(self)@
            }),
            final(manager_status)@ == (ManagerCounts {
                waiting: count_toward(old(manager_status)@.waiting, state),
                ..old(manager_status)@
            }),
    {
        self.worker_status.set_waiting(state);
        manager_status.set_waiting(state);
    }

    /// Marks the worker busy or not, and counts it in the pool's counter.
    pub fn set_busy(&mut self, manager_status: &mut ManagerStatus, state: bool)
        ensures
            final(self)@ == (WorkerView {
                flags: WorkerFlags { busy: state, ..old(self)@.flags },
                ..old(self)@
            }),
            final(manager_status)@ == (ManagerCounts {
                busy: count_toward(old(manager_status)@.busy, state),
                ..old(manager_status)@
            }),
    {
        self.worker_status.set_busy(state);
        manager_status.set_busy(state);
    }

    pub fn set_termination(&mut self, state: bool)
        ensures
            final(self)@ == (WorkerView { terminating: state, ..old(self)@ }),
    {
        self.termination = state;
    }

    /// Starts the worker unless it is active already: marks it active and
    /// clears a pending termination. Returns whether a thread has to be
    /// started for it.
    pub fn start(&mut self, manager_status: &mut ManagerStatus) -> (spawn: bool)
        ensures
            spawn == !old(self)@.flags.active,
            final(self)@ == after_start(old(self)@),
            final(manager_status)@ == counts_follow(old(manager_status)@, old(self)@.flags, final(self)@.flags),
    {
        if !self.worker_status.is_active() {
            self.set_active(manager_status, true);
            self.set_termination(false);
            true
        } else {
            false
        }
    }

    /// Leaves the worker loop: the worker is no longer waiting nor active,
    /// and a termination order is cleared.
    fn finish(&mut self, manager_status: &mut ManagerStatus)
        ensures
            final(self)@ == (WorkerView {
                terminating: false,
                flags: WorkerFlags { active: false, waiting: false, ..old(self)@.flags },
                ..old(self)@
            }),
            final(manager_status)@ == counts_follow(old(manager_status)@, old(self)@.flags, final(self)@.flags),
    {
        if self.worker_status.is_waiting() {
            self.set_waiting(manager_status, false);
        }
        if self.worker_status.is_active() {
            self.set_active(manager_status, false);
        }
        self.set_termination(false);
    }

    /// One turn of the worker loop. A worker told to terminate stops. Else
    /// it waits on its channel: a job makes it busy and is handed out, a
    /// release makes it stop, and an empty channel leaves it waiting. The
    /// turn does not block on an empty channel: the caller waits a little
    /// and calls it again, so that the channel stays free for senders.
    pub fn poll<F>(&mut self, manager_status: &mut ManagerStatus, job_channel: &mut JobChannel<F>) -> (event: WorkerEvent<F>)
        ensures
            final(self)@ == after_poll(old(self)@, event),
            final(manager_status)@ == counts_follow(old(manager_status)@, old(self)@.flags, final(self)@.flags),
            old(self)@.terminating ==> {
                &&& event is Stop
                &&& final(job_channel)@ == old(job_channel)@
                &&& final(job_channel).queue() == old(job_channel).queue()
                &&& final(job_channel).releases() == old(job_channel).releases()
            },
            !old(self)@.terminating ==> {
                &&& event == event_for(old(job_channel).queue())
                &&& final(job_channel).queue() == queue_after_poll(old(job_channel).queue())
                &&& final(job_channel)@ == old(job_channel)@.after_receive(event is Job)
                &&& final(job_channel).releases() == old(job_channel).releases().after_take(event is Stop)
            },
    {
        if self.termination {
            self.finish(manager_status);
            return WorkerEvent::Stop;
        }
        let ghost m0 = manager_status@;
        let ghost f0 = self@.flags;
        if !self.worker_status.is_waiting() {
            self.set_waiting(manager_status, true);
        }
        match job_channel.try_recv() {
            Ok(MessageKind::Job(job)) => {
                self.set_waiting(manager_status, false);
                proof {
                    lemma_count_up_down(m0.waiting);
                }
                self.worker_status.add_received();
                if !self.worker_status.is_busy() {
                    self.set_busy(manager_status, true);
                }
                WorkerEvent::Job(job)
            },
            Ok(MessageKind::Release) => {
                self.finish(manager_status);
                proof {
                    lemma_count_up_down(m0.waiting);
                }
                WorkerEvent::Stop
            },
            Err(_) => WorkerEvent::Idle,
        }
    }

    /// Reports the result of the job the worker ran: sends it to the back of
    /// the result channel, counts the job as concluded, and makes the worker
    /// idle. The send does not fail.
    pub fn complete<F, T>(
        &mut self,
        manager_status: &mut ManagerStatus,
        job_channel: &mut JobChannel<F>,
        result_channel: &mut ResultChannel<T>,
        result: T,
    ) -> (r: Result<(), ChannelSendError<T>>)
        ensures
            r is Ok,
            final(self)@ == after_complete(old(self)@),
            final(manager_status)@ == counts_follow(old(manager_status)@, old(self)@.flags, final(self)@.flags),
            final(job_channel)@ == old(job_channel)@.after_conclude(),
            final(job_channel).queue() == old(job_channel).queue(),
            final(job_channel).releases() == old(job_channel).releases(),
            final(result_channel)@ == old(result_channel)@.after_send(),
            final(result_channel).queue() == old(result_channel).queue().push(result),
    {
        match result_channel.send(result) {
            Ok(()) => {
                job_channel.add_concluded();
                if self.worker_status.is_busy() {
                    self.set_busy(manager_status, false);
                }
                Ok(())
            },
            Err(e) => Err(e),
        }
    }
}

/// Starting a worker twice is starting it once: the second start finds it
/// active and changes nothing.
pub proof fn lemma_start_idempotent(w: WorkerView)
    ensures
        after_start(after_start(w)) == after_start(w),
        after_start(w).flags.active,
{
}

} // verus!
