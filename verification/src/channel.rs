use crate::crossbeam::Queue;
use crate::status::{count_down, count_up, lemma_count_up_down, ChannelCounts, ChannelStatus};
use std::time::Duration;
use vstd::prelude::*;

verus! {

/// What goes through a job channel: a job for a worker, or the order to
/// stop taking jobs.
#[derive(Debug)]
pub enum MessageKind<T> {
    Job(T),
    Release,
}

impl<T> MessageKind<T> {
    pub open spec fn is_job(&self) -> bool {
        self is Job
    }
}

/// A send that failed because nothing can receive any more; it hands the
/// message back.
#[derive(Debug)]
pub struct ChannelSendError<T>(pub T);

/// A blocking receive that failed.
#[derive(Debug, PartialEq, Eq)]
pub struct ChannelRecvError;

/// A receive without blocking that failed.
#[derive(Debug, PartialEq, Eq)]
pub enum ChannelTryRecvError {
    Empty,
    Disconnected,
}

/// A receive with a time limit that failed.
#[derive(Debug, PartialEq, Eq)]
pub enum ChannelRecvTimeoutError {
    Timeout,
    Disconnected,
}

/// A counter moved up while a send or a receive is under way and back down
/// after it ends where it started.
proof fn lemma_bracket(c: ChannelCounts)
    ensures
        count_down(count_up(c.receiving)) == c.receiving,
        count_down(count_up(c.sending)) == c.sending,
{
    lemma_count_up_down(c.receiving);
    lemma_count_up_down(c.sending);
}

/// The orders to stop that went through a job channel: how many were put
/// into it, and how many were taken out of it.
pub ghost struct ReleaseCounts {
    pub sent: nat,
    pub taken: nat,
}

impl ReleaseCounts {
    /// The counts once one more order to stop has been put into the channel.
    pub open spec fn after_send(self) -> ReleaseCounts {
        ReleaseCounts { sent: self.sent + 1, ..self }
    }

    /// The counts once a message has been taken out; only an order to stop
    /// counts.
    pub open spec fn after_take(self, took_release: bool) -> ReleaseCounts {
        if took_release {
            ReleaseCounts { taken: self.taken + 1, ..self }
        } else {
            self
        }
    }
}

/// The job counters once every message of `q` has been taken out, oldest
/// first: each job counts as received.
pub open spec fn drained_counts<T>(c: ChannelCounts, q: Seq<MessageKind<T>>) -> ChannelCounts
    decreases q.len(),
{
    if q.len() == 0 {
        c
    } else {
        drained_counts(c.after_receive(q[0].is_job()), q.drop_first())
    }
}

/// The release counts once every message of `q` has been taken out: each
/// order to stop counts as taken.
pub open spec fn drained_releases<T>(r: ReleaseCounts, q: Seq<MessageKind<T>>) -> ReleaseCounts
    decreases q.len(),
{
    if q.len() == 0 {
        r
    } else {
        drained_releases(r.after_take(!q[0].is_job()), q.drop_first())
    }
}

/// The counters of a result channel once `n` results have been taken out.
pub open spec fn drained_results(c: ChannelCounts, n: nat) -> ChannelCounts
    decreases n,
{
    if n == 0 {
        c
    } else {
        drained_results(c.after_receive(true), (n - 1) as nat)
    }
}

/// The number of jobs among the messages `q`.
pub open spec fn job_count<T>(q: Seq<MessageKind<T>>) -> nat
    decreases q.len(),
{
    if q.len() == 0 {
        0
    } else {
        job_count(q.drop_first()) + if q[0].is_job() {
            1nat
        } else {
            0nat
        }
    }
}

/// The jobs of `q`, in their order, without the orders to stop.
pub open spec fn jobs_only<T>(q: Seq<MessageKind<T>>) -> Seq<MessageKind<T>>
    decreases q.len(),
{
    if q.len() == 0 {
        Seq::empty()
    } else {
        (if q[0].is_job() {
            seq![q[0]]
        } else {
            Seq::empty()
        }) + jobs_only(q.drop_first())
    }
}

/// Leaving out the orders to stop keeps every job: as many as before, and
/// nothing else.
pub proof fn lemma_jobs_only_count<T>(q: Seq<MessageKind<T>>)
    ensures
        job_count(jobs_only(q)) == job_count(q),
        jobs_only(q).len() == job_count(q),
        job_count(q) <= q.len(),
    decreases q.len(),
{
    if q.len() > 0 {
        let rest = q.drop_first();
        lemma_jobs_only_count(rest);
        let head: Seq<MessageKind<T>> = if q[0].is_job() {
            seq![q[0]]
        } else {
            Seq::empty()
        };
        let j = jobs_only(q);
        assert(j == head + jobs_only(rest));
        if q[0].is_job() {
            assert(j[0] == q[0]);
            assert(j.drop_first() =~= jobs_only(rest));
        } else {
            assert(j =~= jobs_only(rest));
        }
    } else {
        assert(jobs_only(q) =~= Seq::<MessageKind<T>>::empty());
    }
}

/// A message joining the back of `q` adds one job if it is a job.
pub proof fn lemma_job_count_push<T>(q: Seq<MessageKind<T>>, m: MessageKind<T>)
    ensures
        job_count(q.push(m)) == job_count(q) + if m.is_job() {
            1nat
        } else {
            0nat
        },
    decreases q.len(),
{
    if q.len() > 0 {
        assert(q.push(m).drop_first() =~= q.drop_first().push(m));
        assert(q.push(m)[0] == q[0]);
        lemma_job_count_push(q.drop_first(), m);
    } else {
        assert(q.push(m).drop_first() =~= Seq::<MessageKind<T>>::empty());
        assert(q.push(m)[0] == m);
        assert(job_count(Seq::<MessageKind<T>>::empty()) == 0);
        assert(q =~= Seq::<MessageKind<T>>::empty());
    }
}

/// Orders to stop joining the back of `q` add no job.
pub proof fn lemma_job_count_releases<T>(q: Seq<MessageKind<T>>, n: nat)
    ensures
        job_count(q + Seq::new(n, |i: int| MessageKind::<T>::Release)) == job_count(q),
    decreases n,
{
    if n > 0 {
        let r = Seq::new(n, |i: int| MessageKind::<T>::Release);
        let r1 = Seq::new((n - 1) as nat, |i: int| MessageKind::<T>::Release);
        assert(q + r =~= (q + r1).push(MessageKind::Release));
        lemma_job_count_push(q + r1, MessageKind::Release);
        lemma_job_count_releases(q, (n - 1) as nat);
    } else {
        assert(q + Seq::new(n, |i: int| MessageKind::<T>::Release) =~= q);
    }
}

/// A channel keeps its messages in order: messages sent after the ones
/// already queued are handed out only once those are, each message is
/// handed out once, and what was sent last is what remains.
pub proof fn lemma_queue_fifo<X>(queued: Seq<X>, sent: Seq<X>)
    ensures
        (queued + sent).take(queued.len() as int) == queued,
        (queued + sent).skip(queued.len() as int) == sent,
{
    assert((queued + sent).take(queued.len() as int) =~= queued);
    assert((queued + sent).skip(queued.len() as int) =~= sent);
}

/// A channel of jobs for workers: the messages it holds, oldest first, and
/// counters of what went through it, the jobs counted by its
/// [`ChannelStatus`] and the orders to stop on their own.
#[verifier::reject_recursive_types(T)]
pub struct JobChannel<T> {
    queue: Queue<MessageKind<T>>,
    status: ChannelStatus,
    releases: Ghost<ReleaseCounts>,
}

impl<T> View for JobChannel<T> {
    type V = ChannelCounts;

    closed spec fn view(&self) -> ChannelCounts {
        self.status@
    }
}

impl<T> JobChannel<T> {
    /// The messages in the channel, oldest first.
    pub closed spec fn queue(&self) -> Seq<MessageKind<T>> {
        self.queue.contents()
    }

    /// The orders to stop put into and taken out of the channel.
    pub closed spec fn releases(&self) -> ReleaseCounts {
        self.releases@
    }

    /// An empty channel with every counter at zero.
    pub fn new() -> (channel: Self)
        ensures
            channel@ == (ChannelCounts {
                sent: 0,
                sending: 0,
                received: 0,
                receiving: 0,
                concluded: 0,
            }),
            channel.releases() == (ReleaseCounts { sent: 0, taken: 0 }),
            channel.queue() == Seq::<MessageKind<T>>::empty(),
    {
        let queue: Queue<MessageKind<T>> = Queue::new();
        let status: ChannelStatus = ChannelStatus::new();
        JobChannel { queue, status, releases: Ghost(ReleaseCounts { sent: 0, taken: 0 }) }
    }

    pub fn status(&self) -> (status: &ChannelStatus)
        ensures
            status@ == self@,
    {
        &self.status
    }

    /// Sends a job: it joins the back of the channel and counts as sent.
    /// The send does not fail, since the channel's receiver is held here.
    pub fn send(&mut self, value: T) -> (r: Result<(), ChannelSendError<MessageKind<T>>>)
        ensures
            r is Ok,
            final(self).queue() == old(self).queue().push(MessageKind::Job(value)),
            final(self)@ == old(self)@.after_send(),
            final(self).releases() == old(self).releases(),
    {
        proof {
            lemma_bracket(self.status@);
        }
        self.status.add_sending();
        let message: MessageKind<T> = MessageKind::Job(value);
        let result = self.queue.send(message);
        self.status.sub_sending();
        match result {
            Ok(()) => {
                self.status.add_sent();
                Ok(())
            },
            Err(message) => Err(ChannelSendError(message)),
        }
    }

    /// Sends a job, retrying a failed send until `timeout` has passed. A
    /// send on this channel does not fail (its receiver is held here), so
    /// the first send succeeds, and the time limit never comes into play:
    /// the effect is that of [`JobChannel::send`].
    pub fn send_timeout(&mut self, value: T, timeout: Duration) -> (r: Result<(), ChannelSendError<MessageKind<T>>>)
        ensures
            r is Ok,
            final(self).queue() == old(self).queue().push(MessageKind::Job(value)),
            final(self)@ == old(self)@.after_send(),
            final(self).releases() == old(self).releases(),
    {
        self.send(value)
    }

    /// Sends the order to stop: it joins the back of the channel and counts
    /// as one more order to stop. The job counters do not change: a release
    /// is no job.
    pub fn send_release(&mut self) -> (r: Result<(), ChannelSendError<MessageKind<T>>>)
        ensures
            r is Ok,
            final(self).queue() == old(self).queue().push(MessageKind::Release),
            final(self)@ == old(self)@,
            final(self).releases() == old(self).releases().after_send(),
    {
        let message: MessageKind<T> = MessageKind::Release;
        match self.queue.send(message) {
            Ok(()) => {
                proof {
                    self.releases@ = self.releases@.after_send();
                }
                Ok(())
            },
            Err(message) => Err(ChannelSendError(message)),
        }
    }

    /// Takes the oldest message out of a channel that holds one. A job
    /// counts as received, an order to stop as taken. On an empty channel
    /// it would wait forever, since nothing else can send on it.
    pub fn recv(&mut self) -> (r: Result<MessageKind<T>, ChannelRecvError>)
        requires
            old(self).queue().len() > 0,
        ensures
            r == Ok::<MessageKind<T>, ChannelRecvError>(old(self).queue()[0]),
            final(self).queue() == old(self).queue().drop_first(),
            final(self)@ == old(self)@.after_receive(old(self).queue()[0].is_job()),
            final(self).releases() == old(self).releases().after_take(!old(self).queue()[0].is_job()),
    {
        proof {
            lemma_bracket(self.status@);
        }
        self.status.add_receiving();
        match self.queue.recv() {
            Ok(message) => {
                self.on_message_receive(&message);
                Ok(message)
            },
            Err(_) => {
                self.status.sub_receiving();
                Err(ChannelRecvError)
            },
        }
    }

    /// Takes the oldest message out of the channel if there is one (a job
    /// counts as received, an order to stop as taken). On an empty channel
    /// it fails, reported as `Disconnected`, and nothing changes.
    pub fn try_recv(&mut self) -> (r: Result<MessageKind<T>, ChannelTryRecvError>)
        ensures
            old(self).queue().len() > 0 ==> {
                &&& r == Ok::<MessageKind<T>, ChannelTryRecvError>(old(self).queue()[0])
                &&& final(self).queue() == old(self).queue().drop_first()
                &&& final(self)@ == old(self)@.after_receive(old(self).queue()[0].is_job())
                &&& final(self).releases() == old(self).releases().after_take(!old(self).queue()[0].is_job())
            },
            old(self).queue().len() == 0 ==> {
                &&& r == Err::<MessageKind<T>, ChannelTryRecvError>(ChannelTryRecvError::Disconnected)
                &&& final(self).queue() == old(self).queue()
                &&& final(self)@ == old(self)@
                &&& final(self).releases() == old(self).releases()
            },
    {
        proof {
            lemma_bracket(self.status@);
        }
        self.status.add_receiving();
        match self.queue.try_recv() {
            Ok(message) => {
                self.on_message_receive(&message);
                Ok(message)
            },
            Err(_) => {
                self.status.sub_receiving();
                Err(ChannelTryRecvError::Disconnected)
            },
        }
    }

    /// Takes the oldest message out of the channel if there is one (a job
    /// counts as received, an order to stop as taken), waiting at most
    /// `timeout` for it. On an empty channel it fails at once, reported as
    /// `Disconnected`, and nothing changes: nothing else can send on the
    /// channel, so no wait could bring a message.
    pub fn recv_timeout(&mut self, timeout: Duration) -> (r: Result<MessageKind<T>, ChannelRecvTimeoutError>)
        ensures
            old(self).queue().len() > 0 ==> {
                &&& r == Ok::<MessageKind<T>, ChannelRecvTimeoutError>(old(self).queue()[0])
                &&& final(self).queue() == old(self).queue().drop_first()
                &&& final(self)@ == old(self)@.after_receive(old(self).queue()[0].is_job())
                &&& final(self).releases() == old(self).releases().after_take(!old(self).queue()[0].is_job())
            },
            old(self).queue().len() == 0 ==> {
                &&& r == Err::<MessageKind<T>, ChannelRecvTimeoutError>(ChannelRecvTimeoutError::Disconnected)
                &&& final(self).queue() == old(self).queue()
                &&& final(self)@ == old(self)@
                &&& final(self).releases() == old(self).releases()
            },
    {
        if self.queue.is_empty() {
            return Err(ChannelRecvTimeoutError::Disconnected);
        }
        proof {
            lemma_bracket(self.status@);
        }
        self.status.add_receiving();
        match self.queue.recv_timeout(timeout) {
            Ok(message) => {
                self.on_message_receive(&message);
                Ok(message)
            },
            Err(_) => {
                self.status.sub_receiving();
                Err(ChannelRecvTimeoutError::Disconnected)
            },
        }
    }

    /// Every job sent through the channel has been concluded.
    pub fn is_finished(&self) -> (b: bool)
        ensures
            b == self@.finished(),
    {
        let status: &ChannelStatus = self.status();
        if status.concluded() != status.sent() {
            return false;
        }
        true
    }

    /// Counts one more job as concluded.
    pub fn add_concluded(&mut self)
        ensures
            final(self)@ == old(self)@.after_conclude(),
            final(self).queue() == old(self).queue(),
            final(self).releases() == old(self).releases(),
    {
        self.status.add_concluded();
    }

    /// Takes the orders to stop out of the channel and keeps its jobs, in
    /// their order. The job counters do not change; each order to stop
    /// taken out counts as taken.
    pub fn withdraw_releases(&mut self)
        ensures
            final(self).queue() == jobs_only(old(self).queue()),
            final(self)@ == old(self)@,
            final(self).releases() == (ReleaseCounts {
                taken: old(self).releases().taken + (old(self).queue().len() - job_count(old(self).queue())) as nat,
                ..old(self).releases()
            }),
    {
        proof {
            lemma_jobs_only_count(self.queue());
        }
        let ghost orig = self.queue();
        let mut kept: Vec<MessageKind<T>> = Vec::new();
        loop
            invariant
                self@ == old(self)@,
                self.releases() == old(self).releases(),
                orig == old(self).queue(),
                jobs_only(orig) == kept@ + jobs_only(self.queue()),
                job_count(orig) == kept@.len() + job_count(self.queue()),
                job_count(self.queue()) <= self.queue().len(),
            ensures
                self.queue().len() == 0,
            decreases self.queue().len(),
        {
            if self.queue.is_empty() {
                break;
            }
            let ghost q = self.queue();
            proof {
                lemma_jobs_only_count(q.drop_first());
            }
            match self.queue.try_recv() {
                Ok(message) => {
                    proof {
                        let head: Seq<MessageKind<T>> = if q[0].is_job() {
                            seq![q[0]]
                        } else {
                            Seq::empty()
                        };
                        assert(jobs_only(q) == head + jobs_only(q.drop_first()));
                        assert(kept@ + (head + jobs_only(q.drop_first())) =~= (kept@ + head) + jobs_only(q.drop_first()));
                    }
                    match message {
                        MessageKind::Job(job) => {
                            kept.push(MessageKind::Job(job));
                        },
                        MessageKind::Release => {},
                    }
                },
                Err(_) => {},
            }
        }
        proof {
            assert(jobs_only(self.queue()) =~= Seq::<MessageKind<T>>::empty());
            assert(kept@ =~= jobs_only(orig));
            self.releases@ = ReleaseCounts {
                taken: self.releases@.taken + (orig.len() - job_count(orig)) as nat,
                ..self.releases@
            };
        }
        let ghost all = kept@;
        while kept.len() > 0
            invariant
                self@ == old(self)@,
                all == jobs_only(orig),
                orig == old(self).queue(),
                self.queue() + kept@ == all,
                self.releases() == (ReleaseCounts {
                    taken: old(self).releases().taken + (orig.len() - job_count(orig)) as nat,
                    ..old(self).releases()
                }),
            decreases kept.len(),
        {
            let ghost before = self.queue();
            let ghost rest = kept@;
            let message = kept.remove(0);
            let _ = self.queue.send(message);
            proof {
                assert(self.queue() + kept@ =~= before + rest);
            }
        }
        proof {
            assert(self.queue() =~= self.queue() + kept@);
        }
    }

    /// Drops every message left in the channel, oldest first: each job
    /// counts as received, each order to stop as taken. The channel ends
    /// empty.
    pub fn clear(&mut self)
        ensures
            final(self).queue().len() == 0,
            final(self)@ == drained_counts(old(self)@, old(self).queue()),
            final(self).releases() == drained_releases(old(self).releases(), old(self).queue()),
    {
        loop
            invariant
                drained_counts(self@, self.queue()) == drained_counts(old(self)@, old(self).queue()),
                drained_releases(self.releases(), self.queue()) == drained_releases(old(self).releases(), old(self).queue()),
            ensures
                self.queue().len() == 0,
            decreases self.queue().len(),
        {
            match self.try_recv() {
                Ok(_) => {},
                Err(_) => {
                    break;
                },
            }
        }
    }

    fn on_message_receive(&mut self, message: &MessageKind<T>)
        ensures
            final(self)@ == (ChannelCounts {
                receiving: count_down(old(self)@.receiving),
                ..old(self)@.after_receive(message.is_job())
            }),
            final(self).releases() == old(self).releases().after_take(!message.is_job()),
            final(self).queue() == old(self).queue(),
    {
        match message {
            MessageKind::Job(_) => self.status.add_received(),
            MessageKind::Release => {
                proof {
                    self.releases@ = self.releases@.after_take(true);
                }
            },
        }
        self.status.sub_receiving();
    }
}

/// A channel of job results: the results it holds, oldest first, and
/// counters of what went through it.
#[verifier::reject_recursive_types(T)]
pub struct ResultChannel<T> {
    queue: Queue<T>,
    status: ChannelStatus,
}

impl<T> View for ResultChannel<T> {
    type V = ChannelCounts;

    closed spec fn view(&self) -> ChannelCounts {
        self.status@
    }
}

impl<T> ResultChannel<T> {
    /// The results in the channel, oldest first.
    pub closed spec fn queue(&self) -> Seq<T> {
        self.queue.contents()
    }

    /// An empty channel with every counter at zero.
    pub fn new() -> (channel: Self)
        ensures
            channel@ == (ChannelCounts {
                sent: 0,
                sending: 0,
                received: 0,
                receiving: 0,
                concluded: 0,
            }),
            channel.queue() == Seq::<T>::empty(),
    {
        let queue: Queue<T> = Queue::new();
        let status: ChannelStatus = ChannelStatus::new();
        ResultChannel { queue, status }
    }

    pub fn status(&self) -> (status: &ChannelStatus)
        ensures
            status@ == self@,
    {
        &self.status
    }

    /// Sends a result: it joins the back of the channel and counts as sent.
    /// The send does not fail, since the channel's receiver is held here.
    pub fn send(&mut self, value: T) -> (r: Result<(), ChannelSendError<T>>)
        ensures
            r is Ok,
            final(self).queue() == old(self).queue().push(value),
            final(self)@ == old(self)@.after_send(),
    {
        proof {
            lemma_bracket(self.status@);
        }
        self.status.add_sending();
        let result = self.queue.send(value);
        self.status.sub_sending();
        match result {
            Ok(()) => {
                self.status.add_sent();
                Ok(())
            },
            Err(value) => Err(ChannelSendError(value)),
        }
    }

    /// Sends a result, retrying a failed send until `timeout` has passed. A
    /// send on this channel does not fail (its receiver is held here), so
    /// the first send succeeds, and the time limit never comes into play:
    /// the effect is that of [`ResultChannel::send`].
    pub fn send_timeout(&mut self, value: T, timeout: Duration) -> (r: Result<(), ChannelSendError<T>>)
        ensures
            r is Ok,
            final(self).queue() == old(self).queue().push(value),
            final(self)@ == old(self)@.after_send(),
    {
        self.send(value)
    }

    /// Takes the oldest result out of a channel that holds one; it counts as
    /// received. On an empty channel it would wait forever, since nothing
    /// else can send on it.
    pub fn recv(&mut self) -> (r: Result<T, ChannelRecvError>)
        requires
            old(self).queue().len() > 0,
        ensures
            r == Ok::<T, ChannelRecvError>(old(self).queue()[0]),
            final(self).queue() == old(self).queue().drop_first(),
            final(self)@ == old(self)@.after_receive(true),
    {
        proof {
            lemma_bracket(self.status@);
        }
        self.status.add_receiving();
        match self.queue.recv() {
            Ok(result) => {
                self.on_result_receive();
                Ok(result)
            },
            Err(_) => {
                self.status.sub_receiving();
                Err(ChannelRecvError)
            },
        }
    }

    /// Takes the oldest result out of the channel if there is one; it
    /// counts as received. On an empty channel it fails, reported as
    /// `Disconnected`, and nothing changes.
    pub fn try_recv(&mut self) -> (r: Result<T, ChannelTryRecvError>)
        ensures
            old(self).queue().len() > 0 ==> {
                &&& r == Ok::<T, ChannelTryRecvError>(old(self).queue()[0])
                &&& final(self).queue() == old(self).queue().drop_first()
                &&& final(self)@ == old(self)@.after_receive(true)
            },
            old(self).queue().len() == 0 ==> {
                &&& r == Err::<T, ChannelTryRecvError>(ChannelTryRecvError::Disconnected)
                &&& final(self).queue() == old(self).queue()
                &&& final(self)@ == old(self)@
            },
    {
        proof {
            lemma_bracket(self.status@);
        }
        self.status.add_receiving();
        match self.queue.try_recv() {
            Ok(result) => {
                self.on_result_receive();
                Ok(result)
            },
            Err(_) => {
                self.status.sub_receiving();
                Err(ChannelTryRecvError::Disconnected)
            },
        }
    }

    /// Takes the oldest result out of the channel if there is one; it
    /// counts as received. On an empty channel it fails at once, reported
    /// as `Disconnected`, and nothing changes: nothing else can send on the
    /// channel, so no wait could bring a result.
    pub fn recv_timeout(&mut self, timeout: Duration) -> (r: Result<T, ChannelRecvTimeoutError>)
        ensures
            old(self).queue().len() > 0 ==> {
                &&& r == Ok::<T, ChannelRecvTimeoutError>(old(self).queue()[0])
                &&& final(self).queue() == old(self).queue().drop_first()
                &&& final(self)@ == old(self)@.after_receive(true)
            },
            old(self).queue().len() == 0 ==> {
                &&& r == Err::<T, ChannelRecvTimeoutError>(ChannelRecvTimeoutError::Disconnected)
                &&& final(self).queue() == old(self).queue()
                &&& final(self)@ == old(self)@
            },
    {
        if self.queue.is_empty() {
            return Err(ChannelRecvTimeoutError::Disconnected);
        }
        proof {
            lemma_bracket(self.status@);
        }
        self.status.add_receiving();
        match self.queue.recv_timeout(timeout) {
            Ok(result) => {
                self.on_result_receive();
                Ok(result)
            },
            Err(_) => {
                self.status.sub_receiving();
                Err(ChannelRecvTimeoutError::Disconnected)
            },
        }
    }

    /// Every result sent through the channel has been concluded.
    pub fn is_finished(&self) -> (b: bool)
        ensures
            b == self@.finished(),
    {
        let status: &ChannelStatus = self.status();
        if status.concluded() != status.sent() {
            return false;
        }
        true
    }

    /// Counts one more result as concluded.
    pub fn add_concluded(&mut self)
        ensures
            final(self)@ == old(self)@.after_conclude(),
            final(self).queue() == old(self).queue(),
    {
        self.status.add_concluded();
    }

    /// Drops every result left in the channel; each counts as received. The
    /// channel ends empty.
    pub fn clear(&mut self)
        ensures
            final(self).queue().len() == 0,
            final(self)@ == drained_results(old(self)@, old(self).queue().len()),
    {
        loop
            invariant
                drained_results(self@, self.queue().len()) == drained_results(old(self)@, old(self).queue().len()),
            ensures
                self.queue().len() == 0,
            decreases self.queue().len(),
        {
            match self.try_recv() {
                Ok(_) => {},
                Err(_) => {
                    break;
                },
            }
        }
    }

    fn on_result_receive(&mut self)
        ensures
            final(self)@ == (ChannelCounts {
                receiving: count_down(old(self)@.receiving),
                ..old(self)@.after_receive(true)
            }),
            final(self).queue() == old(self).queue(),
    {
        self.status.add_received();
        self.status.sub_receiving();
    }
}

} // verus!
