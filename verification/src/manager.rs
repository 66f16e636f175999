use crate::channel::{drained_counts, drained_releases, job_count, jobs_only, lemma_job_count_push, lemma_job_count_releases, lemma_jobs_only_count, ChannelSendError, JobChannel, MessageKind, ReleaseCounts, ResultChannel};
use crate::dispatch::{next_dispatch_id, DispatchCycle, DispatchView};
use crate::status::{count_up, ChannelCounts, ManagerCounts, ManagerStatus, WorkerFlags, WorkerStatus};
use crate::worker::{after_complete, after_poll, after_start, lemma_start_idempotent, counts_follow, event_for, queue_after_poll, shift_count, Worker, WorkerEvent, WorkerView};
use crate::wpc::wpc_divides;
use vstd::prelude::*;

verus! {

/// The number of workers of `ws` whose flags satisfy `flag`.
pub open spec fn count_flagged(ws: Seq<WorkerView>, flag: spec_fn(WorkerFlags) -> bool) -> nat
    decreases ws.len(),
{
    if ws.len() == 0 {
        0
    } else {
        count_flagged(ws.drop_last(), flag) + if flag(ws.last().flags) {
            1nat
        } else {
            0nat
        }
    }
}

pub open spec fn active_flag() -> spec_fn(WorkerFlags) -> bool {
    |f: WorkerFlags| f.active
}

pub open spec fn waiting_flag() -> spec_fn(WorkerFlags) -> bool {
    |f: WorkerFlags| f.waiting
}

pub open spec fn busy_flag() -> spec_fn(WorkerFlags) -> bool {
    |f: WorkerFlags| f.busy
}

proof fn lemma_count_bounded(ws: Seq<WorkerView>, flag: spec_fn(WorkerFlags) -> bool)
    ensures
        count_flagged(ws, flag) <= ws.len(),
    decreases ws.len(),
{
    if ws.len() > 0 {
        lemma_count_bounded(ws.drop_last(), flag);
    }
}

proof fn lemma_count_push(ws: Seq<WorkerView>, w: WorkerView, flag: spec_fn(WorkerFlags) -> bool)
    ensures
        count_flagged(ws.push(w), flag) == count_flagged(ws, flag) + if flag(w.flags) {
            1nat
        } else {
            0nat
        },
{
    assert(ws.push(w).drop_last() =~= ws);
}

proof fn lemma_count_update(ws: Seq<WorkerView>, i: int, w: WorkerView, flag: spec_fn(WorkerFlags) -> bool)
    requires
        0 <= i < ws.len(),
    ensures
        count_flagged(ws.update(i, w), flag) + (if flag(ws[i].flags) { 1nat } else { 0nat })
            == count_flagged(ws, flag) + (if flag(w.flags) { 1nat } else { 0nat }),
    decreases ws.len(),
{
    let u = ws.update(i, w);
    if i == ws.len() - 1 {
        assert(u.drop_last() =~= ws.drop_last());
    } else {
        assert(u.drop_last() =~= ws.drop_last().update(i, w));
        lemma_count_update(ws.drop_last(), i, w, flag);
    }
}

/// A pool's counter that counts `count` of its workers follows a change of
/// one worker's flag from `before` to `after`.
proof fn lemma_shift_tracks(x: usize, count: nat, before: bool, after: bool, len: nat)
    requires
        x == count,
        count <= len,
        len <= usize::MAX,
        before ==> count >= 1,
        !before ==> count < len,
    ensures
        shift_count(x, before, after) as int == count - (if before { 1int } else { 0 }) + (if after { 1int } else { 0 }),
{
}

proof fn lemma_count_at(ws: Seq<WorkerView>, i: int, flag: spec_fn(WorkerFlags) -> bool)
    requires
        0 <= i < ws.len(),
    ensures
        flag(ws[i].flags) ==> count_flagged(ws, flag) >= 1,
        !flag(ws[i].flags) ==> count_flagged(ws, flag) < ws.len(),
    decreases ws.len(),
{
    lemma_count_bounded(ws.drop_last(), flag);
    if i < ws.len() - 1 {
        lemma_count_at(ws.drop_last(), i, flag);
    }
}

/// When one worker's flags change, a pool counter that counted the workers
/// with a flag, and follows the change, still counts them.
proof fn lemma_follow_update(ws: Seq<WorkerView>, m: ManagerCounts, i: int, w: WorkerView)
    requires
        0 <= i < ws.len(),
        ws.len() <= usize::MAX,
        m.active == count_flagged(ws, active_flag()),
        m.waiting == count_flagged(ws, waiting_flag()),
        m.busy == count_flagged(ws, busy_flag()),
    ensures
        ({
            let m2 = counts_follow(m, ws[i].flags, w.flags);
            let u = ws.update(i, w);
            &&& m2.active == count_flagged(u, active_flag())
            &&& m2.waiting == count_flagged(u, waiting_flag())
            &&& m2.busy == count_flagged(u, busy_flag())
        }),
{
    lemma_count_update(ws, i, w, active_flag());
    lemma_count_update(ws, i, w, waiting_flag());
    lemma_count_update(ws, i, w, busy_flag());
    lemma_count_at(ws, i, active_flag());
    lemma_count_at(ws, i, waiting_flag());
    lemma_count_at(ws, i, busy_flag());
    lemma_count_bounded(ws, active_flag());
    lemma_count_bounded(ws, waiting_flag());
    lemma_count_bounded(ws, busy_flag());
    lemma_shift_tracks(m.active, count_flagged(ws, active_flag()), ws[i].flags.active, w.flags.active, ws.len());
    lemma_shift_tracks(m.waiting, count_flagged(ws, waiting_flag()), ws[i].flags.waiting, w.flags.waiting, ws.len());
    lemma_shift_tracks(m.busy, count_flagged(ws, busy_flag()), ws[i].flags.busy, w.flags.busy, ws.len());
}

/// A counter moved up is the counter plus one, modulo `usize::MAX + 1`.
proof fn lemma_count_up_mod(x: usize)
    ensures
        count_up(x) as int == (x as int + 1) % (usize::MAX as int + 1),
{
    let m = usize::MAX as int + 1;
    if x == usize::MAX {
        vstd::arithmetic::div_mod::lemma_mod_self_0(m);
    } else {
        vstd::arithmetic::div_mod::lemma_small_mod((x + 1) as nat, m as nat);
    }
}

/// When `sent` counts `received` plus `len` waiting results, one more sent
/// result keeps the count.
proof fn lemma_results_push(received: usize, sent: usize, len: nat)
    requires
        sent as int == (received as int + len) % (usize::MAX as int + 1),
    ensures
        count_up(sent) as int == (received as int + (len + 1)) % (usize::MAX as int + 1),
{
    let m = usize::MAX as int + 1;
    lemma_count_up_mod(sent);
    vstd::arithmetic::div_mod::lemma_add_mod_noop(received as int + len, 1, m);
    vstd::arithmetic::div_mod::lemma_small_mod(1, m as nat);
    vstd::arithmetic::div_mod::lemma_mod_twice(received as int + len, m);
}

/// When `sent` counts `received` plus `len` waiting results, taking one of
/// them keeps the count.
proof fn lemma_results_pop(received: usize, sent: usize, len: nat)
    requires
        len > 0,
        sent as int == (received as int + len) % (usize::MAX as int + 1),
    ensures
        sent as int == (count_up(received) as int + (len - 1)) % (usize::MAX as int + 1),
{
    let m = usize::MAX as int + 1;
    lemma_count_up_mod(received);
    vstd::arithmetic::div_mod::lemma_add_mod_noop(received as int + 1, len - 1, m);
    vstd::arithmetic::div_mod::lemma_mod_twice(received as int + 1, m);
    vstd::arithmetic::div_mod::lemma_add_mod_noop(received as int + 1, len - 1, m);
    assert((received as int + 1) % m + (len - 1) % m == (count_up(received) as int) + (len - 1) % m);
    vstd::arithmetic::div_mod::lemma_add_mod_noop(count_up(received) as int, len - 1, m);
    vstd::arithmetic::div_mod::lemma_small_mod(count_up(received) as nat, m as nat);
}

/// When `sent` counts `received` plus `len` waiting results and differs
/// from `received`, some result is waiting.
proof fn lemma_results_waiting(received: usize, sent: usize, len: nat)
    requires
        sent as int == (received as int + len) % (usize::MAX as int + 1),
        sent != received,
    ensures
        len > 0,
{
    if len == 0 {
        vstd::arithmetic::div_mod::lemma_small_mod(received as nat, (usize::MAX + 1) as nat);
    }
}

/// A job channel's counters follow its queue: no send is under way, and
/// the jobs sent are the jobs received plus the jobs waiting (counted as a
/// `usize` counts, modulo `usize::MAX + 1`).
pub open spec fn job_balance<F>(c: ChannelCounts, q: Seq<MessageKind<F>>) -> bool {
    &&& c.sending == 0
    &&& c.sent as int == (c.received as int + job_count(q)) % (usize::MAX as int + 1)
}

/// Taking a message out of a balanced channel keeps it balanced.
proof fn lemma_balance_take<F>(c: ChannelCounts, q: Seq<MessageKind<F>>)
    requires
        job_balance(c, q),
        q.len() > 0,
    ensures
        job_balance(c.after_receive(q[0].is_job()), q.drop_first()),
{
    if q[0].is_job() {
        lemma_results_pop(c.received, c.sent, job_count(q));
    }
}

/// A message joining the back of a balanced channel, counted as sent when
/// it is a job, keeps it balanced.
proof fn lemma_balance_push<F>(c: ChannelCounts, q: Seq<MessageKind<F>>, m: MessageKind<F>)
    requires
        job_balance(c, q),
    ensures
        job_balance(if m.is_job() { c.after_send() } else { c }, q.push(m)),
{
    lemma_job_count_push(q, m);
    if m.is_job() {
        lemma_results_push(c.received, c.sent, job_count(q));
    }
}

/// Draining a balanced channel leaves it balanced and empty: every job
/// sent has been received.
proof fn lemma_balance_drain<F>(c: ChannelCounts, q: Seq<MessageKind<F>>)
    requires
        job_balance(c, q),
    ensures
        job_balance(drained_counts(c, q), Seq::<MessageKind<F>>::empty()),
    decreases q.len(),
{
    if q.len() > 0 {
        lemma_balance_take(c, q);
        lemma_balance_drain(c.after_receive(q[0].is_job()), q.drop_first());
    } else {
        assert(q =~= Seq::<MessageKind<F>>::empty());
    }
}

/// As long as the counters have not wrapped around, a balanced channel
/// counts exactly the jobs in its queue: the jobs sent are the jobs received
/// plus the jobs waiting, so no more were received than sent, and the
/// pending count (what `job_queue` adds up) is the number of jobs waiting.
pub proof fn lemma_balance_exact<F>(c: ChannelCounts, q: Seq<MessageKind<F>>)
    requires
        job_balance(c, q),
        c.received + job_count(q) <= usize::MAX,
    ensures
        c.sent == c.received + job_count(q),
        c.received <= c.sent,
        c.pending() == job_count(q),
        c.available() == job_count(q),
{
    vstd::arithmetic::div_mod::lemma_small_mod((c.received + job_count(q)) as nat, (usize::MAX + 1) as nat);
}

/// A worker that waits for a job or runs one is active, and it does not do
/// both at once.
pub open spec fn worker_flags_wf(f: WorkerFlags) -> bool {
    &&& f.busy ==> f.active
    &&& f.waiting ==> f.active
    &&& !(f.busy && f.waiting)
}

proof fn lemma_busy_waiting_active(ws: Seq<WorkerView>)
    requires
        forall|i: int| 0 <= i < ws.len() ==> #[trigger] worker_flags_wf(ws[i].flags),
    ensures
        count_flagged(ws, busy_flag()) + count_flagged(ws, waiting_flag()) <= count_flagged(ws, active_flag()),
    decreases ws.len(),
{
    if ws.len() > 0 {
        let init = ws.drop_last();
        assert forall|i: int| 0 <= i < init.len() implies #[trigger] worker_flags_wf(init[i].flags) by {
            assert(init[i] == ws[i]);
        }
        assert(worker_flags_wf(ws[ws.len() - 1].flags));
        lemma_busy_waiting_active(init);
    }
}

/// In a well-formed pool the busy workers and the waiting ones together are
/// no more than the active ones.
pub proof fn lemma_busy_plus_waiting_at_most_active(pool: PoolView)
    requires
        pool.wf(),
    ensures
        pool.counts.busy + pool.counts.waiting <= pool.counts.active,
{
    lemma_busy_waiting_active(pool.workers);
}

/// The sum of `weight` over the workers of `ws` that take their jobs from
/// channel `c`, `wpc` workers to a channel.
pub open spec fn sum_on(ws: Seq<WorkerView>, wpc: nat, c: int, weight: spec_fn(WorkerView) -> int) -> int
    decreases ws.len(),
{
    if ws.len() == 0 {
        0
    } else {
        sum_on(ws.drop_last(), wpc, c, weight) + if ws.last().id as nat / wpc == c {
            weight(ws.last())
        } else {
            0
        }
    }
}

/// One for a busy worker.
pub open spec fn busy_weight() -> spec_fn(WorkerView) -> int {
    |w: WorkerView| if w.flags.busy { 1int } else { 0int }
}

/// The jobs a worker has taken.
pub open spec fn received_weight() -> spec_fn(WorkerView) -> int {
    |w: WorkerView| w.flags.received as int
}

proof fn lemma_sum_on_push(ws: Seq<WorkerView>, wpc: nat, c: int, weight: spec_fn(WorkerView) -> int, w: WorkerView)
    ensures
        sum_on(ws.push(w), wpc, c, weight) == sum_on(ws, wpc, c, weight) + if w.id as nat / wpc == c {
            weight(w)
        } else {
            0
        },
{
    assert(ws.push(w).drop_last() =~= ws);
}

proof fn lemma_sum_on_update(ws: Seq<WorkerView>, wpc: nat, c: int, weight: spec_fn(WorkerView) -> int, i: int, w: WorkerView)
    requires
        0 <= i < ws.len(),
        w.id == ws[i].id,
    ensures
        sum_on(ws.update(i, w), wpc, c, weight) == sum_on(ws, wpc, c, weight) + if w.id as nat / wpc == c {
            weight(w) - weight(ws[i])
        } else {
            0
        },
    decreases ws.len(),
{
    let u = ws.update(i, w);
    if i == ws.len() - 1 {
        assert(u.drop_last() =~= ws.drop_last());
    } else {
        assert(u.drop_last() =~= ws.drop_last().update(i, w));
        lemma_sum_on_update(ws.drop_last(), wpc, c, weight, i, w);
    }
}

/// The counters of job channel `c` follow its workers: the jobs received
/// are the jobs concluded, plus one for each of its busy workers, plus the
/// jobs dropped by clearing; and they are the jobs its workers have taken
/// plus the jobs dropped (all counted as a `usize` counts, modulo
/// `usize::MAX + 1`).
pub open spec fn channel_tally(pool: PoolView, c: int) -> bool {
    let ch = pool.channels[c];
    let m = usize::MAX as int + 1;
    &&& ch.received as int == (ch.concluded as int + sum_on(pool.workers, pool.wpc, c, busy_weight()) + pool.dropped[c]) % m
    &&& ch.received as int == (sum_on(pool.workers, pool.wpc, c, received_weight()) + pool.dropped[c]) % m
}

proof fn lemma_sum_on_same(
    ws: Seq<WorkerView>,
    vs: Seq<WorkerView>,
    wpc: nat,
    c: int,
    weight: spec_fn(WorkerView) -> int,
)
    requires
        ws.len() == vs.len(),
        forall|i: int| 0 <= i < ws.len() ==> #[trigger] ws[i].id == vs[i].id && weight(ws[i]) == weight(vs[i]),
    ensures
        sum_on(ws, wpc, c, weight) == sum_on(vs, wpc, c, weight),
    decreases ws.len(),
{
    if ws.len() > 0 {
        let (wi, vi) = (ws.drop_last(), vs.drop_last());
        assert forall|i: int| 0 <= i < wi.len() implies #[trigger] wi[i].id == vi[i].id && weight(wi[i]) == weight(vi[i]) by {
            assert(wi[i] == ws[i] && vi[i] == vs[i]);
        }
        assert(ws[ws.len() - 1].id == vs[vs.len() - 1].id);
        lemma_sum_on_same(wi, vi, wpc, c, weight);
    }
}

proof fn lemma_sum_on_absent(ws: Seq<WorkerView>, wpc: nat, c: int, weight: spec_fn(WorkerView) -> int)
    requires
        forall|i: int| 0 <= i < ws.len() ==> (#[trigger] ws[i]).id as nat / wpc != c,
    ensures
        sum_on(ws, wpc, c, weight) == 0,
    decreases ws.len(),
{
    if ws.len() > 0 {
        let wi = ws.drop_last();
        assert forall|i: int| 0 <= i < wi.len() implies (#[trigger] wi[i]).id as nat / wpc != c by {
            assert(wi[i] == ws[i]);
        }
        assert(ws[ws.len() - 1].id as nat / wpc != c);
        lemma_sum_on_absent(wi, wpc, c, weight);
    }
}

/// The tally of the channels only looks at the workers' numbers, busy
/// flags and taken jobs, at the channels' received and concluded counters,
/// and at the dropped jobs: a pool that agrees on those keeps it.
proof fn lemma_tally_frame(a: PoolView, b: PoolView)
    requires
        a.tally_wf(),
        b.wpc == a.wpc,
        b.dropped == a.dropped,
        b.channels.len() == a.channels.len(),
        forall|c: int| 0 <= c < a.channels.len() ==> {
            &&& (#[trigger] b.channels[c]).received == a.channels[c].received
            &&& b.channels[c].concluded == a.channels[c].concluded
        },
        b.workers.len() == a.workers.len(),
        forall|i: int| 0 <= i < a.workers.len() ==> {
            &&& (#[trigger] b.workers[i]).id == a.workers[i].id
            &&& b.workers[i].flags.busy == a.workers[i].flags.busy
            &&& b.workers[i].flags.received == a.workers[i].flags.received
        },
    ensures
        b.tally_wf(),
{
    assert forall|c: int| 0 <= c < b.channels.len() implies #[trigger] channel_tally(b, c) by {
        assert(channel_tally(a, c));
        assert forall|i: int| 0 <= i < b.workers.len() implies #[trigger] b.workers[i].id == a.workers[i].id
            && busy_weight()(b.workers[i]) == busy_weight()(a.workers[i]) by {}
        assert forall|i: int| 0 <= i < b.workers.len() implies #[trigger] b.workers[i].id == a.workers[i].id
            && received_weight()(b.workers[i]) == received_weight()(a.workers[i]) by {}
        lemma_sum_on_same(b.workers, a.workers, a.wpc, c, busy_weight());
        lemma_sum_on_same(b.workers, a.workers, a.wpc, c, received_weight());
    }
}

/// A counter moved up is one more, modulo `usize::MAX + 1`.
proof fn lemma_count_up_shift(x: int, v: usize)
    ensures
        (x + count_up(v) - v) % (usize::MAX as int + 1) == (x + 1) % (usize::MAX as int + 1),
{
    let m = usize::MAX as int + 1;
    if v == usize::MAX {
        vstd::arithmetic::div_mod::lemma_mod_add_multiples_vanish(x + 1 - m, m);
    }
}

/// Worker `i` of `a` changes its busy flag and taken jobs by `db` and `dr`
/// (the latter as a `usize` counter moved up, or not), and its channel's
/// counters change to match: the tally still holds.
proof fn lemma_tally_worker_step(a: PoolView, b: PoolView, i: int, took: bool, done: bool)
    requires
        a.wf(),
        0 <= i < a.workers.len(),
        b.wpc == a.wpc,
        b.dropped == a.dropped,
        b.workers == a.workers.update(i, b.workers[i]),
        b.workers[i].id == a.workers[i].id,
        b.channels.len() == a.channels.len(),
        !(took && done),
        took ==> !a.workers[i].flags.busy && b.workers[i].flags.busy
            && b.workers[i].flags.received == count_up(a.workers[i].flags.received),
        done ==> a.workers[i].flags.busy && !b.workers[i].flags.busy
            && b.workers[i].flags.received == a.workers[i].flags.received,
        !took && !done ==> b.workers[i].flags.busy == a.workers[i].flags.busy
            && b.workers[i].flags.received == a.workers[i].flags.received,
        forall|c: int| 0 <= c < a.channels.len() && c != a.channel_of(i as nat) ==> #[trigger] b.channels[c] == a.channels[c],
        ({
            let c = a.channel_of(i as nat) as int;
            &&& b.channels[c].received == if took { count_up(a.channels[c].received) } else { a.channels[c].received }
            &&& b.channels[c].concluded == if done { count_up(a.channels[c].concluded) } else { a.channels[c].concluded }
        }),
    ensures
        b.tally_wf(),
{
    let m = usize::MAX as int + 1;
    let ci = a.channel_of(i as nat) as int;
    lemma_worker_channel_in_range(a, i as nat);
    assert(a.workers[i].id == i);
    assert forall|c: int| 0 <= c < b.channels.len() implies #[trigger] channel_tally(b, c) by {
        assert(channel_tally(a, c));
        lemma_sum_on_update(a.workers, a.wpc, c, busy_weight(), i, b.workers[i]);
        lemma_sum_on_update(a.workers, a.wpc, c, received_weight(), i, b.workers[i]);
        assert(b.workers == a.workers.update(i, b.workers[i]));
        if c == ci {
            let ch = a.channels[c];
            let sb = sum_on(a.workers, a.wpc, c, busy_weight());
            let sr = sum_on(a.workers, a.wpc, c, received_weight());
            let d = a.dropped[c];
            if took {
                lemma_count_up_shift(ch.concluded + sb + d, ch.received);
                lemma_count_up_mod(ch.received);
                vstd::arithmetic::div_mod::lemma_add_mod_noop(ch.concluded + sb + d, 1, m);
                vstd::arithmetic::div_mod::lemma_add_mod_noop(sr + d, 1, m);
                vstd::arithmetic::div_mod::lemma_small_mod(1, m as nat);
                vstd::arithmetic::div_mod::lemma_mod_twice(ch.concluded + sb + d, m);
                vstd::arithmetic::div_mod::lemma_mod_twice(sr + d, m);
                lemma_count_up_shift(sr + d, a.workers[i].flags.received);
            } else if done {
                lemma_count_up_shift(ch.concluded + sb - 1 + d, ch.concluded);
            }
        }
    }
}

/// Adding to a number reduced modulo `m` and reducing again is adding to
/// the number itself.
proof fn lemma_mod_add_reduced(x: int, y: int, m: int)
    requires
        m > 0,
    ensures
        (x % m + y) % m == (x + y) % m,
{
    vstd::arithmetic::div_mod::lemma_add_mod_noop(x, y, m);
    vstd::arithmetic::div_mod::lemma_add_mod_noop(x % m, y, m);
    vstd::arithmetic::div_mod::lemma_mod_twice(x, m);
}

/// Draining a queue counts each of its jobs as received, modulo
/// `usize::MAX + 1`, and concludes nothing.
proof fn lemma_drain_received<F>(c: ChannelCounts, q: Seq<MessageKind<F>>)
    ensures
        drained_counts(c, q).received as int == (c.received as int + job_count(q)) % (usize::MAX as int + 1),
        drained_counts(c, q).concluded == c.concluded,
    decreases q.len(),
{
    let m = usize::MAX as int + 1;
    if q.len() > 0 {
        let took = q[0].is_job();
        let c1 = c.after_receive(took);
        lemma_drain_received(c1, q.drop_first());
        let j: int = if took { 1 } else { 0 };
        if took {
            lemma_count_up_mod(c.received);
        } else {
            vstd::arithmetic::div_mod::lemma_small_mod(c.received as nat, m as nat);
        }
        assert(c1.received as int == (c.received as int + j) % m);
        lemma_mod_add_reduced(c.received as int + j, job_count(q.drop_first()) as int, m);
    } else {
        vstd::arithmetic::div_mod::lemma_small_mod(c.received as nat, m as nat);
    }
}

/// Draining channel `ci` (its jobs counted as received and as dropped)
/// keeps the tally.
proof fn lemma_tally_drain<F>(a: PoolView, b: PoolView, ci: int, q: Seq<MessageKind<F>>)
    requires
        a.tally_wf(),
        a.dropped.len() == a.channels.len(),
        0 <= ci < a.channels.len(),
        b.wpc == a.wpc,
        b.workers == a.workers,
        b.channels == a.channels.update(ci, drained_counts(a.channels[ci], q)),
        b.dropped == a.dropped.update(ci, a.dropped[ci] + job_count(q)),
    ensures
        b.tally_wf(),
{
    let m = usize::MAX as int + 1;
    assert forall|c: int| 0 <= c < b.channels.len() implies #[trigger] channel_tally(b, c) by {
        assert(channel_tally(a, c));
        if c == ci {
            let ch = a.channels[c];
            let sb = sum_on(a.workers, a.wpc, c, busy_weight());
            let sr = sum_on(a.workers, a.wpc, c, received_weight());
            let d = a.dropped[c];
            let j = job_count(q) as int;
            lemma_drain_received(ch, q);
            lemma_mod_add_reduced(ch.concluded + sb + d, j, m);
            lemma_mod_add_reduced(sr + d, j, m);
        }
    }
}

/// Abstract state of a [`ThreadManagerCore`].
pub ghost struct PoolView {
    pub wpc: nat,
    pub dispatch: DispatchView,
    pub workers: Seq<WorkerView>,
    pub channels: Seq<ChannelCounts>,
    /// The orders to stop put into and taken out of each channel.
    pub releases: Seq<ReleaseCounts>,
    /// The jobs dropped from each channel by clearing it, never run.
    pub dropped: Seq<nat>,
    pub results: ChannelCounts,
    pub counts: ManagerCounts,
}

impl PoolView {
    /// The channel worker `id` takes its jobs from.
    pub open spec fn channel_of(self, id: nat) -> nat {
        id / self.wpc
    }

    /// Workers are laid out over channels, `wpc` to a channel, and each
    /// worker knows its own number.
    pub open spec fn layout_wf(self) -> bool {
        &&& self.wpc > 0
        &&& self.workers.len() == self.channels.len() * self.wpc
        &&& self.releases.len() == self.channels.len()
        &&& self.dropped.len() == self.channels.len()
        &&& forall|i: int| 0 <= i < self.workers.len() ==> #[trigger] self.workers[i].id == i
    }

    /// The pool's counters count exactly the active, waiting and busy workers.
    pub open spec fn counts_wf(self) -> bool {
        &&& self.workers.len() <= usize::MAX
        &&& self.counts.active == count_flagged(self.workers, active_flag())
        &&& self.counts.waiting == count_flagged(self.workers, waiting_flag())
        &&& self.counts.busy == count_flagged(self.workers, busy_flag())
    }

    /// The dispatch cycle runs over existing workers and points at one of them.
    pub open spec fn dispatch_wf(self) -> bool {
        &&& self.dispatch.size <= self.workers.len()
        &&& self.dispatch.size == 0 ==> self.dispatch.id == 0
        &&& self.dispatch.size > 0 ==> self.dispatch.id < self.dispatch.size
    }

    /// A worker that waits for a job or runs one is active, and it does not
    /// do both at once.
    pub open spec fn flags_wf(self) -> bool {
        forall|i: int| 0 <= i < self.workers.len() ==> #[trigger] worker_flags_wf(self.workers[i].flags)
    }

    /// Every channel's counters follow its workers (see [`channel_tally`]).
    pub open spec fn tally_wf(self) -> bool {
        forall|c: int| 0 <= c < self.channels.len() ==> #[trigger] channel_tally(self, c)
    }

    pub open spec fn wf(self) -> bool {
        &&& self.layout_wf()
        &&& self.counts_wf()
        &&& self.dispatch_wf()
        &&& self.flags_wf()
        &&& self.tally_wf()
    }

    /// No job is pending on any channel: every job sent has been concluded.
    pub open spec fn all_finished(self) -> bool {
        forall|c: int| 0 <= c < self.channels.len() ==> #[trigger] self.channels[c].finished()
    }

    /// Some worker's channel holds a job that is not concluded.
    pub open spec fn some_worker_has_jobs(self) -> bool {
        exists|i: int|
            0 <= i < self.workers.len() && !(#[trigger] self.channels[self.channel_of(i as nat) as int]).finished()
    }

    /// Some result has been sent and not concluded.
    pub open spec fn has_results(self) -> bool {
        !self.results.finished()
    }
}

/// A job that could not be sent to a worker, with the worker's number.
#[derive(Debug)]
pub struct WorkerSendError<F> {
    pub worker: usize,
    pub error: ChannelSendError<MessageKind<F>>,
}

/// Where [`ThreadManagerCore::execute`] sent a job.
#[derive(Debug, Clone, Copy)]
pub struct Dispatched {
    /// The worker whose channel took the job.
    pub worker: usize,
    /// Whether a thread has to be started for that worker.
    pub spawn: bool,
}

/// The state of a pool of workers, without the threads: the job channels,
/// the result channel, the workers' bookkeeping, the dispatch cycle that
/// picks the worker of each job, and the pool's counters.
///
/// The functions that would start a thread return whether one must be
/// started; the caller starts it and runs the worker loop, which calls
/// [`poll_worker`] and [`complete_job`].
///
/// [`poll_worker`]: ThreadManagerCore::poll_worker
/// [`complete_job`]: ThreadManagerCore::complete_job
#[verifier::reject_recursive_types(F)]
#[verifier::reject_recursive_types(T)]
pub struct ThreadManagerCore<F, T> {
    wpc: usize,
    dispatch: DispatchCycle,
    workers: Vec<Worker>,
    channels: Vec<JobChannel<F>>,
    result_channel: ResultChannel<T>,
    manager_status: ManagerStatus,
    dropped: Ghost<Seq<nat>>,
}

impl<F, T> View for ThreadManagerCore<F, T> {
    type V = PoolView;

    closed spec fn view(&self) -> PoolView {
        PoolView {
            wpc: self.wpc as nat,
            dispatch: self.dispatch@,
            workers: self.workers@.map_values(|w: Worker| w@),
            channels: self.channels@.map_values(|c: JobChannel<F>| c@),
            releases: self.channels@.map_values(|c: JobChannel<F>| c.releases()),
            results: self.result_channel@,
            counts: self.manager_status@,
            dropped: self.dropped@,
        }
    }
}

impl<F, T> ThreadManagerCore<F, T> {
    /// The messages in each job channel, oldest first.
    pub closed spec fn queues(&self) -> Seq<Seq<MessageKind<F>>> {
        self.channels@.map_values(|c: JobChannel<F>| c.queue())
    }

    /// The results in the result channel, oldest first.
    pub closed spec fn result_queue(&self) -> Seq<T> {
        self.result_channel.queue()
    }

    /// The result channel's counters follow its queue: every result taken
    /// has been concluded, no send is under way, and the results sent are
    /// the results received plus the ones waiting (counted as a `usize`
    /// counts, modulo `usize::MAX + 1`).
    pub closed spec fn results_wf(&self) -> bool {
        let r = self.result_channel@;
        &&& r.concluded == r.received
        &&& r.sending == 0
        &&& r.sent as int == (r.received as int + self.result_channel.queue().len()) % (usize::MAX as int + 1)
    }

    /// The pool is well formed (see [`PoolView::wf`]), it has a queue for
    /// each channel, and its result counters follow the result queue.
    pub open spec fn valid(&self) -> bool {
        &&& self@.wf()
        &&& self.queues().len() == self@.channels.len()
        &&& self.results_wf()
        &&& forall|c: int| 0 <= c < self@.channels.len() ==> #[trigger] job_balance(self@.channels[c], self.queues()[c])
    }
}

impl<F, T> ThreadManagerCore<F, T> {
    /// A pool of `size` workers, one to a channel, all started. A thread
    /// has to be started for each of them.
    pub fn new(size: usize) -> (manager: Self)
        ensures
            manager.valid(),
            manager@.wpc == 1,
            manager@.dispatch == (DispatchView { id: 0, size: size as nat }),
            Self::fresh_pool(manager@, size as nat),
            forall|c: int| 0 <= c < manager@.channels.len() ==> #[trigger] manager.queues()[c].len() == 0,
            manager.result_queue().len() == 0,
    {
        Self::with_layout(size, 1)
    }

    /// A pool of `size` workers, `wpc` to a channel, all started. A thread
    /// has to be started for each of them.
    pub fn new_asymmetric(size: usize, wpc: usize) -> (manager: Self)
        requires
            wpc_divides(size as nat, wpc as nat),
        ensures
            manager.valid(),
            manager@.wpc == wpc,
            manager@.dispatch == (DispatchView { id: 0, size: size as nat }),
            Self::fresh_pool(manager@, size as nat),
            forall|c: int| 0 <= c < manager@.channels.len() ==> #[trigger] manager.queues()[c].len() == 0,
            manager.result_queue().len() == 0,
    {
        crate::wpc::assert_wpc(size, wpc);
        Self::with_layout(size, wpc)
    }

    /// `size` started workers that have not done anything yet, untouched
    /// channels, and no result.
    pub open spec fn fresh_pool(pool: PoolView, size: nat) -> bool {
        &&& pool.workers.len() == size
        &&& forall|i: int| 0 <= i < size ==> #[trigger] pool.workers[i] == (WorkerView {
            id: i as usize,
            terminating: false,
            flags: WorkerFlags { active: true, waiting: false, busy: false, received: 0 },
        })
        &&& forall|c: int| 0 <= c < pool.channels.len() ==> #[trigger] pool.channels[c] == (ChannelCounts {
            sent: 0,
            sending: 0,
            received: 0,
            receiving: 0,
            concluded: 0,
        })
        &&& forall|c: int| 0 <= c < pool.releases.len() ==> #[trigger] pool.releases[c] == (ReleaseCounts { sent: 0, taken: 0 })
        &&& pool.results == (ChannelCounts { sent: 0, sending: 0, received: 0, receiving: 0, concluded: 0 })
    }

    fn with_layout(size: usize, wpc: usize) -> (manager: Self)
        requires
            wpc_divides(size as nat, wpc as nat),
        ensures
            manager.valid(),
            manager@.wpc == wpc,
            manager@.dispatch == (DispatchView { id: 0, size: size as nat }),
            Self::fresh_pool(manager@, size as nat),
            forall|c: int| 0 <= c < manager@.channels.len() ==> #[trigger] manager.queues()[c].len() == 0,
            manager.result_queue().len() == 0,
    {
        let dispatch: DispatchCycle = DispatchCycle::new(size);
        let workers: Vec<Worker> = Vec::with_capacity(size);
        let channels: Vec<JobChannel<F>> = Vec::with_capacity(size);
        let result_channel: ResultChannel<T> = ResultChannel::new();
        let manager_status: ManagerStatus = ManagerStatus::new();
        let mut manager = ThreadManagerCore {
            wpc,
            dispatch,
            workers,
            channels,
            result_channel,
            manager_status,
            dropped: Ghost(Seq::empty()),
        };
        proof {
            assert(manager.workers@.map_values(|w: Worker| w@) =~= Seq::<WorkerView>::empty());
            assert(manager.channels@.map_values(|c: JobChannel<F>| c@) =~= Seq::<ChannelCounts>::empty());
            assert(0 == 0 * wpc);
        }
        proof {
            assert(manager.channels@.map_values(|c: JobChannel<F>| c.queue()) =~= Seq::<Seq<MessageKind<F>>>::empty());
            vstd::arithmetic::div_mod::lemma_small_mod(0, usize::MAX as nat + 1);
        }
        manager.create_workers(size);
        manager
    }

    proof fn lemma_views_push_worker(ws: Seq<Worker>, w: Worker)
        ensures
            ws.push(w).map_values(|x: Worker| x@) == ws.map_values(|x: Worker| x@).push(w@),
    {
        assert(ws.push(w).map_values(|x: Worker| x@) =~= ws.map_values(|x: Worker| x@).push(w@));
    }

    proof fn lemma_views_push_channel(cs: Seq<JobChannel<F>>, c: JobChannel<F>)
        ensures
            cs.push(c).map_values(|x: JobChannel<F>| x@) == cs.map_values(|x: JobChannel<F>| x@).push(c@),
            cs.push(c).map_values(|x: JobChannel<F>| x.releases()) == cs.map_values(|x: JobChannel<F>| x.releases()).push(c.releases()),
            cs.push(c).map_values(|x: JobChannel<F>| x.queue()) == cs.map_values(|x: JobChannel<F>| x.queue()).push(c.queue()),
    {
        assert(cs.push(c).map_values(|x: JobChannel<F>| x.queue()) =~= cs.map_values(
            |x: JobChannel<F>| x.queue(),
        ).push(c.queue()));
        assert(cs.push(c).map_values(|x: JobChannel<F>| x@) =~= cs.map_values(|x: JobChannel<F>| x@).push(c@));
        assert(cs.push(c).map_values(|x: JobChannel<F>| x.releases()) =~= cs.map_values(
            |x: JobChannel<F>| x.releases(),
        ).push(c.releases()));
    }

    /// Adds `size / wpc` untouched channels.
    fn create_channels(&mut self, size: usize)
        requires
            old(self)@.wpc > 0,
        ensures
            final(self)@ == (PoolView {
                channels: final(self)@.channels,
                releases: final(self)@.releases,
                dropped: final(self)@.dropped,
                ..old(self)@
            }),
            final(self)@.dropped == old(self)@.dropped + Seq::new((final(self)@.channels.len() - old(self)@.channels.len()) as nat, |i: int| 0nat),
            final(self)@.channels.len() == old(self)@.channels.len() + size as nat / old(self)@.wpc,
            final(self)@.releases.len() == final(self)@.channels.len(),
            forall|c: int| 0 <= c < old(self)@.channels.len() ==> #[trigger] final(self)@.releases[c] == old(self)@.releases[c],
            forall|c: int| old(self)@.channels.len() <= c < final(self)@.channels.len() ==> #[trigger] final(self)@.releases[c] == (ReleaseCounts { sent: 0, taken: 0 }),

            forall|c: int| 0 <= c < old(self)@.channels.len() ==> #[trigger] final(self)@.channels[c] == old(self)@.channels[c],
            forall|c: int| old(self)@.channels.len() <= c < final(self)@.channels.len() ==> #[trigger] final(self)@.channels[c] == (ChannelCounts {
                sent: 0,
                sending: 0,
                received: 0,
                receiving: 0,
                concluded: 0,
            }),
            final(self).queues().len() == final(self)@.channels.len(),
            forall|c: int| 0 <= c < old(self)@.channels.len() ==> #[trigger] final(self).queues()[c] == old(self).queues()[c],
            forall|c: int| old(self)@.channels.len() <= c < final(self)@.channels.len() ==> #[trigger] final(self).queues()[c].len() == 0,
            final(self).result_queue() == old(self).result_queue(),
            old(self).results_wf() ==> final(self).results_wf(),
    {
        let count: usize = size / self.wpc;
        for _i in 0..count
            invariant
                self@ == (PoolView { channels: self@.channels, releases: self@.releases, dropped: self@.dropped, ..old(self)@ }),
                self@.dropped == old(self)@.dropped + Seq::new(_i as nat, |i: int| 0nat),
                self@.channels.len() == old(self)@.channels.len() + _i,
                self@.releases.len() == self@.channels.len(),
                forall|c: int| 0 <= c < old(self)@.channels.len() ==> #[trigger] self@.releases[c] == old(self)@.releases[c],
                forall|c: int| old(self)@.channels.len() <= c < self@.channels.len() ==> #[trigger] self@.releases[c] == (ReleaseCounts { sent: 0, taken: 0 }),

                forall|c: int| 0 <= c < old(self)@.channels.len() ==> #[trigger] self@.channels[c] == old(self)@.channels[c],
                forall|c: int| old(self)@.channels.len() <= c < self@.channels.len() ==> #[trigger] self@.channels[c] == (ChannelCounts {
                    sent: 0,
                    sending: 0,
                    received: 0,
                    receiving: 0,
                    concluded: 0,
                }),
                self.queues().len() == self@.channels.len(),
                forall|c: int| 0 <= c < old(self)@.channels.len() ==> #[trigger] self.queues()[c] == old(self).queues()[c],
                forall|c: int| old(self)@.channels.len() <= c < self@.channels.len() ==> #[trigger] self.queues()[c].len() == 0,
                self.result_queue() == old(self).result_queue(),
                old(self).results_wf() ==> self.results_wf(),
        {
            let channel: JobChannel<F> = JobChannel::new();
            proof {
                Self::lemma_views_push_channel(self.channels@, channel);
            }
            self.channels.push(channel);
            proof {
                self.dropped@ = self.dropped@.push(0);
                assert(self@.dropped =~= old(self)@.dropped + Seq::new((_i + 1) as nat, |i: int| 0nat));
            }
        }
    }

    /// Adds `size` workers, with the channels they take jobs from, and
    /// starts them all. A thread has to be started for each new worker.
    fn create_workers(&mut self, size: usize)
        requires
            old(self)@.layout_wf(),
            old(self)@.counts_wf(),
            old(self)@.flags_wf(),
            old(self)@.tally_wf(),
            size as nat % old(self)@.wpc == 0,
            old(self)@.workers.len() + size <= usize::MAX,
        ensures
            final(self)@.layout_wf(),
            final(self)@.counts_wf(),
            final(self)@.wpc == old(self)@.wpc,
            final(self)@.dispatch == old(self)@.dispatch,
            final(self)@.results == old(self)@.results,
            final(self)@.workers.len() == old(self)@.workers.len() + size,
            forall|i: int| 0 <= i < old(self)@.workers.len() ==> #[trigger] final(self)@.workers[i] == old(self)@.workers[i],
            forall|i: int| old(self)@.workers.len() <= i < final(self)@.workers.len() ==> #[trigger] final(self)@.workers[i] == (WorkerView {
                id: i as usize,
                terminating: false,
                flags: WorkerFlags { active: true, waiting: false, busy: false, received: 0 },
            }),
            forall|c: int| 0 <= c < old(self)@.channels.len() ==> #[trigger] final(self)@.channels[c] == old(self)@.channels[c],
            forall|c: int| old(self)@.channels.len() <= c < final(self)@.channels.len() ==> #[trigger] final(self)@.channels[c] == (ChannelCounts {
                sent: 0,
                sending: 0,
                received: 0,
                receiving: 0,
                concluded: 0,
            }),
            forall|c: int| 0 <= c < old(self)@.channels.len() ==> #[trigger] final(self)@.releases[c] == old(self)@.releases[c],
            forall|c: int| old(self)@.channels.len() <= c < final(self)@.channels.len() ==> #[trigger] final(self)@.releases[c] == (ReleaseCounts { sent: 0, taken: 0 }),
            final(self).queues().len() == final(self)@.channels.len(),
            forall|c: int| 0 <= c < old(self)@.channels.len() ==> #[trigger] final(self).queues()[c] == old(self).queues()[c],
            forall|c: int| old(self)@.channels.len() <= c < final(self)@.channels.len() ==> #[trigger] final(self).queues()[c].len() == 0,
            final(self).result_queue() == old(self).result_queue(),
            old(self).results_wf() ==> final(self).results_wf(),
            final(self)@.dropped == old(self)@.dropped + Seq::new((final(self)@.channels.len() - old(self)@.channels.len()) as nat, |i: int| 0nat),
            final(self)@.flags_wf(),
            final(self)@.tally_wf(),
    {
        let ghost wpc = self@.wpc;
        let ghost c0 = self@.channels.len();
        self.create_channels(size);
        proof {
            let k = size as nat / wpc;
            let c1 = self@.channels.len();
            assert(size as nat == k * wpc) by (nonlinear_arith)
                requires size as nat % wpc == 0, wpc > 0, k == size as nat / wpc;
            assert(c1 * wpc == c0 * wpc + k * wpc) by (nonlinear_arith)
                requires c1 == c0 + k;
            let ws = self@.workers;
            assert forall|c: int| 0 <= c < self@.channels.len() implies #[trigger] channel_tally(self@, c) by {
                if c < c0 {
                    assert(channel_tally(old(self)@, c));
                } else {
                    assert forall|i: int| 0 <= i < ws.len() implies (#[trigger] ws[i]).id as nat / wpc != c by {
                        lemma_worker_channel_in_range(old(self)@, i as nat);
                    }
                    lemma_sum_on_absent(ws, wpc, c, busy_weight());
                    lemma_sum_on_absent(ws, wpc, c, received_weight());
                    vstd::arithmetic::div_mod::lemma_small_mod(0, (usize::MAX + 1) as nat);
                }
            }
        }
        let worker_size: usize = self.workers.len();
        for idx in 0..size
            invariant
                wpc > 0,
                self@.wpc == wpc,
                self@.dispatch == old(self)@.dispatch,
                self@.results == old(self)@.results,
                self@.channels.len() * wpc == worker_size + size,
                worker_size == old(self)@.workers.len(),
                worker_size + size <= usize::MAX,
                self@.workers.len() == worker_size + idx,
                forall|i: int| 0 <= i < self@.workers.len() ==> #[trigger] self@.workers[i].id == i,
                self@.counts_wf(),
                forall|i: int| 0 <= i < worker_size ==> #[trigger] self@.workers[i] == old(self)@.workers[i],
                forall|i: int| worker_size <= i < self@.workers.len() ==> #[trigger] self@.workers[i] == (WorkerView {
                    id: i as usize,
                    terminating: false,
                    flags: WorkerFlags { active: true, waiting: false, busy: false, received: 0 },
                }),
                forall|c: int| 0 <= c < old(self)@.channels.len() ==> #[trigger] self@.channels[c] == old(self)@.channels[c],
                forall|c: int| old(self)@.channels.len() <= c < self@.channels.len() ==> #[trigger] self@.channels[c] == (ChannelCounts {
                    sent: 0,
                    sending: 0,
                    received: 0,
                    receiving: 0,
                    concluded: 0,
                }),
                self@.releases.len() == self@.channels.len(),
                forall|c: int| 0 <= c < old(self)@.channels.len() ==> #[trigger] self@.releases[c] == old(self)@.releases[c],
                forall|c: int| old(self)@.channels.len() <= c < self@.channels.len() ==> #[trigger] self@.releases[c] == (ReleaseCounts { sent: 0, taken: 0 }),
                self.queues().len() == self@.channels.len(),
                forall|c: int| 0 <= c < old(self)@.channels.len() ==> #[trigger] self.queues()[c] == old(self).queues()[c],
                forall|c: int| old(self)@.channels.len() <= c < self@.channels.len() ==> #[trigger] self.queues()[c].len() == 0,
                self.result_queue() == old(self).result_queue(),
                old(self).results_wf() ==> self.results_wf(),
                self@.dropped == old(self)@.dropped + Seq::new((self@.channels.len() - old(self)@.channels.len()) as nat, |i: int| 0nat),
                old(self)@.dropped.len() == old(self)@.channels.len(),
                self@.channels.len() >= old(self)@.channels.len(),
                self@.tally_wf(),
                self@.flags_wf(),
                old(self)@.flags_wf(),
        {
            let id: usize = idx + worker_size;
            let mut worker: Worker = Worker::new(id);
            let ghost s0 = self@;
            let ghost ws0 = self@.workers;
            let ghost m0 = self@.counts;
            proof {
                lemma_count_bounded(ws0, active_flag());
                lemma_count_bounded(ws0, waiting_flag());
                lemma_count_bounded(ws0, busy_flag());
            }
            worker.start(&mut self.manager_status);
            proof {
                Self::lemma_views_push_worker(self.workers@, worker);
                lemma_count_push(ws0, worker@, active_flag());
                lemma_count_push(ws0, worker@, waiting_flag());
                lemma_count_push(ws0, worker@, busy_flag());
            }
            let ghost prev = self@;
            self.workers.push(worker);
            proof {
                assert forall|c: int| 0 <= c < self@.channels.len() implies #[trigger] channel_tally(self@, c) by {
                    assert(channel_tally(s0, c));
                    lemma_sum_on_push(ws0, wpc, c, busy_weight(), worker@);
                    lemma_sum_on_push(ws0, wpc, c, received_weight(), worker@);
                }
                assert forall|i: int| 0 <= i < self@.workers.len() implies #[trigger] worker_flags_wf(self@.workers[i].flags) by {
                    if i < ws0.len() {
                        assert(worker_flags_wf(s0.workers[i].flags));
                    }
                }
            }
        }
    }
}

/// Every worker takes its jobs from one of the pool's channels.
pub proof fn lemma_worker_channel_in_range(pool: PoolView, id: nat)
    requires
        pool.layout_wf(),
        id < pool.workers.len(),
    ensures
        pool.channel_of(id) < pool.channels.len(),
{
    let c = pool.channels.len();
    let w = pool.wpc;
    assert(id / w < c) by (nonlinear_arith)
        requires id < c * w, w > 0;
}

impl<F, T> ThreadManagerCore<F, T> {
    proof fn lemma_views_update_worker(ws: Seq<Worker>, i: int, w: Worker)
        requires
            0 <= i < ws.len(),
        ensures
            ws.update(i, w).map_values(|x: Worker| x@) == ws.map_values(|x: Worker| x@).update(i, w@),
    {
        assert(ws.update(i, w).map_values(|x: Worker| x@) =~= ws.map_values(|x: Worker| x@).update(i, w@));
    }

    proof fn lemma_views_update_channel(cs: Seq<JobChannel<F>>, i: int, c: JobChannel<F>)
        requires
            0 <= i < cs.len(),
        ensures
            cs.update(i, c).map_values(|x: JobChannel<F>| x@) == cs.map_values(|x: JobChannel<F>| x@).update(i, c@),
            cs.update(i, c).map_values(|x: JobChannel<F>| x.releases()) == cs.map_values(|x: JobChannel<F>| x.releases()).update(i, c.releases()),
            cs.update(i, c).map_values(|x: JobChannel<F>| x.queue()) == cs.map_values(|x: JobChannel<F>| x.queue()).update(i, c.queue()),
    {
        assert(cs.update(i, c).map_values(|x: JobChannel<F>| x.queue()) =~= cs.map_values(
            |x: JobChannel<F>| x.queue(),
        ).update(i, c.queue()));
        assert(cs.update(i, c).map_values(|x: JobChannel<F>| x@) =~= cs.map_values(|x: JobChannel<F>| x@).update(i, c@));
        assert(cs.update(i, c).map_values(|x: JobChannel<F>| x.releases()) =~= cs.map_values(
            |x: JobChannel<F>| x.releases(),
        ).update(i, c.releases()));
    }

    /// Starts worker `id` unless it is active already. Returns whether a
    /// thread has to be started for it.
    pub fn start(&mut self, id: usize) -> (spawn: bool)
        requires
            old(self).valid(),
            id < old(self)@.workers.len(),
        ensures
            final(self).valid(),
            spawn == !old(self)@.workers[id as int].flags.active,
            final(self)@ == (PoolView {
                workers: old(self)@.workers.update(id as int, after_start(old(self)@.workers[id as int])),
                counts: final(self)@.counts,
                ..old(self)@
            }),
            final(self).queues() == old(self).queues(),
            final(self).result_queue() == old(self).result_queue(),
    {
        let ghost ws = self@.workers;
        let ghost m = self@.counts;
        let ghost before = self.workers@;
        let spawn = self.workers[id].start(&mut self.manager_status);
        proof {
            Self::lemma_views_update_worker(before, id as int, self.workers@[id as int]);
            assert(self.workers@ == before.update(id as int, self.workers@[id as int]));
            lemma_follow_update(ws, m, id as int, self.workers@[id as int]@);
            assert(worker_flags_wf(ws[id as int].flags));
            assert forall|i: int| 0 <= i < self@.workers.len() implies #[trigger] worker_flags_wf(self@.workers[i].flags) by {
                assert(worker_flags_wf(ws[i].flags));
            }
            lemma_tally_frame(old(self)@, self@);
        }
        spawn
    }

    /// Sends a job to the next worker of the dispatch cycle: the job joins
    /// the back of that worker's channel, and the worker is started unless
    /// it is active. The send does not fail.
    pub fn execute(&mut self, job: F) -> (r: Result<Dispatched, WorkerSendError<F>>)
        requires
            old(self).valid(),
            old(self)@.dispatch.size >= 1,
        ensures
            final(self).valid(),
            ({
                let pool = old(self)@;
                let id = pool.dispatch.id;
                let c = pool.channel_of(id) as int;
                &&& id < pool.workers.len()
                &&& r matches Ok(d) && d.worker == id && d.spawn == !pool.workers[id as int].flags.active
                &&& final(self)@ == (PoolView {
                    dispatch: DispatchView { id: next_dispatch_id(id, pool.dispatch.size), size: pool.dispatch.size },
                    workers: pool.workers.update(id as int, after_start(pool.workers[id as int])),
                    channels: pool.channels.update(c, pool.channels[c].after_send()),
                    counts: final(self)@.counts,
                    ..pool
                })
                &&& final(self).queues() == old(self).queues().update(c, old(self).queues()[c].push(MessageKind::Job(job)))
                &&& final(self).result_queue() == old(self).result_queue()
            }),
    {
        proof {
            lemma_worker_channel_in_range(self@, self@.dispatch.id);
        }
        let id: usize = self.dispatch.fetch_and_update();
        let channel_id: usize = id / self.wpc;
        let ghost before = self.channels@;
        match self.channels[channel_id].send(job) {
            Ok(()) => {
                proof {
                    Self::lemma_views_update_channel(before, channel_id as int, self.channels@[channel_id as int]);
                    assert(self.channels@ == before.update(channel_id as int, self.channels@[channel_id as int]));
                    assert(self@.releases =~= old(self)@.releases);
                    let ci = channel_id as int;
                    assert forall|k: int| 0 <= k < self@.channels.len() implies #[trigger] job_balance(self@.channels[k], self.queues()[k]) by {
                        assert(job_balance(old(self)@.channels[k], old(self).queues()[k]));
                        if k == ci {
                            lemma_balance_push(old(self)@.channels[k], old(self).queues()[k], MessageKind::Job(job));
                        }
                    }
                    lemma_tally_frame(old(self)@, self@);
                }
                let spawn: bool = self.start(id);
                Ok(Dispatched { worker: id, spawn })
            },
            Err(error) => Err(WorkerSendError { worker: id, error }),
        }
    }
}

impl<F, T> ThreadManagerCore<F, T> {
    /// One turn of the loop of worker `id` (see [`Worker::poll`]): it looks
    /// at its channel and tells whether to run a job, look again later, or
    /// stop.
    pub fn poll_worker(&mut self, id: usize) -> (event: WorkerEvent<F>)
        requires
            old(self).valid(),
            id < old(self)@.workers.len(),
            old(self)@.workers[id as int].flags.active,
            !old(self)@.workers[id as int].flags.busy,
        ensures
            final(self).valid(),
            ({
                let pool = old(self)@;
                let w = pool.workers[id as int];
                let c = pool.channel_of(id as nat) as int;
                &&& final(self)@ == (PoolView {
                    workers: pool.workers.update(id as int, after_poll(w, event)),
                    channels: final(self)@.channels,
                    releases: final(self)@.releases,
                    counts: final(self)@.counts,
                    ..pool
                })
                &&& final(self).result_queue() == old(self).result_queue()
                &&& w.terminating ==> {
                    &&& event is Stop
                    &&& final(self)@.channels == pool.channels
                    &&& final(self)@.releases == pool.releases
                    &&& final(self).queues() == old(self).queues()
                }
                &&& !w.terminating ==> {
                    &&& event == event_for(old(self).queues()[c])
                    &&& final(self).queues() == old(self).queues().update(c, queue_after_poll(old(self).queues()[c]))
                    &&& final(self)@.channels == pool.channels.update(c, pool.channels[c].after_receive(event is Job))
                    &&& final(self)@.releases == pool.releases.update(c, pool.releases[c].after_take(event is Stop))
                }
            }),
    {
        proof {
            lemma_worker_channel_in_range(self@, id as nat);
        }
        let ghost ws = self@.workers;
        let ghost m = self@.counts;
        let ghost workers_before = self.workers@;
        let ghost channels_before = self.channels@;
        let channel_id: usize = id / self.wpc;
        let event = self.workers[id].poll(&mut self.manager_status, &mut self.channels[channel_id]);
        proof {
            Self::lemma_views_update_worker(workers_before, id as int, self.workers@[id as int]);
            assert(self.workers@ == workers_before.update(id as int, self.workers@[id as int]));
            Self::lemma_views_update_channel(channels_before, channel_id as int, self.channels@[channel_id as int]);
            assert(self.channels@ == channels_before.update(channel_id as int, self.channels@[channel_id as int]));
            lemma_follow_update(ws, m, id as int, self.workers@[id as int]@);
            if ws[id as int].terminating {
                assert(self@.channels =~= old(self)@.channels);
                assert(self@.releases =~= old(self)@.releases);
                assert(self.queues() =~= old(self).queues());
            }
            assert forall|i: int| 0 <= i < self@.workers.len() implies #[trigger] worker_flags_wf(self@.workers[i].flags) by {
                assert(worker_flags_wf(ws[i].flags));
            }
            let ci = channel_id as int;
            assert forall|k: int| 0 <= k < self@.channels.len() implies #[trigger] job_balance(self@.channels[k], self.queues()[k]) by {
                assert(job_balance(old(self)@.channels[k], old(self).queues()[k]));
                if k == ci && !ws[id as int].terminating && old(self).queues()[k].len() > 0 {
                    lemma_balance_take(old(self)@.channels[k], old(self).queues()[k]);
                }
            }
            assert(self@.workers == old(self)@.workers.update(id as int, self@.workers[id as int]));
            lemma_tally_worker_step(old(self)@, self@, id as int, event is Job, false);
        }
        event
    }

    /// Reports the result of the job worker `id` ran (see
    /// [`Worker::complete`]): the result joins the back of the result
    /// channel, the job counts as concluded on the worker's channel, and the
    /// worker is no longer busy. The send does not fail.
    pub fn complete_job(&mut self, id: usize, result: T) -> (r: Result<(), ChannelSendError<T>>)
        requires
            old(self).valid(),
            id < old(self)@.workers.len(),
            old(self)@.workers[id as int].flags.busy,
        ensures
            final(self).valid(),
            r is Ok,
            ({
                let pool = old(self)@;
                let c = pool.channel_of(id as nat) as int;
                &&& final(self)@ == (PoolView {
                    workers: pool.workers.update(id as int, after_complete(pool.workers[id as int])),
                    channels: pool.channels.update(c, pool.channels[c].after_conclude()),
                    results: pool.results.after_send(),
                    counts: final(self)@.counts,
                    ..pool
                })
                &&& final(self).queues() == old(self).queues()
                &&& final(self).result_queue() == old(self).result_queue().push(result)
            }),
    {
        proof {
            lemma_worker_channel_in_range(self@, id as nat);
        }
        let ghost ws = self@.workers;
        let ghost m = self@.counts;
        let ghost workers_before = self.workers@;
        let ghost channels_before = self.channels@;
        let ghost r0 = self.result_channel@;
        let ghost len0 = self.result_channel.queue().len();
        let channel_id: usize = id / self.wpc;
        let r = self.workers[id].complete(
            &mut self.manager_status,
            &mut self.channels[channel_id],
            &mut self.result_channel,
            result,
        );
        proof {
            Self::lemma_views_update_worker(workers_before, id as int, self.workers@[id as int]);
            assert(self.workers@ == workers_before.update(id as int, self.workers@[id as int]));
            Self::lemma_views_update_channel(channels_before, channel_id as int, self.channels@[channel_id as int]);
            assert(self.channels@ == channels_before.update(channel_id as int, self.channels@[channel_id as int]));
            lemma_follow_update(ws, m, id as int, self.workers@[id as int]@);
            assert(self@.releases =~= old(self)@.releases);
            assert(self.queues() =~= old(self).queues());
            lemma_results_push(r0.received, r0.sent, len0);
            assert forall|i: int| 0 <= i < self@.workers.len() implies #[trigger] worker_flags_wf(self@.workers[i].flags) by {
                assert(worker_flags_wf(ws[i].flags));
            }
            assert forall|k: int| 0 <= k < self@.channels.len() implies #[trigger] job_balance(self@.channels[k], self.queues()[k]) by {
                assert(job_balance(old(self)@.channels[k], old(self).queues()[k]));
            }
            assert(self@.workers == old(self)@.workers.update(id as int, self@.workers[id as int]));
            lemma_tally_worker_step(old(self)@, self@, id as int, false, true);
        }
        r
    }
}

/// `n` orders to stop in a row.
pub open spec fn release_run<F>(n: nat) -> Seq<MessageKind<F>> {
    Seq::new(n, |i: int| MessageKind::Release)
}

/// How many of the workers in `[st, en)` take their jobs from channel `c`,
/// `wpc` workers to a channel.
pub open spec fn releases_for(wpc: nat, st: nat, en: nat, c: int) -> nat
    decreases en - st,
{
    if en <= st {
        0
    } else {
        releases_for(wpc, st, (en - 1) as nat, c) + if ((en - 1) as nat) / wpc == c {
            1nat
        } else {
            0nat
        }
    }
}

/// The number of worker numbers `i` in `[st, en)` that lie in the block
/// `[c * wpc, (c + 1) * wpc)` of channel `c`: the overlap of the two ranges.
pub open spec fn overlap_with_channel(wpc: nat, st: nat, en: nat, c: int) -> nat {
    let lo = if st as int > c * wpc { st as int } else { c * wpc };
    let hi = if (en as int) < (c + 1) * wpc { en as int } else { (c + 1) * wpc };
    if hi > lo {
        (hi - lo) as nat
    } else {
        0
    }
}

/// Worker `i` takes its jobs from channel `c` exactly when `i` lies in the
/// block `[c * wpc, (c + 1) * wpc)`.
proof fn lemma_channel_block(wpc: nat, i: nat, c: int)
    requires
        wpc > 0,
    ensures
        (i / wpc == c) <==> (c * wpc <= i && i < (c + 1) * wpc),
{
    let w = wpc as int;
    assert((c + 1) * w == c * w + w) by (nonlinear_arith);
    vstd::arithmetic::div_mod::lemma_fundamental_div_mod(i as int, w);
    let q = i as int / w;
    assert(w * q == q * w) by (nonlinear_arith);
    if i / wpc == c {
        assert(c * w <= i && i < c * w + w);
    }
    if c * w <= i && i < c * w + w {
        vstd::arithmetic::div_mod::lemma_fundamental_div_mod_converse(i as int, w, c, i - c * w);
    }
}

proof fn lemma_releases_overlap(wpc: nat, st: nat, en: nat, c: int)
    requires
        wpc > 0,
    ensures
        releases_for(wpc, st, en, c) == overlap_with_channel(wpc, st, en, c),
    decreases en - st,
{
    let w = wpc as int;
    assert((c + 1) * w == c * w + w) by (nonlinear_arith);
    if en > st {
        let i = (en - 1) as nat;
        lemma_releases_overlap(wpc, st, i, c);
        lemma_channel_block(wpc, i, c);
    }
}

/// Telling the workers `[st, en)` to stop puts into channel `c` one order
/// to stop for each of those workers that takes its jobs from `c`: as many
/// as the range `[st, en)` shares with `c`'s block of `wpc` workers. So
/// telling every worker of a pool of `n` channels to stop (as joining
/// does) gives every channel `wpc` orders, one for each of its workers.
pub proof fn lemma_releases_reach_every_worker(wpc: nat, st: nat, en: nat, c: int, n: nat)
    requires
        wpc > 0,
    ensures
        releases_for(wpc, st, en, c) == overlap_with_channel(wpc, st, en, c),
        0 <= c < n ==> releases_for(wpc, 0, n * wpc, c) == wpc,
{
    let w = wpc as int;
    lemma_releases_overlap(wpc, st, en, c);
    if 0 <= c < n {
        assert((c + 1) * w == c * w + w) by (nonlinear_arith);
        assert(c * w >= 0) by (nonlinear_arith)
            requires c >= 0, w > 0;
        assert((c + 1) * w <= n * w) by (nonlinear_arith)
            requires c + 1 <= n, w > 0;
        lemma_releases_overlap(wpc, 0, n * wpc, c);
    }
}

/// The numbers, in increasing order, of the workers in `[st, en)` that are
/// not active.
pub open spec fn inactive_between(ws: Seq<WorkerView>, st: nat, en: nat) -> Seq<usize>
    decreases en - st,
{
    if en <= st {
        Seq::empty()
    } else {
        let prev = inactive_between(ws, st, (en - 1) as nat);
        if ws[en - 1].flags.active {
            prev
        } else {
            prev.push((en - 1) as usize)
        }
    }
}

/// The numbers `lo, lo + 1, ..., hi - 1`.
pub open spec fn id_range(lo: nat, hi: nat) -> Seq<usize> {
    Seq::new((hi - lo) as nat, |j: int| (lo + j) as usize)
}

/// A worker just created and started.
pub open spec fn fresh_worker(id: nat) -> WorkerView {
    WorkerView {
        id: id as usize,
        terminating: false,
        flags: WorkerFlags { active: true, waiting: false, busy: false, received: 0 },
    }
}

/// Worker `k` of `pool` once the pool has been resized to `size` workers:
/// the workers between the old dispatch size and `size` are started, and
/// the missing ones are created.
pub open spec fn resized_worker(pool: PoolView, size: nat, k: int) -> WorkerView {
    if k < pool.workers.len() {
        if pool.dispatch.size <= k < size {
            after_start(pool.workers[k])
        } else {
            pool.workers[k]
        }
    } else {
        fresh_worker(k as nat)
    }
}

/// The numbers of the workers for which a resize to `size` has to start a
/// thread: the inactive ones it restarts, then the ones it creates.
pub open spec fn resize_spawns(pool: PoolView, size: nat) -> Seq<usize> {
    let len = pool.workers.len();
    let restart_end = if size < len { size } else { len };
    inactive_between(pool.workers, pool.dispatch.size, restart_end) + if size > len {
        id_range(len, size)
    } else {
        Seq::empty()
    }
}

/// The workers listed by `inactive_between` are exactly the inactive ones
/// of `[st, en)`, in increasing order.
proof fn lemma_inactive_between(ws: Seq<WorkerView>, st: nat, en: nat)
    requires
        en <= ws.len(),
        en <= usize::MAX,
    ensures
        forall|j: int| 0 <= j < inactive_between(ws, st, en).len() ==> st <= #[trigger] inactive_between(ws, st, en)[j] < en,
        forall|a: int, b: int| 0 <= a < b < inactive_between(ws, st, en).len() ==> inactive_between(ws, st, en)[a] < inactive_between(ws, st, en)[b],
        forall|k: usize| #[trigger] inactive_between(ws, st, en).contains(k) <==> (st <= k < en && !ws[k as int].flags.active),
    decreases en - st,
{
    if en > st {
        let e1 = (en - 1) as nat;
        lemma_inactive_between(ws, st, e1);
        let prev = inactive_between(ws, st, e1);
        let cur = inactive_between(ws, st, en);
        assert forall|j: int| 0 <= j < cur.len() implies st <= #[trigger] cur[j] < en by {
            if j < prev.len() {
                assert(cur[j] == prev[j]);
            }
        }
        assert forall|a: int, b: int| 0 <= a < b < cur.len() implies cur[a] < cur[b] by {
            assert(cur[a] == prev[a]);
            if b < prev.len() {
                assert(cur[b] == prev[b]);
            }
        }
        assert forall|k: usize| #[trigger] cur.contains(k) <==> (st <= k < en && !ws[k as int].flags.active) by {
            if cur.contains(k) {
                let j = choose|j: int| 0 <= j < cur.len() && cur[j] == k;
                if j < prev.len() {
                    assert(prev[j] == cur[j]);
                    assert(prev.contains(k));
                }
            }
            if st <= k < en && !ws[k as int].flags.active {
                if k < e1 {
                    assert(prev.contains(k));
                    let j = choose|j: int| 0 <= j < prev.len() && prev[j] == k;
                    assert(cur[j] == prev[j]);
                } else {
                    assert(cur[cur.len() - 1] == k);
                }
            }
        }
    }
}

/// Resizing to `size` starts every worker from the old dispatch size up to
/// `size` (restarting the stopped ones, creating the missing ones), leaves
/// the workers below the old dispatch size as they were, and asks for a
/// thread, in increasing order, for exactly the workers in that range that
/// were not active or did not exist.
pub proof fn lemma_resize_starts_every_worker_up_to_size(pool: PoolView, size: nat)
    requires
        pool.wf(),
        size <= usize::MAX,
    ensures
        forall|k: int| pool.dispatch.size <= k < size ==> (#[trigger] resized_worker(pool, size, k)).flags.active,
        forall|k: int| 0 <= k < pool.dispatch.size ==> #[trigger] resized_worker(pool, size, k) == pool.workers[k],
        forall|k: usize| #[trigger] resize_spawns(pool, size).contains(k) <==> (pool.dispatch.size <= k < size
            && (k >= pool.workers.len() || !pool.workers[k as int].flags.active)),
        forall|a: int, b: int| 0 <= a < b < resize_spawns(pool, size).len() ==> resize_spawns(pool, size)[a] < resize_spawns(pool, size)[b],
{
    let len = pool.workers.len();
    let d = pool.dispatch.size;
    let restart_end: nat = if size < len { size } else { len };
    lemma_inactive_between(pool.workers, d, restart_end);
    let head = inactive_between(pool.workers, d, restart_end);
    let tail: Seq<usize> = if size > len { id_range(len, size) } else { Seq::empty() };
    let sp = resize_spawns(pool, size);
    assert(sp == head + tail);
    assert forall|k: int| d <= k < size implies (#[trigger] resized_worker(pool, size, k)).flags.active by {
        lemma_start_idempotent(pool.workers[k]);
    }
    assert forall|j: int| 0 <= j < tail.len() implies len <= #[trigger] tail[j] < size && tail[j] == len + j by {}
    assert forall|a: int, b: int| 0 <= a < b < sp.len() implies sp[a] < sp[b] by {
        if b < head.len() {
        } else if a < head.len() {
            assert(head[a] < restart_end);
            assert(tail[b - head.len()] >= len);
        } else {
            assert(tail[a - head.len()] < tail[b - head.len()]);
        }
    }
    assert forall|k: usize| #[trigger] sp.contains(k) <==> (d <= k < size && (k >= len || !pool.workers[k as int].flags.active)) by {
        if sp.contains(k) {
            let j = choose|j: int| 0 <= j < sp.len() && sp[j] == k;
            if j < head.len() {
                assert(head[j] == sp[j]);
                assert(head.contains(k));
            } else {
                assert(tail[j - head.len()] == sp[j]);
            }
        }
        if d <= k < size && (k >= len || !pool.workers[k as int].flags.active) {
            if k < len {
                assert(head.contains(k));
                let j = choose|j: int| 0 <= j < head.len() && head[j] == k;
                assert(sp[j] == head[j]);
            } else {
                let j = k - len;
                assert(tail[j] == k);
                assert(sp[head.len() + j] == tail[j]);
            }
        }
    }
}

impl<F, T> ThreadManagerCore<F, T> {
    /// Starts the workers in `[st, en)`; returns, in increasing order, the
    /// numbers of those for which a thread has to be started.
    pub fn start_workers(&mut self, st: usize, en: usize) -> (spawned: Vec<usize>)
        requires
            old(self).valid(),
            en <= old(self)@.workers.len(),
        ensures
            final(self).valid(),
            spawned@ == inactive_between(old(self)@.workers, st as nat, en as nat),
            final(self)@ == (PoolView {
                workers: final(self)@.workers,
                counts: final(self)@.counts,
                ..old(self)@
            }),
            final(self)@.workers.len() == old(self)@.workers.len(),
            forall|k: int| 0 <= k < old(self)@.workers.len() ==> #[trigger] final(self)@.workers[k] == if st <= k < en {
                after_start(old(self)@.workers[k])
            } else {
                old(self)@.workers[k]
            },
            final(self).queues() == old(self).queues(),
            final(self).result_queue() == old(self).result_queue(),
    {
        let mut spawned: Vec<usize> = Vec::new();
        if st >= en {
            return spawned;
        }
        let mut id: usize = st;
        while id < en
            invariant
                st <= id <= en,
                en <= old(self)@.workers.len(),
                self.valid(),
                spawned@ == inactive_between(old(self)@.workers, st as nat, id as nat),
                self@ == (PoolView { workers: self@.workers, counts: self@.counts, ..old(self)@ }),
                self@.workers.len() == old(self)@.workers.len(),
                forall|k: int| 0 <= k < old(self)@.workers.len() ==> #[trigger] self@.workers[k] == if st <= k < id {
                    after_start(old(self)@.workers[k])
                } else {
                    old(self)@.workers[k]
                },
                self.queues() == old(self).queues(),
                self.result_queue() == old(self).result_queue(),
                self.result_channel@ == old(self).result_channel@,
            decreases en - id,
        {
            if self.start(id) {
                spawned.push(id);
            }
            id = id + 1;
        }
        spawned
    }

    /// Sends the order to stop to each worker in `[st, en)`, through its
    /// channel: each channel gets, at its back, one order to stop for each of
    /// its workers in the range, and counts them. No job counter changes,
    /// and no send fails.
    pub fn send_release_workers(&mut self, st: usize, en: usize) -> (r: Result<(), WorkerSendError<F>>)
        requires
            old(self).valid(),
            en <= old(self)@.workers.len(),
        ensures
            r is Ok,
            final(self).valid(),
            final(self)@ == (PoolView { releases: final(self)@.releases, ..old(self)@ }),
            final(self)@.releases.len() == old(self)@.releases.len(),
            forall|c: int| 0 <= c < old(self)@.releases.len() ==> #[trigger] final(self)@.releases[c] == (ReleaseCounts {
                sent: old(self)@.releases[c].sent + releases_for(old(self)@.wpc, st as nat, en as nat, c),
                ..old(self)@.releases[c]
            }),
            final(self).queues().len() == old(self).queues().len(),
            forall|c: int| 0 <= c < old(self).queues().len() ==> #[trigger] final(self).queues()[c] == old(self).queues()[c]
                + release_run::<F>(releases_for(old(self)@.wpc, st as nat, en as nat, c)),
            final(self).result_queue() == old(self).result_queue(),
    {
        if st >= en {
            proof {
                assert forall|c: int| 0 <= c < old(self)@.releases.len() implies #[trigger] self@.releases[c] == (ReleaseCounts {
                    sent: old(self)@.releases[c].sent + releases_for(old(self)@.wpc, st as nat, en as nat, c),
                    ..old(self)@.releases[c]
                }) by {}
                assert forall|c: int| 0 <= c < old(self).queues().len() implies #[trigger] self.queues()[c] == old(self).queues()[c]
                    + release_run::<F>(releases_for(old(self)@.wpc, st as nat, en as nat, c)) by {
                    assert(old(self).queues()[c] + release_run::<F>(0) =~= old(self).queues()[c]);
                }
            }
            return Ok(());
        }
        let ghost wpc: nat = self@.wpc;
        let mut id: usize = st;
        while id < en
            invariant
                st <= id <= en,
                en <= old(self)@.workers.len(),
                wpc == old(self)@.wpc,
                self@ == (PoolView { releases: self@.releases, ..old(self)@ }),
                self@.releases.len() == old(self)@.releases.len(),
                self.queues().len() == old(self).queues().len(),
                old(self).valid(),
                self.result_queue() == old(self).result_queue(),
                self.result_channel@ == old(self).result_channel@,
                forall|c: int| 0 <= c < old(self)@.releases.len() ==> #[trigger] self@.releases[c] == (ReleaseCounts {
                    sent: old(self)@.releases[c].sent + releases_for(wpc, st as nat, id as nat, c),
                    ..old(self)@.releases[c]
                }),
                forall|c: int| 0 <= c < old(self).queues().len() ==> #[trigger] self.queues()[c] == old(self).queues()[c]
                    + release_run::<F>(releases_for(wpc, st as nat, id as nat, c)),
                forall|c: int| 0 <= c < self@.channels.len() ==> #[trigger] job_balance(self@.channels[c], self.queues()[c]),
            decreases en - id,
        {
            proof {
                lemma_worker_channel_in_range(self@, id as nat);
            }
            let channel_id: usize = id / self.wpc;
            let ghost before = self.channels@;
            let ghost prev = self@;
            let ghost prev_queues = self.queues();
            let sent = self.channels[channel_id].send_release();
            proof {
                Self::lemma_views_update_channel(before, channel_id as int, self.channels@[channel_id as int]);
                assert(self.channels@ == before.update(channel_id as int, self.channels@[channel_id as int]));
                assert(self@.channels =~= old(self)@.channels);
            }
            match sent {
                Ok(()) => {},
                Err(error) => {
                    return Err(WorkerSendError { worker: id, error });
                },
            }
            proof {
                assert forall|c: int| 0 <= c < old(self)@.releases.len() implies #[trigger] self@.releases[c] == (ReleaseCounts {
                    sent: old(self)@.releases[c].sent + releases_for(wpc, st as nat, (id + 1) as nat, c),
                    ..old(self)@.releases[c]
                }) by {
                    assert(prev.releases[c] == (ReleaseCounts {
                        sent: old(self)@.releases[c].sent + releases_for(wpc, st as nat, id as nat, c),
                        ..old(self)@.releases[c]
                    }));
                    assert(releases_for(wpc, st as nat, (id + 1) as nat, c) == releases_for(wpc, st as nat, id as nat, c) + if (id as nat) / wpc == c { 1nat } else { 0nat });
                }
                assert forall|c: int| 0 <= c < old(self).queues().len() implies #[trigger] self.queues()[c] == old(self).queues()[c]
                    + release_run::<F>(releases_for(wpc, st as nat, (id + 1) as nat, c)) by {
                    let n = releases_for(wpc, st as nat, id as nat, c);
                    assert(prev_queues[c] == old(self).queues()[c] + release_run::<F>(n));
                    assert(releases_for(wpc, st as nat, (id + 1) as nat, c) == n + if (id as nat) / wpc == c { 1nat } else { 0nat });
                    if (id as nat) / wpc == c {
                        assert((old(self).queues()[c] + release_run::<F>(n)).push(MessageKind::Release) =~= old(self).queues()[c]
                            + release_run::<F>(n + 1));
                    }
                }
                let ci = channel_id as int;
                assert forall|k: int| 0 <= k < self@.channels.len() implies #[trigger] job_balance(self@.channels[k], self.queues()[k]) by {
                    assert(job_balance(prev.channels[k], prev_queues[k]));
                    if k == ci {
                        lemma_balance_push(prev.channels[k], prev_queues[k], MessageKind::Release);
                    }
                }
            }
            id = id + 1;
        }
        proof {
            lemma_tally_frame(old(self)@, self@);
        }
        Ok(())
    }

    /// Tells each worker in `[st, en)` to terminate.
    pub fn set_termination_workers(&mut self, st: usize, en: usize)
        requires
            old(self).valid(),
            en <= old(self)@.workers.len(),
        ensures
            final(self).valid(),
            final(self)@ == (PoolView { workers: final(self)@.workers, ..old(self)@ }),
            final(self)@.workers.len() == old(self)@.workers.len(),
            forall|k: int| 0 <= k < old(self)@.workers.len() ==> #[trigger] final(self)@.workers[k] == if st <= k < en {
                WorkerView { terminating: true, ..old(self)@.workers[k] }
            } else {
                old(self)@.workers[k]
            },
            final(self).queues() == old(self).queues(),
            final(self).result_queue() == old(self).result_queue(),
    {
        if st >= en {
            return;
        }
        let mut id: usize = st;
        while id < en
            invariant
                st <= id <= en,
                en <= old(self)@.workers.len(),
                self@ == (PoolView { workers: self@.workers, ..old(self)@ }),
                self@.workers.len() == old(self)@.workers.len(),
                forall|k: int| 0 <= k < old(self)@.workers.len() ==> #[trigger] self@.workers[k] == if st <= k < id {
                    WorkerView { terminating: true, ..old(self)@.workers[k] }
                } else {
                    old(self)@.workers[k]
                },
                self.queues() == old(self).queues(),
                self.result_queue() == old(self).result_queue(),
                self.result_channel@ == old(self).result_channel@,
            decreases en - id,
        {
            let ghost before = self.workers@;
            let ghost prev = self@;
            self.workers[id].set_termination(true);
            proof {
                Self::lemma_views_update_worker(before, id as int, self.workers@[id as int]);
                assert(self.workers@ == before.update(id as int, self.workers@[id as int]));
                assert forall|k: int| 0 <= k < old(self)@.workers.len() implies #[trigger] self@.workers[k] == if st <= k < id + 1 {
                    WorkerView { terminating: true, ..old(self)@.workers[k] }
                } else {
                    old(self)@.workers[k]
                } by {
                    assert(prev.workers[k] == if st <= k < id {
                        WorkerView { terminating: true, ..old(self)@.workers[k] }
                    } else {
                        old(self)@.workers[k]
                    });
                }
            }
            id = id + 1;
        }
        proof {
            let ws = self@.workers;
            let ows = old(self)@.workers;
            assert forall|f: spec_fn(WorkerFlags) -> bool| #[trigger] count_flagged(ws, f) == count_flagged(ows, f) by {
                lemma_count_same_flags(ws, ows, f);
            }
            lemma_tally_frame(old(self)@, self@);
        }
    }

    /// Drops every message left in the channels `[st, en)` (see
    /// [`JobChannel::clear`]): they end empty, each dropped job counting as
    /// received (and as dropped) and each dropped order to stop as taken.
    pub fn clear_channels(&mut self, st: usize, en: usize)
        requires
            old(self).valid(),
            en <= old(self)@.channels.len(),
        ensures
            final(self).valid(),
            final(self)@ == (PoolView {
                channels: final(self)@.channels,
                releases: final(self)@.releases,
                dropped: final(self)@.dropped,
                ..old(self)@
            }),
            final(self)@.channels.len() == old(self)@.channels.len(),
            final(self)@.releases.len() == old(self)@.releases.len(),
            final(self).queues().len() == old(self).queues().len(),
            final(self).result_queue() == old(self).result_queue(),
            forall|c: int| 0 <= c < old(self)@.channels.len() ==> #[trigger] Self::cleared_or_kept(
                old(self)@, final(self)@, old(self).queues(), final(self).queues(), st as int, en as int, c),
            forall|c: int| st <= c < en ==> (#[trigger] final(self).queues()[c]).len() == 0,
            forall|c: int| 0 <= c < old(self)@.channels.len() && !(st <= c < en) ==> #[trigger] final(self).queues()[c] == old(self).queues()[c],
    {
        if st >= en {
            return;
        }
        let mut c: usize = st;
        while c < en
            invariant
                st <= c <= en,
                en <= old(self)@.channels.len(),
                old(self).valid(),
                self@ == (PoolView { channels: self@.channels, releases: self@.releases, dropped: self@.dropped, ..old(self)@ }),
                self@.channels.len() == old(self)@.channels.len(),
                self@.dropped.len() == old(self)@.dropped.len(),
                self@.releases.len() == old(self)@.releases.len(),
                self.queues().len() == old(self).queues().len(),
                self.result_queue() == old(self).result_queue(),
                self.result_channel@ == old(self).result_channel@,
                forall|k: int| 0 <= k < old(self)@.channels.len() ==> #[trigger] Self::cleared_or_kept(
                    old(self)@, self@, old(self).queues(), self.queues(), st as int, c as int, k),
                forall|k: int| 0 <= k < self@.channels.len() ==> #[trigger] job_balance(self@.channels[k], self.queues()[k]),
                self@.tally_wf(),
                self@.workers.len() == old(self)@.workers.len(),
            decreases en - c,
        {
            let ghost before = self.channels@;
            let ghost prev = self@;
            let ghost prev_queues = self.queues();
            self.channels[c].clear();
            proof {
                self.dropped@ = self.dropped@.update(c as int, self.dropped@[c as int] + job_count(prev_queues[c as int]));
                Self::lemma_views_update_channel(before, c as int, self.channels@[c as int]);
                assert(self.channels@ == before.update(c as int, self.channels@[c as int]));
                assert forall|k: int| 0 <= k < old(self)@.channels.len() implies #[trigger] Self::cleared_or_kept(
                    old(self)@, self@, old(self).queues(), self.queues(), st as int, c + 1, k) by {
                    assert(Self::cleared_or_kept(old(self)@, prev, old(self).queues(), prev_queues, st as int, c as int, k));
                }
                let ci = c as int;
                assert forall|k: int| 0 <= k < self@.channels.len() implies #[trigger] job_balance(self@.channels[k], self.queues()[k]) by {
                    assert(job_balance(prev.channels[k], prev_queues[k]));
                    if k == ci {
                        lemma_balance_drain(prev.channels[k], prev_queues[k]);
                    }
                }
                assert(self@.channels == prev.channels.update(ci, drained_counts(prev.channels[ci], prev_queues[ci])));
                lemma_tally_drain(prev, self@, ci, prev_queues[ci]);
            }
            c = c + 1;
        }
        proof {
            assert forall|k: int| st <= k < en implies (#[trigger] self.queues()[k]).len() == 0 by {
                assert(Self::cleared_or_kept(old(self)@, self@, old(self).queues(), self.queues(), st as int, en as int, k));
            }
            assert forall|k: int| 0 <= k < old(self)@.channels.len() && !(st <= k < en) implies #[trigger] self.queues()[k] == old(self).queues()[k] by {
                assert(Self::cleared_or_kept(old(self)@, self@, old(self).queues(), self.queues(), st as int, en as int, k));
            }
        }
    }

    /// Takes the orders to stop out of the channels `[st, en)` and keeps
    /// their jobs in order (see [`JobChannel::withdraw_releases`]).
    fn withdraw_releases_in(&mut self, st: usize, en: usize)
        requires
            old(self).valid(),
            en <= old(self)@.channels.len(),
        ensures
            final(self).valid(),
            final(self)@ == (PoolView { releases: final(self)@.releases, ..old(self)@ }),
            final(self)@.releases.len() == old(self)@.releases.len(),
            final(self).queues().len() == old(self).queues().len(),
            final(self).result_queue() == old(self).result_queue(),
            forall|c: int| 0 <= c < old(self)@.channels.len() ==> #[trigger] Self::withdrawn_or_kept(
                old(self)@, final(self)@, old(self).queues(), final(self).queues(), st as int, en as int, c),
    {
        let mut c: usize = st;
        if c > en {
            c = en;
        }
        let ghost first = c;
        proof {
            assert forall|k: int| 0 <= k < old(self)@.channels.len() implies #[trigger] Self::withdrawn_or_kept(
                old(self)@, self@, old(self).queues(), self.queues(), st as int, first as int, k) by {}
        }
        while c < en
            invariant
                first <= c <= en,
                st as int <= first || first == en,
                first == st || first == en,
                en <= old(self)@.channels.len(),
                old(self).valid(),
                self@ == (PoolView { releases: self@.releases, ..old(self)@ }),
                self@.releases.len() == old(self)@.releases.len(),
                self.queues().len() == old(self).queues().len(),
                self.result_queue() == old(self).result_queue(),
                self.result_channel@ == old(self).result_channel@,
                forall|k: int| 0 <= k < old(self)@.channels.len() ==> #[trigger] Self::withdrawn_or_kept(
                    old(self)@, self@, old(self).queues(), self.queues(), st as int, c as int, k),
                forall|k: int| 0 <= k < self@.channels.len() ==> #[trigger] job_balance(self@.channels[k], self.queues()[k]),
            decreases en - c,
        {
            let ghost before = self.channels@;
            let ghost prev = self@;
            let ghost prev_queues = self.queues();
            self.channels[c].withdraw_releases();
            proof {
                Self::lemma_views_update_channel(before, c as int, self.channels@[c as int]);
                assert(self.channels@ == before.update(c as int, self.channels@[c as int]));
                assert(self@.channels =~= old(self)@.channels);
                let ci = c as int;
                assert forall|k: int| 0 <= k < old(self)@.channels.len() implies #[trigger] Self::withdrawn_or_kept(
                    old(self)@, self@, old(self).queues(), self.queues(), st as int, c + 1, k) by {
                    assert(Self::withdrawn_or_kept(old(self)@, prev, old(self).queues(), prev_queues, st as int, c as int, k));
                }
                assert forall|k: int| 0 <= k < self@.channels.len() implies #[trigger] job_balance(self@.channels[k], self.queues()[k]) by {
                    assert(job_balance(prev.channels[k], prev_queues[k]));
                    if k == ci {
                        lemma_jobs_only_count(prev_queues[k]);
                    }
                }
            }
            c = c + 1;
        }
        proof {
            lemma_tally_frame(old(self)@, self@);
            if first == en {
                assert forall|k: int| 0 <= k < old(self)@.channels.len() implies #[trigger] Self::withdrawn_or_kept(
                    old(self)@, self@, old(self).queues(), self.queues(), st as int, en as int, k) by {
                    assert(Self::withdrawn_or_kept(old(self)@, self@, old(self).queues(), self.queues(), st as int, first as int, k));
                }
            }
        }
    }

    /// Channel `c` had its orders to stop taken out, going from `a` to `b`,
    /// when it is in `[st, en)`, and was kept as it was otherwise.
    pub open spec fn withdrawn_or_kept(
        a: PoolView,
        b: PoolView,
        qa: Seq<Seq<MessageKind<F>>>,
        qb: Seq<Seq<MessageKind<F>>>,
        st: int,
        en: int,
        c: int,
    ) -> bool {
        if st <= c < en {
            &&& b.releases[c] == withdrawn_releases(a.releases[c], qa[c])
            &&& qb[c] == jobs_only(qa[c])
        } else {
            &&& b.releases[c] == a.releases[c]
            &&& qb[c] == qa[c]
        }
    }

    /// Channel `c` was cleared, going from `a` to `b`, when it is in
    /// `[st, en)`, and kept as it was otherwise.
    pub open spec fn cleared_or_kept(
        a: PoolView,
        b: PoolView,
        qa: Seq<Seq<MessageKind<F>>>,
        qb: Seq<Seq<MessageKind<F>>>,
        st: int,
        en: int,
        c: int,
    ) -> bool {
        if st <= c < en {
            &&& b.channels[c] == drained_counts(a.channels[c], qa[c])
            &&& b.releases[c] == drained_releases(a.releases[c], qa[c])
            &&& b.dropped[c] == a.dropped[c] + job_count(qa[c])
            &&& qb[c].len() == 0
        } else {
            &&& b.channels[c] == a.channels[c]
            &&& b.releases[c] == a.releases[c]
            &&& b.dropped[c] == a.dropped[c]
            &&& qb[c] == qa[c]
        }
    }
}

/// The counters of a job channel account for every job sent to it, as long
/// as none has wrapped around (the jobs its workers took, the jobs dropped
/// by clearing and the jobs waiting add up to at most `usize::MAX`, and its
/// busy workers are among those that took a job): each job sent is waiting
/// in the channel or was received; each job received was taken by one of the
/// channel's workers (what `job_distribution` counts) or dropped; each job
/// received is concluded, being run by a busy worker, or dropped. So no more
/// jobs are concluded than received, nor received than sent, and the jobs
/// sent and not received are exactly the jobs in the channel.
pub proof fn lemma_channel_accounting<F, T>(m: &ThreadManagerCore<F, T>, c: int)
    requires
        m.valid(),
        0 <= c < m@.channels.len(),
        sum_on(m@.workers, m@.wpc, c, received_weight()) + m@.dropped[c] + job_count(m.queues()[c]) <= usize::MAX,
        sum_on(m@.workers, m@.wpc, c, busy_weight()) <= sum_on(m@.workers, m@.wpc, c, received_weight()),
    ensures
        ({
            let ch = m@.channels[c];
            let taken = sum_on(m@.workers, m@.wpc, c, received_weight());
            let running = sum_on(m@.workers, m@.wpc, c, busy_weight());
            &&& ch.sent == ch.received + job_count(m.queues()[c])
            &&& ch.received == taken + m@.dropped[c]
            &&& ch.received == ch.concluded + running + m@.dropped[c]
            &&& ch.concluded <= ch.received <= ch.sent
            &&& ch.pending() == job_count(m.queues()[c])
        }),
{
    let pool = m@;
    let ch = pool.channels[c];
    let md = usize::MAX as int + 1;
    let sr = sum_on(pool.workers, pool.wpc, c, received_weight());
    let sb = sum_on(pool.workers, pool.wpc, c, busy_weight());
    let d = pool.dropped[c] as int;
    assert(channel_tally(pool, c));
    assert(job_balance(ch, m.queues()[c]));
    assert(sb >= 0) by {
        lemma_sum_on_nonneg(pool.workers, pool.wpc, c, busy_weight());
    }
    vstd::arithmetic::div_mod::lemma_small_mod((sr + d) as nat, md as nat);
    assert(ch.received == sr + d);
    lemma_balance_exact(ch, m.queues()[c]);
    // The concluded count is the jobs taken less the ones being run.
    let x = ch.concluded + sb + d;
    assert(x % md == sr + d);
    vstd::arithmetic::div_mod::lemma_fundamental_div_mod(x, md);
    let k = x / md;
    assert(0 <= x);
    assert(x < 2 * md);
    if k >= 1 {
        assert(x == md * k + (sr + d));
        assert(md * k >= md) by (nonlinear_arith)
            requires k >= 1, md > 0;
        assert(false);
    }
    if k <= -1 {
        assert(md * k <= -md) by (nonlinear_arith)
            requires k <= -1, md > 0;
        assert(false);
    }
    assert(k == 0);
    assert(x == sr + d);
}

/// A sum of weights that are never negative is not negative.
proof fn lemma_sum_on_nonneg(ws: Seq<WorkerView>, wpc: nat, c: int, weight: spec_fn(WorkerView) -> int)
    requires
        forall|w: WorkerView| #[trigger] weight(w) >= 0,
    ensures
        sum_on(ws, wpc, c, weight) >= 0,
    decreases ws.len(),
{
    if ws.len() > 0 {
        lemma_sum_on_nonneg(ws.drop_last(), wpc, c, weight);
    }
}

/// The release counts of a channel that held `q` once its orders to stop
/// have been taken out.
pub open spec fn withdrawn_releases<F>(r: ReleaseCounts, q: Seq<MessageKind<F>>) -> ReleaseCounts {
    ReleaseCounts { taken: r.taken + (q.len() - job_count(q)) as nat, ..r }
}

/// Whether resizing `pool` to `size` brings back the workers of channel
/// `c`, which an earlier shrink had told to stop.
pub open spec fn reopened(pool: PoolView, size: nat, c: int) -> bool {
    size > pool.dispatch.size && pool.dispatch.size / pool.wpc <= c < size / pool.wpc
}

/// Clearing a channel empties it and drops every job it held, never run:
/// the channel counts each of them as received (modulo `usize::MAX + 1`),
/// concludes none, and the pool counts each as dropped. The jobs sent to it
/// do not change. A channel outside the cleared range keeps its messages.
pub proof fn lemma_cleared_channel_drops_its_jobs<F, T>(
    a: PoolView,
    b: PoolView,
    qa: Seq<Seq<MessageKind<F>>>,
    qb: Seq<Seq<MessageKind<F>>>,
    st: int,
    en: int,
    c: int,
)
    requires
        ThreadManagerCore::<F, T>::cleared_or_kept(a, b, qa, qb, st, en, c),
    ensures
        st <= c < en ==> {
            &&& qb[c].len() == 0
            &&& b.dropped[c] == a.dropped[c] + job_count(qa[c])
            &&& b.channels[c].received as int == (a.channels[c].received as int + job_count(qa[c])) % (usize::MAX as int + 1)
            &&& b.channels[c].concluded == a.channels[c].concluded
            &&& b.channels[c].sent == a.channels[c].sent
        },
        !(st <= c < en) ==> qb[c] == qa[c] && b.channels[c] == a.channels[c],
{
    if st <= c < en {
        lemma_drain_received(a.channels[c], qa[c]);
        lemma_drain_keeps_sent(a.channels[c], qa[c]);
    }
}

/// Draining a queue sends nothing.
proof fn lemma_drain_keeps_sent<F>(c: ChannelCounts, q: Seq<MessageKind<F>>)
    ensures
        drained_counts(c, q).sent == c.sent,
    decreases q.len(),
{
    if q.len() > 0 {
        lemma_drain_keeps_sent(c.after_receive(q[0].is_job()), q.drop_first());
    }
}

/// Two lists of workers with the same flags, one by one, count the same.
proof fn lemma_count_same_flags(ws: Seq<WorkerView>, vs: Seq<WorkerView>, flag: spec_fn(WorkerFlags) -> bool)
    requires
        ws.len() == vs.len(),
        forall|i: int| 0 <= i < ws.len() ==> #[trigger] ws[i].flags == vs[i].flags,
    ensures
        count_flagged(ws, flag) == count_flagged(vs, flag),
    decreases ws.len(),
{
    if ws.len() > 0 {
        lemma_count_same_flags(ws.drop_last(), vs.drop_last(), flag);
    }
}

impl<F, T> ThreadManagerCore<F, T> {
    /// Resizes the pool to `size` workers. Missing workers are created with
    /// their channels, the workers between the old and the new size are
    /// started, and the ones beyond the new size are told to stop: each gets
    /// an order to stop at the back of its channel, behind the jobs waiting
    /// there, so no job is dropped. When the pool grows back over workers
    /// told to stop before, the orders to stop still in their channels are
    /// taken out (their jobs stay, in order): a worker that had not reached
    /// its order keeps running, and one that had is started again. From then
    /// on jobs go to the first `size` workers. Returns, in increasing order,
    /// the numbers of the workers for which a thread has to be started. No
    /// send fails.
    pub fn resize(&mut self, size: usize) -> (r: Result<Vec<usize>, WorkerSendError<F>>)
        requires
            old(self).valid(),
            wpc_divides(size as nat, old(self)@.wpc),
            size > 0 || old(self)@.dispatch.size == 0,
        ensures
            final(self).valid(),
            r is Ok,
            ({
                let pool = old(self)@;
                let len = pool.workers.len();
                let released = |c: int| if size < pool.dispatch.size {
                    releases_for(pool.wpc, size as nat, pool.dispatch.size, c)
                } else {
                    0
                };
                &&& r matches Ok(spawned) && spawned@ == resize_spawns(pool, size as nat)
                &&& final(self)@.wpc == pool.wpc
                &&& final(self)@.results == pool.results
                &&& final(self).result_queue() == old(self).result_queue()
                &&& final(self)@.dispatch.size == size
                &&& final(self)@.dispatch.id == if size == pool.dispatch.size {
                    pool.dispatch.id
                } else if pool.dispatch.id + 1 >= size {
                    0
                } else {
                    pool.dispatch.id
                }
                &&& final(self)@.workers.len() == if size > len { size as nat } else { len }
                &&& forall|k: int| 0 <= k < final(self)@.workers.len() ==> #[trigger] final(self)@.workers[k] == resized_worker(pool, size as nat, k)
                &&& forall|c: int| 0 <= c < pool.channels.len() ==> #[trigger] final(self)@.channels[c] == pool.channels[c]
                &&& forall|c: int| pool.channels.len() <= c < final(self)@.channels.len() ==> #[trigger] final(self)@.channels[c] == (ChannelCounts {
                    sent: 0,
                    sending: 0,
                    received: 0,
                    receiving: 0,
                    concluded: 0,
                })
                &&& forall|c: int| 0 <= c < pool.channels.len() ==> #[trigger] final(self)@.releases[c] == if reopened(pool, size as nat, c) {
                    withdrawn_releases(pool.releases[c], old(self).queues()[c])
                } else {
                    ReleaseCounts { sent: pool.releases[c].sent + released(c), ..pool.releases[c] }
                }
                &&& forall|c: int| pool.channels.len() <= c < final(self)@.channels.len() ==> #[trigger] final(self)@.releases[c] == (ReleaseCounts { sent: 0, taken: 0 })
                &&& forall|c: int| 0 <= c < pool.channels.len() ==> #[trigger] final(self).queues()[c] == if reopened(pool, size as nat, c) {
                    jobs_only(old(self).queues()[c])
                } else {
                    old(self).queues()[c] + release_run::<F>(released(c))
                }
                &&& forall|c: int| pool.channels.len() <= c < final(self)@.channels.len() ==> #[trigger] final(self).queues()[c].len() == 0
            }),
    {
        let dispatch_size: usize = self.dispatch.fetch_size();
        let len: usize = self.workers.len();
        if size > len {
            proof {
                vstd::arithmetic::div_mod::lemma_div_multiples_vanish(self@.channels.len() as int, self@.wpc as int);
                assert(len as int / self@.wpc as int == self@.channels.len()) by {
                    assert(len == self@.channels.len() * self@.wpc);
                    vstd::arithmetic::mul::lemma_mul_is_commutative(self@.channels.len() as int, self@.wpc as int);
                }
            }
            self.withdraw_releases_in(dispatch_size / self.wpc, len / self.wpc);
            let ghost reopened_state = self@;
            let ghost reopened_queues = self.queues();
            let mut spawned: Vec<usize> = self.start_workers(dispatch_size, len);
            let additional: usize = size - len;
            proof {
                let w = self@.wpc;
                let cl = self@.channels.len();
                let q = size as int / w as int;
                vstd::arithmetic::div_mod::lemma_fundamental_div_mod(size as int, w as int);
                assert(size - len == (q - cl) * w) by (nonlinear_arith)
                    requires size as int == w * q + 0, len == cl * w;
                vstd::arithmetic::div_mod::lemma_mod_multiples_basic(q - cl, w as int);
            }
            let ghost mid = self@;
            self.create_workers(additional);
            let ghost head = spawned@;
            let mut id: usize = len;
            while id < size
                invariant
                    len <= id <= size,
                    spawned@ == head + id_range(len as nat, id as nat),
                decreases size - id,
            {
                proof {
                    assert((head + id_range(len as nat, id as nat)).push(id) =~= head + id_range(len as nat, (id + 1) as nat));
                }
                spawned.push(id);
                id = id + 1;
            }
            let ghost pre = self@;
            self.dispatch.set_size(size);
            proof {
                lemma_tally_frame(pre, self@);
                assert forall|k: int| 0 <= k < self@.workers.len() implies #[trigger] self@.workers[k] == resized_worker(old(self)@, size as nat, k) by {
                    if k < len {
                        assert(mid.workers[k] == self@.workers[k]);
                    }
                }
                let pool = old(self)@;
                vstd::arithmetic::div_mod::lemma_div_is_ordered(len as int, size as int, pool.wpc as int);
                assert forall|c: int| #![trigger self.queues()[c]] #![trigger self@.releases[c]] 0 <= c < pool.channels.len() implies {
                    &&& self.queues()[c] == if reopened(pool, size as nat, c) {
                        jobs_only(old(self).queues()[c])
                    } else {
                        old(self).queues()[c] + release_run::<F>(0)
                    }
                    &&& self@.releases[c] == if reopened(pool, size as nat, c) {
                        withdrawn_releases(pool.releases[c], old(self).queues()[c])
                    } else {
                        ReleaseCounts { sent: pool.releases[c].sent + 0, ..pool.releases[c] }
                    }
                } by {
                    assert(Self::withdrawn_or_kept(pool, reopened_state, old(self).queues(), reopened_queues, (dispatch_size as nat / pool.wpc) as int, (len as nat / pool.wpc) as int, c));
                    assert(reopened_state.releases == mid.releases);
                    assert(old(self).queues()[c] + release_run::<F>(0) =~= old(self).queues()[c]);
                }
            }
            Ok(spawned)
        } else if size < dispatch_size {
            match self.send_release_workers(size, dispatch_size) {
                Ok(()) => {},
                Err(e) => {
                    return Err(e);
                },
            }
            let ghost pre = self@;
            self.dispatch.set_size(size);
            proof {
                lemma_tally_frame(pre, self@);
                assert(self@.workers == old(self)@.workers);
                assert(inactive_between(old(self)@.workers, dispatch_size as nat, size as nat) == Seq::<usize>::empty());
                assert(resize_spawns(old(self)@, size as nat) =~= Seq::<usize>::empty());
            }
            Ok(Vec::new())
        } else if size > dispatch_size {
            proof {
                vstd::arithmetic::div_mod::lemma_div_multiples_vanish(self@.channels.len() as int, self@.wpc as int);
                assert(len as int / self@.wpc as int == self@.channels.len()) by {
                    assert(len == self@.channels.len() * self@.wpc);
                    vstd::arithmetic::mul::lemma_mul_is_commutative(self@.channels.len() as int, self@.wpc as int);
                }
                vstd::arithmetic::div_mod::lemma_div_is_ordered(size as int, len as int, self@.wpc as int);
            }
            self.withdraw_releases_in(dispatch_size / self.wpc, size / self.wpc);
            let ghost reopened_state = self@;
            let ghost reopened_queues = self.queues();
            let spawned: Vec<usize> = self.start_workers(dispatch_size, size);
            let ghost pre = self@;
            self.dispatch.set_size(size);
            proof {
                lemma_tally_frame(pre, self@);
                let pool = old(self)@;
                assert forall|c: int| #![trigger self.queues()[c]] #![trigger self@.releases[c]] 0 <= c < pool.channels.len() implies {
                    &&& self.queues()[c] == if reopened(pool, size as nat, c) {
                        jobs_only(old(self).queues()[c])
                    } else {
                        old(self).queues()[c] + release_run::<F>(0)
                    }
                    &&& self@.releases[c] == if reopened(pool, size as nat, c) {
                        withdrawn_releases(pool.releases[c], old(self).queues()[c])
                    } else {
                        ReleaseCounts { sent: pool.releases[c].sent + 0, ..pool.releases[c] }
                    }
                } by {
                    assert(Self::withdrawn_or_kept(pool, reopened_state, old(self).queues(), reopened_queues, (dispatch_size as nat / pool.wpc) as int, (size as nat / pool.wpc) as int, c));
                    assert(old(self).queues()[c] + release_run::<F>(0) =~= old(self).queues()[c]);
                }
                assert(resize_spawns(old(self)@, size as nat) =~= inactive_between(old(self)@.workers, dispatch_size as nat, size as nat));
            }
            Ok(spawned)
        } else {
            proof {
                assert(resize_spawns(old(self)@, size as nat) =~= Seq::<usize>::empty());
            }
            Ok(Vec::new())
        }
    }
}

/// Which counter of the job channels a total is taken of.
pub enum Tally {
    Sent,
    Received,
    Concluded,
}

/// The counter `which` of one channel.
pub open spec fn tally_of(c: ChannelCounts, which: Tally) -> int {
    match which {
        Tally::Sent => c.sent as int,
        Tally::Received => c.received as int,
        Tally::Concluded => c.concluded as int,
    }
}

/// The sum, over the channels `cs`, of their counter `which`.
pub open spec fn tally_total(cs: Seq<ChannelCounts>, which: Tally) -> int
    decreases cs.len(),
{
    if cs.len() == 0 {
        0
    } else {
        tally_total(cs.drop_last(), which) + tally_of(cs.last(), which)
    }
}

/// The sum, over the channels `cs`, of their pending messages.
pub open spec fn pending_total(cs: Seq<ChannelCounts>) -> int
    decreases cs.len(),
{
    if cs.len() == 0 {
        0
    } else {
        pending_total(cs.drop_last()) + cs.last().pending()
    }
}

/// The pending messages of every channel can be counted in a `usize`:
/// what is sent and being sent fits, and no more was received.
pub open spec fn pending_countable(cs: Seq<ChannelCounts>) -> bool {
    forall|c: int| 0 <= c < cs.len() ==> {
        &&& #[trigger] cs[c].sent + cs[c].sending <= usize::MAX
        &&& cs[c].received <= cs[c].sent + cs[c].sending
    }
}

proof fn lemma_tally_total_nonneg(cs: Seq<ChannelCounts>, which: Tally)
    ensures
        tally_total(cs, which) >= 0,
    decreases cs.len(),
{
    if cs.len() > 0 {
        lemma_tally_total_nonneg(cs.drop_last(), which);
    }
}

proof fn lemma_pending_total_nonneg(cs: Seq<ChannelCounts>)
    requires
        pending_countable(cs),
    ensures
        pending_total(cs) >= 0,
    decreases cs.len(),
{
    if cs.len() > 0 {
        assert(pending_countable(cs.drop_last()));
        lemma_pending_total_nonneg(cs.drop_last());
    }
}

/// A prefix of channels that can all be counted totals no more than all of
/// them.
proof fn lemma_pending_prefix(cs: Seq<ChannelCounts>, i: int)
    requires
        0 <= i <= cs.len(),
        pending_countable(cs),
    ensures
        0 <= pending_total(cs.take(i)) <= pending_total(cs),
    decreases cs.len() - i,
{
    assert(pending_countable(cs.take(i)));
    lemma_pending_total_nonneg(cs.take(i));
    if i < cs.len() {
        lemma_pending_prefix(cs, i + 1);
        assert(cs.take(i + 1).drop_last() =~= cs.take(i));
    } else {
        assert(cs.take(i) =~= cs);
    }
}

proof fn lemma_tally_prefix(cs: Seq<ChannelCounts>, i: int, which: Tally)
    requires
        0 <= i <= cs.len(),
    ensures
        0 <= tally_total(cs.take(i), which) <= tally_total(cs, which),
    decreases cs.len() - i,
{
    lemma_tally_total_nonneg(cs.take(i), which);
    if i < cs.len() {
        lemma_tally_prefix(cs, i + 1, which);
        assert(cs.take(i + 1).drop_last() =~= cs.take(i));
    } else {
        assert(cs.take(i) =~= cs);
    }
}

/// When no send is under way and no channel received more than was sent,
/// the jobs left in the queue are the jobs sent less the jobs received:
/// `job_queue == sent_jobs - received_jobs`.
pub proof fn lemma_queue_is_sent_less_received(cs: Seq<ChannelCounts>)
    requires
        forall|c: int| 0 <= c < cs.len() ==> (#[trigger] cs[c]).sending == 0 && cs[c].received <= cs[c].sent,
    ensures
        pending_total(cs) == tally_total(cs, Tally::Sent) - tally_total(cs, Tally::Received),
    decreases cs.len(),
{
    if cs.len() > 0 {
        let init = cs.drop_last();
        assert forall|c: int| 0 <= c < init.len() implies (#[trigger] init[c]).sending == 0 && init[c].received <= init[c].sent by {
            assert(init[c] == cs[c]);
        }
        lemma_queue_is_sent_less_received(init);
    }
}

/// When no channel concluded more jobs than were sent to it (see
/// [`lemma_channel_accounting`]), every channel is finished exactly when the
/// jobs concluded in all add up to the jobs sent in all: `has_finished` is
/// `concluded_jobs == sent_jobs`.
pub proof fn lemma_finished_iff_totals_match(cs: Seq<ChannelCounts>)
    requires
        forall|c: int| 0 <= c < cs.len() ==> (#[trigger] cs[c]).concluded <= cs[c].sent,
    ensures
        tally_total(cs, Tally::Concluded) <= tally_total(cs, Tally::Sent),
        (forall|c: int| 0 <= c < cs.len() ==> #[trigger] cs[c].finished())
            <==> tally_total(cs, Tally::Concluded) == tally_total(cs, Tally::Sent),
    decreases cs.len(),
{
    if cs.len() > 0 {
        let init = cs.drop_last();
        assert forall|c: int| 0 <= c < init.len() implies (#[trigger] init[c]).concluded <= init[c].sent by {
            assert(init[c] == cs[c]);
        }
        lemma_finished_iff_totals_match(init);
        if tally_total(cs, Tally::Concluded) == tally_total(cs, Tally::Sent) {
            assert forall|c: int| 0 <= c < cs.len() implies #[trigger] cs[c].finished() by {
                if c < init.len() {
                    assert(init[c] == cs[c]);
                    assert(init[c].finished());
                }
            }
        }
        if forall|c: int| 0 <= c < cs.len() ==> #[trigger] cs[c].finished() {
            assert forall|c: int| 0 <= c < init.len() implies #[trigger] init[c].finished() by {
                assert(init[c] == cs[c]);
                assert(cs[c].finished());
            }
            assert(cs[cs.len() - 1].finished());
        }
    }
}

/// What [`ThreadManagerCore::poll_result`] found.
#[derive(Debug)]
pub enum ResultPoll<T> {
    /// A result, taken and concluded.
    Ready(T),
    /// Jobs or results are outstanding but no result is there yet.
    Pending,
    /// No job is outstanding and every result has been concluded.
    Done,
}

impl<F, T> ThreadManagerCore<F, T> {
    /// The status of worker `id`.
    pub fn worker_status(&self, id: usize) -> (status: &WorkerStatus)
        requires
            id < self@.workers.len(),
        ensures
            status@ == self@.workers[id as int].flags,
    {
        self.workers[id].status()
    }

    pub fn worker_count(&self) -> (n: usize)
        ensures
            n == self@.workers.len(),
    {
        self.workers.len()
    }

    pub fn channel_count(&self) -> (n: usize)
        ensures
            n == self@.channels.len(),
    {
        self.channels.len()
    }

    /// The number of workers that share a channel.
    pub fn wpc(&self) -> (n: usize)
        ensures
            n == self@.wpc,
    {
        self.wpc
    }

    /// The number of workers jobs are dispatched over.
    pub fn dispatch_size(&self) -> (n: usize)
        ensures
            n == self@.dispatch.size,
    {
        self.dispatch.fetch_size()
    }

    pub fn active_threads(&self) -> (n: usize)
        ensures
            n == self@.counts.active,
    {
        self.manager_status.active_threads()
    }

    pub fn busy_threads(&self) -> (n: usize)
        ensures
            n == self@.counts.busy,
    {
        self.manager_status.busy_threads()
    }

    pub fn waiting_threads(&self) -> (n: usize)
        ensures
            n == self@.counts.waiting,
    {
        self.manager_status.waiting_threads()
    }

    /// How many jobs each worker has taken, worker by worker.
    pub fn job_distribution(&self) -> (distribution: Vec<usize>)
        ensures
            distribution@.len() == self@.workers.len(),
            forall|i: int| 0 <= i < distribution@.len() ==> #[trigger] distribution@[i] == self@.workers[i].flags.received,
    {
        let mut distribution: Vec<usize> = Vec::with_capacity(self.workers.len());
        let mut i: usize = 0;
        while i < self.workers.len()
            invariant
                i <= self@.workers.len(),
                self@.workers.len() == self.workers@.len(),
                distribution@.len() == i,
                forall|k: int| 0 <= k < i ==> #[trigger] distribution@[k] == self@.workers[k].flags.received,
            decreases self.workers@.len() - i,
        {
            distribution.push(self.workers[i].status().received());
            i = i + 1;
        }
        distribution
    }

    /// Every job sent to any channel has been concluded.
    pub fn has_finished(&self) -> (b: bool)
        ensures
            b == self@.all_finished(),
    {
        let mut c: usize = 0;
        while c < self.channels.len()
            invariant
                c <= self@.channels.len(),
                self@.channels.len() == self.channels@.len(),
                forall|k: int| 0 <= k < c ==> #[trigger] self@.channels[k].finished(),
            decreases self.channels@.len() - c,
        {
            if !self.channels[c].is_finished() {
                assert(self@.channels[c as int] == self.channels@[c as int]@);
                return false;
            }
            assert(self@.channels[c as int] == self.channels@[c as int]@);
            c = c + 1;
        }
        true
    }

    /// Some worker's channel holds a job that has not been concluded.
    pub fn has_jobs(&self) -> (b: bool)
        requires
            self.valid(),
        ensures
            b == self@.some_worker_has_jobs(),
    {
        let mut i: usize = 0;
        while i < self.workers.len()
            invariant
                i <= self@.workers.len(),
                self.valid(),
                self@.workers.len() == self.workers@.len(),
                forall|k: int| 0 <= k < i ==> #[trigger] self@.channels[self@.channel_of(k as nat) as int].finished(),
            decreases self.workers@.len() - i,
        {
            proof {
                lemma_worker_channel_in_range(self@, i as nat);
            }
            let channel_id: usize = i / self.wpc;
            assert(self@.channels[channel_id as int] == self.channels@[channel_id as int]@);
            if !self.channels[channel_id].is_finished() {
                let ghost k: int = i as int;
                assert(0 <= k < self@.workers.len() && !self@.channels[self@.channel_of(k as nat) as int].finished());
                return true;
            }
            i = i + 1;
        }
        false
    }

    /// Some result has been sent and not concluded.
    pub fn has_results(&self) -> (b: bool)
        ensures
            b == self@.has_results(),
    {
        !self.result_channel.is_finished()
    }

    fn tally(&self, which: Tally) -> (total: Option<usize>)
        ensures
            total matches Some(n) ==> n == tally_total(self@.channels, which),
            total is None <==> tally_total(self@.channels, which) > usize::MAX,
    {
        let ghost cs = self@.channels;
        let mut total: usize = 0;
        let mut c: usize = 0;
        while c < self.channels.len()
            invariant
                c <= cs.len(),
                cs == self@.channels,
                cs.len() == self.channels@.len(),
                total == tally_total(cs.take(c as int), which),
            decreases cs.len() - c,
        {
            let status = self.channels[c].status();
            let value: usize = match which {
                Tally::Sent => status.sent(),
                Tally::Received => status.received(),
                Tally::Concluded => status.concluded(),
            };
            proof {
                assert(cs.take(c + 1).drop_last() =~= cs.take(c as int));
                lemma_tally_prefix(cs, c + 1, which);
            }
            match total.checked_add(value) {
                Some(next) => {
                    total = next;
                },
                None => {
                    return None;
                },
            }
            c = c + 1;
        }
        proof {
            assert(cs.take(cs.len() as int) =~= cs);
        }
        Some(total)
    }

    /// The jobs sent over all channels, or `None` when the total does not
    /// fit in a `usize`.
    pub fn sent_jobs(&self) -> (total: Option<usize>)
        ensures
            total matches Some(n) ==> n == tally_total(self@.channels, Tally::Sent),
            total is None <==> tally_total(self@.channels, Tally::Sent) > usize::MAX,
    {
        self.tally(Tally::Sent)
    }

    /// The jobs received over all channels, or `None` when the total does
    /// not fit in a `usize`.
    pub fn received_jobs(&self) -> (total: Option<usize>)
        ensures
            total matches Some(n) ==> n == tally_total(self@.channels, Tally::Received),
            total is None <==> tally_total(self@.channels, Tally::Received) > usize::MAX,
    {
        self.tally(Tally::Received)
    }

    /// The jobs concluded over all channels, or `None` when the total does
    /// not fit in a `usize`.
    pub fn concluded_jobs(&self) -> (total: Option<usize>)
        ensures
            total matches Some(n) ==> n == tally_total(self@.channels, Tally::Concluded),
            total is None <==> tally_total(self@.channels, Tally::Concluded) > usize::MAX,
    {
        self.tally(Tally::Concluded)
    }

    /// The jobs left in the queues of all channels (sent or being sent, and
    /// not received), or `None` when a channel's count or the total cannot be
    /// counted in a `usize`.
    pub fn job_queue(&self) -> (queue: Option<usize>)
        ensures
            queue matches Some(n) ==> n == pending_total(self@.channels),
            queue is None <==> !(pending_countable(self@.channels) && pending_total(self@.channels) <= usize::MAX),
    {
        let ghost cs = self@.channels;
        let mut queue: usize = 0;
        let mut c: usize = 0;
        while c < self.channels.len()
            invariant
                c <= cs.len(),
                cs == self@.channels,
                cs.len() == self.channels@.len(),
                pending_countable(cs.take(c as int)),
                queue == pending_total(cs.take(c as int)),
            decreases cs.len() - c,
        {
            let status = self.channels[c].status();
            let sent: usize = status.sent();
            let sending: usize = status.sending();
            let received: usize = status.received();
            proof {
                assert(cs.take(c + 1).drop_last() =~= cs.take(c as int));
                assert(cs[c as int] == self.channels@[c as int]@);
            }
            let outgoing: usize = match sent.checked_add(sending) {
                Some(n) => n,
                None => {
                    return None;
                },
            };
            if received > outgoing {
                return None;
            }
            let pending: usize = outgoing - received;
            proof {
                assert(pending_countable(cs.take(c + 1))) by {
                    assert forall|k: int| 0 <= k < c + 1 implies {
                        &&& #[trigger] cs.take(c + 1)[k].sent + cs.take(c + 1)[k].sending <= usize::MAX
                        &&& cs.take(c + 1)[k].received <= cs.take(c + 1)[k].sent + cs.take(c + 1)[k].sending
                    } by {
                        if k < c {
                            assert(cs.take(c + 1)[k] == cs.take(c as int)[k]);
                        }
                    }
                }
            }
            match queue.checked_add(pending) {
                Some(next) => {
                    queue = next;
                },
                None => {
                    proof {
                        if pending_countable(cs) {
                            lemma_pending_prefix(cs, c + 1);
                        }
                    }
                    return None;
                },
            }
            c = c + 1;
        }
        proof {
            assert(cs.take(cs.len() as int) =~= cs);
        }
        Some(queue)
    }

    /// Takes the next result, when some result has been sent and not yet
    /// concluded: the oldest result waiting, which is then concluded.
    /// Otherwise there is nothing to take and nothing changes.
    pub fn next_result(&mut self) -> (result: Option<T>)
        requires
            old(self).valid(),
        ensures
            final(self).valid(),
            final(self).queues() == old(self).queues(),
            !old(self)@.has_results() ==> {
                &&& result is None
                &&& final(self)@ == old(self)@
                &&& final(self).result_queue() == old(self).result_queue()
            },
            old(self)@.has_results() ==> {
                &&& old(self).result_queue().len() > 0
                &&& result == Some(old(self).result_queue()[0])
                &&& final(self).result_queue() == old(self).result_queue().drop_first()
                &&& final(self)@ == (PoolView {
                    results: old(self)@.results.after_receive(true).after_conclude(),
                    ..old(self)@
                })
            },
    {
        if self.result_channel.is_finished() {
            return None;
        }
        proof {
            let r = self.result_channel@;
            lemma_results_waiting(r.received, r.sent, self.result_channel.queue().len());
            lemma_results_pop(r.received, r.sent, self.result_channel.queue().len());
        }
        let received = self.result_channel.recv();
        self.result_channel.add_concluded();
        proof {
            lemma_tally_frame(old(self)@, self@);
        }
        match received {
            Ok(result) => Some(result),
            Err(_) => None,
        }
    }

    /// Looks for the next result: the oldest result waiting is taken and
    /// concluded. When none is waiting, the results are pending while some
    /// job is outstanding, and done otherwise (no result is then
    /// outstanding either).
    pub fn poll_result(&mut self) -> (poll: ResultPoll<T>)
        requires
            old(self).valid(),
        ensures
            final(self).valid(),
            final(self).queues() == old(self).queues(),
            old(self).result_queue().len() > 0 ==> {
                &&& poll == ResultPoll::Ready(old(self).result_queue()[0])
                &&& final(self).result_queue() == old(self).result_queue().drop_first()
                &&& final(self)@ == (PoolView {
                    results: old(self)@.results.after_receive(true).after_conclude(),
                    ..old(self)@
                })
            },
            old(self).result_queue().len() == 0 ==> {
                &&& !old(self)@.has_results()
                &&& (poll is Done <==> !old(self)@.some_worker_has_jobs())
                &&& (poll is Pending <==> old(self)@.some_worker_has_jobs())
                &&& final(self)@ == old(self)@
                &&& final(self).result_queue() == old(self).result_queue()
            },
    {
        proof {
            let r = self.result_channel@;
            if self.result_channel.queue().len() > 0 {
                lemma_results_pop(r.received, r.sent, self.result_channel.queue().len());
            } else {
                vstd::arithmetic::div_mod::lemma_small_mod(r.received as nat, (usize::MAX + 1) as nat);
            }
        }
        match self.result_channel.try_recv() {
            Ok(result) => {
                self.result_channel.add_concluded();
                proof {
                    lemma_tally_frame(old(self)@, self@);
                }
                ResultPoll::Ready(result)
            },
            Err(_) => {
                if self.has_jobs() || self.has_results() {
                    ResultPoll::Pending
                } else {
                    ResultPoll::Done
                }
            },
        }
    }
}

/// Starting a stopped worker makes it ready for its next turn: it is
/// active, not running a job, and any earlier order to terminate is
/// forgotten, so that turn hands out the oldest message of its channel
/// (see [`ThreadManagerCore::poll_worker`]) instead of stopping. A worker
/// that is active already is left as it is.
pub proof fn lemma_started_worker_takes_its_jobs(w: WorkerView)
    requires
        worker_flags_wf(w.flags),
    ensures
        !w.flags.active ==> {
            &&& after_start(w).flags.active
            &&& !after_start(w).flags.busy
            &&& !after_start(w).terminating
            &&& after_start(w).id == w.id
            &&& after_start(w).flags.received == w.flags.received
        },
        w.flags.active ==> after_start(w) == w,
        worker_flags_wf(after_start(w).flags),
{
}

/// Every channel is finished exactly when each concluded as many jobs as
/// were sent to it, and some worker has jobs exactly when some channel has
/// concluded fewer than it was sent (taking a job is not concluding it).
pub proof fn lemma_finished_means_every_job_concluded(pool: PoolView)
    requires
        pool.layout_wf(),
    ensures
        pool.all_finished() <==> forall|c: int| 0 <= c < pool.channels.len() ==> #[trigger] pool.channels[c].concluded == pool.channels[c].sent,
        pool.some_worker_has_jobs() <==> exists|c: int| 0 <= c < pool.channels.len() && #[trigger] pool.channels[c].concluded != pool.channels[c].sent,
{
    lemma_has_jobs_iff_unfinished(pool);
    if !pool.all_finished() {
        let c = choose|c: int| 0 <= c < pool.channels.len() && !(#[trigger] pool.channels[c]).finished();
        assert(pool.channels[c].concluded != pool.channels[c].sent);
    }
    if exists|c: int| 0 <= c < pool.channels.len() && #[trigger] pool.channels[c].concluded != pool.channels[c].sent {
        let c = choose|c: int| 0 <= c < pool.channels.len() && #[trigger] pool.channels[c].concluded != pool.channels[c].sent;
        assert(!pool.channels[c].finished());
    }
}

/// As long as no counter has wrapped around (see
/// [`lemma_channel_accounting`]), the pool is finished exactly when no job
/// is left anywhere: none waits in a channel, none is being run by a
/// worker, and none was dropped by clearing a channel.
pub proof fn lemma_finished_means_nothing_left<F, T>(m: &ThreadManagerCore<F, T>)
    requires
        m.valid(),
        forall|c: int| 0 <= c < m@.channels.len() ==> {
            &&& #[trigger] sum_on(m@.workers, m@.wpc, c, received_weight()) + m@.dropped[c] + job_count(m.queues()[c]) <= usize::MAX
            &&& sum_on(m@.workers, m@.wpc, c, busy_weight()) <= sum_on(m@.workers, m@.wpc, c, received_weight())
        },
    ensures
        m@.all_finished() <==> forall|c: int| 0 <= c < m@.channels.len() ==> {
            &&& #[trigger] job_count(m.queues()[c]) == 0
            &&& sum_on(m@.workers, m@.wpc, c, busy_weight()) == 0
            &&& m@.dropped[c] == 0
        },
{
    assert forall|c: int| #![trigger m@.channels[c]] #![trigger job_count(m.queues()[c])] 0 <= c < m@.channels.len() implies (m@.channels[c].finished() <==> {
        &&& job_count(m.queues()[c]) == 0
        &&& sum_on(m@.workers, m@.wpc, c, busy_weight()) == 0
        &&& m@.dropped[c] == 0
    }) by {
        assert(sum_on(m@.workers, m@.wpc, c, received_weight()) + m@.dropped[c] + job_count(m.queues()[c]) <= usize::MAX);
        lemma_channel_accounting(m, c);
        lemma_sum_on_nonneg(m@.workers, m@.wpc, c, busy_weight());
    }
}

/// A pool has outstanding jobs on some worker's channel exactly when not
/// every channel is finished: `has_jobs() == !has_finished()`.
pub proof fn lemma_has_jobs_iff_unfinished(pool: PoolView)
    requires
        pool.layout_wf(),
    ensures
        pool.some_worker_has_jobs() <==> !pool.all_finished(),
{
    if !pool.all_finished() {
        let c = choose|c: int| 0 <= c < pool.channels.len() && !(#[trigger] pool.channels[c]).finished();
        let w = pool.wpc as int;
        let n = pool.channels.len() as int;
        let i = c * w;
        assert(i < n * w) by (nonlinear_arith)
            requires 0 <= c < n, w > 0, i == c * w;
        assert(i / w == c) by (nonlinear_arith)
            requires i == c * w, w > 0, c >= 0;
        assert(pool.channel_of(i as nat) == c);
        assert(0 <= i < pool.workers.len() && !pool.channels[pool.channel_of(i as nat) as int].finished());
    }
    if pool.some_worker_has_jobs() {
        let i = choose|i: int|
            0 <= i < pool.workers.len() && !(#[trigger] pool.channels[pool.channel_of(i as nat) as int]).finished();
        lemma_worker_channel_in_range(pool, i as nat);
    }
}

} // verus!
