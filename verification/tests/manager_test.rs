use thread_manager::{ResultPoll, ThreadManagerCore, WorkerEvent};

type Job<T> = Box<dyn Fn() -> T + Send + 'static>;

/// Runs worker `id` until it stops or finds nothing to do; returns whether it stopped.
fn drive<T>(core: &mut ThreadManagerCore<Job<T>, T>, id: usize) -> bool {
    loop {
        match core.poll_worker(id) {
            WorkerEvent::Job(job) => {
                let result = job();
                core.complete_job(id, result).ok().expect("Failed to send result");
            }
            WorkerEvent::Idle => return false,
            WorkerEvent::Stop => return true,
        }
    }
}

/// Releases every worker, lets each one work off its channel, and clears the channels.
fn join<T>(core: &mut ThreadManagerCore<Job<T>, T>) {
    let workers = core.worker_count();
    core.send_release_workers(0, workers).ok().expect("Failed to release Worker");
    for id in 0..workers {
        drive(core, id);
    }
    let channels = core.channel_count();
    core.clear_channels(0, channels);
}

fn execute<T>(core: &mut ThreadManagerCore<Job<T>, T>, job: Job<T>) -> usize {
    match core.execute(job) {
        Ok(d) => d.worker,
        Err(e) => panic!("Failed to send job to Worker [{}]", e.worker),
    }
}

fn function(idx: usize) -> usize {
    idx
}

#[test]
fn resize_test() {
    let mut core: ThreadManagerCore<Job<()>, ()> = ThreadManagerCore::new(4);
    for _ in 0..100 {
        execute(&mut core, Box::new(|| ()));
    }
    let spawned = core.resize(12).ok().expect("resize");
    assert_eq!(spawned, (4..12).collect::<Vec<usize>>());
    for _ in 0..100 {
        execute(&mut core, Box::new(|| ()));
    }
    let spawned = core.resize(6).ok().expect("resize");
    assert!(spawned.is_empty());
    for _ in 0..100 {
        execute(&mut core, Box::new(|| ()));
    }
    join(&mut core);

    let job_dist: Vec<usize> = core.job_distribution();
    let dist_sum: usize = job_dist.iter().sum();
    println!("Distribution: {:?} | Sum: {}", job_dist, dist_sum);
    assert_eq!(job_dist.len(), 12);
    assert_eq!(dist_sum, 300);
}

#[test]
fn result_test() {
    println!("[RESULT TEST]");
    let mut core: ThreadManagerCore<Job<usize>, usize> = ThreadManagerCore::new(4);
    for idx in 0..5 {
        execute(&mut core, Box::new(move || function(idx)));
    }
    let mut results: Vec<usize> = Vec::new();
    loop {
        match core.poll_result() {
            ResultPoll::Ready(result) => {
                println!("Result: {}", result);
                results.push(result);
            }
            ResultPoll::Pending => {
                for id in 0..core.worker_count() {
                    drive(&mut core, id);
                }
            }
            ResultPoll::Done => break,
        }
    }
    results.sort();
    assert_eq!(results, vec![0, 1, 2, 3, 4]);
}

#[test]
fn asymmetric_result_test() {
    println!("[ASYMMETRIC RESULT TEST]");
    let mut core: ThreadManagerCore<Job<usize>, usize> = ThreadManagerCore::new_asymmetric(4, 2);
    assert_eq!(core.channel_count(), 2);
    for idx in 0..5 {
        execute(&mut core, Box::new(move || function(idx)));
    }
    let mut results: Vec<usize> = Vec::new();
    loop {
        match core.poll_result() {
            ResultPoll::Ready(result) => {
                println!("Result: {}", result);
                results.push(result);
            }
            ResultPoll::Pending => {
                for id in 0..core.worker_count() {
                    drive(&mut core, id);
                }
            }
            ResultPoll::Done => break,
        }
    }
    results.sort();
    assert_eq!(results, vec![0, 1, 2, 3, 4]);
}

#[test]
fn new_pool_is_laid_out_and_started() {
    let core: ThreadManagerCore<Job<u8>, u8> = ThreadManagerCore::new_asymmetric(6, 3);
    assert_eq!(core.worker_count(), 6);
    assert_eq!(core.channel_count(), 2);
    assert_eq!(core.wpc(), 3);
    assert_eq!(core.dispatch_size(), 6);
    assert_eq!(core.active_threads(), 6);
    assert_eq!(core.waiting_threads(), 0);
    assert_eq!(core.busy_threads(), 0);
    assert_eq!(core.job_distribution(), vec![0; 6]);
    assert!(core.has_finished());
    assert!(!core.has_jobs());
    assert!(!core.has_results());
    assert_eq!(core.sent_jobs(), Some(0));
    assert_eq!(core.job_queue(), Some(0));
}

#[test]
fn execute_goes_round_robin_and_counts() {
    let mut core: ThreadManagerCore<Job<u8>, u8> = ThreadManagerCore::new(3);
    let ids: Vec<usize> = (0..7).map(|_| execute(&mut core, Box::new(|| 1))).collect();
    assert_eq!(ids, vec![0, 1, 2, 0, 1, 2, 0]);
    assert_eq!(core.sent_jobs(), Some(7));
    assert_eq!(core.received_jobs(), Some(0));
    assert_eq!(core.concluded_jobs(), Some(0));
    assert_eq!(core.job_queue(), Some(7));
    assert!(!core.has_finished());
    assert!(core.has_jobs());
}

#[test]
fn worker_loop_updates_the_pool_counters() {
    let mut core: ThreadManagerCore<Job<u8>, u8> = ThreadManagerCore::new(2);
    execute(&mut core, Box::new(|| 5));
    let job = match core.poll_worker(0) {
        WorkerEvent::Job(job) => job,
        _ => panic!("expected a job"),
    };
    assert_eq!(core.busy_threads(), 1);
    assert_eq!(core.received_jobs(), Some(1));
    assert_eq!(core.job_queue(), Some(0));
    assert!(matches!(core.poll_worker(1), WorkerEvent::Idle));
    assert_eq!(core.waiting_threads(), 1);
    core.complete_job(0, job()).ok().expect("Failed to send result");
    assert_eq!(core.busy_threads(), 0);
    assert_eq!(core.concluded_jobs(), Some(1));
    assert!(core.has_finished());
    assert!(core.has_results());
    assert_eq!(core.next_result(), Some(5));
    assert!(!core.has_results());
    assert_eq!(core.next_result(), None);
    assert_eq!(core.job_distribution(), vec![1, 0]);
}

#[test]
fn execute_starts_a_stopped_worker() {
    let mut core: ThreadManagerCore<Job<u8>, u8> = ThreadManagerCore::new(1);
    core.send_release_workers(0, 1).ok().expect("release");
    assert!(drive(&mut core, 0));
    assert_eq!(core.active_threads(), 0);
    let dispatched = core.execute(Box::new(|| 9)).ok().expect("send");
    assert_eq!(dispatched.worker, 0);
    assert!(dispatched.spawn);
    assert_eq!(core.active_threads(), 1);
    assert!(!core.start(0));
}

#[test]
fn terminate_all_stops_every_worker() {
    let mut core: ThreadManagerCore<Job<u8>, u8> = ThreadManagerCore::new(3);
    execute(&mut core, Box::new(|| 1));
    core.set_termination_workers(0, 3);
    core.send_release_workers(0, 3).ok().expect("release");
    for id in 0..3 {
        assert!(matches!(core.poll_worker(id), WorkerEvent::Stop));
    }
    assert_eq!(core.active_threads(), 0);
    core.clear_channels(0, 3);
    assert_eq!(core.job_queue(), Some(0));
    assert_eq!(core.job_distribution(), vec![0, 0, 0]);
}

#[test]
fn resize_down_releases_and_up_restarts() {
    let mut core: ThreadManagerCore<Job<u8>, u8> = ThreadManagerCore::new(4);
    assert!(core.resize(2).ok().expect("resize").is_empty());
    assert_eq!(core.dispatch_size(), 2);
    assert_eq!(core.worker_count(), 4);
    assert!(drive(&mut core, 2));
    assert!(drive(&mut core, 3));
    assert_eq!(core.active_threads(), 2);
    let ids: Vec<usize> = (0..4).map(|_| execute(&mut core, Box::new(|| 0))).collect();
    assert_eq!(ids, vec![0, 1, 0, 1]);

    let spawned = core.resize(4).ok().expect("resize");
    assert_eq!(spawned, vec![2, 3]);
    assert_eq!(core.active_threads(), 4);
    assert_eq!(core.dispatch_size(), 4);

    let spawned = core.resize(6).ok().expect("resize");
    assert_eq!(spawned, vec![4, 5]);
    assert_eq!(core.worker_count(), 6);
    assert_eq!(core.channel_count(), 6);
}

#[test]
fn resize_to_the_same_size_changes_nothing() {
    let mut core: ThreadManagerCore<Job<u8>, u8> = ThreadManagerCore::new(3);
    execute(&mut core, Box::new(|| 0));
    assert!(core.resize(3).ok().expect("resize").is_empty());
    assert_eq!(execute(&mut core, Box::new(|| 0)), 1);
}

#[test]
fn poll_result_is_done_when_nothing_is_outstanding() {
    let mut core: ThreadManagerCore<Job<u8>, u8> = ThreadManagerCore::new(2);
    assert!(matches!(core.poll_result(), ResultPoll::Done));
    execute(&mut core, Box::new(|| 3));
    assert!(matches!(core.poll_result(), ResultPoll::Pending));
}

#[test]
fn workers_take_jobs_in_order_and_results_come_back_in_order() {
    let mut core: ThreadManagerCore<Job<usize>, usize> = ThreadManagerCore::new_asymmetric(2, 2);
    for idx in 0..6 {
        execute(&mut core, Box::new(move || idx * 10));
    }
    let mut taken: Vec<usize> = Vec::new();
    loop {
        match core.poll_worker(0) {
            WorkerEvent::Job(job) => {
                let r = job();
                taken.push(r);
                core.complete_job(0, r).ok().expect("send");
            }
            _ => break,
        }
    }
    assert_eq!(taken, vec![0, 10, 20, 30, 40, 50]);
    let results: Vec<usize> = (0..6).map(|_| core.next_result().unwrap()).collect();
    assert_eq!(results, vec![0, 10, 20, 30, 40, 50]);
    assert_eq!(core.next_result(), None);
    assert_eq!(core.worker_status(0).received(), 6);
    assert!(!core.worker_status(0).is_busy());
}

#[test]
fn shrinking_queues_the_stop_behind_waiting_jobs() {
    let mut core: ThreadManagerCore<Job<u8>, u8> = ThreadManagerCore::new(2);
    for _ in 0..4 {
        execute(&mut core, Box::new(|| 1));
    }
    assert!(core.resize(1).ok().expect("resize").is_empty());
    let mut jobs = 0;
    loop {
        match core.poll_worker(1) {
            WorkerEvent::Job(job) => {
                jobs += 1;
                core.complete_job(1, job()).ok().expect("send");
            }
            WorkerEvent::Stop => break,
            WorkerEvent::Idle => panic!("the order to stop is queued"),
        }
    }
    assert_eq!(jobs, 2);
    assert_eq!(core.active_threads(), 1);
    assert_eq!(core.job_queue(), Some(2));
}

#[test]
fn channel_counters_account_for_every_job() {
    let mut core: ThreadManagerCore<Job<usize>, usize> = ThreadManagerCore::new(2);
    for idx in 0..5 {
        execute(&mut core, Box::new(move || idx));
    }
    // Worker 0 holds jobs 0, 2, 4; it takes one and runs it, then takes another.
    match core.poll_worker(0) {
        WorkerEvent::Job(job) => core.complete_job(0, job()).ok().expect("send"),
        _ => panic!("a job is queued"),
    }
    match core.poll_worker(0) {
        WorkerEvent::Job(_) => {}
        _ => panic!("a job is queued"),
    }
    assert_eq!(core.sent_jobs(), Some(5));
    assert_eq!(core.received_jobs(), Some(2));
    assert_eq!(core.concluded_jobs(), Some(1));
    assert_eq!(core.job_queue(), Some(3));
    assert_eq!(core.busy_threads(), 1);
    let dist_sum: usize = core.job_distribution().iter().sum();
    assert_eq!(dist_sum, 2);
    assert!(!core.has_finished());
    core.complete_job(0, 2).ok().expect("send");
    assert!(!drive(&mut core, 0));
    assert!(!drive(&mut core, 1));
    assert_eq!(core.sent_jobs(), Some(5));
    assert_eq!(core.received_jobs(), Some(5));
    assert_eq!(core.concluded_jobs(), Some(5));
    assert_eq!(core.job_queue(), Some(0));
    assert!(core.has_finished());
}

#[test]
fn growing_back_withdraws_orders_to_stop_not_yet_taken() {
    let mut core: ThreadManagerCore<Job<u8>, u8> = ThreadManagerCore::new(2);
    assert!(core.resize(1).ok().expect("resize").is_empty());
    // Worker 1 has not reached its order to stop yet: it is still active.
    assert!(core.resize(2).ok().expect("resize").is_empty());
    assert_eq!(core.active_threads(), 2);
    assert_eq!(execute(&mut core, Box::new(|| 7)), 0);
    match core.execute(Box::new(|| 8)) {
        Ok(d) => {
            assert_eq!(d.worker, 1);
            assert!(!d.spawn);
        }
        Err(_) => panic!("the send does not fail"),
    }
    // The order to stop is gone: worker 1 runs the job instead of stopping.
    match core.poll_worker(1) {
        WorkerEvent::Job(job) => core.complete_job(1, job()).ok().expect("send"),
        _ => panic!("the job is the oldest message"),
    }
    assert!(!drive(&mut core, 1));
    assert_eq!(core.active_threads(), 2);
    assert_eq!(core.next_result(), Some(8));
}

#[test]
fn growing_back_restarts_a_worker_that_stopped() {
    let mut core: ThreadManagerCore<Job<u8>, u8> = ThreadManagerCore::new(2);
    assert!(core.resize(1).ok().expect("resize").is_empty());
    assert!(drive(&mut core, 1));
    assert_eq!(core.active_threads(), 1);
    assert_eq!(core.resize(2).ok().expect("resize"), vec![1]);
    assert_eq!(core.active_threads(), 2);
    assert!(!drive(&mut core, 1));
}
