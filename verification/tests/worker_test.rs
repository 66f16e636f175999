use thread_manager::{
    JobChannel, ManagerStatus, ResultChannel, ThreadLooper, Worker, WorkerEvent,
};

#[test]
fn worker_start_is_needed_once() {
    let mut manager = ManagerStatus::new();
    let mut worker = Worker::new(3);
    assert_eq!(worker.id(), 3);
    assert!(worker.start(&mut manager));
    assert!(!worker.start(&mut manager));
    assert!(worker.status().is_active());
    assert_eq!(manager.active_threads(), 1);
}

#[test]
fn worker_runs_a_job_and_reports_it() {
    let mut manager = ManagerStatus::new();
    let mut jobs: JobChannel<u32> = JobChannel::new();
    let mut results: ResultChannel<u32> = ResultChannel::new();
    let mut worker = Worker::new(0);
    worker.start(&mut manager);

    assert!(matches!(worker.poll(&mut manager, &mut jobs), WorkerEvent::Idle));
    assert!(worker.status().is_waiting());
    assert_eq!(manager.waiting_threads(), 1);

    jobs.send(21).unwrap();
    let job = match worker.poll(&mut manager, &mut jobs) {
        WorkerEvent::Job(job) => job,
        _ => panic!("expected a job"),
    };
    assert_eq!(job, 21);
    assert!(!worker.status().is_waiting());
    assert!(worker.status().is_busy());
    assert_eq!(worker.status().received(), 1);
    assert_eq!(manager.waiting_threads(), 0);
    assert_eq!(manager.busy_threads(), 1);

    worker.complete(&mut manager, &mut jobs, &mut results, job * 2).unwrap();
    assert!(!worker.status().is_busy());
    assert_eq!(manager.busy_threads(), 0);
    assert!(jobs.is_finished());
    assert_eq!(results.try_recv().unwrap(), 42);
}

#[test]
fn worker_stops_on_release() {
    let mut manager = ManagerStatus::new();
    let mut jobs: JobChannel<u32> = JobChannel::new();
    let mut worker = Worker::new(0);
    worker.start(&mut manager);
    assert!(matches!(worker.poll(&mut manager, &mut jobs), WorkerEvent::Idle));
    jobs.send_release().unwrap();
    assert!(matches!(worker.poll(&mut manager, &mut jobs), WorkerEvent::Stop));
    assert!(!worker.status().is_active());
    assert!(!worker.status().is_waiting());
    assert_eq!(manager.active_threads(), 0);
    assert_eq!(manager.waiting_threads(), 0);
}

#[test]
fn terminated_worker_stops_without_taking_a_job() {
    let mut manager = ManagerStatus::new();
    let mut jobs: JobChannel<u32> = JobChannel::new();
    let mut worker = Worker::new(0);
    worker.start(&mut manager);
    jobs.send(1).unwrap();
    worker.set_termination(true);
    assert!(worker.termination());
    assert!(matches!(worker.poll(&mut manager, &mut jobs), WorkerEvent::Stop));
    assert!(!worker.termination());
    assert_eq!(jobs.status().received(), 0);
    assert_eq!(manager.active_threads(), 0);
    assert!(worker.start(&mut manager));
}

#[test]
fn worker_set_flags_count_in_the_pool() {
    let mut manager = ManagerStatus::new();
    let mut worker = Worker::new(1);
    worker.set_active(&mut manager, true);
    worker.set_waiting(&mut manager, true);
    worker.set_busy(&mut manager, true);
    assert_eq!(manager.active_threads(), 1);
    assert_eq!(manager.waiting_threads(), 1);
    assert_eq!(manager.busy_threads(), 1);
    worker.set_busy(&mut manager, false);
    assert!(!worker.status().is_busy());
    assert_eq!(manager.busy_threads(), 0);
}

#[test]
fn looper_starts_once_and_restarts_after_finishing() {
    let mut looper = ThreadLooper::new();
    assert!(!looper.is_active());
    assert!(looper.start());
    assert!(looper.is_active());
    assert!(!looper.start());
    assert!(looper.keep_looping());
    looper.terminate();
    assert!(!looper.keep_looping());
    looper.finish();
    assert!(!looper.is_active());
    assert!(looper.keep_looping());
    assert!(looper.start());
}
