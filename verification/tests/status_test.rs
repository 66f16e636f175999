use thread_manager::{ChannelStatus, DispatchCycle, ManagerStatus, WorkerSignals, WorkerStatus};

#[test]
fn dispatch_cycle_hands_out_slots_round_robin() {
    let mut cycle = DispatchCycle::new(3);
    let ids: Vec<usize> = (0..7).map(|_| cycle.fetch_and_update()).collect();
    assert_eq!(ids, vec![0, 1, 2, 0, 1, 2, 0]);
    assert_eq!(cycle.fetch_id(), 1);
    assert_eq!(cycle.fetch_size(), 3);
}

#[test]
fn dispatch_cycle_of_one_slot_stays_at_zero() {
    let mut cycle = DispatchCycle::new(1);
    assert_eq!(cycle.fetch_and_update(), 0);
    assert_eq!(cycle.fetch_and_update(), 0);
    assert_eq!(cycle.fetch_id(), 0);
}

#[test]
fn dispatch_cycle_set_size_restarts_a_cursor_at_the_last_slot() {
    let mut cycle = DispatchCycle::new(8);
    cycle.set_id(5);
    cycle.set_size(6);
    assert_eq!(cycle.fetch_id(), 0);
    assert_eq!(cycle.fetch_size(), 6);

    cycle.set_id(3);
    cycle.set_size(6);
    assert_eq!(cycle.fetch_id(), 3);

    cycle.set_id(2);
    cycle.set_size(12);
    assert_eq!(cycle.fetch_id(), 2);
}

#[test]
fn dispatch_cycle_set_id_out_of_range_wraps_on_next_fetch() {
    let mut cycle = DispatchCycle::new(4);
    cycle.set_id(9);
    assert_eq!(cycle.fetch_and_update(), 9);
    assert_eq!(cycle.fetch_id(), 0);
}

#[test]
fn worker_signals_give_back_what_was_set() {
    let mut signals = WorkerSignals::new();
    assert!(!signals.get_join_signal());
    assert!(!signals.get_termination_signal());
    signals.set_join_signal(true);
    assert!(signals.get_join_signal());
    assert!(!signals.get_termination_signal());
    signals.set_termination_signal(true);
    signals.set_join_signal(false);
    assert!(!signals.get_join_signal());
    assert!(signals.get_termination_signal());
}

#[test]
fn manager_status_counts_up_and_down() {
    let mut status = ManagerStatus::new();
    status.set_active(true);
    status.set_active(true);
    status.set_waiting(true);
    status.set_busy(true);
    status.set_busy(true);
    status.set_busy(true);
    assert_eq!(status.active_threads(), 2);
    assert_eq!(status.waiting_threads(), 1);
    assert_eq!(status.busy_threads(), 3);
    status.set_active(false);
    status.set_busy(false);
    assert_eq!(status.active_threads(), 1);
    assert_eq!(status.busy_threads(), 2);
    assert_eq!(status.waiting_threads(), 1);
}

#[test]
fn manager_status_wraps_below_zero_like_an_atomic() {
    let mut status = ManagerStatus::new();
    status.set_waiting(false);
    assert_eq!(status.waiting_threads(), usize::MAX);
    status.set_waiting(true);
    assert_eq!(status.waiting_threads(), 0);
}

#[test]
fn worker_status_flags() {
    let mut status = WorkerStatus::new();
    assert!(!status.is_active() && !status.is_waiting() && !status.is_busy());
    assert_eq!(status.received(), 0);
    status.set_active(true);
    status.set_busy(true);
    status.add_received();
    status.add_received();
    assert!(status.is_active());
    assert!(!status.is_waiting());
    assert!(status.is_busy());
    assert_eq!(status.received(), 2);
    status.set_waiting(true);
    status.set_busy(false);
    assert!(status.is_waiting());
    assert!(!status.is_busy());
}

#[test]
fn channel_status_counters() {
    let mut status = ChannelStatus::new();
    for _ in 0..5 {
        status.add_sent();
    }
    status.add_sending();
    status.add_sending();
    status.add_received();
    status.add_received();
    status.add_receiving();
    status.add_concluded();
    assert_eq!(status.sent(), 5);
    assert_eq!(status.sending(), 2);
    assert_eq!(status.received(), 2);
    assert_eq!(status.receiving(), 1);
    assert_eq!(status.concluded(), 1);
    assert_eq!(status.available(), 3);
    assert_eq!(status.pending(), 5);
    status.sub_sending();
    status.sub_receiving();
    assert_eq!(status.sending(), 1);
    assert_eq!(status.receiving(), 0);
    assert_eq!(status.pending(), 4);
}

#[test]
fn channel_status_sub_wraps_like_an_atomic() {
    let mut status = ChannelStatus::new();
    status.sub_receiving();
    assert_eq!(status.receiving(), usize::MAX);
    status.add_receiving();
    assert_eq!(status.receiving(), 0);
}

#[test]
fn channel_status_copy_is_a_snapshot() {
    let mut status = ChannelStatus::new();
    status.add_sent();
    let snapshot = status;
    status.add_sent();
    assert_eq!(snapshot.sent(), 1);
    assert_eq!(status.sent(), 2);
}
