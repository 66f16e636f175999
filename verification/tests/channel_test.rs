use std::time::Duration;
use thread_manager::{
    ChannelRecvTimeoutError, ChannelTryRecvError, JobChannel, MessageKind, ResultChannel,
};

#[test]
fn job_channel_sends_and_receives_in_order() {
    let mut channel: JobChannel<u32> = JobChannel::new();
    assert!(channel.send(7).is_ok());
    assert!(channel.send(8).is_ok());
    assert!(channel.send_release().is_ok());
    assert_eq!(channel.status().sent(), 2);
    assert_eq!(channel.status().sending(), 0);
    assert_eq!(channel.status().available(), 2);

    assert!(matches!(channel.recv(), Ok(MessageKind::Job(7))));
    assert!(matches!(channel.try_recv(), Ok(MessageKind::Job(8))));
    assert!(matches!(channel.recv_timeout(Duration::from_millis(5)), Ok(MessageKind::Release)));
    assert_eq!(channel.status().received(), 2);
    assert_eq!(channel.status().receiving(), 0);
    assert_eq!(channel.status().available(), 0);
}

#[test]
fn job_channel_failed_receives_report_disconnected() {
    let mut channel: JobChannel<u32> = JobChannel::new();
    assert!(matches!(channel.try_recv(), Err(ChannelTryRecvError::Disconnected)));
    assert!(matches!(
        channel.recv_timeout(Duration::from_millis(1)),
        Err(ChannelRecvTimeoutError::Disconnected)
    ));
    assert_eq!(channel.status().received(), 0);
    assert_eq!(channel.status().receiving(), 0);
}

#[test]
fn job_channel_is_finished_when_every_job_is_concluded() {
    let mut channel: JobChannel<u32> = JobChannel::new();
    assert!(channel.is_finished());
    channel.send(1).unwrap();
    assert!(!channel.is_finished());
    assert!(matches!(channel.try_recv(), Ok(MessageKind::Job(1))));
    assert!(!channel.is_finished());
    channel.add_concluded();
    assert!(channel.is_finished());
}

#[test]
fn job_channel_clear_drops_everything_left() {
    let mut channel: JobChannel<u32> = JobChannel::new();
    channel.send(1).unwrap();
    channel.send(2).unwrap();
    channel.send_release().unwrap();
    channel.clear();
    assert!(channel.try_recv().is_err());
    assert_eq!(channel.status().sent(), 2);
    assert_eq!(channel.status().received(), 2);
}

#[test]
fn result_channel_sends_and_receives() {
    let mut channel: ResultChannel<String> = ResultChannel::new();
    channel.send("a".to_string()).unwrap();
    channel.send("b".to_string()).unwrap();
    assert_eq!(channel.status().sent(), 2);
    assert_eq!(channel.recv().unwrap(), "a");
    assert_eq!(channel.try_recv().unwrap(), "b");
    assert_eq!(channel.status().received(), 2);
    assert!(matches!(channel.try_recv(), Err(ChannelTryRecvError::Disconnected)));
    assert!(!channel.is_finished());
    channel.add_concluded();
    channel.add_concluded();
    assert!(channel.is_finished());
}

#[test]
fn result_channel_recv_timeout_and_clear() {
    let mut channel: ResultChannel<u8> = ResultChannel::new();
    assert!(matches!(
        channel.recv_timeout(Duration::from_millis(1)),
        Err(ChannelRecvTimeoutError::Disconnected)
    ));
    channel.send(3).unwrap();
    assert_eq!(channel.recv_timeout(Duration::from_millis(5)).unwrap(), 3);
    channel.send(4).unwrap();
    channel.send(5).unwrap();
    channel.clear();
    assert!(channel.try_recv().is_err());
    assert_eq!(channel.status().received(), 3);
    assert_eq!(channel.status().receiving(), 0);
}

#[test]
fn job_channel_hands_out_messages_oldest_first() {
    let mut channel: JobChannel<u32> = JobChannel::new();
    channel.send(1).unwrap();
    channel.send_release().unwrap();
    channel.send(2).unwrap();
    assert!(matches!(channel.try_recv(), Ok(MessageKind::Job(1))));
    assert!(matches!(channel.try_recv(), Ok(MessageKind::Release)));
    assert!(matches!(channel.try_recv(), Ok(MessageKind::Job(2))));
    assert!(matches!(channel.try_recv(), Err(ChannelTryRecvError::Disconnected)));
    assert_eq!(channel.status().received(), 2);
}

#[test]
fn job_channel_send_timeout_sends_at_once() {
    let mut channel: JobChannel<u32> = JobChannel::new();
    assert!(channel.send_timeout(5, Duration::from_millis(0)).is_ok());
    assert_eq!(channel.status().sent(), 1);
    assert!(matches!(channel.try_recv(), Ok(MessageKind::Job(5))));
}

#[test]
fn result_channel_round_trip() {
    let mut channel: ResultChannel<u32> = ResultChannel::new();
    assert!(channel.send_timeout(7, Duration::from_millis(0)).is_ok());
    assert_eq!(channel.try_recv().unwrap(), 7);
    assert_eq!(channel.status().received(), channel.status().sent());
    assert!(matches!(channel.try_recv(), Err(ChannelTryRecvError::Disconnected)));
    assert_eq!(channel.status().received(), 1);
    assert_eq!(channel.status().receiving(), 0);
}
