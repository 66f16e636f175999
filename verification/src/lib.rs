//! Bookkeeping and scheduling core of a pool of worker threads.
//!
//! The library holds, as plain values, everything a thread pool decides:
//! which worker a job goes to, how the pool is laid out over job channels,
//! how it grows and shrinks, when a worker stops, and the counters that
//! describe the pool's activity. Jobs and results travel through
//! `crossbeam_channel` channels. Threads themselves are started and joined
//! by the caller, which performs the actions these types decide on.
pub mod channel;
mod crossbeam;
pub mod dispatch;
pub mod looper;
pub mod manager;
pub mod signals;
pub mod status;
pub mod worker;
pub mod wpc;

pub use channel::{
    ChannelRecvError, ChannelRecvTimeoutError, ChannelSendError, ChannelTryRecvError, JobChannel,
    MessageKind, ResultChannel,
};
pub use dispatch::DispatchCycle;
pub use looper::ThreadLooper;
pub use manager::{Dispatched, ResultPoll, Tally, ThreadManagerCore, WorkerSendError};
pub use signals::WorkerSignals;
pub use status::{ChannelStatus, ManagerStatus, WorkerStatus};
pub use worker::{Worker, WorkerEvent};
pub use wpc::assert_wpc;
