# thread_manager

A pool of worker threads whose bookkeeping is verified with Verus.

- `src/` is the verified library. It holds the pool's state as plain values:
  the round-robin dispatch cycle (`dispatch.rs`), the counters of the pool,
  of each worker and of each channel (`status.rs`), the job and result
  channels built on `crossbeam_channel` (`channel.rs`, with the trusted calls
  into that crate in `crossbeam.rs`), the bookkeeping of one worker
  (`worker.rs`), the whole pool — layout over channels, dispatch, resizing,
  the worker loop's turns, results and statistics (`manager.rs`) — and the
  state of a looping background thread (`looper.rs`).
- `app/` starts, sleeps and joins the threads. It shares the library's pool
  behind one mutex, runs each worker's loop by asking the library what to do,
  and offers the `ThreadManager`, `ResultIter`, `YieldResultIter` and
  `ThreadLooper` front ends.
- `tests/` exercise the library on concrete values.
