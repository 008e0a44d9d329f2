//! A verified model of a small multi-hart teaching kernel and its flat
//! filesystem.
//!
//! - `task`: threads, per-hart ready queues, stride scheduling, sleep timers.
//! - `process`: the pid table, fork, exit, waitpid, signals, descriptors.
//! - `resource`, `banker`, `sync`: mutexes, semaphores and condition
//!   variables with per-process resource matrices and the Banker's check.
//! - `mm`: user address spaces, `mmap`/`munmap`, user access faults, frames.
//! - `block_cache`, `fs`, `syscall`: the block cache, the inode engine and
//!   the filesystem system calls.
//! - `trap`, `console`, `rtrace`, `cell`: trap dispatch, console framing,
//!   prologue decoding for stack walks, and exclusive access to shared state.
//!
//! Nothing here waits or touches hardware: a call that must block says so
//! in its result, and the caller parks the thread.
pub mod banker;
pub mod block_cache;
pub mod cell;
pub mod console;
pub mod fs;
pub mod mm;
pub mod process;
pub mod resource;
pub mod rtrace;
pub mod sync;
pub mod syscall;
pub mod task;
pub mod trap;
