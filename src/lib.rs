//! Snapshots of the syscall-restart state of running processes, and the
//! rounds that publish them to a key-value store: the collector's rules, the
//! text the store holds, and the publish loop's state machine.

pub mod codec;
pub mod collector;
pub mod decode;
pub mod publish;
pub mod syscall;
pub mod text;
