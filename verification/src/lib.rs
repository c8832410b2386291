//! The decision logic of a small teaching kernel: deadlock detection over the
//! synchronisation primitives of a process, the stride scheduler's ready
//! queue, the memory-mapping and process system calls, and the directory
//! operations of its file system.
pub mod deadlock;
pub mod resources;
pub mod sync;
pub mod scheduler;
pub mod memory;
pub mod process;
pub mod vfs;
