//! Memory and execution management for a single-core bare-metal kernel: a
//! buddy-system physical frame allocator and a round-robin thread scheduler,
//! with the console line discipline and shell command recognition beside them.
pub mod buddy;
pub mod command;
pub mod frame;
pub mod scheduler;
pub mod sorted;
pub mod stdio;
pub mod thread;
