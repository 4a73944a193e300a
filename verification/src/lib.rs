//! The logic of a small RISC-V operating system, as plain state machines and
//! functions with proved contracts.
pub mod eos;
pub mod fs;
pub mod hw;
pub mod logic;
pub mod mem;
pub mod mkfs;
pub mod net;
pub mod sys;
pub mod task;
pub mod trap;
pub mod user;
