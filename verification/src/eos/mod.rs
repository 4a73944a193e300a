//! The embedded system: three tasks on one hart, in machine mode.
pub mod acts;
pub mod clint;
pub mod report;
pub mod shell;
pub mod talk;
pub mod task;
pub mod text;
pub mod trap;
pub mod uart;
pub mod worker;
