//! Traps: saved registers, trap stacks, and what each trap leads to.
pub mod acts;
pub mod boot;
pub mod cause;
pub mod frame;
pub mod handler;
