//! Physical memory: frames with per-group accounting, Sv39 page tables kept
//! in those frames, and user address spaces.
pub mod acts;
pub mod copy;
pub mod frame;
pub mod heap;
pub mod kernel;
pub mod pagetable;
pub mod shape;
pub mod share;
pub mod space;
pub mod teardown;
