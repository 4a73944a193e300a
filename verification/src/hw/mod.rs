//! Devices: what is written to their registers, and what follows from what is
//! read.
pub mod acts;
pub mod keys;
pub mod plic;
pub mod sbi;
pub mod timer;
pub mod uart;
pub mod virtio;
