//! Building a disk image.
pub mod acts;
pub mod image;
pub mod keep;
pub mod laws;
pub mod mount;
pub mod tight;
