//! System calls.
pub mod acts;
pub mod ask;
pub mod call;
pub mod fd;
pub mod file;
pub mod follow;
pub mod guard;
pub mod proc;
pub mod reach;
pub mod serve;
pub mod text;
