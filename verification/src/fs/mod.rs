//! Block device, cache, journal and file systems.
pub mod acts;
pub mod blk;
pub mod cached;
pub mod dev;
pub mod disk;
pub mod jnl;
pub mod names;
pub mod pipe;
pub mod ramfs;
pub mod recover;
pub mod room;
pub mod sound;
pub mod text;
pub mod tree;
pub mod vfs;
