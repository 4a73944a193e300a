//! Processes: the table, per-hart run queues, groups and namespaces.
//!
//! Everything works on a `Sched`. The hart asking and the tick count are
//! arguments; what the hart has to do next is a result.
pub mod acts;
pub mod args;
pub mod begin;
pub mod elf;
pub mod fair;
pub mod family;
pub mod group;
pub mod image;
pub mod keep;
pub mod laws;
pub mod life;
pub mod need;
pub mod path;
pub mod proc;
pub mod record;
pub mod route;
pub mod sched;
pub mod start;
pub mod state;
pub mod tell;
pub mod turn;
pub mod wait;
