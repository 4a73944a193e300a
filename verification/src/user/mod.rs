//! Helpers for user programs.
pub mod acts;
pub mod answers;
pub mod argv;
pub mod calls;
pub mod demo;
pub mod dns;
pub mod fmt;
pub mod web;
pub mod words;
