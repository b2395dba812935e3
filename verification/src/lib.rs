//! The memory of an autonomous coding agent: a daily journal, the dream that
//! distills it into durable memories, and the layer that decides when to dream
//! and when to check in with the user.
//!
//! The library decides and computes; it reads and writes no file itself. What
//! takes several reads and writes is a state machine: it says what to do next,
//! and the caller does it and hands back what came of it.

pub mod calendar;
pub mod clock;
pub mod distill;
pub mod dream;
pub mod journal;
pub mod kairos;
pub mod memory;
pub mod numeral;
pub mod pass;
pub mod slug;
pub mod store;
pub mod text;
pub mod writing;
