//! Batch assignment of students to activity programs.
//!
//! Every student ranks up to five programs for each of five time blocks. The
//! engine in [`app`] places students block by block, most-preferred rank
//! first, never exceeding a program's capacity, and falls back to the
//! least-enrolled open program of the block when no ranked wish can be met.
//! All of it is stated over the mathematical model in [`model`] and proved.

pub mod app;
pub mod block;
pub mod laws;
pub mod load;
pub mod model;
pub mod order;
pub mod program;
pub mod rounds;
pub mod student;
pub mod top_wishes;
