//! Deleting: what a caller asks for, what the guards allow, and what happened.

pub mod engine;
pub mod guards;
pub mod laws;
pub mod log;
pub mod model;
