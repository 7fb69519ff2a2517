//! The candidates for the tunnel's endpoint, and which of them are cooling down.

pub mod source;
pub mod state;
