//! Text forms of a payload.

pub mod bits;
pub mod standard;
pub mod words;
pub mod detect;
