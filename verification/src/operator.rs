//! Operators over streams: sinks, integration, and fixed-point iteration.

pub mod inspect;
pub mod integrate;
pub mod iterate;
