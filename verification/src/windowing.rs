//! Event-time windows over a stream of quads.

pub mod csparql_window;
pub mod laws;
pub mod model;
