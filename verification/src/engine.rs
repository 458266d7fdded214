//! Query evaluation over window content, and the engine that ties windows,
//! streams and the evaluator together.

pub mod r2r;
pub mod rsp_engine;
pub mod sparql;
