//! Continuous queries over streams of RDF quads: event-time windows that open,
//! report and evict as timestamps arrive, and the engine that wires several
//! such windows to a SPARQL evaluator.

pub mod engine;
pub mod quad;
pub mod quad_container;
pub mod window_instance;
pub mod windowing;

pub use engine::r2r::{answer_lines, R2RError, R2ROperator};
pub use engine::sparql::Answer;
pub use engine::rsp_engine::{
    stamp_bindings, BindingWithTimestamp, Gathered, Outcome, ParsedQuery, Processed, RDFStream,
    RSPEngine, WindowDefinition,
};
pub use quad_container::{Change, ContainerView, QuadContainer};
pub use window_instance::{Interval, WindowInstance};
pub use windowing::csparql_window::{
    execute_query, CSPARQLWindow, ReportStrategy, StreamType, Tick,
};
pub use windowing::model::WindowState;
