//! Pipelines of processing stages and the router that picks one per frame.
pub mod router;
pub mod stage;


pub use router::{RouteCondition, Router};
pub use stage::{Fallback, LogBatch, Pipeline, PipelineStage};
