//! Keeps one delete-task pipeline running for every index known to the metastore.

pub mod descriptor;
pub mod diff;
pub mod handle_map;
pub mod laws;
pub mod service;

pub use descriptor::IndexDescriptor;
pub use handle_map::PipelineHandles;
pub use service::{Action, DeleteTaskService, DeleteTaskServiceState, Event, Phase};
