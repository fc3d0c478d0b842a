//! A dependency injection container's verified core: error values, the
//! dependency graph model with its validation and rendering, registration and
//! merging of an injector chain's registrations, dependency-map algorithms for
//! eager resolution, cache placement, and resolution bookkeeping. The modules
//! whose names end in `_laws` prove what spans several functions.
pub mod caching;
pub mod cycle_laws;
pub mod cycles;
pub mod deps;
pub mod eager;
pub mod eager_laws;
pub mod error;
pub mod graph;
pub mod graph_build;
pub mod graph_laws;
pub mod meta;
pub mod order;
pub mod provider;
pub mod registry;
pub mod registry_laws;
pub mod render_laws;
pub mod report_laws;
pub mod resolve_guard;
pub mod text;
pub mod types;
pub mod wave_laws;
pub mod waves;

pub use error::{Error, ErrorKind};
pub use types::Scope;
