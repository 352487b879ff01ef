//! Planning and rendering pipeline that turns a resolved package-dependency
//! graph into declarative build-rule files for a hermetic build system.
//!
//! The pipeline has four stages, each a module here:
//! ingestion of raw metadata into a graph model (`model`), classification of
//! platform-conditional dependency edges (`platform`), planning of a
//! normalized build (`planner`), and deterministic rendering of rule files
//! (`render`). `order` supplies the lexicographic string order that keeps
//! every stage's output stable, and `settings` holds the user override
//! configuration threaded through planning.

pub mod order;
pub mod model;
pub mod platform;
pub mod settings;
pub mod planner;
pub mod render;
