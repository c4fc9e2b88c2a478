//! Project-scaffolding core: board catalog discovery, template tree
//! snapshots, placeholder rendering, path-safe file resolution, and an
//! in-memory project registry.

pub mod boards;
pub mod errors;
pub mod facade;
pub mod paths;
pub mod projects;
pub mod render;
pub mod templates;
pub mod text;
