//! What Biskit knows about a Roblox project.
pub mod api;
pub mod api_definitions;
pub mod api_laws;
pub mod context;
pub mod context_laws;
pub mod definition_laws;
pub mod doc_laws;
pub mod instance_path;
pub mod instance_path_laws;
pub mod lexing;
pub mod metadata;
pub mod require_graph;
pub mod shared_laws;
pub mod shared_require;
pub mod sourcemap;
pub mod sourcemap_laws;
pub mod suggestion_laws;
pub mod tree_laws;
