//! Packages of a project that Wally manages.
pub mod cli;
pub mod cli_laws;
pub mod editing_laws;
pub mod listing_laws;
pub mod lockfile;
pub mod manifest;
pub mod manifest_laws;
pub mod package;
pub mod registry;
pub mod registry_laws;
pub mod request_laws;
pub mod toml;
pub mod tools;
pub mod versions;
