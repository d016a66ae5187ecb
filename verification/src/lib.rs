//! The verified core of Biskit.
pub mod errors;
pub mod json;
pub mod json_laws;
pub mod lines;
pub mod paths;
pub mod paths_laws;
pub mod picking;
pub mod roblox;
pub mod serde_skip;
pub mod server;
pub mod session_start;
pub mod setup;
pub mod setup_laws;
pub mod status;
pub mod status_laws;
pub mod system;
pub mod text;
pub mod text_laws;
pub mod text_map;
pub mod upgrade;
pub mod upgrade_laws;
pub mod wally;
