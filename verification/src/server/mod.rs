//! What the server offers, and how its answers are kept to size.
pub mod answer_laws;
pub mod requests;
pub mod results;
pub mod routes;
