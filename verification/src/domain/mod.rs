//! The data that crosses the boundary and the state that a session owns.
pub mod control_laws;
pub mod controller;
pub mod history;
pub mod index;
pub mod json;
pub mod laws;
pub mod model;
pub mod summary;
pub mod wire;
