//! What is decided about native objects, apart from the calls that reach them.
pub mod laws;
pub mod macos;
