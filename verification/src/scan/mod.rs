//! Measuring the usage of a directory tree.
pub mod aggregate;
pub mod budgeted_source;
pub mod history;
pub mod identity;
pub mod job;
pub mod laws;
pub mod service;
pub mod service_laws;
pub mod usage;
