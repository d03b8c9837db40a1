//! Listings of directories: a bounded cache of observations and the service that fills it.
pub mod cache;
pub mod flight;
pub mod history;
pub mod job;
pub mod laws;
pub mod run;
pub mod service;
pub mod service_laws;
