//! The core of a directory viewer: what is known of directories, their listings and their usage,
//! which work runs, and what it may use. Every decision is made on plain values; the calls that
//! reach the file system, the threads and the window are made by whoever owns this state.
pub mod domain;
pub mod listing;
pub mod platform;
pub mod runtime;
pub mod scan;
pub mod scheduler;
pub mod text;
pub mod text_map;
