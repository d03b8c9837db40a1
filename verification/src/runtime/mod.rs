//! What the services share while they run: memory pools, events and time.
pub mod clock;
pub mod events;
pub mod laws;
pub mod memory;
