//! An incremental computation engine that memoizes task outputs, records which
//! slots each task read, and invalidates exactly the tasks whose inputs changed.

pub mod output;
pub mod task;
pub mod memory_backend;
pub mod eviction;
pub mod slot;
pub mod stats;
pub mod viz;
pub mod laws;

pub use memory_backend::MemoryBackend;
