//! A model of a shared-memory multiprocessor's cache-coherence subsystem:
//! per-cache MESI state machines snooping a broadcast bus, with a main-memory
//! agent as the authoritative store.
//!
//! The agents here are passive, verified objects: each exposes the decisions
//! it makes per program access and per snooped bus message, with contracts
//! over a mathematical view of its state. The threads, channels and timing
//! that drive them in a running simulation are ordinary wiring around this
//! library.

pub mod benchmark;
pub mod bus;
pub mod main_memory;
pub mod memory_cache;
pub mod protocol;
