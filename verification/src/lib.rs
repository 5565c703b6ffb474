//! A tick-driven, resource-injecting task scheduler.
//!
//! Users register *systems* -- callables that declare, through an access map,
//! which typed resources they read or write. On each tick the scheduler walks
//! a fixed sequence of phases, selects the systems whose wake-up rule matches
//! the current event set and whose resource demands are satisfiable without
//! conflict, builds execution graphs honouring declared before/after
//! ordering, and dispatches them. Long-running systems may run detached in
//! the background; their resource reservations persist across ticks.

pub mod access;
pub mod blacklist;
pub mod events;
pub mod graph;
pub mod id;
pub mod interrupts;
pub mod ordering;
pub mod parameters;
pub mod phase;
pub mod reservations;
pub mod resources;
pub mod runner;
pub mod scheduler;
pub mod system;
pub mod tagmap;
pub mod tick;
