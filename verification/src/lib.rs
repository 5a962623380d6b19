//! Concurrent resource scheduler for the compute-unit instances
//! ("processing elements", PEs) of a reconfigurable accelerator.
//!
//! The scheduler hands out and reclaims PE handles: construction groups a
//! flat catalog of PE descriptors into one idle pool per PE type, callers
//! check a handle out of its type's pool (`acquire_pe`), use it, and check
//! it back in (`release_pe`), and a startup sweep (`reset_interrupts`)
//! normalizes leftover interrupt state across every idle handle.

pub mod pe;
pub mod pool;
pub mod scheduler;

pub use pe::PEId;
pub use pe::PeDesc;
pub use pe::PE;
pub use scheduler::Error;
pub use scheduler::Scheduler;
