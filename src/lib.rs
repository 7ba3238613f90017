//! Coordination of independently launched supervisor processes through a
//! task registry kept in a shared-memory map.
//!
//! Every decision the supervisor and the registry make is a verified function
//! here; the operating-system edges (shared-memory mapping, signals, process
//! spawning, log files) live in the companion binary.

pub mod timestamp;
pub mod task_record;
pub mod decimal;
pub mod codec;
pub mod shared_map;
pub mod registry;
pub mod platform;
pub mod signal_relay;
pub mod wait;
pub mod supervisor;
