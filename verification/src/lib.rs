//! A cycle-accurate simulator of a shared-bus, multi-core cache hierarchy.

pub mod alu;
pub mod analyzer;
pub mod bus;
pub mod cache;
pub mod coherence;
pub mod cpu;
pub mod duo;
pub mod geometry;
pub mod log_analyzer;
pub mod logger;
pub mod lone;
pub mod lru;
pub mod protocol;
pub mod reading;
pub mod record;
pub mod system;
pub mod utils;

pub use crate::analyzer::Analyzer;
pub use crate::bus::Bus;
pub use crate::cpu::Core;
pub use crate::protocol::ProtocolKind;
pub use crate::system::{Optimizations, System};
