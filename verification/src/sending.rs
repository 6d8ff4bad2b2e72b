//! The sender: orders, their durable record, and their replay.

pub mod config;
pub mod pacing;
pub mod replay;
pub mod wal;
