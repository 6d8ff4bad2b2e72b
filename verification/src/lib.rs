//! The order management pipeline: sequencing, replication, replay and
//! monitoring rules shared by its services.

pub mod auth;
pub mod bytes;
pub mod chance;
pub mod clock;
pub mod environment;
pub mod orders;
pub mod places;
pub mod process;
pub mod receiver;
pub mod replay;
pub mod sending;
pub mod sequence_tracker;
pub mod text;
pub mod wire;
pub mod witness;
