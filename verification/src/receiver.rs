//! The receiver: results from the cluster, their log, and the checkpoint that a
//! restart goes on from.

pub mod checkpoint;
pub mod config;
pub mod results;
