//! The witness, an independent observer of the cluster: it polls whether each
//! replica is up, and tells an isolated replica whether its peers are.

pub mod config;
pub mod corroboration;
pub mod health_poll;
pub mod lines;
