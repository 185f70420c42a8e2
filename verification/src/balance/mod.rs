//! Choice among equivalent replicas.

pub mod failover;
pub mod quota;
pub mod replicas;
