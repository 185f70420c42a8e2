//! Name resolution: shared, bounded and scheduled.

pub mod actor;
pub mod addresses;
pub mod authority;
pub mod bonds;
pub mod laws;
pub mod model;
pub mod options;
pub mod outcomes;
pub mod record;
