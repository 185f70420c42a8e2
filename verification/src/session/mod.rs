//! One persistent connection and the requests that share it.

pub mod driver;
pub mod handshake;
pub mod lifecycle;
pub mod options;
pub mod shared;
pub mod writes;
