//! The engine itself: codec, object table and the two dispatch roles.

pub mod client_impl;
pub mod connection;
pub mod map;
pub mod server_impl;
pub mod socket;
pub mod wire;
