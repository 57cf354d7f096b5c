//! Wire-level engine of a display-server IPC protocol.
//!
//! The protocol is binary and message oriented. Every message is addressed to
//! a long-lived object that both peers know by a numeric id, and may carry
//! file descriptors beside its ordinary arguments. This crate holds the pure
//! part of both connection roles: the byte-level codec, the table that tracks
//! which object ids are alive, and the state machines that turn buffered
//! bytes into dispatch decisions. It performs no I/O of its own; the caller
//! moves bytes and descriptors between a socket and the buffers kept here.

pub mod core_interfaces;
pub mod protocol;
pub mod rs;
pub mod text;
pub mod types;
