//! Verified core of an SSH-based access-control manager.
//!
//! The library registers hosts with a pinned host-key fingerprint,
//! routes connections through chains of jump hosts, parses and
//! serializes the `authorized_keys` line format, and reconciles the
//! keys a database says should be on a host against the keys actually
//! found there.  All network and storage I/O lives outside the
//! library: callers perform the remote calls and hand the results to
//! the verified functions declared here.

pub mod diff;
pub mod errors;
pub mod keys;
pub mod remote;
pub mod router;
pub mod store;
pub mod trust;
