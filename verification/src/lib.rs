//! Reader for the persistent environment-variable store used by embedded
//! bootloaders: a layout description names a region on a device, and the
//! region holds a checksum-guarded block of null-separated `key=value`
//! records.
//!
//! The crate itself never touches a device: it parses layout text and
//! decodes blocks of bytes that the caller has read.

pub mod config;
pub mod env;
pub mod error;
