//! The two sources of a manifest: the local directory tree and the remote bucket.
//!
//! Neither adapter touches the file system or the network. The caller enumerates
//! files and objects and hands them over as plain values; the adapters decide what
//! becomes an entry, under which key and with which metadata.

pub mod fsdriver;
pub mod s3driver;
