//! Incremental synchronisation of a local directory tree to an object-storage bucket.
//!
//! A run uploads the files that changed and, where asked to, deletes the remote
//! objects that have no local file any more. To tell what changed without asking
//! the store about every object, it compares three manifests: one from a scan of
//! the local tree, one from a listing of the bucket, and the deploy manifest, which
//! is kept in the bucket itself and records which local content was last uploaded
//! under which remote fingerprint.
//!
//! The library performs no input or output. The caller walks the directory, reads
//! the files and talks to the store; the library is handed what was found and
//! decides what it means.
//!
//! - [`manifest`] holds the manifest and its entries.
//! - [`format`] writes a manifest as text and reads it back.
//! - [`drivers`] builds manifests from a directory scan and from a bucket listing,
//!   and the requests that the store is sent.
//! - [`digest`] computes the checksum of a file's content.
//! - [`reconcile`] decides which paths to upload and which objects to delete.
//! - [`sync`] holds the steps of a run, from loading the deploy manifest to storing it.

pub mod digest;
pub mod drivers;
pub mod format;
pub mod manifest;
pub mod reconcile;
pub mod sync;
pub mod text;

pub use manifest::{FileMetadata, SyncManifest};
