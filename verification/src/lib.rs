//! A content-addressed, Merkle-style model of a filesystem subtree: files
//! and directories as typed nodes whose identifiers are deterministic
//! hashes of their content, a codec that lays such a tree out as a sharded
//! object store and rebuilds it, and a merge engine that combines two
//! independently evolved trees, marking diverging file contents with
//! inline conflict markers.

pub mod error;
pub mod features;
pub mod ident;
pub mod models;
