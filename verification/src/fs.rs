//! Windows paths on a host file system: where they lead, who may open them,
//! what is asked before they are used, and the alternate data streams of files.
pub mod containment;
pub mod ntfs;
pub mod operations;
pub mod pieces;
pub mod resolver;
pub mod sharing;
pub mod sidecar;
pub mod streams;
