//! Verified building blocks of a Windows compatibility runtime: portable
//! executable images, NTFS paths and alternate streams, printing, audio
//! decoding and the caches that keep the hot paths fast.
pub mod audio;
pub mod bytes;
pub mod error;
pub mod fs;
pub mod ids;
pub mod names;
pub mod order;
pub mod pe;
pub mod perf;
pub mod print;
pub mod text;
pub mod utf16;
