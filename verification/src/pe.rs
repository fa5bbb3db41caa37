//! Portable executable images: headers, directories, resources, and what the
//! loader does with them.
pub mod accepted;
pub mod activation;
pub mod api_set;
pub mod bound;
pub mod directories;
pub mod exports;
pub mod fixups;
pub mod headers;
pub mod icons;
pub mod imports;
pub mod layout;
pub mod lifecycle;
pub mod manifest;
pub mod mapped;
pub mod modules;
pub mod records;
pub mod relocations;
pub mod resolve;
pub mod resources;
pub mod rva;
pub mod sxs_section;
pub mod types;
pub mod version;
pub mod written;
