//! What keeps a running game fast: translated code, cached translations and
//! files, shader and draw queues, and the pace of frames.
pub mod batching;
pub mod chaining;
pub mod clock;
pub mod file_cache;
pub mod mapped;
pub mod pacing;
pub mod path_cache;
pub mod profiler;
pub mod ratio;
pub mod reads;
pub mod shaders;
pub mod translation;
pub mod uploads;
