//! Sound: encodings, effects and devices.
pub mod blocks;
pub mod devices;
pub mod format;
pub mod ima_adpcm;
pub mod mixing;
pub mod ms_adpcm;
pub mod pcm;
pub mod streams;
pub mod timing;
pub mod xapo;
pub mod xma;
