//! The encodings of sound.
use vstd::prelude::*;

verus! {

/// How sound is encoded.
#[derive(Debug, Clone, Copy, PartialEq, Eq, Structural)]
pub enum AudioFormat {
    /// 16-bit signed integer samples.
    Pcm16,
    /// 24-bit signed integer samples.
    Pcm24,
    /// 32-bit signed integer samples.
    Pcm32,
    /// 32-bit floating-point samples.
    Float32,
    /// Microsoft ADPCM.
    MsAdpcm,
    /// IMA/DVI ADPCM.
    ImaAdpcm,
    /// Xbox Media Audio.
    Xma,
}

/// The encoding that a wave format tag stands for; 16-bit samples where the
/// tag is not known.
pub open spec fn format_of(tag: u16, bits: u16) -> AudioFormat {
    if tag == 0x0001 && bits == 24 {
        AudioFormat::Pcm24
    } else if tag == 0x0001 && bits == 32 {
        AudioFormat::Pcm32
    } else if tag == 0x0003 {
        AudioFormat::Float32
    } else if tag == 0x0002 {
        AudioFormat::MsAdpcm
    } else if tag == 0x0011 {
        AudioFormat::ImaAdpcm
    } else if tag == 0x0165 {
        AudioFormat::Xma
    } else {
        AudioFormat::Pcm16
    }
}

/// The encoding that a wave format tag stands for.
pub fn detect_audio_format(wave_format_tag: u16, bits_per_sample: u16) -> (format: AudioFormat)
    ensures
        format == format_of(wave_format_tag, bits_per_sample),
{
    match wave_format_tag {
        0x0001 => match bits_per_sample {
            24 => AudioFormat::Pcm24,
            32 => AudioFormat::Pcm32,
            _ => AudioFormat::Pcm16,
        },
        0x0003 => AudioFormat::Float32,
        0x0002 => AudioFormat::MsAdpcm,
        0x0011 => AudioFormat::ImaAdpcm,
        0x0165 => AudioFormat::Xma,
        _ => AudioFormat::Pcm16,
    }
}

} // verus!
