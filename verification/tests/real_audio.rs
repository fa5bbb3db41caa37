//! Sound formats, decoders and effects.
use casa1::audio::format::{detect_audio_format, AudioFormat};
use casa1::audio::ima_adpcm::decode_ima_adpcm;
use casa1::audio::ms_adpcm::decode_ms_adpcm;
use casa1::audio::timing::{calculate_buffer_callbacks, measure_latency_ms};
use casa1::audio::xapo::{
    IID_IXAPOParameters, XapoManager, CLSID_XAPO, IID_IXAPO, XAPO_BUFFER_SILENT, XAPO_BUFFER_VALID,
    XAPO_FLAG_BUFFERCOUNT_MUST_EQUAL, XAPO_FLAG_INPLACE, XAPO_REGISTRATION_PROPERTIES,
};
use casa1::audio::xma::decode_xma;

fn build_ms_adpcm_mono_block(
    predictor: u16,
    delta: u16,
    sample1: i16,
    sample2: i16,
    nibbles: &[u8],
) -> Vec<u8> {
    let mut block = Vec::new();
    block.extend_from_slice(&predictor.to_le_bytes());
    block.extend_from_slice(&delta.to_le_bytes());
    block.extend_from_slice(&sample1.to_le_bytes());
    block.extend_from_slice(&sample2.to_le_bytes());
    // Pack nibbles: each byte holds two nibbles (low nibble first)
    for pair in nibbles.chunks(2) {
        let low = pair[0] & 0x0F;
        let high = if pair.len() > 1 { pair[1] & 0x0F } else { 0 };
        block.push(low | (high << 4));
    }
    block
}

fn build_ima_adpcm_mono_block(predictor: i16, step_index: u8, nibbles: &[u8]) -> Vec<u8> {
    let mut block = Vec::new();
    block.extend_from_slice(&predictor.to_le_bytes());
    block.push(step_index);
    block.push(0); // reserved
    // Pack nibbles: low nibble first
    for pair in nibbles.chunks(2) {
        let low = pair[0] & 0x0F;
        let high = if pair.len() > 1 { pair[1] & 0x0F } else { 0 };
        block.push(low | (high << 4));
    }
    block
}

fn make_reverb_clsid() -> [u8; 16] {
    [
        0x01, 0x00, 0x00, 0x00, 0x00, 0x00, 0x00, 0x00, 0x00, 0x00, 0x00, 0x00, 0x00, 0x00,
        0x00, 0x01,
    ]
}

fn make_lowpass_clsid() -> [u8; 16] {
    [
        0x02, 0x00, 0x00, 0x00, 0x00, 0x00, 0x00, 0x00, 0x00, 0x00, 0x00, 0x00, 0x00, 0x00,
        0x00, 0x02,
    ]
}

fn make_highpass_clsid() -> [u8; 16] {
    [
        0x03, 0x00, 0x00, 0x00, 0x00, 0x00, 0x00, 0x00, 0x00, 0x00, 0x00, 0x00, 0x00, 0x00,
        0x00, 0x03,
    ]
}

fn make_echo_clsid() -> [u8; 16] {
    [
        0x04, 0x00, 0x00, 0x00, 0x00, 0x00, 0x00, 0x00, 0x00, 0x00, 0x00, 0x00, 0x00, 0x00,
        0x00, 0x04,
    ]
}

fn make_compressor_clsid() -> [u8; 16] {
    [
        0x05, 0x00, 0x00, 0x00, 0x00, 0x00, 0x00, 0x00, 0x00, 0x00, 0x00, 0x00, 0x00, 0x00,
        0x00, 0x05,
    ]
}

fn make_normalize_clsid() -> [u8; 16] {
    [
        0x06, 0x00, 0x00, 0x00, 0x00, 0x00, 0x00, 0x00, 0x00, 0x00, 0x00, 0x00, 0x00, 0x00,
        0x00, 0x06,
    ]
}

fn make_equalizer_clsid() -> [u8; 16] {
    [
        0x07, 0x00, 0x00, 0x00, 0x00, 0x00, 0x00, 0x00, 0x00, 0x00, 0x00, 0x00, 0x00, 0x00,
        0x00, 0x07,
    ]
}

#[test]
fn calculate_buffer_callbacks_timing() {
    let buffers: Vec<(usize, String)> = vec![
        (100, "buf_a".to_string()),
        (100, "buf_b".to_string()),
        (50, "buf_c".to_string()),
    ];
    let callbacks = calculate_buffer_callbacks(&buffers, 300);
    assert_eq!(callbacks.len(), 3);
    assert_eq!(callbacks[0], (100, "buf_a".to_string()));
    assert_eq!(callbacks[1], (200, "buf_b".to_string()));
    assert_eq!(callbacks[2], (250, "buf_c".to_string()));
}

#[test]
fn calculate_buffer_callbacks_partial_render() {
    let buffers: Vec<(usize, String)> =
        vec![(100, "buf_a".to_string()), (100, "buf_b".to_string())];
    let callbacks = calculate_buffer_callbacks(&buffers, 150);
    // Only buf_a completes within 150 frames
    assert_eq!(callbacks.len(), 1);
    assert_eq!(callbacks[0], (100, "buf_a".to_string()));
}

#[test]
fn measure_latency_ms_clamps_to_50() {
    let latency = measure_latency_ms(48000, 100000);
    assert_eq!(latency, 50);
}

#[test]
fn measure_latency_ms_small_buffer() {
    let latency = measure_latency_ms(48000, 128);
    // 128 frames at 48kHz ≈ 2.67ms + 10ms overhead = ~13ms
    assert!(latency >= 10 && latency <= 50);
}

#[test]
fn detect_audio_format_pcm16() {
    assert_eq!(detect_audio_format(0x0001, 16), AudioFormat::Pcm16);
}

#[test]
fn detect_audio_format_pcm24() {
    assert_eq!(detect_audio_format(0x0001, 24), AudioFormat::Pcm24);
}

#[test]
fn detect_audio_format_pcm32() {
    assert_eq!(detect_audio_format(0x0001, 32), AudioFormat::Pcm32);
}

#[test]
fn detect_audio_format_float32() {
    assert_eq!(detect_audio_format(0x0003, 32), AudioFormat::Float32);
}

#[test]
fn detect_audio_format_ms_adpcm() {
    assert_eq!(detect_audio_format(0x0002, 4), AudioFormat::MsAdpcm);
}

#[test]
fn detect_audio_format_ima_adpcm() {
    assert_eq!(detect_audio_format(0x0011, 4), AudioFormat::ImaAdpcm);
}

#[test]
fn detect_audio_format_xma() {
    assert_eq!(detect_audio_format(0x0165, 16), AudioFormat::Xma);
}

#[test]
fn detect_audio_format_unknown_falls_back_to_pcm16() {
    assert_eq!(detect_audio_format(0xFFFF, 16), AudioFormat::Pcm16);
}

#[test]
fn decode_ms_adpcm_mono_basic() {
    // Use predictor 0 (256, 0) — predicts from sample[n-2] only.
    // Initial delta = 64, samples = [100, 200].
    // Nibbles: all zeros (no delta adjustment, pure prediction).
    let block = build_ms_adpcm_mono_block(0, 64, 100, 200, &[0, 0, 0, 0]);
    let result = decode_ms_adpcm(&block, block.len() as u16, 1, 6).unwrap();

    // First two samples should be exact: 100, 200
    assert_eq!(result[0], 100);
    assert_eq!(result[1], 200);

    // Subsequent samples: predicted = (256 * sample[n-2] + 0 * sample[n-1]) / 256 = sample[n-2]
    // With nibble=0 (signed=0), sample stays predicted
    // So: sample[2] = 100, sample[3] = 200, sample[4] = 100, sample[5] = 200
    assert_eq!(result[2], 100);
    assert_eq!(result[3], 200);
    assert_eq!(result[4], 100);
    assert_eq!(result[5], 200);
}

#[test]
fn decode_ms_adpcm_mono_positive_delta() {
    // Use predictor 0 (256, 0). Initial samples = [0, 0].
    // Nibble = 7 (signed = +7). delta = 64 initially.
    // sample[2] = predicted(0) + 64*7 = 448.
    // delta updates: adapt[7] = 614, delta = 614*64/256 = 153 (approx)
    // sample[3] = predicted(0) + 153*7 = 1071
    let block = build_ms_adpcm_mono_block(0, 64, 0, 0, &[0x77, 0x77]);
    let result = decode_ms_adpcm(&block, block.len() as u16, 1, 6).unwrap();

    assert_eq!(result[0], 0);
    assert_eq!(result[1], 0);
    // nibble[0] = 7 -> signed = 7, delta=64 -> 64*7=448
    assert_eq!(result[2], 448);
    // nibble[1] = 7, delta updated: adapt[7]=614, (614*64)/256=153.5 -> 153
    // 153*7=1071
    assert_eq!(result[3], 1071);
}

#[test]
fn decode_ms_adpcm_stereo_basic() {
    // Stereo: two headers, then interleaved nibbles.
    let mut stereo_data = Vec::new();

    // Ch1 header: predictor=0, delta=32, sample1=100, sample2=200
    stereo_data.extend_from_slice(&0u16.to_le_bytes());
    stereo_data.extend_from_slice(&32u16.to_le_bytes());
    stereo_data.extend_from_slice(&100i16.to_le_bytes());
    stereo_data.extend_from_slice(&200i16.to_le_bytes());

    // Ch2 header: predictor=0, delta=32, sample1=-100, sample2=-200
    stereo_data.extend_from_slice(&0u16.to_le_bytes());
    stereo_data.extend_from_slice(&32u16.to_le_bytes());
    stereo_data.extend_from_slice(&(-100i16).to_le_bytes());
    stereo_data.extend_from_slice(&(-200i16).to_le_bytes());

    // Nibbles (stereo interleaved): ch1_nibble, ch2_nibble, ...
    // Pack: byte0 = nibble0(ch1) | nibble1(ch2)<<4, byte1 = nibble2(ch1) | nibble3(ch2)<<4
    stereo_data.push(0x00); // ch1=0, ch2=0
    stereo_data.push(0x00); // ch1=0, ch2=0

    let result = decode_ms_adpcm(&stereo_data, stereo_data.len() as u16, 2, 6).unwrap();

    // Interleaved: [ch1_100, ch2_-100, ch1_200, ch2_-200, ch1_pred...]
    assert_eq!(result[0], 100);
    assert_eq!(result[1], -100);
    assert_eq!(result[2], 200);
    assert_eq!(result[3], -200);

    // With nibble=0, ch1 predicts from ch1 history, ch2 from ch2 history
    // ch1: predictor 0 -> sample[n] = sample[n-2] -> 100
    // ch2: predictor 0 -> sample[n] = sample[n-2] -> -100
    assert_eq!(result[4], 100);
    assert_eq!(result[5], -100);
}

#[test]
fn decode_ms_adpcm_invalid_predictor_returns_error() {
    // Predictor index 7 is out of range (0-6)
    let block = build_ms_adpcm_mono_block(7, 64, 100, 200, &[0]);
    let result = decode_ms_adpcm(&block, block.len() as u16, 1, 4);
    assert!(result.is_err(), "expected Err, got {result:?}");
}

#[test]
fn decode_ms_adpcm_truncated_block_returns_error() {
    // Block smaller than header
    let block = vec![0u8, 0]; // Only 2 bytes, header requires 8
    let result = decode_ms_adpcm(&block, 8, 1, 4);
    assert!(result.is_err(), "expected Err, got {result:?}");
}

#[test]
fn decode_ms_adpcm_empty_data_returns_ok_with_empty_output() {
    let result = decode_ms_adpcm(&[], 8, 1, 4).unwrap();
    assert!(result.is_empty());
}

#[test]
fn decode_ms_adpcm_unsupported_channels() {
    let result = decode_ms_adpcm(&[0; 24], 24, 3, 6);
    assert!(result.is_err(), "expected Err, got {result:?}");
}

#[test]
fn decode_ima_adpcm_mono_basic() {
    // Predictor=0, step_index=0, nibbles all zero
    // step = step_table[0] = 7
    // delta = 7>>3 = 0 (integer division)
    // Nibble 0: no bits set, delta = 0
    // Sample stays at 0
    // step_index += index_table[0] = -1, clamped to 0
    let block = build_ima_adpcm_mono_block(0, 0, &[0, 0, 0, 0]);
    let result = decode_ima_adpcm(&block, 1, block.len() as u16).unwrap();

    // Initial sample = 0, then all zeros
    assert_eq!(result[0], 0);
    for &s in &result {
        assert_eq!(s, 0);
    }
}

#[test]
fn decode_ima_adpcm_mono_positive_delta() {
    // Predictor=0, step_index=0
    // nibble = 0x7 (binary 0111): sign=0 (positive), magnitude=7
    // step = 7
    // delta = (7>>3) + (7>>2)*(mag&1) + (7>>1)*(mag&2) + 7*(mag&4)
    //       = 0 + 1*1 + 3*1 + 7*1
    //       = 0 + 1 + 3 + 7 = 11
    // sample = 0 + 11 = 11
    // step_index += index_table[7] = 8, clamped to 8
    let mut block = build_ima_adpcm_mono_block(0, 0, &[0x77]);
    // byte = 0x07 -> low nibble=7, high nibble=0
    block[4] = 0x07;
    let result = decode_ima_adpcm(&block, 1, block.len() as u16).unwrap();

    // Initial sample = 0
    assert_eq!(result[0], 0);
    // First decoded nibble = 7
    // step = 7, delta = 7>>3 + 7>>2 + 7>>1 + 7 = 0 + 1 + 3 + 7 = 11
    // sample = 0 + 11 = 11
    assert_eq!(result[1], 11);

    // Second nibble (high nibble of byte = 0)
    // step = step_table[8] = 16 (since index went from 0+8=8)
    // delta = 16>>3 = 2
    // sample = 11 + 2 = 13
    assert_eq!(result[2], 13);
}

#[test]
fn decode_ima_adpcm_mono_negative_nibble() {
    // Predictor=1000, step_index=0
    // nibble = 0x8 (binary 1000): sign=1 (negative), magnitude=0
    // step = 7
    // delta = 7>>3 = 0 (for magnitude=0)
    // With sign bit: delta = -0 = 0
    // sample = 1000 + 0 = 1000
    // step_index += index_table[8] = -1 -> -1 -> clamped to 0
    let mut block = build_ima_adpcm_mono_block(1000, 0, &[0x00]);
    block[4] = 0x08; // low nibble = 8
    let result = decode_ima_adpcm(&block, 1, block.len() as u16).unwrap();

    assert_eq!(result[0], 1000);
    // nibble=8: sign=1, magnitude=0 -> delta = -(7>>3) = 0
    assert_eq!(result[1], 1000);
}

#[test]
fn decode_ima_adpcm_stereo_basic() {
    // Stereo IMA: [ch1_header(4)][ch1_nibbles...][ch2_header(4)][ch2_nibbles...]
    let mut stereo_block = Vec::new();

    // Ch1: predictor=0, step_index=0
    stereo_block.extend_from_slice(&0i16.to_le_bytes());
    stereo_block.push(0);
    stereo_block.push(0);
    stereo_block.push(0x00); // nibbles: 0
    // Pad to block_size/2
    while stereo_block.len() < 8 {
        stereo_block.push(0);
    }

    // Ch2: predictor=0, step_index=0
    stereo_block.extend_from_slice(&0i16.to_le_bytes());
    stereo_block.push(0);
    stereo_block.push(0);
    stereo_block.push(0x00);
    while stereo_block.len() < 16 {
        stereo_block.push(0);
    }

    let block_size = stereo_block.len() as u16;
    let result = decode_ima_adpcm(&stereo_block, 2, block_size).unwrap();

    // Interleaved: [ch1_0, ch2_0, ch1_0, ch2_0, ...]
    // Each channel has 4 header bytes + 4 nibble bytes = 8 bytes per channel
    // 4 nibble bytes × 2 nibbles/byte = 8 decoded + 1 initial = 9 samples/ch
    // 9 × 2 channels = 18 interleaved samples
    assert_eq!(result.len(), 18);
    assert_eq!(result[0], 0); // ch1 initial
    assert_eq!(result[1], 0); // ch2 initial
}

#[test]
fn decode_ima_adpcm_empty_data() {
    let result = decode_ima_adpcm(&[], 1, 4).unwrap();
    assert!(result.is_empty());
}

#[test]
fn decode_ima_adpcm_unsupported_channels() {
    let result = decode_ima_adpcm(&[0; 8], 3, 4);
    assert!(result.is_err(), "expected Err, got {result:?}");
}

#[test]
fn decode_xma_empty_data_returns_error() {
    let result = decode_xma(&[], 2);
    assert!(result.is_err(), "expected Err, got {result:?}");
}

#[test]
fn decode_xma_unsupported_channels() {
    let result = decode_xma(&[0; 16], 3);
    assert!(result.is_err(), "expected Err, got {result:?}");
}

#[test]
fn decode_xma_silent_frame() {
    // A frame with quant_scale=0 produces silence.
    // Frame header: num_subframes=1, quant_scale=0
    let mut frame = Vec::new();
    // Header bytes (little-endian u32): (1 << 24) | (0 << 16) = 0x01000000
    frame.extend_from_slice(&0x01000000u32.to_le_bytes());
    // Need at least one subframe's worth of data even if silent
    frame.extend_from_slice(&[0u8; 32]); // padding

    let result = decode_xma(&frame, 1).unwrap();
    // Should produce output (XMA_FRAME_SAMPLES samples from silent frame)
    assert!(!result.samples.is_empty());
    // All samples should be 0
    for s in &result.samples {
        assert!(s.current.is_none() && s.overlap.is_none());
    }
}

#[test]
fn decode_xma_invalid_frame_header_terminates() {
    // Frame with num_subframes=0 should cause termination
    let frame = vec![0u8; 8]; // header all zeros + padding
    let result = decode_xma(&frame, 1);
    assert!(result.is_err(), "expected Err, got {result:?}");
}

#[test]
fn decode_xma_big_endian_detection() {
    // Xbox 360 big-endian format: the first 4 bytes swapped.
    // Little-endian: [0x01, 0x00, 0x00, 0x00] = 0x01000000
    // Big-endian byte-swapped: [0x00, 0x00, 0x00, 0x01]
    let mut frame = vec![0x00u8, 0x00, 0x00, 0x01]; // big-endian: 0x01000000
    // Need some data after header
    frame.extend_from_slice(&[0u8; 64]);

    let result = decode_xma(&frame, 1);
    // Should succeed after byte-swap
    assert!(result.is_ok(), "expected Ok, got {result:?}");
    let samples = result.unwrap().samples;
    assert!(!samples.is_empty());
}

#[test]
fn decode_xma_stereo_produces_interleaved_output() {
    // Mono frame data but requesting 2 channels - should still produce output
    let mut frame = Vec::new();
    frame.extend_from_slice(&0x01000000u32.to_le_bytes()); // 1 subframe, quant=0 (silent)
    frame.extend_from_slice(&[0u8; 64]);

    let result = decode_xma(&frame, 2).unwrap().samples;
    assert!(!result.is_empty());
    // Should be interleaved stereo
    assert!(result.len() >= 2);
}

#[test]
fn audio_format_debug_and_clone() {
    let fmt = AudioFormat::MsAdpcm;
    let _debug = format!("{fmt:?}");
    let _clone = fmt;
    assert_eq!(fmt, AudioFormat::MsAdpcm);
}

#[test]
fn audio_format_copy_semantics() {
    let a = AudioFormat::ImaAdpcm;
    let b = a; // Copy
    assert_eq!(a, b);
}

#[test]
fn xapo_manager_register_create_process_destroy() {
    let mut mgr = XapoManager::new();
    mgr.register_builtins();

    assert!(mgr.is_registered(&make_reverb_clsid()));
    assert!(mgr.is_registered(&make_lowpass_clsid()));
    assert!(mgr.is_registered(&make_highpass_clsid()));
    assert!(mgr.is_registered(&make_echo_clsid()));
    assert!(mgr.is_registered(&make_compressor_clsid()));
    assert!(mgr.is_registered(&make_normalize_clsid()));
    assert!(mgr.is_registered(&make_equalizer_clsid()));
    assert_eq!(mgr.registered_count(), 7);

    // Create a reverb instance
    let reverb = mgr
        .registration_properties(&make_reverb_clsid())
        .expect("reverb should be registered")
        .duplicate();
    let handle = mgr
        .create_instance(&make_reverb_clsid(), reverb.duplicate(), 2)
        .expect("reverb should be registered");
    assert!(handle > 0);

    // The instance is there
    assert!(mgr.has_instance(handle));

    // Registration properties for instance
    let props = mgr.instance_registration(handle);
    assert!(props.is_some());

    // Destroy
    assert!(mgr.destroy_instance(handle));
    assert_eq!(mgr.instance_count(), 0);

    // Unknown CLSID should fail
    let unknown_clsid = [0xFF; 16];
    assert!(mgr.create_instance(&unknown_clsid, reverb, 2).is_none());
}

#[test]
fn xapo_manager_process_unknown_id_returns_false() {
    let mut mgr = XapoManager::new();
    assert!(!mgr.has_instance(999));
    assert!(!mgr.destroy_instance(999));
}

#[test]
fn xapo_guid_constants_defined() {
    // Verify the GUID constants exist and have the expected byte counts.
    assert_eq!(CLSID_XAPO.len(), 16);
    assert_eq!(IID_IXAPO.len(), 16);
    assert_eq!(IID_IXAPOParameters.len(), 16);

    // Verify CLSID_XAPO matches the expected string {5EC3B1C3-5E4B-4f4e-B0E0-7B7D1E7B9E7C}
    // Data1 = 0x5EC3B1C3 → LE bytes: [0xC3, 0xB1, 0xC3, 0x5E]
    assert_eq!(CLSID_XAPO[0], 0xC3);
    assert_eq!(CLSID_XAPO[1], 0xB1);
    assert_eq!(CLSID_XAPO[2], 0xC3);
    assert_eq!(CLSID_XAPO[3], 0x5E);
    // Data2 = 0x5E4B → LE bytes: [0x4B, 0x5E]
    assert_eq!(CLSID_XAPO[4], 0x4B);
    assert_eq!(CLSID_XAPO[5], 0x5E);
    // Data3 = 0x4f4e → LE bytes: [0x4E, 0x4F]
    assert_eq!(CLSID_XAPO[6], 0x4E);
    assert_eq!(CLSID_XAPO[7], 0x4F);
}

#[test]
fn xapo_flags_have_correct_values() {
    assert_eq!(XAPO_FLAG_INPLACE, 1);
    assert_eq!(XAPO_FLAG_BUFFERCOUNT_MUST_EQUAL, 4);
    assert_eq!(XAPO_BUFFER_SILENT, 1);
    assert_eq!(XAPO_BUFFER_VALID, 2);
}

#[test]
fn xapo_registration_properties_new_creates_valid_struct() {
    let clsid = make_reverb_clsid();
    let reg = XAPO_REGISTRATION_PROPERTIES::new(clsid, "Test Effect", XAPO_FLAG_INPLACE);
    assert_eq!(reg.clsid, clsid);
    assert_eq!(reg.major_version, 1);
    assert_eq!(reg.minor_version, 0);
    assert_eq!(reg.flags, XAPO_FLAG_INPLACE);
    assert_eq!(reg.min_input_buffer_count, 1);
    assert_eq!(reg.max_input_buffer_count, 1);
    assert_eq!(reg.min_output_buffer_count, 1);
    assert_eq!(reg.max_output_buffer_count, 1);
    // friendly_name should contain 'T' at index 0
    assert_eq!(reg.friendly_name[0], 'T' as u16);
    assert_eq!(reg.friendly_name[1], 'e' as u16);
    assert_eq!(reg.friendly_name[2], 's' as u16);
    assert_eq!(reg.friendly_name[3], 't' as u16);
    // Null terminator after "Test Effect"
    assert_eq!(reg.friendly_name[11], 0);
    // copyright_info should contain "Casa1 XAPO Effect"
    assert_eq!(reg.copyright_info[0], 'C' as u16);
}
