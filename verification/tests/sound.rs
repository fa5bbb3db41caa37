//! Samples, channels, streams of sound and the devices that play them.
use casa1::audio::devices::{HostDevice, RealAudioBackend, SampleFormat, WaveFormat};
use casa1::audio::format::AudioFormat;
use casa1::audio::ima_adpcm::decode_ima_adpcm;
use casa1::audio::mixing::{
    frame_position, remap_channel, resampled_frames, FramePosition, MixTerm,
};
use casa1::audio::ms_adpcm::decode_ms_adpcm;
use casa1::audio::pcm::{
    decode_game_audio, join_pcm_bytes, read_samples24_in_32, split_pcm_bytes, GameAudio,
    PcmSamples,
};
use casa1::audio::streams::{
    check_host_format, exclusive_step, matching_config, queue_excess, wave_format_to_host,
    ConfigRange, ExclusiveAction, HostFormat,
};
use casa1::audio::timing::{calculate_buffer_callbacks, duration_ms, measure_latency_ms};
use casa1::audio::xapo::{
    VoiceEffectChain, XapoEffectChain, XapoManager, CLSID_XAPO, XAPO_REGISTRATION_PROPERTIES,
};
use casa1::audio::xma::{decode_xma, xma_coefficients, XmaPoint};
use casa1::error::ReasonCode;

// ---------------------------------------------------------------------------
// Samples
// ---------------------------------------------------------------------------

#[test]
fn samples_come_back_from_their_bytes() {
    for (tag, bits, bytes) in [
        (1u16, 8u16, vec![0u8, 128, 255]),
        (1, 16, vec![0x01, 0x80, 0xff, 0x7f]),
        (1, 24, vec![0xff, 0xff, 0xff, 0x00, 0x00, 0x80]),
        (1, 32, vec![0x01, 0x02, 0x03, 0x84]),
        (3, 32, vec![0x00, 0x00, 0x80, 0x3f]),
    ] {
        assert_eq!(join_pcm_bytes(&split_pcm_bytes(&bytes, tag, bits)), bytes);
    }
}

#[test]
fn samples_have_the_size_that_the_format_says() {
    assert!(matches!(
        split_pcm_bytes(&[0xff, 0xff, 0xff, 0x00, 0x00, 0x80, 7], 1, 24),
        PcmSamples::TwentyFour(list) if list == vec![-1, -8_388_608]
    ));
    assert!(matches!(
        split_pcm_bytes(&[0x01, 0x80], 1, 16),
        PcmSamples::Sixteen(list) if list == vec![-32_767]
    ));
    assert!(matches!(
        split_pcm_bytes(&[0, 0, 0x80, 0x3f, 9], 3, 16),
        PcmSamples::FloatBits(list) if list == vec![0x3f80_0000]
    ));
    assert!(matches!(split_pcm_bytes(&[1, 2], 1, 12), PcmSamples::Unknown));
    assert!(matches!(split_pcm_bytes(&[1, 2], 2, 16), PcmSamples::Unknown));
    assert_eq!(read_samples24_in_32(&[0, 0, 0x80, 0x55]), vec![-8_388_608]);
}

#[test]
fn the_sound_of_a_game_is_decoded_by_its_format() {
    let pcm = decode_game_audio(&[1, 0, 0xff, 0xff, 9], AudioFormat::Pcm16, 1, 0, 0).unwrap();
    assert!(matches!(
        pcm,
        GameAudio::Samples(PcmSamples::Sixteen(list)) if list == vec![1, -1]
    ));
    let pcm = decode_game_audio(&[0, 0, 0x80], AudioFormat::Pcm24, 1, 0, 0).unwrap();
    assert!(matches!(
        pcm,
        GameAudio::Samples(PcmSamples::TwentyFour(list)) if list == vec![-8_388_608]
    ));
    let pcm = decode_game_audio(&[0, 0, 0, 0x80], AudioFormat::Pcm32, 1, 0, 0).unwrap();
    assert!(matches!(
        pcm,
        GameAudio::Samples(PcmSamples::ThirtyTwo(list)) if list == vec![i32::MIN]
    ));
    for format in [AudioFormat::MsAdpcm, AudioFormat::ImaAdpcm, AudioFormat::Xma] {
        let error = decode_game_audio(&[0; 64], format, 3, 32, 16).unwrap_err();
        assert_eq!(error.code, ReasonCode::RcAudioUnsupported);
    }
}

#[test]
fn an_ima_block_begins_with_its_predictor() {
    // Predictor 100, step 7; the nibble 4 adds step / 8 + step, the nibble 0
    // adds step / 8 of the step that follows.
    let samples = decode_ima_adpcm(&[100, 0, 0, 0, 0x04], 1, 5).unwrap();
    assert_eq!(samples, vec![100, 107, 108]);
}

#[test]
fn a_block_of_ms_adpcm_that_breaks_off_is_refused() {
    for (data, block) in [(vec![0u8, 1], 16u16), (vec![0; 16], 7)] {
        let error = decode_ms_adpcm(&data, block, 1, 4).unwrap_err();
        assert_eq!(error.code, ReasonCode::RcAudioUnsupported);
    }
    assert_eq!(decode_ms_adpcm(&[], 16, 1, 4).unwrap(), Vec::<i16>::new());
}

fn xma_frame(subframes: u8, scale: u8) -> Vec<u8> {
    vec![0, 0, scale, subframes]
}

#[test]
fn frames_of_xma_overlap_by_half() {
    let mut data = xma_frame(1, 8);
    data.extend([0xff; 256]);
    data.extend(xma_frame(1, 8));
    data.extend([0x02; 256]);
    let decoding = decode_xma(&data, 1).unwrap();
    assert_eq!(decoding.subframes.len(), 2);
    assert_eq!(decoding.subframes[1].start, 264);
    assert_eq!(decoding.samples.len(), 256);
    let point = |subframe: usize, index: usize| Some(XmaPoint { subframe, index });
    assert_eq!(decoding.samples[0].current, point(1, 0));
    assert_eq!(decoding.samples[0].overlap, point(0, 128));
    assert_eq!(decoding.samples[127].overlap, point(0, 255));
    assert_eq!(decoding.samples[128].current, None);
    assert_eq!(decoding.samples[128].overlap, point(1, 128));
    assert_eq!(xma_coefficients(&decoding.data, decoding.subframes[0]), vec![-1; 256]);
    assert_eq!(xma_coefficients(&decoding.data, decoding.subframes[1]), vec![2; 256]);
}

#[test]
fn words_of_xma_are_turned_round() {
    let mut low_first = xma_frame(1, 8);
    low_first.extend([1, 2, 3, 4].repeat(64));
    let mut high_first = vec![1, 8, 0, 0];
    high_first.extend([4, 3, 2, 1].repeat(64));
    let one = decode_xma(&low_first, 1).unwrap();
    let other = decode_xma(&high_first, 1).unwrap();
    assert_eq!(one.data, other.data);
    assert_eq!(one.samples, other.samples);
}

#[test]
fn coefficients_of_xma_are_signed() {
    let mut data = xma_frame(1, 9);
    data.extend([0x00, 0x01].repeat(256));
    let decoding = decode_xma(&data, 1).unwrap();
    assert_eq!(decoding.subframes[0].bits, 9);
    assert_eq!(xma_coefficients(&decoding.data, decoding.subframes[0])[0], -256);
}

// ---------------------------------------------------------------------------
// Channels and rates
// ---------------------------------------------------------------------------

fn term(source: usize, numerator: usize, denominator: usize) -> MixTerm {
    MixTerm {
        source,
        numerator,
        denominator,
    }
}

#[test]
fn channels_are_mixed_by_their_places() {
    assert_eq!(remap_channel(1, 5, 8), vec![term(0, 1, 1)]);
    assert_eq!(remap_channel(2, 0, 1), vec![term(0, 1, 2), term(1, 1, 2)]);
    assert_eq!(remap_channel(2, 3, 6), vec![]);
    assert_eq!(remap_channel(2, 3, 8), vec![term(1, 1, 1)]);
    assert_eq!(
        remap_channel(6, 1, 2),
        vec![term(1, 1, 1), term(2, 1, 2), term(3, 3, 10)]
    );
    assert_eq!(remap_channel(6, 7, 8), vec![term(5, 1, 1)]);
    assert_eq!(remap_channel(8, 4, 6), vec![term(4, 1, 2), term(6, 1, 2)]);
    assert_eq!(
        remap_channel(3, 0, 1),
        vec![term(0, 1, 3), term(1, 1, 3), term(2, 1, 3)]
    );
    assert_eq!(remap_channel(4, 4, 5), vec![]);
}

#[test]
fn frames_keep_their_place_at_another_rate() {
    assert_eq!(resampled_frames(100, 44_100, 48_000), Some(108));
    assert_eq!(resampled_frames(1, 48_000, 8_000), Some(1));
    assert_eq!(resampled_frames(7, 8_000, 8_000), Some(7));
    assert_eq!(resampled_frames(7, 0, 8_000), None);
    assert_eq!(
        frame_position(3, 10, 44_100, 48_000),
        FramePosition {
            first: 2,
            second: 3,
            beyond: 36_300
        }
    );
    assert_eq!(
        frame_position(9, 3, 1, 2),
        FramePosition {
            first: 2,
            second: 2,
            beyond: 5
        }
    );
}

// ---------------------------------------------------------------------------
// Streams and devices
// ---------------------------------------------------------------------------

fn wave(channels: u16, sample_rate: u32, sample_format: SampleFormat) -> WaveFormat {
    WaveFormat {
        channels,
        sample_rate,
        sample_format,
    }
}

fn device(name: &str, is_default: bool) -> HostDevice {
    HostDevice {
        name: name.to_string(),
        channels: 2,
        sample_rate: 48_000,
        is_default,
    }
}

#[test]
fn a_config_matches_in_every_respect() {
    let range = |channels: u16, format: HostFormat| ConfigRange {
        channels,
        format,
        min_rate: 8_000,
        max_rate: 48_000,
    };
    let ranges = [
        range(1, HostFormat::Float32),
        range(2, HostFormat::Signed16),
        range(2, HostFormat::Float32),
        range(2, HostFormat::Float32),
    ];
    let float = wave(2, 48_000, SampleFormat::Float32);
    assert_eq!(matching_config(&ranges, &float).unwrap(), 2);
    assert_eq!(wave_format_to_host(&wave(2, 1, SampleFormat::Pcm16)), HostFormat::Signed16);
    let fast = wave(2, 96_000, SampleFormat::Float32);
    assert_eq!(
        matching_config(&ranges, &fast).unwrap_err().code,
        ReasonCode::RcAudioUnsupported
    );
    assert!(check_host_format(HostFormat::Unsigned16, "audio", "U16").is_ok());
    let error = check_host_format(HostFormat::Other, "input", "I8").unwrap_err();
    assert_eq!(error.message, "unsupported host input sample format I8");
}

#[test]
fn buffers_are_tried_from_the_smallest_on() {
    assert_eq!(exclusive_step(0, false), ExclusiveAction::Try(64));
    assert_eq!(exclusive_step(1, false), ExclusiveAction::Try(96));
    assert_eq!(exclusive_step(7, false), ExclusiveAction::Try(512));
    assert_eq!(exclusive_step(8, false), ExclusiveAction::Failed);
    assert_eq!(exclusive_step(3, true), ExclusiveAction::Opened(128));
}

#[test]
fn no_more_than_four_seconds_wait() {
    assert_eq!(queue_excess(384_000, 48_000, 2), 0);
    assert_eq!(queue_excess(384_005, 48_000, 2), 5);
    assert_eq!(queue_excess(3, 0, 2), 3);
}

#[test]
fn a_latency_is_rounded_and_limited() {
    assert_eq!(duration_ms(48_000, 480, 50), 10);
    assert_eq!(duration_ms(44_100, 64, 50), 1);
    assert_eq!(duration_ms(48_000, 48_000, 50), 50);
    assert_eq!(measure_latency_ms(48_000, 480), 20);
    assert_eq!(measure_latency_ms(48_000, 48_000), 50);
}

#[test]
fn callbacks_come_in_the_order_of_their_frames() {
    let buffers = vec![
        (10usize, "a".to_string()),
        (0, "b".to_string()),
        (30, "c".to_string()),
    ];
    assert_eq!(
        calculate_buffer_callbacks(&buffers, 39),
        vec![(10, "a".to_string()), (10, "b".to_string())]
    );
}

#[test]
fn devices_keep_their_numbers() {
    let mut backend = RealAudioBackend::new(vec![device("out", false), device("main", true)]);
    assert_eq!(backend.default_device_id().unwrap(), 2);
    assert_eq!(backend.device_info(1).unwrap().name, "out");
    assert_eq!(
        backend.device_info(9).unwrap_err().code,
        ReasonCode::RcAudioUnsupported
    );
    let infos = backend.enumerate_devices();
    assert_eq!(infos.len(), 2);
    assert_eq!((infos[1].id, infos[1].is_default), (2, true));

    let (added, removed) =
        backend.detect_device_changes(vec![device("main", true), device("new", false)]);
    assert_eq!(added.len(), 1);
    assert_eq!((added[0].id, added[0].name.as_str()), (3, "new"));
    assert_eq!(removed, vec![1]);
    assert!(backend.device_info(1).is_err());
    assert_eq!(backend.device_info(2).unwrap().name, "main");
}

#[test]
fn no_default_device_is_an_error() {
    let backend = RealAudioBackend::new(vec![device("out", false)]);
    assert_eq!(
        backend.default_device_id().unwrap_err().code,
        ReasonCode::RcAudioUnsupported
    );
}

#[test]
fn an_exclusive_client_hands_over_whole_buffers() {
    let mut backend = RealAudioBackend::new(vec![device("main", true)]);
    let format = wave(2, 48_000, SampleFormat::Float32);
    backend.exclusive_stream_opened(1);
    assert!(backend.stream_is_open(1));
    assert_eq!(backend.open_buffer_frames(1), Some(256));
    let client = backend.open_wasapi_client_exclusive(1, format, 480).unwrap();
    assert_eq!(backend.open_buffer_frames(1), Some(480));
    let state = backend.check_exclusive_push(client, 960).unwrap();
    assert_eq!((state.device_id, state.buffer_frames, state.period_ms), (1, 480, 10));
    assert_eq!(
        backend
            .check_exclusive_push(client, 959)
            .unwrap_err()
            .message,
        "exclusive-mode buffer size mismatch: expected 480 frames (960 samples), got 479 frames (959 samples)"
    );
    assert_eq!(
        backend.check_exclusive_push(client, 959).unwrap_err().code,
        ReasonCode::RcAudioBufferSizeMismatch
    );
    assert_eq!(
        backend.check_exclusive_push(client + 1, 960).unwrap_err().code,
        ReasonCode::RcAudioUnsupported
    );
    let log = backend.latency_log();
    assert_eq!(log.len(), 1);
    assert_eq!((log[0].subsystem.as_str(), log[0].measured_ms), ("wasapi_exclusive", 10));

    backend.close_stream(1);
    assert!(!backend.stream_is_open(1));
    assert!(backend.check_exclusive_push(client, 960).is_err());
}

#[test]
fn opened_streams_are_logged() {
    let mut backend = RealAudioBackend::new(vec![device("main", true)]);
    let format = wave(2, 48_000, SampleFormat::Pcm16);
    backend.stream_opened(1, &format, None);
    backend.wasapi_client_opened(1, &format, 480);
    let log = backend.latency_log();
    assert_eq!((log[0].subsystem.as_str(), log[0].measured_ms), ("real_audio", 31));
    assert_eq!((log[1].subsystem.as_str(), log[1].measured_ms), ("wasapi", 20));
    assert_eq!(backend.measure_output_latency(1, 960).unwrap(), 10);
    backend.close_all_streams();
    assert!(!backend.stream_is_open(1));
    assert_eq!(backend.open_buffer_frames(1), None);
}

// ---------------------------------------------------------------------------
// Effects
// ---------------------------------------------------------------------------

#[test]
fn sound_passes_through_a_chain_in_order() {
    let mut chain = XapoEffectChain::from_handles(vec![5, 7]);
    chain.insert(1, 6);
    chain.insert(3, 8);
    chain.insert(99, 9);
    assert_eq!(chain.handles(), &[5, 6, 7, 8]);
    assert_eq!(chain.remove(0), Some(5));
    assert_eq!(chain.remove(9), None);
    assert_eq!(chain.pop(), Some(8));
    assert_eq!(chain.steps(), vec![(6, false), (7, true)]);
    assert_eq!(XapoEffectChain::new().steps(), vec![]);
}

#[test]
fn a_voice_has_a_chain_that_can_be_switched_off() {
    let mut voice = VoiceEffectChain::new(4);
    assert_eq!(voice.voice_id(), 4);
    voice.chain_mut().push(9);
    assert_eq!(voice.chain().handles(), &[9]);
    assert!(voice.is_enabled());
    voice.set_enabled(false);
    assert!(!voice.is_enabled());
}

#[test]
fn an_instance_is_made_of_a_registered_effect() {
    let mut manager = XapoManager::new();
    let registration = XAPO_REGISTRATION_PROPERTIES::new(CLSID_XAPO, "\u{e4}", 3);
    let own = XAPO_REGISTRATION_PROPERTIES::new([7; 16], "own", 5);
    manager.register_effect(CLSID_XAPO, registration);
    assert!(manager
        .create_instance(&[9; 16], own.duplicate(), 6)
        .is_none());
    let handle = manager
        .create_instance(&CLSID_XAPO, own.duplicate(), 6)
        .unwrap();
    assert_eq!(manager.instance_channels(handle), Some(6));
    let noted = manager.instance_registration(handle).unwrap();
    assert_eq!(noted.clsid, [7; 16]);
    assert_eq!(noted.flags, 5);
    assert!(manager.instance_registration(handle + 1).is_none());
    assert_eq!(manager.instance_channels(handle + 1), None);
    let properties = manager.registration_properties(&CLSID_XAPO).unwrap();
    assert_eq!(properties.friendly_name[..2], [0xe4, 0]);
    assert_eq!(properties.flags, 3);
    assert_eq!(manager.registered_clsids(), vec![CLSID_XAPO]);
    manager.register_builtins();
    assert_eq!(manager.registered_count(), 8);
    assert!(manager.destroy_instance(handle));
    assert!(!manager.has_instance(handle));
    assert_ne!(manager.create_instance(&CLSID_XAPO, own, 6), Some(handle));
}
