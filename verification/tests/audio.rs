use handyxmutter::audio::{
    downmix, full_scale_of, is_normalizable, normalize, pcm16_from_int, pcm16_from_ints,
    prepare_recording, resample, try_normalize, PcmBuffer, RecordingError, PCM_FULL_SCALE,
    TARGET_SAMPLE_RATE,
};

#[test]
fn target_rate_is_16_khz() {
    assert_eq!(TARGET_SAMPLE_RATE, 16000);
}

#[test]
fn resampling_at_the_same_rate_is_identity() {
    let samples: Vec<i16> = vec![0, 1, -1, 32767, -32768, 1234, -4321];
    assert_eq!(resample(&samples, 16000, 16000), samples);
    assert_eq!(resample(&samples, 44100, 44100), samples);
}

#[test]
fn normalize_passes_mono_target_rate_audio_through() {
    let samples: Vec<i16> = vec![5, -6, 7, -8, 32767, -32768];
    let raw = PcmBuffer { samples: samples.clone(), sample_rate: 16000, channels: 1 };
    let out = normalize(raw, 16000);
    assert_eq!(out.samples, samples);
    assert_eq!(out.sample_rate, 16000);
    assert_eq!(out.channels, 1);
}

#[test]
fn downmix_of_silence_is_silence() {
    for channels in 1u16..=8 {
        let samples: Vec<i16> = vec![0; 24];
        let mono = downmix(&samples, channels);
        assert!(mono.iter().all(|&s| s == 0));
        let frames = if channels <= 1 { 24 } else { (24 + channels as usize - 1) / channels as usize };
        assert_eq!(mono.len(), frames);
    }
}

#[test]
fn downmix_takes_the_mean_of_each_frame() {
    let stereo: Vec<i16> = vec![10, 20, -10, -20, 100, 0, 32767, 32767, -32768, -32768];
    assert_eq!(downmix(&stereo, 2), vec![15, -15, 50, 32767, -32768]);
}

#[test]
fn downmix_rounds_toward_zero() {
    assert_eq!(downmix(&vec![1, 2], 2), vec![1]);
    assert_eq!(downmix(&vec![-1, -2], 2), vec![-1]);
    assert_eq!(downmix(&vec![1, 1, 0], 3), vec![0]);
    assert_eq!(downmix(&vec![-1, -1, 0], 3), vec![0]);
}

#[test]
fn downmix_divides_a_partial_frame_by_the_channel_count() {
    // Five samples in three channels: one full frame and a frame of two.
    assert_eq!(downmix(&vec![3, 6, 9, 30, 60], 3), vec![6, 30]);
}

#[test]
fn downmix_of_one_channel_is_identity() {
    let samples: Vec<i16> = vec![1, -2, 3];
    assert_eq!(downmix(&samples, 1), samples);
    assert_eq!(downmix(&samples, 0), samples);
}

#[test]
fn downmix_of_nothing_is_nothing() {
    assert_eq!(downmix(&Vec::new(), 2), Vec::<i16>::new());
}

#[test]
fn resample_halves_the_rate() {
    let samples: Vec<i16> = vec![0, 10, 20, 30, 40, 50, 60, 70];
    assert_eq!(resample(&samples, 32000, 16000), vec![0, 20, 40, 60]);
}

#[test]
fn resample_doubles_the_rate_by_interpolation() {
    let samples: Vec<i16> = vec![0, 100, -100];
    // Positions 0, 0.5, 1, 1.5, 2, 2.5; the last sample is its own neighbour.
    assert_eq!(resample(&samples, 8000, 16000), vec![0, 50, 100, 0, -100, -100]);
}

#[test]
fn resample_interpolates_by_the_fraction() {
    // 3 input samples at 48 kHz to 32 kHz: floor(3 * 32000 / 48000) = 2 samples,
    // at positions 0 and 1.5.
    assert_eq!(resample(&vec![0, 90, 30], 48000, 32000), vec![0, 60]);
}

#[test]
fn resample_rounds_the_step_toward_zero() {
    // Position 1/3 between 0 and 10 is 3.33, between 0 and -10 is -3.33.
    assert_eq!(resample(&vec![0, 10], 1, 3), vec![0, 3, 6, 10, 10, 10]);
    assert_eq!(resample(&vec![0, -10], 1, 3), vec![0, -3, -6, -10, -10, -10]);
}

#[test]
fn resample_length_is_floored() {
    let samples: Vec<i16> = vec![7; 441];
    // 441 * 16000 / 44100 = 160
    assert_eq!(resample(&samples, 44100, 16000).len(), 160);
    let samples: Vec<i16> = vec![7; 440];
    // 440 * 16000 / 44100 = 159.6
    assert_eq!(resample(&samples, 44100, 16000).len(), 159);
}

#[test]
fn resample_of_nothing_is_nothing() {
    assert_eq!(resample(&Vec::new(), 44100, 16000), Vec::<i16>::new());
}

#[test]
fn resample_to_rate_zero_is_empty() {
    assert_eq!(resample(&vec![1, 2, 3], 16000, 0), Vec::<i16>::new());
}

#[test]
fn resample_of_silence_is_silence() {
    let samples: Vec<i16> = vec![0; 1000];
    let out = resample(&samples, 44100, 16000);
    assert_eq!(out.len(), 362);
    assert!(out.iter().all(|&s| s == 0));
}

#[test]
fn normalize_mixes_down_then_resamples() {
    let stereo: Vec<i16> = vec![0, 0, 10, 30, 40, 40, 50, 70];
    let raw = PcmBuffer { samples: stereo, sample_rate: 32000, channels: 2 };
    let out = normalize(raw, 16000);
    // Mono: 0, 20, 40, 60; every second sample is kept.
    assert_eq!(out.samples, vec![0, 40]);
    assert_eq!(out.sample_rate, 16000);
    assert_eq!(out.channels, 1);
}

#[test]
fn normalize_of_empty_input_is_empty() {
    let raw = PcmBuffer { samples: Vec::new(), sample_rate: 44100, channels: 2 };
    let out = normalize(raw, 16000);
    assert!(out.samples.is_empty());
    assert_eq!(out.sample_rate, 16000);
    assert_eq!(out.channels, 1);
}

#[test]
fn normalize_follows_the_float_formula_on_quantized_samples() {
    // The same resampling in floating point, rounded toward zero, sample by sample.
    let input: Vec<i16> = (0..200).map(|i| ((i * 37) % 2001 - 1000) as i16).collect();
    let out = resample(&input, 44100, 16000);
    let ratio = 44100.0f64 / 16000.0f64;
    assert_eq!(out.len(), (input.len() as f64 / ratio) as usize);
    for (i, &got) in out.iter().enumerate() {
        let pos = i as f64 * ratio;
        let idx = pos as usize;
        let a = input[idx] as f64;
        let b = if idx + 1 < input.len() { input[idx + 1] as f64 } else { a };
        let want = a + (b - a) * (pos - idx as f64);
        assert!((got as f64 - want).abs() <= 1.0);
    }
}

#[test]
fn full_scale_of_each_sample_width() {
    assert_eq!(full_scale_of(1), 1);
    assert_eq!(full_scale_of(8), 128);
    assert_eq!(full_scale_of(16), 32768);
    assert_eq!(full_scale_of(24), 8_388_608);
    assert_eq!(full_scale_of(32), 2_147_483_648);
}

#[test]
fn integer_samples_become_16_bit_pcm() {
    assert_eq!(PCM_FULL_SCALE, 32767);
    assert_eq!(pcm16_from_int(0, 16), 0);
    assert_eq!(pcm16_from_int(32767, 16), 32766);
    assert_eq!(pcm16_from_int(-32768, 16), -32767);
    assert_eq!(pcm16_from_int(16384, 16), 16383);
    assert_eq!(pcm16_from_int(-16384, 16), -16383);
    assert_eq!(pcm16_from_int(1, 16), 0);
    assert_eq!(pcm16_from_int(-1, 16), 0);
    assert_eq!(pcm16_from_int(127, 8), 32511);
    assert_eq!(pcm16_from_int(-128, 8), -32767);
    assert_eq!(pcm16_from_int(8_388_607, 24), 32766);
    assert_eq!(pcm16_from_int(-8_388_608, 24), -32767);
    assert_eq!(pcm16_from_int(i32::MAX, 32), 32766);
    assert_eq!(pcm16_from_int(i32::MIN, 32), -32767);
}

#[test]
fn samples_past_full_scale_are_clamped() {
    assert_eq!(pcm16_from_int(40000, 16), 32767);
    assert_eq!(pcm16_from_int(-40000, 16), -32767);
    assert_eq!(pcm16_from_int(i32::MAX, 8), 32767);
    assert_eq!(pcm16_from_int(i32::MIN, 1), -32767);
}

#[test]
fn integer_samples_follow_the_float_conversion() {
    for &(sample, bits) in &[(12345i32, 16u16), (-12345, 16), (100, 8), (-100, 8), (5_000_000, 24)] {
        let unit = sample as f32 / (1_i64 << (bits - 1)) as f32;
        let want = (unit.clamp(-1.0, 1.0) * i16::MAX as f32) as i16;
        assert_eq!(pcm16_from_int(sample, bits), want);
    }
}

#[test]
fn a_buffer_of_integer_samples_is_converted_one_by_one() {
    assert_eq!(pcm16_from_ints(&vec![0, 64, -64, 127], 8), vec![0, 16383, -16383, 32511]);
    assert_eq!(pcm16_from_ints(&Vec::new(), 16), Vec::<i16>::new());
}

#[test]
fn audio_without_a_sample_rate_cannot_be_resampled() {
    let raw = PcmBuffer { samples: vec![1, 2, 3], sample_rate: 0, channels: 1 };
    assert!(!is_normalizable(&raw, 16000));
    assert!(try_normalize(raw, 16000).is_none());
}

#[test]
fn audio_at_the_target_rate_needs_no_sample_rate_check() {
    let raw = PcmBuffer { samples: vec![1, 2, 3], sample_rate: 0, channels: 1 };
    assert!(is_normalizable(&raw, 0));
    let out = try_normalize(raw, 0).unwrap();
    assert_eq!(out.samples, vec![1, 2, 3]);
}

#[test]
fn try_normalize_agrees_with_normalize() {
    let samples: Vec<i16> = (0..100).map(|i| (i * 300 - 15000) as i16).collect();
    let a = PcmBuffer { samples: samples.clone(), sample_rate: 44100, channels: 2 };
    let b = PcmBuffer { samples, sample_rate: 44100, channels: 2 };
    assert!(is_normalizable(&a, 16000));
    let got = try_normalize(a, 16000).unwrap();
    let want = normalize(b, 16000);
    assert_eq!(got.samples, want.samples);
    assert_eq!(got.samples.len(), 18);
    assert_eq!(got.sample_rate, 16000);
    assert_eq!(got.channels, 1);
}

#[test]
fn a_recording_without_samples_is_refused() {
    let raw = PcmBuffer { samples: Vec::new(), sample_rate: 44100, channels: 2 };
    match prepare_recording(raw) {
        Err(error) => {
            assert_eq!(error, RecordingError::NoSamples);
            assert_eq!(error.message(), "Audio file contains no samples");
        }
        Ok(_) => panic!("an empty recording was taken in"),
    }
    // The missing samples are named even where the rate is missing too.
    let raw = PcmBuffer { samples: Vec::new(), sample_rate: 0, channels: 1 };
    assert!(matches!(prepare_recording(raw), Err(RecordingError::NoSamples)));
}

#[test]
fn a_recording_without_a_sample_rate_is_refused() {
    let raw = PcmBuffer { samples: vec![1, 2, 3], sample_rate: 0, channels: 1 };
    match prepare_recording(raw) {
        Err(error) => {
            assert_eq!(error, RecordingError::InvalidAudio);
            assert_eq!(error.message(), "Audio cannot be brought to the working sample rate");
        }
        Ok(_) => panic!("a recording without a sample rate was taken in"),
    }
}

#[test]
fn a_recording_is_brought_to_mono_at_the_working_rate() {
    let raw = PcmBuffer { samples: vec![100, 200, 300, 500, -40, -60, 7, 9], sample_rate: 32000, channels: 2 };
    let expected = normalize(
        PcmBuffer { samples: raw.samples.clone(), sample_rate: 32000, channels: 2 },
        TARGET_SAMPLE_RATE,
    );
    match prepare_recording(raw) {
        Ok(audio) => {
            assert_eq!(audio.samples, vec![150, -50]);
            assert_eq!(audio.samples, expected.samples);
            assert_eq!(audio.sample_rate, 16000);
            assert_eq!(audio.channels, 1);
        }
        Err(_) => panic!("a sound recording was refused"),
    }
}
