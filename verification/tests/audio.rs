use sovits_svc::audio::{
    adjust_loudness_envelope, can_convert, greatest_common_divisor,
    interpolate_linear_1d_to_length, length_at, one_waveform, wav_float_bytes, written_wav,
    AudioError, Interpolation, Resampling, SincKernel, SincResampler, Span, VolumeExtractor,
};
use sovits_svc::shapes::{centered_frames, single_row};
use sovits_svc::single::Single;
use std::io::Cursor;

fn singles(values: &[f32]) -> Vec<Single> {
    values
        .iter()
        .map(|value| Single {
            bits: value.to_bits(),
        })
        .collect()
}

#[test]
fn common_divisors() {
    assert_eq!(greatest_common_divisor(44100, 16000), 100);
    assert_eq!(greatest_common_divisor(44100, 48000), 300);
    assert_eq!(greatest_common_divisor(-12, 18), 6);
    assert_eq!(greatest_common_divisor(0, 0), 0);
    assert_eq!(greatest_common_divisor(0, -5), 5);
    assert_eq!(greatest_common_divisor(i32::MIN, 6), 2);
}

#[test]
fn waveforms_of_one_channel() {
    assert_eq!(one_waveform(&[5]), Some(5));
    assert_eq!(one_waveform(&[1, 5]), Some(5));
    assert_eq!(one_waveform(&[1, 5, 1]), Some(5));
    assert_eq!(one_waveform(&[2, 5]), None);
    assert_eq!(one_waveform(&[1, 5, 2]), None);
    assert_eq!(one_waveform(&[]), None);
    assert_eq!(one_waveform(&[1, 5, 1, 1]), None);
    assert!(single_row(&[1, 7]));
    assert!(!single_row(&[7]));
    assert!(!single_row(&[2, 7]));
}

#[test]
fn wav_bytes_are_read_back() {
    let values = [0.0_f32, -1.0, 0.25, 1.0e-40, f32::MAX, -0.0];
    let bytes = wav_float_bytes(&singles(&values), &[1, 6], 44100).unwrap();
    assert_eq!(bytes.len(), 68 + 4 * values.len());
    let mut reader = hound::WavReader::new(Cursor::new(bytes)).unwrap();
    let spec = reader.spec();
    assert_eq!(spec.channels, 1);
    assert_eq!(spec.sample_rate, 44100);
    assert_eq!(spec.bits_per_sample, 32);
    assert_eq!(spec.sample_format, hound::SampleFormat::Float);
    let read: Vec<u32> = reader
        .samples::<f32>()
        .map(|sample| sample.unwrap().to_bits())
        .collect();
    let expected: Vec<u32> = values.iter().map(|value| value.to_bits()).collect();
    assert_eq!(read, expected);
}

#[test]
fn failures_of_the_wav_writer() {
    assert_eq!(written_wav(Ok(vec![1, 2])), Ok(vec![1, 2]));
    assert_eq!(written_wav(Err(hound::Error::Unsupported)), Err(AudioError::Writer));
    assert_eq!(AudioError::Writer.message(), "failed to write WAV data");
}

#[test]
fn wav_bytes_match_a_float_writer() {
    let values = [0.5_f32, -0.75, 3.25];
    let spec = hound::WavSpec {
        channels: 1,
        sample_rate: 48000,
        bits_per_sample: 32,
        sample_format: hound::SampleFormat::Float,
    };
    let mut expected = Cursor::new(Vec::new());
    let mut writer = hound::WavWriter::new(&mut expected, spec).unwrap();
    for value in values {
        writer.write_sample(value).unwrap();
    }
    writer.finalize().unwrap();
    let bytes = wav_float_bytes(&singles(&values), &[3], 48000).unwrap();
    assert_eq!(bytes, expected.into_inner());
}

#[test]
fn wav_header_bytes() {
    let bytes = wav_float_bytes(&singles(&[1.0]), &[1, 1, 1], 44100).unwrap();
    let mut expected = Vec::new();
    expected.extend_from_slice(b"RIFF");
    expected.extend_from_slice(&64_u32.to_le_bytes());
    expected.extend_from_slice(b"WAVEfmt ");
    expected.extend_from_slice(&40_u32.to_le_bytes());
    expected.extend_from_slice(&0xfffe_u16.to_le_bytes());
    expected.extend_from_slice(&1_u16.to_le_bytes());
    expected.extend_from_slice(&44100_u32.to_le_bytes());
    expected.extend_from_slice(&176400_u32.to_le_bytes());
    expected.extend_from_slice(&4_u16.to_le_bytes());
    expected.extend_from_slice(&32_u16.to_le_bytes());
    expected.extend_from_slice(&22_u16.to_le_bytes());
    expected.extend_from_slice(&32_u16.to_le_bytes());
    expected.extend_from_slice(&1_u32.to_le_bytes());
    expected.extend_from_slice(&[3, 0, 0, 0, 0, 0, 0x10, 0, 0x80, 0, 0, 0xaa, 0, 0x38, 0x9b, 0x71]);
    expected.extend_from_slice(b"data");
    expected.extend_from_slice(&4_u32.to_le_bytes());
    expected.extend_from_slice(&1.0_f32.to_le_bytes());
    assert_eq!(bytes, expected);
}

#[test]
fn wav_output_needs_one_waveform() {
    let error = wav_float_bytes(&singles(&[0.0, 0.0]), &[2, 1], 44100).unwrap_err();
    assert_eq!(error, AudioError::WaveformCount);
    assert_eq!(error.message(), "output audio must contain exactly one waveform");
}

#[test]
fn empty_wav_has_a_header_only() {
    let bytes = wav_float_bytes(&Vec::new(), &[1, 0], 44100).unwrap();
    assert_eq!(bytes.len(), 68);
    assert_eq!(bytes[4..8], 60_u32.to_le_bytes());
}

#[test]
fn resampler_for_the_encoder() {
    let resampler = SincResampler::new(44100, 16000, 6).unwrap();
    assert_eq!(resampler.original_rate(), 44100);
    assert_eq!(resampler.target_rate(), 16000);
    assert_eq!(resampler.reduced_original_rate, 441);
    assert_eq!(resampler.reduced_target_rate, 160);
    assert_eq!(resampler.width, 17);
    let kernel = SincKernel {
        phases: 160,
        taps: 475,
        stride: 441,
    };
    assert_eq!(resampler.convolution, Some(kernel));
    let plan = resampler.resample(&[1, 512], true).unwrap();
    let expected = Resampling::Convolve {
        left: 17,
        right: 458,
        produced: 320,
        target_length: 186,
    };
    assert_eq!(plan, expected);
}

#[test]
fn resampler_widths() {
    assert_eq!(SincResampler::new(48000, 44100, 6).unwrap().width, 7);
    assert_eq!(SincResampler::new(44100, 48000, 6).unwrap().width, 7);
    assert_eq!(SincResampler::new(44100, 16000, 128).unwrap().width, 357);
    for (original, target, lowpass) in [(8000, 44100, 6), (96000, 44100, 6), (11025, 16000, 128)] {
        let divisor = greatest_common_divisor(original, target);
        let (o, t) = (original / divisor, target / divisor);
        let base = o.min(t) as f64 * 0.99_f64;
        let expected = (lowpass as f64 * o as f64 / base).ceil() as i32;
        assert_eq!(SincResampler::new(original, target, lowpass).unwrap().width, expected);
    }
}

#[test]
fn equal_rates_leave_the_waveform() {
    let resampler = SincResampler::new(44100, 44100, 6).unwrap();
    assert_eq!(resampler.convolution, None);
    assert_eq!(resampler.resample(&[1, 100], true), Ok(Resampling::Unchanged));
    assert_eq!(length_at(44100, 44100, 100), 100);
}

#[test]
fn resampler_errors() {
    assert_eq!(SincResampler::new(0, 16000, 6), Err(AudioError::OriginalRate));
    assert_eq!(SincResampler::new(44100, -1, 6), Err(AudioError::TargetRate));
    assert_eq!(SincResampler::new(44100, 16000, 0), Err(AudioError::FilterWidth));
    let resampler = SincResampler::new(48000, 44100, 6).unwrap();
    assert_eq!(resampler.resample(&[100], true), Err(AudioError::WaveformRank));
    assert_eq!(resampler.resample(&[1, 100], false), Err(AudioError::WaveformType));
    assert_eq!(AudioError::OriginalRate.message(), "original sample rate must be positive");
    assert_eq!(AudioError::TargetRate.message(), "target sample rate must be positive");
    assert_eq!(AudioError::FilterWidth.message(), "low-pass filter width must be positive");
    assert_eq!(AudioError::WaveformRank.message(), "waveform must have shape [batch, samples]");
    assert_eq!(AudioError::WaveformType.message(), "waveform must use float32");
}

#[test]
fn resampled_lengths_are_produced() {
    for (original, target) in [(48000, 44100), (44100, 16000), (8000, 44100), (22050, 44100)] {
        let resampler = SincResampler::new(original, target, 6).unwrap();
        for length in [0, 1, 159, 160, 161, 441, 44099, 1_000_003] {
            assert!(resampler.room_for(length));
            match resampler.resample(&[2, length], true).unwrap() {
                Resampling::Unchanged => panic!("the rates differ"),
                Resampling::Convolve {
                    produced,
                    target_length,
                    ..
                } => {
                    assert!(target_length <= produced);
                    assert_eq!(target_length, length_at(original, target, length));
                }
            }
        }
    }
}

#[test]
fn conversions_that_do_not_fit() {
    assert!(can_convert(48000, 44100, 6, 1_000_000));
    assert!(can_convert(44100, 44100, 6, i32::MAX));
    assert!(can_convert(-1, 44100, 6, 1));
    assert!(!can_convert(1, 44100, 6, 1_000_000));
    assert!(!SincResampler::fits(i32::MAX, 44100, 6));
    assert!(!can_convert(i32::MAX, 44100, 6, 1));
}

#[test]
fn linear_interpolation_uses_exact_requested_length() {
    let plan = interpolate_linear_1d_to_length(&[1, 3], 5);
    let expected = Interpolation::Linear {
        rows: 1,
        input_length: 3,
        target_length: 5,
    };
    assert_eq!(plan, Ok(expected));
}

#[test]
fn interpolation_to_fewer_values_and_of_one_value() {
    let halved = Interpolation::Linear {
        rows: 1,
        input_length: 4,
        target_length: 2,
    };
    assert_eq!(interpolate_linear_1d_to_length(&[1, 4], 2), Ok(halved));
    let broadcast = Interpolation::Broadcast {
        rows: 1,
        target_length: 4,
    };
    assert_eq!(interpolate_linear_1d_to_length(&[1, 1], 4), Ok(broadcast));
}

#[test]
fn interpolation_plans() {
    assert_eq!(interpolate_linear_1d_to_length(&[1, 3], 3), Ok(Interpolation::Unchanged));
    assert_eq!(
        interpolate_linear_1d_to_length(&[2, 1], 4),
        Ok(Interpolation::Broadcast {
            rows: 2,
            target_length: 4
        })
    );
    assert_eq!(
        interpolate_linear_1d_to_length(&[1, 3], 5),
        Ok(Interpolation::Linear {
            rows: 1,
            input_length: 3,
            target_length: 5
        })
    );
    assert_eq!(interpolate_linear_1d_to_length(&[3], 5), Err(AudioError::InterpolationRank));
    assert_eq!(interpolate_linear_1d_to_length(&[1, 0], 5), Err(AudioError::InterpolationInput));
    assert_eq!(interpolate_linear_1d_to_length(&[1, 3], 0), Err(AudioError::InterpolationTarget));
    assert_eq!(
        AudioError::InterpolationRank.message(),
        "linear interpolation input must be 2D"
    );
    assert_eq!(AudioError::InterpolationInput.message(), "linear interpolation input is empty");
    assert_eq!(AudioError::InterpolationTarget.message(), "linear interpolation target is empty");
}

#[test]
fn loudness_is_measured_in_half_seconds() {
    let plan = adjust_loudness_envelope(&[1, 88200], 44100, &[1, 88064, 1], 44100).unwrap();
    assert_eq!(plan.source_frames.frame_length, 44100);
    assert_eq!(plan.source_frames.hop, 22050);
    assert_eq!(plan.source_frames.left, 22050);
    assert_eq!(plan.source_frames.frame_count, 5);
    assert_eq!(plan.source_frames.strides(), [132300, 22050, 1]);
    assert_eq!(plan.output_frames.frame_count, 4);
    assert_eq!(plan.target_length, 88064);
    let odd = adjust_loudness_envelope(&[1, 10], 7, &[10], 9).unwrap();
    assert_eq!(odd.source_frames.frame_length, 6);
    assert_eq!(odd.source_frames.hop, 3);
    assert_eq!(odd.output_frames.frame_length, 8);
    assert_eq!(odd.output_frames.hop, 4);
    assert_eq!(
        odd.source_stretch,
        Interpolation::Linear {
            rows: 1,
            input_length: 4,
            target_length: 10
        }
    );
}

#[test]
fn loudness_errors() {
    let run = |source: &[i32], source_rate: i32, output: &[i32], output_rate: i32| {
        adjust_loudness_envelope(source, source_rate, output, output_rate).unwrap_err()
    };
    assert_eq!(run(&[2, 10], 8, &[10], 8), AudioError::LoudnessSource);
    assert_eq!(run(&[1, 10], 8, &[2, 10], 8), AudioError::LoudnessOutput);
    assert_eq!(run(&[1, 10], 0, &[10], 8), AudioError::SampleRates);
    assert_eq!(run(&[1, 10], 8, &[10], -8), AudioError::SampleRates);
    assert_eq!(run(&[1, 10], 8, &[1, 0], 8), AudioError::InterpolationTarget);
    assert_eq!(
        AudioError::LoudnessSource.message(),
        "loudness source must have shape [1, samples]"
    );
    assert_eq!(AudioError::LoudnessOutput.message(), "loudness output must contain one waveform");
    assert_eq!(AudioError::SampleRates.message(), "sample rates must be positive");
}

#[test]
fn volume_frames() {
    let extractor = VolumeExtractor::new(512).unwrap();
    let plan = extractor.extract(&[1, 1300]).unwrap();
    assert_eq!(plan.before, Span { start: 1, end: 257 });
    assert_eq!(
        plan.after,
        Span {
            start: 1043,
            end: 1299
        }
    );
    assert_eq!(plan.frames.frame_count, 2);
    assert_eq!(plan.frames.padded_length, 1812);
    assert_eq!(plan.frames.frame_length, 512);
    let odd = VolumeExtractor::new(5).unwrap().extract(&[1, 11]).unwrap();
    assert_eq!((odd.frames.left, odd.frames.right), (2, 3));
    assert_eq!(odd.frames.frame_count, 2);
}

#[test]
fn mirrored_volume_padding() {
    let samples = [10, 11, 12, 13, 14, 15, 16];
    let plan = VolumeExtractor::new(5).unwrap().extract(&[1, 7]).unwrap();
    let mut padded: Vec<i32> = samples[plan.before.start as usize..plan.before.end as usize]
        .iter()
        .rev()
        .copied()
        .collect();
    padded.extend_from_slice(&samples);
    padded.extend(
        samples[plan.after.start as usize..plan.after.end as usize]
            .iter()
            .rev(),
    );
    assert_eq!(padded, [12, 11, 10, 11, 12, 13, 14, 15, 16, 15, 14, 13]);
    assert_eq!(padded.len() as i32, plan.frames.padded_length);
}

#[test]
fn volume_errors() {
    assert_eq!(VolumeExtractor::new(0), Err(AudioError::HopSize));
    assert_eq!(VolumeExtractor::new(-512), Err(AudioError::HopSize));
    let extractor = VolumeExtractor::new(512).unwrap();
    assert_eq!(extractor.extract(&[1300]), Err(AudioError::AudioRank));
    assert_eq!(extractor.extract(&[1, 511]), Err(AudioError::NoVolumeFrame));
    let narrow = VolumeExtractor::new(1).unwrap();
    assert_eq!(narrow.extract(&[1, 1]), Err(AudioError::TooShortToReflect));
    assert_eq!(AudioError::HopSize.message(), "volume hop size must be positive");
    assert_eq!(AudioError::AudioRank.message(), "audio must have shape [batch, samples]");
    assert_eq!(AudioError::NoVolumeFrame.message(), "audio is shorter than one volume frame");
    assert_eq!(AudioError::TooShortToReflect.message(), "audio is too short for reflect padding");
}

#[test]
fn frames_around_multiples_of_the_hop() {
    let layout = centered_frames(100, 30, 10);
    assert_eq!((layout.left, layout.right), (15, 15));
    assert_eq!(layout.padded_length, 130);
    assert_eq!(layout.frame_count, 11);
    assert_eq!(layout.strides(), [130, 10, 1]);
}

#[test]
fn resampled_lengths_are_exact() {
    for (original, target) in [(44100, 16000), (48000, 44100), (16000, 44100), (1, 44100)] {
        for length in [0, 1, 2, 440, 441, 442, 44032, 48000, 48001] {
            let scaled = i64::from(length) * i64::from(target);
            let expected = (scaled + i64::from(original) - 1) / i64::from(original);
            let expected = expected.min(i64::from(i32::MAX)) as i32;
            assert_eq!(length_at(original, target, length), expected);
        }
    }
    assert_eq!(length_at(48000, 44100, 48001), 44101);
    assert_eq!(length_at(44100, 16000, 1536), 558);
}

#[test]
fn volume_is_measured_from_one_frame_on() {
    for hop in [2, 3, 512] {
        let extractor = VolumeExtractor::new(hop).unwrap();
        for length in [0, 1, 2, 3, 511, 512, 1025] {
            match extractor.extract(&[3, length]) {
                Ok(plan) => {
                    assert_eq!(plan.rows, 3);
                    assert_eq!(plan.frames.frame_count, length / hop);
                }
                Err(error) => {
                    assert!(length < hop);
                    assert_eq!(error, AudioError::NoVolumeFrame);
                }
            }
        }
    }
}

#[test]
fn the_shapes_of_one_waveform_give_one_file() {
    let samples = singles(&[0.5, -0.25]);
    let bytes = wav_float_bytes(&samples, &[2], 44100).unwrap();
    assert_eq!(wav_float_bytes(&samples, &[1, 2], 44100).unwrap(), bytes);
    assert_eq!(wav_float_bytes(&samples, &[1, 2, 1], 44100).unwrap(), bytes);
    assert!(wav_float_bytes(&singles(&[]), &[1, 0], 44100).is_ok());
}
