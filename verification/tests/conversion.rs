use sovits_svc::audio::{AudioError, Resampling, Span};
use sovits_svc::contentvec::ContentVecError;
use sovits_svc::inference::{
    can_manage, check_request, infer_sliced, prepare_slicing, Fitting, InferenceError,
    InferenceOptions, Job, Joint, Merger, Refiner, SliceInferenceOptions, SliceSizes, Slicing,
    SovitsSvc,
};
use sovits_svc::pitch::{FcpePredictor, MelAlignment, PitchError};
use sovits_svc::single::Single;

fn single(value: f32) -> Single {
    Single {
        bits: value.to_bits(),
    }
}

#[test]
fn default_options() {
    let options = InferenceOptions::default();
    assert_eq!(options.input_gain_db, 0);
    assert_eq!(options.pitch_shift, single(0.0));
    assert_eq!(options.noise_scale, single(0.4));
    assert!(!options.predict_f0);
    assert_eq!(options.refiner, Refiner::Off);
    assert_eq!(options.diffusion_steps, 100);
    assert_eq!(options.diffusion_speedup, 10);
    assert_eq!(options.flow_matching_steps, 50);
    assert_eq!(options.loudness_envelope_adjustment, single(1.0));
    assert!(!options.second_encoding);
    let slices = SliceInferenceOptions::default();
    assert_eq!(slices.threshold_db, single(-40.0));
    assert_eq!(slices.padding_seconds, single(0.5));
    assert_eq!(slices.clip_seconds, single(0.0));
    assert_eq!(slices.crossfade_seconds, single(0.0));
    assert_eq!(slices.crossfade_ratio, single(0.75));
}

#[test]
fn requests_are_checked_in_order() {
    let base = InferenceOptions::default();
    let check = |options: InferenceOptions| check_request(&[1, 100], 44100, &options);
    assert_eq!(check(base), None);
    assert_eq!(check_request(&[2, 100], 0, &base), Some(InferenceError::InputShape));
    assert_eq!(check_request(&[1, 100], 0, &base), Some(InferenceError::SampleRate));
    let gain = |input_gain_db: i32| InferenceOptions {
        input_gain_db,
        ..base
    };
    assert_eq!(check(gain(-12)), None);
    assert_eq!(check(gain(12)), None);
    assert_eq!(check(gain(-13)), Some(InferenceError::InputGain));
    assert_eq!(check(gain(13)), Some(InferenceError::InputGain));
    for scale in [-0.1_f32, f32::NAN, f32::NEG_INFINITY] {
        let options = InferenceOptions {
            noise_scale: single(scale),
            ..base
        };
        assert_eq!(check(options), Some(InferenceError::NoiseScale));
    }
    let negative_zero = InferenceOptions {
        noise_scale: single(-0.0),
        ..base
    };
    assert_eq!(check(negative_zero), None);
}

#[test]
fn only_the_chosen_refiner_is_checked() {
    let bad = InferenceOptions {
        diffusion_steps: 1,
        diffusion_speedup: 0,
        flow_matching_steps: 0,
        ..InferenceOptions::default()
    };
    let check = |options: InferenceOptions| check_request(&[1, 100], 44100, &options);
    assert_eq!(check(bad), None);
    let shallow = InferenceOptions {
        refiner: Refiner::ShallowDiffusion,
        ..bad
    };
    assert_eq!(check(shallow), Some(InferenceError::DiffusionSteps));
    let steps = InferenceOptions {
        diffusion_steps: 2,
        ..shallow
    };
    assert_eq!(check(steps), Some(InferenceError::DiffusionSpeedup));
    let flow = InferenceOptions {
        refiner: Refiner::FlowMatching,
        ..bad
    };
    assert_eq!(check(flow), Some(InferenceError::FlowMatchingSteps));
}

#[test]
fn inference_messages() {
    let messages = [
        (InferenceError::InputShape, "input audio must have shape [1, samples]"),
        (InferenceError::SampleRate, "input sample rate must be positive"),
        (InferenceError::InputGain, "input gain must be between -12 and 12 dB"),
        (InferenceError::NoiseScale, "GAN noise scale must be non-negative"),
        (InferenceError::DiffusionSteps, "diffusion step count must be at least 2"),
        (InferenceError::DiffusionSpeedup, "diffusion speedup must be positive"),
        (InferenceError::FlowMatchingSteps, "flow matching step count must be positive"),
        (InferenceError::TooShort, "input is shorter than one model frame"),
        (InferenceError::FrameCounts, "preprocessing produced inconsistent frame counts"),
        (
            InferenceError::ScheduleLength {
                k_step: 100,
                length: 50,
            },
            "k_step 100 exceeds diffusion schedule length 50",
        ),
        (InferenceError::SolverSteps, "DPM-Solver++ order 2 needs at least 2 steps"),
        (InferenceError::EndTime, "Flow Matching end time must be greater than t_k"),
        (InferenceError::SliceDurations, "slice durations must be non-negative"),
        (InferenceError::CrossfadeRatio, "crossfade ratio must be between zero and one"),
        (InferenceError::CrossfadeDuration, "crossfade duration cannot exceed clip duration"),
        (InferenceError::ChunkPadding, "inferred chunk is shorter than its padding"),
        (InferenceError::ChunkCrossfade, "chunk is shorter than the configured crossfade"),
        (InferenceError::NoOutput, "slicer produced no output"),
        (
            InferenceError::Audio(AudioError::OriginalRate),
            "original sample rate must be positive",
        ),
        (InferenceError::Pitch(PitchError::TargetLength), "target length must be positive"),
        (
            InferenceError::Content(ContentVecError::WavLength),
            "wav is shorter than one feature frame",
        ),
    ];
    for (error, message) in messages {
        assert_eq!(error.message(), message);
    }
}

#[test]
fn recordings_of_ordinary_length_are_manageable() {
    assert!(can_manage(44100, 44100 * 600));
    assert!(can_manage(48000, 48000 * 600));
    assert!(can_manage(44100, 0));
    assert!(!can_manage(44100, -1));
    assert!(!can_manage(44100, i32::MAX));
    assert!(!can_manage(1, 1_000_000));
}

#[test]
fn frame_counts_must_agree() {
    assert_eq!(SovitsSvc::check_frames(3, 3, 3, 3, 3), Ok(()));
    for counts in [(2, 3, 3, 3), (3, 2, 3, 3), (3, 3, 4, 3), (3, 3, 3, 0)] {
        assert_eq!(
            SovitsSvc::check_frames(3, counts.0, counts.1, counts.2, counts.3),
            Err(InferenceError::FrameCounts)
        );
    }
}

#[test]
fn pitch_plans() {
    let mut predictor = FcpePredictor::load();
    let plan = predictor.infer(&[1, 44100], 44100, 86).unwrap();
    assert_eq!(plan.source_sample_count, 44100);
    assert_eq!(plan.target_length, 86);
    let expected = Resampling::Convolve {
        left: 357,
        right: 798,
        produced: 16160,
        target_length: 16000,
    };
    assert_eq!(plan.resampling, expected);
    let again = predictor.infer(&[44100], 44100, 86).unwrap();
    assert_eq!(again, plan);
    let unchanged = predictor.infer(&[1, 16000], 16000, 86).unwrap();
    assert_eq!(unchanged.resampling, Resampling::Unchanged);
}

#[test]
fn pitch_faults() {
    let mut predictor = FcpePredictor::load();
    assert_eq!(predictor.infer(&[1, 100], 44100, 0), Err(PitchError::TargetLength));
    assert_eq!(predictor.infer(&[2, 100], 44100, 1), Err(PitchError::AudioShape));
    assert_eq!(
        predictor.infer(&[1, 100], 0, 1),
        Err(PitchError::Audio {
            error: AudioError::OriginalRate
        })
    );
    assert_eq!(
        FcpePredictor::infer_resampled_traced(&[100], 100, 1),
        Err(PitchError::ResampledShape)
    );
    let plan = FcpePredictor::infer_resampled_traced(&[1, 100], 250, 7).unwrap();
    assert_eq!((plan.source_sample_count, plan.target_length), (250, 7));
    assert_eq!(
        PitchError::AudioShape.message(),
        "FCPE audio must have shape [samples] or [1, samples]"
    );
    assert_eq!(
        PitchError::ResampledShape.message(),
        "resampled FCPE audio must have shape [1, samples]"
    );
}

#[test]
fn spectrograms_are_aligned() {
    assert_eq!(FcpePredictor::align(1600, 11), MelAlignment::Unchanged);
    assert_eq!(FcpePredictor::align(1600, 10), MelAlignment::RepeatLast);
    assert_eq!(FcpePredictor::align(44100, 101), MelAlignment::RepeatLast);
    assert_eq!(FcpePredictor::align(1600, 20), MelAlignment::Cut { frames: 11 });
    assert_eq!(FcpePredictor::expand(10, 4), [0, 2, 5, 7]);
}

fn slicing_options(padding: f32, clip: f32, crossfade: f32, ratio: f32) -> SliceInferenceOptions {
    SliceInferenceOptions {
        threshold_db: single(-40.0),
        padding_seconds: single(padding),
        clip_seconds: single(clip),
        crossfade_seconds: single(crossfade),
        crossfade_ratio: single(ratio),
    }
}

fn prepared(
    shape: &[i32],
    rate: i32,
    options: &SliceInferenceOptions,
    threshold: f32,
) -> Result<Slicing, InferenceError> {
    let plain = InferenceOptions::default();
    prepare_slicing(shape, rate, &plain, options, single(threshold))
}

fn sizes(padding: f32, clip: f32, crossfade: f32, ratio: f32) -> SliceSizes {
    let options = slicing_options(padding, clip, crossfade, ratio);
    prepared(&[1, 1000], 44100, &options, 0.01)
        .unwrap()
        .sizes
}

#[test]
fn sizes_in_samples() {
    let found = sizes(0.5, 10.0, 1.0, 0.75);
    assert_eq!(found.clip_size, 441000);
    assert_eq!(found.overlap_size, 44100);
    assert_eq!(found.overlap_mix_size, 33075);
    assert_eq!(found.overlap_left_trim, 5512);
    assert_eq!(found.overlap_right_trim, 5513);
    assert_eq!(found.source_padding, 22050);
    assert_eq!(found.target_padding, 22050);
    assert!(!found.mixes_all);
    assert!(found.fit());
    let whole = sizes(0.5, 10.0, 1.0, 1.0);
    assert_eq!(whole.overlap_mix_size, whole.overlap_size);
    assert!(whole.mixes_all);
    assert!(whole.fit());
}

#[test]
fn the_gain_is_applied_once() {
    let options = InferenceOptions {
        input_gain_db: -12,
        predict_f0: true,
        ..InferenceOptions::default()
    };
    let slices = SliceInferenceOptions::default();
    let slicing = prepare_slicing(&[1, 1000], 44100, &options, &slices, single(0.01)).unwrap();
    assert_eq!(slicing.gain_db, -12);
    assert_eq!(slicing.options.input_gain_db, 0);
    assert!(slicing.options.predict_f0);
}

#[test]
fn slicing_faults() {
    let prepare = |shape: &[i32], rate: i32, options: SliceInferenceOptions| {
        prepared(shape, rate, &options, 0.01).unwrap_err()
    };
    let fine = slicing_options(0.5, 0.0, 0.0, 0.75);
    assert_eq!(prepare(&[100], 44100, fine), InferenceError::InputShape);
    assert_eq!(prepare(&[1, 100], 0, fine), InferenceError::SampleRate);
    for options in [
        slicing_options(-0.5, 0.0, 0.0, 0.75),
        slicing_options(0.5, f32::NAN, 0.0, 0.75),
        slicing_options(0.5, 0.0, -1.0, 0.75),
    ] {
        assert_eq!(prepare(&[1, 100], 44100, options), InferenceError::SliceDurations);
    }
    for ratio in [-0.1, 1.1, f32::NAN] {
        let options = slicing_options(0.5, 0.0, 0.0, ratio);
        assert_eq!(prepare(&[1, 100], 44100, options), InferenceError::CrossfadeRatio);
    }
    let long = slicing_options(0.5, 1.0, 1.5, 0.75);
    assert_eq!(prepare(&[1, 100], 44100, long), InferenceError::CrossfadeDuration);
    let gain = |input_gain_db: i32| InferenceOptions {
        input_gain_db,
        ..InferenceOptions::default()
    };
    for decibels in [-13, 13] {
        assert_eq!(
            prepare_slicing(&[1, 100], 44100, &gain(decibels), &fine, single(0.01)),
            Err(InferenceError::InputGain)
        );
    }
    let unlimited = slicing_options(0.5, 0.0, 1.5, 0.75);
    assert!(prepared(&[1, 100], 44100, &unlimited, 0.01).is_ok());
}

fn chunk(start: i32, end: i32, expected_length: i32, continues: bool) -> Job {
    Job::Chunk {
        start,
        end,
        expected_length,
        continues,
    }
}

#[test]
fn short_recordings_are_one_chunk() {
    let options = slicing_options(0.5, 0.0, 0.0, 0.75);
    let slicing = prepared(&[1, 200], 48000, &options, 0.01).unwrap();
    assert_eq!(slicing.frames, None);
    let jobs = infer_sliced(&slicing, 200, 48000, &Vec::new());
    assert_eq!(jobs, [chunk(0, 200, 184, false)]);
}

#[test]
fn clips_share_what_is_crossfaded() {
    let options = slicing_options(0.5, 0.002, 0.001, 0.5);
    let slicing = prepared(&[1, 250], 44100, &options, 0.01).unwrap();
    assert_eq!(slicing.sizes.clip_size, 88);
    assert_eq!(slicing.sizes.overlap_size, 44);
    let jobs = infer_sliced(&slicing, 250, 44100, &Vec::new());
    let expected = [
        chunk(0, 88, 88, false),
        chunk(44, 176, 132, true),
        chunk(132, 250, 119, true),
    ];
    assert_eq!(jobs, expected);
}

#[test]
fn without_a_limit_there_is_no_crossfade() {
    let plain = slicing_options(0.5, 0.0, 0.0, 0.75);
    let faded = slicing_options(0.5, 0.0, 0.25, 1.0);
    let run = |options: &SliceInferenceOptions| {
        let slicing = prepared(&[1, 200], 48000, options, 0.01).unwrap();
        let jobs = infer_sliced(&slicing, 200, 48000, &Vec::new());
        let mut merger = Merger::new(slicing.sizes);
        let start = merger.silence(10);
        let end = merger.chunk(50000, 184, false).unwrap();
        (jobs, start, end, merger.finish())
    };
    assert_eq!(run(&plain), run(&faded));
}

#[test]
fn nothing_is_made_of_nothing() {
    let options = slicing_options(0.5, 0.002, 0.0, 0.5);
    let slicing = prepared(&[1, 0], 44100, &options, 0.01).unwrap();
    let jobs = infer_sliced(&slicing, 0, 44100, &Vec::new());
    assert!(jobs.is_empty());
    let merger = Merger::new(slicing.sizes);
    assert_eq!(merger.finish(), Err(InferenceError::NoOutput));
}

#[test]
fn silences_are_lengthened_to_the_output_rate() {
    let options = slicing_options(0.5, 0.0, 0.0, 0.75);
    let sample_count = 48000 * 16;
    let slicing = prepared(&[1, sample_count], 48000, &options, 0.5).unwrap();
    let layout = slicing.frames.unwrap();
    // Sound for six seconds, silence for four, sound for the rest.
    let levels: Vec<Single> = (0..layout.frame_count)
        .map(|frame| {
            let quiet = (300..500).contains(&frame);
            single(if quiet { 0.1 } else { 0.9 })
        })
        .collect();
    let jobs = infer_sliced(&slicing, sample_count, 48000, &levels);
    assert_eq!(jobs.len(), 2);
    let total: i32 = jobs
        .iter()
        .map(|job| match job {
            Job::Silence { length } => *length,
            Job::Chunk {
                expected_length, ..
            } => *expected_length,
        })
        .sum();
    assert_eq!(total, 44100 * 16);
}

#[test]
fn chunks_lose_their_padding() {
    let mut merger = Merger::new(sizes(0.5, 0.0, 0.0, 0.75));
    let (fitting, joint) = merger.chunk(54100, 10000, false).unwrap();
    assert_eq!(joint, Joint::First);
    assert_eq!(
        fitting,
        Fitting {
            kept: Span {
                start: 22050,
                end: 32050
            },
            left: 0,
            right: 0,
            length: 10000
        }
    );
    let (fitting, joint) = merger.chunk(54000, 9905, false).unwrap();
    assert_eq!(joint, Joint::Append);
    assert_eq!((fitting.left, fitting.right, fitting.length), (2, 3, 9905));
    assert_eq!(merger.silence(95), Joint::Append);
    assert_eq!(merger.finish(), Ok(20000));
}

#[test]
fn chunks_without_padding_are_silent() {
    let mut merger = Merger::new(sizes(0.0, 0.0, 0.0, 0.75));
    let (fitting, _) = merger.chunk(5000, 100, false).unwrap();
    assert_eq!(fitting.kept, Span { start: 0, end: 0 });
    assert_eq!((fitting.left, fitting.right, fitting.length), (50, 50, 100));
}

#[test]
fn chunks_shorter_than_their_padding() {
    let mut merger = Merger::new(sizes(0.5, 0.0, 0.0, 0.75));
    assert_eq!(merger.chunk(44099, 10, false), Err(InferenceError::ChunkPadding));
    assert_eq!(merger.finish(), Err(InferenceError::NoOutput));
}

#[test]
fn crossfades_between_chunks() {
    let found = sizes(0.5, 10.0, 1.0, 0.75);
    let mut merger = Merger::new(found);
    merger.chunk(144100, 100000, false).unwrap();
    let (fitting, joint) = merger.chunk(134100, 90000, true).unwrap();
    assert_eq!(fitting.length, 90000);
    assert_eq!(
        joint,
        Joint::Crossfade {
            previous_keep: 61412,
            previous_mix: Span {
                start: 61412,
                end: 94487
            },
            current_mix: Span {
                start: 5512,
                end: 38587
            },
            current_keep: 38587,
            weights: 33075
        }
    );
    assert_eq!(merger.finish(), Ok(100000 + 90000 - 44100));
}

#[test]
fn crossfades_over_everything_shared() {
    let mut merger = Merger::new(sizes(0.5, 10.0, 1.0, 1.0));
    merger.chunk(144100, 100000, false).unwrap();
    let (_, joint) = merger.chunk(134100, 90000, true).unwrap();
    assert_eq!(
        joint,
        Joint::Crossfade {
            previous_keep: 55900,
            previous_mix: Span {
                start: 55900,
                end: 100000
            },
            current_mix: Span {
                start: 0,
                end: 44100
            },
            current_keep: 44100,
            weights: 44100
        }
    );
    assert_eq!(merger.finish(), Ok(145900));
}

#[test]
fn crossfades_need_enough_samples() {
    let mut merger = Merger::new(sizes(0.5, 10.0, 1.0, 0.75));
    merger.chunk(144100, 100000, false).unwrap();
    assert_eq!(merger.chunk(44200, 50, true), Err(InferenceError::ChunkCrossfade));
    assert_eq!(merger.finish(), Ok(100000));
    let mut start = Merger::new(sizes(0.5, 10.0, 1.0, 0.75));
    start.silence(10);
    assert_eq!(start.chunk(144100, 100000, true), Err(InferenceError::ChunkCrossfade));
}

#[test]
fn output_is_not_shorter_than_expected() {
    let found = sizes(0.5, 10.0, 1.0, 0.75);
    let mut merger = Merger::new(found);
    let mut expected = 0;
    for (index, inferred) in [500_000, 480_000, 485_100, 441_000].into_iter().enumerate() {
        let continues = index > 0;
        merger.chunk(inferred, 441_000, continues).unwrap();
        expected += 441_000 - if continues { found.overlap_size } else { 0 };
    }
    merger.silence(7);
    expected += 7;
    assert!(merger.finish().unwrap() >= expected);
}
