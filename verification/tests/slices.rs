use sovits_svc::single::Single;
use sovits_svc::slicer::{AudioSlice, Slicer, SlicerError};

fn levels(values: &[i32]) -> Vec<Single> {
    values
        .iter()
        .map(|&value| Single {
            bits: (value as f32).to_bits(),
        })
        .collect()
}

fn threshold() -> Single {
    Single {
        bits: 10.0_f32.to_bits(),
    }
}

/// Hops of 10 samples, at least 5 hops of sound, 3 of silence, 2 kept.
fn small() -> Slicer {
    Slicer::new(1000, threshold(), 50, 30, 10, 20).unwrap()
}

fn cut(sample_count: i32, values: &[i32]) -> Vec<(bool, i32, i32)> {
    small()
        .slice(sample_count, &levels(values))
        .into_iter()
        .map(|slice: AudioSlice| (slice.silent, slice.start, slice.end))
        .collect()
}

#[test]
fn rules_in_frames() {
    let slicer = small();
    assert_eq!(slicer.hop_size, 10);
    assert_eq!(slicer.window_size, 30);
    assert_eq!(slicer.minimum_length, 5);
    assert_eq!(slicer.minimum_interval, 3);
    assert_eq!(slicer.maximum_silence_kept, 2);
}

#[test]
fn standard_rules() {
    let slicer = Slicer::standard(44100, threshold()).unwrap();
    assert_eq!(slicer.hop_size, 882);
    assert_eq!(slicer.window_size, 3528);
    assert_eq!(slicer.minimum_length, 250);
    assert_eq!(slicer.minimum_interval, 15);
    assert_eq!(slicer.maximum_silence_kept, 250);
    assert_eq!(slicer.threshold, threshold());
}

#[test]
fn rates_without_a_hop_cut_nothing() {
    let slicer = Slicer::standard(24, threshold()).unwrap();
    assert_eq!(slicer.hop_size, 0);
    assert_eq!(slicer.minimum_length, i32::MAX);
    assert!(slicer.fits(1_000_000));
    assert_eq!(slicer.frames(&[1, 1_000_000]), Ok(None));
    let slices = slicer.slice(1_000_000, &Vec::new());
    assert_eq!(slices.len(), 1);
    assert_eq!((slices[0].start, slices[0].end), (0, 1_000_000));
}

#[test]
fn slicer_errors() {
    let build = |length: i32, interval: i32, hop: i32, kept: i32, rate: i32| {
        Slicer::new(rate, threshold(), length, interval, hop, kept).unwrap_err()
    };
    assert_eq!(build(20, 30, 10, 20, 1000), SlicerError::LengthOrder);
    assert_eq!(build(50, 5, 10, 20, 1000), SlicerError::LengthOrder);
    assert_eq!(build(50, 30, 10, 5, 1000), SlicerError::SilenceKept);
    assert_eq!(build(50, 30, 10, 20, 0), SlicerError::SampleRate);
    assert_eq!(Slicer::standard(-1, threshold()), Err(SlicerError::SampleRate));
    assert_eq!(small().frames(&[100]), Err(SlicerError::Shape));
    assert_eq!(small().frames(&[2, 100]), Err(SlicerError::Shape));
    assert_eq!(SlicerError::Shape.message(), "slicer input must have shape [1, samples]");
    assert_eq!(SlicerError::SampleRate.message(), "sample rate must be positive");
    assert_eq!(
        SlicerError::LengthOrder.message(),
        "minimum_length_ms >= minimum_interval_ms >= hop_size_ms is required"
    );
    assert_eq!(
        SlicerError::SilenceKept.message(),
        "maximum_silence_kept_ms must be at least hop_size_ms"
    );
}

#[test]
fn frames_to_measure() {
    let layout = small().frames(&[1, 374]).unwrap().unwrap();
    assert_eq!(layout.frame_count, 38);
    assert_eq!(layout.padded_length, 404);
    assert_eq!((layout.left, layout.right), (15, 15));
    assert_eq!(small().frames(&[1, 5]), Ok(None));
    assert!(small().fits(374));
    assert!(!small().fits(i32::MAX - 10));
}

#[test]
fn lowest_frames() {
    let values = levels(&[5, 3, 7, 3, 9]);
    assert_eq!(Slicer::minimum_position(&values, 0, 5), 1);
    assert_eq!(Slicer::minimum_position(&values, 2, 5), 3);
    assert_eq!(Slicer::minimum_position(&values, 4, 5), 4);
    let with_nan = vec![
        Single {
            bits: f32::NAN.to_bits(),
        },
        Single { bits: 0 },
    ];
    assert_eq!(Slicer::minimum_position(&with_nan, 0, 2), 0);
}

#[test]
fn silence_before_between_and_after() {
    let values = [
        6, 3, 7, 1, 2, 9, 32, 66, 27, 84, 47, 24, 2, 7, 7, 28, 50, 31, 90, 74, 27, 35, 48, 1, 7, 1,
        4, 1, 37, 57, 73, 3, 9, 2, 5, 9, 3, 2,
    ];
    let expected = [
        (true, 0, 40),
        (false, 40, 120),
        (true, 120, 130),
        (false, 130, 230),
        (true, 230, 270),
        (false, 270, 330),
        (true, 330, 374),
    ];
    assert_eq!(cut(374, &values), expected);
}

#[test]
fn sound_throughout() {
    let values = [
        44, 67, 32, 90, 28, 27, 46, 83, 88, 74, 60, 79, 78, 66, 58, 51, 43, 51, 30, 58, 87, 83, 63,
        77, 56, 29, 35, 85, 73, 41, 63, 39, 82, 73, 25, 29, 60,
    ];
    assert_eq!(cut(364, &values), [(false, 0, 364)]);
}

#[test]
fn short_silence_at_the_start_is_kept() {
    let values = [
        6, 6, 83, 78, 28, 31, 54, 80, 28, 27, 5, 8, 5, 7, 64, 22, 79, 65, 41, 34, 83, 27, 47, 5, 3,
        4, 7, 7, 8, 2, 3, 8, 71, 90, 55, 37,
    ];
    let expected = [
        (false, 0, 100),
        (true, 100, 120),
        (false, 120, 240),
        (true, 240, 300),
        (false, 300, 354),
    ];
    assert_eq!(cut(354, &values), expected);
}

#[test]
fn silence_at_the_end_is_cut_off() {
    let values = [
        75, 90, 55, 73, 65, 68, 4, 3, 2, 3, 3, 4, 49, 21, 82, 43, 53, 56, 20, 38, 73, 88, 67, 60,
        3, 9, 1, 8,
    ];
    let expected = [
        (false, 0, 80),
        (true, 80, 100),
        (false, 100, 260),
        (true, 260, 274),
    ];
    assert_eq!(cut(274, &values), expected);
}

#[test]
fn slices_lie_side_by_side() {
    let mut state = 12345_u32;
    for _ in 0..200 {
        let mut values = Vec::new();
        let mut loud = false;
        for _ in 0..60 {
            state = state.wrapping_mul(1_664_525).wrapping_add(1_013_904_223);
            if (state >> 24) % 5 == 0 {
                loud = !loud;
            }
            let level = 1 + ((state >> 16) % 8) as i32;
            values.push(if loud { level + 10 } else { level });
        }
        let sample_count = 595;
        let slices = cut(sample_count, &values);
        let mut position = 0;
        for &(_, start, end) in &slices {
            assert_eq!(start, position);
            assert!(start < end);
            position = end;
        }
        assert_eq!(position, sample_count);
    }
}

#[test]
fn short_waveforms_stay_whole() {
    assert_eq!(cut(5, &[]), [(false, 0, 5)]);
    assert_eq!(cut(0, &[]), [(false, 0, 0)]);
}

#[test]
fn silent_slices_are_quiet_and_apart() {
    let values: Vec<i32> = (0..101)
        .map(|frame| if frame / 9 % 2 == 0 { 20 } else { frame % 7 })
        .collect();
    let slices = cut(1000, &values);
    assert!(slices.iter().filter(|slice| slice.0).count() > 1);
    let mut reached = -1;
    for &(silent, start, end) in &slices {
        if !silent {
            continue;
        }
        assert!(reached < start);
        reached = end;
        for (frame, &value) in values.iter().enumerate() {
            let sample = frame as i32 * 10;
            if start <= sample && sample < end {
                assert!(value < 10);
            }
        }
    }
}
