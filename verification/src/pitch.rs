//! The pitch of the input.

use crate::audio;
use crate::audio::{AudioError, Resampling, SincResampler};
use crate::lengths;
use crate::shapes;
use std::collections::HashMap;
use vstd::prelude::*;
use vstd::std_specs::hash::*;

verus! {

broadcast use group_hash_axioms;

/// The rate that the pitch network works at.
pub const FCPE_SAMPLE_RATE: i32 = 16000;

/// The distance between its frames.
pub const FCPE_HOP_SIZE: i32 = 160;

/// The width of the filter that converts to its rate.
pub const FCPE_FILTER_WIDTH: i32 = 128;

/// What is wrong with a request for pitch.
#[derive(Clone, Copy, Debug, PartialEq, Eq, Structural)]
pub enum PitchError {
    TargetLength,
    AudioShape,
    ResampledShape,
    /// The audio cannot be resampled.
    Audio { error: AudioError },
}

impl PitchError {
    pub open spec fn text(self) -> Seq<char> {
        match self {
            PitchError::TargetLength => "target length must be positive"@,
            PitchError::AudioShape => "FCPE audio must have shape [samples] or [1, samples]"@,
            PitchError::ResampledShape => "resampled FCPE audio must have shape [1, samples]"@,
            PitchError::Audio { error } => error.text(),
        }
    }

    /// The message for the user.
    pub fn message(&self) -> (result: &'static str)
        ensures
            result@ == self.text(),
    {
        match self {
            PitchError::TargetLength => "target length must be positive",
            PitchError::AudioShape => "FCPE audio must have shape [samples] or [1, samples]",
            PitchError::ResampledShape => "resampled FCPE audio must have shape [1, samples]",
            PitchError::Audio { error } => error.message(),
        }
    }
}

/// How a spectrogram is brought to the number of frames that the audio has.
#[derive(Clone, Copy, Debug, PartialEq, Eq, Structural)]
pub enum MelAlignment {
    /// The last frame is repeated once.
    RepeatLast,
    /// Only so many frames are kept.
    Cut { frames: i32 },
    Unchanged,
}

/// The number of frames for a number of samples.
pub open spec fn frames_for(sample_count: int) -> int {
    sample_count / FCPE_HOP_SIZE as int + 1
}

/// See [`MelAlignment`].
pub open spec fn alignment(sample_count: int, mel_frames: int) -> MelAlignment {
    if frames_for(sample_count) > mel_frames {
        MelAlignment::RepeatLast
    } else if frames_for(sample_count) < mel_frames {
        MelAlignment::Cut { frames: frames_for(sample_count) as i32 }
    } else {
        MelAlignment::Unchanged
    }
}

/// The audio has a frame at every 160 samples, its first and last one included.
/// The last frame of a spectrogram that has fewer is repeated, and one that has
/// more is cut.
pub proof fn lemma_alignment(sample_count: int, mel_frames: int)
    requires
        0 <= sample_count < i32::MAX,
        0 <= mel_frames,
    ensures
        match alignment(sample_count, mel_frames) {
            MelAlignment::RepeatLast => sample_count >= mel_frames * 160,
            MelAlignment::Cut { frames } => 1 <= frames < mel_frames && (frames - 1) * 160
                <= sample_count < frames * 160,
            MelAlignment::Unchanged => (mel_frames - 1) * 160 <= sample_count < mel_frames * 160,
        },
{
}

/// A spectrogram that is at most one frame short ends up with the frames of
/// the audio.
pub proof fn lemma_aligned(sample_count: int, mel_frames: int)
    requires
        0 <= sample_count < i32::MAX,
        frames_for(sample_count) <= mel_frames + 1,
    ensures
        frames_for(sample_count) == match alignment(sample_count, mel_frames) {
            MelAlignment::RepeatLast => mel_frames + 1,
            MelAlignment::Cut { frames } => frames as int,
            MelAlignment::Unchanged => mel_frames,
        },
{
}

/// How the pitch of some audio is found.
#[derive(Clone, Copy, Debug, PartialEq, Eq, Structural)]
pub struct PitchPlan {
    pub resampling: Resampling,
    /// The samples before resampling, by which the spectrogram is aligned.
    pub source_sample_count: i32,
    pub target_length: i32,
}

/// The number of samples in audio of shape `[n]` or `[1, n]`.
pub open spec fn audio_length(shape: Seq<i32>) -> Option<i32> {
    if shape.len() == 1 {
        Some(shape[0])
    } else if shapes::is_single_row(shape) {
        Some(shape[1])
    } else {
        None
    }
}

/// What is done with audio at a rate.
pub open spec fn pitch_plan(length: i32, rate: i32, target_length: i32) -> PitchPlan {
    let converter = audio::resampler(rate, FCPE_SAMPLE_RATE, FCPE_FILTER_WIDTH as int);
    PitchPlan {
        resampling: if rate == FCPE_SAMPLE_RATE {
            Resampling::Unchanged
        } else {
            converter.plan(length as int)
        },
        source_sample_count: length,
        target_length,
    }
}

/// Audio is one waveform of `length` samples, by itself or in a batch of one.
pub proof fn lemma_audio_shapes(shape: Seq<i32>, length: i32)
    ensures
        audio_length(shape) == Some(length) <==> shape =~= seq![length] || shape =~= seq![
            1i32,
            length,
        ],
{
}

/// The pitch is found at 16000 Hz, to which other audio is brought with a filter of
/// width 128. The spectrogram is aligned by the samples that were there before.
pub proof fn lemma_pitch_plan(length: i32, rate: i32, target_length: i32)
    ensures
        pitch_plan(length, rate, target_length).source_sample_count == length,
        pitch_plan(length, rate, target_length).target_length == target_length,
        rate == 16000 ==> pitch_plan(length, rate, target_length).resampling
            == Resampling::Unchanged,
        rate != 16000 ==> pitch_plan(length, rate, target_length).resampling == audio::resampler(
            rate,
            16000,
            128,
        ).plan(length as int) && pitch_plan(length, rate, target_length).resampling is Convolve,
{
}

/// Finds the pitch of audio. The converters for the rates that occurred are
/// kept.
pub struct FcpePredictor {
    resamplers: HashMap<usize, SincResampler>,
}

impl FcpePredictor {
    /// Whether every converter that is kept is the one for its rate.
    pub closed spec fn valid(&self) -> bool {
        forall|rate: usize| #[trigger]
            self.resamplers@.dom().contains(rate) ==> {
                &&& rate as i32 > 0
                &&& self.resamplers@[rate] == audio::resampler(
                    rate as i32,
                    FCPE_SAMPLE_RATE,
                    FCPE_FILTER_WIDTH as int,
                )
                &&& self.resamplers@[rate].valid()
            }
    }

    /// The rates whose converters are kept.
    pub closed spec fn rates(&self) -> Set<usize> {
        self.resamplers@.dom()
    }

    /// Starts without any converter.
    pub fn load() -> (result: FcpePredictor)
        ensures
            result.valid(),
            result.rates() == Set::<usize>::empty(),
    {
        let result = FcpePredictor { resamplers: HashMap::new() };
        assert(result.rates() =~= Set::<usize>::empty());
        result
    }

    /// The converter for a rate, kept or new.
    fn converter(&mut self, sample_rate: usize) -> (result: Result<SincResampler, AudioError>)
        requires
            old(self).valid(),
            sample_rate as i32 > 0 && sample_rate as i32 != FCPE_SAMPLE_RATE ==> audio::kernel_fits(
                (sample_rate as i32) as int,
                FCPE_SAMPLE_RATE as int,
                FCPE_FILTER_WIDTH as int,
            ),
        ensures
            final(self).valid(),
            match result {
                Ok(converter) => {
                    &&& sample_rate as i32 > 0
                    &&& converter == audio::resampler(
                        sample_rate as i32,
                        FCPE_SAMPLE_RATE,
                        FCPE_FILTER_WIDTH as int,
                    )
                    &&& converter.valid()
                    &&& final(self).rates() == old(self).rates().insert(sample_rate)
                },
                Err(error) => {
                    &&& sample_rate as i32 <= 0
                    &&& error == AudioError::OriginalRate
                    &&& final(self).rates() == old(self).rates()
                },
            },
    {
        match self.resamplers.get(&sample_rate) {
            Some(converter) => {
                assert(self.rates().insert(sample_rate) =~= self.rates());
                return Ok(*converter);
            },
            None => {},
        }
        let rate = sample_rate as i32;
        match SincResampler::new(rate, FCPE_SAMPLE_RATE, FCPE_FILTER_WIDTH) {
            Ok(converter) => {
                self.resamplers.insert(sample_rate, converter);
                assert(self.rates() =~= old(self).rates().insert(sample_rate));
                Ok(converter)
            },
            Err(error) => Err(error),
        }
    }

    /// Plans how the pitch of audio is found. What was kept before makes no
    /// difference to the plan.
    pub fn infer(&mut self, shape: &[i32], sample_rate: usize, target_length: i32) -> (result:
        Result<PitchPlan, PitchError>)
        requires
            old(self).valid(),
            target_length > 0 ==> (audio_length(shape@) matches Some(length) ==> length >= 0
                && audio::convertible(
                sample_rate as i32,
                FCPE_SAMPLE_RATE,
                FCPE_FILTER_WIDTH,
                length as int,
            )),
        ensures
            final(self).valid(),
            match result {
                Ok(plan) => {
                    &&& target_length > 0
                    &&& audio_length(shape@) matches Some(length) && plan == if sample_rate
                        == FCPE_SAMPLE_RATE {
                        PitchPlan {
                            resampling: Resampling::Unchanged,
                            source_sample_count: length,
                            target_length,
                        }
                    } else {
                        pitch_plan(length, sample_rate as i32, target_length)
                    }
                    &&& sample_rate != FCPE_SAMPLE_RATE ==> sample_rate as i32 > 0
                },
                Err(PitchError::TargetLength) => target_length <= 0,
                Err(PitchError::AudioShape) => target_length > 0 && audio_length(shape@) is None,
                Err(error) => {
                    &&& target_length > 0
                    &&& audio_length(shape@) is Some
                    &&& sample_rate != FCPE_SAMPLE_RATE
                    &&& sample_rate as i32 <= 0
                    &&& error == (PitchError::Audio { error: AudioError::OriginalRate })
                },
            },
            final(self).rates() == if result is Ok && sample_rate != FCPE_SAMPLE_RATE {
                old(self).rates().insert(sample_rate)
            } else {
                old(self).rates()
            },
    {
        if target_length <= 0 {
            return Err(PitchError::TargetLength);
        }
        let length: i32 = if shape.len() == 1 {
            shape[0]
        } else if shapes::single_row(shape) {
            shape[1]
        } else {
            return Err(PitchError::AudioShape);
        };
        let resampling = if sample_rate == FCPE_SAMPLE_RATE as usize {
            Resampling::Unchanged
        } else {
            let converter = match self.converter(sample_rate) {
                Ok(converter) => converter,
                Err(error) => return Err(PitchError::Audio { error }),
            };
            let row = [1i32, length];
            match converter.resample(&row, true) {
                Ok(resampling) => resampling,
                Err(error) => return Err(PitchError::Audio { error }),
            }
        };
        Ok(PitchPlan { resampling, source_sample_count: length, target_length })
    }

    /// Plans how the pitch of audio at the network's rate is found.
    pub fn infer_resampled_traced(
        shape: &[i32],
        source_sample_count: i32,
        target_length: i32,
    ) -> (result: Result<PitchPlan, PitchError>)
        ensures
            match result {
                Ok(plan) => shapes::is_single_row(shape@) && plan == (PitchPlan {
                    resampling: Resampling::Unchanged,
                    source_sample_count,
                    target_length,
                }),
                Err(error) => !shapes::is_single_row(shape@) && error
                    == PitchError::ResampledShape,
            },
    {
        if !shapes::single_row(shape) {
            return Err(PitchError::ResampledShape);
        }
        Ok(PitchPlan { resampling: Resampling::Unchanged, source_sample_count, target_length })
    }

    /// How the spectrogram is brought to the number of frames of the audio.
    pub fn align(source_sample_count: i32, mel_frames: i32) -> (result: MelAlignment)
        requires
            source_sample_count >= 0,
        ensures
            result == alignment(source_sample_count as int, mel_frames as int),
    {
        let frames: i32 = source_sample_count / FCPE_HOP_SIZE + 1;
        if frames > mel_frames {
            MelAlignment::RepeatLast
        } else if frames < mel_frames {
            MelAlignment::Cut { frames }
        } else {
            MelAlignment::Unchanged
        }
    }

    /// The frame of the network's pitch for each target frame.
    pub fn expand(raw_frame_count: i32, target_length: i32) -> (indices: Vec<i32>)
        requires
            raw_frame_count >= 0,
            target_length > 0,
        ensures
            indices@.len() == target_length,
            forall|i: int|
                0 <= i < target_length ==> #[trigger] indices@[i] == lengths::nearest_index(
                    i as nat,
                    raw_frame_count as nat,
                    target_length as nat,
                ),
    {
        lengths::nearest_indices(raw_frame_count, target_length)
    }
}

} // verus!
