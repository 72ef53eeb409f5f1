//! Conversion of a recording: the options, the steps and their order.

use crate::audio;
use crate::audio::{AudioError, Resampling, SincResampler, Span, VolumeExtractor, VolumePlan};
use crate::contentvec;
use crate::contentvec::{ContentVec, ContentVecError};
use crate::gan;
use crate::gan::GanModel;
use crate::lengths;
use crate::pitch;
use crate::pitch::{FcpePredictor, PitchError, PitchPlan};
use crate::refine::flow_matching;
use crate::refine::flow_matching::{FlowMatchingRefiner, FlowPlan, FlowValues};
use crate::refine::model::state_shape;
use crate::refine::shallow_diffusion;
use crate::refine::shallow_diffusion::{ShallowDiffusionRefiner, ShallowPlan};
use crate::refine::RefineError;
use crate::shapes;
use crate::shapes::FrameLayout;
use crate::single::{Single, ONE};
use crate::slicer;
use crate::slicer::{AudioSlice, Slicer};
use crate::vocoder;
use crate::vocoder::{NsfHifiGan, MEL_BINS};
use crate::weights::{Failure, Weights, WeightsError};
use std::collections::HashMap;
use vstd::arithmetic::div_mod::*;
use vstd::prelude::*;
use vstd::std_specs::hash::*;

verus! {

broadcast use group_hash_axioms;

/// The rate that the model works at.
pub const SAMPLE_RATE: i32 = 44100;

/// The rate that the content encoder works at.
pub const ENCODER_SAMPLE_RATE: i32 = 16000;

/// Samples of a frame.
pub const HOP_SIZE: i32 = 512;

/// The width of the filters that convert between rates.
pub const FILTER_WIDTH: i32 = 6;

/// What is done with the generated waveform.
#[derive(Clone, Copy, Debug, PartialEq, Eq, Structural)]
pub enum Refiner {
    /// It is left as it is.
    Off,
    ShallowDiffusion,
    FlowMatching,
}

/// How a recording is converted.
#[derive(Clone, Copy, Debug, PartialEq, Eq, Structural)]
pub struct InferenceOptions {
    /// Decibels that are added to the input before anything else.
    pub input_gain_db: i32,
    /// Semitones that the pitch is moved by.
    pub pitch_shift: Single,
    pub noise_scale: Single,
    /// Whether the pitch is predicted by the model.
    pub predict_f0: bool,
    pub refiner: Refiner,
    pub diffusion_steps: i32,
    pub diffusion_speedup: i32,
    pub flow_matching_steps: i32,
    /// The share of the output's own loudness; one leaves it as it is.
    pub loudness_envelope_adjustment: Single,
    /// Whether the generated waveform is encoded again before a shallow
    /// diffusion.
    pub second_encoding: bool,
}

impl Default for InferenceOptions {
    fn default() -> (result: Self)
        ensures
            result == (InferenceOptions {
                input_gain_db: 0,
                pitch_shift: Single { bits: 0 },
                noise_scale: Single { bits: 0x3ecc_cccd },
                predict_f0: false,
                refiner: Refiner::Off,
                diffusion_steps: 100,
                diffusion_speedup: 10,
                flow_matching_steps: 50,
                loudness_envelope_adjustment: Single { bits: ONE },
                second_encoding: false,
            }),
    {
        InferenceOptions {
            input_gain_db: 0,
            pitch_shift: Single { bits: 0 },
            noise_scale: Single { bits: 0x3ecc_cccd },
            predict_f0: false,
            refiner: Refiner::Off,
            diffusion_steps: 100,
            diffusion_speedup: 10,
            flow_matching_steps: 50,
            loudness_envelope_adjustment: Single { bits: ONE },
            second_encoding: false,
        }
    }
}

/// How a recording is cut before it is converted.
#[derive(Clone, Copy, Debug, PartialEq, Eq, Structural)]
pub struct SliceInferenceOptions {
    /// The level in decibels below which a frame is silent.
    pub threshold_db: Single,
    /// Silence that is put on both sides of a piece and cut off again after the
    /// conversion. Without any, nothing is kept of a converted piece, and
    /// silence takes its place.
    pub padding_seconds: Single,
    /// The longest piece; zero for no limit.
    pub clip_seconds: Single,
    /// How much of a piece is shared with the one before.
    pub crossfade_seconds: Single,
    /// The part of the shared time in which the pieces are mixed.
    pub crossfade_ratio: Single,
}

impl Default for SliceInferenceOptions {
    fn default() -> (result: Self)
        ensures
            result == (SliceInferenceOptions {
                threshold_db: Single { bits: 0xc220_0000 },
                padding_seconds: Single { bits: 0x3f00_0000 },
                clip_seconds: Single { bits: 0 },
                crossfade_seconds: Single { bits: 0 },
                crossfade_ratio: Single { bits: 0x3f40_0000 },
            }),
    {
        SliceInferenceOptions {
            threshold_db: Single { bits: 0xc220_0000 },
            padding_seconds: Single { bits: 0x3f00_0000 },
            clip_seconds: Single { bits: 0 },
            crossfade_seconds: Single { bits: 0 },
            crossfade_ratio: Single { bits: 0x3f40_0000 },
        }
    }
}

/// Why a recording is not converted.
#[derive(Clone, Copy, Debug, PartialEq, Eq, Structural)]
pub enum InferenceError {
    InputShape,
    SampleRate,
    InputGain,
    NoiseScale,
    DiffusionSteps,
    DiffusionSpeedup,
    FlowMatchingSteps,
    TooShort,
    FrameCounts,
    /// The noise schedule has fewer steps than are asked for.
    ScheduleLength { k_step: i32, length: i32 },
    SolverSteps,
    EndTime,
    SliceDurations,
    CrossfadeRatio,
    CrossfadeDuration,
    ChunkPadding,
    ChunkCrossfade,
    NoOutput,
    Audio(AudioError),
    Pitch(PitchError),
    Content(ContentVecError),
}

impl InferenceError {
    pub open spec fn text(self) -> Seq<char> {
        match self {
            InferenceError::InputShape => "input audio must have shape [1, samples]"@,
            InferenceError::SampleRate => "input sample rate must be positive"@,
            InferenceError::InputGain => "input gain must be between -12 and 12 dB"@,
            InferenceError::NoiseScale => "GAN noise scale must be non-negative"@,
            InferenceError::DiffusionSteps => "diffusion step count must be at least 2"@,
            InferenceError::DiffusionSpeedup => "diffusion speedup must be positive"@,
            InferenceError::FlowMatchingSteps => "flow matching step count must be positive"@,
            InferenceError::TooShort => "input is shorter than one model frame"@,
            InferenceError::FrameCounts => "preprocessing produced inconsistent frame counts"@,
            InferenceError::ScheduleLength { k_step, length } => (RefineError::ScheduleLength {
                k_step,
                length,
            }).text(),
            InferenceError::SolverSteps => RefineError::SolverSteps.text(),
            InferenceError::EndTime => RefineError::EndTime.text(),
            InferenceError::SliceDurations => "slice durations must be non-negative"@,
            InferenceError::CrossfadeRatio => "crossfade ratio must be between zero and one"@,
            InferenceError::CrossfadeDuration => "crossfade duration cannot exceed clip duration"@,
            InferenceError::ChunkPadding => "inferred chunk is shorter than its padding"@,
            InferenceError::ChunkCrossfade => "chunk is shorter than the configured crossfade"@,
            InferenceError::NoOutput => "slicer produced no output"@,
            InferenceError::Audio(error) => error.text(),
            InferenceError::Pitch(error) => error.text(),
            InferenceError::Content(error) => error.text(),
        }
    }

    /// The message for the user.
    pub fn message(&self) -> (result: String)
        ensures
            result@ == self.text(),
    {
        match self {
            InferenceError::InputShape => "input audio must have shape [1, samples]".to_owned(),
            InferenceError::SampleRate => "input sample rate must be positive".to_owned(),
            InferenceError::InputGain => "input gain must be between -12 and 12 dB".to_owned(),
            InferenceError::NoiseScale => "GAN noise scale must be non-negative".to_owned(),
            InferenceError::DiffusionSteps => "diffusion step count must be at least 2".to_owned(),
            InferenceError::DiffusionSpeedup => "diffusion speedup must be positive".to_owned(),
            InferenceError::FlowMatchingSteps => {
                "flow matching step count must be positive".to_owned()
            },
            InferenceError::TooShort => "input is shorter than one model frame".to_owned(),
            InferenceError::FrameCounts => {
                "preprocessing produced inconsistent frame counts".to_owned()
            },
            InferenceError::ScheduleLength { k_step, length } => RefineError::ScheduleLength {
                k_step: *k_step,
                length: *length,
            }.message(),
            InferenceError::SolverSteps => RefineError::SolverSteps.message(),
            InferenceError::EndTime => RefineError::EndTime.message(),
            InferenceError::SliceDurations => "slice durations must be non-negative".to_owned(),
            InferenceError::CrossfadeRatio => {
                "crossfade ratio must be between zero and one".to_owned()
            },
            InferenceError::CrossfadeDuration => {
                "crossfade duration cannot exceed clip duration".to_owned()
            },
            InferenceError::ChunkPadding => "inferred chunk is shorter than its padding".to_owned(),
            InferenceError::ChunkCrossfade => {
                "chunk is shorter than the configured crossfade".to_owned()
            },
            InferenceError::NoOutput => "slicer produced no output".to_owned(),
            InferenceError::Audio(error) => error.message().to_owned(),
            InferenceError::Pitch(error) => error.message().to_owned(),
            InferenceError::Content(error) => error.message().to_owned(),
        }
    }
}

/// What is wrong with a request, before the audio is looked into.
pub open spec fn refused(shape: Seq<i32>, sample_rate: i32, options: InferenceOptions) -> Option<
    InferenceError,
> {
    if !shapes::is_single_row(shape) {
        Some(InferenceError::InputShape)
    } else if sample_rate <= 0 {
        Some(InferenceError::SampleRate)
    } else if !(-12 <= options.input_gain_db <= 12) {
        Some(InferenceError::InputGain)
    } else if !options.noise_scale.at_least(Single { bits: 0 }) {
        Some(InferenceError::NoiseScale)
    } else {
        match options.refiner {
            Refiner::Off => None,
            Refiner::ShallowDiffusion => if options.diffusion_steps < 2 {
                Some(InferenceError::DiffusionSteps)
            } else if options.diffusion_speedup <= 0 {
                Some(InferenceError::DiffusionSpeedup)
            } else {
                None
            },
            Refiner::FlowMatching => if options.flow_matching_steps < 1 {
                Some(InferenceError::FlowMatchingSteps)
            } else {
                None
            },
        }
    }
}

/// See [`refused`].
pub fn check_request(shape: &[i32], sample_rate: i32, options: &InferenceOptions) -> (result:
    Option<InferenceError>)
    ensures
        result == refused(shape@, sample_rate, *options),
{
    if !shapes::single_row(shape) {
        return Some(InferenceError::InputShape);
    }
    if sample_rate <= 0 {
        return Some(InferenceError::SampleRate);
    }
    if options.input_gain_db < -12 || options.input_gain_db > 12 {
        return Some(InferenceError::InputGain);
    }
    if !options.noise_scale.not_less_than(Single { bits: 0 }) {
        return Some(InferenceError::NoiseScale);
    }
    match options.refiner {
        Refiner::Off => None,
        Refiner::ShallowDiffusion => {
            if options.diffusion_steps < 2 {
                Some(InferenceError::DiffusionSteps)
            } else if options.diffusion_speedup <= 0 {
                Some(InferenceError::DiffusionSpeedup)
            } else {
                None
            }
        },
        Refiner::FlowMatching => {
            if options.flow_matching_steps < 1 {
                Some(InferenceError::FlowMatchingSteps)
            } else {
                None
            }
        },
    }
}

/// A voice converter: its models and the converters of sample rates.
pub struct SovitsSvc {
    pub contentvec: ContentVec,
    pub gan: GanModel,
    pub shallow_diffusion: ShallowDiffusionRefiner,
    pub flow_matching: FlowMatchingRefiner,
    pub vocoder: NsfHifiGan,
    pub pitch: FcpePredictor,
    pub volume: VolumeExtractor,
    pub encoder_resampler: SincResampler,
    pub input_resamplers: HashMap<i32, SincResampler>,
}

/// How a recording is converted.
#[derive(Clone, Copy, Debug, PartialEq, Eq, Structural)]
pub struct InferencePlan {
    pub gain_db: i32,
    /// To the rate of the model.
    pub resampling: Resampling,
    pub resampled_length: i32,
    pub frame_count: i32,
    /// The samples of whole frames.
    pub used_length: i32,
    pub pitch: PitchPlan,
    /// To the rate of the content encoder.
    pub encoder: Resampling,
    pub encoder_length: i32,
    /// The frames that the content encoder gives, which are then stretched.
    pub content_frames: i32,
    pub volume: VolumePlan,
    pub second_encoding: bool,
    pub adjust_loudness: bool,
    pub output_length: i32,
}

/// How the generated waveform is refined.
#[derive(Debug)]
pub enum Refinement {
    Off,
    /// With noise of a given shape.
    ShallowDiffusion { plan: ShallowPlan, noise: Vec<i32> },
    FlowMatching(FlowPlan),
}

impl Refinement {
    /// Whether the refinement is the one that is asked for, for a recording of
    /// so many frames.
    pub open spec fn covers(self, options: InferenceOptions, frame_count: i32) -> bool {
        match options.refiner {
            Refiner::Off => self is Off,
            Refiner::ShallowDiffusion => self matches Refinement::ShallowDiffusion { plan, noise }
                && plan.covers(options.diffusion_steps as int, options.diffusion_speedup as int)
                && noise@ == state_shape(seq![1, frame_count, MEL_BINS]),
            Refiner::FlowMatching => self matches Refinement::FlowMatching(plan) && plan.covers(
                seq![1, frame_count, MEL_BINS],
                options.flow_matching_steps as int,
                false,
            ),
        }
    }
}

impl Refinement {
    /// Whether the refinement does what was asked for: noise of the step before
    /// the last one asked for is added and the solver takes it away in
    /// `steps / speedup` steps, or the flow is followed through as many steps as
    /// were asked for, one after the other, and read off at its end.
    pub open spec fn does(self, options: InferenceOptions, frame_count: i32) -> bool {
        match self {
            Refinement::Off => options.refiner == Refiner::Off,
            Refinement::ShallowDiffusion { plan, noise } => {
                let steps = options.diffusion_steps as int / options.diffusion_speedup as int;
                &&& options.refiner == Refiner::ShallowDiffusion
                &&& noise@ == seq![1i32, 1, 128, frame_count]
                &&& plan.timestep + 1 == options.diffusion_steps
                &&& plan.solver.k_step == options.diffusion_steps
                &&& plan.solver.steps == steps
                &&& plan.solver.updates@.len() == steps - 1
                &&& forall|i: int|
                    0 <= i < steps - 1 ==> {
                        &&& (#[trigger] plan.solver.updates@[i]).older == i
                        &&& plan.solver.updates@[i].current == i + 1
                        &&& plan.solver.updates@[i].end == i + 2
                        &&& plan.solver.updates@[i].predict <==> i < steps - 2
                    }
            },
            Refinement::FlowMatching(plan) => {
                let steps = options.flow_matching_steps as int;
                &&& options.refiner == Refiner::FlowMatching
                &&& plan.state@ == seq![1i32, 1, 128, frame_count]
                &&& plan.time_count == steps + 1
                &&& plan.evaluations@.len() == steps + 1
                &&& forall|i: int|
                    0 <= i <= steps ==> {
                        &&& (#[trigger] plan.evaluations@[i]).time == i
                        &&& i < steps ==> plan.evaluations@[i].next == Some((i + 1) as i32)
                        &&& i == steps ==> plan.evaluations@[i].next is None
                        &&& !plan.evaluations@[i].record_network
                        &&& !plan.evaluations@[i].record_step
                    }
            },
        }
    }

    /// The refinement that is planned does what was asked for.
    pub proof fn lemma_does(self, options: InferenceOptions, frame_count: i32)
        requires
            self.covers(options, frame_count),
            options.refiner == Refiner::ShallowDiffusion ==> options.diffusion_steps >= 2
                && options.diffusion_speedup >= 1 && options.diffusion_steps as int
                / options.diffusion_speedup as int >= 2,
            options.refiner == Refiner::FlowMatching ==> 1 <= options.flow_matching_steps
                < i32::MAX,
        ensures
            self.does(options, frame_count),
    {
        if options.refiner == Refiner::ShallowDiffusion {
            let steps = options.diffusion_steps as int / options.diffusion_speedup as int;
            lemma_div_is_ordered_by_denominator(
                options.diffusion_steps as int,
                1,
                options.diffusion_speedup as int,
            );
            lemma_div_basics_2(options.diffusion_steps as int);
            assert(steps <= options.diffusion_steps);
        }
    }
}

/// The samples of whole frames.
pub open spec fn used(resampled: int) -> int {
    resampled / HOP_SIZE as int * HOP_SIZE
}

/// Whether a recording at the rate of the model leaves room for what is put
/// around it on the way.
pub open spec fn room(resampled: int) -> bool {
    &&& resampled + SAMPLE_RATE < i32::MAX
    &&& audio::convertible(
        SAMPLE_RATE,
        pitch::FCPE_SAMPLE_RATE,
        pitch::FCPE_FILTER_WIDTH,
        used(resampled),
    )
    &&& audio::convertible(SAMPLE_RATE, ENCODER_SAMPLE_RATE, FILTER_WIDTH, used(resampled))
}

/// Whether a recording can be converted within the limits of an `i32`.
pub open spec fn manageable(sample_rate: i32, length: int) -> bool {
    &&& length >= 0
    &&& audio::convertible(sample_rate, SAMPLE_RATE, FILTER_WIDTH, length)
    &&& room(audio::resampled_length(sample_rate, SAMPLE_RATE, length))
}

/// The plan for a recording of which there is nothing wrong.
pub open spec fn inference_plan(
    length: i32,
    sample_rate: i32,
    options: InferenceOptions,
) -> InferencePlan {
    let resampled = audio::resampled_length(sample_rate, SAMPLE_RATE, length as int);
    let frame_count = resampled / HOP_SIZE as int;
    let encoder_length = audio::resampled_length(
        SAMPLE_RATE,
        ENCODER_SAMPLE_RATE,
        used(resampled),
    );
    InferencePlan {
        gain_db: options.input_gain_db,
        resampling: audio::resampler(sample_rate, SAMPLE_RATE, FILTER_WIDTH as int).plan(
            length as int,
        ),
        resampled_length: resampled as i32,
        frame_count: frame_count as i32,
        used_length: used(resampled) as i32,
        pitch: pitch::pitch_plan(used(resampled) as i32, SAMPLE_RATE, frame_count as i32),
        encoder: audio::resampler(SAMPLE_RATE, ENCODER_SAMPLE_RATE, FILTER_WIDTH as int).plan(
            used(resampled),
        ),
        encoder_length: encoder_length as i32,
        content_frames: ((encoder_length - 400) / 320 + 1) as i32,
        volume: audio::volume_plan(1, used(resampled), HOP_SIZE as int),
        second_encoding: options.second_encoding && options.refiner == Refiner::ShallowDiffusion,
        adjust_loudness: !options.loudness_envelope_adjustment.equals(Single { bits: ONE }),
        output_length: used(resampled) as i32,
    }
}

/// What is wrong with a recording, in the order in which it is noticed.
pub open spec fn fault(shape: Seq<i32>, sample_rate: i32, options: InferenceOptions) -> Option<
    InferenceError,
> {
    match refused(shape, sample_rate, options) {
        Some(error) => Some(error),
        None => {
            let resampled = audio::resampled_length(sample_rate, SAMPLE_RATE, shape[1] as int);
            if resampled < HOP_SIZE {
                Some(InferenceError::TooShort)
            } else if audio::resampled_length(SAMPLE_RATE, ENCODER_SAMPLE_RATE, used(resampled))
                < 400 {
                Some(InferenceError::Content(ContentVecError::WavLength))
            } else {
                None
            }
        },
    }
}

/// Whether the filters of the converter to the encoder's rate can be held.
proof fn lemma_encoder_kernel()
    ensures
        audio::kernel_fits(SAMPLE_RATE as int, ENCODER_SAMPLE_RATE as int, FILTER_WIDTH as int),
{
    audio::lemma_kernel_fits(SAMPLE_RATE as int, ENCODER_SAMPLE_RATE as int, FILTER_WIDTH as int);
}

/// What the checkpoints give, in the order in which they are read.
pub open spec fn checkpoint_fault(
    contentvec: crate::weights::Table,
    gan: crate::weights::Table,
    shallow: crate::weights::Table,
    flow: crate::weights::Table,
    flow_values: FlowValues,
    vocoder: crate::weights::Table,
) -> Option<Failure> {
    match contentvec::contentvec_checkpoint(contentvec) {
        Err(failure) => Some(failure),
        Ok(_) => match gan::gan_checkpoint(gan) {
            Err(failure) => Some(failure),
            Ok(_) => match shallow_diffusion::shallow_checkpoint(shallow) {
                Err(failure) => Some(failure),
                Ok(_) => match flow_matching::flow_checkpoint(flow, flow_values) {
                    Err(failure) => Some(failure),
                    Ok(_) => match vocoder::vocoder_checkpoint(vocoder) {
                        Err(failure) => Some(failure),
                        Ok(_) => None,
                    },
                },
            },
        },
    }
}

impl SovitsSvc {
    /// Whether the converters of sample rates are the right ones.
    pub open spec fn valid(&self) -> bool {
        &&& self.pitch.valid()
        &&& self.volume.hop_size == HOP_SIZE
        &&& self.encoder_resampler == audio::resampler(
            SAMPLE_RATE,
            ENCODER_SAMPLE_RATE,
            FILTER_WIDTH as int,
        )
        &&& self.encoder_resampler.valid()
        &&& forall|rate: i32| #[trigger]
            self.input_resamplers@.dom().contains(rate) ==> {
                &&& rate > 0
                &&& self.input_resamplers@[rate] == audio::resampler(
                    rate,
                    SAMPLE_RATE,
                    FILTER_WIDTH as int,
                )
                &&& self.input_resamplers@[rate].valid()
            }
    }

    /// The rates whose converters are kept.
    pub open spec fn rates(&self) -> Set<i32> {
        self.input_resamplers@.dom()
    }

    /// Makes a converter of its checkpoints.
    pub fn load(
        gan_checkpoint: Weights,
        shallow_diffusion_checkpoint: Weights,
        flow_matching_checkpoint: Weights,
        flow_values: FlowValues,
        contentvec_checkpoint: Weights,
        vocoder_checkpoint: Weights,
    ) -> (result: Result<SovitsSvc, WeightsError>)
        requires
            gan_checkpoint.valid(),
            shallow_diffusion_checkpoint.valid(),
            flow_matching_checkpoint.valid(),
            contentvec_checkpoint.valid(),
            vocoder_checkpoint.valid(),
        ensures
            ({
                let fault = checkpoint_fault(
                    contentvec_checkpoint@,
                    gan_checkpoint@,
                    shallow_diffusion_checkpoint@,
                    flow_matching_checkpoint@,
                    flow_values,
                    vocoder_checkpoint@,
                );
                match result {
                    Ok(converter) => {
                        &&& fault is None
                        &&& converter.valid()
                        &&& converter.rates() == Set::<i32>::empty()
                        &&& converter.pitch.rates() == Set::<usize>::empty()
                        &&& converter.contentvec.loaded(contentvec_checkpoint@)
                        &&& converter.gan.loaded(gan_checkpoint@)
                        &&& converter.shallow_diffusion.loaded(shallow_diffusion_checkpoint@)
                        &&& converter.flow_matching.loaded(flow_matching_checkpoint@, flow_values)
                        &&& converter.vocoder.loaded(vocoder_checkpoint@)
                        &&& converter.contentvec.named(contentvec_checkpoint@)
                        &&& converter.gan.named(gan_checkpoint@)
                        &&& converter.shallow_diffusion.model.named(shallow_diffusion_checkpoint@)
                        &&& converter.flow_matching.named(flow_matching_checkpoint@, flow_values)
                        &&& converter.vocoder.named(vocoder_checkpoint@)
                    },
                    Err(error) => fault == Some(error@),
                }
            }),
    {
        let contentvec = match ContentVec::load(contentvec_checkpoint) {
            Ok(model) => model,
            Err(error) => return Err(error),
        };
        let pitch = FcpePredictor::load();
        let gan = match GanModel::load(gan_checkpoint) {
            Ok(model) => model,
            Err(error) => return Err(error),
        };
        let shallow_diffusion = match ShallowDiffusionRefiner::load(shallow_diffusion_checkpoint) {
            Ok(model) => model,
            Err(error) => return Err(error),
        };
        let flow_matching = match FlowMatchingRefiner::load(flow_matching_checkpoint, flow_values) {
            Ok(model) => model,
            Err(error) => return Err(error),
        };
        let vocoder = match NsfHifiGan::load(vocoder_checkpoint) {
            Ok(model) => model,
            Err(error) => return Err(error),
        };
        let volume = match VolumeExtractor::new(HOP_SIZE) {
            Ok(volume) => volume,
            Err(error) => return Err(WeightsError::Rule { message: error.message() }),
        };
        proof {
            lemma_encoder_kernel();
        }
        let encoder_resampler = match SincResampler::new(
            SAMPLE_RATE,
            ENCODER_SAMPLE_RATE,
            FILTER_WIDTH,
        ) {
            Ok(converter) => converter,
            Err(error) => return Err(WeightsError::Rule { message: error.message() }),
        };
        let result = SovitsSvc {
            contentvec,
            gan,
            shallow_diffusion,
            flow_matching,
            vocoder,
            pitch,
            volume,
            encoder_resampler,
            input_resamplers: HashMap::new(),
        };
        assert(result.rates() =~= Set::<i32>::empty());
        Ok(result)
    }

    /// The converter from a rate to the model's, kept or new.
    fn input_resampler(&mut self, sample_rate: i32) -> (result: Result<SincResampler, AudioError>)
        requires
            old(self).valid(),
            sample_rate > 0,
            sample_rate != SAMPLE_RATE ==> audio::kernel_fits(
                sample_rate as int,
                SAMPLE_RATE as int,
                FILTER_WIDTH as int,
            ),
        ensures
            final(self).valid(),
            final(self).contentvec == old(self).contentvec,
            final(self).gan == old(self).gan,
            final(self).shallow_diffusion == old(self).shallow_diffusion,
            final(self).flow_matching == old(self).flow_matching,
            final(self).vocoder == old(self).vocoder,
            final(self).pitch == old(self).pitch,
            final(self).rates() == old(self).rates().insert(sample_rate),
            result matches Ok(converter) && converter == audio::resampler(
                sample_rate,
                SAMPLE_RATE,
                FILTER_WIDTH as int,
            ) && converter.valid(),
    {
        match self.input_resamplers.get(&sample_rate) {
            Some(converter) => {
                assert(self.rates().insert(sample_rate) =~= self.rates());
                return Ok(*converter);
            },
            None => {},
        }
        match SincResampler::new(sample_rate, SAMPLE_RATE, FILTER_WIDTH) {
            Ok(converter) => {
                self.input_resamplers.insert(sample_rate, converter);
                assert(self.rates() =~= old(self).rates().insert(sample_rate));
                Ok(converter)
            },
            Err(error) => Err(error),
        }
    }

    /// What is wrong with a refinement, once the recording is in order.
    pub open spec fn refinement_fault(&self, options: InferenceOptions) -> Option<InferenceError> {
        match options.refiner {
            Refiner::Off => None,
            Refiner::ShallowDiffusion => {
                let length = self.shallow_diffusion.model.schedule_length->0;
                if options.diffusion_steps > length {
                    Some(
                        InferenceError::ScheduleLength { k_step: options.diffusion_steps, length },
                    )
                } else if (options.diffusion_steps as int / options.diffusion_speedup as int) < 2 {
                    Some(InferenceError::SolverSteps)
                } else {
                    None
                }
            },
            Refiner::FlowMatching => if !self.flow_matching.t_start.less(
                self.flow_matching.t_end,
            ) {
                Some(InferenceError::EndTime)
            } else {
                None
            },
        }
    }

    /// Whether a refinement can be planned: the noise schedule has a length,
    /// and the steps can be counted with their end.
    pub open spec fn refinable(&self, options: InferenceOptions) -> bool {
        match options.refiner {
            Refiner::Off => true,
            Refiner::ShallowDiffusion => self.shallow_diffusion.model.schedule_length is Some,
            Refiner::FlowMatching => options.flow_matching_steps < i32::MAX,
        }
    }

    /// See [`SovitsSvc::refinable`].
    pub fn can_refine(&self, options: &InferenceOptions) -> (result: bool)
        ensures
            result == self.refinable(*options),
    {
        match options.refiner {
            Refiner::Off => true,
            Refiner::ShallowDiffusion => self.shallow_diffusion.model.schedule_length.is_some(),
            Refiner::FlowMatching => options.flow_matching_steps < i32::MAX,
        }
    }

    /// Plans the refinement of a recording of so many frames.
    fn refinement(&self, options: &InferenceOptions, frame_count: i32) -> (result: Result<
        Refinement,
        InferenceError,
    >)
        requires
            self.refinable(*options),
            options.refiner == Refiner::ShallowDiffusion ==> options.diffusion_steps >= 2
                && options.diffusion_speedup > 0,
            options.refiner == Refiner::FlowMatching ==> options.flow_matching_steps >= 1,
        ensures
            match result {
                Ok(refinement) => self.refinement_fault(*options) is None && refinement.covers(
                    *options,
                    frame_count,
                ),
                Err(error) => self.refinement_fault(*options) == Some(error),
            },
    {
        let mel = [1i32, frame_count, MEL_BINS];
        assert(mel@ =~= seq![1i32, frame_count, MEL_BINS]);
        match options.refiner {
            Refiner::Off => Ok(Refinement::Off),
            Refiner::ShallowDiffusion => match self.shallow_diffusion.refine(
                options.diffusion_steps,
                options.diffusion_speedup,
            ) {
                Ok(plan) => Ok(
                    Refinement::ShallowDiffusion {
                        plan,
                        noise: ShallowDiffusionRefiner::noise_shape(&mel),
                    },
                ),
                Err(RefineError::ScheduleLength { k_step, length }) => Err(
                    InferenceError::ScheduleLength { k_step, length },
                ),
                Err(_) => Err(InferenceError::SolverSteps),
            },
            Refiner::FlowMatching => match self.flow_matching.refine(
                &mel,
                options.flow_matching_steps,
            ) {
                Ok(plan) => Ok(Refinement::FlowMatching(plan)),
                Err(_) => Err(InferenceError::EndTime),
            },
        }
    }

    /// Plans the conversion of a recording and its refinement. The plan does
    /// not depend on what was converted before.
    pub fn infer(&mut self, shape: &[i32], sample_rate: i32, options: &InferenceOptions) -> (result:
        Result<(InferencePlan, Refinement), InferenceError>)
        requires
            old(self).valid(),
            refused(shape@, sample_rate, *options) is None ==> manageable(
                sample_rate,
                shape@[1] as int,
            ),
            fault(shape@, sample_rate, *options) is None ==> old(self).refinable(*options),
        ensures
            final(self).valid(),
            final(self).contentvec == old(self).contentvec,
            final(self).gan == old(self).gan,
            final(self).shallow_diffusion == old(self).shallow_diffusion,
            final(self).flow_matching == old(self).flow_matching,
            final(self).vocoder == old(self).vocoder,
            final(self).rates() == if refused(shape@, sample_rate, *options) is None && sample_rate
                != SAMPLE_RATE {
                old(self).rates().insert(sample_rate)
            } else {
                old(self).rates()
            },
            final(self).pitch.rates() == if fault(shape@, sample_rate, *options)
                == Some(InferenceError::TooShort) || refused(shape@, sample_rate, *options)
                is Some {
                old(self).pitch.rates()
            } else {
                old(self).pitch.rates().insert(SAMPLE_RATE as usize)
            },
            refused(shape@, sample_rate, *options) is Some ==> *final(self) == *old(self),
            match result {
                Ok((plan, refinement)) => {
                    &&& fault(shape@, sample_rate, *options) is None
                    &&& old(self).refinement_fault(*options) is None
                    &&& plan == inference_plan(shape@[1], sample_rate, *options)
                    &&& answers(plan, shape@[1] as int, sample_rate as int, *options)
                    &&& plan.adjust_loudness <==> options.loudness_envelope_adjustment.bits
                        != 0x3f80_0000
                    &&& refinement.covers(*options, plan.frame_count)
                    &&& refinement.does(*options, plan.frame_count)
                },
                Err(error) => match fault(shape@, sample_rate, *options) {
                    Some(first) => error == first,
                    None => old(self).refinement_fault(*options) == Some(error),
                },
            },
    {
        match check_request(shape, sample_rate, options) {
            Some(error) => return Err(error),
            None => {},
        }
        let length = shape[1];
        let ghost resampled = audio::resampled_length(sample_rate, SAMPLE_RATE, length as int);
        let resampling = if sample_rate == SAMPLE_RATE {
            Resampling::Unchanged
        } else {
            let converter = match self.input_resampler(sample_rate) {
                Ok(converter) => converter,
                Err(error) => return Err(InferenceError::Audio(error)),
            };
            match converter.resample(shape, true) {
                Ok(resampling) => resampling,
                Err(error) => return Err(InferenceError::Audio(error)),
            }
        };
        let resampled_length: i32 = match resampling {
            Resampling::Unchanged => length,
            Resampling::Convolve { target_length, .. } => target_length,
        };
        proof {
            lemma_plan_length(sample_rate, SAMPLE_RATE, FILTER_WIDTH, length as int);
            lemma_frames(resampled);
        }
        let frame_count: i32 = resampled_length / HOP_SIZE;
        if frame_count <= 0 {
            return Err(InferenceError::TooShort);
        }
        let used_length: i32 = frame_count * HOP_SIZE;
        let row = [1i32, used_length];
        assert(row@ =~= seq![1i32, used_length]);
        let pitch = match self.pitch.infer(&row, SAMPLE_RATE as usize, frame_count) {
            Ok(pitch) => pitch,
            Err(error) => return Err(InferenceError::Pitch(error)),
        };
        let encoder = match self.encoder_resampler.resample(&row, true) {
            Ok(resampling) => resampling,
            Err(error) => return Err(InferenceError::Audio(error)),
        };
        let encoder_length: i32 = match encoder {
            Resampling::Unchanged => used_length,
            Resampling::Convolve { target_length, .. } => target_length,
        };
        proof {
            lemma_plan_length(
                SAMPLE_RATE,
                ENCODER_SAMPLE_RATE,
                FILTER_WIDTH,
                used_length as int,
            );
        }
        let encoder_row = [1i32, encoder_length];
        assert(encoder_row@ =~= seq![1i32, encoder_length]);
        let content_frames = match ContentVec::encode(&encoder_row) {
            Ok(plan) => plan.frame_count,
            Err(error) => return Err(InferenceError::Content(error)),
        };
        let volume = match self.volume.extract(&row) {
            Ok(plan) => plan,
            Err(error) => return Err(InferenceError::Audio(error)),
        };
        let refinement = match self.refinement(options, frame_count) {
            Ok(refinement) => refinement,
            Err(error) => return Err(error),
        };
        let second_encoding = options.second_encoding && options.refiner
            == Refiner::ShallowDiffusion;
        let plan = InferencePlan {
            gain_db: options.input_gain_db,
            resampling,
            resampled_length,
            frame_count,
            used_length,
            pitch,
            encoder,
            encoder_length,
            content_frames,
            volume,
            second_encoding,
            adjust_loudness: !options.loudness_envelope_adjustment.same_number(
                Single { bits: ONE },
            ),
            output_length: used_length,
        };
        proof {
            lemma_plan_answers(shape@, sample_rate, *options);
            refinement.lemma_does(*options, frame_count);
        }
        Ok((plan, refinement))
    }

    /// Checks that the features have a frame for each frame of the recording.
    pub fn check_frames(
        frame_count: i32,
        content: i32,
        f0: i32,
        uv: i32,
        volume: i32,
    ) -> (result: Result<(), InferenceError>)
        ensures
            match result {
                Ok(_) => content == frame_count && f0 == frame_count && uv == frame_count && volume
                    == frame_count,
                Err(error) => error == InferenceError::FrameCounts && !(content == frame_count
                    && f0 == frame_count && uv == frame_count && volume == frame_count),
            },
    {
        if content == frame_count && f0 == frame_count && uv == frame_count && volume
            == frame_count {
            Ok(())
        } else {
            Err(InferenceError::FrameCounts)
        }
    }
}

/// The length that a resampling leads to.
proof fn lemma_plan_length(original_rate: i32, target_rate: i32, lowpass: i32, length: int)
    requires
        original_rate > 0,
        target_rate > 0,
        lowpass > 0,
        length >= 0,
        length <= i32::MAX,
        audio::convertible(original_rate, target_rate, lowpass, length),
    ensures
        ({
            let resampled = audio::resampled_length(original_rate, target_rate, length);
            &&& 0 <= resampled <= i32::MAX
            &&& match audio::resampler(original_rate, target_rate, lowpass as int).plan(length) {
                Resampling::Unchanged => original_rate == target_rate && resampled == length,
                Resampling::Convolve { target_length, .. } => original_rate != target_rate
                    && resampled == target_length,
            }
        }),
{
    if original_rate != target_rate {
        audio::lemma_reduced(original_rate as int, target_rate as int);
        let divisor = audio::gcd(original_rate as int, target_rate as int);
        let original = original_rate as int / divisor;
        let target = target_rate as int / divisor;
        assert(original <= original_rate && target <= target_rate) by (nonlinear_arith)
            requires
                original * divisor == original_rate,
                target * divisor == target_rate,
                original > 0,
                target > 0,
                divisor > 0,
        ;
    }
}

/// The whole frames of a recording.
proof fn lemma_frames(resampled: int)
    requires
        0 <= resampled <= i32::MAX,
    ensures
        0 <= used(resampled) <= resampled,
        used(resampled) == resampled / HOP_SIZE as int * HOP_SIZE,
        used(resampled) / HOP_SIZE as int == resampled / HOP_SIZE as int,
        resampled < HOP_SIZE <==> resampled / HOP_SIZE as int <= 0,
        resampled >= HOP_SIZE ==> used(resampled) >= HOP_SIZE,
{
}

/// See [`manageable`].
pub fn can_manage(sample_rate: i32, length: i32) -> (result: bool)
    requires
        sample_rate > 0,
    ensures
        result == manageable(sample_rate, length as int),
{
    if length < 0 {
        return false;
    }
    if !audio::can_convert(sample_rate, SAMPLE_RATE, FILTER_WIDTH, length) {
        return false;
    }
    proof {
        lemma_plan_length(sample_rate, SAMPLE_RATE, FILTER_WIDTH, length as int);
        lemma_frames(audio::resampled_length(sample_rate, SAMPLE_RATE, length as int));
    }
    let resampled = audio::length_at(sample_rate, SAMPLE_RATE, length);
    let used_length: i32 = resampled / HOP_SIZE * HOP_SIZE;
    resampled < i32::MAX - SAMPLE_RATE && audio::can_convert(
        SAMPLE_RATE,
        pitch::FCPE_SAMPLE_RATE,
        pitch::FCPE_FILTER_WIDTH,
        used_length,
    ) && audio::can_convert(SAMPLE_RATE, ENCODER_SAMPLE_RATE, FILTER_WIDTH, used_length)
}

/// Recordings of ordinary length leave enough room.
pub proof fn lemma_room(resampled: int)
    requires
        0 <= resampled,
        resampled + 0x200_0000 <= i32::MAX,
    ensures
        room(resampled),
{
    lemma_frames(resampled);
    lemma_downward(
        used(resampled),
        SAMPLE_RATE,
        pitch::FCPE_SAMPLE_RATE,
        pitch::FCPE_FILTER_WIDTH,
    );
    lemma_downward(used(resampled), SAMPLE_RATE, ENCODER_SAMPLE_RATE, FILTER_WIDTH);
}

/// A conversion to a lower rate leaves a waveform shorter.
proof fn lemma_downward(length: int, original_rate: i32, target_rate: i32, lowpass: i32)
    requires
        0 <= length,
        length + 0x1ff_0000 <= i32::MAX,
        0 < target_rate < original_rate <= 44100,
        0 < lowpass <= 128,
    ensures
        audio::convertible(original_rate, target_rate, lowpass, length),
{
    assert((4 * lowpass + 1) * original_rate <= i32::MAX) by (nonlinear_arith)
        requires
            0 < original_rate <= 44100,
            0 < lowpass <= 128,
    ;
    audio::lemma_kernel_fits(original_rate as int, target_rate as int, lowpass as int);
    audio::lemma_reduced(original_rate as int, target_rate as int);
    let divisor = audio::gcd(original_rate as int, target_rate as int);
    let original = original_rate as int / divisor;
    let target = target_rate as int / divisor;
    assert(original <= original_rate && target <= target_rate && target <= original)
        by (nonlinear_arith)
        requires
            original * divisor == original_rate,
            target * divisor == target_rate,
            target_rate < original_rate,
            original > 0,
            target > 0,
            divisor > 0,
    ;
    assert(lowpass * original <= 128 * 44100) by (nonlinear_arith)
        requires
            0 < lowpass <= 128,
            0 < original <= 44100,
    ;
    audio::lemma_reach_bounded(original as nat, target as nat, lowpass as nat);
    let periods = length / original;
    lemma_fundamental_div_mod(length, original);
    lemma_mod_bound(length, original);
    assert((periods + 1) * target <= length + original) by (nonlinear_arith)
        requires
            length == original * periods + length % original,
            length % original >= 0,
            0 < target <= original,
            periods >= 0,
    ;
}

/// The parts of a plan fit together: the pitch, the volume and the spectrogram
/// of the generated waveform have one frame for each frame of the recording,
/// and there are 512 samples of output for each.
pub proof fn lemma_consistent_frames(length: i32, sample_rate: i32, options: InferenceOptions)
    requires
        sample_rate > 0,
        manageable(sample_rate, length as int),
        audio::resampled_length(sample_rate, SAMPLE_RATE, length as int) >= HOP_SIZE,
    ensures
        ({
            let plan = inference_plan(length, sample_rate, options);
            &&& plan.frame_count >= 1
            &&& plan.pitch.target_length == plan.frame_count
            &&& plan.volume.frames.frame_count == plan.frame_count
            &&& plan.output_length == plan.frame_count * crate::upsampler::UPSAMPLE_FACTOR
            &&& vocoder::mel_plan(plan.output_length as int).frames.frame_count
                == plan.frame_count
            &&& plan.output_length <= plan.resampled_length < plan.output_length + HOP_SIZE
        }),
{
    lemma_plan_length(sample_rate, SAMPLE_RATE, FILTER_WIDTH, length as int);
    let resampled = audio::resampled_length(sample_rate, SAMPLE_RATE, length as int);
    lemma_frames(resampled);
    vocoder::lemma_mel_frames(used(resampled));
}

/// A request is refused exactly where the audio is no single row, its rate is
/// not positive, the gain is beyond twelve decibels, the noise scale is no
/// number or negative, or the steps of the chosen refiner are too few. Each
/// reason is given only where it holds.
pub proof fn lemma_refused(shape: Seq<i32>, sample_rate: i32, options: InferenceOptions)
    ensures
        refused(shape, sample_rate, options) is None <==> {
            &&& shape.len() == 2 && shape[0] == 1
            &&& sample_rate >= 1
            &&& options.input_gain_db >= -12 && options.input_gain_db <= 12
            &&& options.noise_scale.bits <= 0x7f80_0000 || options.noise_scale.bits == 0x8000_0000
            &&& options.refiner == Refiner::ShallowDiffusion ==> options.diffusion_steps >= 2
                && options.diffusion_speedup >= 1
            &&& options.refiner == Refiner::FlowMatching ==> options.flow_matching_steps >= 1
        },
        match refused(shape, sample_rate, options) {
            Some(InferenceError::InputShape) => !(shape.len() == 2 && shape[0] == 1),
            Some(InferenceError::SampleRate) => shape.len() == 2 && shape[0] == 1 && sample_rate
                <= 0,
            Some(InferenceError::InputGain) => shape.len() == 2 && shape[0] == 1 && sample_rate >= 1
                && (options.input_gain_db > 12 || options.input_gain_db < -12),
            Some(InferenceError::NoiseScale) => shape.len() == 2 && shape[0] == 1 && sample_rate
                >= 1 && -12 <= options.input_gain_db <= 12 && options.noise_scale.bits > 0x7f80_0000
                && options.noise_scale.bits != 0x8000_0000,
            Some(InferenceError::DiffusionSteps) => options.refiner == Refiner::ShallowDiffusion
                && options.diffusion_steps <= 1,
            Some(InferenceError::DiffusionSpeedup) => options.refiner == Refiner::ShallowDiffusion
                && options.diffusion_steps >= 2 && options.diffusion_speedup <= 0,
            Some(InferenceError::FlowMatchingSteps) => options.refiner == Refiner::FlowMatching
                && options.flow_matching_steps <= 0,
            Some(_) => false,
            None => true,
        },
{
}

/// Whether a length is that of some audio at another rate: the smallest
/// integer that is not below `length * to / from`.
pub open spec fn lasts(length: int, from: int, resampled: int, to: int) -> bool {
    &&& resampled >= 0
    &&& length * to <= resampled * from
    &&& resampled > 0 ==> (resampled - 1) * from < length * to
}

/// Whether a plan does what was asked for: the gain is the one asked for, the
/// recording is brought to 44100 Hz and cut to whole frames of 512 samples, of
/// which pitch, content, volume and output are made, the waveform is encoded
/// again exactly where that is asked for and diffusion follows, and the
/// loudness is adjusted exactly where the share of the output's own loudness is
/// not the number one, whatever refiner is chosen.
pub open spec fn answers(
    plan: InferencePlan,
    length: int,
    sample_rate: int,
    options: InferenceOptions,
) -> bool {
    &&& plan.gain_db == options.input_gain_db
    &&& lasts(length, sample_rate, plan.resampled_length as int, 44100)
    &&& sample_rate == 44100 ==> plan.resampling == Resampling::Unchanged && plan.resampled_length
        == length
    &&& sample_rate != 44100 ==> plan.resampling is Convolve && plan.resampling->target_length
        == plan.resampled_length
    &&& plan.resampling == audio::resampler(sample_rate as i32, 44100, 6).plan(length)
    &&& plan.pitch.resampling == audio::resampler(44100, 16000, 128).plan(plan.used_length as int)
    &&& plan.encoder == audio::resampler(44100, 16000, 6).plan(plan.used_length as int)
    &&& plan.frame_count >= 3
    &&& plan.used_length == 512 * plan.frame_count
    &&& plan.used_length <= plan.resampled_length < plan.used_length + 512
    &&& plan.pitch.source_sample_count == plan.used_length
    &&& plan.pitch.target_length == plan.frame_count
    &&& plan.pitch.resampling is Convolve
    &&& lasts(
        plan.used_length as int,
        44100,
        plan.pitch.resampling->target_length as int,
        16000,
    )
    &&& plan.encoder is Convolve
    &&& plan.encoder->target_length == plan.encoder_length
    &&& lasts(plan.used_length as int, 44100, plan.encoder_length as int, 16000)
    &&& plan.content_frames == (plan.encoder_length - 80) / 320
    &&& plan.volume.rows == 1
    &&& plan.volume.frames.left == 256 && plan.volume.frames.right == 256
    &&& plan.volume.before == Span { start: 1, end: 257 }
    &&& plan.volume.after == Span {
        start: (plan.used_length - 257) as i32,
        end: (plan.used_length - 1) as i32,
    }
    &&& plan.volume.frames.frame_count == plan.frame_count
    &&& plan.volume.frames.frame_length == 512
    &&& plan.volume.frames.hop == 512
    &&& plan.output_length == plan.used_length
    &&& plan.second_encoding <==> options.second_encoding && options.refiner
        == Refiner::ShallowDiffusion
    &&& plan.adjust_loudness <==> options.loudness_envelope_adjustment.bits != 0x3f80_0000
}

/// The length of audio at another rate.
proof fn lemma_lasts(from: i32, to: i32, length: int)
    requires
        from > 0,
        0 < to <= 44100,
        0 <= length <= i32::MAX,
        audio::resampled_length(from, to, length) < i32::MAX,
    ensures
        lasts(length, from as int, audio::resampled_length(from, to, length), to as int),
{
    let total = length * to;
    let rate = from as int;
    let exact = (total + rate - 1) / rate;
    assert(total >= 0) by (nonlinear_arith)
        requires
            total == length * to,
            length >= 0,
            to > 0,
    ;
    lemma_fundamental_div_mod(total + rate - 1, rate);
    lemma_mod_bound(total + rate - 1, rate);
    assert(0 <= exact && (exact > 0 ==> (exact - 1) * rate < total) && total <= exact * rate)
        by (nonlinear_arith)
        requires
            total + rate - 1 == rate * exact + (total + rate - 1) % rate,
            0 <= (total + rate - 1) % rate < rate,
            total >= 0,
            rate > 0,
    ;
    audio::lemma_resampled_length(from, to, length, exact as nat);
}

/// Every plan does what was asked for.
pub proof fn lemma_plan_answers(
    shape: Seq<i32>,
    sample_rate: i32,
    options: InferenceOptions,
)
    requires
        refused(shape, sample_rate, options) is None,
        manageable(sample_rate, shape[1] as int),
        fault(shape, sample_rate, options) is None,
    ensures
        answers(
            inference_plan(shape[1], sample_rate, options),
            shape[1] as int,
            sample_rate as int,
            options,
        ),
{
    let length = shape[1] as int;
    let plan = inference_plan(shape[1], sample_rate, options);
    let resampled = audio::resampled_length(sample_rate, SAMPLE_RATE, length);
    lemma_plan_length(sample_rate, SAMPLE_RATE, FILTER_WIDTH, length);
    lemma_lasts(sample_rate, SAMPLE_RATE, length);
    lemma_frames(resampled);
    let used_length = used(resampled);
    lemma_plan_length(SAMPLE_RATE, ENCODER_SAMPLE_RATE, FILTER_WIDTH, used_length);
    lemma_plan_length(
        SAMPLE_RATE,
        pitch::FCPE_SAMPLE_RATE,
        pitch::FCPE_FILTER_WIDTH,
        used_length,
    );
    let encoded = ((used_length * 160 + 440) / 441) as nat;
    audio::lemma_resampled_length(SAMPLE_RATE, ENCODER_SAMPLE_RATE, used_length, encoded);
    lemma_lasts(SAMPLE_RATE, ENCODER_SAMPLE_RATE, used_length);
}

/// The choice of the refiner decides nothing but the refinement: two requests
/// that differ only in it are planned alike, but for a second encoding.
pub proof fn lemma_refiner_apart(
    length: i32,
    sample_rate: i32,
    options: InferenceOptions,
    refiner: Refiner,
)
    ensures
        ({
            let first = inference_plan(length, sample_rate, options);
            let second = inference_plan(
                length,
                sample_rate,
                InferenceOptions { refiner, ..options },
            );
            &&& first.adjust_loudness == second.adjust_loudness
            &&& first == InferencePlan { second_encoding: first.second_encoding, ..second }
            &&& !options.second_encoding ==> first == second
        }),
{
}

/// A recording in order is refused for its length where it has fewer than
/// three frames at the rate of the model, and only there. It has as many samples
/// at that rate as its duration takes.
pub proof fn lemma_long_enough(
    shape: Seq<i32>,
    sample_rate: i32,
    options: InferenceOptions,
    resampled: nat,
)
    requires
        refused(shape, sample_rate, options) is None,
        shape[1] >= 0,
        resampled <= i32::MAX,
        resampled > 0 ==> (resampled - 1) * sample_rate < shape[1] * SAMPLE_RATE,
        shape[1] * SAMPLE_RATE <= resampled * sample_rate,
    ensures
        fault(shape, sample_rate, options) is None <==> resampled >= 3 * HOP_SIZE,
        fault(shape, sample_rate, options) is None <==> resampled >= 1536,
        resampled < 512 <==> fault(shape, sample_rate, options) == Some(InferenceError::TooShort),
        512 <= resampled < 1536 <==> fault(shape, sample_rate, options) == Some(
            InferenceError::Content(ContentVecError::WavLength),
        ),
        fault(shape, sample_rate, options) is None ==> inference_plan(
            shape[1],
            sample_rate,
            options,
        ).resampled_length == resampled,
{
    audio::lemma_resampled_length(sample_rate, SAMPLE_RATE, shape[1] as int, resampled);
    let length = used(resampled as int);
    lemma_frames(resampled as int);
    let encoded = ((length * 160 + 440) / 441) as nat;
    audio::lemma_resampled_length(SAMPLE_RATE, ENCODER_SAMPLE_RATE, length, encoded);
}

/// A request that is refused is refused for the same reason whatever the length
/// of the recording is, and only a request in order is looked into further.
pub proof fn lemma_refused_first(
    shape: Seq<i32>,
    length: i32,
    sample_rate: i32,
    options: InferenceOptions,
)
    ensures
        refused(shape, sample_rate, options) is Some ==> fault(shape, sample_rate, options)
            == refused(shape, sample_rate, options),
        fault(shape, sample_rate, options) is None ==> refused(shape, sample_rate, options) is None,
        shape.len() == 2 ==> refused(seq![shape[0], length], sample_rate, options) == refused(
            shape,
            sample_rate,
            options,
        ),
{
}

/// A refinement is refused exactly where a diffusion takes more steps than the
/// noise schedule has or fewer than two at its speed, or where a flow would not go
/// forward.
pub proof fn lemma_refinement_refused(converter: SovitsSvc, options: InferenceOptions)
    requires
        options.refiner == Refiner::ShallowDiffusion ==> options.diffusion_speedup >= 1,
    ensures
        options.refiner == Refiner::Off ==> converter.refinement_fault(options) is None,
        options.refiner == Refiner::ShallowDiffusion ==> {
            let length = converter.shallow_diffusion.model.schedule_length->0;
            let steps = options.diffusion_steps;
            &&& converter.refinement_fault(options) is None <==> 2 * options.diffusion_speedup
                <= steps <= length
            &&& steps > length <==> converter.refinement_fault(options) == Some(
                InferenceError::ScheduleLength { k_step: steps, length },
            )
            &&& steps <= length && steps < 2 * options.diffusion_speedup
                <==> converter.refinement_fault(options) == Some(InferenceError::SolverSteps)
        },
        options.refiner == Refiner::FlowMatching ==> {
            let refiner = converter.flow_matching;
            &&& converter.refinement_fault(options) is None <==> refiner.t_start.less(refiner.t_end)
            &&& converter.refinement_fault(options) is Some ==> converter.refinement_fault(options)
                == Some(InferenceError::EndTime)
        },
{
    if options.refiner == Refiner::ShallowDiffusion {
        let steps = options.diffusion_steps as int;
        let speedup = options.diffusion_speedup as int;
        let quotient = steps / speedup;
        lemma_fundamental_div_mod(steps, speedup);
        lemma_mod_bound(steps, speedup);
        assert(quotient < 2 <==> steps < 2 * speedup) by (nonlinear_arith)
            requires
                steps == speedup * quotient + steps % speedup,
                0 <= steps % speedup < speedup,
        ;
    }
}

/// The shift of the pitch touches the pitch only: with another shift, the same
/// recordings are refused, for the same reasons, and all lengths, frames and
/// refinements are the same.
pub proof fn lemma_pitch_shift(
    converter: SovitsSvc,
    shape: Seq<i32>,
    sample_rate: i32,
    options: InferenceOptions,
    pitch_shift: Single,
)
    ensures
        ({
            let shifted = InferenceOptions { pitch_shift, ..options };
            &&& refused(shape, sample_rate, shifted) == refused(shape, sample_rate, options)
            &&& fault(shape, sample_rate, shifted) == fault(shape, sample_rate, options)
            &&& converter.refinement_fault(shifted) == converter.refinement_fault(options)
            &&& inference_plan(shape[1], sample_rate, shifted) == inference_plan(
                shape[1],
                sample_rate,
                options,
            )
            &&& forall|refinement: Refinement, frame_count: i32| #[trigger]
                refinement.covers(shifted, frame_count) == refinement.covers(options, frame_count)
        }),
{
}

/// The sizes, in samples, by which a recording is cut and joined.
#[derive(Clone, Copy, Debug, PartialEq, Eq, Structural)]
pub struct SliceSizes {
    /// The longest piece; zero for no limit.
    pub clip_size: i32,
    /// What a piece shares with the one before.
    pub overlap_size: i32,
    /// The part of it in which the two are mixed.
    pub overlap_mix_size: i32,
    /// What is dropped at the start of the later piece.
    pub overlap_left_trim: i32,
    /// What is dropped at the end of the earlier piece.
    pub overlap_right_trim: i32,
    /// Silence on both sides of a piece, at the rate of the recording.
    pub source_padding: i32,
    /// The same at the rate of the model.
    pub target_padding: i32,
    /// Whether the whole of what is shared is mixed.
    pub mixes_all: bool,
}

/// Half of a number, rounded towards zero.
pub open spec fn half(value: int) -> int {
    if value >= 0 {
        value / 2
    } else {
        -((-value) / 2)
    }
}

/// The sizes for some options.
pub open spec fn slice_sizes(sample_rate: int, options: SliceInferenceOptions) -> SliceSizes {
    let overlap = options.crossfade_seconds.times(sample_rate as nat);
    let mix = options.crossfade_ratio.times(overlap as nat);
    SliceSizes {
        clip_size: options.clip_seconds.times(sample_rate as nat) as i32,
        overlap_size: overlap as i32,
        overlap_mix_size: mix as i32,
        overlap_left_trim: half(overlap - mix) as i32,
        overlap_right_trim: (overlap - mix - half(overlap - mix)) as i32,
        source_padding: options.padding_seconds.times(sample_rate as nat) as i32,
        target_padding: options.padding_seconds.times(SAMPLE_RATE as nat) as i32,
        mixes_all: options.crossfade_ratio.equals(Single { bits: ONE }),
    }
}

/// What is wrong with a request for a conversion in slices.
pub open spec fn slicing_fault(
    shape: Seq<i32>,
    sample_rate: i32,
    gain_db: i32,
    options: SliceInferenceOptions,
) -> Option<InferenceError> {
    let zero = Single { bits: 0 };
    let sizes = slice_sizes(sample_rate as int, options);
    if !shapes::is_single_row(shape) {
        Some(InferenceError::InputShape)
    } else if sample_rate <= 0 {
        Some(InferenceError::SampleRate)
    } else if !(-12 <= gain_db <= 12) {
        Some(InferenceError::InputGain)
    } else if !(options.padding_seconds.at_least(zero) && options.clip_seconds.at_least(zero)
        && options.crossfade_seconds.at_least(zero)) {
        Some(InferenceError::SliceDurations)
    } else if !(options.crossfade_ratio.at_least(zero) && (Single { bits: ONE }).at_least(
        options.crossfade_ratio,
    )) {
        Some(InferenceError::CrossfadeRatio)
    } else if !(sizes.clip_size == 0 || sizes.overlap_size <= sizes.clip_size) {
        Some(InferenceError::CrossfadeDuration)
    } else {
        None
    }
}

/// A conversion in slices is refused exactly where the audio is no single row,
/// its rate is not positive, the gain is beyond twelve decibels, a duration is
/// no number or negative, the ratio is not between zero and one, or a piece
/// shares more with the one before than it may hold. The reason is the first of
/// these that holds.
pub proof fn lemma_slicing_refused(
    shape: Seq<i32>,
    sample_rate: i32,
    gain_db: i32,
    options: SliceInferenceOptions,
)
    ensures
        ({
            let row = shape.len() == 2 && shape[0] == 1;
            let gain = gain_db <= 12 && gain_db >= -12;
            let lasting = |value: Single| value.bits <= 0x7f80_0000 || value.bits == 0x8000_0000;
            let durations = lasting(options.padding_seconds) && lasting(options.clip_seconds)
                && lasting(options.crossfade_seconds);
            let ratio = options.crossfade_ratio.bits <= 0x3f80_0000 || options.crossfade_ratio.bits
                == 0x8000_0000;
            let shared = options.clip_seconds.times(sample_rate as nat) != 0
                && options.crossfade_seconds.times(sample_rate as nat) > options.clip_seconds.times(
                sample_rate as nat,
            );
            &&& slicing_fault(shape, sample_rate, gain_db, options) is None <==> row && sample_rate
                >= 1 && gain && durations && ratio && !shared
            &&& match slicing_fault(shape, sample_rate, gain_db, options) {
                None => true,
                Some(InferenceError::InputShape) => !row,
                Some(InferenceError::SampleRate) => row && sample_rate <= 0,
                Some(InferenceError::InputGain) => row && sample_rate >= 1 && !gain,
                Some(InferenceError::SliceDurations) => row && sample_rate >= 1 && gain
                    && !durations,
                Some(InferenceError::CrossfadeRatio) => row && sample_rate >= 1 && gain && durations
                    && !ratio,
                Some(InferenceError::CrossfadeDuration) => row && sample_rate >= 1 && gain
                    && durations && ratio && shared,
                Some(_) => false,
            }
        }),
{
    if options.clip_seconds.at_least(Single { bits: 0 }) {
        options.clip_seconds.lemma_times_nonnegative(sample_rate as nat);
    }
    if options.crossfade_seconds.at_least(Single { bits: 0 }) {
        options.crossfade_seconds.lemma_times_nonnegative(sample_rate as nat);
    }
}

/// The sizes are those of the durations at the rate of the recording, the
/// padding also at 44100 Hz. What two pieces share and do not mix is dropped on
/// both sides, in halves.
pub proof fn lemma_slice_sizes(
    shape: Seq<i32>,
    sample_rate: i32,
    gain_db: i32,
    options: SliceInferenceOptions,
)
    requires
        slicing_fault(shape, sample_rate, gain_db, options) is None,
    ensures
        ({
            let sizes = slice_sizes(sample_rate as int, options);
            &&& sizes.clip_size == options.clip_seconds.times(sample_rate as nat)
            &&& sizes.overlap_size == options.crossfade_seconds.times(sample_rate as nat)
            &&& sizes.source_padding == options.padding_seconds.times(sample_rate as nat)
            &&& sizes.target_padding == options.padding_seconds.times(44100)
            &&& sizes.overlap_mix_size == options.crossfade_ratio.times(sizes.overlap_size as nat)
            &&& sizes.overlap_left_trim + sizes.overlap_mix_size + sizes.overlap_right_trim
                == sizes.overlap_size
            &&& sizes.overlap_mix_size <= sizes.overlap_size ==> 0 <= sizes.overlap_left_trim
                <= sizes.overlap_right_trim <= sizes.overlap_left_trim + 1
            &&& sizes.overlap_mix_size > sizes.overlap_size ==> sizes.overlap_left_trim - 1
                <= sizes.overlap_right_trim <= sizes.overlap_left_trim <= 0
            &&& sizes.mixes_all <==> options.crossfade_ratio.bits == 0x3f80_0000
        }),
{
    options.clip_seconds.lemma_times_nonnegative(sample_rate as nat);
    options.crossfade_seconds.lemma_times_nonnegative(sample_rate as nat);
    options.crossfade_ratio.lemma_times_nonnegative(
        options.crossfade_seconds.times(sample_rate as nat) as nat,
    );
    options.padding_seconds.lemma_times_nonnegative(sample_rate as nat);
    options.padding_seconds.lemma_times_nonnegative(SAMPLE_RATE as nat);
}

/// How a recording is cut.
#[derive(Clone, Copy, Debug, PartialEq, Eq, Structural)]
pub struct Slicing {
    /// Decibels that are added to the whole recording.
    pub gain_db: i32,
    /// How each piece is converted, without a gain of its own.
    pub options: InferenceOptions,
    pub slicer: Slicer,
    pub sizes: SliceSizes,
    /// The frames whose levels are needed; none where the recording is too
    /// short to be cut.
    pub frames: Option<FrameLayout>,
}

/// Prepares a conversion in slices. `threshold` is the level that
/// `threshold_db` stands for.
pub fn prepare_slicing(
    shape: &[i32],
    sample_rate: i32,
    inference_options: &InferenceOptions,
    options: &SliceInferenceOptions,
    threshold: Single,
) -> (result: Result<Slicing, InferenceError>)
    requires
        shapes::is_single_row(shape@) && sample_rate > 0 ==> slicer::sliceable(
            slicer::standard_rules(sample_rate as nat, threshold),
            shape@[1] as int,
        ),
    ensures
        match result {
            Ok(slicing) => {
                &&& slicing_fault(
                    shape@,
                    sample_rate,
                    inference_options.input_gain_db,
                    *options,
                ) is None
                &&& slicing.gain_db == inference_options.input_gain_db
                &&& slicing.options == (InferenceOptions {
                    input_gain_db: 0,
                    ..*inference_options
                })
                &&& slicing.slicer == slicer::standard_rules(sample_rate as nat, threshold)
                &&& slicing.sizes == slice_sizes(sample_rate as int, *options)
                &&& slicing.sizes.clip_size >= 0
                &&& slicing.sizes.overlap_size >= 0
                &&& slicing.sizes.source_padding >= 0
                &&& slicing.sizes.target_padding >= 0
                &&& slicing.frames == if shape@[1] <= slicing.slicer.minimum_length {
                    None
                } else {
                    Some(
                        shapes::centered(
                            shape@[1] as int,
                            slicing.slicer.window_size as int,
                            slicing.slicer.hop_size as int,
                        ),
                    )
                }
            },
            Err(error) => slicing_fault(
                shape@,
                sample_rate,
                inference_options.input_gain_db,
                *options,
            ) == Some(error),
        },
{
    let zero = Single { bits: 0 };
    if !shapes::single_row(shape) {
        return Err(InferenceError::InputShape);
    }
    if sample_rate <= 0 {
        return Err(InferenceError::SampleRate);
    }
    if inference_options.input_gain_db < -12 || inference_options.input_gain_db > 12 {
        return Err(InferenceError::InputGain);
    }
    if !(options.padding_seconds.not_less_than(zero) && options.clip_seconds.not_less_than(zero)
        && options.crossfade_seconds.not_less_than(zero)) {
        return Err(InferenceError::SliceDurations);
    }
    if !(options.crossfade_ratio.not_less_than(zero) && (Single { bits: ONE }).not_less_than(
        options.crossfade_ratio,
    )) {
        return Err(InferenceError::CrossfadeRatio);
    }
    proof {
        options.clip_seconds.lemma_times_nonnegative(sample_rate as nat);
        options.crossfade_seconds.lemma_times_nonnegative(sample_rate as nat);
        options.crossfade_ratio.lemma_times_nonnegative(
            options.crossfade_seconds.times(sample_rate as nat) as nat,
        );
        options.padding_seconds.lemma_times_nonnegative(sample_rate as nat);
        options.padding_seconds.lemma_times_nonnegative(SAMPLE_RATE as nat);
    }
    let clip_size = options.clip_seconds.times_count(sample_rate);
    let overlap_size = options.crossfade_seconds.times_count(sample_rate);
    if !(clip_size == 0 || overlap_size <= clip_size) {
        return Err(InferenceError::CrossfadeDuration);
    }
    let overlap_mix_size = options.crossfade_ratio.times_count(overlap_size);
    let unmixed: i32 = overlap_size - overlap_mix_size;
    let overlap_left_trim: i32 = if unmixed >= 0 {
        unmixed / 2
    } else {
        0 - (0 - unmixed) / 2
    };
    let sizes = SliceSizes {
        clip_size,
        overlap_size,
        overlap_mix_size,
        overlap_left_trim,
        overlap_right_trim: unmixed - overlap_left_trim,
        source_padding: options.padding_seconds.times_count(sample_rate),
        target_padding: options.padding_seconds.times_count(SAMPLE_RATE),
        mixes_all: options.crossfade_ratio.same_number(Single { bits: ONE }),
    };
    let slicer = match Slicer::standard(sample_rate, threshold) {
        Ok(slicer) => slicer,
        Err(_) => return Err(InferenceError::SampleRate),
    };
    match slicer.frames(shape) {
        Ok(frames) => Ok(
            Slicing {
                gain_db: inference_options.input_gain_db,
                options: InferenceOptions { input_gain_db: 0, ..*inference_options },
                slicer,
                sizes,
                frames,
            },
        ),
        Err(_) => Err(InferenceError::InputShape),
    }
}

/// A part of the work of a conversion in slices.
#[derive(Clone, Copy, Debug, PartialEq, Eq, Structural)]
pub enum Job {
    /// Put so much silence at the end of the output.
    Silence { length: i32 },
    /// Convert these samples of the recording and join them to the output.
    Chunk {
        start: i32,
        end: i32,
        /// The least number of samples that come of them.
        expected_length: i32,
        /// Whether the chunk goes on from the one before in the same slice.
        continues: bool,
    },
}

/// How many pieces a slice is cut into.
pub open spec fn piece_count(length: int, clip: int) -> int {
    if clip == 0 {
        1
    } else {
        (length + clip - 1) / clip
    }
}

/// A piece of a slice: it starts a whole number of clips into the slice, less
/// what it shares with the piece before, and is at most a clip longer than
/// that.
pub open spec fn piece_at(length: int, clip: int, overlap: int, index: int) -> (int, int) {
    if clip == 0 {
        (0, length)
    } else {
        let position = index * clip;
        (
            if position >= overlap {
                position - overlap
            } else {
                position
            },
            vstd::math::min(position + clip, length),
        )
    }
}

/// The work for one piece of a slice.
pub open spec fn piece_job(
    slice: AudioSlice,
    sample_rate: int,
    sizes: SliceSizes,
    index: int,
) -> Job {
    let length = slice.end - slice.start;
    let (start, end) = piece_at(
        length,
        sizes.clip_size as int,
        sizes.overlap_size as int,
        index,
    );
    Job::Chunk {
        start: (slice.start + start) as i32,
        end: (slice.start + end) as i32,
        expected_length: lengths::converted(
            (end - start) as nat,
            sample_rate as nat,
            SAMPLE_RATE as nat,
        ) as i32,
        continues: index != 0,
    }
}

/// The work for a slice.
pub open spec fn slice_jobs(slice: AudioSlice, sample_rate: int, sizes: SliceSizes) -> Seq<Job> {
    let length = slice.end - slice.start;
    if slice.silent {
        seq![
            Job::Silence {
                length: lengths::converted(
                    length as nat,
                    sample_rate as nat,
                    SAMPLE_RATE as nat,
                ) as i32,
            },
        ]
    } else {
        Seq::new(
            piece_count(length, sizes.clip_size as int) as nat,
            |index: int| piece_job(slice, sample_rate, sizes, index),
        )
    }
}

/// The work for the first `count` slices.
pub open spec fn jobs(
    slices: Seq<AudioSlice>,
    count: nat,
    sample_rate: int,
    sizes: SliceSizes,
) -> Seq<Job>
    decreases count,
{
    if count == 0 {
        seq![]
    } else {
        jobs(slices, (count - 1) as nat, sample_rate, sizes) + slice_jobs(
            slices[count - 1],
            sample_rate,
            sizes,
        )
    }
}

/// Whether slices lie in a waveform.
pub open spec fn slices_valid(slices: Seq<AudioSlice>) -> bool {
    forall|i: int| 0 <= i < slices.len() ==> 0 <= (#[trigger] slices[i]).start <= slices[i].end
}

/// The place of a piece, and the number of pieces before it.
proof fn lemma_piece(length: int, clip: int, overlap: int, index: int)
    requires
        length >= 0,
        clip > 0,
        0 <= overlap <= clip,
        0 <= index,
    ensures
        index < piece_count(length, clip) <==> index * clip < length,
        index < piece_count(length, clip) ==> {
            let (start, end) = piece_at(length, clip, overlap, index);
            0 <= start < end <= length
        },
        index * clip >= 0,
        index >= 1 ==> index * clip >= clip,
        (index + 1) * clip == index * clip + clip,
{
    let count = piece_count(length, clip);
    let room = length + clip - 1;
    lemma_fundamental_div_mod(room, clip);
    lemma_mod_bound(room, clip);
    assert(index < count <==> index * clip < length) by (nonlinear_arith)
        requires
            room == clip * count + room % clip,
            0 <= room % clip,
            room % clip < clip,
            room == length + clip - 1,
            clip > 0,
    ;
    assert(index * clip >= 0 && (index >= 1 ==> index * clip >= clip) && (index + 1) * clip
        == index * clip + clip) by (nonlinear_arith)
        requires
            index >= 0,
            clip > 0,
    ;
}

/// Cuts a slice that is to be converted into pieces and lists the work.
fn push_chunks(list: &mut Vec<Job>, slice: AudioSlice, sample_rate: i32, sizes: &SliceSizes)
    requires
        !slice.silent,
        0 <= slice.start <= slice.end,
        sample_rate > 0,
        sizes.clip_size >= 0,
        0 <= sizes.overlap_size,
        sizes.clip_size != 0 ==> sizes.overlap_size <= sizes.clip_size,
    ensures
        final(list)@ == old(list)@ + slice_jobs(slice, sample_rate as int, *sizes),
{
    let length: i32 = slice.end - slice.start;
    let ghost expected = slice_jobs(slice, sample_rate as int, *sizes);
    let ghost before = list@;
    if sizes.clip_size == 0 {
        list.push(
            Job::Chunk {
                start: slice.start,
                end: slice.end,
                expected_length: lengths::converted_length(length, sample_rate, SAMPLE_RATE),
                continues: false,
            },
        );
        assert(list@ =~= before + expected);
        return ;
    }
    let ghost clip = sizes.clip_size as int;
    let ghost overlap = sizes.overlap_size as int;
    let ghost mut index: int = 0;
    let mut position: i64 = 0;
    assert(list@ =~= before + expected.take(0));
    proof {
        lemma_piece(length as int, clip, overlap, 0);
    }
    while position < length as i64
        invariant
            !slice.silent,
            0 <= slice.start <= slice.end,
            length == slice.end - slice.start,
            sample_rate > 0,
            clip == sizes.clip_size > 0,
            0 <= overlap == sizes.overlap_size <= clip,
            0 <= index <= piece_count(length as int, clip),
            position == index * clip,
            0 <= position < length + clip || position == 0,
            expected == slice_jobs(slice, sample_rate as int, *sizes),
            expected.len() == piece_count(length as int, clip),
            list@ == before + expected.take(index),
        decreases length + clip - position,
    {
        proof {
            lemma_piece(length as int, clip, overlap, index);
            lemma_piece(length as int, clip, overlap, index + 1);
        }
        let start: i64 = if position >= sizes.overlap_size as i64 {
            position - sizes.overlap_size as i64
        } else {
            position
        };
        let next: i64 = position + sizes.clip_size as i64;
        let end: i64 = if next < length as i64 {
            next
        } else {
            length as i64
        };
        let start = start as i32;
        let end = end as i32;
        assert(piece_at(length as int, clip, overlap, index) == (start as int, end as int));
        let job = Job::Chunk {
            start: slice.start + start,
            end: slice.start + end,
            expected_length: lengths::converted_length(end - start, sample_rate, SAMPLE_RATE),
            continues: position != 0,
        };
        proof {
            if index == 0 {
                assert(0 * clip == 0);
            }
            assert(position != 0 <==> index != 0);
            assert(expected[index] == piece_job(slice, sample_rate as int, *sizes, index));
            assert(job == expected[index]);
        }
        list.push(job);
        proof {
            assert(expected.take(index + 1) =~= expected.take(index).push(job));
            assert(list@ =~= before + expected.take(index + 1));
            index = index + 1;
        }
        position = next;
    }
    proof {
        lemma_piece(length as int, clip, overlap, index);
        assert(expected.take(index) =~= expected);
    }
}

/// Lists the work of a conversion in slices, given the levels of the frames of
/// the recording.
pub fn infer_sliced(
    slicing: &Slicing,
    sample_count: i32,
    sample_rate: i32,
    levels: &Vec<Single>,
) -> (list: Vec<Job>)
    requires
        0 <= sample_count,
        sample_rate > 0,
        slicer::sliceable(slicing.slicer, sample_count as int),
        sample_count > slicing.slicer.minimum_length ==> levels@.len()
            == slicing.slicer.frame_count(sample_count as int),
        slicing.sizes.clip_size >= 0,
        0 <= slicing.sizes.overlap_size,
        slicing.sizes.clip_size != 0 ==> slicing.sizes.overlap_size <= slicing.sizes.clip_size,
    ensures
        ({
            let slices = slicing.slicer.slices(sample_count as int, levels@);
            &&& list@ == jobs(slices, slices.len(), sample_rate as int, slicing.sizes)
            &&& forall|sample: int|
                0 <= sample < sample_count ==> #[trigger] converted_by(list@, sample)
                    || in_silence(slices, sample)
            &&& forall|sample: int| #[trigger] converted_by(list@, sample) && sample_count > 0
                ==> 0 <= sample < sample_count && !in_silence(slices, sample)
        }),
{
    let slices = slicing.slicer.slice(sample_count, levels);
    proof {
        slicing.slicer.lemma_slices_valid(sample_count as int, levels@);
    }
    let mut list: Vec<Job> = Vec::new();
    let mut index: usize = 0;
    while index < slices.len()
        invariant
            index <= slices@.len(),
            slices_valid(slices@),
            sample_rate > 0,
            slicing.sizes.clip_size >= 0,
            0 <= slicing.sizes.overlap_size,
            slicing.sizes.clip_size != 0 ==> slicing.sizes.overlap_size <= slicing.sizes.clip_size,
            list@ == jobs(slices@, index as nat, sample_rate as int, slicing.sizes),
        decreases slices@.len() - index,
    {
        let slice = slices[index];
        if slice.silent {
            let length = lengths::converted_length(
                slice.end - slice.start,
                sample_rate,
                SAMPLE_RATE,
            );
            list.push(Job::Silence { length });
            assert(list@ =~= jobs(
                slices@,
                (index + 1) as nat,
                sample_rate as int,
                slicing.sizes,
            ));
        } else {
            push_chunks(&mut list, slice, sample_rate, &slicing.sizes);
        }
        index = index + 1;
    }
    proof {
        if sample_count > 0 {
            slicing.slicer.lemma_slices_contiguous(sample_count as int, levels@);
            assert forall|sample: int| 0 <= sample < sample_count implies #[trigger] converted_by(
                list@,
                sample,
            ) || in_silence(slices@, sample) by {
                lemma_all_covered(
                    slices@,
                    sample_count as int,
                    sample_rate as int,
                    slicing.sizes,
                    sample,
                );
            }
            assert forall|sample: int| #[trigger] converted_by(list@, sample) implies 0 <= sample
                < sample_count && !in_silence(slices@, sample) by {
                lemma_all_covered(
                    slices@,
                    sample_count as int,
                    sample_rate as int,
                    slicing.sizes,
                    sample,
                );
            }
        }
    }
    list
}

/// Whether some job converts a sample of the recording.
pub open spec fn converted_by(list: Seq<Job>, sample: int) -> bool {
    exists|k: int| 0 <= k < list.len() && converts(#[trigger] list[k], sample)
}

/// Whether a sample lies in a silent slice.
pub open spec fn in_silence(slices: Seq<AudioSlice>, sample: int) -> bool {
    exists|i: int|
        0 <= i < slices.len() && (#[trigger] slices[i]).silent && slices[i].start <= sample
            < slices[i].end
}

/// Every sample of a recording that is cut without gaps is either converted by
/// some chunk or part of a silence, and none is both.
pub proof fn lemma_all_covered(
    slices: Seq<AudioSlice>,
    sample_count: int,
    sample_rate: int,
    sizes: SliceSizes,
    sample: int,
)
    requires
        slicer::contiguous(slices, 0, sample_count),
        0 < sample_count,
        sample_rate > 0,
        sizes.clip_size >= 0,
        sizes.overlap_size >= 0,
        sizes.clip_size != 0 ==> sizes.overlap_size <= sizes.clip_size,
    ensures
        ({
            let list = jobs(slices, slices.len(), sample_rate, sizes);
            &&& converted_by(list, sample) ==> 0 <= sample < sample_count
            &&& 0 <= sample < sample_count ==> (converted_by(list, sample) <==> !in_silence(
                slices,
                sample,
            ))
        }),
{
    let count = slices.len();
    slicer::lemma_contiguous_covers(slices, 0, sample_count, 0);
    assert(slices_ordered(slices)) by {
        assert forall|i: int| 0 <= i < slices.len() implies 0 <= (#[trigger] slices[i]).start
            < slices[i].end by {
            if i > 0 {
                assert(slices[0].end <= slices[i].start);
                assert(slices[0].start < slices[0].end);
            }
        }
    }
    lemma_recording_covered(slices, count, sample_rate, sizes, sample);
    let list = jobs(slices, count, sample_rate, sizes);
    if converted_by(list, sample) {
        let k = choose|k: int| 0 <= k < list.len() && converts(#[trigger] list[k], sample);
        assert(list[k] is Chunk);
        assert(slices.last() == slices[count - 1]);
    }
    if 0 <= sample < sample_count {
        slicer::lemma_contiguous_covers(slices, 0, sample_count, sample);
        let i = choose|i: int|
            0 <= i < slices.len() && (#[trigger] slices[i]).start <= sample < slices[i].end;
        if slices[i].silent {
            assert(in_silence(slices, sample));
            if converted_by(list, sample) {
                let j = choose|j: int|
                    0 <= j < count && !(#[trigger] slices[j]).silent && slices[j].start <= sample
                        < slices[j].end;
                if i < j {
                    assert(slices[i].end <= slices[j].start);
                } else {
                    assert(slices[j].end <= slices[i].start);
                }
            }
        } else {
            assert(converted_by(list, sample));
            if in_silence(slices, sample) {
                let j = choose|j: int|
                    0 <= j < slices.len() && (#[trigger] slices[j]).silent && slices[j].start
                        <= sample < slices[j].end;
                if i < j {
                    assert(slices[i].end <= slices[j].start);
                } else {
                    assert(slices[j].end <= slices[i].start);
                }
            }
        }
    }
}

/// The pieces of a slice cover it: the first starts where it starts, the last
/// ends where it ends, and each one starts as much before the end of the one
/// before as they share. None is empty.
pub proof fn lemma_pieces_cover(length: int, clip: int, overlap: int, index: int)
    requires
        length > 0,
        clip >= 0,
        0 <= overlap,
        clip != 0 ==> overlap <= clip,
        0 <= index < piece_count(length, clip),
    ensures
        ({
            let count = piece_count(length, clip);
            let (start, end) = piece_at(length, clip, overlap, index);
            &&& 0 <= start < end <= length
            &&& index == 0 ==> start == 0
            &&& index == count - 1 ==> end == length
            &&& index > 0 ==> start + overlap == piece_at(length, clip, overlap, index - 1).1
            &&& clip > 0 ==> end - start <= clip + overlap
        }),
{
    if clip > 0 {
        lemma_piece(length, clip, overlap, index);
        lemma_piece(length, clip, overlap, index + 1);
        if index > 0 {
            lemma_piece(length, clip, overlap, index - 1);
            assert((index - 1 + 1) * clip == index * clip);
        } else {
            assert(0 * clip == 0);
        }
    }
}

/// The chunks of a sounding slice lie in it and cover it, at the places that
/// its samples have in the recording: the first one starts where the slice
/// starts, the last one ends where it ends, and each one starts as much before
/// the end of the one before as they share. So every sample of the slice is in
/// a chunk. Each chunk is owed the samples that its duration takes at the rate
/// of the model, and at most one more.
pub proof fn lemma_slice_covered(
    slice: AudioSlice,
    sample_rate: int,
    sizes: SliceSizes,
    sample: int,
)
    requires
        !slice.silent,
        0 <= slice.start < slice.end,
        sample_rate > 0,
        sizes.clip_size >= 0,
        sizes.overlap_size >= 0,
        sizes.clip_size != 0 ==> sizes.overlap_size <= sizes.clip_size,
    ensures
        ({
            let list = slice_jobs(slice, sample_rate, sizes);
            &&& list.len() >= 1
            &&& list[0]->start == slice.start
            &&& list.last()->end == slice.end
            &&& sizes.clip_size == 0 ==> list.len() == 1
            &&& forall|k: int|
                0 <= k < list.len() ==> {
                    &&& (#[trigger] list[k]) is Chunk
                    &&& slice.start <= list[k]->start < list[k]->end <= slice.end
                    &&& list[k]->continues <==> k > 0
                    &&& sizes.clip_size > 0 ==> list[k]->end - list[k]->start <= sizes.clip_size
                        + sizes.overlap_size
                    &&& owed(list[k]->end - list[k]->start, sample_rate, list[k]->expected_length)
                }
            &&& forall|k: int, next: int|
                0 <= k && next == k + 1 && next < list.len() ==> (#[trigger] list[next])->start
                    + sizes.overlap_size == (#[trigger] list[k])->end && list[k]->end
                    < list[next]->end
            &&& slice.start <= sample < slice.end ==> exists|k: int|
                0 <= k < list.len() && (#[trigger] list[k])->start <= sample < list[k]->end
        }),
{
    let list = slice_jobs(slice, sample_rate, sizes);
    let length = slice.end - slice.start;
    let clip = sizes.clip_size as int;
    let overlap = sizes.overlap_size as int;
    if clip > 0 {
        lemma_piece(length, clip, overlap, 0);
        assert(0 * clip == 0);
    }
    assert(list.len() == piece_count(length, clip));
    assert forall|k: int| 0 <= k < list.len() implies {
        &&& (#[trigger] list[k]) is Chunk
        &&& slice.start <= list[k]->start < list[k]->end <= slice.end
        &&& list[k]->continues <==> k > 0
        &&& clip > 0 ==> list[k]->end - list[k]->start <= clip + overlap
        &&& owed(list[k]->end - list[k]->start, sample_rate, list[k]->expected_length)
        &&& list[k]->start == slice.start + piece_at(length, clip, overlap, k).0
        &&& list[k]->end == slice.start + piece_at(length, clip, overlap, k).1
    } by {
        lemma_pieces_cover(length, clip, overlap, k);
        let (start, end) = piece_at(length, clip, overlap, k);
        lemma_owed((end - start) as nat, sample_rate as nat);
    }
    lemma_pieces_cover(length, clip, overlap, 0);
    lemma_pieces_cover(length, clip, overlap, list.len() - 1);
    assert forall|k: int, next: int| 0 <= k && next == k + 1 && next < list.len() implies (
    #[trigger] list[next])->start + overlap == (#[trigger] list[k])->end && list[k]->end
        < list[next]->end by {
        lemma_pieces_cover(length, clip, overlap, next);
        lemma_piece(length, clip, overlap, k);
        lemma_piece(length, clip, overlap, next);
        assert(list[next]->start == slice.start + piece_at(length, clip, overlap, next).0);
        assert(list[k]->end == slice.start + piece_at(length, clip, overlap, k).1);
    }
    if slice.start <= sample < slice.end {
        let place = sample - slice.start;
        if clip == 0 {
            assert(list[0]->start <= sample < list[0]->end);
        } else {
            let k = place / clip;
            lemma_fundamental_div_mod(place, clip);
            lemma_mod_bound(place, clip);
            assert(k >= 0 && k * clip <= place < k * clip + clip) by (nonlinear_arith)
                requires
                    place == clip * k + place % clip,
                    0 <= place % clip < clip,
                    place >= 0,
                    clip > 0,
            ;
            lemma_piece(length, clip, overlap, k);
            assert(list[k]->start == slice.start + piece_at(length, clip, overlap, k).0);
            assert(list[k]->start <= sample < list[k]->end);
        }
    }
}

/// Whether a number of samples at the rate of the model is what the duration
/// of some samples takes, rounded up, or one more.
pub open spec fn owed(length: int, sample_rate: int, expected: i32) -> bool {
    length * 44100 < (i32::MAX - 1) * sample_rate ==> {
        &&& expected * sample_rate >= length * 44100
        &&& (expected - 2) * sample_rate < length * 44100
    }
}

/// See [`owed`].
proof fn lemma_owed(length: nat, sample_rate: nat)
    requires
        length <= i32::MAX,
        sample_rate > 0,
    ensures
        owed(
            length as int,
            sample_rate as int,
            lengths::converted(length, sample_rate, SAMPLE_RATE as nat) as i32,
        ),
{
    let total = (length * 44100) as int;
    let rate = sample_rate as int;
    if total < (i32::MAX - 1) * rate {
        let exact = (total + rate - 1) / rate;
        lemma_fundamental_div_mod(total + rate - 1, rate);
        lemma_mod_bound(total + rate - 1, rate);
        assert(0 <= exact < i32::MAX && (exact - 1) * rate < total && total <= exact * rate)
            by (nonlinear_arith)
            requires
                total + rate - 1 == rate * exact + (total + rate - 1) % rate,
                0 <= (total + rate - 1) % rate < rate,
                total < (i32::MAX - 1) * rate,
                total >= 0,
                rate > 0,
        ;
        lengths::lemma_converted(length, sample_rate, SAMPLE_RATE as nat, exact as nat);
        let given = lengths::converted(length, sample_rate, SAMPLE_RATE as nat);
        assert(given * rate >= total && (given - 2) * rate < total) by (nonlinear_arith)
            requires
                exact <= given <= exact + 1,
                (exact - 1) * rate < total,
                total <= exact * rate,
                rate > 0,
        ;
    }
}

/// Whether slices follow one another.
pub open spec fn slices_ordered(slices: Seq<AudioSlice>) -> bool {
    &&& forall|i: int|
        0 <= i < slices.len() ==> 0 <= (#[trigger] slices[i]).start < slices[i].end
    &&& forall|i: int, j: int|
        0 <= i < j < slices.len() ==> (#[trigger] slices[i]).end <= (#[trigger] slices[j]).start
}

/// Whether a job converts a sample of the recording.
pub open spec fn converts(job: Job, sample: int) -> bool {
    job matches Job::Chunk { start, end, .. } && start <= sample < end
}

/// The work covers the recording: every sample of a sounding slice is in some
/// chunk, every chunk lies in a sounding slice, and the chunks come in the
/// order of the recording.
pub proof fn lemma_recording_covered(
    slices: Seq<AudioSlice>,
    count: nat,
    sample_rate: int,
    sizes: SliceSizes,
    sample: int,
)
    requires
        count <= slices.len(),
        slices_ordered(slices),
        sample_rate > 0,
        sizes.clip_size >= 0,
        sizes.overlap_size >= 0,
        sizes.clip_size != 0 ==> sizes.overlap_size <= sizes.clip_size,
    ensures
        ({
            let list = jobs(slices, count, sample_rate, sizes);
            &&& (exists|i: int|
                0 <= i < count && !(#[trigger] slices[i]).silent && slices[i].start <= sample
                    < slices[i].end) <==> (exists|k: int|
                0 <= k < list.len() && converts(#[trigger] list[k], sample))
            &&& forall|k: int|
                0 <= k < list.len() && (#[trigger] list[k]) is Chunk ==> 0 <= list[k]->start
                    < list[k]->end && count > 0 && list[k]->end <= slices[count - 1].end && owed(
                    list[k]->end - list[k]->start,
                    sample_rate,
                    list[k]->expected_length,
                )
            &&& forall|k: int, later: int|
                0 <= k < later < list.len() && (#[trigger] list[k]) is Chunk && (
                #[trigger] list[later]) is Chunk ==> list[k]->end < list[later]->end
        }),
    decreases count,
{
    let list = jobs(slices, count, sample_rate, sizes);
    if count > 0 {
        let last = count - 1;
        let before = jobs(slices, last as nat, sample_rate, sizes);
        let slice = slices[last];
        let own = slice_jobs(slice, sample_rate, sizes);
        lemma_recording_covered(slices, last as nat, sample_rate, sizes, sample);
        if !slice.silent {
            lemma_slice_covered(slice, sample_rate, sizes, sample);
            lemma_ends_rise(slice, sample_rate, sizes);
        }
        assert(list == before + own);
        assert forall|k: int| 0 <= k < list.len() implies #[trigger] list[k] == if k < before.len() {
            before[k]
        } else {
            own[k - before.len()]
        } by {
        }
        if exists|i: int|
            0 <= i < count && !(#[trigger] slices[i]).silent && slices[i].start <= sample
                < slices[i].end {
            let i = choose|i: int|
                0 <= i < count && !(#[trigger] slices[i]).silent && slices[i].start <= sample
                    < slices[i].end;
            if i < last {
                let k = choose|k: int|
                    0 <= k < before.len() && converts(#[trigger] before[k], sample);
                assert(converts(list[k], sample));
            } else {
                let k = choose|k: int|
                    0 <= k < own.len() && (#[trigger] own[k])->start <= sample < own[k]->end;
                assert(own[k] is Chunk);
                assert(list[before.len() + k] == own[k]);
                assert(converts(list[before.len() + k], sample));
            }
        }
        if exists|k: int| 0 <= k < list.len() && converts(#[trigger] list[k], sample) {
            let k = choose|k: int| 0 <= k < list.len() && converts(#[trigger] list[k], sample);
            if k < before.len() {
                assert(converts(before[k], sample));
                let i = choose|i: int|
                    0 <= i < last && !(#[trigger] slices[i]).silent && slices[i].start <= sample
                        < slices[i].end;
                assert(!slices[i].silent);
            } else {
                assert(own[k - before.len()] is Chunk);
                assert(!slices[last].silent);
            }
        }
        assert forall|k: int| 0 <= k < list.len() && (#[trigger] list[k]) is Chunk implies 0
            <= list[k]->start < list[k]->end && list[k]->end <= slice.end && owed(
            list[k]->end - list[k]->start,
            sample_rate,
            list[k]->expected_length,
        ) && (k < before.len() ==> list[k]->end <= slice.start) by {
            if k < before.len() {
                assert(before[k] is Chunk);
                assert(slices[last - 1].end <= slices[last].start);
            } else {
                assert(own[k - before.len()] is Chunk);
            }
        }
        assert forall|k: int, later: int|
            0 <= k < later < list.len() && (#[trigger] list[k]) is Chunk && (
            #[trigger] list[later]) is Chunk implies list[k]->end < list[later]->end by {
            if later < before.len() {
                assert(before[k] is Chunk && before[later] is Chunk);
            } else if k < before.len() {
                assert(own[later - before.len()] is Chunk);
            } else {
                assert(own[k - before.len()]->end < own[later - before.len()]->end);
            }
        }
    }
}

/// The chunks of a slice end one after the other.
proof fn lemma_ends_rise(slice: AudioSlice, sample_rate: int, sizes: SliceSizes)
    requires
        !slice.silent,
        0 <= slice.start < slice.end,
        sample_rate > 0,
        sizes.clip_size >= 0,
        sizes.overlap_size >= 0,
        sizes.clip_size != 0 ==> sizes.overlap_size <= sizes.clip_size,
    ensures
        forall|k: int, later: int|
            0 <= k < later < slice_jobs(slice, sample_rate, sizes).len() ==> (#[trigger] slice_jobs(
                slice,
                sample_rate,
                sizes,
            )[k])->end < (#[trigger] slice_jobs(slice, sample_rate, sizes)[later])->end,
{
    let list = slice_jobs(slice, sample_rate, sizes);
    assert forall|k: int, later: int| 0 <= k < later < list.len() implies (
    #[trigger] list[k])->end < (#[trigger] list[later])->end by {
        lemma_ends_rise_between(slice, sample_rate, sizes, k, later);
    }
}

proof fn lemma_ends_rise_between(
    slice: AudioSlice,
    sample_rate: int,
    sizes: SliceSizes,
    k: int,
    later: int,
)
    requires
        !slice.silent,
        0 <= slice.start < slice.end,
        sample_rate > 0,
        sizes.clip_size >= 0,
        sizes.overlap_size >= 0,
        sizes.clip_size != 0 ==> sizes.overlap_size <= sizes.clip_size,
        0 <= k < later < slice_jobs(slice, sample_rate, sizes).len(),
    ensures
        slice_jobs(slice, sample_rate, sizes)[k]->end < slice_jobs(
            slice,
            sample_rate,
            sizes,
        )[later]->end,
    decreases later - k,
{
    let list = slice_jobs(slice, sample_rate, sizes);
    lemma_slice_covered(slice, sample_rate, sizes, 0);
    assert(list[later - 1]->end < list[later]->end);
    if k < later - 1 {
        lemma_ends_rise_between(slice, sample_rate, sizes, k, later - 1);
    }
}

/// A silent slice is one stretch of silence, as long as its duration takes at
/// the rate of the model, or one sample longer.
pub proof fn lemma_silence_length(slice: AudioSlice, sample_rate: int, sizes: SliceSizes)
    requires
        slice.silent,
        0 <= slice.start <= slice.end,
        sample_rate > 0,
    ensures
        ({
            let list = slice_jobs(slice, sample_rate, sizes);
            &&& list.len() == 1
            &&& list[0] matches Job::Silence { length } && owed(
                slice.end - slice.start,
                sample_rate,
                length,
            )
        }),
{
    lemma_owed((slice.end - slice.start) as nat, sample_rate as nat);
}

/// A chunk that goes on from the one before follows a chunk.
pub proof fn lemma_continuations(
    slices: Seq<AudioSlice>,
    count: nat,
    sample_rate: int,
    sizes: SliceSizes,
    place: int,
)
    requires
        count <= slices.len(),
        0 <= place < jobs(slices, count, sample_rate, sizes).len(),
    ensures
        ({
            let list = jobs(slices, count, sample_rate, sizes);
            list[place] matches Job::Chunk { continues, .. } && continues ==> place > 0
                && list[place - 1] is Chunk
        }),
    decreases count,
{
    if count > 0 {
        let before = jobs(slices, (count - 1) as nat, sample_rate, sizes);
        if place < before.len() {
            lemma_continuations(slices, (count - 1) as nat, sample_rate, sizes, place);
        }
    }
}

/// How the samples of a converted chunk are brought to length: the padding is
/// cut off, and zeros are added where samples are missing.
#[derive(Clone, Copy, Debug, PartialEq, Eq, Structural)]
pub struct Fitting {
    pub kept: Span,
    /// Zeros before what is kept.
    pub left: i32,
    /// Zeros after what is kept.
    pub right: i32,
    pub length: i32,
}

/// How a chunk is joined to the output.
#[derive(Clone, Copy, Debug, PartialEq, Eq, Structural)]
pub enum Joint {
    /// It starts the output.
    First,
    /// It follows the output.
    Append,
    /// The end of the output is mixed with the start of the chunk.
    Crossfade {
        /// The samples of the output that stay as they are.
        previous_keep: i32,
        previous_mix: Span,
        current_mix: Span,
        /// Where the samples of the chunk start that stay as they are.
        current_keep: i32,
        /// The number of steps from the one to the other.
        weights: i32,
    },
}

/// What is kept of a converted chunk. Without padding nothing is.
pub open spec fn unpadded(inferred: int, padding: int) -> Option<Span> {
    if padding == 0 {
        Some(Span { start: 0, end: 0 })
    } else if inferred >= padding * 2 {
        Some(Span { start: padding as i32, end: (inferred - padding) as i32 })
    } else {
        None
    }
}

/// See [`Fitting`].
pub open spec fn fitted(kept: Span, expected: int) -> Fitting {
    let length = kept.end - kept.start;
    if length < expected {
        Fitting {
            kept,
            left: ((expected - length) / 2) as i32,
            right: (expected - length - (expected - length) / 2) as i32,
            length: expected as i32,
        }
    } else {
        Fitting { kept, left: 0, right: 0, length: length as i32 }
    }
}

/// Whether both sides have the samples that a crossfade takes.
pub open spec fn crossfades(previous: int, current: int, sizes: SliceSizes) -> bool {
    &&& previous >= sizes.overlap_mix_size + sizes.overlap_right_trim
    &&& current >= sizes.overlap_left_trim + sizes.overlap_mix_size
}

/// See [`Joint::Crossfade`].
pub open spec fn crossfade(previous: int, sizes: SliceSizes) -> Joint {
    if sizes.mixes_all {
        Joint::Crossfade {
            previous_keep: (previous - sizes.overlap_size) as i32,
            previous_mix: Span {
                start: (previous - sizes.overlap_size) as i32,
                end: previous as i32,
            },
            current_mix: Span { start: 0, end: sizes.overlap_size },
            current_keep: sizes.overlap_size,
            weights: sizes.overlap_mix_size,
        }
    } else {
        Joint::Crossfade {
            previous_keep: (previous - sizes.overlap_mix_size - sizes.overlap_right_trim) as i32,
            previous_mix: Span {
                start: (previous - sizes.overlap_mix_size - sizes.overlap_right_trim) as i32,
                end: (previous - sizes.overlap_right_trim) as i32,
            },
            current_mix: Span {
                start: sizes.overlap_left_trim,
                end: (sizes.overlap_left_trim + sizes.overlap_mix_size) as i32,
            },
            current_keep: (sizes.overlap_left_trim + sizes.overlap_mix_size) as i32,
            weights: sizes.overlap_mix_size,
        }
    }
}

/// How a chunk is joined to an output of some length.
pub open spec fn joint_with(length: Option<i32>, continues: bool, sizes: SliceSizes) -> Joint {
    match length {
        Some(previous) if sizes.overlap_size != 0 && continues => crossfade(
            previous as int,
            sizes,
        ),
        Some(_) => Joint::Append,
        None => Joint::First,
    }
}

/// Whether the parts of what is shared add up to it.
pub open spec fn sizes_fit(sizes: SliceSizes) -> bool {
    &&& 0 <= sizes.overlap_mix_size <= sizes.overlap_size
    &&& 0 <= sizes.overlap_left_trim
    &&& 0 <= sizes.overlap_right_trim
    &&& sizes.overlap_left_trim + sizes.overlap_mix_size + sizes.overlap_right_trim
        == sizes.overlap_size
    &&& sizes.mixes_all ==> sizes.overlap_mix_size == sizes.overlap_size
    &&& 0 <= sizes.target_padding
}

/// Puts the output of a conversion in slices together.
#[derive(Clone, Copy, Debug, PartialEq, Eq, Structural)]
pub struct Merger {
    pub sizes: SliceSizes,
    /// The samples of the output, once there are any.
    pub length: Option<i32>,
}

impl Merger {
    /// Starts with no output.
    pub fn new(sizes: SliceSizes) -> (merger: Merger)
        ensures
            merger == (Merger { sizes, length: None }),
    {
        Merger { sizes, length: None }
    }

    /// The samples of the output.
    pub open spec fn count(self) -> int {
        match self.length {
            Some(length) => length as int,
            None => 0,
        }
    }

    /// Puts silence at the end of the output.
    pub fn silence(&mut self, length: i32) -> (joint: Joint)
        requires
            0 <= length,
            0 <= old(self).count(),
            old(self).count() + length <= i32::MAX,
        ensures
            final(self).sizes == old(self).sizes,
            final(self).length == Some((old(self).count() + length) as i32),
            output_with(old(self).count(), Job::Silence { length }, 0, old(self).sizes) == Some(
                final(self).count(),
            ),
            joint == if old(self).length is None {
                Joint::First
            } else {
                Joint::Append
            },
    {
        match self.length {
            None => {
                self.length = Some(length);
                Joint::First
            },
            Some(previous) => {
                self.length = Some(previous + length);
                Joint::Append
            },
        }
    }

    /// Joins a chunk to the output, given how many samples came of it.
    pub fn chunk(&mut self, inferred_length: i32, expected_length: i32, continues: bool) -> (result:
        Result<(Fitting, Joint), InferenceError>)
        requires
            sizes_fit(old(self).sizes),
            0 <= inferred_length,
            0 <= expected_length,
            0 <= old(self).count(),
            old(self).count() + inferred_length <= i32::MAX,
            old(self).count() + expected_length <= i32::MAX,
            continues && old(self).sizes.overlap_size != 0 ==> old(self).length is Some,
        ensures
            final(self).sizes == old(self).sizes,
            forall|start: i32, end: i32| #[trigger]
                output_with(
                    old(self).count(),
                    (Job::Chunk { start, end, expected_length, continues }),
                    inferred_length as int,
                    old(self).sizes,
                ) == if result is Ok {
                    Some(final(self).count())
                } else {
                    None
                },
            ({
                let sizes = old(self).sizes;
                let kept = unpadded(inferred_length as int, sizes.target_padding as int);
                match result {
                    Err(InferenceError::ChunkPadding) => kept is None && final(self).length
                        == old(self).length,
                    Err(error) => {
                        &&& error == InferenceError::ChunkCrossfade
                        &&& kept is Some
                        &&& sizes.overlap_size != 0 && continues
                        &&& !crossfades(
                            old(self).count(),
                            fitted(kept->0, expected_length as int).length as int,
                            sizes,
                        )
                        &&& final(self).length == old(self).length
                    },
                    Ok((fitting, joint)) => {
                        &&& kept is Some
                        &&& fitting == fitted(kept->0, expected_length as int)
                        &&& fitting.length >= expected_length
                        &&& joint == joint_with(old(self).length, continues, sizes)
                        &&& if sizes.overlap_size != 0 && continues {
                            &&& crossfades(old(self).count(), fitting.length as int, sizes)
                            &&& final(self).length == Some(
                                (old(self).count() + fitting.length - sizes.overlap_size) as i32,
                            )
                        } else {
                            final(self).length == Some(
                                (old(self).count() + fitting.length) as i32,
                            )
                        }
                    },
                }
            }),
    {
        let sizes = self.sizes;
        let padding = sizes.target_padding;
        let kept = if padding == 0 {
            Span { start: 0, end: 0 }
        } else {
            if (inferred_length as i64) < padding as i64 * 2 {
                return Err(InferenceError::ChunkPadding);
            }
            Span { start: padding, end: inferred_length - padding }
        };
        let kept_length: i32 = kept.end - kept.start;
        let fitting = if kept_length < expected_length {
            let difference: i32 = expected_length - kept_length;
            let left: i32 = difference / 2;
            Fitting { kept, left, right: difference - left, length: expected_length }
        } else {
            Fitting { kept, left: 0, right: 0, length: kept_length }
        };
        if sizes.overlap_size != 0 && continues {
            let previous: i32 = match self.length {
                Some(length) => length,
                None => 0,
            };
            if !(previous >= sizes.overlap_mix_size + sizes.overlap_right_trim && fitting.length
                >= sizes.overlap_left_trim + sizes.overlap_mix_size) {
                return Err(InferenceError::ChunkCrossfade);
            }
            let joint = if sizes.mixes_all {
                Joint::Crossfade {
                    previous_keep: previous - sizes.overlap_size,
                    previous_mix: Span { start: previous - sizes.overlap_size, end: previous },
                    current_mix: Span { start: 0, end: sizes.overlap_size },
                    current_keep: sizes.overlap_size,
                    weights: sizes.overlap_mix_size,
                }
            } else {
                let keep: i32 = previous - sizes.overlap_mix_size - sizes.overlap_right_trim;
                let skip: i32 = sizes.overlap_left_trim + sizes.overlap_mix_size;
                Joint::Crossfade {
                    previous_keep: keep,
                    previous_mix: Span { start: keep, end: previous - sizes.overlap_right_trim },
                    current_mix: Span { start: sizes.overlap_left_trim, end: skip },
                    current_keep: skip,
                    weights: sizes.overlap_mix_size,
                }
            };
            self.length = Some(previous - sizes.overlap_size + fitting.length);
            return Ok((fitting, joint));
        }
        match self.length {
            None => {
                self.length = Some(fitting.length);
                Ok((fitting, Joint::First))
            },
            Some(previous) => {
                self.length = Some(previous + fitting.length);
                Ok((fitting, Joint::Append))
            },
        }
    }

    /// The number of samples of the output.
    pub fn finish(&self) -> (result: Result<i32, InferenceError>)
        ensures
            match result {
                Ok(length) => self.length == Some(length),
                Err(error) => self.length is None && error == InferenceError::NoOutput,
            },
    {
        match self.length {
            Some(length) => Ok(length),
            None => Err(InferenceError::NoOutput),
        }
    }
}

/// A crossfade mixes equally many samples of both sides, one for each weight,
/// and the output grows by what the chunk has beyond what it shares.
pub proof fn lemma_crossfade(previous: int, current: int, sizes: SliceSizes)
    requires
        sizes_fit(sizes),
        crossfades(previous, current, sizes),
        0 <= previous <= i32::MAX,
        0 <= current <= i32::MAX,
    ensures
        crossfade(previous, sizes) matches Joint::Crossfade {
            previous_keep,
            previous_mix,
            current_mix,
            current_keep,
            weights,
        } && {
            &&& 0 <= previous_keep == previous_mix.start <= previous_mix.end <= previous
            &&& 0 <= current_mix.start <= current_mix.end == current_keep <= current
            &&& previous_mix.end - previous_mix.start == weights
            &&& current_mix.end - current_mix.start == weights
            &&& previous_keep + weights + (current - current_keep) == previous + current
                - sizes.overlap_size
            &&& current_mix.start == previous_mix.start - (previous - sizes.overlap_size)
            &&& current_mix.start == sizes.overlap_left_trim
            &&& previous - previous_mix.end == sizes.overlap_right_trim
            &&& weights == sizes.overlap_mix_size
        },
{
}

/// What becomes of a converted chunk: its padding is taken off on both sides,
/// without padding nothing of it is kept, a shorter one is centred between zeros,
/// and it is mixed with the output only where it goes on from another chunk.
/// It is refused exactly where it is too short for its padding, or one side
/// of a crossfade is too short.
pub proof fn lemma_joined(
    previous: Option<i32>,
    start: i32,
    end: i32,
    inferred: int,
    expected: i32,
    continues: bool,
    sizes: SliceSizes,
)
    requires
        sizes_fit(sizes),
        0 <= inferred <= i32::MAX,
        0 <= expected,
        previous matches Some(length) ==> length >= 0,
        continues && sizes.overlap_size != 0 ==> previous is Some,
    ensures
        ({
            let padding = sizes.target_padding;
            let before = match previous {
                Some(length) => length as int,
                None => 0,
            };
            let middle = if padding == 0 {
                0
            } else {
                inferred - padding - padding
            };
            let length = if middle < expected {
                expected as int
            } else {
                middle
            };
            let mixed = continues && sizes.overlap_size > 0;
            let after = output_with(
                before,
                Job::Chunk { start, end, expected_length: expected, continues },
                inferred,
                sizes,
            );
            &&& unpadded(inferred, padding as int) is None <==> padding > 0 && inferred < padding
                + padding
            &&& unpadded(inferred, padding as int) matches Some(kept) ==> {
                &&& kept.start == padding
                &&& kept.end - kept.start == middle
                &&& fitted(kept, expected as int).kept == kept
                &&& fitted(kept, expected as int).length == length
            }
            &&& after is None <==> middle < 0 || mixed && (before + sizes.overlap_left_trim
                < sizes.overlap_size || length + sizes.overlap_right_trim < sizes.overlap_size)
            &&& after matches Some(count) ==> count == before + length - (if mixed {
                sizes.overlap_size as int
            } else {
                0
            })
            &&& joint_with(previous, continues, sizes) is First <==> previous is None
            &&& joint_with(previous, continues, sizes) is Crossfade <==> mixed
            &&& mixed ==> joint_with(previous, continues, sizes) == crossfade(before, sizes)
        }),
{
}

/// A chunk of at least as many samples as are expected is cut on both sides by
/// its padding only, and a shorter one is centred between zeros.
pub proof fn lemma_fitted(kept: Span, expected: int)
    requires
        0 <= kept.start <= kept.end,
        0 <= expected <= i32::MAX,
    ensures
        ({
            let fitting = fitted(kept, expected);
            &&& fitting.length >= expected
            &&& fitting.length == vstd::math::max(expected, kept.end - kept.start)
            &&& fitting.kept == kept
            &&& fitting.left + (kept.end - kept.start) + fitting.right == fitting.length
            &&& 0 <= fitting.left <= fitting.right <= fitting.left + 1
        }),
{
}

impl SliceSizes {
    /// Whether the parts of what is shared add up to it, see [`sizes_fit`].
    pub fn fit(&self) -> (result: bool)
        ensures
            result == sizes_fit(*self),
    {
        0 <= self.overlap_mix_size && self.overlap_mix_size <= self.overlap_size && 0
            <= self.overlap_left_trim && 0 <= self.overlap_right_trim
            && self.overlap_left_trim as i64 + self.overlap_mix_size as i64
            + self.overlap_right_trim as i64 == self.overlap_size as i64 && (!self.mixes_all
            || self.overlap_mix_size == self.overlap_size) && 0 <= self.target_padding
    }
}

/// The parts of what is shared add up to it, up to a crossfade of 2^24
/// samples.
pub proof fn lemma_sizes_fit(
    shape: Seq<i32>,
    sample_rate: i32,
    gain_db: i32,
    options: SliceInferenceOptions,
)
    requires
        slicing_fault(shape, sample_rate, gain_db, options) is None,
        options.crossfade_seconds.times(sample_rate as nat) <= 0x100_0000,
    ensures
        sizes_fit(slice_sizes(sample_rate as int, options)),
{
    options.crossfade_seconds.lemma_times_nonnegative(sample_rate as nat);
    options.padding_seconds.lemma_times_nonnegative(sample_rate as nat);
    options.padding_seconds.lemma_times_nonnegative(SAMPLE_RATE as nat);
    options.crossfade_ratio.lemma_times_share(
        options.crossfade_seconds.times(sample_rate as nat) as nat,
    );
}

/// The samples of the output after a job, given how many samples came of a
/// chunk; nothing where the chunk is refused.
pub open spec fn output_with(previous: int, job: Job, inferred: int, sizes: SliceSizes) -> Option<
    int,
> {
    match job {
        Job::Silence { length } => Some(previous + length),
        Job::Chunk { expected_length, continues, .. } => match unpadded(
            inferred,
            sizes.target_padding as int,
        ) {
            None => None,
            Some(kept) => {
                let length = fitted(kept, expected_length as int).length;
                if sizes.overlap_size != 0 && continues {
                    if crossfades(previous, length as int, sizes) {
                        Some(previous + length - sizes.overlap_size)
                    } else {
                        None
                    }
                } else {
                    Some(previous + length)
                }
            },
        },
    }
}

/// The samples of the output after the first `count` jobs.
pub open spec fn output_after(
    list: Seq<Job>,
    inferred: Seq<int>,
    sizes: SliceSizes,
    count: nat,
) -> Option<int>
    decreases count,
{
    if count == 0 {
        Some(0)
    } else {
        match output_after(list, inferred, sizes, (count - 1) as nat) {
            None => None,
            Some(previous) => output_with(
                previous,
                list[count - 1],
                inferred[count - 1],
                sizes,
            ),
        }
    }
}

/// Without a limit on the length of a piece there is no crossfade: two requests
/// that differ only in the crossfade list the same work, no chunk goes on from
/// another, and every chunk is brought to length and joined in the same way.
pub proof fn lemma_no_limit(
    slices: Seq<AudioSlice>,
    count: nat,
    sample_rate: i32,
    first: SliceInferenceOptions,
    second: SliceInferenceOptions,
    inferred: Seq<int>,
)
    requires
        sample_rate > 0,
        first.clip_seconds.equals(Single { bits: 0 }),
        second == (SliceInferenceOptions {
            crossfade_seconds: second.crossfade_seconds,
            crossfade_ratio: second.crossfade_ratio,
            ..first
        }),
        count <= slices.len(),
    ensures
        ({
            let one = slice_sizes(sample_rate as int, first);
            let other = slice_sizes(sample_rate as int, second);
            let list = jobs(slices, count, sample_rate as int, one);
            &&& one.clip_size == 0 && other.clip_size == 0
            &&& one.source_padding == other.source_padding
            &&& one.target_padding == other.target_padding
            &&& jobs(slices, count, sample_rate as int, other) == list
            &&& forall|i: int|
                0 <= i < list.len() ==> ((#[trigger] list[i]) matches Job::Chunk {
                    continues,
                    ..
                } ==> !continues)
            &&& forall|length: Option<i32>| #[trigger]
                joint_with(length, false, one) == joint_with(length, false, other)
            &&& output_after(list, inferred, one, list.len()) == output_after(
                list,
                inferred,
                other,
                list.len(),
            )
        }),
{
    first.clip_seconds.lemma_times_zero(sample_rate as nat);
    let one = slice_sizes(sample_rate as int, first);
    let other = slice_sizes(sample_rate as int, second);
    lemma_same_jobs(slices, count, sample_rate as int, one, other);
    let list = jobs(slices, count, sample_rate as int, one);
    lemma_same_output(list, inferred, one, other, list.len());
}

/// The half of [`lemma_no_limit`] that speaks of the work.
proof fn lemma_same_jobs(
    slices: Seq<AudioSlice>,
    count: nat,
    sample_rate: int,
    one: SliceSizes,
    other: SliceSizes,
)
    requires
        one.clip_size == 0,
        other.clip_size == 0,
        count <= slices.len(),
    ensures
        jobs(slices, count, sample_rate, one) == jobs(slices, count, sample_rate, other),
        forall|i: int|
            0 <= i < jobs(slices, count, sample_rate, one).len() ==> ((#[trigger] jobs(
                slices,
                count,
                sample_rate,
                one,
            )[i]) matches Job::Chunk { continues, .. } ==> !continues),
    decreases count,
{
    if count > 0 {
        lemma_same_jobs(slices, (count - 1) as nat, sample_rate, one, other);
        let slice = slices[count - 1];
        assert(slice_jobs(slice, sample_rate, one) =~= slice_jobs(slice, sample_rate, other));
        let before = jobs(slices, (count - 1) as nat, sample_rate, one);
        let list = jobs(slices, count, sample_rate, one);
        assert forall|i: int| 0 <= i < list.len() implies ((#[trigger] list[i]) matches Job::Chunk {
            continues,
            ..
        } ==> !continues) by {
            if i < before.len() {
                assert(list[i] == before[i]);
            } else {
                assert(list[i] == slice_jobs(slice, sample_rate, one)[i - before.len()]);
            }
        }
    }
}

/// The half of [`lemma_no_limit`] that speaks of the output.
proof fn lemma_same_output(
    list: Seq<Job>,
    inferred: Seq<int>,
    one: SliceSizes,
    other: SliceSizes,
    count: nat,
)
    requires
        one.target_padding == other.target_padding,
        count <= list.len(),
        forall|i: int|
            0 <= i < list.len() ==> ((#[trigger] list[i]) matches Job::Chunk { continues, .. }
                ==> !continues),
    ensures
        output_after(list, inferred, one, count) == output_after(list, inferred, other, count),
    decreases count,
{
    if count > 0 {
        lemma_same_output(list, inferred, one, other, (count - 1) as nat);
        assert(list[count - 1] matches Job::Chunk { continues, .. } ==> !continues);
    }
}

/// What the jobs add to the output at least: their expected samples, less what
/// a chunk that goes on shares with the one before.
pub open spec fn expected_after(list: Seq<Job>, sizes: SliceSizes, count: nat) -> int
    decreases count,
{
    if count == 0 {
        0
    } else {
        expected_after(list, sizes, (count - 1) as nat) + match list[count - 1] {
            Job::Silence { length } => length as int,
            Job::Chunk { expected_length, continues, .. } => expected_length - (if continues {
                sizes.overlap_size as int
            } else {
                0
            }),
        }
    }
}

/// No part of a recording comes out shorter than it should, whatever the model
/// makes of the chunks.
pub proof fn lemma_output_length(
    list: Seq<Job>,
    inferred: Seq<int>,
    sizes: SliceSizes,
    count: nat,
)
    requires
        sizes_fit(sizes),
        count <= list.len() == inferred.len(),
        forall|i: int|
            0 <= i < list.len() ==> 0 <= #[trigger] inferred[i] <= i32::MAX && match list[i] {
                Job::Silence { length } => length >= 0,
                Job::Chunk { expected_length, .. } => expected_length >= 0,
            },
    ensures
        output_after(list, inferred, sizes, count) matches Some(total) ==> total
            >= expected_after(list, sizes, count),
    decreases count,
{
    if count > 0 {
        lemma_output_length(list, inferred, sizes, (count - 1) as nat);
        assert(0 <= inferred[count - 1]);
    }
}

} // verus!
