//! The vocoder that turns a mel spectrogram back into a waveform.

use crate::audio::Span;
use crate::names;
use crate::shapes;
use crate::shapes::{DataType, FrameLayout};
use crate::upsampler;
use crate::upsampler::{Stages, HARMONICS, UPSAMPLE_FACTOR};
use crate::weights::{
    ask, convolution, dense, lemma_all_supplied, lemma_named, lemma_named_part, named, of_layer,
    plain, served, supplied_all, taken, want, wanted, Entry, Failure, Kind, Layer, Request, Table,
    Wanted, Weights, WeightsError,
};
use vstd::prelude::*;
use vstd::string::*;

verus! {

/// The length of the window of a spectrogram frame.
pub const WIN_SIZE: i32 = 2048;

/// The distance between spectrogram frames.
pub const HOP_SIZE: i32 = 512;

/// The bins of a spectrogram frame.
pub const MEL_BINS: i32 = 128;

/// Samples before the waveform.
pub const PAD_LEFT: i32 = 768;

/// What is wrong with the vocoder's inputs.
#[derive(Debug)]
pub enum VocoderError {
    AudioRank,
    AudioType { found: DataType },
    MelShape,
    F0Rank,
    /// The pitch does not go with the spectrogram.
    F0Shape { f0: Vec<i32>, mel: Vec<i32> },
    InitialPhase { shape: Vec<i32> },
    SourceNoise { shape: Vec<i32> },
}

impl VocoderError {
    pub open spec fn text(self) -> Seq<char> {
        match self {
            VocoderError::AudioRank => "audio must have shape [batch, samples]"@,
            VocoderError::AudioType { found } => "audio must use float32, got "@ + found.text(),
            VocoderError::MelShape => "mel must have shape [batch, frames, 128]"@,
            VocoderError::F0Rank => "f0 must have shape [batch, frames]"@,
            VocoderError::F0Shape { f0, mel } => "f0 shape "@ + names::bracketed(f0@)
                + " does not match mel shape "@ + names::bracketed(mel@),
            VocoderError::InitialPhase { shape } => "initial phase has invalid shape "@
                + names::bracketed(shape@),
            VocoderError::SourceNoise { shape } => "source noise has invalid shape "@
                + names::bracketed(shape@),
        }
    }

    /// The message for the user.
    pub fn message(&self) -> (result: String)
        ensures
            result@ == self.text(),
    {
        match self {
            VocoderError::AudioRank => "audio must have shape [batch, samples]".to_owned(),
            VocoderError::AudioType { found } => {
                names::joined("audio must use float32, got ", found.name())
            },
            VocoderError::MelShape => "mel must have shape [batch, frames, 128]".to_owned(),
            VocoderError::F0Rank => "f0 must have shape [batch, frames]".to_owned(),
            VocoderError::F0Shape { f0, mel } => {
                let mut result = "f0 shape ".to_owned();
                names::append_list(&mut result, f0);
                result.append(" does not match mel shape ");
                names::append_list(&mut result, mel);
                result
            },
            VocoderError::InitialPhase { shape } => {
                let mut result = "initial phase has invalid shape ".to_owned();
                names::append_list(&mut result, shape);
                result
            },
            VocoderError::SourceNoise { shape } => {
                let mut result = "source noise has invalid shape ".to_owned();
                names::append_list(&mut result, shape);
                result
            },
        }
    }
}

/// The shapes of the random inputs of the harmonic source.
#[derive(Debug)]
pub struct VocoderSourceInputs {
    pub initial_phase: Vec<i32>,
    pub normal: Vec<i32>,
}

impl VocoderSourceInputs {
    /// The shapes for a number of waveforms of some length.
    pub fn sample(batch: i32, sample_count: i32) -> (result: VocoderSourceInputs)
        ensures
            result.initial_phase@ == seq![batch, HARMONICS],
            result.normal@ == seq![batch, sample_count, HARMONICS],
    {
        let result = VocoderSourceInputs {
            initial_phase: vec![batch, HARMONICS],
            normal: vec![batch, sample_count, HARMONICS],
        };
        assert(result.initial_phase@ =~= seq![batch, HARMONICS]);
        assert(result.normal@ =~= seq![batch, sample_count, HARMONICS]);
        result
    }
}

/// Whether a shape is the given one.
fn shape_is(shape: &Vec<i32>, expected: &[i32]) -> (result: bool)
    ensures
        result == (shape@ == expected@),
{
    if shape.len() != expected.len() {
        return false;
    }
    let mut index: usize = 0;
    while index < shape.len()
        invariant
            index <= shape@.len() == expected@.len(),
            forall|i: int| 0 <= i < index ==> shape@[i] == expected@[i],
        decreases shape@.len() - index,
    {
        if shape[index] != expected[index] {
            return false;
        }
        index = index + 1;
    }
    assert(shape@ =~= expected@);
    true
}

/// A copy of a shape.
fn copy_of(shape: &[i32]) -> (result: Vec<i32>)
    ensures
        result@ == shape@,
{
    vstd::slice::slice_to_vec(shape)
}

/// What the generator makes of its inputs: the length after each stage, or
/// what is wrong with them.
pub open spec fn forwarded(
    mel: Seq<i32>,
    f0: Seq<i32>,
    source: VocoderSourceInputs,
    result: Result<Vec<i32>, VocoderError>,
) -> bool {
    match result {
        Ok(lengths) => {
            &&& mel.len() == 3
            &&& mel[2] == MEL_BINS
            &&& f0 == seq![mel[0], mel[1]]
            &&& source.initial_phase@ == seq![mel[0], HARMONICS]
            &&& source.normal@ == seq![
                mel[0],
                (mel[1] * UPSAMPLE_FACTOR) as i32,
                HARMONICS,
            ]
            &&& lengths@.len() == upsampler::STAGES
            &&& forall|stage: int|
                0 <= stage < upsampler::STAGES ==> #[trigger] lengths@[stage] == mel[1]
                    * upsampler::factor(stage)
        },
        Err(VocoderError::MelShape) => mel.len() != 3 || mel[2] != MEL_BINS,
        Err(VocoderError::F0Shape { f0: given, mel: shape }) => {
            &&& mel.len() == 3
            &&& mel[2] == MEL_BINS
            &&& given@ == f0
            &&& shape@ == mel
            &&& f0 != seq![mel[0], mel[1]]
        },
        Err(VocoderError::InitialPhase { shape }) => {
            &&& mel.len() == 3
            &&& mel[2] == MEL_BINS
            &&& f0 == seq![mel[0], mel[1]]
            &&& shape@ == source.initial_phase@
            &&& shape@ != seq![mel[0], HARMONICS]
        },
        Err(error) => {
            &&& mel.len() == 3
            &&& mel[2] == MEL_BINS
            &&& f0 == seq![mel[0], mel[1]]
            &&& source.initial_phase@ == seq![mel[0], HARMONICS]
            &&& error matches VocoderError::SourceNoise { shape } && shape@
                == source.normal@ && shape@ != seq![
                mel[0],
                (mel[1] * UPSAMPLE_FACTOR) as i32,
                HARMONICS,
            ]
        },
    }
}

/// The requests of the generator.
pub open spec fn vocoder_requests() -> Seq<Wanted> {
    upsampler::stage_requests(""@, 100) + seq![
        want(
            "m_source.l_linear"@,
            Kind::Linear { input_dims: HARMONICS, output_dims: 1, bias: true },
        ),
        want("conv_pre"@, convolution(128, 512, 7, 3)),
        want("conv_post"@, convolution(16, 1, 7, 3)),
    ]
}

/// The generator of waveforms.
#[derive(Debug)]
pub struct VocoderGenerator {
    pub stages: Stages,
    pub source_linear: Layer,
    pub conv_pre: Layer,
    pub conv_post: Layer,
}

impl VocoderGenerator {
    /// Whether the layers are these.
    pub open spec fn holds(self, layers: Seq<Layer>) -> bool {
        &&& self.stages.holds(layers, 0)
        &&& self.source_linear == layers[100]
        &&& self.conv_pre == layers[101]
        &&& self.conv_post == layers[102]
    }

    /// Whether every field holds the tensors that a table keeps under its name.
    pub open spec fn named(self, table: Table) -> bool {
        &&& self.stages.named(table, ""@)
        &&& plain(self.source_linear, table, "m_source.l_linear"@, dense(9, 1))
        &&& plain(self.conv_pre, table, "conv_pre"@, convolution(128, 512, 7, 3))
        &&& plain(self.conv_post, table, "conv_post"@, convolution(16, 1, 7, 3))
    }

    /// Every tensor of the generator goes to the layer that it is named for.
    pub proof fn lemma_tensors(self, table: Table, layers: Seq<Layer>)
        requires
            supplied_all(table, vocoder_requests()).1 == Ok::<Seq<Layer>, Failure>(layers),
            self.holds(layers),
        ensures
            self.named(table),
    {
        let requests = vocoder_requests();
        lemma_named(table, requests);
        let inner = upsampler::stage_requests(""@, 100);
        assert(requests.subrange(0, 100) =~= inner);
        lemma_named_part(layers, 0, table, requests, 0, inner);
        self.stages.lemma_tensors(table, ""@, layers, 0);
        assert(named(layers[100], table, requests[100]));
        assert(named(layers[101], table, requests[101]));
        assert(named(layers[102], table, requests[102]));
    }

    /// Takes the generator's tensors out of a checkpoint.
    pub fn load(weights: &mut Weights) -> (result: Result<VocoderGenerator, WeightsError>)
        requires
            old(weights).valid(),
        ensures
            final(weights).valid(),
            final(weights)@ == supplied_all(old(weights)@, vocoder_requests()).0,
            match result {
                Ok(generator) => supplied_all(old(weights)@, vocoder_requests()).1 matches Ok(
                    layers,
                ) && generator.holds(layers) && served(layers, vocoder_requests())
                    && generator.named(old(weights)@),
                Err(error) => supplied_all(old(weights)@, vocoder_requests()).1 == Err::<
                    Seq<Layer>,
                    Failure,
                >(error@),
            },
    {
        let mut requests: Vec<Request> = Vec::new();
        assert(wanted(requests@) =~= seq![]);
        upsampler::ask_stages(&mut requests, "");
        ask(
            &mut requests,
            "m_source.l_linear".to_owned(),
            Kind::Linear { input_dims: HARMONICS, output_dims: 1, bias: true },
        );
        ask(&mut requests, "conv_pre".to_owned(), convolution(128, 512, 7, 3));
        ask(&mut requests, "conv_post".to_owned(), convolution(16, 1, 7, 3));
        assert(wanted(requests@) =~= vocoder_requests());
        match weights.layers(&requests) {
            Ok(layers) => {
                let generator = VocoderGenerator {
                    stages: Stages::from_layers(&layers, 0),
                    source_linear: layers[100],
                    conv_pre: layers[101],
                    conv_post: layers[102],
                };
                proof {
                    generator.lemma_tensors(old(weights)@, layers@);
                }
                Ok(generator)
            },
            Err(error) => Err(error),
        }
    }

    /// Checks the shapes of the source's inputs: a phase for each harmonic and
    /// noise for each harmonic and sample.
    pub fn harmonic_source(f0: &[i32], source: &VocoderSourceInputs) -> (result: Result<
        (),
        VocoderError,
    >)
        requires
            f0@.len() == 2 ==> 0 <= f0@[1] && f0@[1] * 512 <= i32::MAX,
        ensures
            match result {
                Ok(_) => {
                    &&& f0@.len() == 2
                    &&& source.initial_phase@ == seq![f0@[0], HARMONICS]
                    &&& source.normal@ == seq![f0@[0], (f0@[1] * UPSAMPLE_FACTOR) as i32, HARMONICS]
                },
                Err(VocoderError::F0Rank) => f0@.len() != 2,
                Err(VocoderError::InitialPhase { shape }) => {
                    &&& f0@.len() == 2
                    &&& shape@ == source.initial_phase@
                    &&& shape@ != seq![f0@[0], HARMONICS]
                },
                Err(error) => {
                    &&& f0@.len() == 2
                    &&& source.initial_phase@ == seq![f0@[0], HARMONICS]
                    &&& error matches VocoderError::SourceNoise { shape } && shape@
                        == source.normal@ && shape@ != seq![
                        f0@[0],
                        (f0@[1] * UPSAMPLE_FACTOR) as i32,
                        HARMONICS,
                    ]
                },
            },
    {
        if f0.len() != 2 {
            return Err(VocoderError::F0Rank);
        }
        let phase = [f0[0], HARMONICS];
        assert(phase@ =~= seq![f0@[0], HARMONICS]);
        if !shape_is(&source.initial_phase, &phase) {
            return Err(
                VocoderError::InitialPhase { shape: copy_of(source.initial_phase.as_slice()) },
            );
        }
        let noise = [f0[0], f0[1] * UPSAMPLE_FACTOR, HARMONICS];
        assert(noise@ =~= seq![f0@[0], (f0@[1] * UPSAMPLE_FACTOR) as i32, HARMONICS]);
        if !shape_is(&source.normal, &noise) {
            return Err(VocoderError::SourceNoise { shape: copy_of(source.normal.as_slice()) });
        }
        Ok(())
    }

    /// Checks the inputs and gives the length after each stage.
    pub fn forward_traced(mel: &[i32], f0: &[i32], source: &VocoderSourceInputs) -> (result: Result<
        Vec<i32>,
        VocoderError,
    >)
        requires
            mel@.len() == 3 ==> 0 < mel@[1] && mel@[1] * 512 <= i32::MAX,
        ensures
            forwarded(mel@, f0@, *source, result),
    {
        if mel.len() != 3 || mel[2] != MEL_BINS {
            return Err(VocoderError::MelShape);
        }
        let frames = [mel[0], mel[1]];
        assert(frames@ =~= seq![mel@[0], mel@[1]]);
        let given = copy_of(f0);
        if !shape_is(&given, &frames) {
            return Err(VocoderError::F0Shape { f0: given, mel: copy_of(mel) });
        }
        match Self::harmonic_source(f0, source) {
            Ok(_) => Ok(upsampler::stage_lengths(mel[1])),
            Err(error) => Err(error),
        }
    }
}

/// Takes the tensors of the spectrogram out of a table and looks at their
/// shapes.
pub open spec fn mel_taken(table: Table) -> (Table, Result<(Entry, Entry), Failure>) {
    let (first, basis) = taken(table, "_buffers.mel_basis"@);
    match basis {
        Err(failure) => (first, Err(failure)),
        Ok(basis) => {
            let (second, window) = taken(first, "_buffers.hann_window"@);
            (second, match window {
                Err(failure) => Err(failure),
                Ok(window) => if basis.shape != seq![1025i32, MEL_BINS] {
                    Err(Failure::Shape("mel basis"@, basis.shape))
                } else if window.shape != seq![WIN_SIZE] {
                    Err(Failure::Shape("Hann window"@, window.shape))
                } else {
                    Ok((basis, window))
                },
            })
        },
    }
}

/// Makes mel spectrograms.
#[derive(Clone, Copy, Debug, PartialEq, Eq, Structural)]
pub struct MelSpectrogram {
    /// Where the weights of the mel bins are kept.
    pub mel_basis: usize,
    /// Where the window is kept.
    pub hann_window: usize,
}

/// What stands around a waveform of which a spectrogram is made.
#[derive(Clone, Copy, Debug, PartialEq, Eq, Structural)]
pub enum Surroundings {
    /// These samples, reversed.
    Mirrored { before: Span, after: Span },
    Zeros,
}

/// How a spectrogram is made.
#[derive(Clone, Copy, Debug, PartialEq, Eq, Structural)]
pub struct MelPlan {
    pub surroundings: Surroundings,
    pub frames: FrameLayout,
}

/// Samples after a waveform: as many as before it, or what a frame lacks.
pub open spec fn pad_right(sample_count: int) -> int {
    if WIN_SIZE - sample_count - PAD_LEFT > 768 {
        WIN_SIZE - sample_count - PAD_LEFT
    } else {
        768
    }
}

/// How the spectrogram of a waveform of some length is made.
pub open spec fn mel_plan(sample_count: int) -> MelPlan {
    let right = pad_right(sample_count);
    MelPlan {
        surroundings: if right < sample_count {
            Surroundings::Mirrored {
                before: Span { start: 1, end: (PAD_LEFT + 1) as i32 },
                after: Span {
                    start: (sample_count - right - 1) as i32,
                    end: (sample_count - 1) as i32,
                },
            }
        } else {
            Surroundings::Zeros
        },
        frames: FrameLayout {
            left: PAD_LEFT,
            right: right as i32,
            padded_length: (sample_count + PAD_LEFT + right) as i32,
            frame_count: shapes::frames_in(
                sample_count + PAD_LEFT + right,
                WIN_SIZE as int,
                HOP_SIZE as int,
            ) as i32,
            frame_length: WIN_SIZE,
            hop: HOP_SIZE,
        },
    }
}

/// The number of frames of a spectrogram: one for each whole hop of the
/// waveform, and at least one.
pub proof fn lemma_mel_frames(sample_count: int)
    requires
        0 <= sample_count,
        sample_count + 2048 <= i32::MAX,
    ensures
        ({
            let plan = mel_plan(sample_count);
            &&& plan.frames.inside()
            &&& plan.frames.padded_length >= WIN_SIZE
            &&& plan.frames.padded_length == plan.frames.left + sample_count + plan.frames.right
            &&& plan.frames.frame_count == if sample_count < HOP_SIZE {
                1
            } else {
                sample_count / HOP_SIZE as int
            }
            &&& plan.surroundings matches Surroundings::Mirrored { before, after } ==> {
                &&& 0 <= before.start <= before.end <= sample_count
                &&& 0 <= after.start <= after.end <= sample_count
                &&& before.end - before.start == plan.frames.left
                &&& after.end - after.start == plan.frames.right
            }
        }),
{
    let right = pad_right(sample_count);
    let padded = sample_count + PAD_LEFT + right;
    shapes::lemma_frames_fit(padded, WIN_SIZE as int, HOP_SIZE as int);
}

/// Windows of 2048 samples are laid every 512 samples over the waveform, with 768
/// samples put before it and as many after it, or as many more as the first window
/// lacks. Where the waveform is longer than that they mirror it, without repeating
/// its outermost samples, and are zero otherwise.
pub proof fn lemma_mel_surroundings(sample_count: int, offset: int)
    requires
        0 <= sample_count,
        sample_count + 2048 <= i32::MAX,
    ensures
        ({
            let plan = mel_plan(sample_count);
            &&& plan.frames.frame_length == 2048
            &&& plan.frames.hop == 512
            &&& plan.frames.left == 768
            &&& sample_count >= 512 ==> plan.frames.right == 768
            &&& sample_count < 512 ==> 768 + sample_count + plan.frames.right == 2048
            &&& plan.surroundings is Mirrored <==> sample_count > 768
            &&& plan.surroundings matches Surroundings::Mirrored { before, after } ==> {
                // What stands so far before the first sample, and after the last.
                &&& 1 <= offset <= 768 ==> before.end - 1 - (768 - offset) == offset
                &&& 1 <= offset <= 768 ==> after.end - offset == sample_count - 1 - offset
                &&& before.end - before.start == 768
                &&& after.end - after.start == 768
            }
        }),
{
}

/// A vocoder run comes about exactly where the spectrogram has 128 bins, there is
/// a pitch for each frame, a phase for each of nine harmonics, and noise for each
/// of those and each of the 512 samples of a frame. The stages lengthen the frames
/// by 8, 8, 2, 2 and 2.
pub proof fn lemma_forwarded(
    mel: Seq<i32>,
    f0: Seq<i32>,
    source: VocoderSourceInputs,
    result: Result<Vec<i32>, VocoderError>,
)
    requires
        forwarded(mel, f0, source, result),
        mel.len() == 3 ==> 0 < mel[1] && mel[1] * 512 <= i32::MAX,
    ensures
        result is Ok <==> {
            &&& mel.len() == 3
            &&& mel[2] == 128
            &&& f0 =~= seq![mel[0], mel[1]]
            &&& source.initial_phase@ =~= seq![mel[0], 9i32]
            &&& source.normal@ =~= seq![mel[0], (512 * mel[1]) as i32, 9i32]
        },
        result matches Ok(lengths) ==> lengths@ =~= seq![
            (8 * mel[1]) as i32,
            (64 * mel[1]) as i32,
            (128 * mel[1]) as i32,
            (256 * mel[1]) as i32,
            (512 * mel[1]) as i32,
        ],
{
    if let Ok(lengths) = result {
        assert(lengths@[0] == mel[1] * 8);
        assert(lengths@[1] == mel[1] * 64);
        assert(lengths@[2] == mel[1] * 128);
        assert(lengths@[3] == mel[1] * 256);
        assert(lengths@[4] == mel[1] * 512);
    }
}

impl MelSpectrogram {
    /// Takes the tensors of the spectrogram out of a checkpoint.
    pub fn load(weights: &mut Weights) -> (result: Result<MelSpectrogram, WeightsError>)
        requires
            old(weights).valid(),
        ensures
            final(weights).valid(),
            final(weights)@ == mel_taken(old(weights)@).0,
            match result {
                Ok(mel) => mel_taken(old(weights)@).1 matches Ok((basis, window)) && mel.mel_basis
                    == basis.slot && mel.hann_window == window.slot,
                Err(error) => mel_taken(old(weights)@).1 == Err::<(Entry, Entry), Failure>(error@),
            },
    {
        let basis = match weights.take("_buffers.mel_basis") {
            Ok(tensor) => tensor,
            Err(error) => return Err(error),
        };
        let window = match weights.take("_buffers.hann_window") {
            Ok(tensor) => tensor,
            Err(error) => return Err(error),
        };
        let basis_shape = [1025i32, MEL_BINS];
        assert(basis_shape@ =~= seq![1025i32, MEL_BINS]);
        if !shape_is(&basis.shape, &basis_shape) {
            return Err(WeightsError::Shape { what: "mel basis".to_owned(), shape: basis.shape });
        }
        let window_shape = [WIN_SIZE];
        assert(window_shape@ =~= seq![WIN_SIZE]);
        if !shape_is(&window.shape, &window_shape) {
            return Err(WeightsError::Shape { what: "Hann window".to_owned(), shape: window.shape });
        }
        Ok(MelSpectrogram { mel_basis: basis.slot, hann_window: window.slot })
    }

    /// Plans the spectrograms of an array of waveforms. There is always a
    /// frame.
    pub fn extract(shape: &[i32], data_type: DataType) -> (result: Result<MelPlan, VocoderError>)
        requires
            shape@.len() == 2 ==> 0 <= shape@[1] && shape@[1] + 2048 <= i32::MAX,
        ensures
            match result {
                Ok(plan) => {
                    &&& shape@.len() == 2
                    &&& data_type == DataType::Float32
                    &&& plan == mel_plan(shape@[1] as int)
                    &&& plan.frames.inside()
                    &&& plan.frames.frame_count >= 1
                },
                Err(VocoderError::AudioRank) => shape@.len() != 2,
                Err(error) => {
                    &&& shape@.len() == 2
                    &&& data_type != DataType::Float32
                    &&& error == (VocoderError::AudioType { found: data_type })
                },
            },
    {
        if shape.len() != 2 {
            return Err(VocoderError::AudioRank);
        }
        if data_type != DataType::Float32 {
            return Err(VocoderError::AudioType { found: data_type });
        }
        let sample_count = shape[1];
        proof {
            lemma_mel_frames(sample_count as int);
            shapes::lemma_frames_fit(
                sample_count + PAD_LEFT + pad_right(sample_count as int),
                WIN_SIZE as int,
                HOP_SIZE as int,
            );
        }
        let missing: i32 = WIN_SIZE - sample_count - PAD_LEFT;
        let right: i32 = if missing > 768 {
            missing
        } else {
            768
        };
        let padded_length: i32 = sample_count + PAD_LEFT + right;
        let frame_count: i32 = (padded_length - WIN_SIZE) / HOP_SIZE + 1;
        let surroundings = if right < sample_count {
            Surroundings::Mirrored {
                before: Span { start: 1, end: PAD_LEFT + 1 },
                after: Span { start: sample_count - right - 1, end: sample_count - 1 },
            }
        } else {
            Surroundings::Zeros
        };
        Ok(
            MelPlan {
                surroundings,
                frames: FrameLayout {
                    left: PAD_LEFT,
                    right,
                    padded_length,
                    frame_count,
                    frame_length: WIN_SIZE,
                    hop: HOP_SIZE,
                },
            },
        )
    }
}

/// What a checkpoint of the vocoder gives.
pub open spec fn vocoder_checkpoint(table: Table) -> Result<(Entry, Entry, Seq<Layer>), Failure> {
    let (first, mel) = mel_taken(table);
    match mel {
        Err(failure) => Err(failure),
        Ok((basis, window)) => {
            let (rest, layers) = supplied_all(first, vocoder_requests());
            match layers {
                Err(failure) => Err(failure),
                Ok(layers) => if rest != Table::empty() {
                    Err(Failure::Unused(rest.dom()))
                } else {
                    Ok((basis, window, layers))
                },
            }
        },
    }
}

/// The vocoder.
#[derive(Debug)]
pub struct NsfHifiGan {
    pub mel: MelSpectrogram,
    pub generator: VocoderGenerator,
}

impl NsfHifiGan {
    /// Whether this is the vocoder of a checkpoint.
    pub open spec fn loaded(self, table: Table) -> bool {
        &&& vocoder_checkpoint(table) matches Ok((basis, window, layers))
        &&& self.mel.mel_basis == basis.slot
        &&& self.mel.hann_window == window.slot
        &&& self.generator.holds(layers)
        &&& served(layers, vocoder_requests())
    }

    /// Whether every field holds what a table keeps under its name.
    pub open spec fn named(self, table: Table) -> bool {
        &&& self.generator.named(table)
        &&& table.dom().contains("_buffers.mel_basis"@)
        &&& self.mel.mel_basis == table["_buffers.mel_basis"@].slot
        &&& table["_buffers.mel_basis"@].shape == seq![1025i32, 128]
        &&& table.dom().contains("_buffers.hann_window"@)
        &&& self.mel.hann_window == table["_buffers.hann_window"@].slot
        &&& table["_buffers.hann_window"@].shape == seq![2048i32]
    }

    /// A checkpoint is accepted exactly where it has the basis of 128 bins for 1025
    /// frequencies, the window of 2048 samples and the tensors of all layers, and no
    /// others.
    pub proof fn lemma_accepted(table: Table)
        ensures
            vocoder_checkpoint(table) is Ok <==> {
                let buffers = set!["_buffers.mel_basis"@, "_buffers.hann_window"@];
                let others = table.remove_keys(buffers);
                &&& buffers.subset_of(table.dom())
                &&& table["_buffers.mel_basis"@].shape =~= seq![1025i32, 128]
                &&& table["_buffers.hann_window"@].shape =~= seq![2048i32]
                &&& supplied_all(others, vocoder_requests()).1 is Ok
                &&& forall|name: Seq<char>| #[trigger]
                    others.dom().contains(name) ==> of_layer(name, vocoder_requests())
            },
    {
        let requests = vocoder_requests();
        let buffers = set!["_buffers.mel_basis"@, "_buffers.hann_window"@];
        let others = table.remove_keys(buffers);
        assert("_buffers.mel_basis"@ != "_buffers.hann_window"@) by {
            reveal_strlit("_buffers.mel_basis");
            reveal_strlit("_buffers.hann_window");
            assert("_buffers.mel_basis"@[9] != "_buffers.hann_window"@[9]);
        }
        assert(buffers.contains("_buffers.mel_basis"@));
        assert(buffers.contains("_buffers.hann_window"@));
        if buffers.subset_of(table.dom()) {
            assert(mel_taken(table).0 =~= others);
        }
        let (rest, layers) = supplied_all(others, requests);
        lemma_all_supplied(others, requests);
        if layers is Ok {
            if rest == Table::empty() {
                assert forall|name: Seq<char>| #[trigger] others.dom().contains(name) implies
                    of_layer(name, requests) by {
                    assert(!rest.dom().contains(name));
                }
            } else {
                if forall|name: Seq<char>| !rest.dom().contains(name) {
                    assert(rest =~= Table::empty());
                }
                let name = choose|name: Seq<char>| rest.dom().contains(name);
                assert(others.dom().contains(name));
            }
        }
    }

    /// Every tensor of the checkpoint goes to the field that it is named for.
    pub proof fn lemma_tensors(self, table: Table)
        requires
            self.loaded(table),
        ensures
            self.named(table),
    {
        let layers = (vocoder_checkpoint(table)->Ok_0).2;
        self.generator.lemma_tensors(mel_taken(table).0, layers);
    }

    /// Makes the vocoder of a checkpoint.
    pub fn load(weights: Weights) -> (result: Result<NsfHifiGan, WeightsError>)
        requires
            weights.valid(),
        ensures
            match result {
                Ok(vocoder) => vocoder.loaded(weights@) && vocoder.named(weights@),
                Err(error) => vocoder_checkpoint(weights@) == Err::<
                    (Entry, Entry, Seq<Layer>),
                    Failure,
                >(error@),
            },
    {
        let ghost table = weights@;
        let mut weights = weights;
        let mel = match MelSpectrogram::load(&mut weights) {
            Ok(mel) => mel,
            Err(error) => return Err(error),
        };
        let generator = match VocoderGenerator::load(&mut weights) {
            Ok(generator) => generator,
            Err(error) => return Err(error),
        };
        match weights.finish() {
            Ok(_) => {
                let vocoder = NsfHifiGan { mel, generator };
                proof {
                    vocoder.lemma_tensors(table);
                }
                Ok(vocoder)
            },
            Err(error) => Err(error),
        }
    }

    /// Plans a vocoder run with given random inputs.
    pub fn infer_with_source(mel: &[i32], f0: &[i32], source: &VocoderSourceInputs) -> (result:
        Result<Vec<i32>, VocoderError>)
        requires
            mel@.len() == 3 ==> 0 < mel@[1] && mel@[1] * 512 <= i32::MAX,
        ensures
            forwarded(mel@, f0@, *source, result),
    {
        VocoderGenerator::forward_traced(mel, f0, source)
    }

    /// Plans a vocoder run with random inputs of its own, whose shapes always
    /// fit.
    pub fn infer(mel: &[i32], f0: &[i32]) -> (result: Result<
        (VocoderSourceInputs, Vec<i32>),
        VocoderError,
    >)
        requires
            mel@.len() >= 2,
            0 < mel@[1],
            mel@[1] * 512 <= i32::MAX,
        ensures
            match result {
                Ok((source, lengths)) => {
                    &&& mel@.len() == 3
                    &&& mel@[2] == 128
                    &&& f0@ == seq![mel@[0], mel@[1]]
                    &&& source.initial_phase@ == seq![mel@[0], HARMONICS]
                    &&& source.normal@ == seq![
                        mel@[0],
                        (mel@[1] * UPSAMPLE_FACTOR) as i32,
                        HARMONICS,
                    ]
                    &&& lengths@.len() == upsampler::STAGES
                    &&& forall|stage: int|
                        0 <= stage < upsampler::STAGES ==> #[trigger] lengths@[stage] == mel@[1]
                            * upsampler::factor(stage)
                },
                Err(VocoderError::MelShape) => mel@.len() != 3 || mel@[2] != 128,
                Err(error) => {
                    &&& mel@.len() == 3
                    &&& mel@[2] == 128
                    &&& error matches VocoderError::F0Shape { f0: given, mel: shape } && given@
                        == f0@ && shape@ == mel@
                    &&& f0@ != seq![mel@[0], mel@[1]]
                },
            },
    {
        let source = VocoderSourceInputs::sample(mel[0], mel[1] * UPSAMPLE_FACTOR);
        match Self::infer_with_source(mel, f0, &source) {
            Ok(lengths) => Ok((source, lengths)),
            Err(error) => Err(error),
        }
    }
}

} // verus!
