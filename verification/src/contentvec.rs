//! The encoder of the content of speech.

use crate::lengths;
use crate::names;
use crate::names::{begins_with, numbered_name};
use crate::weights::{
    all_sensible, ask, dense, lemma_all_supplied, lemma_named, named, of_layer, plain, served,
    spare, supplied_all, tensor_names, unbiased, want, wanted, with_prefix, without_prefix, Failure,
    Kind, Layer, Request, Table, Wanted, Weights, WeightsError,
};
use vstd::arithmetic::div_mod::*;
use vstd::prelude::*;

verus! {

/// The number of convolutions that make features of samples.
pub const CONVOLUTIONS: usize = 7;

/// The number of transformer layers.
pub const LAYERS: usize = 12;

/// The channels of a feature.
pub const FEATURE_CHANNELS: i32 = 512;

/// The channels of what the encoder gives.
pub const CHANNELS: i32 = 768;

/// What is wrong with the encoder's inputs.
#[derive(Clone, Copy, Debug, PartialEq, Eq, Structural)]
pub enum ContentVecError {
    WavRank,
    /// There are too few samples for a feature frame.
    WavLength,
    FeatureRank,
    TargetLength,
}

impl ContentVecError {
    pub open spec fn text(self) -> Seq<char> {
        match self {
            ContentVecError::WavRank => "wav must have shape [batch, samples]"@,
            ContentVecError::WavLength => "wav is shorter than one feature frame"@,
            ContentVecError::FeatureRank => "features must have shape [batch, frames, channels]"@,
            ContentVecError::TargetLength => "target length must be positive"@,
        }
    }

    /// The message for the user.
    pub fn message(&self) -> (result: &'static str)
        ensures
            result@ == self.text(),
    {
        match self {
            ContentVecError::WavRank => "wav must have shape [batch, samples]",
            ContentVecError::WavLength => "wav is shorter than one feature frame",
            ContentVecError::FeatureRank => "features must have shape [batch, frames, channels]",
            ContentVecError::TargetLength => "target length must be positive",
        }
    }
}

/// The kernel size of a feature convolution.
pub open spec fn kernel(index: int) -> int {
    if index == 0 {
        10
    } else if index < 5 {
        3
    } else {
        2
    }
}

/// The stride of a feature convolution.
pub open spec fn stride(index: int) -> int {
    if index == 0 {
        5
    } else {
        2
    }
}

/// A feature convolution.
pub open spec fn feature_kind(index: int) -> Kind {
    Kind::Conv1d {
        input_channels: if index == 0 {
            1
        } else {
            512
        },
        output_channels: 512,
        kernel_size: kernel(index) as i32,
        padding: 0,
        dilation: 1,
        stride: stride(index) as i32,
        groups: 1,
        bias: false,
    }
}

/// The request of a feature convolution.
pub open spec fn feature_request(index: int) -> Wanted {
    want(
        numbered_name("feature_extractor.conv_layers."@, index as nat, ".0"@),
        feature_kind(index),
    )
}

/// The requests of the feature convolutions.
pub open spec fn feature_requests(count: nat) -> Seq<Wanted> {
    Seq::new(count, |index: int| feature_request(index))
}

/// The convolution that adds positions.
pub open spec fn position_kind() -> Kind {
    Kind::Conv1d {
        input_channels: 768,
        output_channels: 768,
        kernel_size: 128,
        padding: 64,
        dilation: 1,
        stride: 1,
        groups: 16,
        bias: true,
    }
}

/// One transformer layer: eight requests.
pub open spec fn transformer_requests(index: nat) -> Seq<Wanted> {
    let prefix = numbered_name("encoder.layers."@, index, ""@);
    let projection = Kind::Linear { input_dims: 768, output_dims: 768, bias: true };
    seq![
        want(prefix + ".self_attn.q_proj"@, projection),
        want(prefix + ".self_attn.k_proj"@, projection),
        want(prefix + ".self_attn.v_proj"@, projection),
        want(prefix + ".self_attn.out_proj"@, projection),
        want(prefix + ".self_attn_layer_norm"@, Kind::StandardLayerNorm { dimensions: 768 }),
        want(prefix + ".fc1"@, Kind::Linear { input_dims: 768, output_dims: 3072, bias: true }),
        want(prefix + ".fc2"@, Kind::Linear { input_dims: 3072, output_dims: 768, bias: true }),
        want(prefix + ".final_layer_norm"@, Kind::StandardLayerNorm { dimensions: 768 }),
    ]
}

/// The first `count` transformer layers.
pub open spec fn transformers_requests(count: nat) -> Seq<Wanted>
    decreases count,
{
    if count == 0 {
        seq![]
    } else {
        transformers_requests((count - 1) as nat) + transformer_requests((count - 1) as nat)
    }
}

/// The requests of the encoder.
pub open spec fn contentvec_requests() -> Seq<Wanted> {
    feature_requests(CONVOLUTIONS as nat) + seq![
        want(
            "feature_extractor.conv_layers.0.2"@,
            Kind::GroupNorm { group_count: 512, dimensions: 512 },
        ),
        want("layer_norm"@, Kind::StandardLayerNorm { dimensions: 512 }),
        want("post_extract_proj"@, Kind::Linear { input_dims: 512, output_dims: 768, bias: true }),
        want("encoder.pos_conv.0"@, position_kind()),
        want("encoder.layer_norm"@, Kind::StandardLayerNorm { dimensions: 768 }),
    ] + transformers_requests(LAYERS as nat)
}

/// See [`kernel`].
fn kernel_of(index: usize) -> (result: i32)
    ensures
        result == kernel(index as int),
        2 <= result <= 10,
{
    if index == 0 {
        10
    } else if index < 5 {
        3
    } else {
        2
    }
}

/// See [`stride`].
fn stride_of(index: usize) -> (result: i32)
    ensures
        result == stride(index as int),
        2 <= result <= 5,
{
    if index == 0 {
        5
    } else {
        2
    }
}

/// Adds the requests of one transformer layer.
fn ask_transformer(requests: &mut Vec<Request>, index: usize)
    requires
        all_sensible(wanted(old(requests)@)),
    ensures
        all_sensible(wanted(final(requests)@)),
        wanted(final(requests)@) == wanted(old(requests)@) + transformer_requests(index as nat),
{
    let prefix = names::numbered("encoder.layers.", index, "");
    let projection = Kind::Linear { input_dims: 768, output_dims: 768, bias: true };
    let norm = Kind::StandardLayerNorm { dimensions: 768 };
    ask(requests, names::joined(prefix.as_str(), ".self_attn.q_proj"), projection);
    ask(requests, names::joined(prefix.as_str(), ".self_attn.k_proj"), projection);
    ask(requests, names::joined(prefix.as_str(), ".self_attn.v_proj"), projection);
    ask(requests, names::joined(prefix.as_str(), ".self_attn.out_proj"), projection);
    ask(requests, names::joined(prefix.as_str(), ".self_attn_layer_norm"), norm);
    ask(
        requests,
        names::joined(prefix.as_str(), ".fc1"),
        Kind::Linear { input_dims: 768, output_dims: 3072, bias: true },
    );
    ask(
        requests,
        names::joined(prefix.as_str(), ".fc2"),
        Kind::Linear { input_dims: 3072, output_dims: 768, bias: true },
    );
    ask(requests, names::joined(prefix.as_str(), ".final_layer_norm"), norm);
    assert(wanted(requests@) =~= wanted(old(requests)@) + transformer_requests(index as nat));
}

/// Lists the requests of the encoder.
fn list_requests() -> (requests: Vec<Request>)
    ensures
        all_sensible(wanted(requests@)),
        wanted(requests@) == contentvec_requests(),
        contentvec_requests().len() == 108,
{
    let mut requests: Vec<Request> = Vec::new();
    let mut index: usize = 0;
    assert(wanted(requests@) =~= feature_requests(0));
    while index < CONVOLUTIONS
        invariant
            index <= CONVOLUTIONS,
            all_sensible(wanted(requests@)),
            wanted(requests@) == feature_requests(index as nat),
        decreases CONVOLUTIONS - index,
    {
        let input_channels: i32 = if index == 0 {
            1
        } else {
            512
        };
        ask(
            &mut requests,
            names::numbered("feature_extractor.conv_layers.", index, ".0"),
            Kind::Conv1d {
                input_channels,
                output_channels: 512,
                kernel_size: kernel_of(index),
                padding: 0,
                dilation: 1,
                stride: stride_of(index),
                groups: 1,
                bias: false,
            },
        );
        index = index + 1;
        assert(wanted(requests@) =~= feature_requests(index as nat));
    }
    ask(
        &mut requests,
        "feature_extractor.conv_layers.0.2".to_owned(),
        Kind::GroupNorm { group_count: 512, dimensions: 512 },
    );
    ask(&mut requests, "layer_norm".to_owned(), Kind::StandardLayerNorm { dimensions: 512 });
    ask(
        &mut requests,
        "post_extract_proj".to_owned(),
        Kind::Linear { input_dims: 512, output_dims: 768, bias: true },
    );
    ask(
        &mut requests,
        "encoder.pos_conv.0".to_owned(),
        Kind::Conv1d {
            input_channels: 768,
            output_channels: 768,
            kernel_size: 128,
            padding: 64,
            dilation: 1,
            stride: 1,
            groups: 16,
            bias: true,
        },
    );
    ask(&mut requests, "encoder.layer_norm".to_owned(), Kind::StandardLayerNorm { dimensions: 768 });
    let ghost start = wanted(requests@);
    let mut layer: usize = 0;
    assert(start =~= start + transformers_requests(0));
    while layer < LAYERS
        invariant
            layer <= LAYERS,
            all_sensible(wanted(requests@)),
            wanted(requests@) == start + transformers_requests(layer as nat),
            transformers_requests(layer as nat).len() == 8 * layer,
        decreases LAYERS - layer,
    {
        ask_transformer(&mut requests, layer);
        layer = layer + 1;
        assert(wanted(requests@) =~= start + transformers_requests(layer as nat));
    }
    assert(wanted(requests@) =~= contentvec_requests());
    requests
}

/// The layers of one transformer layer.
#[derive(Clone, Copy, Debug, PartialEq, Eq)]
pub struct TransformerLayer {
    pub query: Layer,
    pub key: Layer,
    pub value: Layer,
    pub output: Layer,
    pub attention_norm: Layer,
    pub feed_forward_1: Layer,
    pub feed_forward_2: Layer,
    pub final_norm: Layer,
}

/// The layers of a transformer layer, in the order of its requests.
pub open spec fn transformer_of(layers: Seq<Layer>, start: int) -> TransformerLayer {
    TransformerLayer {
        query: layers[start],
        key: layers[start + 1],
        value: layers[start + 2],
        output: layers[start + 3],
        attention_norm: layers[start + 4],
        feed_forward_1: layers[start + 5],
        feed_forward_2: layers[start + 6],
        final_norm: layers[start + 7],
    }
}

impl TransformerLayer {
    /// Whether the layers hold the tensors that are named for them.
    pub open spec fn named(self, table: Table, prefix: Seq<char>) -> bool {
        let norm = Kind::StandardLayerNorm { dimensions: 768 };
        &&& plain(self.query, table, prefix + ".self_attn.q_proj"@, dense(768, 768))
        &&& plain(self.key, table, prefix + ".self_attn.k_proj"@, dense(768, 768))
        &&& plain(self.value, table, prefix + ".self_attn.v_proj"@, dense(768, 768))
        &&& plain(self.output, table, prefix + ".self_attn.out_proj"@, dense(768, 768))
        &&& plain(self.attention_norm, table, prefix + ".self_attn_layer_norm"@, norm)
        &&& plain(self.feed_forward_1, table, prefix + ".fc1"@, dense(768, 3072))
        &&& plain(self.feed_forward_2, table, prefix + ".fc2"@, dense(3072, 768))
        &&& plain(self.final_norm, table, prefix + ".final_layer_norm"@, norm)
    }

    /// Whether the layer takes and gives the channels of the encoding.
    pub open spec fn keeps_channels(self) -> bool {
        let projection = Kind::Linear { input_dims: CHANNELS, output_dims: CHANNELS, bias: true };
        let norm = Kind::StandardLayerNorm { dimensions: CHANNELS };
        &&& self.query.kind == projection
        &&& self.key.kind == projection
        &&& self.value.kind == projection
        &&& self.output.kind == projection
        &&& self.attention_norm.kind == norm
        &&& self.feed_forward_1.kind == (Kind::Linear {
            input_dims: CHANNELS,
            output_dims: 3072,
            bias: true,
        })
        &&& self.feed_forward_2.kind == (Kind::Linear {
            input_dims: 3072,
            output_dims: CHANNELS,
            bias: true,
        })
        &&& self.final_norm.kind == norm
    }
}

/// The encoder.
#[derive(Debug)]
pub struct ContentVec {
    pub feature_convolutions: Vec<Layer>,
    pub first_feature_norm: Layer,
    pub feature_norm: Layer,
    pub feature_projection: Layer,
    pub position_convolution: Layer,
    pub encoder_input_norm: Layer,
    pub encoder_layers: Vec<TransformerLayer>,
}

/// How many items a sequence gets at its end, so that their number is even.
pub open spec fn even_padding(length: int) -> int {
    length % 2
}

/// What happens to the length of a waveform on its way through the encoder.
#[derive(Debug)]
pub struct EncodePlan {
    /// After each feature convolution.
    pub feature_lengths: Vec<i32>,
    /// The feature frames that come out.
    pub frame_count: i32,
    /// Frames that are added before the transformer, and masked in it.
    pub pad_length: i32,
    /// The shape of the encoding.
    pub output: Vec<i32>,
}

impl EncodePlan {
    /// Whether the plan is that for a batch of waveforms of so many samples.
    pub open spec fn covers(self, batch: i32, samples: int) -> bool {
        &&& self.feature_lengths@.len() == CONVOLUTIONS
        &&& forall|i: int|
            0 <= i < CONVOLUTIONS ==> #[trigger] self.feature_lengths@[i] == feature_length(
                samples,
                (i + 1) as nat,
            )
        &&& self.frame_count == (samples - 400) / 320 + 1
        &&& self.pad_length == even_padding(self.frame_count as int)
        &&& (self.frame_count + self.pad_length) % 2 == 0
        &&& self.output@ == seq![batch, self.frame_count, CHANNELS]
    }
}

/// What a part of a record of an encoding shows.
#[derive(Clone, Copy, Debug, PartialEq, Eq, Structural)]
pub enum Stage {
    /// What a feature convolution gives.
    FeatureConvolution { index: usize },
    /// The same after the activation.
    FeatureBlock { index: usize },
    FeatureNorm,
    FeatureProjection,
    PositionConvolution,
    /// The positions that are added to the features.
    Position,
    EncoderInputNorm,
    /// What a transformer layer gives, with the frames that were added.
    EncoderLayer { index: usize },
}

/// A part of a record: an array of `length` frames for each waveform.
#[derive(Clone, Copy, Debug, PartialEq, Eq, Structural)]
pub struct Recorded {
    pub stage: Stage,
    pub length: i32,
    pub channels: i32,
}

/// What is recorded of the features: two parts for each convolution.
pub open spec fn recorded_feature(samples: int, place: int) -> Recorded {
    let index = place / 2;
    Recorded {
        stage: if place % 2 == 0 {
            Stage::FeatureConvolution { index: index as usize }
        } else {
            Stage::FeatureBlock { index: index as usize }
        },
        length: feature_length(samples, (index + 1) as nat) as i32,
        channels: FEATURE_CHANNELS,
    }
}

/// What is recorded between the features and the transformer.
pub open spec fn recorded_inputs(frames: int) -> Seq<Recorded> {
    let length = frames as i32;
    seq![
        Recorded { stage: Stage::FeatureNorm, length, channels: FEATURE_CHANNELS },
        Recorded { stage: Stage::FeatureProjection, length, channels: CHANNELS },
        Recorded {
            stage: Stage::PositionConvolution,
            length: (frames + 1) as i32,
            channels: CHANNELS,
        },
        Recorded { stage: Stage::Position, length, channels: CHANNELS },
        Recorded { stage: Stage::EncoderInputNorm, length, channels: CHANNELS },
    ]
}

/// What is recorded of a transformer layer.
pub open spec fn recorded_layer(frames: int, index: int) -> Recorded {
    Recorded {
        stage: Stage::EncoderLayer { index: index as usize },
        length: (frames + even_padding(frames)) as i32,
        channels: CHANNELS,
    }
}

/// A whole record, in the order in which it is made.
pub open spec fn records(samples: int) -> Seq<Recorded> {
    let frames = (samples - 400) / 320 + 1;
    Seq::new(2 * CONVOLUTIONS as nat, |place: int| recorded_feature(samples, place))
        + recorded_inputs(frames) + Seq::new(
        LAYERS as nat,
        |index: int| recorded_layer(frames, index),
    )
}

/// Whether a record of a loaded encoder has a part for this.
pub open spec fn recordable(stage: Stage) -> bool {
    match stage {
        Stage::FeatureConvolution { index } => index < CONVOLUTIONS,
        Stage::FeatureBlock { index } => index < CONVOLUTIONS,
        Stage::EncoderLayer { index } => index < LAYERS,
        _ => true,
    }
}

/// A record is complete: it shows every feature convolution and block, the two
/// norms, the projection, both forms of the positions and every layer, each
/// exactly once.
pub proof fn lemma_record_complete(samples: int, stage: Stage)
    ensures
        records(samples).len() == 2 * CONVOLUTIONS + 5 + LAYERS,
        recordable(stage) <==> exists|i: int|
            0 <= i < records(samples).len() && (#[trigger] records(samples)[i]).stage == stage,
        forall|i: int, j: int|
            0 <= i < j < records(samples).len() ==> (#[trigger] records(samples)[i]).stage != (
            #[trigger] records(samples)[j]).stage,
{
    let all = records(samples);
    if recordable(stage) {
        let place: int = match stage {
            Stage::FeatureConvolution { index } => 2 * index as int,
            Stage::FeatureBlock { index } => 2 * index as int + 1,
            Stage::FeatureNorm => 14,
            Stage::FeatureProjection => 15,
            Stage::PositionConvolution => 16,
            Stage::Position => 17,
            Stage::EncoderInputNorm => 18,
            Stage::EncoderLayer { index } => 19 + index as int,
        };
        assert(all[place].stage == stage);
    }
}

/// The length after a number of feature convolutions.
pub open spec fn feature_length(samples: int, count: nat) -> int
    decreases count,
{
    if count == 0 {
        samples
    } else {
        feature_kind(count - 1).output_length(feature_length(samples, (count - 1) as nat))
    }
}

/// The feature convolutions give a frame for every 320 samples from 400 on.
pub proof fn lemma_feature_frames(samples: int)
    requires
        samples >= 400,
    ensures
        feature_length(samples, CONVOLUTIONS as nat) == (samples - 400) / 320 + 1,
        feature_length(samples, CONVOLUTIONS as nat) == (samples - 80) / 320,
        forall|count: nat|
            #![trigger feature_length(samples, count)]
            count <= CONVOLUTIONS ==> 1 <= feature_length(samples, count) <= samples,
{
    reveal_with_fuel(feature_length, 8);
    assert(1 * (10 - 1) == 9 && 1 * (3 - 1) == 2 && 1 * (2 - 1) == 1);
    let l1 = (samples - 10) / 5 + 1;
    let l2 = (l1 - 3) / 2 + 1;
    let l3 = (l2 - 3) / 2 + 1;
    let l4 = (l3 - 3) / 2 + 1;
    let l5 = (l4 - 3) / 2 + 1;
    let l6 = (l5 - 2) / 2 + 1;
    let l7 = (l6 - 2) / 2 + 1;
    assert(feature_length(samples, 1) == l1);
    assert(feature_length(samples, 2) == l2);
    assert(feature_length(samples, 3) == l3);
    assert(feature_length(samples, 4) == l4);
    assert(feature_length(samples, 5) == l5);
    assert(feature_length(samples, 6) == l6);
    assert(feature_length(samples, 7) == l7);
    assert(l2 == (samples - 20) / 10 + 1 - 0) by {
        assert(l2 == (l1 - 1) / 2);
        assert((l1 - 1) == (samples - 10) / 5);
        assert(l2 == (samples - 10) / 10);
    }
    assert(l3 == (l2 - 1) / 2);
    assert(l3 == (samples - 20) / 20);
    assert(l4 == (samples - 40) / 40);
    assert(l5 == (samples - 80) / 80);
    assert(l6 == l5 / 2);
    assert(l6 == (samples - 80) / 160);
    assert(l7 == (samples - 80) / 320);
    assert forall|count: nat|
        #![trigger feature_length(samples, count)]
        count <= CONVOLUTIONS implies 1 <= feature_length(samples, count) <= samples by {
        assert(count == 0 || count == 1 || count == 2 || count == 3 || count == 4 || count == 5
            || count == 6 || count == 7);
    }
}

/// The feature convolutions shorten a waveform by 5, then by 2 each. The first
/// gives its last frame where ten samples are left, the next four where three
/// frames are left and the last two where two are.
pub proof fn lemma_feature_lengths(samples: int)
    requires
        samples >= 400,
    ensures
        feature_length(samples, 0) == samples,
        feature_length(samples, 1) == (samples - 5) / 5,
        feature_length(samples, 2) == (samples - 10) / 10,
        feature_length(samples, 3) == (samples - 20) / 20,
        feature_length(samples, 4) == (samples - 40) / 40,
        feature_length(samples, 5) == (samples - 80) / 80,
        feature_length(samples, 6) == (samples - 80) / 160,
        feature_length(samples, 7) == (samples - 80) / 320,
{
    reveal_with_fuel(feature_length, 8);
    assert(1 * (10 - 1) == 9 && 1 * (3 - 1) == 2 && 1 * (2 - 1) == 1);
    let l1 = (samples - 10) / 5 + 1;
    let l2 = (l1 - 3) / 2 + 1;
    let l3 = (l2 - 3) / 2 + 1;
    let l4 = (l3 - 3) / 2 + 1;
    let l5 = (l4 - 3) / 2 + 1;
    let l6 = (l5 - 2) / 2 + 1;
    assert(feature_length(samples, 1) == l1);
    assert(feature_length(samples, 2) == l2);
    assert(feature_length(samples, 3) == l3);
    assert(feature_length(samples, 4) == l4);
    assert(feature_length(samples, 5) == l5);
    assert(feature_length(samples, 6) == l6);
    assert(l2 == (l1 - 1) / 2);
    assert(l2 == (samples - 10) / 10);
    assert(l3 == (l2 - 1) / 2);
    assert(l3 == (samples - 20) / 20);
    assert(l4 == (samples - 40) / 40);
    assert(l5 == (samples - 80) / 80);
    assert(l6 == l5 / 2);
    assert(l6 == (samples - 80) / 160);
}

/// What a record shows is in the order of the work. The features have 512
/// channels and the lengths that the convolutions give, and from the projection
/// on there are 768 channels. The position convolution gives a frame too many,
/// and the transformer works on an even number of frames.
pub proof fn lemma_record_order(samples: int, index: int)
    requires
        400 <= samples <= i32::MAX,
    ensures
        ({
            let trace = records(samples);
            let frames = (samples - 80) / 320;
            &&& trace.len() == 31
            &&& 0 <= index < 7 ==> {
                let first = trace[2 * index];
                let second = trace[2 * index + 1];
                &&& first.stage == Stage::FeatureConvolution { index: index as usize }
                &&& second.stage == Stage::FeatureBlock { index: index as usize }
                &&& first.channels == 512 && second.channels == 512
                &&& first.length == feature_length(samples, (index + 1) as nat)
                &&& second.length == feature_length(samples, (index + 1) as nat)
            }
            &&& trace[14].stage is FeatureNorm && trace[14].length == frames && trace[14].channels
                == 512
            &&& trace[15].stage is FeatureProjection && trace[15].length == frames
                && trace[15].channels == 768
            &&& trace[16].stage is PositionConvolution && trace[16].length == frames + 1
                && trace[16].channels == 768
            &&& trace[17].stage is Position && trace[17].length == frames && trace[17].channels
                == 768
            &&& trace[18].stage is EncoderInputNorm && trace[18].length == frames
                && trace[18].channels == 768
            &&& 0 <= index < 12 ==> {
                let layer = trace[19 + index];
                &&& layer.stage == Stage::EncoderLayer { index: index as usize }
                &&& layer.channels == 768
                &&& layer.length % 2 == 0
                &&& frames <= layer.length <= frames + 1
            }
        }),
{
    lemma_feature_frames(samples);
    if 0 <= index < 7 {
        let length = feature_length(samples, (index + 1) as nat);
        assert(1 <= length <= samples);
        assert((2 * index) / 2 == index && (2 * index + 1) / 2 == index);
    }
}

/// Below 400 samples some convolution has less to work on than its kernel.
pub proof fn lemma_too_few_samples(samples: int)
    requires
        0 <= samples < 400,
    ensures
        exists|index: nat|
            index < CONVOLUTIONS && #[trigger] feature_length(samples, index) < kernel(
                index as int,
            ),
{
    reveal_with_fuel(feature_length, 8);
    assert(1 * (10 - 1) == 9 && 1 * (3 - 1) == 2 && 1 * (2 - 1) == 1);
    let l1 = (samples - 10) / 5 + 1;
    let l2 = (l1 - 3) / 2 + 1;
    let l3 = (l2 - 3) / 2 + 1;
    let l4 = (l3 - 3) / 2 + 1;
    let l5 = (l4 - 3) / 2 + 1;
    let l6 = (l5 - 2) / 2 + 1;
    assert(feature_length(samples, 0) == samples);
    assert(feature_length(samples, 1) == l1);
    assert(feature_length(samples, 2) == l2);
    assert(feature_length(samples, 3) == l3);
    assert(feature_length(samples, 4) == l4);
    assert(feature_length(samples, 5) == l5);
    assert(feature_length(samples, 6) == l6);
    assert(l1 < 79);
    assert(l2 < 39);
    assert(l3 < 19);
    assert(l4 < 9);
    assert(l5 < 4);
    assert(l6 < 2);
}

/// The position convolution gives one frame more than it gets, and that one is
/// dropped.
pub proof fn lemma_position_length(length: int)
    requires
        length > 0,
    ensures
        position_kind().output_length(length) - 1 == length,
{
    lemma_div_basics_2(length);
    assert(1 * (128 - 1) == 127);
}

/// Where the requests of a transformer layer stand.
proof fn lemma_transformer_places(count: nat, index: int)
    ensures
        transformers_requests(count).len() == 8 * count,
        0 <= index < count ==> forall|part: int|
            0 <= part < 8 ==> #[trigger] transformers_requests(count)[8 * index + part]
                == transformer_requests(index as nat)[part],
    decreases count,
{
    if count > 0 {
        let before = (count - 1) as nat;
        lemma_transformer_places(before, index);
        assert forall|part: int| 0 <= index < count && 0 <= part < 8 implies #[trigger]
            transformers_requests(count)[8 * index + part] == transformer_requests(
            index as nat,
        )[part] by {
            if index < before {
                assert(transformers_requests(before)[8 * index + part] == transformer_requests(
                    index as nat,
                )[part]);
            }
        }
    }
}

proof fn lemma_feature_count(count: nat)
    ensures
        feature_requests(count).len() == count,
    decreases count,
{
    if count > 0 {
        lemma_feature_count((count - 1) as nat);
    }
}

/// What a checkpoint of the encoder gives. It also holds four tensors that are
/// needed for training only, and nothing else.
pub open spec fn contentvec_checkpoint(table: Table) -> Result<Seq<Layer>, Failure> {
    let (rest, layers) = supplied_all(table, contentvec_requests());
    let unmasked = without_prefix(rest, "mask_emb"@);
    let unlabelled = without_prefix(unmasked, "label_embs_concat"@);
    let left = without_prefix(unlabelled, "final_proj."@);
    match layers {
        Err(failure) => Err(failure),
        Ok(layers) => if with_prefix(rest, "mask_emb"@).len() != 1 {
            Err(Failure::Rule("mask_emb missing"@))
        } else if with_prefix(unmasked, "label_embs_concat"@).len() != 1 {
            Err(Failure::Rule("label_embs_concat missing"@))
        } else if with_prefix(unlabelled, "final_proj."@).len() != 2 {
            Err(Failure::Rule("final_proj tensors missing"@))
        } else if left != Table::empty() {
            Err(Failure::Unused(left.dom()))
        } else {
            Ok(layers)
        },
    }
}

impl ContentVec {
    /// Whether the layers are these.
    pub open spec fn holds(self, layers: Seq<Layer>) -> bool {
        &&& self.feature_convolutions@ == layers.subrange(0, 7)
        &&& self.first_feature_norm == layers[7]
        &&& self.feature_norm == layers[8]
        &&& self.feature_projection == layers[9]
        &&& self.position_convolution == layers[10]
        &&& self.encoder_input_norm == layers[11]
        &&& self.encoder_layers@.len() == LAYERS
        &&& forall|i: int|
            0 <= i < LAYERS ==> #[trigger] self.encoder_layers@[i] == transformer_of(
                layers,
                12 + 8 * i,
            )
    }

    /// Groups the layers that the requests gave.
    fn from_layers(layers: &Vec<Layer>) -> (result: ContentVec)
        requires
            layers.len() == 108,
        ensures
            result.holds(layers@),
    {
        let mut feature_convolutions: Vec<Layer> = Vec::new();
        let mut index: usize = 0;
        while index < CONVOLUTIONS
            invariant
                index <= CONVOLUTIONS,
                layers.len() == 108,
                feature_convolutions@ == layers@.subrange(0, index as int),
            decreases CONVOLUTIONS - index,
        {
            feature_convolutions.push(layers[index]);
            index = index + 1;
        }
        let mut encoder_layers: Vec<TransformerLayer> = Vec::new();
        let mut layer: usize = 0;
        while layer < LAYERS
            invariant
                layer <= LAYERS,
                layers.len() == 108,
                encoder_layers@.len() == layer,
                forall|i: int|
                    0 <= i < layer ==> #[trigger] encoder_layers@[i] == transformer_of(
                        layers@,
                        12 + 8 * i,
                    ),
            decreases LAYERS - layer,
        {
            let first: usize = 12 + 8 * layer;
            encoder_layers.push(
                TransformerLayer {
                    query: layers[first],
                    key: layers[first + 1],
                    value: layers[first + 2],
                    output: layers[first + 3],
                    attention_norm: layers[first + 4],
                    feed_forward_1: layers[first + 5],
                    feed_forward_2: layers[first + 6],
                    final_norm: layers[first + 7],
                },
            );
            layer = layer + 1;
        }
        ContentVec {
            feature_convolutions,
            first_feature_norm: layers[7],
            feature_norm: layers[8],
            feature_projection: layers[9],
            position_convolution: layers[10],
            encoder_input_norm: layers[11],
            encoder_layers,
        }
    }

    /// Whether this is the encoder of a checkpoint.
    pub open spec fn loaded(self, table: Table) -> bool {
        contentvec_checkpoint(table) matches Ok(layers) && self.holds(layers) && served(
            layers,
            contentvec_requests(),
        )
    }

    /// Whether every field holds the tensors that a table keeps under its name.
    pub open spec fn named(self, table: Table) -> bool {
        &&& self.feature_convolutions@.len() == 7
        &&& forall|i: int|
            0 <= i < 7 ==> unbiased(
                #[trigger] self.feature_convolutions@[i],
                table,
                numbered_name("feature_extractor.conv_layers."@, i as nat, ".0"@),
                Kind::Conv1d {
                    input_channels: if i == 0 {
                        1
                    } else {
                        512
                    },
                    output_channels: 512,
                    kernel_size: if i == 0 {
                        10
                    } else if i <= 4 {
                        3
                    } else {
                        2
                    },
                    padding: 0,
                    dilation: 1,
                    stride: if i == 0 {
                        5
                    } else {
                        2
                    },
                    groups: 1,
                    bias: false,
                },
            )
        &&& plain(
            self.first_feature_norm,
            table,
            "feature_extractor.conv_layers.0.2"@,
            Kind::GroupNorm { group_count: 512, dimensions: 512 },
        )
        &&& plain(
            self.feature_norm,
            table,
            "layer_norm"@,
            Kind::StandardLayerNorm { dimensions: 512 },
        )
        &&& plain(self.feature_projection, table, "post_extract_proj"@, dense(512, 768))
        &&& plain(
            self.position_convolution,
            table,
            "encoder.pos_conv.0"@,
            Kind::Conv1d {
                input_channels: 768,
                output_channels: 768,
                kernel_size: 128,
                padding: 64,
                dilation: 1,
                stride: 1,
                groups: 16,
                bias: true,
            },
        )
        &&& plain(
            self.encoder_input_norm,
            table,
            "encoder.layer_norm"@,
            Kind::StandardLayerNorm { dimensions: 768 },
        )
        &&& self.encoder_layers@.len() == 12
        &&& forall|i: int|
            0 <= i < 12 ==> (#[trigger] self.encoder_layers@[i]).named(
                table,
                numbered_name("encoder.layers."@, i as nat, ""@),
            )
    }

    /// Every tensor of the checkpoint goes to the layer that it is named for.
    #[verifier::rlimit(40)]
    pub proof fn lemma_tensors(self, table: Table)
        requires
            self.loaded(table),
        ensures
            self.named(table),
    {
        let layers = contentvec_checkpoint(table)->Ok_0;
        let requests = contentvec_requests();
        lemma_named(table, requests);
        lemma_transformer_places(LAYERS as nat, 0);
        lemma_feature_count(CONVOLUTIONS as nat);
        assert forall|i: int| 0 <= i < 7 implies named(
            #[trigger] self.feature_convolutions@[i],
            table,
            feature_request(i),
        ) by {
            assert(self.feature_convolutions@[i] == layers[i]);
            assert(requests[i] == feature_request(i));
        }
        assert(named(layers[7], table, requests[7]));
        assert(named(layers[8], table, requests[8]));
        assert(named(layers[9], table, requests[9]));
        assert(named(layers[10], table, requests[10]));
        assert(named(layers[11], table, requests[11]));
        assert forall|i: int| 0 <= i < 12 implies (#[trigger] self.encoder_layers@[i]).named(
            table,
            numbered_name("encoder.layers."@, i as nat, ""@),
        ) by {
            self.lemma_layer_tensors(table, i);
        }
    }

    /// See [`ContentVec::lemma_tensors`].
    proof fn lemma_layer_tensors(self, table: Table, i: int)
        requires
            self.loaded(table),
            0 <= i < 12,
        ensures
            self.encoder_layers@[i].named(
                table,
                numbered_name("encoder.layers."@, i as nat, ""@),
            ),
    {
        let layers = contentvec_checkpoint(table)->Ok_0;
        let requests = contentvec_requests();
        lemma_named(table, requests);
        let start = 12 + 8 * i;
        assert(self.encoder_layers@[i] == transformer_of(layers, start));
        lemma_transformer_places(LAYERS as nat, i);
        assert forall|part: int| 0 <= part < 8 implies named(
            layers[start + part],
            table,
            #[trigger] transformer_requests(i as nat)[part],
        ) by {
            assert(requests[start + part] == transformers_requests(LAYERS as nat)[8 * i + part]);
        }
        let own = transformer_requests(i as nat);
        assert(named(layers[start + 0], table, own[0]));
        assert(named(layers[start + 1], table, own[1]));
        assert(named(layers[start + 2], table, own[2]));
        assert(named(layers[start + 3], table, own[3]));
        assert(named(layers[start + 4], table, own[4]));
        assert(named(layers[start + 5], table, own[5]));
        assert(named(layers[start + 6], table, own[6]));
        assert(named(layers[start + 7], table, own[7]));
    }

    /// Makes the encoder of a checkpoint.
    pub fn load(weights: Weights) -> (result: Result<ContentVec, WeightsError>)
        requires
            weights.valid(),
        ensures
            match result {
                Ok(model) => model.loaded(weights@) && model.named(weights@),
                Err(error) => contentvec_checkpoint(weights@) == Err::<Seq<Layer>, Failure>(
                    error@,
                ),
            },
    {
        let ghost table = weights@;
        let mut weights = weights;
        let requests = list_requests();
        let layers = match weights.layers(&requests) {
            Ok(layers) => layers,
            Err(error) => return Err(error),
        };
        let model = Self::from_layers(&layers);
        if weights.discard_prefix("mask_emb") != 1 {
            return Err(WeightsError::Rule { message: "mask_emb missing" });
        }
        if weights.discard_prefix("label_embs_concat") != 1 {
            return Err(WeightsError::Rule { message: "label_embs_concat missing" });
        }
        if weights.discard_prefix("final_proj.") != 2 {
            return Err(WeightsError::Rule { message: "final_proj tensors missing" });
        }
        match weights.finish() {
            Ok(_) => {
                proof {
                    model.lemma_tensors(table);
                }
                Ok(model)
            },
            Err(error) => Err(error),
        }
    }

    /// Plans the encoding of an array of waveforms.
    pub fn encode(shape: &[i32]) -> (result: Result<EncodePlan, ContentVecError>)
        requires
            shape@.len() == 2 ==> shape@[1] >= 0,
        ensures
            match result {
                Ok(plan) => shape@.len() == 2 && shape@[1] >= 400 && plan.covers(
                    shape@[0],
                    shape@[1] as int,
                ),
                Err(ContentVecError::WavRank) => shape@.len() != 2,
                Err(error) => shape@.len() == 2 && shape@[1] < 400 && error
                    == ContentVecError::WavLength,
            },
    {
        if shape.len() != 2 {
            return Err(ContentVecError::WavRank);
        }
        let samples = shape[1];
        if samples < 400 {
            return Err(ContentVecError::WavLength);
        }
        proof {
            lemma_feature_frames(samples as int);
        }
        let mut feature_lengths: Vec<i32> = Vec::new();
        let mut length: i32 = samples;
        let mut index: usize = 0;
        while index < CONVOLUTIONS
            invariant
                index <= CONVOLUTIONS,
                feature_lengths@.len() == index,
                length == feature_length(samples as int, index as nat),
                forall|count: nat|
                    #![trigger feature_length(samples as int, count)]
                    count <= CONVOLUTIONS ==> 1 <= feature_length(samples as int, count)
                        <= samples,
                forall|i: int|
                    0 <= i < index ==> #[trigger] feature_lengths@[i] == feature_length(
                        samples as int,
                        (i + 1) as nat,
                    ),
            decreases CONVOLUTIONS - index,
        {
            let kernel_size = kernel_of(index);
            let step = stride_of(index);
            proof {
                let next = feature_length(samples as int, (index + 1) as nat);
                assert(1 <= next <= samples);
                assert(1 * (kernel_size - 1) == kernel_size - 1);
                assert(next == (length - kernel_size) / step as int + 1);
                assert(length >= kernel_size) by {
                    if length < kernel_size {
                        lemma_negative_quotient(length - kernel_size, step as int);
                    }
                }
            }
            length = (length - kernel_size) / step + 1;
            feature_lengths.push(length);
            index = index + 1;
        }
        let pad_length: i32 = (2 - length % 2) % 2;
        let output = vec![shape[0], length, CHANNELS];
        assert(output@ =~= seq![shape@[0], length, CHANNELS]);
        Ok(EncodePlan { feature_lengths, frame_count: length, pad_length, output })
    }

    /// Plans an encoding that is recorded, and lists what is recorded. The
    /// encoding itself is the same.
    pub fn encode_traced(shape: &[i32]) -> (result: Result<
        (EncodePlan, Vec<Recorded>),
        ContentVecError,
    >)
        requires
            shape@.len() == 2 ==> shape@[1] >= 0,
        ensures
            match result {
                Ok((plan, trace)) => {
                    &&& shape@.len() == 2
                    &&& shape@[1] >= 400
                    &&& plan.covers(shape@[0], shape@[1] as int)
                    &&& trace@ == records(shape@[1] as int)
                },
                Err(ContentVecError::WavRank) => shape@.len() != 2,
                Err(error) => shape@.len() == 2 && shape@[1] < 400 && error
                    == ContentVecError::WavLength,
            },
    {
        let plan = match Self::encode(shape) {
            Ok(plan) => plan,
            Err(error) => return Err(error),
        };
        let ghost samples = shape@[1] as int;
        let ghost expected = records(samples);
        let mut trace: Vec<Recorded> = Vec::new();
        let mut index: usize = 0;
        assert(trace@ =~= expected.take(0));
        while index < CONVOLUTIONS
            invariant
                index <= CONVOLUTIONS,
                plan.feature_lengths@.len() == CONVOLUTIONS,
                forall|i: int|
                    0 <= i < CONVOLUTIONS ==> #[trigger] plan.feature_lengths@[i]
                        == feature_length(samples, (i + 1) as nat),
                expected == records(samples),
                trace@ == expected.take(2 * index as int),
            decreases CONVOLUTIONS - index,
        {
            let length: i32 = plan.feature_lengths[index];
            let channels: i32 = FEATURE_CHANNELS;
            let ghost place = 2 * index as int;
            let convolution = Recorded {
                stage: Stage::FeatureConvolution { index },
                length,
                channels,
            };
            let block = Recorded { stage: Stage::FeatureBlock { index }, length, channels };
            proof {
                assert(expected[place] == recorded_feature(samples, place));
                assert(expected[place + 1] == recorded_feature(samples, place + 1));
                assert(place / 2 == index && (place + 1) / 2 == index);
            }
            trace.push(convolution);
            trace.push(block);
            index = index + 1;
            assert(trace@ =~= expected.take(2 * index as int));
        }
        let length: i32 = plan.frame_count;
        let channels: i32 = CHANNELS;
        trace.push(Recorded { stage: Stage::FeatureNorm, length, channels: FEATURE_CHANNELS });
        trace.push(Recorded { stage: Stage::FeatureProjection, length, channels });
        trace.push(Recorded { stage: Stage::PositionConvolution, length: length + 1, channels });
        trace.push(Recorded { stage: Stage::Position, length, channels });
        trace.push(Recorded { stage: Stage::EncoderInputNorm, length, channels });
        assert(trace@ =~= expected.take(19));
        let padded: i32 = length + plan.pad_length;
        let mut layer: usize = 0;
        while layer < LAYERS
            invariant
                layer <= LAYERS,
                channels == CHANNELS,
                length == (samples - 400) / 320 + 1,
                padded == length + even_padding(length as int),
                expected == records(samples),
                trace@ == expected.take(19 + layer),
            decreases LAYERS - layer,
        {
            trace.push(
                Recorded { stage: Stage::EncoderLayer { index: layer }, length: padded, channels },
            );
            layer = layer + 1;
            assert(trace@ =~= expected.take(19 + layer));
        }
        assert(trace@ =~= expected);
        Ok((plan, trace))
    }

    /// A checkpoint is accepted exactly where it has the tensors of all layers, has
    /// one mask, one table of labels and two tensors of the final projection, and
    /// has no others.
    pub proof fn lemma_accepted(table: Table)
        ensures
            contentvec_checkpoint(table) is Ok <==> {
                let requests = contentvec_requests();
                &&& supplied_all(table, requests).1 is Ok
                &&& spare(table, requests, "mask_emb"@).len() == 1
                &&& spare(table, requests, "label_embs_concat"@).len() == 1
                &&& spare(table, requests, "final_proj."@).len() == 2
                &&& forall|name: Seq<char>| #[trigger]
                    table.dom().contains(name) ==> of_layer(name, requests) || begins_with(
                        name,
                        "mask_emb"@,
                    ) || begins_with(name, "label_embs_concat"@) || begins_with(
                        name,
                        "final_proj."@,
                    )
            },
    {
        let requests = contentvec_requests();
        let (rest, layers) = supplied_all(table, requests);
        lemma_all_supplied(table, requests);
        if layers is Ok {
            let unmasked = without_prefix(rest, "mask_emb"@);
            let unlabelled = without_prefix(unmasked, "label_embs_concat"@);
            let left = without_prefix(unlabelled, "final_proj."@);
            assert forall|name: Seq<char>| #[trigger] table.dom().contains(name) implies !(
            begins_with(name, "mask_emb"@) && begins_with(name, "label_embs_concat"@)) && !(
            begins_with(name, "mask_emb"@) && begins_with(name, "final_proj."@)) && !(begins_with(
                name,
                "label_embs_concat"@,
            ) && begins_with(name, "final_proj."@)) by {
                reveal_strlit("mask_emb");
                reveal_strlit("label_embs_concat");
                reveal_strlit("final_proj.");
                if begins_with(name, "mask_emb"@) {
                    assert(name.take("mask_emb"@.len() as int)[0] == 'm');
                }
                if begins_with(name, "label_embs_concat"@) {
                    assert(name.take("label_embs_concat"@.len() as int)[0] == 'l');
                }
                if begins_with(name, "final_proj."@) {
                    assert(name.take("final_proj."@.len() as int)[0] == 'f');
                }
            }
            assert(with_prefix(rest, "mask_emb"@) =~= spare(table, requests, "mask_emb"@));
            assert(with_prefix(unmasked, "label_embs_concat"@) =~= spare(
                table,
                requests,
                "label_embs_concat"@,
            ));
            assert(with_prefix(unlabelled, "final_proj."@) =~= spare(
                table,
                requests,
                "final_proj."@,
            ));
            if left == Table::empty() {
                assert forall|name: Seq<char>| #[trigger] table.dom().contains(name) implies
                    of_layer(name, requests) || begins_with(name, "mask_emb"@) || begins_with(
                    name,
                    "label_embs_concat"@,
                ) || begins_with(name, "final_proj."@) by {
                    assert(!left.dom().contains(name));
                }
            } else {
                if forall|name: Seq<char>| !left.dom().contains(name) {
                    assert(left =~= Table::empty());
                }
                let name = choose|name: Seq<char>| left.dom().contains(name);
                assert(table.dom().contains(name));
            }
        }
    }

    /// Every tensor of the checkpoint is one of a layer, or one that is needed for
    /// training only, of which there are all.
    pub proof fn lemma_other_tensors(self, table: Table)
        requires
            self.loaded(table),
        ensures
            forall|name: Seq<char>| #[trigger]
                table.dom().contains(name) ==> begins_with(name, "mask_emb"@) || begins_with(
                    name,
                    "label_embs_concat"@,
                ) || begins_with(name, "final_proj."@) || exists|i: int|
                    0 <= i < contentvec_requests().len() && tensor_names(
                        #[trigger] contentvec_requests()[i],
                    ).contains(name),
            exists|name: Seq<char>| #[trigger]
                table.dom().contains(name) && begins_with(name, "mask_emb"@),
            exists|name: Seq<char>| #[trigger]
                table.dom().contains(name) && begins_with(name, "label_embs_concat"@),
            exists|name: Seq<char>| #[trigger]
                table.dom().contains(name) && begins_with(name, "final_proj."@),
    {
        let requests = contentvec_requests();
        let rest = supplied_all(table, requests).0;
        lemma_named(table, requests);
        let unmasked = without_prefix(rest, "mask_emb"@);
        let unlabelled = without_prefix(unmasked, "label_embs_concat"@);
        let left = without_prefix(unlabelled, "final_proj."@);
        assert forall|name: Seq<char>| #[trigger] table.dom().contains(name) implies begins_with(
            name,
            "mask_emb"@,
        ) || begins_with(name, "label_embs_concat"@) || begins_with(name, "final_proj."@)
            || exists|i: int|
            0 <= i < requests.len() && tensor_names(#[trigger] requests[i]).contains(name) by {
            if rest.dom().contains(name) && !begins_with(name, "mask_emb"@) && !begins_with(
                name,
                "label_embs_concat"@,
            ) && !begins_with(name, "final_proj."@) {
                assert(unmasked.dom().contains(name));
                assert(unlabelled.dom().contains(name));
                assert(left.dom().contains(name));
            }
        }
        let mask = with_prefix(rest, "mask_emb"@);
        if forall|name: Seq<char>| !mask.contains(name) {
            assert(mask =~= Set::empty());
        }
        let name = choose|name: Seq<char>| mask.contains(name);
        assert(table.dom().contains(name) && begins_with(name, "mask_emb"@));
        let labels = with_prefix(unmasked, "label_embs_concat"@);
        if forall|name: Seq<char>| !labels.contains(name) {
            assert(labels =~= Set::empty());
        }
        let name = choose|name: Seq<char>| labels.contains(name);
        assert(rest.dom().contains(name));
        assert(table.dom().contains(name) && begins_with(name, "label_embs_concat"@));
        let projection = with_prefix(unlabelled, "final_proj."@);
        if forall|name: Seq<char>| !projection.contains(name) {
            assert(projection =~= Set::empty());
        }
        let name = choose|name: Seq<char>| projection.contains(name);
        assert(unmasked.dom().contains(name));
        assert(rest.dom().contains(name));
        assert(table.dom().contains(name) && begins_with(name, "final_proj."@));
    }

    /// An encoder that was loaded has seven feature convolutions and twelve
    /// layers, as a record of an encoding has.
    pub proof fn lemma_layer_counts(self, table: Table)
        requires
            self.loaded(table),
        ensures
            self.feature_convolutions@.len() == CONVOLUTIONS == 7,
            self.encoder_layers@.len() == LAYERS == 12,
    {
        lemma_feature_count(CONVOLUTIONS as nat);
    }

    /// The layers of an encoder that was loaded fit together: every feature
    /// convolution gives the channels of a feature, the projection takes them to
    /// the channels of the encoding, and the positions and every transformer
    /// layer keep those. So the encoding has them.
    pub proof fn lemma_channels(self, table: Table, index: int)
        requires
            self.loaded(table),
        ensures
            0 <= index < CONVOLUTIONS ==> self.feature_convolutions@[index].kind == feature_kind(
                index,
            ) && (feature_kind(index) matches Kind::Conv1d { output_channels, .. }
                && output_channels == FEATURE_CHANNELS),
            self.feature_norm.kind == (Kind::StandardLayerNorm { dimensions: FEATURE_CHANNELS }),
            self.feature_projection.kind == (Kind::Linear {
                input_dims: FEATURE_CHANNELS,
                output_dims: CHANNELS,
                bias: true,
            }),
            self.position_convolution.kind == position_kind(),
            position_kind() matches Kind::Conv1d { input_channels, output_channels, .. }
                && input_channels == CHANNELS && output_channels == CHANNELS,
            self.encoder_input_norm.kind == (Kind::StandardLayerNorm { dimensions: CHANNELS }),
            0 <= index < LAYERS ==> self.encoder_layers@[index].keeps_channels(),
    {
        let layers = contentvec_checkpoint(table)->Ok_0;
        let requests = contentvec_requests();
        assert(requests.len() == layers.len());
        lemma_transformer_places(LAYERS as nat, index);
        assert(feature_requests(CONVOLUTIONS as nat).len() == 7);
        if 0 <= index < CONVOLUTIONS {
            assert(self.feature_convolutions@[index] == layers[index]);
            assert(requests[index] == feature_request(index));
        }
        assert(layers[8].kind == requests[8].kind);
        assert(layers[9].kind == requests[9].kind);
        assert(layers[10].kind == requests[10].kind);
        assert(layers[11].kind == requests[11].kind);
        if 0 <= index < LAYERS {
            let start = 12 + 8 * index;
            let layer = self.encoder_layers@[index];
            assert(layer == transformer_of(layers, start));
            assert forall|part: int| 0 <= part < 8 implies #[trigger] layers[start + part].kind
                == transformer_requests(index as nat)[part].kind by {
                assert(requests[start + part] == transformers_requests(LAYERS as nat)[8 * index
                    + part]);
            }
            assert(layers[start + 0].kind == transformer_requests(index as nat)[0].kind);
            assert(layers[start + 1].kind == transformer_requests(index as nat)[1].kind);
            assert(layers[start + 2].kind == transformer_requests(index as nat)[2].kind);
            assert(layers[start + 3].kind == transformer_requests(index as nat)[3].kind);
            assert(layers[start + 4].kind == transformer_requests(index as nat)[4].kind);
            assert(layers[start + 5].kind == transformer_requests(index as nat)[5].kind);
            assert(layers[start + 6].kind == transformer_requests(index as nat)[6].kind);
            assert(layers[start + 7].kind == transformer_requests(index as nat)[7].kind);
        }
    }

    /// The source frame of each target frame.
    pub fn expand_nearest(features: &[i32], target_length: i32) -> (result: Result<
        Vec<i32>,
        ContentVecError,
    >)
        requires
            features@.len() == 3 ==> features@[1] >= 0,
        ensures
            match result {
                Ok(indices) => {
                    &&& features@.len() == 3
                    &&& target_length > 0
                    &&& indices@.len() == target_length
                    &&& forall|i: int|
                        0 <= i < target_length ==> #[trigger] indices@[i]
                            == lengths::nearest_index(
                            i as nat,
                            features@[1] as nat,
                            target_length as nat,
                        )
                },
                Err(ContentVecError::FeatureRank) => features@.len() != 3,
                Err(error) => features@.len() == 3 && target_length <= 0 && error
                    == ContentVecError::TargetLength,
            },
    {
        if features.len() != 3 {
            return Err(ContentVecError::FeatureRank);
        }
        if target_length <= 0 {
            return Err(ContentVecError::TargetLength);
        }
        Ok(lengths::nearest_indices(features[1], target_length))
    }
}

proof fn lemma_negative_quotient(value: int, divisor: int)
    requires
        value < 0,
        divisor > 0,
    ensures
        value / divisor + 1 <= 0,
{
    lemma_fundamental_div_mod(value, divisor);
    lemma_mod_bound(value, divisor);
    assert(value / divisor < 0) by (nonlinear_arith)
        requires
            value == divisor * (value / divisor) + value % divisor,
            value < 0,
            divisor > 0,
            value % divisor >= 0,
    ;
}

} // verus!
