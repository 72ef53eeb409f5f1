//! The stages by which frames are turned into samples.
//!
//! Each of five stages multiplies the length by a rate, adds a share of the
//! harmonic source that is shortened to the same length, and runs three
//! residual blocks over the sum.

use crate::names;
use crate::names::numbered_name;
use crate::weights::{
    all_named, all_sensible, ask, named, plain, want, wanted, Kind, Layer, Request, Table, Wanted,
};
use vstd::arithmetic::div_mod::*;
use vstd::prelude::*;

verus! {

/// The number of stages.
pub const STAGES: usize = 5;

/// Samples for each frame.
pub const UPSAMPLE_FACTOR: i32 = 512;

/// The number of harmonics of the source.
pub const HARMONICS: i32 = 9;

/// By how much a stage multiplies the length.
pub open spec fn rate(stage: int) -> int {
    if stage < 2 {
        8
    } else {
        2
    }
}

/// By how much the stages up to one multiply the length together.
pub open spec fn factor(stage: int) -> int {
    if stage == 0 {
        8
    } else if stage == 1 {
        64
    } else if stage == 2 {
        128
    } else if stage == 3 {
        256
    } else {
        512
    }
}

/// The channels that come out of a stage.
pub open spec fn channels(stage: int) -> int {
    if stage == 0 {
        256
    } else if stage == 1 {
        128
    } else if stage == 2 {
        64
    } else if stage == 3 {
        32
    } else {
        16
    }
}

/// The kernel of the convolution that shortens the source for a stage: twice
/// the stride, but one where nothing is shortened.
pub open spec fn source_kernel(stage: int) -> int {
    if stage == 4 {
        1
    } else {
        2 * (512int / factor(stage))
    }
}

/// The upsampling layer of a stage.
pub open spec fn upsample_kind(stage: int) -> Kind {
    Kind::ConvTranspose1d {
        input_channels: (2 * channels(stage)) as i32,
        output_channels: channels(stage) as i32,
        kernel_size: (2 * rate(stage)) as i32,
        padding: (rate(stage) / 2) as i32,
        stride: rate(stage) as i32,
    }
}

/// The layer that shortens the source for a stage.
pub open spec fn source_kind(stage: int) -> Kind {
    Kind::Conv1d {
        input_channels: 1,
        output_channels: channels(stage) as i32,
        kernel_size: source_kernel(stage) as i32,
        padding: (source_kernel(stage) / 4) as i32,
        dilation: 1,
        stride: (512int / factor(stage)) as i32,
        groups: 1,
        bias: true,
    }
}

/// The kernel size of a residual block.
pub open spec fn block_kernel(block: int) -> int {
    if block % 3 == 0 {
        3
    } else if block % 3 == 1 {
        7
    } else {
        11
    }
}

/// A layer of a residual block: three that are dilated by 1, 3 and 5, then
/// three that are not.
pub open spec fn block_kind(block: int, part: int) -> Kind {
    let dilation: int = if part == 1 {
        3
    } else if part == 2 {
        5
    } else {
        1
    };
    Kind::Conv1d {
        input_channels: channels(block / 3) as i32,
        output_channels: channels(block / 3) as i32,
        kernel_size: block_kernel(block) as i32,
        padding: (dilation * (block_kernel(block) - 1) / 2) as i32,
        dilation: dilation as i32,
        stride: 1,
        groups: 1,
        bias: true,
    }
}

/// The name of a layer of a residual block.
pub open spec fn block_name(prefix: Seq<char>, block: nat, part: nat) -> Seq<char> {
    if part < 3 {
        numbered_name(numbered_name(prefix + "resblocks."@, block, ".convs1."@), part, ""@)
    } else {
        numbered_name(
            numbered_name(prefix + "resblocks."@, block, ".convs2."@),
            (part - 3) as nat,
            ""@,
        )
    }
}

/// The request at a place of the list: five upsampling layers, five layers for
/// the source, and six for each of fifteen residual blocks.
pub open spec fn stage_request(prefix: Seq<char>, place: int) -> Wanted {
    if place < 5 {
        want(numbered_name(prefix + "ups."@, place as nat, ""@), upsample_kind(place))
    } else if place < 10 {
        want(
            numbered_name(prefix + "noise_convs."@, (place - 5) as nat, ""@),
            source_kind(place - 5),
        )
    } else {
        let block = (place - 10) / 6;
        let part = (place - 10) % 6;
        want(block_name(prefix, block as nat, part as nat), block_kind(block, part))
    }
}

/// The requests of the stages.
pub open spec fn stage_requests(prefix: Seq<char>, count: nat) -> Seq<Wanted> {
    Seq::new(count, |place: int| stage_request(prefix, place))
}

/// See [`rate`].
pub fn rate_of(stage: usize) -> (result: i32)
    ensures
        result == rate(stage as int),
{
    if stage < 2 {
        8
    } else {
        2
    }
}

/// See [`factor`].
fn factor_of(stage: usize) -> (result: i32)
    ensures
        result == factor(stage as int),
        0 < result <= 512,
{
    match stage {
        0 => 8,
        1 => 64,
        2 => 128,
        3 => 256,
        _ => 512,
    }
}

/// See [`channels`].
fn channels_of(stage: usize) -> (result: i32)
    ensures
        result == channels(stage as int),
        0 < result <= 256,
{
    match stage {
        0 => 256,
        1 => 128,
        2 => 64,
        3 => 32,
        _ => 16,
    }
}

/// Adds the requests of the stages.
pub fn ask_stages(requests: &mut Vec<Request>, prefix: &str)
    requires
        all_sensible(wanted(old(requests)@)),
    ensures
        all_sensible(wanted(final(requests)@)),
        wanted(final(requests)@) == wanted(old(requests)@) + stage_requests(prefix@, 100),
{
    let ghost start = wanted(requests@);
    let ups = names::joined(prefix, "ups.");
    let noise = names::joined(prefix, "noise_convs.");
    let blocks = names::joined(prefix, "resblocks.");
    let mut place: usize = 0;
    assert(start =~= start + stage_requests(prefix@, 0));
    while place < 100
        invariant
            place <= 100,
            ups@ == prefix@ + "ups."@,
            noise@ == prefix@ + "noise_convs."@,
            blocks@ == prefix@ + "resblocks."@,
            all_sensible(wanted(requests@)),
            wanted(requests@) == start + stage_requests(prefix@, place as nat),
        decreases 100 - place,
    {
        if place < 5 {
            let stage_rate = rate_of(place);
            ask(
                requests,
                names::numbered(ups.as_str(), place, ""),
                Kind::ConvTranspose1d {
                    input_channels: 2 * channels_of(place),
                    output_channels: channels_of(place),
                    kernel_size: 2 * stage_rate,
                    padding: stage_rate / 2,
                    stride: stage_rate,
                },
            );
        } else if place < 10 {
            let stage: usize = place - 5;
            let stride: i32 = 512 / factor_of(stage);
            let kernel_size: i32 = if stage == 4 {
                1
            } else {
                2 * stride
            };
            ask(
                requests,
                names::numbered(noise.as_str(), stage, ""),
                Kind::Conv1d {
                    input_channels: 1,
                    output_channels: channels_of(stage),
                    kernel_size,
                    padding: kernel_size / 4,
                    dilation: 1,
                    stride,
                    groups: 1,
                    bias: true,
                },
            );
        } else {
            let block: usize = (place - 10) / 6;
            let part: usize = (place - 10) % 6;
            let kernel_size: i32 = match block % 3 {
                0 => 3,
                1 => 7,
                _ => 11,
            };
            let dilation: i32 = match part {
                1 => 3,
                2 => 5,
                _ => 1,
            };
            let name = if part < 3 {
                let group = names::numbered(blocks.as_str(), block, ".convs1.");
                names::numbered(group.as_str(), part, "")
            } else {
                let group = names::numbered(blocks.as_str(), block, ".convs2.");
                names::numbered(group.as_str(), part - 3, "")
            };
            let width = channels_of(block / 3);
            ask(
                requests,
                name,
                Kind::Conv1d {
                    input_channels: width,
                    output_channels: width,
                    kernel_size,
                    padding: dilation * (kernel_size - 1) / 2,
                    dilation,
                    stride: 1,
                    groups: 1,
                    bias: true,
                },
            );
        }
        place = place + 1;
        assert(wanted(requests@) =~= start + stage_requests(prefix@, place as nat));
    }
}

/// The layers of a residual block.
#[derive(Debug)]
pub struct ResBlock {
    pub convs_1: Vec<Layer>,
    pub convs_2: Vec<Layer>,
}

/// The layers of the stages.
#[derive(Debug)]
pub struct Stages {
    pub upsample_layers: Vec<Layer>,
    pub noise_convs: Vec<Layer>,
    /// Three for each stage.
    pub resblocks: Vec<ResBlock>,
}

/// A part of a list of layers.
fn part_of(layers: &Vec<Layer>, start: usize, count: usize) -> (result: Vec<Layer>)
    requires
        start + count <= layers.len(),
    ensures
        result@ == layers@.subrange(start as int, start + count),
{
    let mut result: Vec<Layer> = Vec::new();
    let mut index: usize = 0;
    while index < count
        invariant
            index <= count,
            start + count <= layers.len(),
            result@ == layers@.subrange(start as int, start + index),
        decreases count - index,
    {
        result.push(layers[start + index]);
        index = index + 1;
    }
    result
}

impl Stages {
    /// Whether the layers are those from `start` on.
    pub open spec fn holds(self, layers: Seq<Layer>, start: int) -> bool {
        &&& self.upsample_layers@ == layers.subrange(start, start + 5)
        &&& self.noise_convs@ == layers.subrange(start + 5, start + 10)
        &&& self.resblocks@.len() == 15
        &&& forall|i: int|
            0 <= i < 15 ==> {
                let first = start + 10 + 6 * i;
                &&& (#[trigger] self.resblocks@[i]).convs_1@ == layers.subrange(first, first + 3)
                &&& self.resblocks@[i].convs_2@ == layers.subrange(first + 3, first + 6)
            }
    }

    /// Groups the layers that the requests of the stages gave.
    pub fn from_layers(layers: &Vec<Layer>, start: usize) -> (result: Stages)
        requires
            start + 100 <= layers.len(),
        ensures
            result.holds(layers@, start as int),
    {
        let mut resblocks: Vec<ResBlock> = Vec::new();
        let mut index: usize = 0;
        while index < 15
            invariant
                index <= 15,
                start + 100 <= layers.len(),
                resblocks@.len() == index,
                forall|i: int|
                    0 <= i < index ==> {
                        let first = start + 10 + 6 * i;
                        &&& (#[trigger] resblocks@[i]).convs_1@ == layers@.subrange(
                            first,
                            first + 3,
                        )
                        &&& resblocks@[i].convs_2@ == layers@.subrange(first + 3, first + 6)
                    },
            decreases 15 - index,
        {
            let first: usize = start + 10 + 6 * index;
            resblocks.push(
                ResBlock {
                    convs_1: part_of(layers, first, 3),
                    convs_2: part_of(layers, first + 3, 3),
                },
            );
            index = index + 1;
        }
        Stages {
            upsample_layers: part_of(layers, start, 5),
            noise_convs: part_of(layers, start + 5, 5),
            resblocks,
        }
    }
}

/// A layer that lengthens.
pub open spec fn lengthening(channels: i32, kernel_size: i32, padding: i32, stride: i32) -> Kind {
    Kind::ConvTranspose1d {
        input_channels: (2 * channels) as i32,
        output_channels: channels,
        kernel_size,
        padding,
        stride,
    }
}

/// A layer that shortens the source.
pub open spec fn shortening(channels: i32, kernel_size: i32, padding: i32, stride: i32) -> Kind {
    Kind::Conv1d {
        input_channels: 1,
        output_channels: channels,
        kernel_size,
        padding,
        dilation: 1,
        stride,
        groups: 1,
        bias: true,
    }
}

/// A layer of a residual block that leaves gaps.
pub open spec fn dilated(channels: i32, kernel_size: i32, padding: i32, dilation: i32) -> Kind {
    Kind::Conv1d {
        input_channels: channels,
        output_channels: channels,
        kernel_size,
        padding,
        dilation,
        stride: 1,
        groups: 1,
        bias: true,
    }
}

impl ResBlock {
    /// Whether the layers hold the tensors that are named for them: three with
    /// gaps of one, three and five, and three without.
    pub open spec fn named(
        self,
        table: Table,
        prefix: Seq<char>,
        block: nat,
        channels: i32,
        kernel_size: i32,
    ) -> bool {
        let first = numbered_name(prefix + "resblocks."@, block, ".convs1."@);
        let second = numbered_name(prefix + "resblocks."@, block, ".convs2."@);
        let half = (kernel_size - 1) / 2;
        &&& self.convs_1@.len() == 3
        &&& self.convs_2@.len() == 3
        &&& plain(
            self.convs_1@[0],
            table,
            numbered_name(first, 0, ""@),
            dilated(channels, kernel_size, half as i32, 1),
        )
        &&& plain(
            self.convs_1@[1],
            table,
            numbered_name(first, 1, ""@),
            dilated(channels, kernel_size, (3 * half) as i32, 3),
        )
        &&& plain(
            self.convs_1@[2],
            table,
            numbered_name(first, 2, ""@),
            dilated(channels, kernel_size, (5 * half) as i32, 5),
        )
        &&& forall|k: int|
            0 <= k < 3 ==> plain(
                #[trigger] self.convs_2@[k],
                table,
                numbered_name(second, k as nat, ""@),
                dilated(channels, kernel_size, half as i32, 1),
            )
    }
}

impl Stages {
    /// Whether the layers hold the tensors that are named for them.
    pub open spec fn named(self, table: Table, prefix: Seq<char>) -> bool {
        let ups = prefix + "ups."@;
        let noise = prefix + "noise_convs."@;
        &&& self.upsample_layers@.len() == 5
        &&& plain(
            self.upsample_layers@[0],
            table,
            numbered_name(ups, 0, ""@),
            lengthening(256, 16, 4, 8),
        )
        &&& plain(
            self.upsample_layers@[1],
            table,
            numbered_name(ups, 1, ""@),
            lengthening(128, 16, 4, 8),
        )
        &&& plain(
            self.upsample_layers@[2],
            table,
            numbered_name(ups, 2, ""@),
            lengthening(64, 4, 1, 2),
        )
        &&& plain(
            self.upsample_layers@[3],
            table,
            numbered_name(ups, 3, ""@),
            lengthening(32, 4, 1, 2),
        )
        &&& plain(
            self.upsample_layers@[4],
            table,
            numbered_name(ups, 4, ""@),
            lengthening(16, 4, 1, 2),
        )
        &&& self.noise_convs@.len() == 5
        &&& plain(
            self.noise_convs@[0],
            table,
            numbered_name(noise, 0, ""@),
            shortening(256, 128, 32, 64),
        )
        &&& plain(
            self.noise_convs@[1],
            table,
            numbered_name(noise, 1, ""@),
            shortening(128, 16, 4, 8),
        )
        &&& plain(
            self.noise_convs@[2],
            table,
            numbered_name(noise, 2, ""@),
            shortening(64, 8, 2, 4),
        )
        &&& plain(
            self.noise_convs@[3],
            table,
            numbered_name(noise, 3, ""@),
            shortening(32, 4, 1, 2),
        )
        &&& plain(
            self.noise_convs@[4],
            table,
            numbered_name(noise, 4, ""@),
            shortening(16, 1, 0, 1),
        )
        &&& self.resblocks@.len() == 15
        &&& forall|stage: int, place: int|
            0 <= stage < 5 && 0 <= place < 3 ==> (#[trigger] self.resblocks@[3 * stage
                + place]).named(
                table,
                prefix,
                (3 * stage + place) as nat,
                (if stage == 0 {
                    256i32
                } else if stage == 1 {
                    128
                } else if stage == 2 {
                    64
                } else if stage == 3 {
                    32
                } else {
                    16
                }),
                (3 + 4 * place) as i32,
            )
    }

    /// The tensors of one residual block.
    proof fn lemma_block(
        self,
        table: Table,
        prefix: Seq<char>,
        layers: Seq<Layer>,
        start: int,
        stage: int,
        place: int,
    )
        requires
            self.holds(layers, start),
            start >= 0,
            start + 100 <= layers.len(),
            all_named(layers, start, table, stage_requests(prefix, 100)),
            0 <= stage < 5,
            0 <= place < 3,
        ensures
            self.resblocks@[3 * stage + place].named(
                table,
                prefix,
                (3 * stage + place) as nat,
                channels(stage) as i32,
                (3 + 4 * place) as i32,
            ),
    {
        let block = 3 * stage + place;
        let resblock = self.resblocks@[block];
        let first = start + 10 + 6 * block;
        assert(resblock.convs_1@ == layers.subrange(first, first + 3));
        assert(resblock.convs_2@ == layers.subrange(first + 3, first + 6));
        assert(block / 3 == stage && block % 3 == place);
        lemma_block_request(table, prefix, layers, start, block, 0);
        lemma_block_request(table, prefix, layers, start, block, 1);
        lemma_block_request(table, prefix, layers, start, block, 2);
        lemma_block_request(table, prefix, layers, start, block, 3);
        lemma_block_request(table, prefix, layers, start, block, 4);
        lemma_block_request(table, prefix, layers, start, block, 5);
        assert(resblock.convs_1@[0] == layers[first + 0]);
        assert(resblock.convs_1@[1] == layers[first + 1]);
        assert(resblock.convs_1@[2] == layers[first + 2]);
        assert(resblock.convs_2@[0] == layers[first + 3]);
        assert(resblock.convs_2@[1] == layers[first + 4]);
        assert(resblock.convs_2@[2] == layers[first + 5]);
    }

    /// Every tensor of the stages goes to the layer that it is named for.
    pub proof fn lemma_tensors(
        self,
        table: Table,
        prefix: Seq<char>,
        layers: Seq<Layer>,
        start: int,
    )
        requires
            self.holds(layers, start),
            start >= 0,
            start + 100 <= layers.len(),
            all_named(layers, start, table, stage_requests(prefix, 100)),
        ensures
            self.named(table, prefix),
    {
        assert forall|i: int| 0 <= i < 5 implies #[trigger] self.upsample_layers@[i] == layers[start
            + i] by {
        }
        assert forall|i: int| 0 <= i < 5 implies #[trigger] self.noise_convs@[i] == layers[start + 5
            + i] by {
        }
        lemma_stage_request(table, prefix, layers, start, 0);
        lemma_stage_request(table, prefix, layers, start, 1);
        lemma_stage_request(table, prefix, layers, start, 2);
        lemma_stage_request(table, prefix, layers, start, 3);
        lemma_stage_request(table, prefix, layers, start, 4);
        assert forall|stage: int, place: int| 0 <= stage < 5 && 0 <= place < 3 implies (
        #[trigger] self.resblocks@[3 * stage + place]).named(
            table,
            prefix,
            (3 * stage + place) as nat,
            (if stage == 0 {
                256i32
            } else if stage == 1 {
                128
            } else if stage == 2 {
                64
            } else if stage == 3 {
                32
            } else {
                16
            }),
            (3 + 4 * place) as i32,
        ) by {
            self.lemma_block(table, prefix, layers, start, stage, place);
        }
    }
}

/// The tensors of a layer of a residual block.
proof fn lemma_block_request(
    table: Table,
    prefix: Seq<char>,
    layers: Seq<Layer>,
    start: int,
    block: int,
    part: int,
)
    requires
        all_named(layers, start, table, stage_requests(prefix, 100)),
        0 <= block < 15,
        0 <= part < 6,
    ensures
        plain(
            layers[start + 10 + 6 * block + part],
            table,
            block_name(prefix, block as nat, part as nat),
            block_kind(block, part),
        ),
{
    let at = 10 + 6 * block + part;
    let requests = stage_requests(prefix, 100);
    assert(requests[at] == stage_request(prefix, at));
    assert((at - 10) / 6 == block && (at - 10) % 6 == part);
    assert(named(layers[start + at], table, requests[at]));
}

/// The tensors of the upsampling layer of a stage and of the layer for its
/// source.
proof fn lemma_stage_request(
    table: Table,
    prefix: Seq<char>,
    layers: Seq<Layer>,
    start: int,
    stage: int,
)
    requires
        all_named(layers, start, table, stage_requests(prefix, 100)),
        0 <= stage < 5,
    ensures
        plain(
            layers[start + stage],
            table,
            numbered_name(prefix + "ups."@, stage as nat, ""@),
            upsample_kind(stage),
        ),
        plain(
            layers[start + 5 + stage],
            table,
            numbered_name(prefix + "noise_convs."@, stage as nat, ""@),
            source_kind(stage),
        ),
{
    let requests = stage_requests(prefix, 100);
    assert(requests[stage] == stage_request(prefix, stage));
    assert(requests[5 + stage] == stage_request(prefix, 5 + stage));
    assert(named(layers[start + stage], table, requests[stage]));
    assert(named(layers[start + (5 + stage)], table, requests[5 + stage]));
}

/// The length after each stage, for `frames` frames.
pub fn stage_lengths(frames: i32) -> (lengths: Vec<i32>)
    requires
        0 < frames,
        frames * 512 <= i32::MAX,
    ensures
        lengths@.len() == STAGES,
        forall|stage: int|
            0 <= stage < STAGES ==> #[trigger] lengths@[stage] == frames * factor(stage),
        lengths@[0] == 8 * frames,
        lengths@[1] == 8 * lengths@[0],
        lengths@[2] == 2 * lengths@[1],
        lengths@[3] == 2 * lengths@[2],
        lengths@[4] == 2 * lengths@[3],
{
    let mut lengths: Vec<i32> = Vec::new();
    let mut stage: usize = 0;
    let mut length: i32 = frames;
    while stage < STAGES
        invariant
            stage <= STAGES,
            0 < frames,
            frames * 512 <= i32::MAX,
            stage > 0 ==> length == frames * factor(stage - 1),
            stage == 0 ==> length == frames,
            lengths@.len() == stage,
            forall|i: int| 0 <= i < stage ==> #[trigger] lengths@[i] == frames * factor(i),
        decreases STAGES - stage,
    {
        length = length * rate_of(stage);
        lengths.push(length);
        stage = stage + 1;
    }
    lengths
}

/// In every stage the upsampled frames and the shortened source have the same
/// length, and the residual blocks keep it. After the last stage there are
/// 512 samples for each frame.
pub proof fn lemma_stage_lengths(frames: int, stage: int, block: int, part: int)
    requires
        frames > 0,
        0 <= stage < STAGES,
        3 * stage <= block < 3 * stage + 3,
        0 <= part < 6,
    ensures
        upsample_kind(stage).output_length(
            if stage == 0 {
                frames
            } else {
                frames * factor(stage - 1)
            },
        ) == frames * factor(stage),
        source_kind(stage).output_length(frames * UPSAMPLE_FACTOR) == frames * factor(stage),
        block_kind(block, part).output_length(frames * factor(stage)) == frames * factor(stage),
        factor(STAGES - 1) == UPSAMPLE_FACTOR,
{
    let length = frames * factor(stage);
    // The upsampling.
    let share = if stage == 0 {
        1
    } else {
        factor(stage - 1)
    };
    let before = if stage == 0 {
        frames
    } else {
        frames * share
    };
    let r = rate(stage);
    let f = factor(stage);
    assert((before - 1) * r - 2 * (r / 2) + 2 * r == frames * f) by (nonlinear_arith)
        requires
            before == frames * share,
            share * r == f,
            r == 8 || r == 2,
    ;
    // The source.
    let stride = 512int / factor(stage);
    assert(1 * (source_kernel(stage) - 1) == source_kernel(stage) - 1);
    assert((length * stride - stride) / stride + 1 == length) by {
        lemma_div_multiples_vanish(length - 1, stride);
        assert(stride * (length - 1) == length * stride - stride) by (nonlinear_arith);
    }
    assert(frames * 512 == length * stride) by (nonlinear_arith)
        requires
            length == frames * f,
            f * stride == 512,
    ;
    // The blocks.
    lemma_div_basics_2(length - 1);
    let kernel = block_kernel(block);
    assert(3 * (kernel - 1) / 2 * 2 == 3 * (kernel - 1));
    assert(5 * (kernel - 1) / 2 * 2 == 5 * (kernel - 1));
    assert(1 * (kernel - 1) / 2 * 2 == 1 * (kernel - 1));
}

/// The channels fit together: a stage takes what the one before gives, and
/// its parts have the same number.
pub proof fn lemma_stage_channels(stage: int, block: int, part: int)
    requires
        0 <= stage < STAGES,
        3 * stage <= block < 3 * stage + 3,
        0 <= part < 6,
    ensures
        upsample_kind(stage) matches Kind::ConvTranspose1d { input_channels, output_channels, .. }
            && input_channels == (if stage == 0 {
            512
        } else {
            channels(stage - 1)
        }) && output_channels == channels(stage),
        source_kind(stage) matches Kind::Conv1d { output_channels, .. } && output_channels
            == channels(stage),
        block_kind(block, part) matches Kind::Conv1d { input_channels, output_channels, .. }
            && input_channels == channels(stage) && output_channels == channels(stage),
{
}

} // verus!
