//! Attention with relative positions, and the transformers built from it.

use crate::names;
use crate::names::numbered_name;
use crate::weights::{
    all_named, all_sensible, ask, bare, convolution, named, plain, scaled, want, wanted, Kind,
    Layer, Request, Table, Wanted,
};
use vstd::arithmetic::div_mod::*;
use vstd::arithmetic::mul::*;
use vstd::prelude::*;

verus! {

/// The number of layers of each transformer.
pub const LAYERS: usize = 6;

/// How far relative positions reach to either side.
pub const WINDOW_SIZE: i32 = 4;

/// The projections of an attention.
pub open spec fn attention_requests(prefix: Seq<char>) -> Seq<Wanted> {
    let kind = convolution(192, 192, 1, 0);
    seq![
        want(prefix + ".conv_q"@, kind),
        want(prefix + ".conv_k"@, kind),
        want(prefix + ".conv_v"@, kind),
        want(prefix + ".conv_o"@, kind),
    ]
}

/// The embeddings of relative positions.
pub open spec fn relative_requests(prefix: Seq<char>) -> Seq<Wanted> {
    seq![want(prefix + ".emb_rel_k"@, Kind::Values), want(prefix + ".emb_rel_v"@, Kind::Values)]
}

/// Adds the requests of an attention.
fn ask_attention(requests: &mut Vec<Request>, prefix: &str, relative: bool)
    requires
        all_sensible(wanted(old(requests)@)),
    ensures
        all_sensible(wanted(final(requests)@)),
        wanted(final(requests)@) == wanted(old(requests)@) + attention_requests(prefix@) + (
        if relative {
            relative_requests(prefix@)
        } else {
            seq![]
        }),
{
    let kind = convolution(192, 192, 1, 0);
    ask(requests, names::joined(prefix, ".conv_q"), kind);
    ask(requests, names::joined(prefix, ".conv_k"), kind);
    ask(requests, names::joined(prefix, ".conv_v"), kind);
    ask(requests, names::joined(prefix, ".conv_o"), kind);
    if relative {
        ask(requests, names::joined(prefix, ".emb_rel_k"), Kind::Values);
        ask(requests, names::joined(prefix, ".emb_rel_v"), Kind::Values);
    }
    assert(wanted(requests@) =~= wanted(old(requests)@) + attention_requests(prefix@) + (
    if relative {
        relative_requests(prefix@)
    } else {
        seq![]
    }));
}

/// The two convolutions of a feed-forward step. A causal one is padded on one
/// side before it, so the convolutions pad nothing themselves.
pub open spec fn feed_forward_requests(prefix: Seq<char>, causal: bool) -> Seq<Wanted> {
    let padding: i32 = if causal {
        0
    } else {
        1
    };
    seq![
        want(prefix + ".conv_1"@, convolution(192, 768, 3, padding)),
        want(prefix + ".conv_2"@, convolution(768, 192, 3, padding)),
    ]
}

/// Adds the requests of a feed-forward step.
fn ask_feed_forward(requests: &mut Vec<Request>, prefix: &str, causal: bool)
    requires
        all_sensible(wanted(old(requests)@)),
    ensures
        all_sensible(wanted(final(requests)@)),
        wanted(final(requests)@) == wanted(old(requests)@) + feed_forward_requests(prefix@, causal),
{
    let padding: i32 = if causal {
        0
    } else {
        1
    };
    ask(requests, names::joined(prefix, ".conv_1"), convolution(192, 768, 3, padding));
    ask(requests, names::joined(prefix, ".conv_2"), convolution(768, 192, 3, padding));
    assert(wanted(requests@) =~= wanted(old(requests)@) + feed_forward_requests(prefix@, causal));
}

/// One layer of the encoder: ten requests.
pub open spec fn encoder_layer_requests(index: nat) -> Seq<Wanted> {
    let attention = numbered_name("enc_p.enc_.attn_layers."@, index, ""@);
    attention_requests(attention) + relative_requests(attention) + seq![
        want(
            numbered_name("enc_p.enc_.norm_layers_1."@, index, ""@),
            Kind::LayerNorm { dimensions: 192 },
        ),
    ] + feed_forward_requests(numbered_name("enc_p.enc_.ffn_layers."@, index, ""@), false) + seq![
        want(
            numbered_name("enc_p.enc_.norm_layers_2."@, index, ""@),
            Kind::LayerNorm { dimensions: 192 },
        ),
    ]
}

/// The first `count` layers of the encoder.
pub open spec fn encoder_requests(count: nat) -> Seq<Wanted>
    decreases count,
{
    if count == 0 {
        seq![]
    } else {
        encoder_requests((count - 1) as nat) + encoder_layer_requests((count - 1) as nat)
    }
}

/// Adds the requests of the encoder.
pub fn ask_encoder(requests: &mut Vec<Request>)
    requires
        all_sensible(wanted(old(requests)@)),
    ensures
        all_sensible(wanted(final(requests)@)),
        wanted(final(requests)@) == wanted(old(requests)@) + encoder_requests(LAYERS as nat),
{
    let ghost start = wanted(requests@);
    let mut index: usize = 0;
    assert(start =~= start + encoder_requests(0));
    while index < LAYERS
        invariant
            index <= LAYERS,
            all_sensible(wanted(requests@)),
            wanted(requests@) == start + encoder_requests(index as nat),
        decreases LAYERS - index,
    {
        let attention = names::numbered("enc_p.enc_.attn_layers.", index, "");
        ask_attention(requests, attention.as_str(), true);
        ask(
            requests,
            names::numbered("enc_p.enc_.norm_layers_1.", index, ""),
            Kind::LayerNorm { dimensions: 192 },
        );
        let feed_forward = names::numbered("enc_p.enc_.ffn_layers.", index, "");
        ask_feed_forward(requests, feed_forward.as_str(), false);
        ask(
            requests,
            names::numbered("enc_p.enc_.norm_layers_2.", index, ""),
            Kind::LayerNorm { dimensions: 192 },
        );
        index = index + 1;
        assert(wanted(requests@) =~= start + encoder_requests(index as nat));
    }
}

/// One layer of the causal decoder: eight requests.
pub open spec fn causal_layer_requests(index: nat) -> Seq<Wanted> {
    attention_requests(numbered_name("f0_decoder.decoder.self_attn_layers."@, index, ""@)) + seq![
        want(
            numbered_name("f0_decoder.decoder.norm_layers_0."@, index, ""@),
            Kind::LayerNorm { dimensions: 192 },
        ),
    ] + feed_forward_requests(
        numbered_name("f0_decoder.decoder.ffn_layers."@, index, ""@),
        true,
    ) + seq![
        want(
            numbered_name("f0_decoder.decoder.norm_layers_1."@, index, ""@),
            Kind::LayerNorm { dimensions: 192 },
        ),
    ]
}

/// The first `count` layers of the causal decoder.
pub open spec fn causal_requests(count: nat) -> Seq<Wanted>
    decreases count,
{
    if count == 0 {
        seq![]
    } else {
        causal_requests((count - 1) as nat) + causal_layer_requests((count - 1) as nat)
    }
}

/// Adds the requests of the causal decoder.
pub fn ask_causal(requests: &mut Vec<Request>)
    requires
        all_sensible(wanted(old(requests)@)),
    ensures
        all_sensible(wanted(final(requests)@)),
        wanted(final(requests)@) == wanted(old(requests)@) + causal_requests(LAYERS as nat),
{
    let ghost start = wanted(requests@);
    let mut index: usize = 0;
    assert(start =~= start + causal_requests(0));
    while index < LAYERS
        invariant
            index <= LAYERS,
            all_sensible(wanted(requests@)),
            wanted(requests@) == start + causal_requests(index as nat),
        decreases LAYERS - index,
    {
        let attention = names::numbered("f0_decoder.decoder.self_attn_layers.", index, "");
        ask_attention(requests, attention.as_str(), false);
        ask(
            requests,
            names::numbered("f0_decoder.decoder.norm_layers_0.", index, ""),
            Kind::LayerNorm { dimensions: 192 },
        );
        let feed_forward = names::numbered("f0_decoder.decoder.ffn_layers.", index, "");
        ask_feed_forward(requests, feed_forward.as_str(), true);
        ask(
            requests,
            names::numbered("f0_decoder.decoder.norm_layers_1.", index, ""),
            Kind::LayerNorm { dimensions: 192 },
        );
        index = index + 1;
        assert(wanted(requests@) =~= start + causal_requests(index as nat));
    }
}

/// Which rows of a table of embeddings, one for each relative position within
/// the window, stand for the relative positions in a sequence: the table is
/// padded with zeros on both sides and cut.
#[derive(Clone, Copy, Debug, PartialEq, Eq, Structural)]
pub struct EmbeddingWindow {
    /// Rows of zeros on either side.
    pub padding: i32,
    /// The first row that is kept.
    pub start: i32,
    /// The row after the last that is kept.
    pub end: i32,
}

/// The larger of a number and zero.
pub open spec fn positive_part(value: int) -> int {
    if value > 0 {
        value
    } else {
        0
    }
}

/// The rows for a sequence of `length` items.
pub fn relative_embeddings(length: i32) -> (window: EmbeddingWindow)
    requires
        0 < length <= 0x3fff_ffff,
    ensures
        window.padding == positive_part(length - (WINDOW_SIZE + 1)),
        window.start == positive_part(WINDOW_SIZE + 1 - length),
        window.end == window.start + 2 * length - 1,
        0 <= window.start < window.end <= 2 * window.padding + 2 * WINDOW_SIZE + 1,
{
    let padding: i32 = if length > WINDOW_SIZE + 1 {
        length - (WINDOW_SIZE + 1)
    } else {
        0
    };
    let start: i32 = if WINDOW_SIZE + 1 > length {
        WINDOW_SIZE + 1 - length
    } else {
        0
    };
    EmbeddingWindow { padding, start, end: start + 2 * length - 1 }
}

/// The row that is kept for a relative position holds the embedding of that
/// position where it is within the window, and zeros where it is not.
pub proof fn lemma_relative_row(length: int, offset: int)
    requires
        length > 0,
        -length < offset < length,
    ensures
        ({
            let padding = positive_part(length - (WINDOW_SIZE + 1));
            let start = positive_part(WINDOW_SIZE + 1 - length);
            let row = start + (offset + length - 1);
            &&& 0 <= row < 2 * padding + 2 * WINDOW_SIZE + 1
            &&& row - padding == offset + WINDOW_SIZE
            &&& 0 <= row - padding < 2 * WINDOW_SIZE + 1 <==> -WINDOW_SIZE <= offset
                <= WINDOW_SIZE
        }),
{
}

/// How a table over relative positions becomes one over pairs of positions:
/// each row gets one more column, the rows are joined and padded, and the
/// result is cut into rows of another length.
#[derive(Clone, Copy, Debug, PartialEq, Eq, Structural)]
pub struct AbsoluteLayout {
    /// The length of the joined rows.
    pub joined: i32,
    /// What is added after them.
    pub padding: i32,
    pub rows: i32,
    pub columns: i32,
    /// The rows that are kept.
    pub kept_rows: i32,
    /// The first column that is kept.
    pub first_column: i32,
}

/// Lays out the step from relative to absolute positions.
pub fn relative_to_absolute(length: i32) -> (layout: AbsoluteLayout)
    requires
        0 < length <= 0x7fff,
    ensures
        layout.joined == length * 2 * length,
        layout.padding == length - 1,
        layout.rows == length + 1,
        layout.columns == 2 * length - 1,
        layout.kept_rows == length,
        layout.first_column == length - 1,
        layout.joined + layout.padding == layout.rows * layout.columns,
{
    assert(0 <= length * 2 * length <= 0x7fff * 2 * 0x7fff) by (nonlinear_arith)
        requires
            0 < length <= 0x7fff,
    ;
    assert(length * 2 * length + length - 1 == (length + 1) * (2 * length - 1))
        by (nonlinear_arith);
    AbsoluteLayout {
        joined: length * 2 * length,
        padding: length - 1,
        rows: length + 1,
        columns: 2 * length - 1,
        kept_rows: length,
        first_column: length - 1,
    }
}

/// How a table over pairs of positions becomes one over relative positions:
/// each row is padded, the rows are joined and padded in front, and the result
/// is cut into rows of another length.
#[derive(Clone, Copy, Debug, PartialEq, Eq, Structural)]
pub struct RelativeLayout {
    /// Columns that each row gets.
    pub row_padding: i32,
    /// The length of the joined rows.
    pub joined: i32,
    /// What is added before them.
    pub padding: i32,
    pub rows: i32,
    pub columns: i32,
    /// The first column that is kept.
    pub first_column: i32,
}

/// Lays out the step from absolute to relative positions.
pub fn absolute_to_relative(length: i32) -> (layout: RelativeLayout)
    requires
        0 < length <= 0x7fff,
    ensures
        layout.row_padding == length - 1,
        layout.joined == length * length + length * (length - 1),
        layout.padding == length,
        layout.rows == length,
        layout.columns == 2 * length,
        layout.first_column == 1,
        layout.joined + layout.padding == layout.rows * layout.columns,
        layout.joined == length * (length + layout.row_padding),
{
    assert(0 <= length * length <= 0x7fff * 0x7fff) by (nonlinear_arith)
        requires
            0 < length <= 0x7fff,
    ;
    assert(0 <= length * (length - 1) <= 0x7fff * 0x7fff) by (nonlinear_arith)
        requires
            0 < length <= 0x7fff,
    ;
    assert(length * length + length * (length - 1) + length == length * (2 * length))
        by (nonlinear_arith);
    assert(length * length + length * (length - 1) == length * (length + (length - 1)))
        by (nonlinear_arith);
    RelativeLayout {
        row_padding: length - 1,
        joined: length * length + length * (length - 1),
        padding: length,
        rows: length,
        columns: 2 * length,
        first_column: 1,
    }
}

/// Where the entry of an absolute table comes from: a row and a column of the
/// relative table with one more column.
pub open spec fn absolute_source(length: int, row: int, column: int) -> (int, int) {
    let joined = row * (2 * length - 1) + (length - 1 + column);
    (joined / (2 * length), joined % (2 * length))
}

/// The entry for a pair of positions is that of their distance.
pub proof fn lemma_absolute(length: int, row: int, column: int)
    requires
        0 <= row < length,
        0 <= column < length,
    ensures
        absolute_source(length, row, column) == (row, column - row + length - 1),
        0 <= column - row + length - 1 < 2 * length - 1,
{
    let offset = column - row + length - 1;
    let joined = row * (2 * length - 1) + (length - 1 + column);
    assert(joined == (2 * length) * row + offset) by (nonlinear_arith)
        requires
            joined == row * (2 * length - 1) + (length - 1 + column),
            offset == column - row + length - 1,
    ;
    lemma_row_and_column(joined, 2 * length, row, offset);
}

/// Where the entry of a relative table comes from: a row and a column of the
/// absolute table with its rows padded, or nothing where it is in the padding
/// before the joined rows.
pub open spec fn relative_source(length: int, row: int, column: int) -> Option<(int, int)> {
    let joined = row * (2 * length) + column + 1 - length;
    if joined < 0 {
        None
    } else {
        Some((joined / (2 * length - 1), joined % (2 * length - 1)))
    }
}

/// Whether a place of the absolute table with padded rows is in the padding.
pub open spec fn in_padding(length: int, place: Option<(int, int)>) -> bool {
    match place {
        None => true,
        Some((_, column)) => column >= length,
    }
}

/// The entry for a distance from a position is that of the position at that
/// distance, and zero where there is none.
pub proof fn lemma_relative(length: int, row: int, column: int)
    requires
        0 <= row < length,
        0 <= column < 2 * length - 1,
    ensures
        ({
            let position = row + column - (length - 1);
            if 0 <= position < length {
                relative_source(length, row, column) == Some((row, position))
            } else {
                in_padding(length, relative_source(length, row, column))
            }
        }),
{
    let position = row + column - (length - 1);
    let width = 2 * length - 1;
    let joined = row * (2 * length) + column + 1 - length;
    assert(joined == width * row + position) by (nonlinear_arith)
        requires
            joined == row * (2 * length) + column + 1 - length,
            width == 2 * length - 1,
            position == row + column - (length - 1),
    ;
    if position >= 0 {
        assert(joined >= 0) by (nonlinear_arith)
            requires
                joined == width * row + position,
                width > 0,
                row >= 0,
                position >= 0,
        ;
        lemma_row_and_column(joined, width, row, position);
    } else if row > 0 {
        assert(joined == width * (row - 1) + (width + position)) by (nonlinear_arith)
            requires
                joined == width * row + position,
        ;
        assert(joined >= 0) by (nonlinear_arith)
            requires
                joined == width * (row - 1) + (width + position),
                width > 0,
                row >= 1,
                width + position >= 0,
        ;
        lemma_row_and_column(joined, width, row - 1, width + position);
    } else {
        assert(joined < 0) by (nonlinear_arith)
            requires
                joined == width * row + position,
                row == 0,
                position < 0,
        ;
    }
}

/// The two steps undo each other: the entry that is put at a distance is read
/// back for the pair of positions.
pub proof fn lemma_there_and_back(length: int, row: int, column: int)
    requires
        0 <= row < length,
        0 <= column < length,
    ensures
        relative_source(length, row, absolute_source(length, row, column).1) == Some(
            (row, column),
        ),
{
    lemma_absolute(length, row, column);
    lemma_relative(length, row, column - row + length - 1);
}

proof fn lemma_row_and_column(joined: int, width: int, row: int, column: int)
    requires
        joined == width * row + column,
        0 <= column < width,
        0 <= row,
    ensures
        joined / width == row,
        joined % width == column,
{
    lemma_mul_is_commutative(width, row);
    lemma_fundamental_div_mod_converse(joined, width, row, column);
}

/// A feed-forward step keeps the length: a causal one is padded by two in
/// front of each convolution.
pub proof fn lemma_feed_forward_length(prefix: Seq<char>, causal: bool, length: int, index: int)
    requires
        length > 0,
        0 <= index < 2,
    ensures
        feed_forward_requests(prefix, causal)[index].kind.output_length(
            length + if causal {
                2int
            } else {
                0
            },
        ) == length,
{
    lemma_div_basics_2(length - 1);
    let kind = feed_forward_requests(prefix, causal)[index].kind;
    let padding: i32 = if causal {
        0
    } else {
        1
    };
    assert(kind == convolution(192, 768, 3, padding) || kind == convolution(768, 192, 3, padding));
    assert(1 * (3 - 1) == 2);
}

/// The layers of one layer of the encoder.
#[derive(Clone, Copy, Debug, PartialEq, Eq)]
pub struct EncoderLayer {
    pub conv_q: Layer,
    pub conv_k: Layer,
    pub conv_v: Layer,
    pub conv_o: Layer,
    pub emb_rel_k: Layer,
    pub emb_rel_v: Layer,
    pub attention_norm: Layer,
    pub conv_1: Layer,
    pub conv_2: Layer,
    pub feed_forward_norm: Layer,
}

/// The encoder of the text-free content.
#[derive(Debug)]
pub struct Encoder {
    pub layers: Vec<EncoderLayer>,
}

/// The layers of an encoder layer, in the order of its requests.
pub open spec fn encoder_layer_of(layers: Seq<Layer>, start: int) -> EncoderLayer {
    EncoderLayer {
        conv_q: layers[start],
        conv_k: layers[start + 1],
        conv_v: layers[start + 2],
        conv_o: layers[start + 3],
        emb_rel_k: layers[start + 4],
        emb_rel_v: layers[start + 5],
        attention_norm: layers[start + 6],
        conv_1: layers[start + 7],
        conv_2: layers[start + 8],
        feed_forward_norm: layers[start + 9],
    }
}

impl Encoder {
    /// Whether the layers are those from `start` on.
    pub open spec fn holds(self, layers: Seq<Layer>, start: int) -> bool {
        &&& self.layers@.len() == LAYERS
        &&& forall|i: int|
            0 <= i < LAYERS ==> #[trigger] self.layers@[i] == encoder_layer_of(
                layers,
                start + 10 * i,
            )
    }

    /// Groups the layers that the encoder's requests gave.
    pub fn from_layers(layers: &Vec<Layer>, start: usize) -> (result: Encoder)
        requires
            start + 60 <= layers.len(),
        ensures
            result.holds(layers@, start as int),
    {
        let mut grouped: Vec<EncoderLayer> = Vec::new();
        let mut index: usize = 0;
        while index < LAYERS
            invariant
                index <= LAYERS,
                start + 60 <= layers.len(),
                grouped@.len() == index,
                forall|i: int|
                    0 <= i < index ==> #[trigger] grouped@[i] == encoder_layer_of(
                        layers@,
                        start + 10 * i,
                    ),
            decreases LAYERS - index,
        {
            let first: usize = start + 10 * index;
            grouped.push(
                EncoderLayer {
                    conv_q: layers[first],
                    conv_k: layers[first + 1],
                    conv_v: layers[first + 2],
                    conv_o: layers[first + 3],
                    emb_rel_k: layers[first + 4],
                    emb_rel_v: layers[first + 5],
                    attention_norm: layers[first + 6],
                    conv_1: layers[first + 7],
                    conv_2: layers[first + 8],
                    feed_forward_norm: layers[first + 9],
                },
            );
            index = index + 1;
        }
        Encoder { layers: grouped }
    }
}

/// The layers of one layer of the causal decoder.
#[derive(Clone, Copy, Debug, PartialEq, Eq)]
pub struct CausalLayer {
    pub conv_q: Layer,
    pub conv_k: Layer,
    pub conv_v: Layer,
    pub conv_o: Layer,
    pub attention_norm: Layer,
    pub conv_1: Layer,
    pub conv_2: Layer,
    pub feed_forward_norm: Layer,
}

/// The causal decoder of the pitch.
#[derive(Debug)]
pub struct CausalFft {
    pub layers: Vec<CausalLayer>,
}

/// The layers of a causal layer, in the order of its requests.
pub open spec fn causal_layer_of(layers: Seq<Layer>, start: int) -> CausalLayer {
    CausalLayer {
        conv_q: layers[start],
        conv_k: layers[start + 1],
        conv_v: layers[start + 2],
        conv_o: layers[start + 3],
        attention_norm: layers[start + 4],
        conv_1: layers[start + 5],
        conv_2: layers[start + 6],
        feed_forward_norm: layers[start + 7],
    }
}

impl CausalFft {
    /// Whether the layers are those from `start` on.
    pub open spec fn holds(self, layers: Seq<Layer>, start: int) -> bool {
        &&& self.layers@.len() == LAYERS
        &&& forall|i: int|
            0 <= i < LAYERS ==> #[trigger] self.layers@[i] == causal_layer_of(
                layers,
                start + 8 * i,
            )
    }

    /// Groups the layers that the decoder's requests gave.
    pub fn from_layers(layers: &Vec<Layer>, start: usize) -> (result: CausalFft)
        requires
            start + 48 <= layers.len(),
        ensures
            result.holds(layers@, start as int),
    {
        let mut grouped: Vec<CausalLayer> = Vec::new();
        let mut index: usize = 0;
        while index < LAYERS
            invariant
                index <= LAYERS,
                start + 48 <= layers.len(),
                grouped@.len() == index,
                forall|i: int|
                    0 <= i < index ==> #[trigger] grouped@[i] == causal_layer_of(
                        layers@,
                        start + 8 * i,
                    ),
            decreases LAYERS - index,
        {
            let first: usize = start + 8 * index;
            grouped.push(
                CausalLayer {
                    conv_q: layers[first],
                    conv_k: layers[first + 1],
                    conv_v: layers[first + 2],
                    conv_o: layers[first + 3],
                    attention_norm: layers[first + 4],
                    conv_1: layers[first + 5],
                    conv_2: layers[first + 6],
                    feed_forward_norm: layers[first + 7],
                },
            );
            index = index + 1;
        }
        CausalFft { layers: grouped }
    }
}

impl EncoderLayer {
    /// Whether the layers hold the tensors that are named for them.
    pub open spec fn named(self, table: Table, index: nat) -> bool {
        let attention = numbered_name("enc_p.enc_.attn_layers."@, index, ""@);
        let feed_forward = numbered_name("enc_p.enc_.ffn_layers."@, index, ""@);
        &&& plain(self.conv_q, table, attention + ".conv_q"@, convolution(192, 192, 1, 0))
        &&& plain(self.conv_k, table, attention + ".conv_k"@, convolution(192, 192, 1, 0))
        &&& plain(self.conv_v, table, attention + ".conv_v"@, convolution(192, 192, 1, 0))
        &&& plain(self.conv_o, table, attention + ".conv_o"@, convolution(192, 192, 1, 0))
        &&& bare(self.emb_rel_k, table, attention + ".emb_rel_k"@)
        &&& bare(self.emb_rel_v, table, attention + ".emb_rel_v"@)
        &&& scaled(
            self.attention_norm,
            table,
            numbered_name("enc_p.enc_.norm_layers_1."@, index, ""@),
            192,
        )
        &&& plain(self.conv_1, table, feed_forward + ".conv_1"@, convolution(192, 768, 3, 1))
        &&& plain(self.conv_2, table, feed_forward + ".conv_2"@, convolution(768, 192, 3, 1))
        &&& scaled(
            self.feed_forward_norm,
            table,
            numbered_name("enc_p.enc_.norm_layers_2."@, index, ""@),
            192,
        )
    }
}

impl Encoder {
    /// Whether every layer holds the tensors that are named for it.
    pub open spec fn named(self, table: Table) -> bool {
        &&& self.layers@.len() == 6
        &&& forall|i: int| 0 <= i < 6 ==> (#[trigger] self.layers@[i]).named(table, i as nat)
    }

    /// Every tensor of the encoder goes to the layer that it is named for.
    pub proof fn lemma_tensors(self, table: Table, layers: Seq<Layer>, start: int)
        requires
            self.holds(layers, start),
            all_named(layers, start, table, encoder_requests(LAYERS as nat)),
        ensures
            self.named(table),
    {
        let requests = encoder_requests(LAYERS as nat);
        assert forall|i: int| 0 <= i < 6 implies (#[trigger] self.layers@[i]).named(
            table,
            i as nat,
        ) by {
            assert(self.layers@[i] == encoder_layer_of(layers, start + 10 * i));
            assert forall|part: int| 0 <= part < 10 implies named(
                layers[start + 10 * i + part],
                table,
                #[trigger] encoder_layer_requests(i as nat)[part],
            ) by {
                lemma_request_places(LAYERS as nat, i as nat, part);
                assert(named(layers[start + (10 * i + part)], table, requests[10 * i + part]));
            }
            let own = encoder_layer_requests(i as nat);
            assert(own.len() == 10);
            assert(named(layers[start + 10 * i + 0], table, own[0]));
            assert(named(layers[start + 10 * i + 1], table, own[1]));
            assert(named(layers[start + 10 * i + 2], table, own[2]));
            assert(named(layers[start + 10 * i + 3], table, own[3]));
            assert(named(layers[start + 10 * i + 4], table, own[4]));
            assert(named(layers[start + 10 * i + 5], table, own[5]));
            assert(named(layers[start + 10 * i + 6], table, own[6]));
            assert(named(layers[start + 10 * i + 7], table, own[7]));
            assert(named(layers[start + 10 * i + 8], table, own[8]));
            assert(named(layers[start + 10 * i + 9], table, own[9]));
        }
    }
}

impl CausalLayer {
    /// Whether the layers hold the tensors that are named for them.
    pub open spec fn named(self, table: Table, index: nat) -> bool {
        let attention = numbered_name("f0_decoder.decoder.self_attn_layers."@, index, ""@);
        let feed_forward = numbered_name("f0_decoder.decoder.ffn_layers."@, index, ""@);
        &&& plain(self.conv_q, table, attention + ".conv_q"@, convolution(192, 192, 1, 0))
        &&& plain(self.conv_k, table, attention + ".conv_k"@, convolution(192, 192, 1, 0))
        &&& plain(self.conv_v, table, attention + ".conv_v"@, convolution(192, 192, 1, 0))
        &&& plain(self.conv_o, table, attention + ".conv_o"@, convolution(192, 192, 1, 0))
        &&& scaled(
            self.attention_norm,
            table,
            numbered_name("f0_decoder.decoder.norm_layers_0."@, index, ""@),
            192,
        )
        &&& plain(self.conv_1, table, feed_forward + ".conv_1"@, convolution(192, 768, 3, 0))
        &&& plain(self.conv_2, table, feed_forward + ".conv_2"@, convolution(768, 192, 3, 0))
        &&& scaled(
            self.feed_forward_norm,
            table,
            numbered_name("f0_decoder.decoder.norm_layers_1."@, index, ""@),
            192,
        )
    }
}

impl CausalFft {
    /// Whether every layer holds the tensors that are named for it.
    pub open spec fn named(self, table: Table) -> bool {
        &&& self.layers@.len() == 6
        &&& forall|i: int| 0 <= i < 6 ==> (#[trigger] self.layers@[i]).named(table, i as nat)
    }

    /// Every tensor of the decoder goes to the layer that it is named for.
    pub proof fn lemma_tensors(self, table: Table, layers: Seq<Layer>, start: int)
        requires
            self.holds(layers, start),
            all_named(layers, start, table, causal_requests(LAYERS as nat)),
        ensures
            self.named(table),
    {
        let requests = causal_requests(LAYERS as nat);
        assert forall|i: int| 0 <= i < 6 implies (#[trigger] self.layers@[i]).named(
            table,
            i as nat,
        ) by {
            assert(self.layers@[i] == causal_layer_of(layers, start + 8 * i));
            assert forall|part: int| 0 <= part < 8 implies named(
                layers[start + 8 * i + part],
                table,
                #[trigger] causal_layer_requests(i as nat)[part],
            ) by {
                lemma_request_places(LAYERS as nat, i as nat, part);
                assert(named(layers[start + (8 * i + part)], table, requests[8 * i + part]));
            }
            let own = causal_layer_requests(i as nat);
            assert(own.len() == 8);
            assert(named(layers[start + 8 * i + 0], table, own[0]));
            assert(named(layers[start + 8 * i + 1], table, own[1]));
            assert(named(layers[start + 8 * i + 2], table, own[2]));
            assert(named(layers[start + 8 * i + 3], table, own[3]));
            assert(named(layers[start + 8 * i + 4], table, own[4]));
            assert(named(layers[start + 8 * i + 5], table, own[5]));
            assert(named(layers[start + 8 * i + 6], table, own[6]));
            assert(named(layers[start + 8 * i + 7], table, own[7]));
        }
    }
}

/// The requests of the transformers, ten and eight to a layer, stand at
/// regular places.
pub proof fn lemma_request_places(count: nat, index: nat, part: int)
    requires
        index < count,
    ensures
        encoder_requests(count).len() == 10 * count,
        causal_requests(count).len() == 8 * count,
        0 <= part < 10 ==> encoder_requests(count)[10 * index + part] == encoder_layer_requests(
            index,
        )[part],
        0 <= part < 8 ==> causal_requests(count)[8 * index + part] == causal_layer_requests(
            index,
        )[part],
    decreases count,
{
    reveal_with_fuel(encoder_requests, 2);
    reveal_with_fuel(causal_requests, 2);
    assert(encoder_layer_requests((count - 1) as nat).len() == 10);
    assert(causal_layer_requests((count - 1) as nat).len() == 8);
    if index < count - 1 {
        lemma_request_places((count - 1) as nat, index, part);
    } else if count > 1 {
        lemma_request_places((count - 1) as nat, 0, 0);
    }
}

} // verus!
