//! The voice conversion model.

use crate::attention;
use crate::attention::Encoder;
use crate::f0_decoder;
use crate::f0_decoder::F0Decoder;
use crate::flow;
use crate::flow::ResidualCouplingBlock;
use crate::gan_generator;
use crate::gan_generator::{Generator, SourceInputs};
use crate::names::begins_with;
use crate::upsampler::HARMONICS;
use crate::weights::{
    all_named, all_sensible, ask, convolution, dense, lemma_all_supplied, lemma_named,
    lemma_named_part, named, of_layer, plain, served, supplied_all, tensor_names, unbiased, want,
    wanted, with_prefix, without_prefix, Failure, Kind, Layer, Request, Table, Wanted, Weights,
    WeightsError,
};
use vstd::prelude::*;

verus! {

/// The number of pitch bins.
pub const F0_BIN: i32 = 256;

/// The layers that make a latent of content and pitch.
#[derive(Debug)]
pub struct GanCore {
    pub speaker_embedding: Layer,
    pub volume_embedding: Layer,
    pub pre: Layer,
    pub uv_embedding: Layer,
    pub f0_embedding: Layer,
    pub encoder: Encoder,
    pub projection: Layer,
    pub flow: ResidualCouplingBlock,
}

/// The requests of the core.
pub open spec fn core_requests() -> Seq<Wanted> {
    seq![
        want("emb_g"@, Kind::Embedding { count: 1, dimensions: 768 }),
        want("emb_vol"@, Kind::Linear { input_dims: 1, output_dims: 192, bias: true }),
        want("pre"@, convolution(768, 192, 5, 2)),
        want("emb_uv"@, Kind::Embedding { count: 2, dimensions: 192 }),
        want("enc_p.f0_emb"@, Kind::Embedding { count: 256, dimensions: 192 }),
    ] + attention::encoder_requests(attention::LAYERS as nat) + seq![
        want("enc_p.proj"@, convolution(192, 384, 1, 0)),
    ] + flow::flow_requests(flow::COUPLINGS as nat)
}

/// Adds the requests of the core.
pub fn ask_core(requests: &mut Vec<Request>)
    requires
        all_sensible(wanted(old(requests)@)),
    ensures
        all_sensible(wanted(final(requests)@)),
        wanted(final(requests)@) == wanted(old(requests)@) + core_requests(),
        core_requests().len() == 110,
{
    ask(requests, "emb_g".to_owned(), Kind::Embedding { count: 1, dimensions: 768 });
    ask(
        requests,
        "emb_vol".to_owned(),
        Kind::Linear { input_dims: 1, output_dims: 192, bias: true },
    );
    ask(requests, "pre".to_owned(), convolution(768, 192, 5, 2));
    ask(requests, "emb_uv".to_owned(), Kind::Embedding { count: 2, dimensions: 192 });
    ask(requests, "enc_p.f0_emb".to_owned(), Kind::Embedding { count: 256, dimensions: 192 });
    attention::ask_encoder(requests);
    ask(requests, "enc_p.proj".to_owned(), convolution(192, 384, 1, 0));
    flow::ask_flow(requests);
    proof {
        attention::lemma_request_places(attention::LAYERS as nat, 0, 0);
        flow::lemma_flow_places(flow::COUPLINGS as nat, 0, 0);
        assert(wanted(requests@) =~= wanted(old(requests)@) + core_requests());
    }
}

impl GanCore {
    /// Whether the layers are those from `start` on.
    pub open spec fn holds(self, layers: Seq<Layer>, start: int) -> bool {
        &&& self.speaker_embedding == layers[start]
        &&& self.volume_embedding == layers[start + 1]
        &&& self.pre == layers[start + 2]
        &&& self.uv_embedding == layers[start + 3]
        &&& self.f0_embedding == layers[start + 4]
        &&& self.encoder.holds(layers, start + 5)
        &&& self.projection == layers[start + 65]
        &&& self.flow.holds(layers, start + 66)
    }

    /// Groups the layers that the requests gave.
    pub fn from_layers(layers: &Vec<Layer>, start: usize) -> (result: GanCore)
        requires
            start + 110 <= layers.len(),
        ensures
            result.holds(layers@, start as int),
    {
        GanCore {
            speaker_embedding: layers[start],
            volume_embedding: layers[start + 1],
            pre: layers[start + 2],
            uv_embedding: layers[start + 3],
            f0_embedding: layers[start + 4],
            encoder: Encoder::from_layers(layers, start + 5),
            projection: layers[start + 65],
            flow: ResidualCouplingBlock::from_layers(layers, start + 66),
        }
    }

    /// Whether every field holds the tensors that a table keeps under its name.
    pub open spec fn named(self, table: Table) -> bool {
        &&& unbiased(
            self.speaker_embedding,
            table,
            "emb_g"@,
            Kind::Embedding { count: 1, dimensions: 768 },
        )
        &&& plain(self.volume_embedding, table, "emb_vol"@, dense(1, 192))
        &&& plain(self.pre, table, "pre"@, convolution(768, 192, 5, 2))
        &&& unbiased(
            self.uv_embedding,
            table,
            "emb_uv"@,
            Kind::Embedding { count: 2, dimensions: 192 },
        )
        &&& unbiased(
            self.f0_embedding,
            table,
            "enc_p.f0_emb"@,
            Kind::Embedding { count: 256, dimensions: 192 },
        )
        &&& self.encoder.named(table)
        &&& plain(self.projection, table, "enc_p.proj"@, convolution(192, 384, 1, 0))
        &&& self.flow.named(table)
    }

    /// Every tensor of the core goes to the layer that it is named for.
    pub proof fn lemma_tensors(self, table: Table, layers: Seq<Layer>, start: int)
        requires
            self.holds(layers, start),
            start >= 0,
            start + 110 <= layers.len(),
            all_named(layers, start, table, core_requests()),
        ensures
            self.named(table),
    {
        let requests = core_requests();
        let encoder = attention::encoder_requests(attention::LAYERS as nat);
        let couplings = flow::flow_requests(flow::COUPLINGS as nat);
        attention::lemma_request_places(attention::LAYERS as nat, 0, 0);
        flow::lemma_flow_places(flow::COUPLINGS as nat, 0, 0);
        assert(requests.subrange(5, 65) =~= encoder);
        assert(requests.subrange(66, 110) =~= couplings);
        lemma_named_part(layers, start, table, requests, 5, encoder);
        lemma_named_part(layers, start, table, requests, 66, couplings);
        self.encoder.lemma_tensors(table, layers, start + 5);
        self.flow.lemma_tensors(table, layers, start + 66);
        assert(named(layers[start + 0], table, requests[0]));
        assert(named(layers[start + 1], table, requests[1]));
        assert(named(layers[start + 2], table, requests[2]));
        assert(named(layers[start + 3], table, requests[3]));
        assert(named(layers[start + 4], table, requests[4]));
        assert(named(layers[start + 65], table, requests[65]));
    }

    /// Takes the core's tensors out of a checkpoint.
    pub fn load(weights: &mut Weights) -> (result: Result<GanCore, WeightsError>)
        requires
            old(weights).valid(),
        ensures
            final(weights).valid(),
            final(weights)@ == supplied_all(old(weights)@, core_requests()).0,
            match result {
                Ok(core) => supplied_all(old(weights)@, core_requests()).1 matches Ok(layers)
                    && core.holds(layers, 0) && served(layers, core_requests()) && core.named(
                    old(weights)@,
                ),
                Err(error) => supplied_all(old(weights)@, core_requests()).1 == Err::<
                    Seq<Layer>,
                    Failure,
                >(error@),
            },
    {
        let mut requests: Vec<Request> = Vec::new();
        assert(wanted(requests@) =~= seq![]);
        ask_core(&mut requests);
        assert(wanted(requests@) =~= core_requests());
        match weights.layers(&requests) {
            Ok(layers) => {
                let core = Self::from_layers(&layers, 0);
                proof {
                    lemma_named(old(weights)@, core_requests());
                    core.lemma_tensors(old(weights)@, layers@, 0);
                }
                Ok(core)
            },
            Err(error) => Err(error),
        }
    }
}

/// The bin of a rounded pitch: what is below the first bin goes to the first,
/// and what is above the last goes to bin zero.
pub open spec fn coarse(value: int) -> int {
    if value < 1 {
        1
    } else if value < F0_BIN {
        value
    } else {
        0
    }
}

/// The bins of rounded pitches. Each is a row of the table of pitch
/// embeddings.
pub fn f0_to_coarse(rounded: &Vec<i32>) -> (bins: Vec<i32>)
    ensures
        bins@.len() == rounded@.len(),
        forall|i: int|
            0 <= i < bins@.len() ==> #[trigger] bins@[i] == coarse(rounded@[i] as int) && 0
                <= bins@[i] < F0_BIN,
        forall|i: int|
            0 <= i < bins@.len() ==> {
                &&& (#[trigger] bins@[i]) == 0 <==> rounded@[i] >= 256
                &&& 1 <= rounded@[i] <= 255 ==> bins@[i] == rounded@[i]
                &&& rounded@[i] <= 0 ==> bins@[i] == 1
            },
{
    let mut bins: Vec<i32> = Vec::new();
    let mut index: usize = 0;
    while index < rounded.len()
        invariant
            index <= rounded@.len(),
            bins@.len() == index,
            forall|i: int|
                0 <= i < index ==> #[trigger] bins@[i] == coarse(rounded@[i] as int) && 0
                    <= bins@[i] < F0_BIN,
        decreases rounded@.len() - index,
    {
        let value = rounded[index];
        let bin: i32 = if value < 1 {
            1
        } else if value < F0_BIN {
            value
        } else {
            0
        };
        bins.push(bin);
        index = index + 1;
    }
    bins
}

/// How many requests the parts of the model have.
proof fn lemma_request_counts()
    ensures
        core_requests().len() == 110,
        f0_decoder::f0_decoder_requests().len() == 52,
        gan_generator::generator_requests().len() == 104,
{
    attention::lemma_request_places(attention::LAYERS as nat, 0, 0);
    flow::lemma_flow_places(flow::COUPLINGS as nat, 0, 0);
}

/// The voice conversion model.
#[derive(Debug)]
pub struct GanModel {
    pub core: GanCore,
    pub f0_decoder: F0Decoder,
    pub generator: Generator,
}

/// A run of the model.
#[derive(Debug)]
pub struct GanPlan {
    /// The shape of the mask, which is one everywhere.
    pub mask: Vec<i32>,
    /// The shape of the noise that is added to the latent.
    pub encoder_noise: Vec<i32>,
    /// Whether the pitch is predicted rather than taken as it is given.
    pub predict_f0: bool,
    /// The shapes of the random inputs of the harmonic source.
    pub source: SourceInputs,
}

/// The requests of the model.
pub open spec fn gan_requests() -> Seq<Wanted> {
    core_requests() + f0_decoder::f0_decoder_requests() + gan_generator::generator_requests()
}

/// What a checkpoint of the model gives. It also holds the encoder that is
/// needed for training only, and nothing else.
pub open spec fn gan_checkpoint(table: Table) -> Result<Seq<Layer>, Failure> {
    let (rest, layers) = supplied_all(table, gan_requests());
    match layers {
        Err(failure) => Err(failure),
        Ok(layers) => if with_prefix(rest, "enc_q."@).len() == 0 {
            Err(Failure::Rule("enc_q tensors missing"@))
        } else if without_prefix(rest, "enc_q."@) != Table::empty() {
            Err(Failure::Unused(without_prefix(rest, "enc_q."@).dom()))
        } else {
            Ok(layers)
        },
    }
}

impl GanModel {
    /// Whether the layers are these.
    pub open spec fn holds(self, layers: Seq<Layer>) -> bool {
        &&& self.core.holds(layers, 0)
        &&& self.f0_decoder.holds(layers, 110)
        &&& self.generator.holds(layers, 162)
    }

    /// Whether this is the model of a checkpoint.
    pub open spec fn loaded(self, table: Table) -> bool {
        gan_checkpoint(table) matches Ok(layers) && self.holds(layers) && served(
            layers,
            gan_requests(),
        )
    }

    /// Whether every field holds the tensors that a table keeps under its name.
    pub open spec fn named(self, table: Table) -> bool {
        &&& self.core.named(table)
        &&& self.f0_decoder.named(table)
        &&& self.generator.named(table)
    }

    /// A checkpoint is accepted exactly where it has the tensors of all layers, has
    /// one of the encoder for training, and has no others.
    pub proof fn lemma_accepted(table: Table)
        requires
            table.dom().finite(),
        ensures
            gan_checkpoint(table) is Ok <==> {
                &&& supplied_all(table, gan_requests()).1 is Ok
                &&& exists|name: Seq<char>| #[trigger]
                    table.dom().contains(name) && begins_with(name, "enc_q."@) && !of_layer(
                        name,
                        gan_requests(),
                    )
                &&& forall|name: Seq<char>| #[trigger]
                    table.dom().contains(name) ==> begins_with(name, "enc_q."@) || of_layer(
                        name,
                        gan_requests(),
                    )
            },
    {
        let requests = gan_requests();
        let (rest, layers) = supplied_all(table, requests);
        lemma_all_supplied(table, requests);
        if layers is Ok {
            let training = with_prefix(rest, "enc_q."@);
            let left = without_prefix(rest, "enc_q."@);
            assert(training.subset_of(table.dom()));
            vstd::set_lib::lemma_len_subset(training, table.dom());
            if training.len() == 0 {
                vstd::set_lib::lemma_set_empty_equivalency_len(training);
                assert forall|name: Seq<char>| #[trigger] table.dom().contains(name) implies !(
                begins_with(name, "enc_q."@) && !of_layer(name, requests)) by {
                    assert(!training.contains(name));
                }
            } else {
                let name = training.choose();
                assert(training.contains(name));
                assert(rest.dom().contains(name));
                assert(table.dom().contains(name));
            }
            if left == Table::empty() {
                assert forall|name: Seq<char>| #[trigger] table.dom().contains(name) implies
                    begins_with(name, "enc_q."@) || of_layer(name, requests) by {
                    assert(!left.dom().contains(name));
                }
            } else {
                if forall|name: Seq<char>| !left.dom().contains(name) {
                    assert(left =~= Table::empty());
                }
                let name = choose|name: Seq<char>| left.dom().contains(name);
                assert(table.dom().contains(name));
            }
        }
    }

    /// Every tensor of the checkpoint goes to the layer that it is named for,
    /// and every other tensor is one of the encoder for training.
    pub proof fn lemma_tensors(self, table: Table)
        requires
            self.loaded(table),
        ensures
            self.named(table),
            forall|name: Seq<char>| #[trigger]
                table.dom().contains(name) ==> begins_with(name, "enc_q."@) || exists|i: int|
                    0 <= i < gan_requests().len() && tensor_names(
                        #[trigger] gan_requests()[i],
                    ).contains(name),
            exists|name: Seq<char>| #[trigger]
                table.dom().contains(name) && begins_with(name, "enc_q."@),
    {
        let requests = gan_requests();
        let layers = gan_checkpoint(table)->Ok_0;
        let rest = supplied_all(table, requests).0;
        lemma_named(table, requests);
        lemma_request_counts();
        let decoder = f0_decoder::f0_decoder_requests();
        let generator = gan_generator::generator_requests();
        assert(requests.subrange(0, 110) =~= core_requests());
        assert(requests.subrange(110, 162) =~= decoder);
        assert(requests.subrange(162, 266) =~= generator);
        lemma_named_part(layers, 0, table, requests, 0, core_requests());
        lemma_named_part(layers, 0, table, requests, 110, decoder);
        lemma_named_part(layers, 0, table, requests, 162, generator);
        self.core.lemma_tensors(table, layers, 0);
        self.f0_decoder.lemma_tensors(table, layers, 110);
        self.generator.lemma_tensors(table, layers, 162);
        let left = without_prefix(rest, "enc_q."@);
        assert forall|name: Seq<char>| #[trigger] table.dom().contains(name) implies begins_with(
            name,
            "enc_q."@,
        ) || exists|i: int|
            0 <= i < requests.len() && tensor_names(#[trigger] requests[i]).contains(name) by {
            if rest.dom().contains(name) && !begins_with(name, "enc_q."@) {
                assert(left.dom().contains(name));
            }
        }
        let training = with_prefix(rest, "enc_q."@);
        if forall|name: Seq<char>| !training.contains(name) {
            assert(training =~= Set::empty());
        }
        let name = choose|name: Seq<char>| training.contains(name);
        assert(rest.dom().contains(name));
        assert(table.dom().contains(name) && begins_with(name, "enc_q."@));
    }

    /// Makes the model of a checkpoint.
    pub fn load(weights: Weights) -> (result: Result<GanModel, WeightsError>)
        requires
            weights.valid(),
        ensures
            match result {
                Ok(model) => model.loaded(weights@) && model.named(weights@),
                Err(error) => gan_checkpoint(weights@) == Err::<Seq<Layer>, Failure>(error@),
            },
    {
        let ghost table = weights@;
        let mut weights = weights;
        let mut requests: Vec<Request> = Vec::new();
        assert(wanted(requests@) =~= seq![]);
        ask_core(&mut requests);
        f0_decoder::ask_f0_decoder(&mut requests);
        gan_generator::ask_generator(&mut requests);
        assert(wanted(requests@) =~= gan_requests());
        let layers = match weights.layers(&requests) {
            Ok(layers) => layers,
            Err(error) => return Err(error),
        };
        let model = GanModel {
            core: GanCore::from_layers(&layers, 0),
            f0_decoder: F0Decoder::from_layers(&layers, 110),
            generator: Generator::from_layers(&layers, 162),
        };
        if weights.discard_prefix("enc_q.") == 0 {
            return Err(WeightsError::Rule { message: "enc_q tensors missing" });
        }
        match weights.finish() {
            Ok(_) => {
                proof {
                    model.lemma_tensors(table);
                }
                Ok(model)
            },
            Err(error) => Err(error),
        }
    }

    /// Plans a run of the model on content of a given shape.
    pub fn infer(content: &[i32], predict_f0: bool) -> (plan: GanPlan)
        requires
            content@.len() >= 2,
            0 < content@[1],
            content@[1] * 512 <= i32::MAX,
        ensures
            plan.mask@ == seq![content@[0], content@[1], 1],
            plan.encoder_noise@ == seq![content@[0], content@[1], 192],
            plan.predict_f0 == predict_f0,
            plan.source.initial_phase@ == seq![content@[0], HARMONICS],
            plan.source.sine_noise@ == seq![content@[0], (content@[1] * 512) as i32, HARMONICS],
            plan.source.source_noise@ == seq![content@[0], (content@[1] * 512) as i32, 1],
    {
        let latent = [content[0], content[1], 192];
        let mask = vec![content[0], content[1], 1];
        let encoder_noise = vec![content[0], content[1], 192];
        assert(mask@ =~= seq![content@[0], content@[1], 1]);
        assert(encoder_noise@ =~= seq![content@[0], content@[1], 192]);
        GanPlan { mask, encoder_noise, predict_f0, source: Generator::forward(&latent) }
    }
}

} // verus!
