//! The generator that turns a latent into a waveform.

use crate::upsampler;
use crate::upsampler::{Stages, HARMONICS, UPSAMPLE_FACTOR};
use crate::weights::{
    all_named, all_sensible, ask, convolution, dense, lemma_named, lemma_named_part, named, plain,
    served, supplied_all, want, wanted, Failure, Kind, Layer, Request, Table, Wanted, Weights,
    WeightsError,
};
use vstd::prelude::*;

verus! {

/// The shapes of the random inputs of the harmonic source.
#[derive(Debug)]
pub struct SourceInputs {
    pub initial_phase: Vec<i32>,
    pub sine_noise: Vec<i32>,
    pub source_noise: Vec<i32>,
}

impl SourceInputs {
    /// The shapes for a number of waveforms of some length.
    pub fn sample(batch: i32, sample_count: i32) -> (result: SourceInputs)
        ensures
            result.initial_phase@ == seq![batch, HARMONICS],
            result.sine_noise@ == seq![batch, sample_count, HARMONICS],
            result.source_noise@ == seq![batch, sample_count, 1],
    {
        let result = SourceInputs {
            initial_phase: vec![batch, HARMONICS],
            sine_noise: vec![batch, sample_count, HARMONICS],
            source_noise: vec![batch, sample_count, 1],
        };
        assert(result.initial_phase@ =~= seq![batch, HARMONICS]);
        assert(result.sine_noise@ =~= seq![batch, sample_count, HARMONICS]);
        assert(result.source_noise@ =~= seq![batch, sample_count, 1]);
        result
    }
}

/// The generator.
#[derive(Debug)]
pub struct Generator {
    pub stages: Stages,
    pub source_linear: Layer,
    pub conv_pre: Layer,
    pub condition: Layer,
    pub conv_post: Layer,
}

/// What a latent cannot be.
#[derive(Clone, Copy, Debug, PartialEq, Eq, Structural)]
pub enum GeneratorError {
    LatentRank,
}

impl GeneratorError {
    pub open spec fn text(self) -> Seq<char> {
        "latent must have shape [batch, frames, channels]"@
    }

    /// The message for the user.
    pub fn message(&self) -> (result: &'static str)
        ensures
            result@ == self.text(),
    {
        "latent must have shape [batch, frames, channels]"
    }
}

/// The lengths on the way from frames to samples.
#[derive(Debug)]
pub struct GeneratorPlan {
    /// After each stage.
    pub stage_lengths: Vec<i32>,
    /// The shape of the waveforms.
    pub output: Vec<i32>,
}

/// The requests of the generator.
pub open spec fn generator_requests() -> Seq<Wanted> {
    upsampler::stage_requests("dec."@, 100) + seq![
        want(
            "dec.m_source.l_linear"@,
            Kind::Linear { input_dims: HARMONICS, output_dims: 1, bias: true },
        ),
        want("dec.conv_pre"@, convolution(192, 512, 7, 3)),
        want("dec.cond"@, convolution(768, 512, 1, 0)),
        want("dec.conv_post"@, convolution(16, 1, 7, 3)),
    ]
}

/// Adds the requests of the generator.
pub fn ask_generator(requests: &mut Vec<Request>)
    requires
        all_sensible(wanted(old(requests)@)),
    ensures
        all_sensible(wanted(final(requests)@)),
        wanted(final(requests)@) == wanted(old(requests)@) + generator_requests(),
        generator_requests().len() == 104,
{
    upsampler::ask_stages(requests, "dec.");
    ask(
        requests,
        "dec.m_source.l_linear".to_owned(),
        Kind::Linear { input_dims: HARMONICS, output_dims: 1, bias: true },
    );
    ask(requests, "dec.conv_pre".to_owned(), convolution(192, 512, 7, 3));
    ask(requests, "dec.cond".to_owned(), convolution(768, 512, 1, 0));
    ask(requests, "dec.conv_post".to_owned(), convolution(16, 1, 7, 3));
    assert(wanted(requests@) =~= wanted(old(requests)@) + generator_requests());
}

impl Generator {
    /// Whether the layers are those from `start` on.
    pub open spec fn holds(self, layers: Seq<Layer>, start: int) -> bool {
        &&& self.stages.holds(layers, start)
        &&& self.source_linear == layers[start + 100]
        &&& self.conv_pre == layers[start + 101]
        &&& self.condition == layers[start + 102]
        &&& self.conv_post == layers[start + 103]
    }

    /// Groups the layers that the requests gave.
    pub fn from_layers(layers: &Vec<Layer>, start: usize) -> (result: Generator)
        requires
            start + 104 <= layers.len(),
        ensures
            result.holds(layers@, start as int),
    {
        Generator {
            stages: Stages::from_layers(layers, start),
            source_linear: layers[start + 100],
            conv_pre: layers[start + 101],
            condition: layers[start + 102],
            conv_post: layers[start + 103],
        }
    }

    /// Whether every field holds the tensors that a table keeps under its name.
    pub open spec fn named(self, table: Table) -> bool {
        &&& self.stages.named(table, "dec."@)
        &&& plain(self.source_linear, table, "dec.m_source.l_linear"@, dense(9, 1))
        &&& plain(self.conv_pre, table, "dec.conv_pre"@, convolution(192, 512, 7, 3))
        &&& plain(self.condition, table, "dec.cond"@, convolution(768, 512, 1, 0))
        &&& plain(self.conv_post, table, "dec.conv_post"@, convolution(16, 1, 7, 3))
    }

    /// Every tensor of the generator goes to the layer that it is named for.
    pub proof fn lemma_tensors(self, table: Table, layers: Seq<Layer>, start: int)
        requires
            self.holds(layers, start),
            start >= 0,
            start + 104 <= layers.len(),
            all_named(layers, start, table, generator_requests()),
        ensures
            self.named(table),
    {
        let requests = generator_requests();
        let inner = upsampler::stage_requests("dec."@, 100);
        assert(requests.subrange(0, 100) =~= inner);
        lemma_named_part(layers, start, table, requests, 0, inner);
        self.stages.lemma_tensors(table, "dec."@, layers, start);
        assert(named(layers[start + 100], table, requests[100]));
        assert(named(layers[start + 101], table, requests[101]));
        assert(named(layers[start + 102], table, requests[102]));
        assert(named(layers[start + 103], table, requests[103]));
    }

    /// Takes the generator's tensors out of a checkpoint.
    pub fn load(weights: &mut Weights) -> (result: Result<Generator, WeightsError>)
        requires
            old(weights).valid(),
        ensures
            final(weights).valid(),
            final(weights)@ == supplied_all(old(weights)@, generator_requests()).0,
            match result {
                Ok(generator) => supplied_all(old(weights)@, generator_requests()).1 matches Ok(
                    layers,
                ) && generator.holds(layers, 0) && served(layers, generator_requests())
                    && generator.named(old(weights)@),
                Err(error) => supplied_all(old(weights)@, generator_requests()).1 == Err::<
                    Seq<Layer>,
                    Failure,
                >(error@),
            },
    {
        let mut requests: Vec<Request> = Vec::new();
        assert(wanted(requests@) =~= seq![]);
        ask_generator(&mut requests);
        assert(wanted(requests@) =~= generator_requests());
        match weights.layers(&requests) {
            Ok(layers) => {
                let generator = Self::from_layers(&layers, 0);
                proof {
                    lemma_named(old(weights)@, generator_requests());
                    generator.lemma_tensors(old(weights)@, layers@, 0);
                }
                Ok(generator)
            },
            Err(error) => Err(error),
        }
    }

    /// Plans the way from a latent to waveforms.
    pub fn forward_with_source(latent: &[i32]) -> (result: Result<GeneratorPlan, GeneratorError>)
        requires
            latent@.len() == 3 ==> latent@[1] > 0 && latent@[1] * 512 <= i32::MAX,
        ensures
            match result {
                Ok(plan) => {
                    &&& latent@.len() == 3
                    &&& plan.stage_lengths@.len() == upsampler::STAGES
                    &&& forall|stage: int|
                        0 <= stage < upsampler::STAGES ==> #[trigger] plan.stage_lengths@[stage]
                            == latent@[1] * upsampler::factor(stage)
                    &&& plan.output@ == seq![latent@[0], (latent@[1] * 512) as i32, 1]
                },
                Err(error) => latent@.len() != 3 && error == GeneratorError::LatentRank,
            },
    {
        if latent.len() != 3 {
            return Err(GeneratorError::LatentRank);
        }
        let stage_lengths = upsampler::stage_lengths(latent[1]);
        let output = vec![latent[0], stage_lengths[upsampler::STAGES - 1], 1];
        assert(output@ =~= seq![latent@[0], (latent@[1] * 512) as i32, 1]);
        Ok(GeneratorPlan { stage_lengths, output })
    }

    /// The shapes of the random inputs that go with a latent.
    pub fn forward(latent: &[i32]) -> (source: SourceInputs)
        requires
            latent@.len() >= 2,
            0 < latent@[1],
            latent@[1] * 512 <= i32::MAX,
        ensures
            source.initial_phase@ == seq![latent@[0], HARMONICS],
            source.sine_noise@ == seq![latent@[0], (latent@[1] * UPSAMPLE_FACTOR) as i32, HARMONICS],
            source.source_noise@ == seq![latent@[0], (latent@[1] * UPSAMPLE_FACTOR) as i32, 1],
    {
        SourceInputs::sample(latent[0], latent[1] * UPSAMPLE_FACTOR)
    }
}

/// The first and last convolutions keep the length.
pub proof fn lemma_ends_keep_length(length: int)
    requires
        length > 0,
    ensures
        convolution(192, 512, 7, 3).output_length(length) == length,
        convolution(768, 512, 1, 0).output_length(length) == length,
        convolution(16, 1, 7, 3).output_length(length) == length,
{
    vstd::arithmetic::div_mod::lemma_div_basics_2(length - 1);
    assert(1 * (7 - 1) == 6 && 1 * (1 - 1) == 0);
}

} // verus!
