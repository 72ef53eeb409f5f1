//! The decoder that predicts the pitch of the target voice.

use crate::attention;
use crate::attention::CausalFft;
use crate::weights::{
    all_named, all_sensible, ask, convolution, lemma_named, lemma_named_part, named, plain, served,
    supplied_all, want, wanted, Failure, Layer, Request, Table, Wanted, Weights, WeightsError,
};
use vstd::prelude::*;

verus! {

/// The pitch decoder.
#[derive(Debug)]
pub struct F0Decoder {
    pub prenet: Layer,
    pub decoder: CausalFft,
    pub projection: Layer,
    pub f0_prenet: Layer,
    pub condition: Layer,
}

/// The requests of the pitch decoder.
pub open spec fn f0_decoder_requests() -> Seq<Wanted> {
    seq![want("f0_decoder.prenet"@, convolution(192, 192, 3, 1))] + attention::causal_requests(
        attention::LAYERS as nat,
    ) + seq![
        want("f0_decoder.proj"@, convolution(192, 1, 1, 0)),
        want("f0_decoder.f0_prenet"@, convolution(1, 192, 3, 1)),
        want("f0_decoder.cond"@, convolution(768, 192, 1, 0)),
    ]
}

/// Adds the requests of the pitch decoder.
pub fn ask_f0_decoder(requests: &mut Vec<Request>)
    requires
        all_sensible(wanted(old(requests)@)),
    ensures
        all_sensible(wanted(final(requests)@)),
        wanted(final(requests)@) == wanted(old(requests)@) + f0_decoder_requests(),
        f0_decoder_requests().len() == 52,
{
    ask(requests, "f0_decoder.prenet".to_owned(), convolution(192, 192, 3, 1));
    attention::ask_causal(requests);
    ask(requests, "f0_decoder.proj".to_owned(), convolution(192, 1, 1, 0));
    ask(requests, "f0_decoder.f0_prenet".to_owned(), convolution(1, 192, 3, 1));
    ask(requests, "f0_decoder.cond".to_owned(), convolution(768, 192, 1, 0));
    proof {
        attention::lemma_request_places(attention::LAYERS as nat, 0, 0);
        assert(wanted(requests@) =~= wanted(old(requests)@) + f0_decoder_requests());
    }
}

impl F0Decoder {
    /// Whether the layers are those from `start` on.
    pub open spec fn holds(self, layers: Seq<Layer>, start: int) -> bool {
        &&& self.prenet == layers[start]
        &&& self.decoder.holds(layers, start + 1)
        &&& self.projection == layers[start + 49]
        &&& self.f0_prenet == layers[start + 50]
        &&& self.condition == layers[start + 51]
    }

    /// Groups the layers that the requests gave.
    pub fn from_layers(layers: &Vec<Layer>, start: usize) -> (result: F0Decoder)
        requires
            start + 52 <= layers.len(),
        ensures
            result.holds(layers@, start as int),
    {
        F0Decoder {
            prenet: layers[start],
            decoder: CausalFft::from_layers(layers, start + 1),
            projection: layers[start + 49],
            f0_prenet: layers[start + 50],
            condition: layers[start + 51],
        }
    }

    /// Whether every field holds the tensors that a table keeps under its name.
    pub open spec fn named(self, table: Table) -> bool {
        &&& plain(self.prenet, table, "f0_decoder.prenet"@, convolution(192, 192, 3, 1))
        &&& self.decoder.named(table)
        &&& plain(self.projection, table, "f0_decoder.proj"@, convolution(192, 1, 1, 0))
        &&& plain(self.f0_prenet, table, "f0_decoder.f0_prenet"@, convolution(1, 192, 3, 1))
        &&& plain(self.condition, table, "f0_decoder.cond"@, convolution(768, 192, 1, 0))
    }

    /// Every tensor of the decoder goes to the layer that it is named for.
    pub proof fn lemma_tensors(self, table: Table, layers: Seq<Layer>, start: int)
        requires
            self.holds(layers, start),
            all_named(layers, start, table, f0_decoder_requests()),
        ensures
            self.named(table),
    {
        let requests = f0_decoder_requests();
        let inner = attention::causal_requests(attention::LAYERS as nat);
        attention::lemma_request_places(attention::LAYERS as nat, 0, 0);
        assert(requests.subrange(1, 49) =~= inner);
        lemma_named_part(layers, start, table, requests, 1, inner);
        self.decoder.lemma_tensors(table, layers, start + 1);
        assert(named(layers[start + 0], table, requests[0]));
        assert(named(layers[start + 49], table, requests[49]));
        assert(named(layers[start + 50], table, requests[50]));
        assert(named(layers[start + 51], table, requests[51]));
    }

    /// Takes the decoder's tensors out of a checkpoint.
    pub fn load(weights: &mut Weights) -> (result: Result<F0Decoder, WeightsError>)
        requires
            old(weights).valid(),
        ensures
            final(weights).valid(),
            final(weights)@ == supplied_all(old(weights)@, f0_decoder_requests()).0,
            match result {
                Ok(decoder) => supplied_all(old(weights)@, f0_decoder_requests()).1 matches Ok(
                    layers,
                ) && decoder.holds(layers, 0) && served(layers, f0_decoder_requests())
                    && decoder.named(old(weights)@),
                Err(error) => supplied_all(old(weights)@, f0_decoder_requests()).1 == Err::<
                    Seq<Layer>,
                    Failure,
                >(error@),
            },
    {
        let mut requests: Vec<Request> = Vec::new();
        assert(wanted(requests@) =~= seq![]);
        ask_f0_decoder(&mut requests);
        assert(wanted(requests@) =~= f0_decoder_requests());
        match weights.layers(&requests) {
            Ok(layers) => {
                let decoder = Self::from_layers(&layers, 0);
                proof {
                    lemma_named(old(weights)@, f0_decoder_requests());
                    decoder.lemma_tensors(old(weights)@, layers@, 0);
                }
                Ok(decoder)
            },
            Err(error) => Err(error),
        }
    }
}

} // verus!
