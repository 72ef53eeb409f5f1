//! The denoising network and the diffusion solver that runs it.

use crate::names;
use crate::names::numbered_name;
use crate::refine::RefineError;
use crate::weights::{
    all_sensible, ask, bare, convolution, dense, lemma_named, plain, served, supplied_all, unbiased,
    want, wanted, Failure, Kind, Layer, Request, Table, Wanted, Weights, WeightsError,
};
use vstd::arithmetic::div_mod::*;
use vstd::prelude::*;

verus! {

/// The number of residual layers of the network.
pub const RESIDUAL_LAYERS: usize = 20;

/// One residual layer: four requests.
pub open spec fn residual_requests(index: nat) -> Seq<Wanted> {
    let prefix = numbered_name("decoder.denoise_fn.residual_layers."@, index, ""@);
    seq![
        want(prefix + ".dilated_conv"@, convolution(512, 1024, 3, 1)),
        want(
            prefix + ".diffusion_projection"@,
            Kind::Linear { input_dims: 512, output_dims: 512, bias: true },
        ),
        want(prefix + ".conditioner_projection"@, convolution(256, 1024, 1, 0)),
        want(prefix + ".output_projection"@, convolution(512, 1024, 1, 0)),
    ]
}

/// The first `count` residual layers.
pub open spec fn residuals_requests(count: nat) -> Seq<Wanted>
    decreases count,
{
    if count == 0 {
        seq![]
    } else {
        residuals_requests((count - 1) as nat) + residual_requests((count - 1) as nat)
    }
}

/// The requests of the network after its residual layers.
pub open spec fn network_end_requests() -> Seq<Wanted> {
    seq![
        want("decoder.denoise_fn.input_projection"@, convolution(128, 512, 1, 0)),
        want(
            "decoder.denoise_fn.mlp.0"@,
            Kind::Linear { input_dims: 512, output_dims: 2048, bias: true },
        ),
        want(
            "decoder.denoise_fn.mlp.2"@,
            Kind::Linear { input_dims: 2048, output_dims: 512, bias: true },
        ),
        want("decoder.denoise_fn.skip_projection"@, convolution(512, 512, 1, 0)),
        want("decoder.denoise_fn.output_projection"@, convolution(512, 128, 1, 0)),
    ]
}

/// The requests of the embeddings.
pub open spec fn embedding_requests() -> Seq<Wanted> {
    seq![
        want("unit_embed"@, Kind::Linear { input_dims: 768, output_dims: 256, bias: true }),
        want("f0_embed"@, Kind::Linear { input_dims: 1, output_dims: 256, bias: true }),
        want("volume_embed"@, Kind::Linear { input_dims: 1, output_dims: 256, bias: true }),
        want("aug_shift_embed"@, Kind::Linear { input_dims: 1, output_dims: 256, bias: false }),
    ]
}

/// The tensors of the noise schedule: nine that are not used, then five that
/// are.
pub open spec fn schedule_requests() -> Seq<Wanted> {
    seq![
        want("decoder.alphas_cumprod"@, Kind::Values),
        want("decoder.alphas_cumprod_prev"@, Kind::Values),
        want("decoder.log_one_minus_alphas_cumprod"@, Kind::Values),
        want("decoder.sqrt_recip_alphas_cumprod"@, Kind::Values),
        want("decoder.sqrt_recipm1_alphas_cumprod"@, Kind::Values),
        want("decoder.posterior_variance"@, Kind::Values),
        want("decoder.posterior_log_variance_clipped"@, Kind::Values),
        want("decoder.posterior_mean_coef1"@, Kind::Values),
        want("decoder.posterior_mean_coef2"@, Kind::Values),
        want("decoder.betas"@, Kind::Values),
        want("decoder.sqrt_alphas_cumprod"@, Kind::Values),
        want("decoder.sqrt_one_minus_alphas_cumprod"@, Kind::Values),
        want("decoder.spec_min"@, Kind::Values),
        want("decoder.spec_max"@, Kind::Values),
    ]
}

/// The requests of the model.
pub open spec fn unit2mel_requests() -> Seq<Wanted> {
    embedding_requests() + schedule_requests() + residuals_requests(RESIDUAL_LAYERS as nat)
        + network_end_requests()
}

/// Adds the requests of the schedule.
fn ask_schedule(requests: &mut Vec<Request>)
    requires
        all_sensible(wanted(old(requests)@)),
    ensures
        all_sensible(wanted(final(requests)@)),
        wanted(final(requests)@) == wanted(old(requests)@) + schedule_requests(),
{
    ask(requests, "decoder.alphas_cumprod".to_owned(), Kind::Values);
    ask(requests, "decoder.alphas_cumprod_prev".to_owned(), Kind::Values);
    ask(requests, "decoder.log_one_minus_alphas_cumprod".to_owned(), Kind::Values);
    ask(requests, "decoder.sqrt_recip_alphas_cumprod".to_owned(), Kind::Values);
    ask(requests, "decoder.sqrt_recipm1_alphas_cumprod".to_owned(), Kind::Values);
    ask(requests, "decoder.posterior_variance".to_owned(), Kind::Values);
    ask(requests, "decoder.posterior_log_variance_clipped".to_owned(), Kind::Values);
    ask(requests, "decoder.posterior_mean_coef1".to_owned(), Kind::Values);
    ask(requests, "decoder.posterior_mean_coef2".to_owned(), Kind::Values);
    ask(requests, "decoder.betas".to_owned(), Kind::Values);
    ask(requests, "decoder.sqrt_alphas_cumprod".to_owned(), Kind::Values);
    ask(requests, "decoder.sqrt_one_minus_alphas_cumprod".to_owned(), Kind::Values);
    ask(requests, "decoder.spec_min".to_owned(), Kind::Values);
    ask(requests, "decoder.spec_max".to_owned(), Kind::Values);
    assert(wanted(requests@) =~= wanted(old(requests)@) + schedule_requests());
}

/// Adds the requests of one residual layer.
fn ask_residual(requests: &mut Vec<Request>, index: usize)
    requires
        all_sensible(wanted(old(requests)@)),
    ensures
        all_sensible(wanted(final(requests)@)),
        wanted(final(requests)@) == wanted(old(requests)@) + residual_requests(index as nat),
{
    let prefix = names::numbered("decoder.denoise_fn.residual_layers.", index, "");
    ask(requests, names::joined(prefix.as_str(), ".dilated_conv"), convolution(512, 1024, 3, 1));
    ask(
        requests,
        names::joined(prefix.as_str(), ".diffusion_projection"),
        Kind::Linear { input_dims: 512, output_dims: 512, bias: true },
    );
    ask(
        requests,
        names::joined(prefix.as_str(), ".conditioner_projection"),
        convolution(256, 1024, 1, 0),
    );
    ask(
        requests,
        names::joined(prefix.as_str(), ".output_projection"),
        convolution(512, 1024, 1, 0),
    );
    assert(wanted(requests@) =~= wanted(old(requests)@) + residual_requests(index as nat));
}

/// Lists the requests of the model.
fn list_requests() -> (requests: Vec<Request>)
    ensures
        all_sensible(wanted(requests@)),
        wanted(requests@) == unit2mel_requests(),
        unit2mel_requests().len() == 103,
{
    let mut requests: Vec<Request> = Vec::new();
    ask(
        &mut requests,
        "unit_embed".to_owned(),
        Kind::Linear { input_dims: 768, output_dims: 256, bias: true },
    );
    ask(
        &mut requests,
        "f0_embed".to_owned(),
        Kind::Linear { input_dims: 1, output_dims: 256, bias: true },
    );
    ask(
        &mut requests,
        "volume_embed".to_owned(),
        Kind::Linear { input_dims: 1, output_dims: 256, bias: true },
    );
    ask(
        &mut requests,
        "aug_shift_embed".to_owned(),
        Kind::Linear { input_dims: 1, output_dims: 256, bias: false },
    );
    assert(wanted(requests@) =~= embedding_requests());
    ask_schedule(&mut requests);
    let ghost start = wanted(requests@);
    let mut index: usize = 0;
    assert(start =~= start + residuals_requests(0));
    while index < RESIDUAL_LAYERS
        invariant
            index <= RESIDUAL_LAYERS,
            all_sensible(wanted(requests@)),
            wanted(requests@) == start + residuals_requests(index as nat),
            residuals_requests(index as nat).len() == 4 * index,
        decreases RESIDUAL_LAYERS - index,
    {
        ask_residual(&mut requests, index);
        index = index + 1;
        assert(wanted(requests@) =~= start + residuals_requests(index as nat));
    }
    ask(
        &mut requests,
        "decoder.denoise_fn.input_projection".to_owned(),
        convolution(128, 512, 1, 0),
    );
    ask(
        &mut requests,
        "decoder.denoise_fn.mlp.0".to_owned(),
        Kind::Linear { input_dims: 512, output_dims: 2048, bias: true },
    );
    ask(
        &mut requests,
        "decoder.denoise_fn.mlp.2".to_owned(),
        Kind::Linear { input_dims: 2048, output_dims: 512, bias: true },
    );
    ask(
        &mut requests,
        "decoder.denoise_fn.skip_projection".to_owned(),
        convolution(512, 512, 1, 0),
    );
    ask(
        &mut requests,
        "decoder.denoise_fn.output_projection".to_owned(),
        convolution(512, 128, 1, 0),
    );
    assert(wanted(requests@) =~= unit2mel_requests());
    requests
}

/// The layers of one residual layer.
#[derive(Clone, Copy, Debug, PartialEq, Eq)]
pub struct ResidualBlock {
    pub dilated_conv: Layer,
    pub diffusion_projection: Layer,
    pub conditioner_projection: Layer,
    pub output_projection: Layer,
}

/// The layers of a residual layer, in the order of its requests.
pub open spec fn residual_of(layers: Seq<Layer>, start: int) -> ResidualBlock {
    ResidualBlock {
        dilated_conv: layers[start],
        diffusion_projection: layers[start + 1],
        conditioner_projection: layers[start + 2],
        output_projection: layers[start + 3],
    }
}

/// The denoising network.
#[derive(Debug)]
pub struct WaveNet {
    pub residual_layers: Vec<ResidualBlock>,
    pub input_projection: Layer,
    pub diffusion_mlp_in: Layer,
    pub diffusion_mlp_out: Layer,
    pub skip_projection: Layer,
    pub output_projection: Layer,
}

/// The tensors of the noise schedule.
#[derive(Clone, Copy, Debug, PartialEq, Eq)]
pub struct DiffusionSchedule {
    pub betas: Layer,
    pub sqrt_alphas_cumprod: Layer,
    pub sqrt_one_minus_alphas_cumprod: Layer,
    pub spec_min: Layer,
    pub spec_max: Layer,
}

/// The model that refines a spectrogram.
#[derive(Debug)]
pub struct Unit2Mel {
    pub unit_embed: Layer,
    pub f0_embed: Layer,
    pub volume_embed: Layer,
    pub aug_shift_embed: Layer,
    pub schedule: DiffusionSchedule,
    /// The number of steps of the schedule, where it has a dimension.
    pub schedule_length: Option<i32>,
    pub denoiser: WaveNet,
}

/// The first dimension of a tensor of a table.
pub open spec fn leading_dimension(table: Table, name: Seq<char>) -> Option<i32> {
    if table.dom().contains(name) && table[name].shape.len() > 0 {
        Some(table[name].shape[0])
    } else {
        None
    }
}

/// The shape of the state for a spectrogram: the bins come before the frames,
/// and a dimension is put in.
pub open spec fn state_shape(mel: Seq<i32>) -> Seq<i32> {
    seq![mel[0], 1, mel[2], mel[1]]
}

/// See [`state_shape`].
pub fn shape_of_state(mel: &[i32]) -> (shape: Vec<i32>)
    requires
        mel@.len() == 3,
    ensures
        shape@ == state_shape(mel@),
        shape@.len() == 4,
        shape@[0] == mel@[0],
        shape@[1] == 1,
        shape@[2] == mel@[2],
        shape@[3] == mel@[1],
{
    let shape = vec![mel[0], 1, mel[2], mel[1]];
    assert(shape@ =~= state_shape(mel@));
    shape
}

/// One step of the solver: the state at `end` is made of the predictions at
/// `older` and `current`, and the network is run on it unless it is the last.
#[derive(Clone, Copy, Debug, PartialEq, Eq, Structural)]
pub struct SecondUpdate {
    pub older: i32,
    pub current: i32,
    pub end: i32,
    pub predict: bool,
}

/// The work of the solver. The network is run at time 0, a first-order update
/// leads to time 1, where the network is run again, and the other times are
/// reached by second-order updates.
#[derive(Debug)]
pub struct SolverPlan {
    /// How many steps of the schedule are used.
    pub k_step: i32,
    /// How many times there are after the first.
    pub steps: i32,
    pub updates: Vec<SecondUpdate>,
}

/// The update that leads to a time.
pub open spec fn update_to(end: int, steps: int) -> SecondUpdate {
    SecondUpdate {
        older: (end - 2) as i32,
        current: (end - 1) as i32,
        end: end as i32,
        predict: end < steps,
    }
}

/// The second-order updates for some steps.
pub open spec fn updates_for(steps: int) -> Seq<SecondUpdate> {
    Seq::new((steps - 1) as nat, |i: int| update_to(i + 2, steps))
}

/// How often the network is run.
pub open spec fn evaluations(updates: Seq<SecondUpdate>) -> int
    decreases updates.len(),
{
    if updates.len() == 0 {
        2
    } else {
        evaluations(updates.drop_last()) + if updates.last().predict {
            1int
        } else {
            0
        }
    }
}

/// The solver runs the network once for each step.
pub proof fn lemma_evaluations(steps: int)
    requires
        2 <= steps <= i32::MAX,
    ensures
        evaluations(updates_for(steps)) == steps,
{
    let updates = updates_for(steps);
    lemma_predicting(updates.drop_last(), steps);
}

/// The updates lead from time to time without a gap: each takes the two times
/// before its end, of which the later is where the update before it ended, the
/// last one ends where the steps do, and the network is run at every end but
/// that.
pub proof fn lemma_updates_connected(steps: int)
    requires
        2 <= steps <= i32::MAX,
    ensures
        ({
            let updates = updates_for(steps);
            &&& updates.len() == steps - 1
            &&& updates.first().older == 0
            &&& updates.last().end == steps
            &&& forall|i: int|
                0 <= i < updates.len() ==> {
                    &&& (#[trigger] updates[i]).older + 1 == updates[i].current
                    &&& updates[i].current + 1 == updates[i].end
                    &&& updates[i].predict <==> updates[i].end != steps
                }
            &&& forall|i: int, j: int|
                0 <= i && j == i + 1 && j < updates.len() ==> (#[trigger] updates[j]).current == (
                #[trigger] updates[i]).end
        }),
{
}

proof fn lemma_predicting(updates: Seq<SecondUpdate>, steps: int)
    requires
        forall|i: int|
            0 <= i < updates.len() ==> #[trigger] updates[i] == update_to(i + 2, steps) && i + 2
                < steps,
        steps <= i32::MAX,
    ensures
        evaluations(updates) == 2 + updates.len(),
    decreases updates.len(),
{
    if updates.len() > 0 {
        lemma_predicting(updates.drop_last(), steps);
    }
}

/// Neighbouring steps of a noise schedule of `total_steps` steps between which
/// a position lies, or the outermost two.
pub fn schedule_bracket(floored_position: i32, total_steps: i32) -> (bracket: (i32, i32))
    requires
        total_steps >= 2,
    ensures
        bracket.0 == (if floored_position < 0 {
            0int
        } else if floored_position > total_steps - 2 {
            total_steps - 2
        } else {
            floored_position as int
        }),
        bracket.1 == bracket.0 + 1,
        0 <= bracket.0 < bracket.1 < total_steps,
{
    let lower: i32 = if floored_position < 0 {
        0
    } else if floored_position > total_steps - 2 {
        total_steps - 2
    } else {
        floored_position
    };
    (lower, lower + 1)
}

impl WaveNet {
    /// Whether the layers are those from `start` on.
    pub open spec fn holds(self, layers: Seq<Layer>, start: int) -> bool {
        &&& self.residual_layers@.len() == RESIDUAL_LAYERS
        &&& forall|i: int|
            0 <= i < RESIDUAL_LAYERS ==> #[trigger] self.residual_layers@[i] == residual_of(
                layers,
                start + 4 * i,
            )
        &&& self.input_projection == layers[start + 80]
        &&& self.diffusion_mlp_in == layers[start + 81]
        &&& self.diffusion_mlp_out == layers[start + 82]
        &&& self.skip_projection == layers[start + 83]
        &&& self.output_projection == layers[start + 84]
    }

    /// Groups the layers that the requests gave.
    fn from_layers(layers: &Vec<Layer>, start: usize) -> (result: WaveNet)
        requires
            start + 85 <= layers.len(),
        ensures
            result.holds(layers@, start as int),
    {
        let mut residual_layers: Vec<ResidualBlock> = Vec::new();
        let mut index: usize = 0;
        while index < RESIDUAL_LAYERS
            invariant
                index <= RESIDUAL_LAYERS,
                start + 85 <= layers.len(),
                residual_layers@.len() == index,
                forall|i: int|
                    0 <= i < index ==> #[trigger] residual_layers@[i] == residual_of(
                        layers@,
                        start + 4 * i,
                    ),
            decreases RESIDUAL_LAYERS - index,
        {
            let first: usize = start + 4 * index;
            residual_layers.push(
                ResidualBlock {
                    dilated_conv: layers[first],
                    diffusion_projection: layers[first + 1],
                    conditioner_projection: layers[first + 2],
                    output_projection: layers[first + 3],
                },
            );
            index = index + 1;
        }
        WaveNet {
            residual_layers,
            input_projection: layers[start + 80],
            diffusion_mlp_in: layers[start + 81],
            diffusion_mlp_out: layers[start + 82],
            skip_projection: layers[start + 83],
            output_projection: layers[start + 84],
        }
    }
}

impl Unit2Mel {
    /// Whether the layers are these.
    pub open spec fn holds(self, layers: Seq<Layer>) -> bool {
        &&& self.unit_embed == layers[0]
        &&& self.f0_embed == layers[1]
        &&& self.volume_embed == layers[2]
        &&& self.aug_shift_embed == layers[3]
        &&& self.schedule.betas == layers[13]
        &&& self.schedule.sqrt_alphas_cumprod == layers[14]
        &&& self.schedule.sqrt_one_minus_alphas_cumprod == layers[15]
        &&& self.schedule.spec_min == layers[16]
        &&& self.schedule.spec_max == layers[17]
        &&& self.denoiser.holds(layers, 18)
    }

    /// Takes the model's tensors out of a checkpoint.
    pub fn load(weights: &mut Weights) -> (result: Result<Unit2Mel, WeightsError>)
        requires
            old(weights).valid(),
        ensures
            final(weights).valid(),
            final(weights)@ == supplied_all(old(weights)@, unit2mel_requests()).0,
            match result {
                Ok(model) => {
                    &&& model.named(old(weights)@)
                    &&& supplied_all(old(weights)@, unit2mel_requests()).1 matches Ok(layers)
                    &&& model.holds(layers)
                    &&& served(layers, unit2mel_requests())
                    &&& model.schedule_length == leading_dimension(
                        old(weights)@,
                        "decoder.betas"@,
                    )
                },
                Err(error) => supplied_all(old(weights)@, unit2mel_requests()).1 == Err::<
                    Seq<Layer>,
                    Failure,
                >(error@),
            },
    {
        let schedule_length = weights.first_dimension("decoder.betas");
        let requests = list_requests();
        let layers = match weights.layers(&requests) {
            Ok(layers) => layers,
            Err(error) => return Err(error),
        };
        let model = Unit2Mel {
                unit_embed: layers[0],
                f0_embed: layers[1],
                volume_embed: layers[2],
                aug_shift_embed: layers[3],
                schedule: DiffusionSchedule {
                    betas: layers[13],
                    sqrt_alphas_cumprod: layers[14],
                    sqrt_one_minus_alphas_cumprod: layers[15],
                    spec_min: layers[16],
                    spec_max: layers[17],
                },
                schedule_length,
                denoiser: WaveNet::from_layers(&layers, 18),
            };
        proof {
            model.lemma_tensors(old(weights)@, layers@);
        }
        Ok(model)
    }

    /// Plans the work of the solver over the first `k_step` steps of the
    /// schedule, `infer_speedup` of them at a time.
    pub fn sample_dpm_solver_pp(&self, k_step: i32, infer_speedup: i32) -> (result: Result<
        SolverPlan,
        RefineError,
    >)
        requires
            k_step >= 2 ==> self.schedule_length is Some,
        ensures
            ({
                let length = self.schedule_length->0;
                match result {
                    Ok(plan) => {
                        let steps = k_step as int / infer_speedup as int;
                        &&& 2 <= k_step <= length
                        &&& infer_speedup > 0
                        &&& steps >= 2
                        &&& plan.k_step == k_step
                        &&& plan.steps == steps
                        &&& plan.steps * infer_speedup <= k_step < (plan.steps + 1) * infer_speedup
                        &&& plan.updates@ == updates_for(steps)
                    },
                    Err(RefineError::KStep) => k_step < 2,
                    Err(RefineError::ScheduleLength { k_step: given, length: available }) => {
                        &&& k_step >= 2
                        &&& k_step > length
                        &&& given == k_step
                        &&& available == length
                    },
                    Err(RefineError::InferSpeedup) => 2 <= k_step <= length && infer_speedup <= 0,
                    Err(error) => {
                        &&& error == RefineError::SolverSteps
                        &&& 2 <= k_step <= length
                        &&& infer_speedup > 0
                        &&& (k_step as int / infer_speedup as int) < 2
                    },
                }
            }),
    {
        if k_step < 2 {
            return Err(RefineError::KStep);
        }
        let length: i32 = match self.schedule_length {
            Some(length) => length,
            None => 0,
        };
        if k_step > length {
            return Err(RefineError::ScheduleLength { k_step, length });
        }
        if infer_speedup <= 0 {
            return Err(RefineError::InferSpeedup);
        }
        let steps: i32 = k_step / infer_speedup;
        if steps < 2 {
            return Err(RefineError::SolverSteps);
        }
        let ghost expected = updates_for(steps as int);
        proof {
            lemma_div_is_ordered_by_denominator(k_step as int, 1, infer_speedup as int);
            lemma_div_basics_2(k_step as int);
        }
        let mut updates: Vec<SecondUpdate> = Vec::new();
        let mut done: i32 = 1;
        assert(updates@ =~= expected.take(0));
        while done < steps
            invariant
                1 <= done <= steps,
                steps >= 2,
                expected == updates_for(steps as int),
                updates@ == expected.take(done - 1),
            decreases steps - done,
        {
            let end: i32 = done + 1;
            updates.push(
                SecondUpdate { older: end - 2, current: end - 1, end, predict: end < steps },
            );
            done = end;
            assert(updates@ =~= expected.take(done - 1));
        }
        assert(updates@ =~= expected);
        proof {
            lemma_fundamental_div_mod(k_step as int, infer_speedup as int);
            lemma_mod_bound(k_step as int, infer_speedup as int);
            assert(infer_speedup * steps == steps * infer_speedup) by (nonlinear_arith);
            assert((steps + 1) * infer_speedup == steps * infer_speedup + infer_speedup)
                by (nonlinear_arith);
        }
        Ok(SolverPlan { k_step, steps, updates })
    }
}

/// Where the requests of a residual layer stand.
proof fn lemma_residual_places(count: nat, index: int, part: int)
    ensures
        residuals_requests(count).len() == 4 * count,
        0 <= index < count && 0 <= part < 4 ==> residuals_requests(count)[4 * index + part]
            == residual_requests(index as nat)[part],
    decreases count,
{
    if count > 0 {
        lemma_residual_places((count - 1) as nat, index, part);
    }
}

impl Unit2Mel {
    /// Whether every field holds the tensors that a table keeps under its name.
    pub open spec fn named(self, table: Table) -> bool {
        &&& plain(self.unit_embed, table, "unit_embed"@, dense(768, 256))
        &&& plain(self.f0_embed, table, "f0_embed"@, dense(1, 256))
        &&& plain(self.volume_embed, table, "volume_embed"@, dense(1, 256))
        &&& unbiased(
            self.aug_shift_embed,
            table,
            "aug_shift_embed"@,
            Kind::Linear { input_dims: 1, output_dims: 256, bias: false },
        )
        &&& bare(self.schedule.betas, table, "decoder.betas"@)
        &&& bare(self.schedule.sqrt_alphas_cumprod, table, "decoder.sqrt_alphas_cumprod"@)
        &&& bare(
            self.schedule.sqrt_one_minus_alphas_cumprod,
            table,
            "decoder.sqrt_one_minus_alphas_cumprod"@,
        )
        &&& bare(self.schedule.spec_min, table, "decoder.spec_min"@)
        &&& bare(self.schedule.spec_max, table, "decoder.spec_max"@)
        &&& plain(
            self.denoiser.input_projection,
            table,
            "decoder.denoise_fn.input_projection"@,
            convolution(128, 512, 1, 0),
        )
        &&& plain(
            self.denoiser.diffusion_mlp_in,
            table,
            "decoder.denoise_fn.mlp.0"@,
            dense(512, 2048),
        )
        &&& plain(
            self.denoiser.diffusion_mlp_out,
            table,
            "decoder.denoise_fn.mlp.2"@,
            dense(2048, 512),
        )
        &&& plain(
            self.denoiser.skip_projection,
            table,
            "decoder.denoise_fn.skip_projection"@,
            convolution(512, 512, 1, 0),
        )
        &&& plain(
            self.denoiser.output_projection,
            table,
            "decoder.denoise_fn.output_projection"@,
            convolution(512, 128, 1, 0),
        )
        &&& self.denoiser.residual_layers@.len() == 20
        &&& forall|i: int|
            0 <= i < 20 ==> (#[trigger] self.denoiser.residual_layers@[i]).named(
                table,
                numbered_name("decoder.denoise_fn.residual_layers."@, i as nat, ""@),
            )
    }

    /// Every tensor of the model goes to the layer that it is named for.
    pub proof fn lemma_tensors(self, table: Table, layers: Seq<Layer>)
        requires
            supplied_all(table, unit2mel_requests()).1 == Ok::<Seq<Layer>, Failure>(layers),
            self.holds(layers),
        ensures
            self.named(table),
    {
        let requests = unit2mel_requests();
        lemma_named(table, requests);
        lemma_residual_places(RESIDUAL_LAYERS as nat, 0, 0);
        assert(requests.len() == 103);
        assert(layers[0] == layers[0] && requests[0] == embedding_requests()[0]);
        assert(requests[1] == embedding_requests()[1]);
        assert(requests[2] == embedding_requests()[2]);
        assert(requests[3] == embedding_requests()[3]);
        assert(requests[13] == schedule_requests()[9]);
        assert(requests[14] == schedule_requests()[10]);
        assert(requests[15] == schedule_requests()[11]);
        assert(requests[16] == schedule_requests()[12]);
        assert(requests[17] == schedule_requests()[13]);
        assert(requests[98] == network_end_requests()[0]);
        assert(requests[99] == network_end_requests()[1]);
        assert(requests[100] == network_end_requests()[2]);
        assert(requests[101] == network_end_requests()[3]);
        assert(requests[102] == network_end_requests()[4]);
        assert forall|i: int| 0 <= i < 20 implies (
        #[trigger] self.denoiser.residual_layers@[i]).named(
            table,
            numbered_name("decoder.denoise_fn.residual_layers."@, i as nat, ""@),
        ) by {
            let first = 18 + 4 * i;
            assert(self.denoiser.residual_layers@[i] == residual_of(layers, first));
            lemma_residual_places(RESIDUAL_LAYERS as nat, i, 0);
            lemma_residual_places(RESIDUAL_LAYERS as nat, i, 1);
            lemma_residual_places(RESIDUAL_LAYERS as nat, i, 2);
            lemma_residual_places(RESIDUAL_LAYERS as nat, i, 3);
            assert(requests[first] == residual_requests(i as nat)[0]);
            assert(requests[first + 1] == residual_requests(i as nat)[1]);
            assert(requests[first + 2] == residual_requests(i as nat)[2]);
            assert(requests[first + 3] == residual_requests(i as nat)[3]);
        }
    }
}

impl ResidualBlock {
    /// Whether the layers hold the tensors that are named for them.
    pub open spec fn named(self, table: Table, prefix: Seq<char>) -> bool {
        &&& plain(
            self.dilated_conv,
            table,
            prefix + ".dilated_conv"@,
            convolution(512, 1024, 3, 1),
        )
        &&& plain(
            self.diffusion_projection,
            table,
            prefix + ".diffusion_projection"@,
            dense(512, 512),
        )
        &&& plain(
            self.conditioner_projection,
            table,
            prefix + ".conditioner_projection"@,
            convolution(256, 1024, 1, 0),
        )
        &&& plain(
            self.output_projection,
            table,
            prefix + ".output_projection"@,
            convolution(512, 1024, 1, 0),
        )
    }
}

/// The network keeps the number of frames, and half of a residual layer's
/// channels go on while the other half are skipped to the end.
pub proof fn lemma_network_lengths(index: nat, part: int, length: int)
    requires
        length > 0,
        0 <= part < 4,
    ensures
        residual_requests(index)[part].kind.output_length(length) == length,
{
    lemma_div_basics_2(length - 1);
    assert(1 * (3 - 1) == 2 && 1 * (1 - 1) == 0);
    let kind = residual_requests(index)[part].kind;
    assert(kind is Linear || (kind matches Kind::Conv1d {
        kernel_size,
        padding,
        dilation,
        stride,
        ..
    } && dilation == 1 && stride == 1 && ((kernel_size == 3 && padding == 1) || (kernel_size == 1
        && padding == 0))));
}

} // verus!
