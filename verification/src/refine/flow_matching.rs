//! Refinement by flow matching.

use crate::refine::model::{
    leading_dimension, shape_of_state, state_shape, unit2mel_requests, Unit2Mel,
};
use crate::refine::RefineError;
use crate::single::Single;
use crate::weights::{
    lemma_all_supplied, of_layer, served, supplied_all, taken, Entry, Failure, Layer, Table,
    Tensor, Weights, WeightsError,
};
use vstd::prelude::*;

verus! {

/// The number of steps of the noise schedule that the network was trained on.
pub const TIMESTEPS: i32 = 1000;

/// What the scalars of a checkpoint hold; nothing where one cannot be read.
#[derive(Clone, Copy, Debug, PartialEq, Eq)]
pub struct FlowValues {
    /// Whether `t_k` is `a_k / (a_k + b_k)`, up to rounding.
    pub t_k_matches: Option<bool>,
    pub timesteps: Option<i32>,
    pub default_ode_steps: Option<i32>,
    pub t_eps: Option<Single>,
    /// `t_k`, where the flow is entered.
    pub t_start: Single,
    /// One less `t_eps`, where the flow is left.
    pub t_end: Single,
}

/// Refines a spectrogram by following a flow from noise.
#[derive(Debug)]
pub struct FlowMatchingRefiner {
    pub model: Unit2Mel,
    /// Where the entry time is kept.
    pub t_k: usize,
    /// How long before the end the flow is left.
    pub t_eps: Single,
    /// The time at which the flow is entered.
    pub t_start: Single,
    /// The time at which the flow is left.
    pub t_end: Single,
    /// Where the noise schedule is kept.
    pub alphas_cumprod_ascending: usize,
}

/// The tensors that the flow itself needs, in the order in which they are
/// taken.
pub struct FlowTensors {
    pub a_k: Entry,
    pub b_k: Entry,
    pub t_k: Entry,
    pub alphas: Entry,
}

/// The names of the flow's tensors.
pub open spec fn flow_names() -> Seq<Seq<char>> {
    seq![
        "a_k"@,
        "b_k"@,
        "t_k"@,
        "_flow.alphas_cumprod_ascending"@,
        "_flow.timesteps"@,
        "_flow.t_eps"@,
        "_flow.default_ode_steps"@,
    ]
}

/// Takes tensors out of a table one after the other, up to the first that is
/// missing.
pub open spec fn taken_all(table: Table, names: Seq<Seq<char>>) -> (
    Table,
    Result<Seq<Entry>, Failure>,
)
    decreases names.len(),
{
    if names.len() == 0 {
        (table, Ok(seq![]))
    } else {
        let (rest, entries) = taken_all(table, names.drop_last());
        match entries {
            Err(failure) => (rest, Err(failure)),
            Ok(entries) => {
                let (end, entry) = taken(rest, names.last());
                (end, match entry {
                    Err(failure) => Err(failure),
                    Ok(entry) => Ok(entries.push(entry)),
                })
            },
        }
    }
}

/// The number of values of an array.
pub open spec fn size(shape: Seq<i32>) -> int
    decreases shape.len(),
{
    if shape.len() == 0 {
        1
    } else {
        size(shape.drop_last()) * shape.last()
    }
}

/// Whether an array has one value.
pub open spec fn scalar(shape: Seq<i32>) -> bool {
    forall|i: int| 0 <= i < shape.len() ==> #[trigger] shape[i] == 1
}

/// An array without negative dimensions has one value where each dimension is
/// one.
pub proof fn lemma_scalar_size(shape: Seq<i32>)
    requires
        forall|i: int| 0 <= i < shape.len() ==> #[trigger] shape[i] >= 0,
    ensures
        size(shape) >= 0,
        size(shape) == 1 <==> scalar(shape),
    decreases shape.len(),
{
    if shape.len() > 0 {
        let rest = shape.drop_last();
        let last = shape.last();
        assert forall|i: int| 0 <= i < rest.len() implies #[trigger] rest[i] >= 0 by {
            assert(shape[i] >= 0);
        }
        lemma_scalar_size(rest);
        assert(last == shape[shape.len() - 1]);
        assert(size(rest) * last >= 0) by (nonlinear_arith)
            requires
                size(rest) >= 0,
                last >= 0,
        ;
        assert(size(rest) * last == 1 <==> size(rest) == 1 && last == 1) by (nonlinear_arith)
            requires
                size(rest) >= 0,
                last >= 0,
        ;
        if scalar(shape) {
            assert forall|i: int| 0 <= i < rest.len() implies #[trigger] rest[i] == 1 by {
                assert(shape[i] == 1);
            }
        }
        if scalar(rest) && last == 1 {
            assert forall|i: int| 0 <= i < shape.len() implies #[trigger] shape[i] == 1 by {
                if i < rest.len() {
                    assert(rest[i] == 1);
                }
            }
        }
    }
}

/// Whether an array has one value.
fn is_scalar(shape: &Vec<i32>) -> (result: bool)
    ensures
        result == scalar(shape@),
{
    let mut index: usize = 0;
    while index < shape.len()
        invariant
            index <= shape@.len(),
            forall|i: int| 0 <= i < index ==> #[trigger] shape@[i] == 1,
        decreases shape@.len() - index,
    {
        if shape[index] != 1 {
            assert(shape@[index as int] != 1);
            return false;
        }
        index = index + 1;
    }
    true
}

/// What the values of a checkpoint break, in the order of the rules.
pub open spec fn broken_rule(tensors: FlowTensors, values: FlowValues) -> Option<Failure> {
    if !scalar(tensors.a_k.shape) {
        Some(Failure::Rule("a_k must be scalar"@))
    } else if !scalar(tensors.b_k.shape) {
        Some(Failure::Rule("b_k must be scalar"@))
    } else if !scalar(tensors.t_k.shape) {
        Some(Failure::Rule("t_k must be scalar"@))
    } else if values.t_k_matches != Some(true) {
        Some(Failure::Rule("t_k does not match a_k / (a_k + b_k)"@))
    } else if tensors.alphas.shape != seq![TIMESTEPS] {
        Some(Failure::Shape("ascending alpha schedule"@, tensors.alphas.shape))
    } else if values.timesteps != Some(TIMESTEPS) {
        Some(Failure::Rule("Flow Matching checkpoint timesteps do not match the model"@))
    } else if !(values.default_ode_steps matches Some(steps) && steps >= 1) {
        Some(Failure::Rule("Flow Matching default ODE step count must be positive"@))
    } else if !(values.t_eps matches Some(t_eps) && between_zero_and_one(t_eps)) {
        Some(Failure::Rule("Flow Matching t_eps must be between zero and one"@))
    } else {
        None
    }
}

/// A checkpoint breaks no rule exactly where its scalars are such, the schedule
/// has a value for each of the thousand steps, the checkpoint is for so many and
/// takes a step by default, and its margin of time is between zero and one.
pub proof fn lemma_broken_rule(tensors: FlowTensors, values: FlowValues)
    ensures
        broken_rule(tensors, values) is None <==> {
            &&& forall|i: int|
                0 <= i < tensors.a_k.shape.len() ==> #[trigger] tensors.a_k.shape[i] == 1
            &&& forall|i: int|
                0 <= i < tensors.b_k.shape.len() ==> #[trigger] tensors.b_k.shape[i] == 1
            &&& forall|i: int|
                0 <= i < tensors.t_k.shape.len() ==> #[trigger] tensors.t_k.shape[i] == 1
            &&& values.t_k_matches == Some(true)
            &&& tensors.alphas.shape.len() == 1 && tensors.alphas.shape[0] == 1000
            &&& values.timesteps == Some(1000i32)
            &&& values.default_ode_steps is Some && values.default_ode_steps->0 > 0
            &&& values.t_eps is Some && 0 < values.t_eps->0.bits < 0x3f80_0000
        },
        match broken_rule(tensors, values) {
            None => true,
            Some(Failure::Shape(_, shape)) => shape == tensors.alphas.shape && !(shape.len() == 1
                && shape[0] == 1000),
            Some(Failure::Rule(_)) => true,
            Some(_) => false,
        },
{
    if tensors.alphas.shape.len() == 1 && tensors.alphas.shape[0] == 1000 {
        assert(tensors.alphas.shape =~= seq![TIMESTEPS]);
    }
}

/// Whether a number is above zero and below one.
pub open spec fn between_zero_and_one(value: Single) -> bool {
    (Single { bits: 0 }).less(value) && value.less(Single { bits: crate::single::ONE })
}

/// What a checkpoint of the refiner gives.
pub open spec fn flow_checkpoint(table: Table, values: FlowValues) -> Result<
    (FlowTensors, Seq<Layer>),
    Failure,
> {
    let (first, entries) = taken_all(table, flow_names());
    match entries {
        Err(failure) => Err(failure),
        Ok(entries) => {
            let (rest, layers) = supplied_all(first, unit2mel_requests());
            let tensors = FlowTensors {
                a_k: entries[0],
                b_k: entries[1],
                t_k: entries[2],
                alphas: entries[3],
            };
            match layers {
                Err(failure) => Err(failure),
                Ok(layers) => if rest != Table::empty() {
                    Err(Failure::Unused(rest.dom()))
                } else {
                    match broken_rule(tensors, values) {
                        Some(failure) => Err(failure),
                        None => Ok((tensors, layers)),
                    }
                },
            }
        },
    }
}

/// Two neighbours in the noise schedule, and the diffusion steps they stand
/// for.
#[derive(Clone, Copy, Debug, PartialEq, Eq, Structural)]
pub struct Bracket {
    pub lower: i32,
    pub upper: i32,
    pub k_lower: i32,
    pub k_upper: i32,
}

/// How many values of a schedule are below a level.
pub open spec fn below(schedule: Seq<Single>, level: Single) -> nat
    decreases schedule.len(),
{
    if schedule.len() == 0 {
        0
    } else {
        below(schedule.drop_last(), level) + if schedule.last().less(level) {
            1nat
        } else {
            0
        }
    }
}

/// Whether a schedule goes up, and holds numbers only.
pub open spec fn ascending(schedule: Seq<Single>) -> bool {
    &&& forall|i: int| 0 <= i < schedule.len() ==> !(#[trigger] schedule[i]).is_nan()
    &&& forall|i: int, j: int|
        0 <= i < j < schedule.len() ==> (#[trigger] schedule[i]).less(#[trigger] schedule[j])
}

/// The neighbours in the schedule between which a level lies, or the outermost
/// two.
pub fn bracket(schedule: &Vec<Single>, level: Single) -> (result: Bracket)
    requires
        schedule@.len() == TIMESTEPS,
    ensures
        ({
            let count = below(schedule@, level);
            result.upper == if count < 1 {
                1
            } else if count > TIMESTEPS - 1 {
                TIMESTEPS - 1
            } else {
                count as int
            }
        }),
        result.lower == result.upper - 1,
        0 <= result.lower < result.upper < TIMESTEPS,
        result.k_lower == TIMESTEPS - 1 - result.lower,
        result.k_upper == TIMESTEPS - 1 - result.upper,
        result.k_lower == result.k_upper + 1,
{
    let mut count: i32 = 0;
    let mut index: usize = 0;
    assert(schedule@.take(0) =~= seq![]);
    while index < schedule.len()
        invariant
            index <= schedule@.len() == TIMESTEPS,
            0 <= count <= index,
            count == below(schedule@.take(index as int), level),
        decreases schedule@.len() - index,
    {
        assert(schedule@.take(index + 1).drop_last() =~= schedule@.take(index as int));
        if schedule[index].less_than(level) {
            count = count + 1;
        }
        index = index + 1;
    }
    assert(schedule@.take(TIMESTEPS as int) =~= schedule@);
    let upper: i32 = if count < 1 {
        1
    } else if count > TIMESTEPS - 1 {
        TIMESTEPS - 1
    } else {
        count
    };
    let lower: i32 = upper - 1;
    Bracket {
        lower,
        upper,
        k_lower: TIMESTEPS - 1 - lower,
        k_upper: TIMESTEPS - 1 - upper,
    }
}

/// In a schedule that goes up, the values below a level come first.
pub proof fn lemma_below_is_prefix(schedule: Seq<Single>, level: Single)
    requires
        ascending(schedule),
        !level.is_nan(),
    ensures
        below(schedule, level) <= schedule.len(),
        forall|i: int|
            0 <= i < schedule.len() ==> ((#[trigger] schedule[i]).less(level) <==> i < below(
                schedule,
                level,
            )),
    decreases schedule.len(),
{
    if schedule.len() > 0 {
        let rest = schedule.drop_last();
        assert(ascending(rest)) by {
            assert forall|i: int| 0 <= i < rest.len() implies !(#[trigger] rest[i]).is_nan() by {
                assert(!schedule[i].is_nan());
            }
            assert forall|i: int, j: int| 0 <= i < j < rest.len() implies (
            #[trigger] rest[i]).less(#[trigger] rest[j]) by {
                assert(schedule[i].less(schedule[j]));
            }
        }
        lemma_below_is_prefix(rest, level);
        let last = schedule.len() - 1;
        assert(schedule.last() == schedule[last]);
        assert forall|i: int| 0 <= i < schedule.len() implies ((
        #[trigger] schedule[i]).less(level) <==> i < below(schedule, level)) by {
            if i < last {
                assert(rest[i] == schedule[i]);
                assert(schedule[i].less(schedule[last]));
                if schedule[last].less(level) {
                    // Everything before the last is below too.
                    assert forall|k: int| 0 <= k < rest.len() implies (
                    #[trigger] rest[k]).less(level) by {
                        assert(schedule[k].less(schedule[last]));
                    }
                    if rest.len() > 0 {
                        assert(rest[rest.len() - 1].less(level));
                    }
                }
            } else {
                if rest.len() > 0 && schedule[last].less(level) {
                    assert(schedule[last - 1].less(schedule[last]));
                    assert(rest[last - 1].less(level));
                }
            }
        }
    }
}

/// A level within a schedule that goes up lies between the neighbours that are
/// found for it.
pub proof fn lemma_bracket_encloses(schedule: Seq<Single>, level: Single)
    requires
        schedule.len() == TIMESTEPS,
        ascending(schedule),
        schedule[0].less(level),
        !schedule[TIMESTEPS - 1].less(level),
        !level.is_nan(),
    ensures
        ({
            let upper = below(schedule, level) as int;
            &&& 1 <= upper <= TIMESTEPS - 1
            &&& schedule[upper - 1].less(level)
            &&& schedule[upper].at_least(level)
        }),
{
    lemma_below_is_prefix(schedule, level);
    let upper = below(schedule, level) as int;
    assert(schedule[0].less(level));
    assert(schedule[TIMESTEPS - 1].less(level) <==> TIMESTEPS - 1 < upper);
    assert(schedule[upper - 1].less(level));
    assert(!schedule[upper].less(level));
    assert(!schedule[upper].is_nan());
}

/// One run of the network on the way along the flow.
#[derive(Clone, Copy, Debug, PartialEq, Eq, Structural)]
pub struct Evaluation {
    /// The time at which it is run.
    pub time: i32,
    /// The time to which the state is then moved; nothing at the end, where
    /// the prediction is the result.
    pub next: Option<i32>,
    /// Whether the inside of the network is recorded.
    pub record_network: bool,
    /// Whether the values of this step are recorded.
    pub record_step: bool,
}

/// The run at a time.
pub open spec fn evaluation_at(time: int, steps: int, record: bool) -> Evaluation {
    Evaluation {
        time: time as i32,
        next: if time < steps {
            Some((time + 1) as i32)
        } else {
            None
        },
        record_network: record && time == 0,
        record_step: record && time < steps,
    }
}

/// How a spectrogram is refined.
#[derive(Debug)]
pub struct FlowPlan {
    /// The shape of the state.
    pub state: Vec<i32>,
    /// How many times there are: the steps and the end.
    pub time_count: i32,
    pub evaluations: Vec<Evaluation>,
}

/// How many steps of a run are recorded.
pub open spec fn recorded(evaluations: Seq<Evaluation>) -> int
    decreases evaluations.len(),
{
    if evaluations.len() == 0 {
        0
    } else {
        recorded(evaluations.drop_last()) + if evaluations.last().record_step {
            1int
        } else {
            0
        }
    }
}

/// The plan of evaluations for some steps.
pub open spec fn evaluations_for(steps: int, record: bool) -> Seq<Evaluation> {
    Seq::new((steps + 1) as nat, |time: int| evaluation_at(time, steps, record))
}

impl FlowPlan {
    /// Whether the plan is that for a spectrogram and some steps.
    pub open spec fn covers(self, mel: Seq<i32>, steps: int, record: bool) -> bool {
        &&& self.state@ == state_shape(mel)
        &&& self.time_count == steps + 1
        &&& self.evaluations@ == evaluations_for(steps, record)
    }
}

/// A record holds every step, and the inside of the network once; without a
/// record nothing is kept.
pub proof fn lemma_recorded(steps: int, record: bool)
    requires
        1 <= steps < i32::MAX,
    ensures
        recorded(evaluations_for(steps, record)) == if record {
            steps
        } else {
            0
        },
        forall|i: int|
            0 <= i <= steps ==> ((#[trigger] evaluations_for(steps, record)[i]).record_network
                <==> record && i == 0),
{
    let all = evaluations_for(steps, record);
    assert(all.take(all.len() as int) =~= all);
    lemma_recorded_prefix(steps, record, steps + 1);
}

proof fn lemma_recorded_prefix(steps: int, record: bool, count: int)
    requires
        0 <= count <= steps + 1,
        1 <= steps < i32::MAX,
    ensures
        recorded(evaluations_for(steps, record).take(count)) == if !record {
            0
        } else if count <= steps {
            count
        } else {
            steps
        },
    decreases count,
{
    let all = evaluations_for(steps, record);
    if count > 0 {
        assert(all.take(count).drop_last() =~= all.take(count - 1));
        lemma_recorded_prefix(steps, record, count - 1);
    }
}

impl FlowMatchingRefiner {
    /// Whether this is the refiner of a checkpoint.
    pub open spec fn loaded(self, table: Table, values: FlowValues) -> bool {
        &&& flow_checkpoint(table, values) matches Ok((tensors, layers))
        &&& self.model.holds(layers)
        &&& served(layers, unit2mel_requests())
        &&& self.model.schedule_length == leading_dimension(table, "decoder.betas"@)
        &&& self.t_k == tensors.t_k.slot
        &&& self.alphas_cumprod_ascending == tensors.alphas.slot
        &&& values.t_eps == Some(self.t_eps)
        &&& self.t_start == values.t_start
        &&& self.t_end == values.t_end
    }

    /// Whether every field holds what a table keeps under its name, and the
    /// scalars are such that a refinement can be run.
    pub open spec fn named(self, table: Table, values: FlowValues) -> bool {
        &&& self.model.named(table)
        &&& table.dom().contains("t_k"@)
        &&& self.t_k == table["t_k"@].slot
        &&& table.dom().contains("_flow.alphas_cumprod_ascending"@)
        &&& self.alphas_cumprod_ascending == table["_flow.alphas_cumprod_ascending"@].slot
        &&& table["_flow.alphas_cumprod_ascending"@].shape == seq![1000i32]
        &&& table.dom().contains("a_k"@)
        &&& table.dom().contains("b_k"@)
        &&& table.dom().contains("_flow.timesteps"@)
        &&& table.dom().contains("_flow.t_eps"@)
        &&& table.dom().contains("_flow.default_ode_steps"@)
        &&& values.t_k_matches == Some(true)
        &&& values.timesteps == Some(1000i32)
        &&& values.default_ode_steps matches Some(steps) && steps >= 1
        &&& values.t_eps == Some(self.t_eps)
        &&& (Single { bits: 0 }).less(self.t_eps)
        &&& self.t_eps.less(Single { bits: 0x3f80_0000 })
        &&& self.t_start == values.t_start
        &&& self.t_end == values.t_end
    }

    /// A checkpoint is accepted exactly where it has the flow's own tensors and
    /// those of all layers, no others, and breaks no rule.
    pub proof fn lemma_accepted(table: Table, values: FlowValues)
        ensures
            flow_checkpoint(table, values) is Ok <==> {
                let own = set![
                    "a_k"@,
                    "b_k"@,
                    "t_k"@,
                    "_flow.alphas_cumprod_ascending"@,
                    "_flow.timesteps"@,
                    "_flow.t_eps"@,
                    "_flow.default_ode_steps"@,
                ];
                let others = table.remove_keys(own);
                &&& own.subset_of(table.dom())
                &&& supplied_all(others, unit2mel_requests()).1 is Ok
                &&& forall|name: Seq<char>| #[trigger]
                    others.dom().contains(name) ==> of_layer(name, unit2mel_requests())
                &&& broken_rule(
                    FlowTensors {
                        a_k: table["a_k"@],
                        b_k: table["b_k"@],
                        t_k: table["t_k"@],
                        alphas: table["_flow.alphas_cumprod_ascending"@],
                    },
                    values,
                ) is None
            },
    {
        let own = set![
            "a_k"@,
            "b_k"@,
            "t_k"@,
            "_flow.alphas_cumprod_ascending"@,
            "_flow.timesteps"@,
            "_flow.t_eps"@,
            "_flow.default_ode_steps"@,
        ];
        let others = table.remove_keys(own);
        let requests = unit2mel_requests();
        lemma_taken_steps(table);
        lemma_own_names();
        assert(own.contains("a_k"@) && own.contains("b_k"@) && own.contains("t_k"@));
        assert(own.contains("_flow.alphas_cumprod_ascending"@));
        assert(own.contains("_flow.timesteps"@) && own.contains("_flow.t_eps"@));
        assert(own.contains("_flow.default_ode_steps"@));
        if own.subset_of(table.dom()) {
            assert(taken_all(table, flow_names()).0 =~= others);
        }
        let (rest, layers) = supplied_all(others, requests);
        lemma_all_supplied(others, requests);
        if layers is Ok {
            if rest == Table::empty() {
                assert forall|name: Seq<char>| #[trigger] others.dom().contains(name) implies
                    of_layer(name, requests) by {
                    assert(!rest.dom().contains(name));
                }
            } else {
                if forall|name: Seq<char>| !rest.dom().contains(name) {
                    assert(rest =~= Table::empty());
                }
                let name = choose|name: Seq<char>| rest.dom().contains(name);
                assert(others.dom().contains(name));
            }
        }
    }

    /// Every tensor of the checkpoint goes to the field that it is named for.
    pub proof fn lemma_tensors(self, table: Table, values: FlowValues)
        requires
            self.loaded(table, values),
        ensures
            self.named(table, values),
    {
        lemma_taken_steps(table);
        let layers = (flow_checkpoint(table, values)->Ok_0).1;
        self.model.lemma_tensors(taken_all(table, flow_names()).0, layers);
    }

    /// Makes the refiner of a checkpoint, with the values of its scalars.
    pub fn load(weights: Weights, values: FlowValues) -> (result: Result<
        FlowMatchingRefiner,
        WeightsError,
    >)
        requires
            weights.valid(),
        ensures
            match result {
                Ok(refiner) => refiner.loaded(weights@, values) && refiner.named(weights@, values),
                Err(error) => flow_checkpoint(weights@, values) == Err::<
                    (FlowTensors, Seq<Layer>),
                    Failure,
                >(error@),
            },
    {
        let mut weights = weights;
        let ghost start = weights@;
        proof {
            lemma_taken_steps(start);
        }
        let a_k = match weights.take("a_k") {
            Ok(tensor) => tensor,
            Err(error) => return Err(error),
        };
        let b_k = match weights.take("b_k") {
            Ok(tensor) => tensor,
            Err(error) => return Err(error),
        };
        let t_k = match weights.take("t_k") {
            Ok(tensor) => tensor,
            Err(error) => return Err(error),
        };
        let alphas = match weights.take("_flow.alphas_cumprod_ascending") {
            Ok(tensor) => tensor,
            Err(error) => return Err(error),
        };
        match weights.take("_flow.timesteps") {
            Ok(_) => {},
            Err(error) => return Err(error),
        }
        match weights.take("_flow.t_eps") {
            Ok(_) => {},
            Err(error) => return Err(error),
        }
        match weights.take("_flow.default_ode_steps") {
            Ok(_) => {},
            Err(error) => return Err(error),
        }
        proof {
            lemma_betas_stay(start);
        }
        let model = match Unit2Mel::load(&mut weights) {
            Ok(model) => model,
            Err(error) => return Err(error),
        };
        match weights.finish() {
            Ok(_) => {},
            Err(error) => return Err(error),
        }
        match Self::check(&a_k, &b_k, &t_k, alphas, values) {
            Err(error) => Err(error),
            Ok((alphas_slot, t_eps)) => Ok(
                FlowMatchingRefiner {
                    model,
                    t_k: t_k.slot,
                    t_eps,
                    t_start: values.t_start,
                    t_end: values.t_end,
                    alphas_cumprod_ascending: alphas_slot,
                },
            ),
        }
    }

    /// Checks the values of a checkpoint.
    fn check(
        a_k: &Tensor,
        b_k: &Tensor,
        t_k: &Tensor,
        alphas: Tensor,
        values: FlowValues,
    ) -> (result: Result<(usize, Single), WeightsError>)
        ensures
            ({
                let broken = broken_rule(
                    FlowTensors { a_k: a_k@, b_k: b_k@, t_k: t_k@, alphas: alphas@ },
                    values,
                );
                match result {
                    Ok((slot, t_eps)) => broken is None && slot == alphas.slot && values.t_eps
                        == Some(t_eps),
                    Err(error) => broken == Some(error@),
                }
            }),
    {
        if !is_scalar(&a_k.shape) {
            return Err(WeightsError::Rule { message: "a_k must be scalar" });
        }
        if !is_scalar(&b_k.shape) {
            return Err(WeightsError::Rule { message: "b_k must be scalar" });
        }
        if !is_scalar(&t_k.shape) {
            return Err(WeightsError::Rule { message: "t_k must be scalar" });
        }
        match values.t_k_matches {
            Some(true) => {},
            _ => {
                return Err(WeightsError::Rule { message: "t_k does not match a_k / (a_k + b_k)" });
            },
        }
        if !(alphas.shape.len() == 1 && alphas.shape[0] == TIMESTEPS) {
            assert(alphas.shape@ != seq![TIMESTEPS]) by {
                if alphas.shape@ == seq![TIMESTEPS] {
                    assert(alphas.shape@.len() == 1 && alphas.shape@[0] == TIMESTEPS);
                }
            }
            return Err(
                WeightsError::Shape {
                    what: "ascending alpha schedule".to_owned(),
                    shape: alphas.shape,
                },
            );
        }
        assert(alphas.shape@ =~= seq![TIMESTEPS]);
        match values.timesteps {
            Some(TIMESTEPS) => {},
            _ => {
                return Err(
                    WeightsError::Rule {
                        message: "Flow Matching checkpoint timesteps do not match the model",
                    },
                );
            },
        }
        match values.default_ode_steps {
            Some(steps) if steps >= 1 => {},
            _ => {
                return Err(
                    WeightsError::Rule {
                        message: "Flow Matching default ODE step count must be positive",
                    },
                );
            },
        }
        match values.t_eps {
            Some(t_eps) if (Single { bits: 0 }).less_than(t_eps) && t_eps.less_than(
                Single { bits: crate::single::ONE },
            ) => Ok((alphas.slot, t_eps)),
            _ => Err(
                WeightsError::Rule { message: "Flow Matching t_eps must be between zero and one" },
            ),
        }
    }

    /// What comes of a request for a refinement.
    pub open spec fn planned(
        &self,
        gan_mel: Seq<i32>,
        noise: Seq<i32>,
        n_steps: i32,
        capture_trace: bool,
        result: Result<FlowPlan, RefineError>,
    ) -> bool {
        match result {
            Ok(plan) => {
                &&& n_steps >= 1
                &&& noise == state_shape(gan_mel)
                &&& self.t_start.less(self.t_end)
                &&& plan.covers(gan_mel, n_steps as int, capture_trace)
            },
            Err(RefineError::FlowSteps) => n_steps < 1,
            Err(RefineError::NoiseShape { noise: given, mel }) => {
                &&& n_steps >= 1
                &&& given@ == noise
                &&& mel@ == state_shape(gan_mel)
                &&& given@ != mel@
            },
            Err(error) => {
                &&& error == RefineError::EndTime
                &&& n_steps >= 1
                &&& noise == state_shape(gan_mel)
                &&& !self.t_start.less(self.t_end)
            },
        }
    }

    /// Plans a refinement in `n_steps` steps from noise of a given shape.
    pub fn run_with_noise(
        &self,
        gan_mel: &[i32],
        noise: &Vec<i32>,
        n_steps: i32,
        capture_trace: bool,
    ) -> (result: Result<FlowPlan, RefineError>)
        requires
            n_steps >= 1 ==> gan_mel@.len() == 3,
            n_steps < i32::MAX,
        ensures
            self.planned(gan_mel@, noise@, n_steps, capture_trace, result),
    {
        if n_steps < 1 {
            return Err(RefineError::FlowSteps);
        }
        let state = Self::noise_shape(gan_mel);
        let mut same = noise.len() == 4;
        if same {
            same = noise[0] == state[0] && noise[1] == state[1] && noise[2] == state[2]
                && noise[3] == state[3];
            assert(same ==> noise@ =~= state@);
        }
        if !same {
            return Err(
                RefineError::NoiseShape {
                    noise: vstd::slice::slice_to_vec(noise.as_slice()),
                    mel: state,
                },
            );
        }
        if !self.t_start.less_than(self.t_end) {
            return Err(RefineError::EndTime);
        }
        let ghost expected = evaluations_for(n_steps as int, capture_trace);
        let mut evaluations: Vec<Evaluation> = Vec::new();
        let mut step: i32 = 0;
        assert(evaluations@ =~= expected.take(0));
        while step < n_steps
            invariant
                0 <= step <= n_steps < i32::MAX,
                expected == evaluations_for(n_steps as int, capture_trace),
                evaluations@ == expected.take(step as int),
            decreases n_steps - step,
        {
            evaluations.push(
                Evaluation {
                    time: step,
                    next: Some(step + 1),
                    record_network: capture_trace && step == 0,
                    record_step: capture_trace,
                },
            );
            step = step + 1;
            assert(evaluations@ =~= expected.take(step as int));
        }
        evaluations.push(
            Evaluation { time: n_steps, next: None, record_network: false, record_step: false },
        );
        assert(evaluations@ =~= expected);
        Ok(FlowPlan { state, time_count: n_steps + 1, evaluations })
    }

    /// Plans a refinement from given noise.
    pub fn refine_with_noise(&self, gan_mel: &[i32], noise: &Vec<i32>, n_steps: i32) -> (result:
        Result<FlowPlan, RefineError>)
        requires
            n_steps >= 1 ==> gan_mel@.len() == 3,
            n_steps < i32::MAX,
        ensures
            self.planned(gan_mel@, noise@, n_steps, false, result),
    {
        self.run_with_noise(gan_mel, noise, n_steps, false)
    }

    /// Plans a refinement from given noise that is recorded.
    pub fn trace_with_noise(&self, gan_mel: &[i32], noise: &Vec<i32>, n_steps: i32) -> (result:
        Result<FlowPlan, RefineError>)
        requires
            n_steps >= 1 ==> gan_mel@.len() == 3,
            n_steps < i32::MAX,
        ensures
            self.planned(gan_mel@, noise@, n_steps, true, result),
    {
        self.run_with_noise(gan_mel, noise, n_steps, true)
    }

    /// The shape of the noise that goes with a spectrogram.
    pub fn noise_shape(gan_mel: &[i32]) -> (shape: Vec<i32>)
        requires
            gan_mel@.len() == 3,
        ensures
            shape@ == state_shape(gan_mel@),
    {
        shape_of_state(gan_mel)
    }

    /// Plans a refinement with noise of the shape that fits.
    pub fn refine(&self, gan_mel: &[i32], n_steps: i32) -> (result: Result<FlowPlan, RefineError>)
        requires
            gan_mel@.len() == 3,
            n_steps < i32::MAX,
        ensures
            match result {
                Ok(plan) => {
                    &&& n_steps >= 1
                    &&& self.t_start.less(self.t_end)
                    &&& plan.covers(gan_mel@, n_steps as int, false)
                },
                Err(RefineError::FlowSteps) => n_steps < 1,
                Err(error) => n_steps >= 1 && !self.t_start.less(self.t_end) && error
                    == RefineError::EndTime,
            },
    {
        let noise = Self::noise_shape(gan_mel);
        self.refine_with_noise(gan_mel, &noise, n_steps)
    }
}

/// A refinement comes about exactly where there is a step, the noise has the
/// spectrogram's sizes, bins before frames, and the flow does not end before it
/// starts. It goes through all times in turn, and only a record keeps anything.
pub proof fn lemma_planned(
    refiner: FlowMatchingRefiner,
    gan_mel: Seq<i32>,
    noise: Seq<i32>,
    n_steps: i32,
    capture_trace: bool,
    result: Result<FlowPlan, RefineError>,
)
    requires
        refiner.planned(gan_mel, noise, n_steps, capture_trace, result),
        gan_mel.len() == 3,
        n_steps < i32::MAX,
    ensures
        ({
            let fits = noise.len() == 4 && noise[0] == gan_mel[0] && noise[1] == 1 && noise[2]
                == gan_mel[2] && noise[3] == gan_mel[1];
            &&& result is Ok <==> n_steps >= 1 && fits && refiner.t_start.less(refiner.t_end)
            &&& result == Err::<FlowPlan, RefineError>(RefineError::FlowSteps) <==> n_steps <= 0
            &&& result matches Err(RefineError::NoiseShape { .. }) ==> n_steps >= 1 && !fits
            &&& result == Err::<FlowPlan, RefineError>(RefineError::EndTime) <==> n_steps >= 1
                && fits && !refiner.t_start.less(refiner.t_end)
            &&& result matches Ok(plan) ==> {
                &&& plan.state@ == noise
                &&& plan.time_count == n_steps + 1
                &&& plan.evaluations@.len() == n_steps + 1
                &&& forall|i: int|
                    0 <= i <= n_steps ==> {
                        &&& (#[trigger] plan.evaluations@[i]).time == i
                        &&& plan.evaluations@[i].next == if i == n_steps {
                            None
                        } else {
                            Some((i + 1) as i32)
                        }
                        &&& plan.evaluations@[i].record_step <==> capture_trace && i != n_steps
                        &&& plan.evaluations@[i].record_network <==> capture_trace && i == 0
                    }
            }
        }),
{
    let state = seq![gan_mel[0], 1i32, gan_mel[2], gan_mel[1]];
    if noise.len() == 4 && noise[0] == gan_mel[0] && noise[1] == 1 && noise[2] == gan_mel[2]
        && noise[3] == gan_mel[1] {
        assert(noise =~= state);
    }
}

/// A record changes nothing of the work: a refinement that is recorded comes
/// about where the one without a record does, fails as it does, and takes the
/// same steps. Only with a record is anything kept.
pub proof fn lemma_record_changes_nothing(
    refiner: FlowMatchingRefiner,
    gan_mel: Seq<i32>,
    noise: Seq<i32>,
    n_steps: i32,
    plain: Result<FlowPlan, RefineError>,
    traced: Result<FlowPlan, RefineError>,
)
    requires
        n_steps < i32::MAX,
        refiner.planned(gan_mel, noise, n_steps, false, plain),
        refiner.planned(gan_mel, noise, n_steps, true, traced),
    ensures
        plain is Ok <==> n_steps >= 1 && noise == state_shape(gan_mel) && refiner.t_start.less(
            refiner.t_end,
        ),
        plain is Ok <==> traced is Ok,
        plain is Err ==> (plain->Err_0).text() == (traced->Err_0).text(),
        plain is Ok ==> {
            let left = plain->Ok_0;
            let right = traced->Ok_0;
            &&& left.state@ == right.state@
            &&& left.time_count == right.time_count
            &&& left.evaluations@.len() == right.evaluations@.len()
            &&& forall|i: int|
                0 <= i < left.evaluations@.len() ==> {
                    &&& (#[trigger] left.evaluations@[i]).time == right.evaluations@[i].time
                    &&& left.evaluations@[i].next == right.evaluations@[i].next
                    &&& !left.evaluations@[i].record_network
                    &&& !left.evaluations@[i].record_step
                    &&& right.evaluations@[i].record_network <==> i == 0
                    &&& right.evaluations@[i].record_step <==> i < n_steps
                }
        },
{
}

/// The seven steps of [`taken_all`] on the flow's tensors.
proof fn lemma_taken_steps(table: Table)
    ensures
        ({
            let (t1, a) = taken(table, "a_k"@);
            let (t2, b) = taken(t1, "b_k"@);
            let (t3, t) = taken(t2, "t_k"@);
            let (t4, alphas) = taken(t3, "_flow.alphas_cumprod_ascending"@);
            let (t5, timesteps) = taken(t4, "_flow.timesteps"@);
            let (t6, eps) = taken(t5, "_flow.t_eps"@);
            let (t7, ode) = taken(t6, "_flow.default_ode_steps"@);
            let result = taken_all(table, flow_names());
            if a is Err {
                result == (t1, Err::<Seq<Entry>, Failure>(a->Err_0))
            } else if b is Err {
                result == (t2, Err::<Seq<Entry>, Failure>(b->Err_0))
            } else if t is Err {
                result == (t3, Err::<Seq<Entry>, Failure>(t->Err_0))
            } else if alphas is Err {
                result == (t4, Err::<Seq<Entry>, Failure>(alphas->Err_0))
            } else if timesteps is Err {
                result == (t5, Err::<Seq<Entry>, Failure>(timesteps->Err_0))
            } else if eps is Err {
                result == (t6, Err::<Seq<Entry>, Failure>(eps->Err_0))
            } else if ode is Err {
                result == (t7, Err::<Seq<Entry>, Failure>(ode->Err_0))
            } else {
                &&& result.0 == t7
                &&& result.1 matches Ok(entries) && entries.len() == 7 && entries[0] == a->Ok_0
                    && entries[1] == b->Ok_0 && entries[2] == t->Ok_0 && entries[3]
                    == alphas->Ok_0
            }
        }),
{
    let names = flow_names();
    let n6 = names.drop_last();
    let n5 = n6.drop_last();
    let n4 = n5.drop_last();
    let n3 = n4.drop_last();
    let n2 = n3.drop_last();
    let n1 = n2.drop_last();
    assert(n1.drop_last() =~= seq![]);
    assert(names.last() == "_flow.default_ode_steps"@);
    assert(n6.last() == "_flow.t_eps"@);
    assert(n5.last() == "_flow.timesteps"@);
    assert(n4.last() == "_flow.alphas_cumprod_ascending"@);
    assert(n3.last() == "t_k"@);
    assert(n2.last() == "b_k"@);
    assert(n1.last() == "a_k"@);
    reveal_with_fuel(taken_all, 8);
}

/// The names of the flow's tensors are different.
proof fn lemma_own_names()
    ensures
        "a_k"@ != "b_k"@ && "a_k"@ != "t_k"@ && "b_k"@ != "t_k"@,
        "a_k"@.len() == 3 && "b_k"@.len() == 3 && "t_k"@.len() == 3,
        "_flow.alphas_cumprod_ascending"@.len() == 30,
        "_flow.timesteps"@.len() == 15,
        "_flow.t_eps"@.len() == 11,
        "_flow.default_ode_steps"@.len() == 23,
{
    reveal_strlit("a_k");
    reveal_strlit("b_k");
    reveal_strlit("t_k");
    reveal_strlit("_flow.alphas_cumprod_ascending");
    reveal_strlit("_flow.timesteps");
    reveal_strlit("_flow.t_eps");
    reveal_strlit("_flow.default_ode_steps");
    assert("a_k"@[0] == 'a' && "b_k"@[0] == 'b' && "t_k"@[0] == 't');
}

/// Taking the flow's tensors leaves the noise schedule of the model.
proof fn lemma_betas_stay(table: Table)
    ensures
        leading_dimension(taken_all(table, flow_names()).0, "decoder.betas"@)
            == leading_dimension(table, "decoder.betas"@),
{
    lemma_taken_steps(table);
    reveal_strlit("decoder.betas");
    reveal_strlit("a_k");
    reveal_strlit("b_k");
    reveal_strlit("t_k");
    reveal_strlit("_flow.alphas_cumprod_ascending");
    reveal_strlit("_flow.timesteps");
    reveal_strlit("_flow.t_eps");
    reveal_strlit("_flow.default_ode_steps");
    assert("decoder.betas"@[0] == 'd');
    assert("a_k"@[0] == 'a' && "b_k"@[0] == 'b' && "t_k"@[0] == 't');
    assert("_flow.alphas_cumprod_ascending"@[0] == '_');
    assert("_flow.timesteps"@[0] == '_' && "_flow.t_eps"@[0] == '_');
    assert("_flow.default_ode_steps"@[0] == '_');
}

} // verus!
