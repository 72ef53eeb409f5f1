//! Refinement by shallow diffusion.

use crate::refine::model::{
    leading_dimension, shape_of_state, state_shape, unit2mel_requests, updates_for, SolverPlan,
    Unit2Mel,
};
use crate::refine::RefineError;
use crate::weights::{
    lemma_all_supplied, of_layer, served, supplied_all, Failure, Layer, Table, Weights,
    WeightsError,
};
use vstd::prelude::*;

verus! {

/// Refines a spectrogram by adding some noise and taking it away again.
#[derive(Debug)]
pub struct ShallowDiffusionRefiner {
    pub model: Unit2Mel,
}

/// What a checkpoint of the refiner gives.
pub open spec fn shallow_checkpoint(table: Table) -> Result<Seq<Layer>, Failure> {
    let (rest, layers) = supplied_all(table, unit2mel_requests());
    match layers {
        Err(failure) => Err(failure),
        Ok(layers) => if rest != Table::empty() {
            Err(Failure::Unused(rest.dom()))
        } else {
            Ok(layers)
        },
    }
}

/// How a spectrogram is refined.
#[derive(Debug)]
pub struct ShallowPlan {
    /// The step of the schedule whose noise is added.
    pub timestep: i32,
    pub solver: SolverPlan,
}

impl ShallowPlan {
    /// Whether the plan is that for some steps of the schedule, so many of them
    /// at a time.
    pub open spec fn covers(self, k_step: int, infer_speedup: int) -> bool {
        &&& self.timestep == k_step - 1
        &&& self.solver.k_step == k_step
        &&& self.solver.steps == k_step / infer_speedup
        &&& self.solver.updates@ == updates_for(k_step / infer_speedup)
    }
}

impl ShallowDiffusionRefiner {
    /// Whether this is the refiner of a checkpoint.
    pub open spec fn loaded(self, table: Table) -> bool {
        &&& shallow_checkpoint(table) matches Ok(layers)
        &&& self.model.holds(layers)
        &&& served(layers, unit2mel_requests())
        &&& self.model.schedule_length == leading_dimension(table, "decoder.betas"@)
    }

    /// A checkpoint is accepted exactly where it has the tensors of all layers, and
    /// no others.
    pub proof fn lemma_accepted(table: Table)
        ensures
            shallow_checkpoint(table) is Ok <==> supplied_all(table, unit2mel_requests()).1 is Ok
                && forall|name: Seq<char>| #[trigger]
                table.dom().contains(name) ==> of_layer(name, unit2mel_requests()),
    {
        let requests = unit2mel_requests();
        let (rest, layers) = supplied_all(table, requests);
        lemma_all_supplied(table, requests);
        if layers is Ok {
            if rest == Table::empty() {
                assert forall|name: Seq<char>| #[trigger] table.dom().contains(name) implies
                    of_layer(name, requests) by {
                    assert(!rest.dom().contains(name));
                }
            } else {
                if forall|name: Seq<char>| !rest.dom().contains(name) {
                    assert(rest =~= Table::empty());
                }
                let name = choose|name: Seq<char>| rest.dom().contains(name);
                assert(table.dom().contains(name));
            }
        }
    }

    /// Every tensor of the checkpoint goes to the layer that it is named for.
    pub proof fn lemma_tensors(self, table: Table)
        requires
            self.loaded(table),
        ensures
            self.model.named(table),
            self.model.schedule_length is Some ==> table.dom().contains("decoder.betas"@)
                && table["decoder.betas"@].shape[0] == self.model.schedule_length->0,
    {
        self.model.lemma_tensors(table, shallow_checkpoint(table)->Ok_0);
    }

    /// Makes the refiner of a checkpoint.
    pub fn load(weights: Weights) -> (result: Result<ShallowDiffusionRefiner, WeightsError>)
        requires
            weights.valid(),
        ensures
            match result {
                Ok(refiner) => refiner.loaded(weights@) && refiner.model.named(weights@),
                Err(error) => shallow_checkpoint(weights@) == Err::<Seq<Layer>, Failure>(error@),
            },
    {
        let mut weights = weights;
        let model = match Unit2Mel::load(&mut weights) {
            Ok(model) => model,
            Err(error) => return Err(error),
        };
        match weights.finish() {
            Ok(_) => Ok(ShallowDiffusionRefiner { model }),
            Err(error) => Err(error),
        }
    }

    /// The shape of the noise that goes with a spectrogram.
    pub fn noise_shape(initial_mel: &[i32]) -> (shape: Vec<i32>)
        requires
            initial_mel@.len() == 3,
        ensures
            shape@ == state_shape(initial_mel@),
    {
        shape_of_state(initial_mel)
    }

    /// Plans a refinement over `k_step` steps of the schedule.
    pub fn refine(&self, k_step: i32, infer_speedup: i32) -> (result: Result<
        ShallowPlan,
        RefineError,
    >)
        requires
            k_step >= 2 && infer_speedup > 0 ==> self.model.schedule_length is Some,
        ensures
            ({
                let length = self.model.schedule_length->0;
                match result {
                    Ok(plan) => {
                        &&& 2 <= k_step <= length
                        &&& infer_speedup > 0
                        &&& k_step as int / infer_speedup as int >= 2
                        &&& plan.covers(k_step as int, infer_speedup as int)
                        &&& plan.timestep + 1 == k_step
                        &&& plan.solver.k_step == k_step
                        &&& plan.solver.steps * infer_speedup <= k_step < (plan.solver.steps + 1)
                            * infer_speedup
                    },
                    Err(RefineError::DiffusionSteps) => k_step < 2,
                    Err(RefineError::DiffusionSpeedup) => k_step >= 2 && infer_speedup <= 0,
                    Err(RefineError::ScheduleLength { k_step: given, length: available }) => {
                        &&& k_step >= 2
                        &&& infer_speedup > 0
                        &&& k_step > length
                        &&& given == k_step
                        &&& available == length
                    },
                    Err(error) => {
                        &&& error == RefineError::SolverSteps
                        &&& 2 <= k_step <= length
                        &&& infer_speedup > 0
                        &&& (k_step as int / infer_speedup as int) < 2
                    },
                }
            }),
    {
        if k_step < 2 {
            return Err(RefineError::DiffusionSteps);
        }
        if infer_speedup <= 0 {
            return Err(RefineError::DiffusionSpeedup);
        }
        match self.model.sample_dpm_solver_pp(k_step, infer_speedup) {
            Ok(solver) => Ok(ShallowPlan { timestep: k_step - 1, solver }),
            Err(error) => Err(error),
        }
    }
}

} // verus!
