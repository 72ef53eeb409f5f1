//! Refiners of the generated spectrogram.

pub mod flow_matching;
pub mod model;
pub mod shallow_diffusion;

use crate::names;
use vstd::prelude::*;
use vstd::string::*;

verus! {

/// What is wrong with a request for a refinement.
#[derive(Debug)]
pub enum RefineError {
    DiffusionSteps,
    DiffusionSpeedup,
    KStep,
    /// The checkpoint has no noise schedule of that length.
    ScheduleLength { k_step: i32, length: i32 },
    InferSpeedup,
    SolverSteps,
    FlowSteps,
    NoiseShape { noise: Vec<i32>, mel: Vec<i32> },
    EndTime,
}

/// The message on a schedule that is too short first shows what was asked for, and
/// in the end what there is.
pub proof fn lemma_schedule_text(k_step: i32, length: i32)
    ensures
        ({
            let text = (RefineError::ScheduleLength { k_step, length }).text();
            let asked = "k_step "@ + names::signed_decimal(k_step as int);
            let available = names::signed_decimal(length as int);
            &&& asked.len() <= text.len() && text.take(asked.len() as int) == asked
            &&& available.len() <= text.len() && text.skip(text.len() - available.len())
                == available
        }),
{
    let text = (RefineError::ScheduleLength { k_step, length }).text();
    let asked = "k_step "@ + names::signed_decimal(k_step as int);
    let available = names::signed_decimal(length as int);
    assert(text.take(asked.len() as int) =~= asked);
    assert(text.skip(text.len() - available.len()) =~= available);
}

impl RefineError {
    pub open spec fn text(self) -> Seq<char> {
        match self {
            RefineError::DiffusionSteps => "diffusion step count must be at least 2"@,
            RefineError::DiffusionSpeedup => "diffusion speedup must be positive"@,
            RefineError::KStep => "k_step must be at least 2"@,
            RefineError::ScheduleLength { k_step, length } => "k_step "@ + names::signed_decimal(
                k_step as int,
            ) + " exceeds diffusion schedule length "@ + names::signed_decimal(length as int),
            RefineError::InferSpeedup => "infer_speedup must be positive"@,
            RefineError::SolverSteps => "DPM-Solver++ order 2 needs at least 2 steps"@,
            RefineError::FlowSteps => "flow matching step count must be positive"@,
            RefineError::NoiseShape { noise, mel } => "flow matching noise shape "@
                + names::bracketed(noise@) + " does not match normalized mel "@ + names::bracketed(
                mel@,
            ),
            RefineError::EndTime => "Flow Matching end time must be greater than t_k"@,
        }
    }

    /// The message for the user.
    pub fn message(&self) -> (result: String)
        ensures
            result@ == self.text(),
    {
        match self {
            RefineError::DiffusionSteps => "diffusion step count must be at least 2".to_owned(),
            RefineError::DiffusionSpeedup => "diffusion speedup must be positive".to_owned(),
            RefineError::KStep => "k_step must be at least 2".to_owned(),
            RefineError::ScheduleLength { k_step, length } => {
                let mut result = "k_step ".to_owned();
                names::append_signed(&mut result, *k_step);
                result.append(" exceeds diffusion schedule length ");
                names::append_signed(&mut result, *length);
                result
            },
            RefineError::InferSpeedup => "infer_speedup must be positive".to_owned(),
            RefineError::SolverSteps => "DPM-Solver++ order 2 needs at least 2 steps".to_owned(),
            RefineError::FlowSteps => "flow matching step count must be positive".to_owned(),
            RefineError::NoiseShape { noise, mel } => {
                let mut result = "flow matching noise shape ".to_owned();
                names::append_list(&mut result, noise);
                result.append(" does not match normalized mel ");
                names::append_list(&mut result, mel);
                result
            },
            RefineError::EndTime => "Flow Matching end time must be greater than t_k".to_owned(),
        }
    }
}

} // verus!
