//! The course of the posterior chain of a Geweke test.
//!
//! The chain alternates between drawing the data anew and running the
//! transitions, `lag` of them after every draw of the data. What it then
//! holds is a sample, which is recorded unless it belongs to the burn-in.
//! The plan says what comes next; drawing, running and recording are left
//! to the caller.

use vstd::prelude::*;

verus! {

/// How long a posterior chain runs.
#[derive(Debug, Clone, Copy, PartialEq, Eq, Structural)]
pub struct GewekePlan {
    /// The number of samples to record.
    pub n_samples: u32,
    /// The number of transitions between two draws of the data.
    pub lag: u32,
    /// The number of samples to discard before the first one is recorded.
    pub burn_in: u32,
}

/// A place in a posterior chain.
#[derive(Debug, Clone, Copy, PartialEq, Eq, Structural)]
pub struct GewekeCursor {
    /// The number of samples that are done, discarded ones included.
    pub sample: u64,
    /// Whether the data of the sample under way have been drawn.
    pub drawn: bool,
    /// The number of transitions that have run since the data were drawn.
    pub step: u32,
}

/// What a posterior chain does next.
#[derive(Debug, Clone, Copy, PartialEq, Eq, Structural)]
pub enum GewekeAction {
    /// Draw the data anew, given the partition and the parameters.
    Resample,
    /// Run the transitions once.
    Transition,
    /// Record the sample.
    Record,
    /// Drop the sample: it belongs to the burn-in.
    Discard,
}

/// What the chain does at `at` and the place after it, or `None` where all
/// samples are done.
pub open spec fn action_of(plan: GewekePlan, at: GewekeCursor) -> Option<
    (GewekeAction, GewekeCursor),
> {
    if at.sample - plan.burn_in >= plan.n_samples {
        None
    } else if !at.drawn {
        Some((GewekeAction::Resample, GewekeCursor { sample: at.sample, drawn: true, step: 0 }))
    } else if at.step < plan.lag {
        Some(
            (
                GewekeAction::Transition,
                GewekeCursor { sample: at.sample, drawn: true, step: (at.step + 1) as u32 },
            ),
        )
    } else {
        Some(
            (
                if at.sample < plan.burn_in {
                    GewekeAction::Discard
                } else {
                    GewekeAction::Record
                },
                GewekeCursor { sample: (at.sample + 1) as u64, drawn: false, step: 0 },
            ),
        )
    }
}

impl GewekePlan {
    /// The place at which a chain begins.
    pub fn start(&self) -> (at: GewekeCursor)
        ensures
            at == (GewekeCursor { sample: 0, drawn: false, step: 0 }),
    {
        GewekeCursor { sample: 0, drawn: false, step: 0 }
    }

    /// What the chain does at `at` and the place after it, or `None`
    /// where all samples are done.
    pub fn next_action(&self, at: GewekeCursor) -> (next: Option<(GewekeAction, GewekeCursor)>)
        ensures
            next == action_of(*self, at),
    {
        let burn_in: u64 = self.burn_in as u64;
        if at.sample >= burn_in && at.sample - burn_in >= self.n_samples as u64 {
            return None;
        }
        if !at.drawn {
            return Some(
                (GewekeAction::Resample, GewekeCursor { sample: at.sample, drawn: true, step: 0 }),
            );
        }
        if at.step < self.lag {
            return Some(
                (
                    GewekeAction::Transition,
                    GewekeCursor { sample: at.sample, drawn: true, step: at.step + 1 },
                ),
            );
        }
        let action = if at.sample < burn_in {
            GewekeAction::Discard
        } else {
            GewekeAction::Record
        };
        Some((action, GewekeCursor { sample: at.sample + 1, drawn: false, step: 0 }))
    }
}

/// A sample is recorded only after the burn-in, only when its data were
/// drawn anew, and only when all transitions of the lag have run since.
pub proof fn lemma_record_after_lag(plan: GewekePlan, at: GewekeCursor)
    requires
        action_of(plan, at) matches Some(next) && next.0 is Record,
    ensures
        at.sample >= plan.burn_in,
        at.sample < plan.burn_in + plan.n_samples,
        at.drawn,
        at.step >= plan.lag,
{
}

} // verus!
