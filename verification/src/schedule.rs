//! The order in which the transitions of an update are run.
//!
//! An update runs a list of transitions, in order, once per iteration. The
//! schedule says which transition comes next; running it is left to the
//! caller. A request to stop is honoured between iterations only, so that
//! no sweep is left half done.

use vstd::prelude::*;

verus! {

/// The algorithm by which items are reassigned.
#[derive(Debug, Clone, Copy, PartialEq, Eq, Structural)]
pub enum AssignAlg {
    /// Enumerates the categories and draws one.
    Gibbs,
    /// Draws a slice variable and enumerates the categories above it.
    Slice,
}

/// A kind of transition of a state.
#[derive(Debug, Clone, Copy, PartialEq, Eq, Structural)]
pub enum StateTransition {
    /// Reassigns the columns to views.
    ColumnAssignment(AssignAlg),
    /// Reassigns the rows to categories, in every view.
    RowAssignment(AssignAlg),
    /// Draws the parameters of the prior processes anew.
    PriorProcessParams,
    /// Draws the hyperparameters of the columns anew.
    ComponentHyperparameters,
}

/// A place in an update: the iteration, and the transition within it.
#[derive(Debug, Clone, Copy, PartialEq, Eq, Structural)]
pub struct Cursor {
    /// The number of iterations that are done.
    pub iter: usize,
    /// The number of transitions of this iteration that are done.
    pub step: usize,
}

/// What to run in an update.
#[derive(Debug, PartialEq, Eq)]
pub struct UpdateConfig {
    /// The number of iterations.
    pub n_iters: usize,
    /// The transitions of one iteration, in order.
    pub transitions: Vec<StateTransition>,
    /// After how many iterations a checkpoint is due each time; zero for
    /// never.
    pub checkpoint: usize,
}

/// The transition to run at `at` and the place after it, or `None` where
/// the update is over: all iterations are done, there is nothing to run,
/// or a stop was asked for and no iteration is under way.
pub open spec fn step_of(
    n_iters: usize,
    transitions: Seq<StateTransition>,
    at: Cursor,
    cancelled: bool,
) -> Option<(StateTransition, Cursor)> {
    if at.iter >= n_iters || at.step >= transitions.len() || (cancelled && at.step == 0) {
        None
    } else if at.step + 1 == transitions.len() {
        Some((transitions[at.step as int], Cursor { iter: (at.iter + 1) as usize, step: 0 }))
    } else {
        Some(
            (transitions[at.step as int], Cursor { iter: at.iter, step: (at.step + 1) as usize }),
        )
    }
}

impl UpdateConfig {
    /// The place at which an update begins.
    pub fn start(&self) -> (at: Cursor)
        ensures
            at == (Cursor { iter: 0, step: 0 }),
    {
        Cursor { iter: 0, step: 0 }
    }

    /// The transition to run at `at` and the place after it, or `None`
    /// where the update is over.
    pub fn next_step(&self, at: Cursor, cancelled: bool) -> (step: Option<
        (StateTransition, Cursor),
    >)
        ensures
            step == step_of(self.n_iters, self.transitions@, at, cancelled),
    {
        let n: usize = self.transitions.len();
        if at.iter >= self.n_iters || at.step >= n {
            return None;
        }
        if cancelled && at.step == 0 {
            return None;
        }
        let transition = self.transitions[at.step];
        if at.step + 1 == n {
            Some((transition, Cursor { iter: at.iter + 1, step: 0 }))
        } else {
            Some((transition, Cursor { iter: at.iter, step: at.step + 1 }))
        }
    }

    /// Whether a checkpoint is due when `done` iterations are done.
    pub fn checkpoint_due(&self, done: usize) -> (due: bool)
        ensures
            due == (self.checkpoint > 0 && done > 0 && done as int % self.checkpoint as int == 0),
    {
        self.checkpoint > 0 && done > 0 && done % self.checkpoint == 0
    }
}

/// Once an iteration is under way it is run to its end: a request to stop
/// changes nothing before the iteration's last transition is done.
pub proof fn lemma_stop_between_iterations(
    n_iters: usize,
    transitions: Seq<StateTransition>,
    at: Cursor,
)
    requires
        at.step > 0,
    ensures
        step_of(n_iters, transitions, at, true) == step_of(n_iters, transitions, at, false),
{
}

/// Within an iteration the transitions are run in the order given, and the
/// iteration is counted when its last transition is done.
pub proof fn lemma_steps_in_order(n_iters: usize, transitions: Seq<StateTransition>, at: Cursor)
    requires
        at.iter < n_iters,
        at.step < transitions.len(),
    ensures
        step_of(n_iters, transitions, at, false) == Some(
            (
                transitions[at.step as int],
                if at.step + 1 == transitions.len() {
                    Cursor { iter: (at.iter + 1) as usize, step: 0 }
                } else {
                    Cursor { iter: at.iter, step: (at.step + 1) as usize }
                },
            ),
        ),
{
}

} // verus!
