//! An engine: an ensemble of states over the same table.
//!
//! The states are independent of each other: each has its own partitions.
//! An edit of the data is made in every state.

use crate::assignment::{lemma_partition_total, reassigned, reassignment, Assignment, Reassignment};
use crate::column::{in_range, Column};
use crate::error::ModelError;
use crate::state::{same_views, State};
use vstd::prelude::*;

verus! {

/// Every state is well formed, and all have the same numbers of columns
/// and rows.
pub open spec fn ensemble_wf(states: Seq<State>) -> bool {
    forall|s: int|
        0 <= s < states.len() ==> (#[trigger] states[s]).wf() && states[s].asgn.asgn@.len()
            == states[0].asgn.asgn@.len() && states[s].rows() == states[0].rows()
}

/// There is a list of categories for each state, and the row with the
/// values `values` can be added to each state with the categories of its
/// list.
pub open spec fn row_fits_all(
    states: Seq<State>,
    values: Seq<Option<u8>>,
    categories: Seq<Vec<usize>>,
) -> bool {
    &&& categories.len() == states.len()
    &&& forall|s: int|
        0 <= s < states.len() ==> (#[trigger] states[s]).row_fits(values, categories[s]@)
}

/// There is a view and a row partition for each state, and a column with
/// `n_rows` rows can be added to each state in its view, which gets its
/// row partition where it is new.
pub open spec fn column_fits_all(
    states: Seq<State>,
    n_rows: nat,
    targets: Seq<usize>,
    fresh: Seq<Option<Assignment>>,
) -> bool {
    &&& targets.len() == states.len()
    &&& fresh.len() == states.len()
    &&& forall|s: int|
        0 <= s < states.len() ==> (#[trigger] targets[s]) <= states[s].views@.len()
    &&& forall|s: int|
        0 <= s < states.len() && targets[s] == states[s].views@.len() && (
        #[trigger] fresh[s]) is Some ==> fresh[s]->0.wf() && fresh[s]->0.asgn@.len() == n_rows
}

/// A copy of a vector of cells.
pub fn copy_cells(source: &Vec<Option<u8>>) -> (copy: Vec<Option<u8>>)
    ensures
        copy@ == source@,
{
    let mut copy: Vec<Option<u8>> = Vec::new();
    let mut i: usize = 0;
    while i < source.len()
        invariant
            i <= source@.len(),
            copy@ == source@.take(i as int),
        decreases source@.len() - i,
    {
        copy.push(source[i]);
        assert(source@.take(i as int).push(source@[i as int]) =~= source@.take(i + 1));
        i += 1;
    }
    assert(source@.take(source@.len() as int) =~= source@);
    copy
}

/// A state has no view exactly if it has no column.
pub proof fn lemma_no_views_no_columns(state: State)
    requires
        state.wf(),
    ensures
        state.views@.len() == 0 <==> state.asgn.asgn@.len() == 0,
{
    lemma_partition_total(state.asgn.asgn@, state.asgn.counts@);
    if state.asgn.asgn@.len() > 0 {
        assert(state.asgn.asgn@[0] < state.asgn.counts@.len());
    }
}

/// An ensemble of states over the same table.
#[derive(Debug, PartialEq, Eq)]
pub struct Engine {
    /// The states.
    pub states: Vec<State>,
}

impl Engine {
    /// Every state is well formed, and all have the same numbers of
    /// columns and rows.
    pub open spec fn wf(&self) -> bool {
        ensemble_wf(self.states@)
    }

    /// The number of columns; zero for an engine without states.
    pub open spec fn cols(&self) -> nat {
        if self.states@.len() > 0 {
            self.states@[0].asgn.asgn@.len()
        } else {
            0
        }
    }

    /// The number of rows; zero for an engine without states.
    pub open spec fn rows(&self) -> nat {
        if self.states@.len() > 0 {
            self.states@[0].rows()
        } else {
            0
        }
    }

    /// The engine of the given states.
    pub fn new(states: Vec<State>) -> (res: Result<Engine, ModelError>)
        ensures
            res is Ok <==> ensemble_wf(states@),
            res matches Ok(engine) ==> engine.states == states,
            res matches Err(e) ==> e == ModelError::InvalidPartition || e
                == ModelError::LengthMismatch,
            res == Err::<Engine, ModelError>(ModelError::InvalidPartition) ==> exists|s: int|
                0 <= s < states@.len() && !(#[trigger] states@[s]).wf(),
            res == Err::<Engine, ModelError>(ModelError::LengthMismatch) ==> exists|s: int|
                0 <= s < states@.len() && ((#[trigger] states@[s]).asgn.asgn@.len()
                    != states@[0].asgn.asgn@.len() || states@[s].rows() != states@[0].rows()),
    {
        let mut s: usize = 0;
        while s < states.len()
            invariant
                s <= states@.len(),
                forall|t: int|
                    0 <= t < s ==> (#[trigger] states@[t]).wf() && states@[t].asgn.asgn@.len()
                        == states@[0].asgn.asgn@.len() && states@[t].rows() == states@[0].rows(),
            decreases states@.len() - s,
        {
            if !states[s].validate() {
                return Err(ModelError::InvalidPartition);
            }
            if states[s].n_cols() != states[0].n_cols() {
                return Err(ModelError::LengthMismatch);
            }
            if states[s].n_rows() != states[0].n_rows() {
                return Err(ModelError::LengthMismatch);
            }
            s += 1;
        }
        Ok(Engine { states })
    }

    /// Whether every state is well formed, and all have the same numbers
    /// of columns and rows.
    pub fn validate(&self) -> (valid: bool)
        ensures
            valid == self.wf(),
    {
        let mut s: usize = 0;
        while s < self.states.len()
            invariant
                s <= self.states@.len(),
                forall|t: int|
                    0 <= t < s ==> (#[trigger] self.states@[t]).wf()
                        && self.states@[t].asgn.asgn@.len() == self.states@[0].asgn.asgn@.len()
                        && self.states@[t].rows() == self.states@[0].rows(),
            decreases self.states@.len() - s,
        {
            if !self.states[s].validate() {
                return false;
            }
            if self.states[s].n_cols() != self.states[0].n_cols() {
                return false;
            }
            if self.states[s].n_rows() != self.states[0].n_rows() {
                return false;
            }
            s += 1;
        }
        true
    }

    /// The number of states.
    pub fn n_states(&self) -> (n: usize)
        ensures
            n == self.states@.len(),
    {
        self.states.len()
    }

    /// The number of columns; zero for an engine without states.
    pub fn n_cols(&self) -> (n: usize)
        ensures
            n == self.cols(),
    {
        if self.states.len() > 0 {
            self.states[0].n_cols()
        } else {
            0
        }
    }

    /// The number of rows; zero for an engine without states.
    pub fn n_rows(&self) -> (n: usize)
        ensures
            n == self.rows(),
    {
        if self.states.len() > 0 {
            self.states[0].n_rows()
        } else {
            0
        }
    }

    /// Moves `row` to `category` in the view `view` of the state `state`.
    /// The other states are untouched.
    pub fn reassign_row(&mut self, state: usize, view: usize, row: usize, category: usize) -> (res:
        Result<Reassignment, ModelError>)
        requires
            old(self).wf(),
        ensures
            final(self).wf(),
            final(self).states@.len() == old(self).states@.len(),
            state >= old(self).states@.len() ==> res == Err::<Reassignment, ModelError>(
                ModelError::StateOutOfBounds,
            ),
            state < old(self).states@.len() ==> {
                let was = old(self).states@[state as int];
                let now = final(self).states@[state as int];
                &&& now.asgn == was.asgn
                &&& (view >= was.views@.len() ==> res == Err::<Reassignment, ModelError>(
                    ModelError::ViewOutOfBounds,
                ))
                &&& (view < was.views@.len() && row >= was.rows() ==> res == Err::<
                    Reassignment,
                    ModelError,
                >(ModelError::RowOutOfBounds))
                &&& (view < was.views@.len() && row < was.rows() && category
                    > was.views@[view as int].asgn.counts@.len() ==> res == Err::<
                    Reassignment,
                    ModelError,
                >(ModelError::CategoryOutOfBounds))
                &&& (view < was.views@.len() && row < was.rows() && category
                    <= was.views@[view as int].asgn.counts@.len() ==> res == Ok::<
                    Reassignment,
                    ModelError,
                >(
                    reassignment(
                        was.views@[view as int].asgn.asgn@,
                        was.views@[view as int].asgn.counts@.len(),
                        row as int,
                        category,
                    ),
                ))
                &&& (res is Ok ==> now.views@[view as int].asgn.asgn@ == reassigned(
                    was.views@[view as int].asgn.asgn@,
                    row as int,
                    category,
                ))
                &&& (res is Err ==> same_views(was.views@, now.views@))
                &&& (forall|c: usize, card: usize, data: Seq<Option<u8>>|
                    was.has_column(c, card, data) ==> now.has_column(c, card, data))
            },
            forall|s: int|
                0 <= s < old(self).states@.len() && s != state
                    ==> final(self).states@[s] == old(self).states@[s],
    {
        if state >= self.states.len() {
            return Err(ModelError::StateOutOfBounds);
        }
        let ghost before = self.states@;
        assert(before[state as int].wf());
        assert(before[0].wf());
        let res = self.states[state].reassign_row(view, row, category);
        proof {
            let after = self.states@;
            let was = before[state as int];
            let now = after[state as int];
            assert(now.views@.len() == was.views@.len());
            if was.views@.len() > 0 {
                if view == 0 {
                    if res is Err {
                        assert(now.views@[0].asgn == was.views@[0].asgn);
                    }
                } else {
                    assert(now.views@[0] == was.views@[0]);
                }
            }
            assert(now.rows() == was.rows());
            assert forall|s: int| 0 <= s < after.len() implies (#[trigger] after[s]).wf()
                && after[s].asgn.asgn@.len() == after[0].asgn.asgn@.len() && after[s].rows()
                == after[0].rows() by {
                assert(before[s].wf());
                if s != state {
                    assert(after[s] == before[s]);
                }
                if 0 != state {
                    assert(after[0] == before[0]);
                }
            }
        }
        res
    }

    /// Moves column `col` to the view `target` in the state `state`. The
    /// other states are untouched.
    pub fn reassign_column(
        &mut self,
        state: usize,
        col: usize,
        target: usize,
        fresh: Option<Assignment>,
    ) -> (res: Result<Reassignment, ModelError>)
        requires
            old(self).wf(),
        ensures
            final(self).wf(),
            final(self).states@.len() == old(self).states@.len(),
            state >= old(self).states@.len() ==> res == Err::<Reassignment, ModelError>(
                ModelError::StateOutOfBounds,
            ),
            state < old(self).states@.len() ==> {
                let was = old(self).states@[state as int];
                let now = final(self).states@[state as int];
                &&& (col >= was.asgn.asgn@.len() ==> res == Err::<Reassignment, ModelError>(
                    ModelError::UnknownColumn,
                ))
                &&& (col < was.asgn.asgn@.len() && target > was.views@.len() ==> res == Err::<
                    Reassignment,
                    ModelError,
                >(ModelError::ViewOutOfBounds))
                &&& (col < was.asgn.asgn@.len() && target == was.views@.len() && fresh is Some
                    && !fresh->0.wf() ==> res == Err::<Reassignment, ModelError>(
                    ModelError::InvalidPartition,
                ))
                &&& (col < was.asgn.asgn@.len() && target == was.views@.len() && fresh is Some
                    && fresh->0.wf() && fresh->0.asgn@.len() != was.rows() ==> res == Err::<
                    Reassignment,
                    ModelError,
                >(ModelError::LengthMismatch))
                &&& (col < was.asgn.asgn@.len() && (target < was.views@.len() || (target
                    == was.views@.len() && (fresh is None || (fresh->0.wf()
                    && fresh->0.asgn@.len() == was.rows())))) ==> res == Ok::<
                    Reassignment,
                    ModelError,
                >(reassignment(was.asgn.asgn@, was.views@.len(), col as int, target)))
                &&& (res is Ok ==> now.asgn.asgn@ == reassigned(
                    was.asgn.asgn@,
                    col as int,
                    target,
                ))
                &&& (res is Ok ==> forall|c: usize, card: usize, data: Seq<Option<u8>>|
                    was.has_column(c, card, data) ==> now.has_column(c, card, data))
                &&& (res is Err ==> now.asgn == was.asgn && now.views@ == was.views@)
            },
            forall|s: int|
                0 <= s < old(self).states@.len() && s != state
                    ==> final(self).states@[s] == old(self).states@[s],
    {
        if state >= self.states.len() {
            return Err(ModelError::StateOutOfBounds);
        }
        let ghost before = self.states@;
        assert(before[state as int].wf());
        assert(before[0].wf());
        let res = self.states[state].reassign_column(col, target, fresh);
        proof {
            let after = self.states@;
            let was = before[state as int];
            let now = after[state as int];
            if res is Ok {
                assert(now.asgn.asgn@.len() == was.asgn.asgn@.len());
            }
            assert forall|s: int| 0 <= s < after.len() implies (#[trigger] after[s]).wf()
                && after[s].asgn.asgn@.len() == after[0].asgn.asgn@.len() && after[s].rows()
                == after[0].rows() by {
                assert(before[s].wf());
                if s != state {
                    assert(after[s] == before[s]);
                }
                if 0 != state {
                    assert(after[0] == before[0]);
                }
            }
        }
        res
    }

    /// Adds a row with the value `values[c]` for column `c`, in every
    /// state or, where one of them refuses it, in none. In view `v` of
    /// state `s` the row joins the category `categories[s][v]`.
    pub fn append_row(&mut self, values: &Vec<Option<u8>>, categories: &Vec<Vec<usize>>) -> (res:
        Result<(), ModelError>)
        requires
            old(self).wf(),
        ensures
            final(self).wf(),
            final(self).states@.len() == old(self).states@.len(),
            old(self).states@.len() == 0 ==> res == Err::<(), ModelError>(
                ModelError::EmptyEnsemble,
            ),
            old(self).states@.len() > 0 ==> (res is Ok <==> row_fits_all(
                old(self).states@,
                values@,
                categories@,
            )),
            res matches Err(e) ==> e == ModelError::EmptyEnsemble || e
                == ModelError::LengthMismatch || e == ModelError::CategoryOutOfBounds || e
                == ModelError::ValueOutOfRange,
            res is Err ==> final(self).states@ == old(self).states@,
            res is Ok ==> forall|s: int|
                0 <= s < old(self).states@.len()
                    ==> (#[trigger] final(self).states@[s]).asgn == old(self).states@[s].asgn
                    && final(self).states@[s].views@.len() == old(self).states@[s].views@.len(),
            res is Ok ==> forall|s: int, v: int|
                0 <= s < old(self).states@.len() && 0 <= v < old(self).states@[s].views@.len() ==> (
                #[trigger] final(self).states@[s].views@[v]).asgn.asgn@
                    == old(self).states@[s].views@[v].asgn.asgn@.push(categories@[s]@[v]),
            res is Ok ==> forall|s: int, c: usize, card: usize, data: Seq<Option<u8>>|
                0 <= s < old(self).states@.len() && (#[trigger] old(self).states@[s].has_column(
                    c,
                    card,
                    data,
                )) ==> final(self).states@[s].has_column(c, card, data.push(values@[c as int])),
    {
        let n: usize = self.states.len();
        if n == 0 {
            return Err(ModelError::EmptyEnsemble);
        }
        if categories.len() != n {
            return Err(ModelError::LengthMismatch);
        }
        let mut s: usize = 0;
        while s < n
            invariant
                s <= n,
                n == self.states@.len(),
                n == categories@.len(),
                *self == *old(self),
                self.wf(),
                forall|t: int|
                    0 <= t < s ==> (#[trigger] self.states@[t]).row_fits(values@, categories@[t]@),
            decreases n - s,
        {
            assert(self.states@[s as int].wf());
            match self.states[s].check_row(values, &categories[s]) {
                Ok(()) => {},
                Err(e) => {
                    return Err(e);
                },
            }
            s += 1;
        }
        let ghost before = self.states@;
        s = 0;
        while s < n
            invariant
                s <= n,
                n == self.states@.len(),
                n == before.len(),
                n == categories@.len(),
                before == old(self).states@,
                ensemble_wf(before),
                row_fits_all(before, values@, categories@),
                forall|t: int| s <= t < n ==> #[trigger] self.states@[t] == before[t],
                forall|t: int|
                    0 <= t < s ==> (#[trigger] self.states@[t]).wf() && self.states@[t].asgn
                        == before[t].asgn && self.states@[t].views@.len() == before[t].views@.len(),
                forall|t: int, v: int|
                    0 <= t < s && 0 <= v < before[t].views@.len() ==> (
                    #[trigger] self.states@[t].views@[v]).asgn.asgn@
                        == before[t].views@[v].asgn.asgn@.push(categories@[t]@[v]),
                forall|t: int, c: usize, card: usize, data: Seq<Option<u8>>|
                    0 <= t < s && (#[trigger] before[t].has_column(c, card, data))
                        ==> self.states@[t].has_column(c, card, data.push(values@[c as int])),
            decreases n - s,
        {
            let ghost earlier = self.states@;
            assert(before[s as int].wf());
            assert(before[s as int].row_fits(values@, categories@[s as int]@));
            let added = self.states[s].append_row(values, &categories[s]);
            assert(added is Ok);
            proof {
                assert forall|t: int| 0 <= t < n && t != s implies #[trigger] self.states@[t]
                    == earlier[t] by {}
            }
            s += 1;
        }
        proof {
            assert forall|t: int| 0 <= t < n implies (#[trigger] self.states@[t]).wf()
                && self.states@[t].asgn.asgn@.len() == self.states@[0].asgn.asgn@.len()
                && self.states@[t].rows() == self.states@[0].rows() by {
                assert(before[t].wf());
                assert(before[0].wf());
                lemma_no_views_no_columns(before[t]);
                lemma_no_views_no_columns(before[0]);
                assert(self.states@[0].wf());
                if before[t].views@.len() > 0 {
                    assert(self.states@[t].views@[0].asgn.asgn@
                        == before[t].views@[0].asgn.asgn@.push(
                        categories@[t]@[0],
                    ));
                    assert(self.states@[0].views@[0].asgn.asgn@
                        == before[0].views@[0].asgn.asgn@.push(
                        categories@[0]@[0],
                    ));
                }
            }
        }
        Ok(())
    }

    /// Adds a column with cardinality `card` and the data `data`, in every
    /// state or, where one of them refuses it, in none. In state `s` the
    /// column joins the view `targets[s]`; where that view is new, its row
    /// partition is `fresh[s]` or, where that is `None`, the one that puts
    /// all rows together.
    pub fn append_column(
        &mut self,
        card: usize,
        data: &Vec<Option<u8>>,
        targets: &Vec<usize>,
        fresh: Vec<Option<Assignment>>,
    ) -> (res: Result<(), ModelError>)
        requires
            old(self).wf(),
        ensures
            final(self).wf(),
            final(self).states@.len() == old(self).states@.len(),
            old(self).states@.len() == 0 ==> res == Err::<(), ModelError>(
                ModelError::EmptyEnsemble,
            ),
            old(self).states@.len() > 0 ==> (res is Ok <==> in_range(data@, card as nat)
                && (old(self).cols() > 0 ==> data@.len() == old(self).rows())
                && column_fits_all(
                old(self).states@,
                data@.len(),
                targets@,
                fresh@,
            )),
            res matches Err(e) ==> e == ModelError::EmptyEnsemble || e
                == ModelError::ValueOutOfRange || e == ModelError::LengthMismatch || e
                == ModelError::ViewOutOfBounds || e == ModelError::InvalidPartition,
            res is Err ==> final(self).states@ == old(self).states@,
            res is Ok ==> forall|s: int|
                0 <= s < old(self).states@.len() ==> (#[trigger] final(self).states@[s]).asgn.asgn@
                    == old(self).states@[s].asgn.asgn@.push(targets@[s])
                    && final(self).states@[s].has_column(
                    old(self).cols() as usize,
                    card,
                    data@,
                ),
            res is Ok ==> forall|s: int, c: usize, card0: usize, data0: Seq<Option<u8>>|
                0 <= s < old(self).states@.len() && (#[trigger] old(self).states@[s].has_column(
                    c,
                    card0,
                    data0,
                )) ==> final(self).states@[s].has_column(c, card0, data0),
    {
        let n: usize = self.states.len();
        if n == 0 {
            return Err(ModelError::EmptyEnsemble);
        }
        assert(self.states@[0].wf());
        let n_cols: usize = self.states[0].n_cols();
        let n_rows: usize = data.len();
        let probe = Column { id: n_cols, card, data: copy_cells(data), components: Vec::new() };
        if !probe.values_in_range() {
            return Err(ModelError::ValueOutOfRange);
        }
        if n_cols > 0 && self.states[0].n_rows() != n_rows {
            return Err(ModelError::LengthMismatch);
        }
        if targets.len() != n || fresh.len() != n {
            return Err(ModelError::LengthMismatch);
        }
        let mut s: usize = 0;
        while s < n
            invariant
                s <= n,
                n == self.states@.len(),
                n == targets@.len(),
                n == fresh@.len(),
                *self == *old(self),
                self.wf(),
                in_range(data@, card as nat),
                n_rows == data@.len(),
                n_cols == self.cols(),
                n_cols > 0 ==> n_rows == self.rows(),
                forall|t: int|
                    0 <= t < s ==> (#[trigger] targets@[t]) <= self.states@[t].views@.len(),
                forall|t: int|
                    0 <= t < s && targets@[t] == self.states@[t].views@.len() && (
                    #[trigger] fresh@[t]) is Some ==> fresh@[t]->0.wf()
                        && fresh@[t]->0.asgn@.len() == n_rows,
            decreases n - s,
        {
            if targets[s] > self.states[s].n_views() {
                return Err(ModelError::ViewOutOfBounds);
            }
            if targets[s] == self.states[s].n_views() {
                match &fresh[s] {
                    Some(a) => {
                        if !a.validate() {
                            return Err(ModelError::InvalidPartition);
                        }
                        if a.len() != n_rows {
                            return Err(ModelError::LengthMismatch);
                        }
                    },
                    None => {},
                }
            }
            s += 1;
        }
        let ghost before = self.states@;
        let ghost given = fresh@;
        let mut fresh = fresh;
        s = n;
        while s > 0
            invariant
                s <= n,
                n == self.states@.len(),
                n == before.len(),
                n == targets@.len(),
                n == given.len(),
                before == old(self).states@,
                ensemble_wf(before),
                in_range(data@, card as nat),
                n_rows == data@.len(),
                n_cols == before[0].asgn.asgn@.len(),
                n_cols > 0 ==> n_rows == before[0].rows(),
                column_fits_all(before, n_rows as nat, targets@, given),
                fresh@ == given.take(s as int),
                forall|t: int| 0 <= t < s ==> #[trigger] self.states@[t] == before[t],
                forall|t: int|
                    s <= t < n ==> (#[trigger] self.states@[t]).wf() && self.states@[t].asgn.asgn@
                        == before[t].asgn.asgn@.push(targets@[t])
                        && self.states@[t].has_column(n_cols, card, data@)
                        && self.states@[t].rows() == n_rows,
                forall|t: int, c: usize, card0: usize, data0: Seq<Option<u8>>|
                    s <= t < n && (#[trigger] before[t].has_column(c, card0, data0))
                        ==> self.states@[t].has_column(c, card0, data0),
            decreases s,
        {
            s -= 1;
            let ghost earlier = self.states@;
            let rows = match fresh.pop() {
                Some(rows) => rows,
                None => None,
            };
            assert(rows == given[s as int]);
            assert(given.take(s as int + 1).drop_last() =~= given.take(s as int));
            let column =
                Column { id: n_cols, card, data: copy_cells(data), components: Vec::new() };
            proof {
                assert(before[s as int].wf());
                assert(before[0].wf());
                lemma_no_views_no_columns(before[s as int]);
                assert(targets@[s as int] <= before[s as int].views@.len());
                assert(given[s as int] is Some && targets@[s as int]
                    == before[s as int].views@.len() ==> given[s as int]->0.wf());
            }
            let added = self.states[s].append_column(column, targets[s], rows);
            assert(added is Ok);
            proof {
                assert forall|t: int| 0 <= t < n && t != s implies #[trigger] self.states@[t]
                    == earlier[t] by {}
            }
        }
        proof {
            assert forall|t: int| 0 <= t < n implies (#[trigger] self.states@[t]).wf()
                && self.states@[t].asgn.asgn@.len() == self.states@[0].asgn.asgn@.len()
                && self.states@[t].rows() == self.states@[0].rows() by {
                assert(before[t].wf());
                assert(before[0].wf());
            }
        }
        Ok(())
    }

    /// Writes `value` into row `row` of column `col`, in every state or,
    /// where one of them refuses it, in none.
    pub fn overwrite(&mut self, col: usize, row: usize, value: Option<u8>) -> (res: Result<
        (),
        ModelError,
    >)
        requires
            old(self).wf(),
        ensures
            final(self).wf(),
            final(self).states@.len() == old(self).states@.len(),
            old(self).states@.len() == 0 ==> res == Err::<(), ModelError>(
                ModelError::EmptyEnsemble,
            ),
            old(self).states@.len() > 0 && col >= old(self).cols() ==> res == Err::<
                (),
                ModelError,
            >(ModelError::UnknownColumn),
            old(self).states@.len() > 0 && col < old(self).cols() && row >= old(self).rows()
                ==> res == Err::<(), ModelError>(ModelError::RowOutOfBounds),
            old(self).states@.len() > 0 && col < old(self).cols() && row < old(self).rows() ==> (
            res is Ok <==> (value is Some ==> forall|s: int|
                0 <= s < old(self).states@.len()
                    ==> value->0 < (#[trigger] old(self).states@[s]).column(col).card)),
            old(self).states@.len() > 0 && col < old(self).cols() && row < old(self).rows()
                && res is Err ==> res == Err::<(), ModelError>(ModelError::ValueOutOfRange),
            res is Err ==> final(self).states@ == old(self).states@,
            forall|s: int|
                0 <= s < old(self).states@.len()
                    ==> (#[trigger] final(self).states@[s]).asgn == old(self).states@[s].asgn,
            res is Ok ==> forall|s: int, card: usize, data: Seq<Option<u8>>|
                0 <= s < old(self).states@.len() && (#[trigger] old(self).states@[s].has_column(
                    col,
                    card,
                    data,
                )) ==> final(self).states@[s].has_column(col, card, data.update(row as int, value)),
            res is Ok ==> forall|s: int, c: usize, card: usize, data: Seq<Option<u8>>|
                0 <= s < old(self).states@.len() && c != col
                    && (#[trigger] old(self).states@[s].has_column(c, card, data))
                    ==> final(self).states@[s].has_column(
                    c,
                    card,
                    data,
                ),
    {
        let n: usize = self.states.len();
        if n == 0 {
            return Err(ModelError::EmptyEnsemble);
        }
        assert(self.states@[0].wf());
        if col >= self.states[0].n_cols() {
            return Err(ModelError::UnknownColumn);
        }
        if row >= self.states[0].n_rows() {
            return Err(ModelError::RowOutOfBounds);
        }
        let mut s: usize = 0;
        while s < n
            invariant
                s <= n,
                n == self.states@.len(),
                *self == *old(self),
                self.wf(),
                col < self.cols(),
                row < self.rows(),
                value is Some ==> forall|t: int|
                    0 <= t < s ==> value->0 < (#[trigger] self.states@[t]).column(col).card,
            decreases n - s,
        {
            assert(self.states@[s as int].wf());
            match value {
                Some(v) => {
                    match self.states[s].card_of(col) {
                        Some(card) => {
                            if v as usize >= card {
                                return Err(ModelError::ValueOutOfRange);
                            }
                        },
                        None => {},
                    }
                },
                None => {},
            }
            s += 1;
        }
        let ghost before = self.states@;
        s = 0;
        while s < n
            invariant
                s <= n,
                n == self.states@.len(),
                n == before.len(),
                before == old(self).states@,
                ensemble_wf(before),
                col < before[0].asgn.asgn@.len(),
                row < before[0].rows(),
                value is Some ==> forall|t: int|
                    0 <= t < n ==> value->0 < (#[trigger] before[t]).column(col).card,
                forall|t: int| s <= t < n ==> #[trigger] self.states@[t] == before[t],
                forall|t: int|
                    0 <= t < s ==> (#[trigger] self.states@[t]).wf() && self.states@[t].asgn
                        == before[t].asgn && self.states@[t].rows() == before[t].rows(),
                forall|t: int, card: usize, data: Seq<Option<u8>>|
                    0 <= t < s && (#[trigger] before[t].has_column(col, card, data))
                        ==> self.states@[t].has_column(col, card, data.update(row as int, value)),
                forall|t: int, c: usize, card: usize, data: Seq<Option<u8>>|
                    0 <= t < s && c != col && (#[trigger] before[t].has_column(c, card, data))
                        ==> self.states@[t].has_column(c, card, data),
            decreases n - s,
        {
            let ghost earlier = self.states@;
            assert(before[s as int].wf());
            assert(before[0].wf());
            let done = self.states[s].overwrite(col, row, value);
            assert(done is Ok);
            proof {
                let now = self.states@[s as int];
                let was = before[s as int];
                assert forall|t: int| 0 <= t < n && t != s implies #[trigger] self.states@[t]
                    == earlier[t] by {}
                assert(now.views@.len() == was.views@.len());
                assert(now.views@[0].asgn == was.views@[0].asgn);
                assert(now.rows() == was.rows());
            }
            s += 1;
        }
        proof {
            assert forall|t: int| 0 <= t < n implies (#[trigger] self.states@[t]).wf()
                && self.states@[t].asgn.asgn@.len() == self.states@[0].asgn.asgn@.len()
                && self.states@[t].rows() == self.states@[0].rows() by {
                assert(before[t].wf());
                assert(before[0].wf());
            }
        }
        Ok(())
    }
}

} // verus!
