//! A view: a set of columns that share one partition of the rows.
//!
//! Rows move between categories as a unit: one move of a row changes the
//! statistics of every column of the view in the same way.

use crate::assignment::{n_cats_after, reassigned, reassignment, Assignment, Reassignment};
use crate::column::{in_range, Column};
use crate::error::ModelError;
use vstd::prelude::*;

verus! {

/// Two columns have the same identifier, cardinality and data.
pub open spec fn same_cells(first: Column, second: Column) -> bool {
    &&& first.id == second.id
    &&& first.card == second.card
    &&& first.data@ == second.data@
}

/// Two lists of columns agree, place by place, in identifier, cardinality
/// and data.
pub open spec fn same_columns(first: Seq<Column>, second: Seq<Column>) -> bool {
    &&& first.len() == second.len()
    &&& forall|j: int| 0 <= j < first.len() ==> same_cells(#[trigger] first[j], second[j])
}

/// One of `cols` has the identifier `id`.
pub open spec fn holds_id(cols: Seq<Column>, id: usize) -> bool {
    exists|j: int| 0 <= j < cols.len() && (#[trigger] cols[j]).id == id
}

/// One of `cols` has the identifier `id`, the cardinality `card` and the
/// data `data`.
pub open spec fn holds_cells(cols: Seq<Column>, id: usize, card: usize,
    data: Seq<Option<u8>>) -> bool {
    exists|j: int|
        0 <= j < cols.len() && (#[trigger] cols[j]).id == id && cols[j].card == card
            && cols[j].data@ == data
}

/// A place at which `cols` has the identifier `id`.
pub open spec fn place_of(cols: Seq<Column>, id: usize) -> int {
    choose|j: int| 0 <= j < cols.len() && (#[trigger] cols[j]).id == id
}

/// The column of `cols` with the identifier `id`.
pub open spec fn column_of(cols: Seq<Column>, id: usize) -> Column {
    cols[place_of(cols, id)]
}

/// Among columns with distinct identifiers, the column with a given
/// identifier is the one at any place that has it.
pub proof fn lemma_column_at(cols: Seq<Column>, at: int)
    requires
        0 <= at < cols.len(),
        distinct_ids(cols),
    ensures
        holds_id(cols, cols[at].id),
        place_of(cols, cols[at].id) == at,
        column_of(cols, cols[at].id) == cols[at],
{
    let id = cols[at].id;
    assert(holds_id(cols, id));
    let p = place_of(cols, id);
    if p < at {
        assert(cols[p].id != cols[at].id);
    }
    if at < p {
        assert(cols[at].id != cols[p].id);
    }
}

/// No two of `cols` have the same identifier.
pub open spec fn distinct_ids(cols: Seq<Column>) -> bool {
    forall|i: int, j: int|
        0 <= i < j < cols.len() ==> (#[trigger] cols[i]).id != (#[trigger] cols[j]).id
}

/// Every column has room for `n_rows` rows' worth of valid data.
pub open spec fn fit_for(cols: Seq<Column>, n_rows: nat) -> bool {
    forall|j: int|
        0 <= j < cols.len() ==> in_range((#[trigger] cols[j]).data@, cols[j].card as nat)
            && cols[j].data@.len() == n_rows
}

/// Each of `values` is missing or below the cardinality of the column in
/// its place.
pub open spec fn row_in_range(cols: Seq<Column>, values: Seq<Option<u8>>) -> bool {
    forall|j: int|
        0 <= j < cols.len() && j < values.len() && (#[trigger] values[j]) is Some ==> values[j]->0
            < cols[j].card
}

/// Every column tracks the partition `labels` with `n_cats` categories.
pub open spec fn all_track(cols: Seq<Column>, labels: Seq<usize>, n_cats: nat) -> bool {
    forall|j: int| 0 <= j < cols.len() ==> (#[trigger] cols[j]).tracks(labels, n_cats)
}

/// Taking the column at place `at` away leaves every other column where it
/// can be found.
pub proof fn lemma_cells_after_remove(
    cols: Seq<Column>,
    at: int,
    id: usize,
    card: usize,
    data: Seq<Option<u8>>,
)
    requires
        0 <= at < cols.len(),
        distinct_ids(cols),
    ensures
        holds_cells(cols.remove(at), id, card, data) <==> (id != cols[at].id && holds_cells(
            cols,
            id,
            card,
            data,
        )),
        holds_id(cols.remove(at), id) <==> (id != cols[at].id && holds_id(cols, id)),
{
    let rest = cols.remove(at);
    if holds_cells(rest, id, card, data) {
        let i = choose|i: int|
            0 <= i < rest.len() && (#[trigger] rest[i]).id == id && rest[i].card == card
                && rest[i].data@ == data;
        let i0 = if i < at {
            i
        } else {
            i + 1
        };
        assert(rest[i] == cols[i0]);
        assert(cols[i0].id == id);
        if i0 < at {
            assert(cols[i0].id != cols[at].id);
        } else {
            assert(cols[at].id != cols[i0].id);
        }
    }
    if holds_id(rest, id) {
        let i = choose|i: int| 0 <= i < rest.len() && (#[trigger] rest[i]).id == id;
        let i0 = if i < at {
            i
        } else {
            i + 1
        };
        assert(rest[i] == cols[i0]);
        assert(cols[i0].id == id);
        if i0 < at {
            assert(cols[i0].id != cols[at].id);
        } else {
            assert(cols[at].id != cols[i0].id);
        }
    }
    if id != cols[at].id && holds_cells(cols, id, card, data) {
        let i0 = choose|i0: int|
            0 <= i0 < cols.len() && (#[trigger] cols[i0]).id == id && cols[i0].card == card
                && cols[i0].data@ == data;
        let i = if i0 < at {
            i0
        } else {
            i0 - 1
        };
        assert(rest[i] == cols[i0]);
        assert(rest[i].id == id);
    }
    if id != cols[at].id && holds_id(cols, id) {
        let i0 = choose|i0: int| 0 <= i0 < cols.len() && (#[trigger] cols[i0]).id == id;
        let i = if i0 < at {
            i0
        } else {
            i0 - 1
        };
        assert(rest[i] == cols[i0]);
        assert(rest[i].id == id);
    }
}

/// Adding a column at the end leaves every other column where it can be
/// found, and the new one with them.
pub proof fn lemma_cells_after_push(
    cols: Seq<Column>,
    col: Column,
    id: usize,
    card: usize,
    data: Seq<Option<u8>>,
)
    ensures
        holds_cells(cols.push(col), id, card, data) <==> (holds_cells(cols, id, card, data) || (
        col.id == id && col.card == card && col.data@ == data)),
        holds_id(cols.push(col), id) <==> (holds_id(cols, id) || col.id == id),
{
    let more = cols.push(col);
    if holds_cells(more, id, card, data) {
        let i = choose|i: int|
            0 <= i < more.len() && (#[trigger] more[i]).id == id && more[i].card == card
                && more[i].data@ == data;
        if i < cols.len() {
            assert(more[i] == cols[i]);
            assert(cols[i].id == id);
        }
    }
    if holds_id(more, id) {
        let i = choose|i: int| 0 <= i < more.len() && (#[trigger] more[i]).id == id;
        if i < cols.len() {
            assert(more[i] == cols[i]);
            assert(cols[i].id == id);
        }
    }
    if holds_cells(cols, id, card, data) {
        let i = choose|i: int|
            0 <= i < cols.len() && (#[trigger] cols[i]).id == id && cols[i].card == card
                && cols[i].data@ == data;
        assert(more[i] == cols[i]);
        assert(more[i].id == id);
    }
    if holds_id(cols, id) {
        let i = choose|i: int| 0 <= i < cols.len() && (#[trigger] cols[i]).id == id;
        assert(more[i] == cols[i]);
        assert(more[i].id == id);
    }
    if col.id == id {
        assert(more[cols.len() as int].id == id);
    }
}

/// Lists of columns that agree place by place hold the same cells.
pub proof fn lemma_cells_of_same_columns(
    first: Seq<Column>,
    second: Seq<Column>,
    id: usize,
    card: usize,
    data: Seq<Option<u8>>,
)
    requires
        same_columns(first, second),
    ensures
        holds_cells(first, id, card, data) <==> holds_cells(second, id, card, data),
        holds_id(first, id) <==> holds_id(second, id),
{
    if holds_cells(first, id, card, data) {
        let i = choose|i: int|
            0 <= i < first.len() && (#[trigger] first[i]).id == id && first[i].card == card
                && first[i].data@ == data;
        assert(same_cells(first[i], second[i]));
        assert(second[i].id == id);
    }
    if holds_id(first, id) {
        let i = choose|i: int| 0 <= i < first.len() && (#[trigger] first[i]).id == id;
        assert(same_cells(first[i], second[i]));
        assert(second[i].id == id);
    }
    if holds_cells(second, id, card, data) {
        let i = choose|i: int|
            0 <= i < second.len() && (#[trigger] second[i]).id == id && second[i].card == card
                && second[i].data@ == data;
        assert(same_cells(first[i], second[i]));
        assert(first[i].id == id);
    }
    if holds_id(second, id) {
        let i = choose|i: int| 0 <= i < second.len() && (#[trigger] second[i]).id == id;
        assert(same_cells(first[i], second[i]));
        assert(first[i].id == id);
    }
}

/// A partition of the rows and the columns that share it.
#[derive(Debug, PartialEq, Eq)]
pub struct DataView {
    /// The partition of the rows.
    pub asgn: Assignment,
    /// The columns of the view.
    pub cols: Vec<Column>,
}

impl DataView {
    /// The partition is well formed, every column holds the statistics of
    /// each of its categories, and no identifier occurs twice.
    pub open spec fn wf(&self) -> bool {
        &&& self.asgn.wf()
        &&& all_track(self.cols@, self.asgn.asgn@, self.asgn.counts@.len())
        &&& distinct_ids(self.cols@)
    }

    /// A view of `columns` under the row partition `asgn`. The statistics
    /// of every column are computed anew.
    pub fn new(asgn: Assignment, columns: Vec<Column>) -> (res: Result<DataView, ModelError>)
        ensures
            res is Ok <==> asgn.wf() && distinct_ids(columns@) && fit_for(
                columns@,
                asgn.asgn@.len(),
            ),
            res matches Ok(v) ==> v.wf() && v.asgn.asgn@ == asgn.asgn@ && v.asgn.counts@
                == asgn.counts@ && same_columns(columns@, v.cols@),
            res matches Err(e) ==> (e == ModelError::InvalidPartition <==> !asgn.wf()) && (e
                == ModelError::InvalidPartition || e == ModelError::ValueOutOfRange || e
                == ModelError::LengthMismatch || e == ModelError::DuplicateColumn),
            res == Err::<DataView, ModelError>(ModelError::ValueOutOfRange) ==> exists|j: int|
                0 <= j < columns@.len() && !in_range(
                    (#[trigger] columns@[j]).data@,
                    columns@[j].card as nat,
                ),
            res == Err::<DataView, ModelError>(ModelError::LengthMismatch) ==> exists|j: int|
                0 <= j < columns@.len() && (#[trigger] columns@[j]).data@.len() != asgn.asgn@.len(),
            res == Err::<DataView, ModelError>(ModelError::DuplicateColumn) ==> !distinct_ids(
                columns@,
            ),
    {
        if !asgn.validate() {
            return Err(ModelError::InvalidPartition);
        }
        let mut cols = columns;
        let n: usize = asgn.len();
        let mut j: usize = 0;
        while j < cols.len()
            invariant
                j <= cols@.len(),
                asgn.wf(),
                n == asgn.asgn@.len(),
                same_columns(columns@, cols@),
                forall|i: int| 0 <= i < j ==> (#[trigger] cols@[i]).tracks(
                    asgn.asgn@,
                    asgn.counts@.len(),
                ),
                forall|a: int, b: int|
                    0 <= a < b < j ==> (#[trigger] cols@[a]).id != (#[trigger] cols@[b]).id,
            decreases cols@.len() - j,
        {
            if !cols[j].values_in_range() {
                assert(same_cells(columns@[j as int], cols@[j as int]));
                return Err(ModelError::ValueOutOfRange);
            }
            if cols[j].len() != n {
                assert(same_cells(columns@[j as int], cols@[j as int]));
                return Err(ModelError::LengthMismatch);
            }
            let mut i: usize = 0;
            while i < j
                invariant
                    i <= j,
                    j < cols@.len(),
                    asgn.wf(),
                    same_columns(columns@, cols@),
                    forall|a: int| 0 <= a < i ==> (#[trigger] cols@[a]).id != cols@[j as int].id,
                decreases j - i,
            {
                if cols[i].id == cols[j].id {
                    assert(same_cells(columns@[i as int], cols@[i as int]));
                    assert(same_cells(columns@[j as int], cols@[j as int]));
                    return Err(ModelError::DuplicateColumn);
                }
                i += 1;
            }
            let ghost before = cols@;
            let fitted = cols[j].refit(&asgn);
            assert(fitted is Ok);
            proof {
                assert forall|c: int| 0 <= c < cols@.len() implies same_cells(
                    #[trigger] columns@[c],
                    cols@[c],
                ) by {
                    assert(same_cells(columns@[c], before[c]));
                }
                assert forall|a: int, b: int| 0 <= a < b < j + 1 implies (#[trigger] cols@[a]).id
                    != (#[trigger] cols@[b]).id by {
                    assert(same_cells(columns@[a], before[a]));
                    assert(same_cells(columns@[b], before[b]));
                    assert(same_cells(columns@[a], cols@[a]));
                    assert(same_cells(columns@[b], cols@[b]));
                }
            }
            j += 1;
        }
        proof {
            assert forall|a: int, b: int| 0 <= a < b < columns@.len() implies (
            #[trigger] columns@[a]).id != (#[trigger] columns@[b]).id by {
                assert(same_cells(columns@[a], cols@[a]));
                assert(same_cells(columns@[b], cols@[b]));
            }
            assert forall|c: int| 0 <= c < columns@.len() implies in_range(
                (#[trigger] columns@[c]).data@,
                columns@[c].card as nat,
            ) && columns@[c].data@.len() == n by {
                assert(same_cells(columns@[c], cols@[c]));
                assert(cols@[c].tracks(asgn.asgn@, asgn.counts@.len()));
            }
        }
        Ok(DataView { asgn, cols })
    }

    /// Whether the partition is well formed, every column holds exactly the
    /// statistics that its data and the partition give, and no identifier
    /// occurs twice.
    pub fn validate(&self) -> (valid: bool)
        ensures
            valid == self.wf(),
    {
        if !self.asgn.validate() {
            return false;
        }
        let mut j: usize = 0;
        while j < self.cols.len()
            invariant
                j <= self.cols@.len(),
                self.asgn.wf(),
                forall|i: int|
                    0 <= i < j ==> (#[trigger] self.cols@[i]).tracks(
                        self.asgn.asgn@,
                        self.asgn.counts@.len(),
                    ),
                forall|a: int, b: int|
                    0 <= a < b < j ==> (#[trigger] self.cols@[a]).id
                        != (#[trigger] self.cols@[b]).id,
            decreases self.cols@.len() - j,
        {
            if !self.cols[j].is_consistent(&self.asgn) {
                return false;
            }
            let mut i: usize = 0;
            while i < j
                invariant
                    i <= j,
                    j < self.cols@.len(),
                    forall|a: int|
                        0 <= a < i ==> (#[trigger] self.cols@[a]).id != self.cols@[j as int].id,
                decreases j - i,
            {
                if self.cols[i].id == self.cols[j].id {
                    return false;
                }
                i += 1;
            }
            j += 1;
        }
        true
    }

    /// The number of rows.
    pub fn n_rows(&self) -> (n: usize)
        ensures
            n == self.asgn.asgn@.len(),
    {
        self.asgn.len()
    }

    /// The number of columns.
    pub fn n_cols(&self) -> (n: usize)
        ensures
            n == self.cols@.len(),
    {
        self.cols.len()
    }

    /// The number of row categories.
    pub fn n_cats(&self) -> (k: usize)
        ensures
            k == self.asgn.counts@.len(),
    {
        self.asgn.n_cats()
    }

    /// The place of the column with identifier `id`, if the view holds it.
    pub fn find(&self, id: usize) -> (at: Option<usize>)
        ensures
            at is Some <==> holds_id(self.cols@, id),
            at matches Some(j) ==> j < self.cols@.len() && self.cols@[j as int].id == id,
    {
        let mut j: usize = 0;
        while j < self.cols.len()
            invariant
                j <= self.cols@.len(),
                forall|i: int| 0 <= i < j ==> (#[trigger] self.cols@[i]).id != id,
            decreases self.cols@.len() - j,
        {
            if self.cols[j].id == id {
                return Some(j);
            }
            j += 1;
        }
        None
    }

    /// Whether two rows are in the same category; `None` where one of them
    /// is no row of the view.
    pub fn same_category(&self, row_a: usize, row_b: usize) -> (same: Option<bool>)
        ensures
            same == (if row_a < self.asgn.asgn@.len() && row_b < self.asgn.asgn@.len() {
                Some(self.asgn.asgn@[row_a as int] == self.asgn.asgn@[row_b as int])
            } else {
                None
            }),
    {
        if row_a < self.asgn.asgn.len() && row_b < self.asgn.asgn.len() {
            Some(self.asgn.asgn[row_a] == self.asgn.asgn[row_b])
        } else {
            None
        }
    }

    /// Moves `row` to `category` in every column at once. A `category`
    /// equal to the number of categories opens a new one; a category that
    /// loses its last row is closed, and the categories above it are
    /// renumbered one lower in the partition and in every column alike.
    pub fn reassign_row(&mut self, row: usize, category: usize) -> (res: Result<
        Reassignment,
        ModelError,
    >)
        requires
            old(self).wf(),
        ensures
            final(self).wf(),
            same_columns(old(self).cols@, final(self).cols@),
            row >= old(self).asgn.asgn@.len() ==> res == Err::<Reassignment, ModelError>(
                ModelError::RowOutOfBounds,
            ),
            row < old(self).asgn.asgn@.len() && category > old(self).asgn.counts@.len() ==> res
                == Err::<Reassignment, ModelError>(ModelError::CategoryOutOfBounds),
            row < old(self).asgn.asgn@.len() && category <= old(self).asgn.counts@.len() ==> res
                == Ok::<Reassignment, ModelError>(
                reassignment(
                    old(self).asgn.asgn@,
                    old(self).asgn.counts@.len(),
                    row as int,
                    category,
                ),
            ),
            res is Ok ==> final(self).asgn.asgn@ == reassigned(
                old(self).asgn.asgn@,
                row as int,
                category,
            ),
            res is Err ==> final(self).asgn == old(self).asgn
                && final(self).cols@ == old(self).cols@,
    {
        if row >= self.asgn.asgn.len() {
            return Err(ModelError::RowOutOfBounds);
        }
        if category > self.asgn.counts.len() {
            return Err(ModelError::CategoryOutOfBounds);
        }
        let ghost labels = self.asgn.asgn@;
        let ghost k = self.asgn.counts@.len();
        let ghost after = reassigned(labels, row as int, category);
        let ghost k_after = n_cats_after(k, reassignment(labels, k, row as int, category));
        let mut j: usize = 0;
        while j < self.cols.len()
            invariant
                j <= self.cols@.len(),
                self.asgn.wf(),
                self.asgn.asgn@ == labels,
                self.asgn.counts@.len() == k,
                row < labels.len(),
                category <= k,
                after == reassigned(labels, row as int, category),
                k_after == n_cats_after(k, reassignment(labels, k, row as int, category)),
                same_columns(old(self).cols@, self.cols@),
                forall|i: int| 0 <= i < j ==> (#[trigger] self.cols@[i]).tracks(after, k_after),
                forall|i: int|
                    j <= i < self.cols@.len() ==> (#[trigger] self.cols@[i]).tracks(labels, k),
            decreases self.cols@.len() - j,
        {
            let ghost before = self.cols@;
            let moved = self.cols[j].reassign_row(&self.asgn, row, category);
            assert(moved is Ok);
            proof {
                assert forall|c: int| 0 <= c < self.cols@.len() implies same_cells(
                    #[trigger] old(self).cols@[c],
                    self.cols@[c],
                ) by {
                    assert(same_cells(old(self).cols@[c], before[c]));
                }
            }
            j += 1;
        }
        proof {
            assert forall|a: int, b: int| 0 <= a < b < self.cols@.len() implies (
            #[trigger] self.cols@[a]).id != (#[trigger] self.cols@[b]).id by {
                assert(same_cells(old(self).cols@[a], self.cols@[a]));
                assert(same_cells(old(self).cols@[b], self.cols@[b]));
            }
        }
        match self.asgn.reassign_item(row, category) {
            Ok(change) => Ok(change),
            Err(e) => Err(ModelError::of_rows(e)),
        }
    }

    /// Adds `col` to the view. Its statistics are computed anew for the
    /// view's partition.
    pub fn insert_column(&mut self, col: Column) -> (res: Result<(), ModelError>)
        requires
            old(self).wf(),
        ensures
            final(self).wf(),
            final(self).asgn == old(self).asgn,
            res is Ok <==> in_range(col.data@, col.card as nat)
                && col.data@.len() == old(self).asgn.asgn@.len()
                && !holds_id(old(self).cols@, col.id),
            res is Ok ==> final(self).cols@.len() == old(self).cols@.len() + 1 && same_cells(
                final(self).cols@[old(self).cols@.len() as int],
                col,
            ) && final(self).cols@.take(old(self).cols@.len() as int) == old(self).cols@,
            res is Ok ==> forall|other: usize|
                holds_id(final(self).cols@, other) <==> (other == col.id || holds_id(
                    old(self).cols@,
                    other,
                )),
            res is Ok ==> forall|other: usize, card: usize, data: Seq<Option<u8>>|
                holds_cells(final(self).cols@, other, card, data) <==> (holds_cells(
                    old(self).cols@,
                    other,
                    card,
                    data,
                ) || (other == col.id && card == col.card && data == col.data@)),
            res is Err ==> final(self).asgn == old(self).asgn
                && final(self).cols@ == old(self).cols@,
            !in_range(col.data@, col.card as nat) ==> res == Err::<(), ModelError>(
                ModelError::ValueOutOfRange,
            ),
            in_range(col.data@, col.card as nat) && col.data@.len() != old(self).asgn.asgn@.len()
                ==> res == Err::<(), ModelError>(ModelError::LengthMismatch),
            in_range(col.data@, col.card as nat) && col.data@.len() == old(self).asgn.asgn@.len()
                && holds_id(old(self).cols@, col.id) ==> res == Err::<(), ModelError>(
                ModelError::DuplicateColumn,
            ),
    {
        if !col.values_in_range() {
            return Err(ModelError::ValueOutOfRange);
        }
        if col.len() != self.asgn.len() {
            return Err(ModelError::LengthMismatch);
        }
        if self.find(col.id).is_some() {
            return Err(ModelError::DuplicateColumn);
        }
        let mut col = col;
        let fitted = col.refit(&self.asgn);
        assert(fitted is Ok);
        let ghost before = self.cols@;
        self.cols.push(col);
        proof {
            assert(self.cols@.take(before.len() as int) =~= before);
            assert forall|j: int| 0 <= j
                < self.cols@.len() implies (#[trigger] self.cols@[j]).tracks(
                self.asgn.asgn@,
                self.asgn.counts@.len(),
            ) by {
                if j < before.len() {
                    assert(self.cols@[j] == before[j]);
                }
            }
            assert forall|a: int, b: int| 0 <= a < b < self.cols@.len() implies (
            #[trigger] self.cols@[a]).id != (#[trigger] self.cols@[b]).id by {
                assert(self.cols@[a] == before[a]);
                if b < before.len() {
                    assert(self.cols@[b] == before[b]);
                }
            }
            let fitted = self.cols@[before.len() as int];
            assert(self.cols@ =~= before.push(fitted));
            assert forall|other: usize| holds_id(self.cols@, other) <==> (other == col.id
                || holds_id(before, other)) by {
                lemma_cells_after_push(before, fitted, other, 0, Seq::empty());
            }
            assert forall|other: usize, card: usize, data: Seq<Option<u8>>|
                holds_cells(self.cols@, other, card, data) <==> (holds_cells(
                    before,
                    other,
                    card,
                    data,
                ) || (other == col.id && card == col.card && data == col.data@)) by {
                lemma_cells_after_push(before, fitted, other, card, data);
            }
        }
        Ok(())
    }

    /// Takes the column with identifier `id` out of the view.
    pub fn take_column(&mut self, id: usize) -> (res: Option<Column>)
        requires
            old(self).wf(),
        ensures
            final(self).wf(),
            final(self).asgn == old(self).asgn,
            res is Some <==> holds_id(old(self).cols@, id),
            res is None ==> final(self).cols@ == old(self).cols@,
            !holds_id(final(self).cols@, id),
            forall|other: usize|
                other != id ==> (holds_id(final(self).cols@, other) <==> holds_id(
                    old(self).cols@,
                    other,
                )),
            forall|other: usize, card: usize, data: Seq<Option<u8>>|
                other != id ==> (holds_cells(final(self).cols@, other, card, data) <==> holds_cells(
                    old(self).cols@,
                    other,
                    card,
                    data,
                )),
            res matches Some(col) ==> holds_cells(old(self).cols@, id, col.card, col.data@),
            res matches Some(col) ==> col.id == id && col.tracks(
                old(self).asgn.asgn@,
                old(self).asgn.counts@.len(),
            ) && exists|j: int|
                0 <= j < old(self).cols@.len() && old(self).cols@[j] == col
                    && #[trigger] old(self).cols@.remove(j) == final(self).cols@,
    {
        match self.find(id) {
            Some(j) => {
                let ghost before = self.cols@;
                let col = self.cols.remove(j);
                proof {
                    assert(before.remove(j as int) == self.cols@);
                    assert forall|i: int| 0 <= i < self.cols@.len() implies (
                    #[trigger] self.cols@[i]).tracks(
                        self.asgn.asgn@,
                        self.asgn.counts@.len(),
                    ) by {
                        if i < j {
                            assert(self.cols@[i] == before[i]);
                        } else {
                            assert(self.cols@[i] == before[i + 1]);
                        }
                    }
                    assert forall|a: int, b: int| 0 <= a < b < self.cols@.len() implies (
                    #[trigger] self.cols@[a]).id != (#[trigger] self.cols@[b]).id by {
                        let a0 = if a < j {
                            a
                        } else {
                            a + 1
                        };
                        let b0 = if b < j {
                            b
                        } else {
                            b + 1
                        };
                        assert(self.cols@[a] == before[a0]);
                        assert(self.cols@[b] == before[b0]);
                    }
                    assert(distinct_ids(before));
                    lemma_cells_after_remove(before, j as int, id, 0, Seq::empty());
                    assert forall|other: usize| other != id implies (holds_id(self.cols@, other)
                        <==> holds_id(before, other)) by {
                        lemma_cells_after_remove(before, j as int, other, 0, Seq::empty());
                    }
                    assert forall|other: usize, card: usize, data: Seq<Option<u8>>|
                        other != id implies (holds_cells(self.cols@, other, card, data)
                        <==> holds_cells(before, other, card, data)) by {
                        lemma_cells_after_remove(before, j as int, other, card, data);
                    }
                    assert(holds_cells(before, id, col.card, col.data@));
                }
                Some(col)
            },
            None => None,
        }
    }

    /// Adds a row, in `category`, that holds `values[j]` in the column at
    /// place `j`. A `category` equal to the number of categories opens a
    /// new one.
    pub fn append_row(&mut self, values: &Vec<Option<u8>>, category: usize) -> (res: Result<
        (),
        ModelError,
    >)
        requires
            old(self).wf(),
        ensures
            final(self).wf(),
            final(self).cols@.len() == old(self).cols@.len(),
            values@.len() != old(self).cols@.len() ==> res == Err::<(), ModelError>(
                ModelError::LengthMismatch,
            ),
            values@.len() == old(self).cols@.len() && category > old(self).asgn.counts@.len()
                ==> res == Err::<(), ModelError>(ModelError::CategoryOutOfBounds),
            values@.len() == old(self).cols@.len() && category <= old(self).asgn.counts@.len()
                && !row_in_range(old(self).cols@, values@) ==> res == Err::<(), ModelError>(
                ModelError::ValueOutOfRange,
            ),
            values@.len() == old(self).cols@.len() && category <= old(self).asgn.counts@.len()
                && row_in_range(old(self).cols@, values@) ==> res is Ok,
            res is Ok ==> final(self).asgn.asgn@ == old(self).asgn.asgn@.push(category),
            res is Ok ==> forall|j: int|
                0 <= j < old(self).cols@.len()
                    ==> (#[trigger] final(self).cols@[j]).data@
                    == old(self).cols@[j].data@.push(values@[j])
                    && final(self).cols@[j].id == old(self).cols@[j].id
                    && final(self).cols@[j].card == old(self).cols@[j].card,
            res is Err ==> final(self).asgn == old(self).asgn
                && final(self).cols@ == old(self).cols@,
    {
        let n_cols: usize = self.cols.len();
        if values.len() != n_cols {
            return Err(ModelError::LengthMismatch);
        }
        let k: usize = self.asgn.counts.len();
        if category > k {
            return Err(ModelError::CategoryOutOfBounds);
        }
        let mut j: usize = 0;
        while j < n_cols
            invariant
                j <= n_cols,
                n_cols == self.cols@.len(),
                n_cols == values@.len(),
                *self == *old(self),
                self.wf(),
                k == self.asgn.counts@.len(),
                category <= k,
                forall|i: int|
                    0 <= i < j && (#[trigger] values@[i]) is Some ==> values@[i]->0
                        < self.cols@[i].card,
            decreases n_cols - j,
        {
            match values[j] {
                Some(v) => {
                    if v as usize >= self.cols[j].card {
                        assert(values@[j as int] is Some);
                        return Err(ModelError::ValueOutOfRange);
                    }
                },
                None => {},
            }
            j += 1;
        }
        assert(row_in_range(self.cols@, values@));
        let ghost labels = self.asgn.asgn@;
        let ghost longer = labels.push(category);
        let ghost k_after: nat = if category == k {
            (k + 1) as nat
        } else {
            k as nat
        };
        j = 0;
        while j < n_cols
            invariant
                j <= n_cols,
                n_cols == self.cols@.len(),
                n_cols == values@.len(),
                n_cols == old(self).cols@.len(),
                self.asgn.wf(),
                self.asgn.asgn@ == labels,
                self.asgn.counts@.len() == k,
                category <= k,
                longer == labels.push(category),
                k_after == (if category == k {
                    (k + 1) as nat
                } else {
                    k as nat
                }),
                row_in_range(old(self).cols@, values@),
                forall|i: int|
                    0 <= i < n_cols ==> (#[trigger] self.cols@[i]).id == old(self).cols@[i].id
                        && self.cols@[i].card == old(self).cols@[i].card,
                forall|i: int|
                    0 <= i < j ==> (#[trigger] self.cols@[i]).tracks(longer, k_after)
                        && self.cols@[i].data@ == old(self).cols@[i].data@.push(values@[i]),
                forall|i: int|
                    j <= i < n_cols ==> (#[trigger] self.cols@[i]).tracks(labels, k as nat)
                        && self.cols@[i] == old(self).cols@[i],
            decreases n_cols - j,
        {
            let ghost before = self.cols@;
            assert(values@[j as int] is Some
                ==> values@[j as int]->0 < old(self).cols@[j as int].card);
            assert(before[j as int] == old(self).cols@[j as int]);
            let added = self.cols[j].append(&self.asgn, values[j], category);
            assert(added is Ok);
            proof {

                assert forall|i: int| 0 <= i < n_cols implies (#[trigger] self.cols@[i]).id
                    == old(self).cols@[i].id && self.cols@[i].card == old(self).cols@[i].card by {
                    assert(before[i].id == old(self).cols@[i].id);
                }
                assert forall|i: int| 0 <= i < j + 1 implies (#[trigger] self.cols@[i]).tracks(
                    longer,
                    k_after,
                ) && self.cols@[i].data@ == old(self).cols@[i].data@.push(values@[i]) by {
                    if i < j {
                        assert(before[i].tracks(longer, k_after));
                    }
                }
                assert forall|i: int| j + 1 <= i < n_cols implies (#[trigger] self.cols@[i]).tracks(
                    labels,
                    k as nat,
                ) && self.cols@[i] == old(self).cols@[i] by {
                    assert(before[i].tracks(labels, k as nat));
                }
            }
            j += 1;
        }
        proof {
            assert forall|a: int, b: int| 0 <= a < b < self.cols@.len() implies (
            #[trigger] self.cols@[a]).id != (#[trigger] self.cols@[b]).id by {
                assert(self.cols@[a].id == old(self).cols@[a].id);
                assert(self.cols@[b].id == old(self).cols@[b].id);
            }
        }
        let appended = self.asgn.append_item(category);
        assert(appended is Ok);
        Ok(())
    }

    /// Writes `value` into row `row` of the column with identifier `id`.
    /// Only the statistics of that column, for the row's category, change.
    pub fn overwrite(&mut self, id: usize, row: usize, value: Option<u8>) -> (res: Result<
        (),
        ModelError,
    >)
        requires
            old(self).wf(),
        ensures
            final(self).wf(),
            final(self).asgn == old(self).asgn,
            final(self).cols@.len() == old(self).cols@.len(),
            !holds_id(old(self).cols@, id) ==> res == Err::<(), ModelError>(
                ModelError::UnknownColumn,
            ),
            holds_id(old(self).cols@, id) && row >= old(self).asgn.asgn@.len() ==> res == Err::<
                (),
                ModelError,
            >(ModelError::RowOutOfBounds),
            res is Err ==> final(self).asgn == old(self).asgn
                && final(self).cols@ == old(self).cols@,
            res is Ok ==> holds_id(old(self).cols@, id) && (value is Some ==> forall|j: int|
                0 <= j < old(self).cols@.len() && (#[trigger] old(self).cols@[j]).id == id
                    ==> value->0 < old(self).cols@[j].card),
            res is Ok ==> forall|j: int|
                0 <= j < old(self).cols@.len() ==> (if (#[trigger] old(self).cols@[j]).id == id {
                    final(self).cols@[j].id == id
                        && final(self).cols@[j].card == old(self).cols@[j].card
                        && final(self).cols@[j].data@ == old(self).cols@[j].data@.update(
                        row as int,
                        value,
                    )
                } else {
                    final(self).cols@[j] == old(self).cols@[j]
                }),
            holds_id(old(self).cols@, id) && row < old(self).asgn.asgn@.len() && value is Some
                && value->0 >= column_of(old(self).cols@, id).card ==> res == Err::<
                (),
                ModelError,
            >(ModelError::ValueOutOfRange),
            holds_id(old(self).cols@, id) && row < old(self).asgn.asgn@.len() && (value is Some
                ==> value->0 < column_of(old(self).cols@, id).card) ==> res is Ok,
    {
        match self.find(id) {
            Some(j) => {
                let ghost before = self.cols@;
                proof {
                    lemma_column_at(before, j as int);
                }
                match self.cols[j].overwrite(&self.asgn, row, value) {
                    Ok(()) => {
                        proof {
                            assert forall|i: int|
                                0 <= i < self.cols@.len() && i != j implies #[trigger] self.cols@[i]
                                == before[i] by {}
                            assert forall|i: int| 0 <= i < before.len() && (#[trigger] before[i]).id
                                == id implies i == j by {
                                if i < j {
                                    assert(before[i].id != before[j as int].id);
                                }
                                if j < i {
                                    assert(before[j as int].id != before[i].id);
                                }
                            }
                            assert forall|a: int, b: int|
                                0 <= a < b < self.cols@.len() implies (#[trigger] self.cols@[a]).id
                                != (#[trigger] self.cols@[b]).id by {
                                assert(self.cols@[a].id == before[a].id);
                                assert(self.cols@[b].id == before[b].id);
                            }
                            assert forall|i: int| 0 <= i < self.cols@.len() implies (
                            #[trigger] self.cols@[i]).tracks(
                                self.asgn.asgn@,
                                self.asgn.counts@.len(),
                            ) by {
                                if i != j {
                                    assert(self.cols@[i] == before[i]);
                                }
                            }
                        }
                        Ok(())
                    },
                    Err(e) => {
                        proof {
                            assert(self.cols@ =~= before);
                        }
                        Err(ModelError::of_cell(e))
                    },
                }
            },
            None => Err(ModelError::UnknownColumn),
        }
    }
}

} // verus!
