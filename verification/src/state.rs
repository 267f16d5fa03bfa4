//! A state: a partition of the columns into views, and the views.
//!
//! Columns move between views as a unit. Every column is held by exactly
//! one view, the one that the column partition names for it.

use crate::assignment::{
    count_of, has_label, reassigned, reassignment, relabeled, Assignment, Reassignment,
};
use crate::column::{in_range, Column};
use crate::counting::lemma_count_one;
use crate::dataview::{
    column_of, distinct_ids, holds_cells, holds_id, lemma_cells_of_same_columns, lemma_column_at,
    place_of, DataView,
};
use crate::error::ModelError;
use vstd::prelude::*;

verus! {

/// Every column of `cols` is a column of the partition `labels`, which
/// names the view `v` for it.
pub open spec fn homed(cols: Seq<Column>, v: int, labels: Seq<usize>) -> bool {
    forall|id: usize| #[trigger] holds_id(cols, id) ==> id < labels.len() && labels[id as int] == v
}

/// The column partition `asgn` and the `views` make up a state: there is
/// one view for each category of columns, all views have the same number of
/// rows, and each column is held by the view that the partition names for
/// it, and by no other.
pub open spec fn parts_wf(asgn: Assignment, views: Seq<DataView>) -> bool {
    &&& asgn.wf()
    &&& views.len() == asgn.counts@.len()
    &&& forall|v: int|
        0 <= v < views.len() ==> (#[trigger] views[v]).wf() && views[v].asgn.asgn@.len()
            == views[0].asgn.asgn@.len() && homed(views[v].cols@, v, asgn.asgn@)
    &&& forall|c: int|
        0 <= c < asgn.asgn@.len() ==> holds_id(
            views[(#[trigger] asgn.asgn@[c]) as int].cols@,
            c as usize,
        )
}

/// Two lists of views agree, place by place, in row partition and columns.
pub open spec fn same_views(first: Seq<DataView>, second: Seq<DataView>) -> bool {
    &&& first.len() == second.len()
    &&& forall|v: int|
        0 <= v < first.len() ==> (#[trigger] first[v]).asgn == second[v].asgn && first[v].cols@
            == second[v].cols@
}

/// Among columns with distinct identifiers, an identifier has one
/// cardinality and one data vector.
pub proof fn lemma_cells_unique(
    cols: Seq<Column>,
    id: usize,
    card: usize,
    data: Seq<Option<u8>>,
    other_card: usize,
    other_data: Seq<Option<u8>>,
)
    requires
        distinct_ids(cols),
        holds_cells(cols, id, card, data),
        holds_cells(cols, id, other_card, other_data),
    ensures
        card == other_card,
        data == other_data,
{
    let i = choose|i: int|
        0 <= i < cols.len() && (#[trigger] cols[i]).id == id && cols[i].card == card
            && cols[i].data@ == data;
    let j = choose|j: int|
        0 <= j < cols.len() && (#[trigger] cols[j]).id == id && cols[j].card == other_card
            && cols[j].data@ == other_data;
    if i < j {
        assert(cols[i].id != cols[j].id);
    }
    if j < i {
        assert(cols[j].id != cols[i].id);
    }
}

/// Whether `asgn` and `views` make up a state.
pub fn check_parts(asgn: &Assignment, views: &Vec<DataView>) -> (res: Result<(), ModelError>)
    ensures
        res is Ok <==> parts_wf(*asgn, views@),
        res matches Err(e) ==> e == ModelError::InvalidPartition || e
            == ModelError::LengthMismatch || e == ModelError::UnknownColumn,
        res == Err::<(), ModelError>(ModelError::InvalidPartition) ==> !asgn.wf() || exists|v: int|
            0 <= v < views@.len() && !(#[trigger] views@[v]).wf(),
        res == Err::<(), ModelError>(ModelError::LengthMismatch) ==> asgn.wf() && (views@.len()
            != asgn.counts@.len() || exists|v: int|
            0 <= v < views@.len() && (#[trigger] views@[v]).asgn.asgn@.len()
                != views@[0].asgn.asgn@.len()),
        res == Err::<(), ModelError>(ModelError::UnknownColumn) ==> asgn.wf() && views@.len()
            == asgn.counts@.len() && ((exists|v: int|
            0 <= v < views@.len() && !homed((#[trigger] views@[v]).cols@, v, asgn.asgn@)) || (
        exists|c: int|
            0 <= c < asgn.asgn@.len() && !holds_id(
                views@[(#[trigger] asgn.asgn@[c]) as int].cols@,
                c as usize,
            ))),
        !asgn.wf() ==> res == Err::<(), ModelError>(ModelError::InvalidPartition),
        asgn.wf() && views@.len() != asgn.counts@.len() ==> res == Err::<(), ModelError>(
            ModelError::LengthMismatch,
        ),
{
    if !asgn.validate() {
        return Err(ModelError::InvalidPartition);
    }
    let k: usize = views.len();
    if k != asgn.n_cats() {
        return Err(ModelError::LengthMismatch);
    }
    let n_cols: usize = asgn.len();
    let mut v: usize = 0;
    while v < k
        invariant
            v <= k,
            k == views@.len(),
            k == asgn.counts@.len(),
            n_cols == asgn.asgn@.len(),
            asgn.wf(),
            forall|u: int|
                0 <= u < v ==> (#[trigger] views@[u]).wf() && views@[u].asgn.asgn@.len()
                    == views@[0].asgn.asgn@.len() && homed(views@[u].cols@, u, asgn.asgn@),
        decreases k - v,
    {
        if !views[v].validate() {
            return Err(ModelError::InvalidPartition);
        }
        if views[v].n_rows() != views[0].n_rows() {
            return Err(ModelError::LengthMismatch);
        }
        let n_held: usize = views[v].cols.len();
        let mut j: usize = 0;
        while j < n_held
            invariant
                j <= n_held,
                v < k,
                k == views@.len(),
                n_held == views@[v as int].cols@.len(),
                n_cols == asgn.asgn@.len(),
                k == asgn.counts@.len(),
                asgn.wf(),
                forall|i: int|
                    0 <= i < j ==> (#[trigger] views@[v as int].cols@[i]).id < n_cols
                        && asgn.asgn@[views@[v as int].cols@[i].id as int] == v,
            decreases n_held - j,
        {
            let id: usize = views[v].cols[j].id;
            if id >= n_cols {
                proof {
                    assert(views@[v as int].cols@[j as int].id == id);
                    assert(holds_id(views@[v as int].cols@, id));
                }
                return Err(ModelError::UnknownColumn);
            }
            if asgn.asgn[id] != v {
                proof {
                    assert(views@[v as int].cols@[j as int].id == id);
                    assert(holds_id(views@[v as int].cols@, id));
                }
                return Err(ModelError::UnknownColumn);
            }
            j += 1;
        }
        proof {
            let cols = views@[v as int].cols@;
            assert forall|id: usize| #[trigger] holds_id(cols, id) implies id < n_cols
                && asgn.asgn@[id as int] == v by {
                let i = choose|i: int| 0 <= i < cols.len() && (#[trigger] cols[i]).id == id;
                assert(cols[i].id < n_cols);
            }
        }
        v += 1;
    }
    let mut c: usize = 0;
    while c < n_cols
        invariant
            c <= n_cols,
            k == views@.len(),
            k == asgn.counts@.len(),
            n_cols == asgn.asgn@.len(),
            asgn.wf(),
            forall|d: int|
                0 <= d < c ==> holds_id(
                    views@[(#[trigger] asgn.asgn@[d]) as int].cols@,
                    d as usize,
                ),
        decreases n_cols - c,
    {
        let home: usize = asgn.asgn[c];
        assert(asgn.asgn@[c as int] < k);
        if views[home].find(c).is_none() {
            return Err(ModelError::UnknownColumn);
        }
        c += 1;
    }
    Ok(())
}

/// Closing a view that no column is in: the views above it move down by
/// one place, and so do the labels of their columns, so that every column
/// is still held by the view that its label names.
pub proof fn lemma_view_closed(moved: Seq<usize>, views: Seq<DataView>, gone: int, n_rows: nat)
    requires
        0 <= gone < views.len(),
        forall|i: int| 0 <= i < moved.len() ==> #[trigger] moved[i] != gone,
        forall|i: int| 0 <= i < moved.len() ==> #[trigger] moved[i] < views.len(),
        forall|v: int|
            0 <= v < views.len() ==> (#[trigger] views[v]).wf() && views[v].asgn.asgn@.len()
                == n_rows && homed(views[v].cols@, v, moved),
        forall|c: int|
            0 <= c < moved.len() ==> holds_id(
                views[(#[trigger] moved[c]) as int].cols@,
                c as usize,
            ),
    ensures
        forall|v: int|
            0 <= v < views.remove(gone).len() ==> (#[trigger] views.remove(gone)[v]).wf()
                && views.remove(gone)[v].asgn.asgn@.len() == n_rows && homed(
                views.remove(gone)[v].cols@,
                v,
                relabeled(moved, gone),
            ),
        forall|c: int|
            0 <= c < moved.len() ==> views.remove(gone)[(#[trigger] relabeled(
                moved,
                gone,
            )[c]) as int] == views[moved[c] as int],
        forall|c: int|
            0 <= c < moved.len() ==> holds_id(
                views.remove(gone)[(#[trigger] relabeled(moved, gone)[c]) as int].cols@,
                c as usize,
            ),
{
    let rest = views.remove(gone);
    let last = relabeled(moved, gone);
    assert forall|v: int| 0 <= v < rest.len() implies (#[trigger] rest[v]).wf()
        && rest[v].asgn.asgn@.len() == n_rows && homed(rest[v].cols@, v, last) by {
        let v1 = if v < gone {
            v
        } else {
            v + 1
        };
        assert(rest[v] == views[v1]);
        assert(views[v1].wf());
        assert forall|id: usize| #[trigger] holds_id(rest[v].cols@, id) implies id < last.len()
            && last[id as int] == v by {
            assert(holds_id(views[v1].cols@, id));
            assert(moved[id as int] == v1);
        }
    }
    assert forall|c: int| 0 <= c < moved.len() implies rest[(#[trigger] last[c]) as int]
        == views[moved[c] as int] && holds_id(rest[last[c] as int].cols@, c as usize) by {
        let v1 = moved[c] as int;
        assert(v1 != gone);
        assert(holds_id(views[v1].cols@, c as usize));
    }
}

/// A partition of the columns into views, with the views.
#[derive(Debug, PartialEq, Eq)]
pub struct State {
    /// The view of each column.
    pub asgn: Assignment,
    /// The views.
    pub views: Vec<DataView>,
}

impl State {
    /// The column partition and the views make up a state.
    pub open spec fn wf(&self) -> bool {
        parts_wf(self.asgn, self.views@)
    }

    /// The number of rows; zero for a state without views.
    pub open spec fn rows(&self) -> nat {
        if self.views@.len() > 0 {
            self.views@[0].asgn.asgn@.len()
        } else {
            0
        }
    }

    /// The row partition of the view that holds column `c`.
    pub open spec fn rows_of(&self, c: int) -> Seq<usize> {
        self.views@[self.asgn.asgn@[c] as int].asgn.asgn@
    }

    /// The state holds a column `c` with cardinality `card` and data
    /// `data`.
    pub open spec fn has_column(&self, c: usize, card: usize, data: Seq<Option<u8>>) -> bool {
        c < self.asgn.asgn@.len() && holds_cells(
            self.views@[self.asgn.asgn@[c as int] as int].cols@,
            c,
            card,
            data,
        )
    }

    /// The column with identifier `c`.
    pub open spec fn column(&self, c: usize) -> Column {
        column_of(self.views@[self.asgn.asgn@[c as int] as int].cols@, c)
    }

    /// A row with the value `values[c]` for column `c`, which joins the
    /// category `categories[v]` in view `v`, can be added to the state.
    pub open spec fn row_fits(&self, values: Seq<Option<u8>>, categories: Seq<usize>) -> bool {
        &&& values.len() == self.asgn.asgn@.len()
        &&& categories.len() == self.views@.len()
        &&& forall|v: int|
            0 <= v < self.views@.len() ==> #[trigger] categories[v]
                <= self.views@[v].asgn.counts@.len()
        &&& forall|c: int|
            0 <= c < self.asgn.asgn@.len() && (#[trigger] values[c]) is Some ==> values[c]->0
                < self.column(c as usize).card
    }

    /// In each view the category named for a new row is an existing one or
    /// the next new one.
    pub open spec fn categories_fit(&self, categories: Seq<usize>) -> bool {
        forall|v: int|
            0 <= v < self.views@.len() && v < categories.len() ==> #[trigger] categories[v]
                <= self.views@[v].asgn.counts@.len()
    }

    /// The state made of the column partition `asgn` and `views`.
    pub fn new(asgn: Assignment, views: Vec<DataView>) -> (res: Result<State, ModelError>)
        ensures
            res is Ok <==> parts_wf(asgn, views@),
            res matches Ok(state) ==> state.asgn == asgn && state.views == views,
            res matches Err(e) ==> e == ModelError::InvalidPartition || e
                == ModelError::LengthMismatch || e == ModelError::UnknownColumn,
            res == Err::<State, ModelError>(ModelError::InvalidPartition) ==> !asgn.wf()
                || exists|v: int| 0 <= v < views@.len() && !(#[trigger] views@[v]).wf(),
            res == Err::<State, ModelError>(ModelError::LengthMismatch) ==> asgn.wf() && (
            views@.len() != asgn.counts@.len() || exists|v: int|
                0 <= v < views@.len() && (#[trigger] views@[v]).asgn.asgn@.len()
                    != views@[0].asgn.asgn@.len()),
            res == Err::<State, ModelError>(ModelError::UnknownColumn) ==> asgn.wf()
                && views@.len() == asgn.counts@.len() && ((exists|v: int|
                0 <= v < views@.len() && !homed((#[trigger] views@[v]).cols@, v, asgn.asgn@)) || (
            exists|c: int|
                0 <= c < asgn.asgn@.len() && !holds_id(
                    views@[(#[trigger] asgn.asgn@[c]) as int].cols@,
                    c as usize,
                ))),
            !asgn.wf() ==> res == Err::<State, ModelError>(ModelError::InvalidPartition),
            asgn.wf() && views@.len() != asgn.counts@.len() ==> res == Err::<State, ModelError>(
                ModelError::LengthMismatch,
            ),
    {
        match check_parts(&asgn, &views) {
            Ok(()) => Ok(State { asgn, views }),
            Err(e) => Err(e),
        }
    }

    /// Whether the column partition and the views make up a state.
    pub fn validate(&self) -> (valid: bool)
        ensures
            valid == self.wf(),
    {
        check_parts(&self.asgn, &self.views).is_ok()
    }

    /// The number of rows; zero for a state without views.
    pub fn n_rows(&self) -> (n: usize)
        ensures
            n == self.rows(),
    {
        if self.views.len() > 0 {
            self.views[0].n_rows()
        } else {
            0
        }
    }

    /// The number of columns.
    pub fn n_cols(&self) -> (n: usize)
        ensures
            n == self.asgn.asgn@.len(),
    {
        self.asgn.len()
    }

    /// The number of views.
    pub fn n_views(&self) -> (k: usize)
        ensures
            k == self.views@.len(),
    {
        self.views.len()
    }

    /// The view of column `col`, if there is such a column.
    pub fn view_of(&self, col: usize) -> (view: Option<usize>)
        ensures
            view == (if col < self.asgn.asgn@.len() {
                Some(self.asgn.asgn@[col as int])
            } else {
                None
            }),
    {
        self.asgn.category_of(col)
    }

    /// Whether two columns are in the same view; `None` where one of them
    /// is no column of the state.
    pub fn same_view(&self, col_a: usize, col_b: usize) -> (same: Option<bool>)
        ensures
            same == (if col_a < self.asgn.asgn@.len() && col_b < self.asgn.asgn@.len() {
                Some(self.asgn.asgn@[col_a as int] == self.asgn.asgn@[col_b as int])
            } else {
                None
            }),
    {
        if col_a < self.asgn.asgn.len() && col_b < self.asgn.asgn.len() {
            Some(self.asgn.asgn[col_a] == self.asgn.asgn[col_b])
        } else {
            None
        }
    }

    /// The cardinality of column `col`, if there is such a column.
    pub fn card_of(&self, col: usize) -> (card: Option<usize>)
        requires
            self.wf(),
        ensures
            card == (if col < self.asgn.asgn@.len() {
                Some(self.column(col).card)
            } else {
                None
            }),
    {
        if col >= self.asgn.asgn.len() {
            return None;
        }
        let home: usize = self.asgn.asgn[col];
        assert(self.asgn.asgn@[col as int] < self.views@.len());
        assert(self.views@[home as int].wf());
        assert(holds_id(self.views@[home as int].cols@, col));
        match self.views[home].find(col) {
            Some(j) => {
                proof {
                    lemma_column_at(self.views@[home as int].cols@, j as int);
                }
                Some(self.views[home].cols[j].card)
            },
            None => None,
        }
    }

    /// The value of column `col` in row `row`: `None` where there is no
    /// such cell, `Some(None)` where the value is missing.
    pub fn get(&self, col: usize, row: usize) -> (cell: Option<Option<u8>>)
        requires
            self.wf(),
        ensures
            cell == (if col < self.asgn.asgn@.len() && row < self.rows() {
                Some(self.column(col).data@[row as int])
            } else {
                None
            }),
    {
        if col >= self.asgn.asgn.len() {
            return None;
        }
        let home: usize = self.asgn.asgn[col];
        proof {
            assert(self.asgn.asgn@[col as int] < self.views@.len());
            assert(self.views@[home as int].wf());
            assert(self.views@[0].wf());
            assert(holds_id(self.views@[home as int].cols@, col));
        }
        match self.views[home].find(col) {
            Some(j) => {
                proof {
                    lemma_column_at(self.views@[home as int].cols@, j as int);
                    assert(self.views@[home as int].cols@[j as int].tracks(
                        self.views@[home as int].asgn.asgn@,
                        self.views@[home as int].asgn.counts@.len(),
                    ));
                }
                self.views[home].cols[j].get(row)
            },
            None => None,
        }
    }

    /// Whether a row with the value `values[c]` for column `c`, which
    /// joins the category `categories[v]` in view `v`, can be added.
    pub fn check_row(&self, values: &Vec<Option<u8>>, categories: &Vec<usize>) -> (res: Result<
        (),
        ModelError,
    >)
        requires
            self.wf(),
        ensures
            res is Ok <==> self.row_fits(values@, categories@),
            values@.len() != self.asgn.asgn@.len() || categories@.len() != self.views@.len()
                ==> res == Err::<(), ModelError>(ModelError::LengthMismatch),
            values@.len() == self.asgn.asgn@.len() && categories@.len() == self.views@.len()
                && !self.categories_fit(categories@) ==> res == Err::<(), ModelError>(
                ModelError::CategoryOutOfBounds,
            ),
            values@.len() == self.asgn.asgn@.len() && categories@.len() == self.views@.len()
                && self.categories_fit(categories@) && !self.row_fits(values@, categories@)
                ==> res == Err::<(), ModelError>(ModelError::ValueOutOfRange),
    {
        let n_cols: usize = self.asgn.asgn.len();
        let k: usize = self.views.len();
        if values.len() != n_cols || categories.len() != k {
            return Err(ModelError::LengthMismatch);
        }
        let mut v: usize = 0;
        while v < k
            invariant
                v <= k,
                k == self.views@.len(),
                k == categories@.len(),
                n_cols == self.asgn.asgn@.len(),
                n_cols == values@.len(),
                forall|u: int|
                    0 <= u < v ==> #[trigger] categories@[u] <= self.views@[u].asgn.counts@.len(),
            decreases k - v,
        {
            if categories[v] > self.views[v].n_cats() {
                return Err(ModelError::CategoryOutOfBounds);
            }
            v += 1;
        }
        let mut c: usize = 0;
        while c < n_cols
            invariant
                c <= n_cols,
                self.wf(),
                n_cols == self.asgn.asgn@.len(),
                n_cols == values@.len(),
                k == self.views@.len(),
                k == categories@.len(),
                forall|u: int|
                    0 <= u < k ==> #[trigger] categories@[u] <= self.views@[u].asgn.counts@.len(),
                forall|d: int|
                    0 <= d < c && (#[trigger] values@[d]) is Some ==> values@[d]->0 < self.column(
                        d as usize,
                    ).card,
            decreases n_cols - c,
        {
            match values[c] {
                Some(x) => {
                    match self.card_of(c) {
                        Some(card) => {
                            if x as usize >= card {
                                assert(values@[c as int] is Some);
                                return Err(ModelError::ValueOutOfRange);
                            }
                        },
                        None => {},
                    }
                },
                None => {},
            }
            c += 1;
        }
        Ok(())
    }

    /// Adds a row with the value `values[c]` for column `c`. In view `v`
    /// the row joins the category `categories[v]`, which may be the next
    /// new one.
    pub fn append_row(&mut self, values: &Vec<Option<u8>>, categories: &Vec<usize>) -> (res: Result<
        (),
        ModelError,
    >)
        requires
            old(self).wf(),
        ensures
            final(self).wf(),
            final(self).asgn == old(self).asgn,
            final(self).views@.len() == old(self).views@.len(),
            res is Ok <==> old(self).row_fits(values@, categories@),
            values@.len() != old(self).asgn.asgn@.len()
                || categories@.len() != old(self).views@.len()
                ==> res == Err::<(), ModelError>(ModelError::LengthMismatch),
            values@.len() == old(self).asgn.asgn@.len()
                && categories@.len() == old(self).views@.len()
                && !old(self).categories_fit(categories@) ==> res == Err::<
                (),
                ModelError,
            >(ModelError::CategoryOutOfBounds),
            values@.len() == old(self).asgn.asgn@.len()
                && categories@.len() == old(self).views@.len()
                && old(self).categories_fit(categories@) && !old(self).row_fits(
                values@,
                categories@,
            ) ==> res == Err::<(), ModelError>(ModelError::ValueOutOfRange),
            res is Err ==> final(self).views@ == old(self).views@,
            res is Ok ==> forall|v: int|
                0 <= v < old(self).views@.len() ==> (#[trigger] final(self).views@[v]).asgn.asgn@
                    == old(self).views@[v].asgn.asgn@.push(categories@[v]),
            res is Ok ==> forall|c: usize, card: usize, data: Seq<Option<u8>>|
                old(self).has_column(c, card, data) ==> final(self).has_column(
                    c,
                    card,
                    data.push(values@[c as int]),
                ),
    {
        match self.check_row(values, categories) {
            Ok(()) => {},
            Err(e) => {
                return Err(e);
            },
        }
        let k: usize = self.views.len();
        let ghost before = self.views@;
        let ghost labels = self.asgn.asgn@;
        let mut v: usize = 0;
        while v < k
            invariant
                v <= k,
                k == before.len(),
                k == self.views@.len(),
                before == old(self).views@,
                labels == self.asgn.asgn@,
                self.asgn == old(self).asgn,
                old(self).wf(),
                old(self).row_fits(values@, categories@),
                forall|u: int| v <= u < k ==> #[trigger] self.views@[u] == before[u],
                forall|u: int|
                    0 <= u < v ==> (#[trigger] self.views@[u]).wf() && self.views@[u].asgn.asgn@
                        == before[u].asgn.asgn@.push(categories@[u]) && self.views@[u].cols@.len()
                        == before[u].cols@.len(),
                forall|u: int, j: int|
                    0 <= u < v && 0 <= j < before[u].cols@.len() ==> (
                    #[trigger] self.views@[u].cols@[j]).id == before[u].cols@[j].id
                        && self.views@[u].cols@[j].card == before[u].cols@[j].card
                        && self.views@[u].cols@[j].data@ == before[u].cols@[j].data@.push(
                        values@[before[u].cols@[j].id as int],
                    ),
            decreases k - v,
        {
            let ghost held = before[v as int].cols@;
            assert(before[v as int].wf());
            let n_held: usize = self.views[v].cols.len();
            let mut row: Vec<Option<u8>> = Vec::new();
            let mut j: usize = 0;
            while j < n_held
                invariant
                    j <= n_held,
                    v < k,
                    k == self.views@.len(),
                    k == before.len(),
                    self.views@[v as int] == before[v as int],
                    held == before[v as int].cols@,
                    n_held == held.len(),
                    before == old(self).views@,
                    labels == old(self).asgn.asgn@,
                    old(self).wf(),
                    old(self).row_fits(values@, categories@),
                    row@.len() == j,
                    values@.len() == labels.len(),
                    forall|i: int| 0 <= i < j ==> (#[trigger] held[i]).id < values@.len(),
                    forall|i: int| 0 <= i < j ==> #[trigger] row@[i] == values@[held[i].id as int],
                decreases n_held - j,
            {
                let id: usize = self.views[v].cols[j].id;
                proof {
                    assert(held[j as int].id == id);
                    assert(holds_id(held, id));
                    assert(old(self).views@[v as int].wf());
                    assert(homed(held, v as int, labels));
                    assert(id < labels.len());
                }
                let ghost shorter = row@;
                row.push(values[id]);
                proof {
                    assert forall|i: int| 0 <= i < j + 1 implies #[trigger] row@[i]
                        == values@[held[i].id as int] by {
                        if i < j {
                            assert(shorter[i] == values@[held[i].id as int]);
                        }
                    }
                }
                j += 1;
            }
            proof {
                assert forall|i: int|
                    0 <= i < held.len() && i < row@.len()
                        && (#[trigger] row@[i]) is Some implies row@[i]->0 < held[i].card by {
                    let id = held[i].id;
                    assert(holds_id(held, id));
                    lemma_column_at(held, i);
                    assert(labels[id as int] == v);
                    assert(values@[id as int] is Some);
                    assert(old(self).column(id) == held[i]);
                }
            }
            let ghost earlier = self.views@;
            let added = self.views[v].append_row(&row, categories[v]);
            assert(added is Ok);
            proof {
                assert forall|u: int| 0 <= u < k && u != v implies #[trigger] self.views@[u]
                    == earlier[u] by {}
                assert forall|u: int, j: int|
                    0 <= u < v + 1 && 0 <= j < before[u].cols@.len() implies (
                #[trigger] self.views@[u].cols@[j]).id == before[u].cols@[j].id
                    && self.views@[u].cols@[j].card == before[u].cols@[j].card
                    && self.views@[u].cols@[j].data@ == before[u].cols@[j].data@.push(
                    values@[before[u].cols@[j].id as int],
                ) by {
                    if u < v {
                        assert(self.views@[u] == earlier[u]);
                        assert(earlier[u].cols@[j].id == before[u].cols@[j].id);
                    } else {
                        assert(self.views@[v as int].cols@[j].id == held[j].id);
                    }
                }
            }
            v += 1;
        }
        proof {
            let after = self.views@;
            assert forall|u: int, id: usize, card: usize, data: Seq<Option<u8>>|
                0 <= u < k && holds_cells(before[u].cols@, id, card,
                    data) implies #[trigger] holds_cells(
                after[u].cols@,
                id,
                card,
                data.push(values@[id as int]),
            ) by {
                let j = choose|j: int|
                    0 <= j < before[u].cols@.len() && (#[trigger] before[u].cols@[j]).id == id
                        && before[u].cols@[j].card == card && before[u].cols@[j].data@ == data;
                assert(after[u].cols@[j].id == id);
            }
            assert forall|u: int, id: usize| 0 <= u < k implies (holds_id(after[u].cols@, id)
                <==> #[trigger] holds_id(before[u].cols@, id)) by {
                if holds_id(after[u].cols@, id) {
                    let j = choose|j: int|
                        0 <= j < after[u].cols@.len() && (#[trigger] after[u].cols@[j]).id == id;
                    assert(before[u].cols@[j].id == id);
                }
                if holds_id(before[u].cols@, id) {
                    let j = choose|j: int|
                        0 <= j < before[u].cols@.len() && (#[trigger] before[u].cols@[j]).id == id;
                    assert(after[u].cols@[j].id == id);
                }
            }
            assert forall|u: int| 0 <= u < after.len() implies (#[trigger] after[u]).wf()
                && after[u].asgn.asgn@.len() == after[0].asgn.asgn@.len() && homed(
                after[u].cols@,
                u,
                labels,
            ) by {
                assert(before[u].wf());
                assert(before[0].wf());
                assert(after[0].wf());
                assert forall|id: usize| #[trigger] holds_id(after[u].cols@, id) implies id
                    < labels.len() && labels[id as int] == u by {
                    assert(holds_id(before[u].cols@, id));
                }
            }
            assert forall|c: int| 0 <= c < labels.len() implies holds_id(
                after[(#[trigger] labels[c]) as int].cols@,
                c as usize,
            ) by {
                assert(holds_id(before[labels[c] as int].cols@, c as usize));
            }
            assert forall|c: usize, card: usize, data: Seq<Option<u8>>|
                old(self).has_column(c, card, data) implies self.has_column(
                c,
                card,
                data.push(values@[c as int]),
            ) by {
                let home = labels[c as int] as int;
                assert(holds_cells(before[home].cols@, c, card, data));
                assert(holds_cells(after[home].cols@, c, card, data.push(values@[c as int])));
            }
        }
        Ok(())
    }

    /// Adds `column` to the state, in the view `target`. The column's
    /// identifier is the number of columns so far. A `target` equal to the
    /// number of views opens a new view, whose row partition is `fresh` or,
    /// where `fresh` is `None`, the one that puts all rows together.
    pub fn append_column(&mut self, column: Column, target: usize,
        fresh: Option<Assignment>) -> (res:
        Result<(), ModelError>)
        requires
            old(self).wf(),
        ensures
            final(self).wf(),
            column.id != old(self).asgn.asgn@.len() ==> res == Err::<(), ModelError>(
                ModelError::UnknownColumn,
            ),
            column.id == old(self).asgn.asgn@.len() && target > old(self).views@.len() ==> res
                == Err::<(), ModelError>(ModelError::ViewOutOfBounds),
            column.id == old(self).asgn.asgn@.len() && target <= old(self).views@.len()
                && !in_range(column.data@, column.card as nat) ==> res == Err::<(), ModelError>(
                ModelError::ValueOutOfRange,
            ),
            column.id == old(self).asgn.asgn@.len() && target <= old(self).views@.len()
                && in_range(column.data@, column.card as nat) && old(self).views@.len() > 0
                && column.data@.len() != old(self).rows() ==> res == Err::<(), ModelError>(
                ModelError::LengthMismatch,
            ),
            res is Ok <==> column.id == old(self).asgn.asgn@.len()
                && target <= old(self).views@.len()
                && in_range(column.data@, column.card as nat)
                && (old(self).views@.len() > 0
                ==> column.data@.len() == old(self).rows())
                && (target == old(self).views@.len() && fresh is Some
                ==> fresh->0.wf() && fresh->0.asgn@.len() == column.data@.len()),
            res matches Err(e) ==> e == ModelError::UnknownColumn || e
                == ModelError::ViewOutOfBounds || e == ModelError::ValueOutOfRange || e
                == ModelError::LengthMismatch || e == ModelError::InvalidPartition,
            res is Ok ==> final(self).asgn.asgn@ == old(self).asgn.asgn@.push(target),
            res is Ok ==> final(self).has_column(column.id, column.card, column.data@),
            res is Ok ==> final(self).rows() == column.data@.len(),
            res is Ok ==> forall|c: usize, card: usize, data: Seq<Option<u8>>|
                old(self).has_column(c, card, data) ==> final(self).has_column(c, card, data),
            res is Ok ==> forall|v: int|
                0 <= v < old(self).views@.len()
                    ==> (#[trigger] final(self).views@[v]).asgn == old(self).views@[v].asgn,
            res is Ok && target == old(self).views@.len()
                ==> final(self).views@[target as int].asgn.asgn@ == (if fresh is Some {
                fresh->0.asgn@
            } else {
                Seq::new(column.data@.len(), |i: int| 0usize)
            }),
            res is Err ==> final(self).asgn == old(self).asgn
                && final(self).views@ == old(self).views@,
    {
        let n_cols: usize = self.asgn.asgn.len();
        if column.id != n_cols {
            return Err(ModelError::UnknownColumn);
        }
        let k: usize = self.views.len();
        if target > k {
            return Err(ModelError::ViewOutOfBounds);
        }
        if !column.values_in_range() {
            return Err(ModelError::ValueOutOfRange);
        }
        let n_rows: usize = column.len();
        if k > 0 && self.views[0].n_rows() != n_rows {
            return Err(ModelError::LengthMismatch);
        }
        let ghost labels = self.asgn.asgn@;
        let ghost views0 = self.views@;
        let ghost longer = labels.push(target);
        if target == k {
            let rows = match fresh {
                Some(a) => {
                    if !a.validate() {
                        return Err(ModelError::InvalidPartition);
                    }
                    if a.len() != n_rows {
                        return Err(ModelError::LengthMismatch);
                    }
                    a
                },
                None => Assignment::flat(n_rows),
            };
            self.views.push(DataView { asgn: rows, cols: Vec::new() });
            proof {
                let opened = self.views@[k as int];
                assert(opened.wf());
                assert forall|id: usize| !holds_id(opened.cols@, id) by {}
            }
        }
        let ghost views_a = self.views@;
        proof {
            assert forall|v: int| 0 <= v < k implies #[trigger] views_a[v] == views0[v] by {}
            if target < k {
                assert(views0[target as int].wf());
                assert(views0[0].wf());
                if holds_id(views0[target as int].cols@, column.id) {
                    assert(column.id < labels.len());
                }
            }
            assert(!holds_id(views_a[target as int].cols@, column.id));
        }
        match self.views[target].insert_column(column) {
            Ok(()) => {},
            Err(e) => {
                return Err(e);
            },
        }
        let ghost views1 = self.views@;
        match self.asgn.append_item(target) {
            Ok(()) => {},
            Err(e) => {
                return Err(ModelError::of_rows(e));
            },
        }
        proof {
            assert(self.asgn.asgn@ == longer);
            assert forall|v: int| 0 <= v < views_a.len() && v != target implies #[trigger] views1[v]
                == views_a[v] by {}
            assert forall|v: int| 0 <= v < views1.len() implies (#[trigger] views1[v]).wf()
                && views1[v].asgn.asgn@.len() == views1[0].asgn.asgn@.len() && homed(
                views1[v].cols@,
                v,
                longer,
            ) by {
                if v < k {
                    assert(views0[v].wf());
                }
                if k > 0 {
                    assert(views0[0].wf());
                }
                assert(views1[0].wf());
                assert(views1[v].asgn.asgn@.len() == n_rows);
                assert(views1[0].asgn.asgn@.len() == n_rows);
                assert forall|id: usize| #[trigger] holds_id(views1[v].cols@, id) implies id
                    < longer.len() && longer[id as int] == v by {
                    if id != n_cols {
                        assert(holds_id(views_a[v].cols@, id));
                        assert(v < k);
                        assert(holds_id(views0[v].cols@, id));
                        assert(longer[id as int] == labels[id as int]);
                    }
                }
            }
            assert forall|c: int| 0 <= c < longer.len() implies holds_id(
                views1[(#[trigger] longer[c]) as int].cols@,
                c as usize,
            ) by {
                if c < labels.len() {
                    assert(longer[c] == labels[c]);
                    assert(holds_id(views0[labels[c] as int].cols@, c as usize));
                }
            }
            assert forall|c: usize, card: usize, data: Seq<Option<u8>>|
                old(self).has_column(c, card, data) implies self.has_column(c, card, data) by {
                assert(longer[c as int] == labels[c as int]);
            }
            assert forall|v: int| 0 <= v < k implies (#[trigger] views1[v]).asgn
                == views0[v].asgn by {}
        }
        Ok(())
    }

    /// Moves `row` to `category` in the view `view`, in all of its columns
    /// at once.
    pub fn reassign_row(&mut self, view: usize, row: usize, category: usize) -> (res: Result<
        Reassignment,
        ModelError,
    >)
        requires
            old(self).wf(),
        ensures
            final(self).wf(),
            final(self).asgn == old(self).asgn,
            final(self).views@.len() == old(self).views@.len(),
            view >= old(self).views@.len() ==> res == Err::<Reassignment, ModelError>(
                ModelError::ViewOutOfBounds,
            ),
            view < old(self).views@.len() && row >= old(self).rows() ==> res == Err::<
                Reassignment,
                ModelError,
            >(ModelError::RowOutOfBounds),
            view < old(self).views@.len() && row < old(self).rows()
                && category > old(self).views@[view as int].asgn.counts@.len()
                ==> res == Err::<Reassignment, ModelError>(
                ModelError::CategoryOutOfBounds,
            ),
            view < old(self).views@.len() && row < old(self).rows()
                && category <= old(self).views@[view as int].asgn.counts@.len()
                ==> res == Ok::<Reassignment, ModelError>(
                reassignment(
                    old(self).views@[view as int].asgn.asgn@,
                    old(self).views@[view as int].asgn.counts@.len(),
                    row as int,
                    category,
                ),
            ),
            res is Ok ==> final(self).views@[view as int].asgn.asgn@ == reassigned(
                old(self).views@[view as int].asgn.asgn@,
                row as int,
                category,
            ),
            forall|v: int|
                0 <= v < old(self).views@.len() && v != view
                    ==> final(self).views@[v] == old(self).views@[v],
            forall|c: usize, card: usize, data: Seq<Option<u8>>|
                old(self).has_column(c, card, data) ==> final(self).has_column(c, card, data),
            res is Err ==> same_views(old(self).views@, final(self).views@),
    {
        if view >= self.views.len() {
            return Err(ModelError::ViewOutOfBounds);
        }
        let ghost before = self.views@;
        let res = self.views[view].reassign_row(row, category);
        proof {
            let after = self.views@;
            assert(before[view as int].asgn.asgn@.len() == before[0].asgn.asgn@.len());
            if res is Err {
                assert(after[view as int].asgn == before[view as int].asgn);
                assert(after[view as int].cols@ == before[view as int].cols@);
            }
            assert forall|id: usize|
                holds_id(after[view as int].cols@, id) <==> holds_id(
                    before[view as int].cols@,
                    id,
                ) by {
                if res is Ok {
                    lemma_cells_of_same_columns(
                        before[view as int].cols@,
                        after[view as int].cols@,
                        id,
                        0,
                        Seq::empty(),
                    );
                }
            }
            assert forall|id: usize, card: usize, data: Seq<Option<u8>>|
                holds_cells(after[view as int].cols@, id, card, data) <==> holds_cells(
                    before[view as int].cols@,
                    id,
                    card,
                    data,
                ) by {
                if res is Ok {
                    lemma_cells_of_same_columns(
                        before[view as int].cols@,
                        after[view as int].cols@,
                        id,
                        card,
                        data,
                    );
                }
            }
            assert forall|v: int| 0 <= v < after.len() implies (#[trigger] after[v]).wf()
                && after[v].asgn.asgn@.len() == after[0].asgn.asgn@.len() && homed(
                after[v].cols@,
                v,
                self.asgn.asgn@,
            ) by {
                assert(before[v].wf());
                assert(before[0].wf());
                if v != view {
                    assert(after[v] == before[v]);
                }
                assert forall|id: usize| #[trigger] holds_id(after[v].cols@, id) implies id
                    < self.asgn.asgn@.len() && self.asgn.asgn@[id as int] == v by {
                    assert(holds_id(before[v].cols@, id));
                }
            }
            assert forall|c: int| 0 <= c < self.asgn.asgn@.len() implies holds_id(
                after[(#[trigger] self.asgn.asgn@[c]) as int].cols@,
                c as usize,
            ) by {
                let home = self.asgn.asgn@[c] as int;
                assert(holds_id(before[home].cols@, c as usize));
                if home != view {
                    assert(after[home] == before[home]);
                }
            }
            assert forall|c: usize, card: usize, data: Seq<Option<u8>>|
                old(self).has_column(c, card, data) implies self.has_column(c, card, data) by {
                let home = self.asgn.asgn@[c as int] as int;
                if home != view {
                    assert(after[home] == before[home]);
                }
            }
            if res is Err {
                assert forall|v: int| 0 <= v < before.len() implies (#[trigger] before[v]).asgn
                    == after[v].asgn && before[v].cols@ == after[v].cols@ by {
                    if v != view {
                        assert(after[v] == before[v]);
                    }
                }
            }
        }
        res
    }

    /// Writes `value` into row `row` of column `col`. Only the statistics
    /// of that column, for the row's category, change.
    pub fn overwrite(&mut self, col: usize, row: usize, value: Option<u8>) -> (res: Result<
        (),
        ModelError,
    >)
        requires
            old(self).wf(),
        ensures
            final(self).wf(),
            final(self).asgn == old(self).asgn,
            final(self).views@.len() == old(self).views@.len(),
            col >= old(self).asgn.asgn@.len() ==> res == Err::<(), ModelError>(
                ModelError::UnknownColumn,
            ),
            col < old(self).asgn.asgn@.len() && row >= old(self).rows() ==> res == Err::<
                (),
                ModelError,
            >(ModelError::RowOutOfBounds),
            col < old(self).asgn.asgn@.len() && row < old(self).rows() && value is Some
                && value->0 >= old(self).column(col).card ==> res == Err::<(), ModelError>(
                ModelError::ValueOutOfRange,
            ),
            col < old(self).asgn.asgn@.len() && row < old(self).rows() && (value is Some
                ==> value->0 < old(self).column(col).card) ==> res is Ok,
            res is Ok ==> forall|card: usize, data: Seq<Option<u8>>|
                old(self).has_column(col, card, data) ==> final(self).has_column(
                    col,
                    card,
                    data.update(row as int, value),
                ) && (value is Some ==> value->0 < card),
            res is Ok ==> forall|c: usize, card: usize, data: Seq<Option<u8>>|
                c != col && old(self).has_column(c, card, data) ==> final(self).has_column(
                    c,
                    card,
                    data,
                ),
            forall|v: int|
                0 <= v < old(self).views@.len()
                    ==> (#[trigger] final(self).views@[v]).asgn == old(self).views@[v].asgn,
            res is Err ==> same_views(old(self).views@, final(self).views@),
    {
        if col >= self.asgn.asgn.len() {
            return Err(ModelError::UnknownColumn);
        }
        let home: usize = self.asgn.asgn[col];
        let ghost before = self.views@;
        assert(self.asgn.asgn@[col as int] < before.len());
        assert(holds_id(before[home as int].cols@, col));
        assert(before[home as int].asgn.asgn@.len() == before[0].asgn.asgn@.len());
        let res = self.views[home].overwrite(col, row, value);
        proof {
            let after = self.views@;
            let was = before[home as int].cols@;
            let now = after[home as int].cols@;
            if res is Err {
                assert(after[home as int].asgn == before[home as int].asgn);
                assert(now == was);
            }
            assert forall|id: usize| holds_id(now, id) <==> holds_id(was, id) by {
                if res is Ok {
                    if holds_id(now, id) {
                        let j = choose|j: int| 0 <= j < now.len() && (#[trigger] now[j]).id == id;
                        assert(was[j].id == id || now[j] == was[j]);
                        assert(was[j].id == id);
                    }
                    if holds_id(was, id) {
                        let j = choose|j: int| 0 <= j < was.len() && (#[trigger] was[j]).id == id;
                        assert(now[j].id == id);
                    }
                }
            }
            assert forall|v: int| 0 <= v < after.len() implies (#[trigger] after[v]).wf()
                && after[v].asgn.asgn@.len() == after[0].asgn.asgn@.len() && homed(
                after[v].cols@,
                v,
                self.asgn.asgn@,
            ) by {
                assert(before[v].wf());
                assert(before[0].wf());
                if v != home {
                    assert(after[v] == before[v]);
                }
                assert forall|id: usize| #[trigger] holds_id(after[v].cols@, id) implies id
                    < self.asgn.asgn@.len() && self.asgn.asgn@[id as int] == v by {
                    assert(holds_id(before[v].cols@, id));
                }
            }
            assert forall|c: int| 0 <= c < self.asgn.asgn@.len() implies holds_id(
                after[(#[trigger] self.asgn.asgn@[c]) as int].cols@,
                c as usize,
            ) by {
                let at = self.asgn.asgn@[c] as int;
                assert(holds_id(before[at].cols@, c as usize));
                if at != home {
                    assert(after[at] == before[at]);
                }
            }
            assert forall|v: int| 0 <= v < before.len() implies (#[trigger] after[v]).asgn
                == before[v].asgn by {
                if v != home {
                    assert(after[v] == before[v]);
                }
            }
            if res is Ok {
                assert forall|card: usize, data: Seq<Option<u8>>|
                    old(self).has_column(col, card, data) implies self.has_column(
                    col,
                    card,
                    data.update(row as int, value),
                ) && (value is Some ==> value->0 < card) by {
                    let j = choose|j: int|
                        0 <= j < was.len() && (#[trigger] was[j]).id == col && was[j].card == card
                            && was[j].data@ == data;
                    assert(now[j].id == col);
                    assert(now[j].data@ == data.update(row as int, value));
                }
                assert forall|c: usize, card: usize, data: Seq<Option<u8>>|
                    c != col && old(self).has_column(c, card, data) implies self.has_column(
                    c,
                    card,
                    data,
                ) by {
                    let at = self.asgn.asgn@[c as int] as int;
                    if at != home {
                        assert(after[at] == before[at]);
                    } else {
                        let j = choose|j: int|
                            0 <= j < was.len() && (#[trigger] was[j]).id == c && was[j].card == card
                                && was[j].data@ == data;
                        assert(now[j] == was[j]);
                        assert(now[j].id == c);
                    }
                }
            } else {
                assert forall|v: int| 0 <= v < before.len() implies (#[trigger] before[v]).asgn
                    == after[v].asgn && before[v].cols@ == after[v].cols@ by {
                    if v != home {
                        assert(after[v] == before[v]);
                    }
                }
            }
        }
        res
    }

    /// Moves column `col` to the view `target`. A `target` equal to the
    /// number of views opens a new view, whose row partition is `fresh` or,
    /// where `fresh` is `None`, a copy of that of the view the column
    /// leaves. The column's statistics are computed anew for the row
    /// partition of the view it joins. A view that loses its last column
    /// is closed, and the views above it are renumbered one lower.
    pub fn reassign_column(&mut self, col: usize, target: usize, fresh: Option<Assignment>) -> (res:
        Result<Reassignment, ModelError>)
        requires
            old(self).wf(),
        ensures
            final(self).wf(),
            col >= old(self).asgn.asgn@.len() ==> res == Err::<Reassignment, ModelError>(
                ModelError::UnknownColumn,
            ),
            col < old(self).asgn.asgn@.len() && target > old(self).views@.len() ==> res == Err::<
                Reassignment,
                ModelError,
            >(ModelError::ViewOutOfBounds),
            col < old(self).asgn.asgn@.len() && target == old(self).views@.len() && fresh is Some
                && !fresh->0.wf() ==> res == Err::<Reassignment, ModelError>(
                ModelError::InvalidPartition,
            ),
            col < old(self).asgn.asgn@.len() && target == old(self).views@.len() && fresh is Some
                && fresh->0.wf() && fresh->0.asgn@.len() != old(self).rows() ==> res == Err::<
                Reassignment,
                ModelError,
            >(ModelError::LengthMismatch),
            col < old(self).asgn.asgn@.len() && (target < old(self).views@.len()
                || (target == old(self).views@.len() && (fresh is None || (fresh->0.wf()
                && fresh->0.asgn@.len() == old(self).rows()))))
                ==> res == Ok::<Reassignment, ModelError>(
                reassignment(
                    old(self).asgn.asgn@,
                    old(self).views@.len(),
                    col as int,
                    target,
                ),
            ),
            res is Ok ==> final(self).asgn.asgn@ == reassigned(
                old(self).asgn.asgn@,
                col as int,
                target,
            ),
            res is Ok ==> final(self).rows() == old(self).rows(),
            res is Ok ==> forall|c: usize, card: usize, data: Seq<Option<u8>>|
                old(self).has_column(c, card, data) ==> final(self).has_column(c, card, data),
            res is Ok ==> forall|c: int|
                0 <= c < old(self).asgn.asgn@.len() && c != col
                    ==> final(self).rows_of(c) == old(self).rows_of(c),
            res is Ok ==> final(self).rows_of(col as int) == (if target < old(self).views@.len() {
                old(self).views@[target as int].asgn.asgn@
            } else if fresh is Some {
                fresh->0.asgn@
            } else {
                old(self).rows_of(col as int)
            }),
            res is Err ==> final(self).asgn == old(self).asgn
                && final(self).views@ == old(self).views@,
    {
        let n_cols: usize = self.asgn.asgn.len();
        if col >= n_cols {
            return Err(ModelError::UnknownColumn);
        }
        let k: usize = self.views.len();
        if target > k {
            return Err(ModelError::ViewOutOfBounds);
        }
        let from: usize = self.asgn.asgn[col];
        let ghost labels = self.asgn.asgn@;
        let ghost views0 = self.views@;
        let ghost n_rows = views0[0].asgn.asgn@.len();
        let ghost moved = labels.update(col as int, target);
        assert(labels[col as int] < k);
        assert(views0[from as int].wf());
        assert(holds_id(views0[from as int].cols@, col));
        if from == target {
            assert(moved =~= labels);
            return Ok(Reassignment { from, to: target, opened: false, closed: false });
        }
        if target == k {
            let rows = match fresh {
                Some(a) => {
                    if !a.validate() {
                        return Err(ModelError::InvalidPartition);
                    }
                    if a.len() != self.views[0].n_rows() {
                        return Err(ModelError::LengthMismatch);
                    }
                    a
                },
                None => self.views[from].asgn.duplicate(),
            };
            self.views.push(DataView { asgn: rows, cols: Vec::new() });
            proof {
                let opened = self.views@[k as int];
                assert(opened.wf());
                assert forall|id: usize| !holds_id(opened.cols@, id) by {}
            }
        }
        let ghost views_a = self.views@;
        proof {
            assert forall|v: int| 0 <= v < k implies #[trigger] views_a[v] == views0[v] by {}
            assert forall|id: usize| !holds_id(views_a[target as int].cols@, id)
                || labels[id as int] == target by {
                if target < k {
                    assert(views0[target as int].wf());
                }
            }
            assert(!holds_id(views_a[target as int].cols@, col));
            assert(views_a[target as int].wf() && views_a[target as int].asgn.asgn@.len()
                == n_rows) by {
                if target < k {
                    assert(views0[target as int].wf());
                }
            }
        }
        let column = match self.views[from].take_column(col) {
            Some(column) => column,
            None => {
                return Err(ModelError::UnknownColumn);
            },
        };
        let ghost views_b = self.views@;
        proof {
            assert forall|v: int| 0 <= v < views_a.len() && v != from implies #[trigger] views_b[v]
                == views_a[v] by {}
            assert(views_b[target as int] == views_a[target as int]);
            assert(column.data@.len() == n_rows) by {
                assert(views0[from as int].asgn.asgn@.len() == n_rows);
            }
        }
        match self.views[target].insert_column(column) {
            Ok(()) => {},
            Err(e) => {
                return Err(e);
            },
        }
        let ghost views1 = self.views@;
        proof {
            assert forall|v: int| 0 <= v < views_b.len() && v != target implies #[trigger] views1[v]
                == views_b[v] by {}
        }
        let change = match self.asgn.reassign_item(col, target) {
            Ok(change) => change,
            Err(e) => {
                return Err(ModelError::of_rows(e));
            },
        };
        proof {
            // Before any view is closed, every view is in order for the
            // labels `moved`.
            assert forall|v: int| 0 <= v < views1.len() implies (#[trigger] views1[v]).wf()
                && views1[v].asgn.asgn@.len() == n_rows && homed(views1[v].cols@, v, moved) by {
                if v < k {
                    assert(views0[v].wf());
                    assert(homed(views0[v].cols@, v, labels));
                }
                assert forall|id: usize| #[trigger] holds_id(views1[v].cols@, id) implies id
                    < moved.len() && moved[id as int] == v by {
                    if v == from {
                        assert(id != col);
                        assert(holds_id(views0[v].cols@, id));
                    } else if v == target {
                        if id != col {
                            assert(holds_id(views_a[v].cols@, id));
                            if v < k {
                                assert(holds_id(views0[v].cols@, id));
                            }
                        }
                    } else {
                        assert(views1[v] == views0[v]);
                        assert(holds_id(views0[v].cols@, id));
                    }
                }
            }
            assert forall|c: int| 0 <= c < moved.len() implies holds_id(
                views1[(#[trigger] moved[c]) as int].cols@,
                c as usize,
            ) by {
                if c != col {
                    let home = labels[c] as int;
                    assert(moved[c] == labels[c]);
                    assert(holds_id(views0[home].cols@, c as usize));
                    if home != from && home != target {
                        assert(views1[home] == views0[home]);
                    }
                }
            }
            assert forall|c: usize, card: usize, data: Seq<Option<u8>>|
                old(self).has_column(c, card, data) implies holds_cells(
                views1[moved[c as int] as int].cols@,
                c,
                card,
                data,
            ) by {
                let home = labels[c as int] as int;
                if c == col {
                    lemma_cells_unique(
                        views0[from as int].cols@,
                        col,
                        card,
                        data,
                        column.card,
                        column.data@,
                    );
                } else {
                    assert(moved[c as int] == labels[c as int]);
                    if home != from && home != target {
                        assert(views1[home] == views0[home]);
                    }
                }
            }
        }
        if change.closed {
            self.views.remove(from);
            proof {
                let views2 = self.views@;
                let last = relabeled(moved, from as int);
                assert(self.asgn.asgn@ == last);
                assert(views2 == views1.remove(from as int));
                assert forall|i: int| 0 <= i < moved.len() implies #[trigger] moved[i] != from by {
                    if i != col && labels[i] == from {
                        lemma_count_one(
                            labels.len(),
                            has_label(labels, from as int),
                            i,
                            col as int,
                        );
                    }
                }
                assert forall|i: int| 0 <= i < moved.len() implies #[trigger] moved[i]
                    < views1.len() by {
                    if i != col {
                        assert(labels[i] < k);
                    }
                }
                lemma_view_closed(moved, views1, from as int, n_rows);
                assert forall|c: usize, card: usize, data: Seq<Option<u8>>|
                    old(self).has_column(c, card, data) implies self.has_column(c, card, data) by {
                    assert(holds_cells(views1[moved[c as int] as int].cols@, c, card, data));
                    assert(views2[last[c as int] as int] == views1[moved[c as int] as int]);
                }
                assert forall|c: int| 0 <= c < labels.len() && c != col implies self.rows_of(c)
                    == old(self).rows_of(c) by {
                    let v1 = moved[c] as int;
                    assert(moved[c] == labels[c]);
                    assert(views2[last[c] as int] == views1[v1]);
                    assert(views1[v1].wf());
                    if v1 != target && v1 != from {
                        assert(views1[v1] == views0[v1]);
                    }
                }
                assert(views2[last[col as int] as int] == views1[moved[col as int] as int]);
                assert(views2[0].wf());
                assert(views0[0].wf());
            }
        } else {
            proof {
                assert(self.asgn.asgn@ == moved);
                assert(views1[0].wf());
                assert forall|c: usize, card: usize, data: Seq<Option<u8>>|
                    old(self).has_column(c, card, data) implies self.has_column(c, card, data) by {
                    assert(holds_cells(views1[moved[c as int] as int].cols@, c, card, data));
                }
                assert forall|c: int| 0 <= c < labels.len() && c != col implies self.rows_of(c)
                    == old(self).rows_of(c) by {
                    let v1 = moved[c] as int;
                    assert(moved[c] == labels[c]);
                    assert(views1[v1].wf());
                    if v1 != target && v1 != from {
                        assert(views1[v1] == views0[v1]);
                    }
                }
            }
        }
        Ok(change)
    }
}

/// In a state, the column with identifier `c` is the one that the state
/// holds under that identifier.
pub proof fn lemma_column_held(state: State, c: usize)
    requires
        state.wf(),
        c < state.asgn.asgn@.len(),
    ensures
        state.column(c).id == c,
        state.has_column(c, state.column(c).card, state.column(c).data@),
        forall|card: usize, data: Seq<Option<u8>>|
            #[trigger] state.has_column(c, card, data) ==> card == state.column(c).card && data
                == state.column(c).data@,
        state.column(c).data@.len() == state.rows(),
{
    let home = state.asgn.asgn@[c as int] as int;
    let cols = state.views@[home].cols@;
    assert(holds_id(cols, c));
    assert(state.views@[home].wf());
    assert(state.views@[0].wf());
    let p = place_of(cols, c);
    assert(cols[p].id == c);
    assert(cols[p].tracks(
        state.views@[home].asgn.asgn@,
        state.views@[home].asgn.counts@.len(),
    ));
    assert(holds_cells(cols, c, cols[p].card, cols[p].data@));
    assert forall|card: usize, data: Seq<Option<u8>>| #[trigger]
        state.has_column(c, card, data) implies card == cols[p].card && data == cols[p].data@ by {
        lemma_cells_unique(cols, c, card, data, cols[p].card, cols[p].data@);
    }
}

/// Every column of a state is held by exactly one view, the one that the
/// column partition names for it, and no view holds anything but a column
/// of the state.
pub proof fn lemma_column_exclusivity(state: State)
    requires
        state.wf(),
    ensures
        forall|c: usize, v: int|
            0 <= v < state.views@.len() && c < state.asgn.asgn@.len() ==> (#[trigger] holds_id(
                state.views@[v].cols@,
                c,
            ) <==> v == state.asgn.asgn@[c as int]),
        forall|c: usize, v: int|
            0 <= v < state.views@.len() && #[trigger] holds_id(state.views@[v].cols@, c) ==> c
                < state.asgn.asgn@.len(),
        forall|v: int| 0 <= v < state.views@.len()
            ==> distinct_ids((#[trigger] state.views@[v]).cols@),
{
    let labels = state.asgn.asgn@;
    let views = state.views@;
    assert forall|c: usize, v: int| 0 <= v < views.len() && c < labels.len() implies (
    #[trigger] holds_id(views[v].cols@, c) <==> v == labels[c as int]) by {
        assert(views[v].wf());
        if v == labels[c as int] {
            assert(holds_id(views[labels[c as int] as int].cols@, c));
        }
    }
    assert forall|c: usize, v: int|
        0 <= v < views.len() && #[trigger] holds_id(views[v].cols@, c) implies c < labels.len() by {
        assert(views[v].wf());
    }
    assert forall|v: int| 0 <= v
        < views.len() implies distinct_ids((#[trigger] views[v]).cols@) by {
        assert(views[v].wf());
    }
}

} // verus!
