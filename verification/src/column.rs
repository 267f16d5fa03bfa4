//! A column of categorical data with the statistics of each category.
//!
//! A [`Column`] holds one value or a missing marker for every row, and for
//! every category of the row partition the statistics of the values that
//! the category's rows hold. Missing values occupy a row but enter no
//! statistic.

use crate::assignment::{
    count_of, has_label, n_cats_after, reassigned, reassignment, relabeled, same_numbers,
    Assignment,
};
use crate::counting::{
    count_where, lemma_count_agree, lemma_count_bound, lemma_count_differ_at, lemma_count_none,
    lemma_count_one, lemma_count_witness,
};
use crate::suffstat::CategoricalSuffStat;
use vstd::prelude::*;

verus! {

/// The predicate "row `i` is in category `k` and holds a value".
pub open spec fn present_in(labels: Seq<usize>, data: Seq<Option<u8>>, k: int) -> spec_fn(
    int,
) -> bool {
    |i: int| labels[i] == k && data[i] is Some
}

/// The predicate "row `i` is in category `k` and holds the value `x`".
pub open spec fn value_in(labels: Seq<usize>, data: Seq<Option<u8>>, k: int, x: int) -> spec_fn(
    int,
) -> bool {
    |i: int| labels[i] == k && data[i] is Some && data[i]->0 == x
}

/// The number of rows of category `k` that hold a value, among the first
/// `upto` rows.
pub open spec fn n_present_upto(
    labels: Seq<usize>,
    data: Seq<Option<u8>>,
    k: int,
    upto: nat,
) -> nat {
    count_where(upto, present_in(labels, data, k))
}

/// The number of rows of category `k` that hold the value `x`, among the
/// first `upto` rows.
pub open spec fn observed_upto(
    labels: Seq<usize>,
    data: Seq<Option<u8>>,
    k: int,
    x: int,
    upto: nat,
) -> nat {
    count_where(upto, value_in(labels, data, k, x))
}

/// The number of rows of category `k` that hold a value.
pub open spec fn n_present(labels: Seq<usize>, data: Seq<Option<u8>>, k: int) -> nat {
    n_present_upto(labels, data, k, data.len())
}

/// The number of rows of category `k` that hold the value `x`.
pub open spec fn observed(labels: Seq<usize>, data: Seq<Option<u8>>, k: int, x: int) -> nat {
    observed_upto(labels, data, k, x, data.len())
}

/// `stat` is the statistics of what the first `upto` rows of category `k`
/// hold.
pub open spec fn summarises_upto(
    stat: CategoricalSuffStat,
    labels: Seq<usize>,
    data: Seq<Option<u8>>,
    k: int,
    card: nat,
    upto: nat,
) -> bool {
    &&& stat.n == n_present_upto(labels, data, k, upto)
    &&& stat.counts@.len() == card
    &&& forall|x: int|
        0 <= x < card ==> #[trigger] stat.counts@[x] == observed_upto(labels, data, k, x, upto)
}

/// `stat` is the statistics of what the rows of category `k` hold.
pub open spec fn summarises(
    stat: CategoricalSuffStat,
    labels: Seq<usize>,
    data: Seq<Option<u8>>,
    k: int,
    card: nat,
) -> bool {
    summarises_upto(stat, labels, data, k, card, data.len())
}

/// Every value is below `card`.
pub open spec fn in_range(data: Seq<Option<u8>>, card: nat) -> bool {
    forall|i: int| 0 <= i < data.len() && (#[trigger] data[i]) is Some ==> data[i]->0 < card
}

/// One if `b` holds, else zero.
pub open spec fn one_if(b: bool) -> nat {
    if b {
        1
    } else {
        0
    }
}

/// Moving row `row` to `category` takes its value from the statistics of
/// the category it leaves and adds it to those of the category it joins.
pub proof fn lemma_moved_statistics(
    labels: Seq<usize>,
    data: Seq<Option<u8>>,
    row: int,
    category: usize,
    k: int,
    x: int,
)
    requires
        0 <= row < labels.len(),
        labels.len() == data.len(),
    ensures
        observed(labels.update(row, category), data, k, x) + one_if(
            labels[row] == k && data[row] is Some && data[row]->0 == x,
        ) == observed(labels, data, k, x) + one_if(
            category == k && data[row] is Some && data[row]->0 == x,
        ),
        n_present(labels.update(row, category), data, k) + one_if(
            labels[row] == k && data[row] is Some,
        ) == n_present(labels, data, k) + one_if(category == k && data[row] is Some),
{
    let moved = labels.update(row, category);
    let p = value_in(labels, data, k, x);
    let q = value_in(moved, data, k, x);
    assert forall|i: int| 0 <= i < data.len() && i != row implies #[trigger] p(i) == q(i) by {
        assert(moved[i] == labels[i]);
    }
    lemma_count_differ_at(data.len(), p, q, row);
    let pn = present_in(labels, data, k);
    let qn = present_in(moved, data, k);
    assert forall|i: int| 0 <= i < data.len() && i != row implies #[trigger] pn(i) == qn(i) by {
        assert(moved[i] == labels[i]);
    }
    lemma_count_differ_at(data.len(), pn, qn, row);
}

/// Closing an unused category shifts the statistics above it down by one
/// place.
pub proof fn lemma_relabeled_statistics(
    labels: Seq<usize>,
    data: Seq<Option<u8>>,
    gone: int,
    k: int,
    x: int,
)
    requires
        0 <= gone,
        0 <= k,
        labels.len() == data.len(),
        forall|i: int| 0 <= i < labels.len() ==> #[trigger] labels[i] != gone,
    ensures
        observed(relabeled(labels, gone), data, k, x) == observed(
            labels,
            data,
            if k < gone {
                k
            } else {
                k + 1
            },
            x,
        ),
        n_present(relabeled(labels, gone), data, k) == n_present(
            labels,
            data,
            if k < gone {
                k
            } else {
                k + 1
            },
        ),
{
    let shifted = relabeled(labels, gone);
    let source = if k < gone {
        k
    } else {
        k + 1
    };
    let p = value_in(shifted, data, k, x);
    let q = value_in(labels, data, source, x);
    assert forall|i: int| 0 <= i < data.len() implies #[trigger] p(i) == q(i) by {
        assert(labels[i] != gone);
    }
    lemma_count_agree(data.len(), p, q);
    let pn = present_in(shifted, data, k);
    let qn = present_in(labels, data, source);
    assert forall|i: int| 0 <= i < data.len() implies #[trigger] pn(i) == qn(i) by {
        assert(labels[i] != gone);
    }
    lemma_count_agree(data.len(), pn, qn);
}

/// A category that no row is in has empty statistics.
pub proof fn lemma_unused_statistics(labels: Seq<usize>, data: Seq<Option<u8>>, k: int, x: int)
    requires
        labels.len() == data.len(),
        forall|i: int| 0 <= i < labels.len() ==> #[trigger] labels[i] != k,
    ensures
        observed(labels, data, k, x) == 0,
        n_present(labels, data, k) == 0,
{
    let p = value_in(labels, data, k, x);
    assert forall|i: int| 0 <= i < data.len() implies !#[trigger] p(i) by {
        assert(labels[i] != k);
    }
    lemma_count_none(data.len(), p);
    let pn = present_in(labels, data, k);
    assert forall|i: int| 0 <= i < data.len() implies !#[trigger] pn(i) by {
        assert(labels[i] != k);
    }
    lemma_count_none(data.len(), pn);
}

/// Writing `value` into row `row` takes the old value from the statistics
/// of the row's category and adds the new one.
pub proof fn lemma_overwritten_statistics(
    labels: Seq<usize>,
    data: Seq<Option<u8>>,
    row: int,
    value: Option<u8>,
    k: int,
    x: int,
)
    requires
        0 <= row < labels.len(),
        labels.len() == data.len(),
    ensures
        observed(labels, data.update(row, value), k, x) + one_if(
            labels[row] == k && data[row] is Some && data[row]->0 == x,
        ) == observed(labels, data, k, x) + one_if(
            labels[row] == k && value is Some && value->0 == x,
        ),
        n_present(labels, data.update(row, value), k) + one_if(
            labels[row] == k && data[row] is Some,
        ) == n_present(labels, data, k) + one_if(labels[row] == k && value is Some),
{
    let written = data.update(row, value);
    let p = value_in(labels, data, k, x);
    let q = value_in(labels, written, k, x);
    assert forall|i: int| 0 <= i < data.len() && i != row implies #[trigger] p(i) == q(i) by {
        assert(written[i] == data[i]);
    }
    lemma_count_differ_at(data.len(), p, q, row);
    let pn = present_in(labels, data, k);
    let qn = present_in(labels, written, k);
    assert forall|i: int| 0 <= i < data.len() && i != row implies #[trigger] pn(i) == qn(i) by {
        assert(written[i] == data[i]);
    }
    lemma_count_differ_at(data.len(), pn, qn, row);
}

/// Appending a row adds its value to the statistics of its category.
pub proof fn lemma_appended_statistics(
    labels: Seq<usize>,
    data: Seq<Option<u8>>,
    category: usize,
    value: Option<u8>,
    k: int,
    x: int,
)
    requires
        labels.len() == data.len(),
    ensures
        observed(labels.push(category), data.push(value), k, x) == observed(labels, data, k, x)
            + one_if(category == k && value is Some && value->0 == x),
        n_present(labels.push(category), data.push(value), k) == n_present(labels, data, k)
            + one_if(category == k && value is Some),
{
    let longer = labels.push(category);
    let more = data.push(value);
    let p = value_in(labels, data, k, x);
    let q = value_in(longer, more, k, x);
    assert forall|i: int| 0 <= i < data.len() implies #[trigger] q(i) == p(i) by {
        assert(longer[i] == labels[i]);
        assert(more[i] == data[i]);
    }
    lemma_count_agree(data.len(), q, p);
    assert(q(data.len() as int) == (category == k && value is Some && value->0 == x));
    let pn = present_in(labels, data, k);
    let qn = present_in(longer, more, k);
    assert forall|i: int| 0 <= i < data.len() implies #[trigger] qn(i) == pn(i) by {
        assert(longer[i] == labels[i]);
        assert(more[i] == data[i]);
    }
    lemma_count_agree(data.len(), qn, pn);
    assert(qn(data.len() as int) == (category == k && value is Some));
}

/// Why an operation on a [`Column`] was refused.
#[derive(Debug, Clone, Copy, PartialEq, Eq, Structural)]
pub enum ColumnError {
    /// A value is not below the column's cardinality.
    ValueOutOfRange,
    /// The column has another number of rows than the partition.
    LengthMismatch,
    /// The row index is not below the number of rows.
    RowOutOfBounds,
    /// The category is neither an existing one nor the next new one.
    CategoryOutOfBounds,
}

/// A column of categorical data and the statistics of each category of its
/// rows.
#[derive(Debug, PartialEq, Eq)]
pub struct Column {
    /// The identifier of the column.
    pub id: usize,
    /// The number of values that a cell can take.
    pub card: usize,
    /// The value of each row, or `None` where it is missing.
    pub data: Vec<Option<u8>>,
    /// The statistics of each category.
    pub components: Vec<CategoricalSuffStat>,
}

/// The statistics of each category of `asgn`, computed from the data alone.
pub(crate) fn tally_components(data: &Vec<Option<u8>>, card: usize,
    asgn: &Assignment) -> (comps: Vec<
    CategoricalSuffStat,
>)
    requires
        asgn.wf(),
        data@.len() == asgn.asgn@.len(),
        in_range(data@, card as nat),
    ensures
        comps@.len() == asgn.counts@.len(),
        forall|c: int|
            0 <= c < comps@.len() ==> summarises(
                #[trigger] comps@[c],
                asgn.asgn@,
                data@,
                c,
                card as nat,
            ),
{
    let n: usize = data.len();
    let k: usize = asgn.counts.len();
    let ghost labels = asgn.asgn@;
    let mut comps: Vec<CategoricalSuffStat> = Vec::new();
    let mut c: usize = 0;
    while c < k
        invariant
            c <= k,
            comps@.len() == c,
            forall|j: int|
                0 <= j < c ==> summarises_upto(#[trigger] comps@[j], labels, data@, j,
                    card as nat, 0),
        decreases k - c,
    {
        comps.push(CategoricalSuffStat::new(card));
        c += 1;
    }
    let mut i: usize = 0;
    while i < n
        invariant
            i <= n,
            n == data@.len(),
            n == labels.len(),
            labels == asgn.asgn@,
            k == asgn.counts@.len(),
            asgn.wf(),
            in_range(data@, card as nat),
            comps@.len() == k,
            forall|j: int|
                0 <= j < k ==> summarises_upto(
                    #[trigger] comps@[j],
                    labels,
                    data@,
                    j,
                    card as nat,
                    i as nat,
                ),
        decreases n - i,
    {
        let label: usize = asgn.asgn[i];
        let ghost earlier = comps@;
        assert(labels[i as int] < k);
        match data[i] {
            Some(v) => {
                proof {
                    assert(data@[i as int] is Some);
                    assert(v < card);
                    lemma_count_bound(i as nat, value_in(labels, data@, label as int, v as int));
                    lemma_count_bound(i as nat, present_in(labels, data@, label as int));
                    assert(summarises_upto(
                        comps@[label as int],
                        labels,
                        data@,
                        label as int,
                        card as nat,
                        i as nat,
                    ));
                }
                comps[label].add_one(v);
            },
            None => {},
        }
        proof {
            assert forall|j: int| 0 <= j < k implies summarises_upto(
                #[trigger] comps@[j],
                labels,
                data@,
                j,
                card as nat,
                (i + 1) as nat,
            ) by {
                assert(summarises_upto(earlier[j], labels, data@, j, card as nat, i as nat));
                let stat = comps@[j];
                assert forall|x: int| 0 <= x < card implies #[trigger] stat.counts@[x]
                    == observed_upto(labels, data@, j, x, (i + 1) as nat) by {
                    assert(earlier[j].counts@[x] == observed_upto(labels, data@, j, x, i as nat));
                }
            }
        }
        i += 1;
    }
    comps
}

/// Whether two tables of statistics hold the same numbers.
pub fn same_statistics(first: &Vec<CategoricalSuffStat>,
    second: &Vec<CategoricalSuffStat>) -> (same:
    bool)
    ensures
        same == (first@.len() == second@.len() && forall|c: int|
            0 <= c < first@.len() ==> (#[trigger] first@[c]).n == second@[c].n && first@[c].counts@
                == second@[c].counts@),
{
    if first.len() != second.len() {
        return false;
    }
    let mut c: usize = 0;
    while c < first.len()
        invariant
            c <= first@.len(),
            first@.len() == second@.len(),
            forall|j: int|
                0 <= j < c ==> (#[trigger] first@[j]).n == second@[j].n && first@[j].counts@
                    == second@[j].counts@,
        decreases first@.len() - c,
    {
        if first[c].n != second[c].n {
            return false;
        }
        if !same_numbers(&first[c].counts, &second[c].counts) {
            return false;
        }
        c += 1;
    }
    true
}

impl Column {
    /// The column holds a row for every item of `labels` and the statistics
    /// of each of the `n_cats` categories.
    pub open spec fn tracks(&self, labels: Seq<usize>, n_cats: nat) -> bool {
        &&& self.data@.len() == labels.len()
        &&& self.components@.len() == n_cats
        &&& in_range(self.data@, self.card as nat)
        &&& forall|c: int|
            0 <= c < n_cats ==> summarises(
                #[trigger] self.components@[c],
                labels,
                self.data@,
                c,
                self.card as nat,
            )
    }

    /// A column with the given data and no statistics yet.
    pub fn new(id: usize, card: usize, data: Vec<Option<u8>>) -> (res: Result<Column, ColumnError>)
        ensures
            res is Ok <==> in_range(data@, card as nat),
            res matches Ok(col) ==> col.id == id && col.card == card && col.data@ == data@
                && col.components@.len() == 0,
            res matches Err(e) ==> e == ColumnError::ValueOutOfRange,
    {
        let mut i: usize = 0;
        while i < data.len()
            invariant
                i <= data@.len(),
                forall|j: int| 0 <= j < i && (#[trigger] data@[j]) is Some ==> data@[j]->0 < card,
            decreases data@.len() - i,
        {
            match data[i] {
                Some(v) => {
                    if v as usize >= card {
                        assert(data@[i as int] is Some);
                        return Err(ColumnError::ValueOutOfRange);
                    }
                },
                None => {},
            }
            i += 1;
        }
        Ok(Column { id, card, data, components: Vec::new() })
    }

    /// Whether every value is below the column's cardinality.
    pub fn values_in_range(&self) -> (ok: bool)
        ensures
            ok == in_range(self.data@, self.card as nat),
    {
        let mut i: usize = 0;
        while i < self.data.len()
            invariant
                i <= self.data@.len(),
                forall|j: int|
                    0 <= j < i && (#[trigger] self.data@[j]) is Some ==> self.data@[j]->0
                        < self.card,
            decreases self.data@.len() - i,
        {
            match self.data[i] {
                Some(v) => {
                    if v as usize >= self.card {
                        assert(self.data@[i as int] is Some);
                        return false;
                    }
                },
                None => {},
            }
            i += 1;
        }
        true
    }

    /// The number of rows.
    pub fn len(&self) -> (n: usize)
        ensures
            n == self.data@.len(),
    {
        self.data.len()
    }

    /// The value of `row`: `None` where there is no such row, `Some(None)`
    /// where the value is missing.
    pub fn get(&self, row: usize) -> (cell: Option<Option<u8>>)
        ensures
            cell == (if row < self.data@.len() {
                Some(self.data@[row as int])
            } else {
                None
            }),
    {
        if row < self.data.len() {
            Some(self.data[row])
        } else {
            None
        }
    }

    /// Computes the statistics anew for the partition `asgn`.
    pub fn refit(&mut self, asgn: &Assignment) -> (res: Result<(), ColumnError>)
        requires
            asgn.wf(),
            in_range(old(self).data@, old(self).card as nat),
        ensures
            final(self).id == old(self).id,
            final(self).card == old(self).card,
            final(self).data@ == old(self).data@,
            res is Ok <==> old(self).data@.len() == asgn.asgn@.len(),
            res is Ok ==> final(self).tracks(asgn.asgn@, asgn.counts@.len()),
            res matches Err(e) ==> e == ColumnError::LengthMismatch && final(self).components@
                == old(self).components@,
    {
        if self.data.len() != asgn.asgn.len() {
            return Err(ColumnError::LengthMismatch);
        }
        self.components = tally_components(&self.data, self.card, asgn);
        Ok(())
    }

    /// Whether the column holds a row for every item of `asgn` and exactly
    /// the statistics that its data and `asgn` give.
    pub fn is_consistent(&self, asgn: &Assignment) -> (consistent: bool)
        requires
            asgn.wf(),
        ensures
            consistent == self.tracks(asgn.asgn@, asgn.counts@.len()),
    {
        if self.data.len() != asgn.asgn.len() {
            return false;
        }
        if !self.values_in_range() {
            return false;
        }
        let fresh = tally_components(&self.data, self.card, asgn);
        let same = same_statistics(&fresh, &self.components);
        proof {
            let labels = asgn.asgn@;
            let card = self.card as nat;
            if same {
                assert forall|c: int| 0 <= c < fresh@.len() implies summarises(
                    #[trigger] self.components@[c],
                    labels,
                    self.data@,
                    c,
                    card,
                ) by {
                    assert(summarises(fresh@[c], labels, self.data@, c, card));
                    assert(fresh@[c].n == self.components@[c].n);
                }
            }
            if self.tracks(labels, asgn.counts@.len() as nat) {
                assert forall|c: int| 0 <= c < fresh@.len() implies (#[trigger] fresh@[c]).n
                    == self.components@[c].n
                    && fresh@[c].counts@ == self.components@[c].counts@ by {
                    assert(summarises(fresh@[c], labels, self.data@, c, card));
                    assert(summarises(self.components@[c], labels, self.data@, c, card));
                    assert(fresh@[c].counts@ =~= self.components@[c].counts@);
                }
            }
        }
        same
    }

    /// Follows the move of row `row` to `category` in the partition
    /// `asgn`, which is the partition before the move. The row's value
    /// leaves the statistics of its old category and enters those of the
    /// new one; the statistics of a category that the move opens are
    /// added, those of a category that it closes are dropped.
    pub fn reassign_row(&mut self, asgn: &Assignment, row: usize, category: usize) -> (res: Result<
        (),
        ColumnError,
    >)
        requires
            asgn.wf(),
            old(self).tracks(asgn.asgn@, asgn.counts@.len()),
        ensures
            final(self).id == old(self).id,
            final(self).card == old(self).card,
            final(self).data@ == old(self).data@,
            row >= asgn.asgn@.len() ==> res == Err::<(), ColumnError>(ColumnError::RowOutOfBounds),
            row < asgn.asgn@.len() && category > asgn.counts@.len() ==> res == Err::<
                (),
                ColumnError,
            >(ColumnError::CategoryOutOfBounds),
            row < asgn.asgn@.len() && category <= asgn.counts@.len() ==> res is Ok,
            res is Ok ==> final(self).tracks(
                reassigned(asgn.asgn@, row as int, category),
                n_cats_after(
                    asgn.counts@.len(),
                    reassignment(asgn.asgn@, asgn.counts@.len(), row as int, category),
                ),
            ),
            res is Err ==> *final(self) == *old(self),
    {
        let n: usize = self.data.len();
        if row >= n {
            return Err(ColumnError::RowOutOfBounds);
        }
        let k: usize = asgn.counts.len();
        if category > k {
            return Err(ColumnError::CategoryOutOfBounds);
        }
        let from: usize = asgn.asgn[row];
        let ghost labels = asgn.asgn@;
        let ghost data = self.data@;
        let ghost card = self.card as nat;
        let ghost moved = labels.update(row as int, category);
        assert(labels[row as int] < k);
        if from == category {
            assert(moved =~= labels);
            return Ok(());
        }
        let closed: bool = asgn.counts[from] == 1;
        assert(asgn.counts@[from as int] == count_of(labels, from as int));
        if category == k {
            self.components.push(CategoricalSuffStat::new(self.card));
            proof {
                let fresh = self.components@[k as int];
                assert forall|x: int| 0 <= x < card implies #[trigger] fresh.counts@[x]
                    == observed(labels, data, k as int, x) by {
                    lemma_unused_statistics(labels, data, k as int, x);
                }
                lemma_unused_statistics(labels, data, k as int, 0);
            }
        }
        let ghost opened = self.components@;
        assert forall|c: int| 0 <= c < opened.len() implies summarises(
            #[trigger] opened[c],
            labels,
            data,
            c,
            card,
        ) by {
            if c < k {
                assert(opened[c] == old(self).components@[c]);
            }
        }
        match self.data[row] {
            Some(v) => {
                proof {
                    assert(data[row as int] is Some);
                    assert(v < card);
                    lemma_count_witness(
                        n as nat,
                        value_in(labels, data, from as int, v as int),
                        row as int,
                    );
                    lemma_count_witness(n as nat, present_in(labels, data, from as int),
                        row as int);
                    lemma_moved_statistics(labels, data, row as int, category, category as int,
                        v as int);
                    lemma_count_bound(n as nat, value_in(moved, data, category as int, v as int));
                    lemma_count_bound(n as nat, present_in(moved, data, category as int));
                    assert(summarises(opened[from as int], labels, data, from as int, card));
                    assert(summarises(opened[category as int], labels, data, category as int,
                        card));
                }
                self.components[from].sub_one(v);
                self.components[category].add_one(v);
            },
            None => {},
        }
        let ghost shifted = self.components@;
        proof {
            assert forall|c: int| 0 <= c < shifted.len() implies summarises(
                #[trigger] shifted[c],
                moved,
                data,
                c,
                card,
            ) by {
                assert(summarises(opened[c], labels, data, c, card));
                lemma_moved_statistics(labels, data, row as int, category, c, 0);
                assert forall|x: int| 0 <= x < card implies #[trigger] shifted[c].counts@[x]
                    == observed(moved, data, c, x) by {
                    lemma_moved_statistics(labels, data, row as int, category, c, x);
                    assert(opened[c].counts@[x] == observed(labels, data, c, x));
                }
            }
        }
        if closed {
            self.components.remove(from);
            proof {
                assert forall|i: int| 0 <= i < n implies #[trigger] moved[i] != from by {
                    if i != row && labels[i] == from {
                        lemma_count_one(
                            n as nat,
                            has_label(labels, from as int),
                            i,
                            row as int,
                        );
                    }
                }
                let last = relabeled(moved, from as int);
                assert forall|c: int| 0 <= c < self.components@.len() implies summarises(
                    #[trigger] self.components@[c],
                    last,
                    data,
                    c,
                    card,
                ) by {
                    let source = if c < from {
                        c
                    } else {
                        c + 1
                    };
                    assert(self.components@[c] == shifted[source]);
                    assert(summarises(shifted[source], moved, data, source, card));
                    lemma_relabeled_statistics(moved, data, from as int, c, 0);
                    assert forall|x: int| 0 <= x
                        < card implies #[trigger] self.components@[c].counts@[x]
                        == observed(last, data, c, x) by {
                        lemma_relabeled_statistics(moved, data, from as int, c, x);
                        assert(shifted[source].counts@[x] == observed(moved, data, source, x));
                    }
                }
            }
        }
        Ok(())
    }

    /// Writes `value` into row `row`, whose category `asgn` gives. Only the
    /// statistics of that category change.
    pub fn overwrite(&mut self, asgn: &Assignment, row: usize, value: Option<u8>) -> (res: Result<
        (),
        ColumnError,
    >)
        requires
            asgn.wf(),
            old(self).tracks(asgn.asgn@, asgn.counts@.len()),
        ensures
            final(self).id == old(self).id,
            final(self).card == old(self).card,
            final(self).tracks(asgn.asgn@, asgn.counts@.len()),
            row >= asgn.asgn@.len() ==> res == Err::<(), ColumnError>(ColumnError::RowOutOfBounds),
            row < asgn.asgn@.len() && value is Some && value->0 >= old(self).card ==> res == Err::<
                (),
                ColumnError,
            >(ColumnError::ValueOutOfRange),
            row < asgn.asgn@.len() && (value is Some ==> value->0 < old(self).card) ==> res is Ok,
            res is Ok ==> final(self).data@ == old(self).data@.update(row as int, value),
            res is Ok ==> forall|c: int|
                0 <= c < asgn.counts@.len() && c != asgn.asgn@[row as int]
                    ==> final(self).components@[c] == old(self).components@[c],
            res is Err ==> *final(self) == *old(self),
    {
        let n: usize = self.data.len();
        if row >= n {
            return Err(ColumnError::RowOutOfBounds);
        }
        match value {
            Some(v) => {
                if v as usize >= self.card {
                    return Err(ColumnError::ValueOutOfRange);
                }
            },
            None => {},
        }
        let ghost labels = asgn.asgn@;
        let ghost data = self.data@;
        let ghost card = self.card as nat;
        let ghost written = data.update(row as int, value);
        let label: usize = asgn.asgn[row];
        assert(labels[row as int] < asgn.counts@.len());
        let ghost before = self.components@;
        assert(summarises(before[label as int], labels, data, label as int, card));
        match self.data[row] {
            Some(u) => {
                proof {
                    assert(data[row as int] is Some);
                    assert(u < card);
                    lemma_count_witness(
                        n as nat,
                        value_in(labels, data, label as int, u as int),
                        row as int,
                    );
                    lemma_count_witness(n as nat, present_in(labels, data, label as int),
                        row as int);
                }
                self.components[label].sub_one(u);
            },
            None => {},
        }
        match value {
            Some(v) => {
                proof {
                    lemma_overwritten_statistics(labels, data, row as int, value, label as int,
                        v as int);
                    lemma_count_bound(n as nat, value_in(labels, written, label as int, v as int));
                    lemma_count_bound(n as nat, present_in(labels, written, label as int));
                }
                self.components[label].add_one(v);
            },
            None => {},
        }
        self.data.set(row, value);
        proof {
            assert(self.data@ == written);
            assert forall|i: int| 0 <= i < written.len()
                && (#[trigger] written[i]) is Some implies written[i]->0 < card by {
                if i != row {
                    assert(written[i] == data[i]);
                }
            }
            assert forall|c: int| 0 <= c < self.components@.len() implies summarises(
                #[trigger] self.components@[c],
                labels,
                written,
                c,
                card,
            ) by {
                assert(summarises(before[c], labels, data, c, card));
                lemma_overwritten_statistics(labels, data, row as int, value, c, 0);
                assert forall|x: int| 0 <= x
                    < card implies #[trigger] self.components@[c].counts@[x]
                    == observed(labels, written, c, x) by {
                    lemma_overwritten_statistics(labels, data, row as int, value, c, x);
                    assert(before[c].counts@[x] == observed(labels, data, c, x));
                }
            }
        }
        Ok(())
    }

    /// Adds a row that holds `value`, in `category` of the partition
    /// `asgn`, which is the partition before the row was added. The
    /// statistics of a category that the row opens are added.
    pub fn append(&mut self, asgn: &Assignment, value: Option<u8>, category: usize) -> (res: Result<
        (),
        ColumnError,
    >)
        requires
            asgn.wf(),
            old(self).tracks(asgn.asgn@, asgn.counts@.len()),
        ensures
            final(self).id == old(self).id,
            final(self).card == old(self).card,
            category > asgn.counts@.len() ==> res == Err::<(), ColumnError>(
                ColumnError::CategoryOutOfBounds,
            ),
            category <= asgn.counts@.len() && value is Some && value->0 >= old(self).card ==> res
                == Err::<(), ColumnError>(ColumnError::ValueOutOfRange),
            category <= asgn.counts@.len() && (value is Some ==> value->0 < old(self).card)
                ==> res is Ok,
            res is Ok ==> final(self).data@ == old(self).data@.push(value),
            res is Ok ==> final(self).tracks(
                asgn.asgn@.push(category),
                if category == asgn.counts@.len() {
                    asgn.counts@.len() + 1
                } else {
                    asgn.counts@.len()
                },
            ),
            res is Ok ==> forall|c: int|
                0 <= c < asgn.counts@.len() && c != category
                    ==> final(self).components@[c] == old(self).components@[c],
            res is Err ==> *final(self) == *old(self),
    {
        let k: usize = asgn.counts.len();
        if category > k {
            return Err(ColumnError::CategoryOutOfBounds);
        }
        match value {
            Some(v) => {
                if v as usize >= self.card {
                    return Err(ColumnError::ValueOutOfRange);
                }
            },
            None => {},
        }
        let ghost labels = asgn.asgn@;
        let ghost data = self.data@;
        let ghost card = self.card as nat;
        let ghost longer = labels.push(category);
        let ghost more = data.push(value);
        self.data.push(value);
        let n: usize = self.data.len();
        if category == k {
            self.components.push(CategoricalSuffStat::new(self.card));
            proof {
                let fresh = self.components@[k as int];
                assert forall|i: int| 0 <= i < labels.len() implies #[trigger] labels[i] != k by {
                    assert(labels[i] < k);
                }
                assert forall|x: int| 0 <= x < card implies #[trigger] fresh.counts@[x]
                    == observed(labels, data, k as int, x) by {
                    lemma_unused_statistics(labels, data, k as int, x);
                }
                lemma_unused_statistics(labels, data, k as int, 0);
            }
        }
        let ghost opened = self.components@;
        assert forall|c: int| 0 <= c < opened.len() implies summarises(
            #[trigger] opened[c],
            labels,
            data,
            c,
            card,
        ) by {
            if c < k {
                assert(opened[c] == old(self).components@[c]);
            }
        }
        match value {
            Some(v) => {
                proof {
                    lemma_appended_statistics(labels, data, category, value, category as int,
                        v as int);
                    lemma_count_bound(n as nat, value_in(longer, more, category as int, v as int));
                    lemma_count_bound(n as nat, present_in(longer, more, category as int));
                    assert(summarises(opened[category as int], labels, data, category as int,
                        card));
                }
                self.components[category].add_one(v);
            },
            None => {},
        }
        proof {
            assert(self.data@ == more);
            assert forall|i: int| 0 <= i < more.len()
                && (#[trigger] more[i]) is Some implies more[i]->0 < card by {
                if i < data.len() {
                    assert(more[i] == data[i]);
                }
            }
            assert forall|c: int| 0 <= c < self.components@.len() implies summarises(
                #[trigger] self.components@[c],
                longer,
                more,
                c,
                card,
            ) by {
                assert(summarises(opened[c], labels, data, c, card));
                lemma_appended_statistics(labels, data, category, value, c, 0);
                assert forall|x: int| 0 <= x
                    < card implies #[trigger] self.components@[c].counts@[x]
                    == observed(longer, more, c, x) by {
                    lemma_appended_statistics(labels, data, category, value, c, x);
                    assert(opened[c].counts@[x] == observed(labels, data, c, x));
                }
            }
        }
        Ok(())
    }
}

/// Statistics kept up to date row by row are those that the data and the
/// partition give when computed anew: two columns with the same data that
/// both track the same partition hold the same statistics.
pub proof fn lemma_statistics_determined(kept: Column, anew: Column, labels: Seq<usize>,
    n_cats: nat)
    requires
        kept.tracks(labels, n_cats),
        anew.tracks(labels, n_cats),
        kept.data@ == anew.data@,
        kept.card == anew.card,
    ensures
        forall|c: int|
            0 <= c < n_cats ==> (#[trigger] kept.components@[c]).n == anew.components@[c].n
                && kept.components@[c].counts@ == anew.components@[c].counts@,
{
    assert forall|c: int| 0 <= c < n_cats implies (#[trigger] kept.components@[c]).n
        == anew.components@[c].n && kept.components@[c].counts@ == anew.components@[c].counts@ by {
        assert(summarises(kept.components@[c], labels, kept.data@, c, kept.card as nat));
        assert(summarises(anew.components@[c], labels, kept.data@, c, kept.card as nat));
        assert(kept.components@[c].counts@ =~= anew.components@[c].counts@);
    }
}

/// Writing into a cell the value that it already holds changes no
/// statistic: a column that tracks the partition after the value was
/// written once holds the same statistics after it was written again.
pub proof fn lemma_overwrite_idempotent(
    once: Column,
    twice: Column,
    labels: Seq<usize>,
    n_cats: nat,
    row: int,
    value: Option<u8>,
)
    requires
        0 <= row < labels.len(),
        once.tracks(labels, n_cats),
        twice.tracks(labels, n_cats),
        once.card == twice.card,
        once.data@[row] == value,
        twice.data@ == once.data@.update(row, value),
    ensures
        twice.data@ == once.data@,
        forall|c: int|
            0 <= c < n_cats ==> (#[trigger] once.components@[c]).n == twice.components@[c].n
                && once.components@[c].counts@ == twice.components@[c].counts@,
{
    assert(once.data@.update(row, value) =~= once.data@);
    lemma_statistics_determined(once, twice, labels, n_cats);
}

/// A row that was just added with a value counts as exactly one more
/// observation in the statistics of its category.
pub proof fn lemma_append_adds_one(
    labels: Seq<usize>,
    data: Seq<Option<u8>>,
    category: usize,
    value: u8,
)
    requires
        labels.len() == data.len(),
    ensures
        n_present(labels.push(category), data.push(Some(value)), category as int) == n_present(
            labels,
            data,
            category as int,
        ) + 1,
        observed(labels.push(category), data.push(Some(value)), category as int, value as int)
            == observed(labels, data, category as int, value as int) + 1,
        forall|x: int|
            x != value ==> observed(labels.push(category), data.push(Some(value)),
                category as int, x) == #[trigger] observed(labels, data, category as int, x),
{
    lemma_appended_statistics(labels, data, category, Some(value), category as int, value as int);
    assert forall|x: int| x != value implies observed(
        labels.push(category),
        data.push(Some(value)),
        category as int,
        x,
    ) == #[trigger] observed(labels, data, category as int, x) by {
        lemma_appended_statistics(labels, data, category, Some(value), category as int, x);
    }
}

} // verus!
