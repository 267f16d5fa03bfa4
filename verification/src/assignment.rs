//! A partition of items into densely numbered categories.
//!
//! An [`Assignment`] records, for each of `N` items, the category it belongs
//! to, and for each of the `K` categories, how many items it holds. The
//! number of categories is not fixed: moving an item may open a category or
//! close one, and closing one renumbers the categories above it.

use crate::counting::{
    count_where, lemma_count_agree, lemma_count_all, lemma_count_bound, lemma_count_differ_at,
    lemma_count_none, lemma_count_positive, lemma_count_split, lemma_count_witness,
};
use vstd::prelude::*;

verus! {

/// The predicate "position `i` carries label `k`".
pub open spec fn has_label(labels: Seq<usize>, k: int) -> spec_fn(int) -> bool {
    |i: int| labels[i] == k
}

/// The predicate "position `i` carries a label below `k`".
pub open spec fn label_below(labels: Seq<usize>, k: int) -> spec_fn(int) -> bool {
    |i: int| labels[i] < k
}

/// The number of items that carry label `k`.
pub open spec fn count_of(labels: Seq<usize>, k: int) -> nat {
    count_where(labels.len(), has_label(labels, k))
}

/// The sum of the first `j` entries of `counts`.
pub open spec fn sum_upto(counts: Seq<usize>, j: nat) -> nat
    decreases j,
{
    if j == 0 {
        0
    } else {
        sum_upto(counts, (j - 1) as nat) + counts[j - 1] as nat
    }
}

/// The sum of all entries of `counts`.
pub open spec fn total(counts: Seq<usize>) -> nat {
    sum_upto(counts, counts.len())
}

/// `counts` is the table of category sizes of `labels`, and no category is
/// empty.
pub open spec fn is_partition(labels: Seq<usize>, counts: Seq<usize>) -> bool {
    &&& forall|i: int| 0 <= i < labels.len() ==> #[trigger] labels[i] < counts.len()
    &&& forall|k: int|
        0 <= k < counts.len() ==> #[trigger] counts[k] >= 1 && counts[k] == count_of(labels, k)
}

/// Every label up to a label in use is itself in use.
pub open spec fn dense(labels: Seq<usize>) -> bool {
    forall|i: int, k: int|
        #![trigger labels[i], count_of(labels, k)]
        0 <= i < labels.len() && 0 <= k <= labels[i] ==> count_of(labels, k) >= 1
}

/// `labels` after category `gone` has been closed: every label above it
/// moves down by one.
pub open spec fn relabeled(labels: Seq<usize>, gone: int) -> Seq<usize> {
    Seq::new(
        labels.len(),
        |j: int|
            if labels[j] > gone {
                (labels[j] - 1) as usize
            } else {
                labels[j]
            },
    )
}

/// `labels` after item `item` has moved to `category`. If the item was the
/// last of its old category, that category is closed.
pub open spec fn reassigned(labels: Seq<usize>, item: int, category: usize) -> Seq<usize> {
    let moved = labels.update(item, category);
    if category != labels[item] && count_of(labels, labels[item] as int) == 1 {
        relabeled(moved, labels[item] as int)
    } else {
        moved
    }
}

/// The number of categories that the first `upto` of `draws` have opened,
/// where a draw opens a category if it names the next new one.
pub open spec fn n_opened(draws: Seq<usize>, upto: nat) -> nat
    decreases upto,
{
    if upto == 0 {
        0
    } else {
        let before = n_opened(draws, (upto - 1) as nat);
        if draws[upto - 1] == before {
            before + 1
        } else {
            before
        }
    }
}

/// Each draw names a category that an earlier draw opened, or the next new
/// one.
pub open spec fn sequential(draws: Seq<usize>) -> bool {
    forall|i: int| 0 <= i < draws.len() ==> #[trigger] draws[i] <= n_opened(draws, i as nat)
}

/// What moving one item did to the categories.
#[derive(Debug, Clone, Copy, PartialEq, Eq, Structural)]
pub struct Reassignment {
    /// The category that the item left.
    pub from: usize,
    /// The category that the item joined, in the numbering before the move.
    pub to: usize,
    /// The item opened the category that it joined.
    pub opened: bool,
    /// The item was the last of the category that it left, which was closed.
    pub closed: bool,
}

/// What moving `item` to `category` does to the `n_cats` categories of
/// `labels`.
pub open spec fn reassignment(labels: Seq<usize>, n_cats: nat, item: int,
    category: usize) -> Reassignment {
    Reassignment {
        from: labels[item],
        to: category,
        opened: category == n_cats,
        closed: category != labels[item] && count_of(labels, labels[item] as int) == 1,
    }
}

/// The number of categories after the move `change`.
pub open spec fn n_cats_after(n_cats: nat, change: Reassignment) -> nat {
    (n_cats + (if change.opened {
        1int
    } else {
        0int
    }) - (if change.closed {
        1int
    } else {
        0int
    })) as nat
}

/// Writing `category` at `item` takes one from the count of the old label
/// and adds one to that of the new.
pub proof fn lemma_count_update(labels: Seq<usize>, item: int, category: usize, k: int)
    requires
        0 <= item < labels.len(),
    ensures
        count_of(labels.update(item, category), k) + (if labels[item] == k {
            1nat
        } else {
            0nat
        }) == count_of(labels, k) + (if category == k {
            1nat
        } else {
            0nat
        }),
{
    let moved = labels.update(item, category);
    let p = has_label(labels, k);
    let q = has_label(moved, k);
    assert forall|i: int| 0 <= i < labels.len() && i != item implies #[trigger] p(i) == q(i) by {
        assert(moved[i] == labels[i]);
    }
    lemma_count_differ_at(labels.len(), p, q, item);
}

/// Appending an item adds one to the count of its label.
pub proof fn lemma_count_push(labels: Seq<usize>, category: usize, k: int)
    ensures
        count_of(labels.push(category), k) == count_of(labels, k) + (if category == k {
            1nat
        } else {
            0nat
        }),
{
    let longer = labels.push(category);
    let p = has_label(labels, k);
    let q = has_label(longer, k);
    assert forall|i: int| 0 <= i < labels.len() implies #[trigger] q(i) == p(i) by {
        assert(longer[i] == labels[i]);
    }
    lemma_count_agree(labels.len(), q, p);
    assert(q(labels.len() as int) == (category == k));
}

/// Closing an unused category shifts the counts above it down by one place.
pub proof fn lemma_count_relabel(labels: Seq<usize>, gone: int, k: int)
    requires
        0 <= gone,
        0 <= k,
        forall|i: int| 0 <= i < labels.len() ==> #[trigger] labels[i] != gone,
    ensures
        count_of(relabeled(labels, gone), k) == count_of(
            labels,
            if k < gone {
                k
            } else {
                k + 1
            },
        ),
{
    let shifted = relabeled(labels, gone);
    let source = if k < gone {
        k
    } else {
        k + 1
    };
    let p = has_label(shifted, k);
    let q = has_label(labels, source);
    assert forall|i: int| 0 <= i < labels.len() implies #[trigger] p(i) == q(i) by {
        assert(labels[i] != gone);
    }
    lemma_count_agree(labels.len(), p, q);
}

/// The first `j` category sizes add up to the number of items labelled
/// below `j`.
pub proof fn lemma_sum_is_below(labels: Seq<usize>, counts: Seq<usize>, j: nat)
    requires
        j <= counts.len(),
        forall|k: int| 0 <= k < j ==> #[trigger] counts[k] == count_of(labels, k),
    ensures
        sum_upto(counts, j) == count_where(labels.len(), label_below(labels, j as int)),
    decreases j,
{
    if j == 0 {
        lemma_count_none(labels.len(), label_below(labels, 0));
    } else {
        lemma_sum_is_below(labels, counts, (j - 1) as nat);
        lemma_count_split(
            labels.len(),
            label_below(labels, j as int),
            label_below(labels, j - 1),
            has_label(labels, j - 1),
        );
    }
}

/// A sum of `j` positive sizes is at least `j`.
pub proof fn lemma_sum_at_least(counts: Seq<usize>, j: nat)
    requires
        j <= counts.len(),
        forall|k: int| 0 <= k < j ==> #[trigger] counts[k] >= 1,
    ensures
        sum_upto(counts, j) >= j,
    decreases j,
{
    if j > 0 {
        lemma_sum_at_least(counts, (j - 1) as nat);
    }
}

/// The sizes of a partition add up to the number of items, and there are no
/// more categories than items.
pub proof fn lemma_partition_total(labels: Seq<usize>, counts: Seq<usize>)
    requires
        is_partition(labels, counts),
    ensures
        total(counts) == labels.len(),
        counts.len() <= labels.len(),
{
    lemma_sum_is_below(labels, counts, counts.len());
    lemma_count_all(labels.len(), label_below(labels, counts.len() as int));
    lemma_sum_at_least(counts, counts.len());
}

/// The labels of a partition are dense.
pub proof fn lemma_partition_dense(labels: Seq<usize>, counts: Seq<usize>)
    requires
        is_partition(labels, counts),
    ensures
        dense(labels),
{
    assert forall|i: int, k: int|
        #![trigger labels[i], count_of(labels, k)]
        0 <= i < labels.len() && 0 <= k <= labels[i] implies count_of(labels, k) >= 1 by {
        assert(labels[i] < counts.len());
        assert(counts[k] >= 1);
    }
}

/// The labels determine the table of sizes.
pub proof fn lemma_counts_unique(labels: Seq<usize>, first: Seq<usize>, second: Seq<usize>)
    requires
        is_partition(labels, first),
        is_partition(labels, second),
    ensures
        first == second,
{
    if first.len() < second.len() {
        let k = first.len() as int;
        assert(second[k] >= 1);
        let at = lemma_count_positive(labels.len(), has_label(labels, k));
        assert(labels[at] < first.len());
    }
    if second.len() < first.len() {
        let k = second.len() as int;
        assert(first[k] >= 1);
        let at = lemma_count_positive(labels.len(), has_label(labels, k));
        assert(labels[at] < second.len());
    }
    assert forall|k: int| 0 <= k < first.len() implies first[k] == second[k] by {
        assert(first[k] == count_of(labels, k));
        assert(second[k] == count_of(labels, k));
    }
    assert(first =~= second);
}

/// Labels that hold a number as large as their own length skip a label.
pub proof fn lemma_large_label_not_dense(labels: Seq<usize>, at: int)
    requires
        0 <= at < labels.len(),
        labels[at] >= labels.len(),
    ensures
        !dense(labels),
{
    if dense(labels) {
        let n = labels.len();
        let sizes = Seq::new(n + 1, |k: int| count_of(labels, k) as usize);
        assert forall|k: int| 0 <= k < n + 1 implies #[trigger] sizes[k] == count_of(labels, k)
            && sizes[k] >= 1 by {
            lemma_count_bound(n, has_label(labels, k));
            assert(0 <= k <= labels[at]);
            assert(count_of(labels, k) >= 1);
        }
        lemma_sum_is_below(labels, sizes, n + 1);
        lemma_sum_at_least(sizes, n + 1);
        lemma_count_bound(n, label_below(labels, (n + 1) as int));
    }
}

/// Why an operation on an [`Assignment`] was refused.
#[derive(Debug, Clone, Copy, PartialEq, Eq, Structural)]
pub enum AssignmentError {
    /// The item index is not below the number of items.
    ItemOutOfBounds,
    /// The category is neither an existing one nor the next new one.
    CategoryOutOfBounds,
    /// The labels skip a category, which would then be empty.
    EmptyCategory,
}

/// A partition of `asgn.len()` items into `counts.len()` categories.
#[derive(Debug, PartialEq, Eq)]
pub struct Assignment {
    /// The category of each item.
    pub asgn: Vec<usize>,
    /// The number of items in each category.
    pub counts: Vec<usize>,
}

/// The table of category sizes of `labels`, if the labels are dense.
fn tally(labels: &Vec<usize>) -> (res: Option<Vec<usize>>)
    ensures
        res is Some <==> dense(labels@),
        res matches Some(c) ==> is_partition(labels@, c@),
{
    let n: usize = labels.len();
    let mut counts: Vec<usize> = Vec::new();
    let mut i: usize = 0;
    while i < n
        invariant
            i <= n,
            counts@.len() == i,
            forall|k: int| 0 <= k < i ==> counts@[k] == 0,
        decreases n - i,
    {
        counts.push(0);
        i += 1;
    }
    i = 0;
    proof {
        assert forall|k: int| 0 <= k < n implies #[trigger] counts@[k] == count_where(
            0,
            has_label(labels@, k),
        ) by {}
    }
    while i < n
        invariant
            i <= n,
            n == labels@.len(),
            counts@.len() == n,
            forall|j: int| 0 <= j < i ==> #[trigger] labels@[j] < n,
            forall|k: int|
                0 <= k < n ==> #[trigger] counts@[k] == count_where(
                    i as nat,
                    has_label(labels@, k),
                ),
        decreases n - i,
    {
        let label: usize = labels[i];
        if label >= n {
            proof {
                lemma_large_label_not_dense(labels@, i as int);
            }
            return None;
        }
        proof {
            lemma_count_bound((i + 1) as nat, has_label(labels@, label as int));
        }
        let c: usize = counts[label];
        let ghost earlier = counts@;
        counts.set(label, c + 1);
        proof {
            assert forall|k: int| 0 <= k < n implies #[trigger] counts@[k] == count_where(
                (i + 1) as nat,
                has_label(labels@, k),
            ) by {
                assert(earlier[k] == count_where(i as nat, has_label(labels@, k)));
            }
        }
        i += 1;
    }
    let mut k: usize = 0;
    while k < n && counts[k] != 0
        invariant
            k <= n,
            n == labels@.len(),
            counts@.len() == n,
            forall|i: int| 0 <= i < n ==> #[trigger] labels@[i] < n,
            forall|c: int| 0 <= c < n ==> #[trigger] counts@[c] == count_of(labels@, c),
            forall|c: int| 0 <= c < k ==> #[trigger] counts@[c] >= 1,
        decreases n - k,
    {
        k += 1;
    }
    let mut j: usize = k;
    while j < n
        invariant
            k <= j <= n,
            n == labels@.len(),
            counts@.len() == n,
            k < n ==> counts@[k as int] == 0,
            forall|i: int| 0 <= i < n ==> #[trigger] labels@[i] < n,
            forall|c: int| 0 <= c < n ==> #[trigger] counts@[c] == count_of(labels@, c),
            forall|c: int| 0 <= c < k ==> #[trigger] counts@[c] >= 1,
            forall|c: int| k <= c < j ==> #[trigger] counts@[c] == 0,
        decreases n - j,
    {
        if counts[j] != 0 {
            proof {
                let at = lemma_count_positive(n as nat, has_label(labels@, j as int));
                assert(labels@[at] == j);
                assert(counts@[k as int] == count_of(labels@, k as int));
                assert(0 <= k <= labels@[at]);
            }
            return None;
        }
        j += 1;
    }
    let ghost full = counts@;
    counts.truncate(k);
    proof {
        assert forall|i: int| 0 <= i < n implies #[trigger] labels@[i] < k by {
            let label = labels@[i] as int;
            if label >= k {
                if label < n {
                    lemma_count_witness(n as nat, has_label(labels@, label), i);
                    assert(full[label] == count_of(labels@, label));
                }
            }
        }
        assert forall|c: int| 0 <= c < k implies #[trigger] counts@[c] >= 1 && counts@[c]
            == count_of(labels@, c) by {
            assert(counts@[c] == full[c]);
        }
        lemma_partition_dense(labels@, counts@);
    }
    Some(counts)
}

/// Whether two tables hold the same numbers.
pub fn same_numbers(first: &Vec<usize>, second: &Vec<usize>) -> (same: bool)
    ensures
        same == (first@ == second@),
{
    if first.len() != second.len() {
        return false;
    }
    let mut i: usize = 0;
    while i < first.len()
        invariant
            i <= first@.len(),
            first@.len() == second@.len(),
            forall|j: int| 0 <= j < i ==> first@[j] == second@[j],
        decreases first@.len() - i,
    {
        if first[i] != second[i] {
            return false;
        }
        i += 1;
    }
    assert(first@ =~= second@);
    true
}

/// A copy of a table of numbers.
pub fn copy_numbers(source: &Vec<usize>) -> (copy: Vec<usize>)
    ensures
        copy@ == source@,
{
    let mut copy: Vec<usize> = Vec::new();
    let mut i: usize = 0;
    while i < source.len()
        invariant
            i <= source@.len(),
            copy@ == source@.take(i as int),
        decreases source@.len() - i,
    {
        copy.push(source[i]);
        assert(source@.take(i as int).push(source@[i as int]) =~= source@.take(i + 1));
        i += 1;
    }
    assert(source@.take(source@.len() as int) =~= source@);
    copy
}

impl Assignment {
    /// The size table agrees with the labels and no category is empty.
    pub open spec fn wf(&self) -> bool {
        is_partition(self.asgn@, self.counts@)
    }

    /// The partition of no items.
    pub fn empty() -> (a: Assignment)
        ensures
            a.wf(),
            a.asgn@.len() == 0,
            a.counts@.len() == 0,
    {
        Assignment { asgn: Vec::new(), counts: Vec::new() }
    }

    /// The partition that puts all `n` items into one category.
    pub fn flat(n: usize) -> (a: Assignment)
        ensures
            a.wf(),
            a.asgn@ == Seq::new(n as nat, |i: int| 0usize),
            a.counts@ == (if n == 0 {
                Seq::<usize>::empty()
            } else {
                seq![n]
            }),
    {
        let mut asgn: Vec<usize> = Vec::new();
        let mut i: usize = 0;
        while i < n
            invariant
                i <= n,
                asgn@ == Seq::new(i as nat, |j: int| 0usize),
            decreases n - i,
        {
            asgn.push(0);
            assert(asgn@ =~= Seq::new((i + 1) as nat, |j: int| 0usize));
            i += 1;
        }
        let mut counts: Vec<usize> = Vec::new();
        if n > 0 {
            counts.push(n);
            proof {
                lemma_count_all(n as nat, has_label(asgn@, 0));
            }
        }
        assert(counts@ =~= (if n == 0 {
            Seq::<usize>::empty()
        } else {
            seq![n]
        }));
        Assignment { asgn, counts }
    }

    /// The partition with the given labels. The labels must be dense: a
    /// label may be used only if every smaller one is used too.
    pub fn from_vec(labels: Vec<usize>) -> (res: Result<Assignment, AssignmentError>)
        ensures
            res is Ok <==> dense(labels@),
            res matches Ok(a) ==> a.wf() && a.asgn@ == labels@,
            res matches Err(e) ==> e == AssignmentError::EmptyCategory,
    {
        match tally(&labels) {
            Some(counts) => Ok(Assignment { asgn: labels, counts }),
            None => Err(AssignmentError::EmptyCategory),
        }
    }

    /// The partition that a sequence of draws makes: item `i` joins the
    /// category `draws[i]`, which is one that an earlier item opened or the
    /// next new one.
    pub fn from_draws(draws: &Vec<usize>) -> (res: Result<Assignment, AssignmentError>)
        ensures
            res is Ok <==> sequential(draws@),
            res matches Ok(a) ==> a.wf() && a.asgn@ == draws@,
            res matches Err(e) ==> e == AssignmentError::CategoryOutOfBounds,
    {
        let mut a = Assignment { asgn: Vec::new(), counts: Vec::new() };
        let mut i: usize = 0;
        while i < draws.len()
            invariant
                i <= draws@.len(),
                a.wf(),
                a.asgn@ == draws@.take(i as int),
                a.counts@.len() == n_opened(draws@, i as nat),
                forall|j: int| 0 <= j < i ==> #[trigger] draws@[j] <= n_opened(draws@, j as nat),
            decreases draws@.len() - i,
        {
            match a.append_item(draws[i]) {
                Ok(()) => {},
                Err(e) => {
                    return Err(e);
                },
            }
            assert(draws@.take(i as int).push(draws@[i as int]) =~= draws@.take(i + 1));
            i += 1;
        }
        assert(draws@.take(draws@.len() as int) =~= draws@);
        Ok(a)
    }

    /// Whether the size table agrees with the labels and no category is
    /// empty.
    pub fn validate(&self) -> (valid: bool)
        ensures
            valid == self.wf(),
    {
        match tally(&self.asgn) {
            Some(counts) => {
                proof {
                    if self.wf() {
                        lemma_counts_unique(self.asgn@, counts@, self.counts@);
                    }
                }
                same_numbers(&counts, &self.counts)
            },
            None => {
                proof {
                    if self.wf() {
                        lemma_partition_dense(self.asgn@, self.counts@);
                    }
                }
                false
            },
        }
    }

    /// A copy of this partition.
    pub fn duplicate(&self) -> (a: Assignment)
        ensures
            a.asgn@ == self.asgn@,
            a.counts@ == self.counts@,
    {
        Assignment { asgn: copy_numbers(&self.asgn), counts: copy_numbers(&self.counts) }
    }

    /// The number of items.
    pub fn len(&self) -> (n: usize)
        ensures
            n == self.asgn@.len(),
    {
        self.asgn.len()
    }

    /// Whether there are no items.
    pub fn is_empty(&self) -> (none: bool)
        ensures
            none == (self.asgn@.len() == 0),
    {
        self.asgn.len() == 0
    }

    /// The number of categories.
    pub fn n_cats(&self) -> (k: usize)
        ensures
            k == self.counts@.len(),
    {
        self.counts.len()
    }

    /// The category of `item`, if there is such an item.
    pub fn category_of(&self, item: usize) -> (category: Option<usize>)
        ensures
            category == (if item < self.asgn@.len() {
                Some(self.asgn@[item as int])
            } else {
                None
            }),
    {
        if item < self.asgn.len() {
            Some(self.asgn[item])
        } else {
            None
        }
    }

    /// The number of items in `category`, if there is such a category.
    pub fn size_of(&self, category: usize) -> (size: Option<usize>)
        ensures
            size == (if category < self.counts@.len() {
                Some(self.counts@[category as int])
            } else {
                None
            }),
    {
        if category < self.counts.len() {
            Some(self.counts[category])
        } else {
            None
        }
    }

    /// The size of each category when `item` is left out: what the other
    /// items weigh in for each category when `item` is to be placed anew.
    pub fn sizes_without(&self, item: usize) -> (sizes: Option<Vec<usize>>)
        requires
            self.wf(),
        ensures
            sizes is Some <==> item < self.asgn@.len(),
            sizes matches Some(w) ==> w@.len() == self.counts@.len() && forall|k: int|
                0 <= k < w@.len() ==> #[trigger] w@[k] == count_of(self.asgn@,
                    k) - (if self.asgn@[item as int] == k {
                    1int
                } else {
                    0int
                }),
    {
        if item >= self.asgn.len() {
            return None;
        }
        let own: usize = self.asgn[item];
        assert(self.asgn@[item as int] < self.counts@.len());
        let mut sizes = copy_numbers(&self.counts);
        let size: usize = sizes[own];
        assert(self.counts@[own as int] >= 1);
        sizes.set(own, size - 1);
        proof {
            assert forall|k: int| 0 <= k < sizes@.len() implies #[trigger] sizes@[k] == count_of(
                self.asgn@,
                k,
            ) - (if self.asgn@[item as int] == k {
                1int
            } else {
                0int
            }) by {
                assert(self.counts@[k] == count_of(self.asgn@, k));
            }
        }
        Some(sizes)
    }

    /// Moves `item` to `category`. A `category` equal to the number of
    /// categories opens a new one. If the item was the last of its old
    /// category, that category is closed and every category above it is
    /// renumbered one lower.
    pub fn reassign_item(&mut self, item: usize, category: usize) -> (res: Result<
        Reassignment,
        AssignmentError,
    >)
        requires
            old(self).wf(),
        ensures
            final(self).wf(),
            item >= old(self).asgn@.len() ==> res == Err::<Reassignment, AssignmentError>(
                AssignmentError::ItemOutOfBounds,
            ),
            item < old(self).asgn@.len() && category > old(self).counts@.len() ==> res == Err::<
                Reassignment,
                AssignmentError,
            >(AssignmentError::CategoryOutOfBounds),
            item < old(self).asgn@.len() && category <= old(self).counts@.len() ==> res == Ok::<
                Reassignment,
                AssignmentError,
            >(reassignment(old(self).asgn@, old(self).counts@.len(), item as int, category)),
            res is Ok ==> final(self).asgn@ == reassigned(old(self).asgn@, item as int, category),
            res matches Ok(change) ==> final(self).counts@.len() == n_cats_after(
                old(self).counts@.len(),
                change,
            ),
            res is Err ==> final(self).asgn@ == old(self).asgn@
                && final(self).counts@ == old(self).counts@,
    {
        let n: usize = self.asgn.len();
        if item >= n {
            return Err(AssignmentError::ItemOutOfBounds);
        }
        let k: usize = self.counts.len();
        if category > k {
            return Err(AssignmentError::CategoryOutOfBounds);
        }
        let from: usize = self.asgn[item];
        let ghost before = self.asgn@;
        if from == category {
            assert(before.update(item as int, category) =~= before);
            return Ok(Reassignment { from, to: category, opened: false, closed: false });
        }
        self.asgn.set(item, category);
        let ghost moved = self.asgn@;
        proof {
            assert forall|c: int| 0 <= c <= k implies count_of(moved, c) + (if from == c {
                1nat
            } else {
                0nat
            }) == #[trigger] count_of(before, c) + (if category == c {
                1nat
            } else {
                0nat
            }) by {
                lemma_count_update(before, item as int, category, c);
            }
            lemma_count_bound(moved.len(), has_label(moved, category as int));
            if category == k {
                assert forall|i: int| 0 <= i < before.len() implies !#[trigger] has_label(
                    before,
                    k as int,
                )(i) by {
                    assert(before[i] < k);
                }
                lemma_count_none(before.len(), has_label(before, k as int));
            }
        }
        if category == k {
            self.counts.push(1);
        } else {
            let c: usize = self.counts[category];
            self.counts.set(category, c + 1);
        }
        let c_from: usize = self.counts[from];
        self.counts.set(from, (c_from - 1) as usize);
        let ghost sizes = self.counts@;
        assert forall|c: int| 0 <= c < sizes.len() implies #[trigger] sizes[c] == count_of(
            moved,
            c,
        ) by {
            assert(count_of(moved, c) + (if from == c {
                1nat
            } else {
                0nat
            }) == count_of(before, c) + (if category == c {
                1nat
            } else {
                0nat
            }));
            if c < k {
                assert(old(self).counts@[c] == count_of(before, c));
            }
        }
        assert forall|i: int| 0 <= i < n implies #[trigger] moved[i] < sizes.len() by {
            if i != item {
                assert(moved[i] == before[i]);
            }
        }
        if c_from == 1 {
            self.counts.remove(from);
            proof {
                assert forall|i: int| 0 <= i < n implies #[trigger] moved[i] != from by {
                    if moved[i] == from {
                        lemma_count_witness(n as nat, has_label(moved, from as int), i);
                        assert(sizes[from as int] == count_of(moved, from as int));
                    }
                }
            }
            let mut j: usize = 0;
            while j < n
                invariant
                    j <= n,
                    self.asgn@.len() == n,
                    moved.len() == n,
                    self.counts@ == sizes.remove(from as int),
                    forall|i: int|
                        0 <= i < j ==> #[trigger] self.asgn@[i] == relabeled(moved, from as int)[i],
                    forall|i: int| j <= i < n ==> #[trigger] self.asgn@[i] == moved[i],
                decreases n - j,
            {
                let label: usize = self.asgn[j];
                if label > from {
                    self.asgn.set(j, label - 1);
                }
                j += 1;
            }
            proof {
                let shifted = relabeled(moved, from as int);
                assert(self.asgn@ =~= shifted);
                assert forall|i: int| 0 <= i < n implies #[trigger] shifted[i]
                    < self.counts@.len() by {
                    assert(moved[i] < sizes.len());
                    assert(moved[i] != from);
                }
                assert forall|c: int| 0 <= c < self.counts@.len() implies #[trigger] self.counts@[c]
                    >= 1 && self.counts@[c] == count_of(shifted, c) by {
                    lemma_count_relabel(moved, from as int, c);
                    if c < from {
                        assert(self.counts@[c] == sizes[c]);
                        assert(old(self).counts@[c] >= 1);
                    } else {
                        assert(self.counts@[c] == sizes[c + 1]);
                        if c + 1 < k {
                            assert(old(self).counts@[c + 1] >= 1);
                        }
                    }
                }
            }
        } else {
            proof {
                assert forall|c: int| 0 <= c < sizes.len() implies #[trigger] sizes[c] >= 1 by {
                    if c < k {
                        assert(old(self).counts@[c] >= 1);
                    }
                }
            }
        }
        Ok(Reassignment { from, to: category, opened: category == k, closed: c_from == 1 })
    }

    /// Adds one item, in `category`. A `category` equal to the number of
    /// categories opens a new one.
    pub fn append_item(&mut self, category: usize) -> (res: Result<(), AssignmentError>)
        requires
            old(self).wf(),
        ensures
            final(self).wf(),
            res is Ok <==> category <= old(self).counts@.len(),
            res is Ok ==> final(self).asgn@ == old(self).asgn@.push(category),
            res is Ok ==> final(self).counts@.len() == (if category == old(self).counts@.len() {
                old(self).counts@.len() + 1
            } else {
                old(self).counts@.len()
            }),
            res matches Err(e) ==> e == AssignmentError::CategoryOutOfBounds && final(self).asgn@
                == old(self).asgn@ && final(self).counts@ == old(self).counts@,
    {
        let k: usize = self.counts.len();
        if category > k {
            return Err(AssignmentError::CategoryOutOfBounds);
        }
        let ghost before = self.asgn@;
        self.asgn.push(category);
        let n: usize = self.asgn.len();
        proof {
            assert forall|c: int| 0 <= c <= k implies #[trigger] count_of(self.asgn@, c)
                == count_of(before, c) + (if category == c {
                1nat
            } else {
                0nat
            }) by {
                lemma_count_push(before, category, c);
            }
            lemma_count_bound(n as nat, has_label(self.asgn@, category as int));
            if category == k {
                assert forall|i: int| 0 <= i < before.len() implies !#[trigger] has_label(
                    before,
                    k as int,
                )(i) by {
                    assert(before[i] < k);
                }
                lemma_count_none(before.len(), has_label(before, k as int));
            }
        }
        if category == k {
            self.counts.push(1);
        } else {
            let c: usize = self.counts[category];
            assert(c == count_of(before, category as int));
            assert(count_of(self.asgn@, category as int) == c + 1);
            self.counts.set(category, c + 1);
        }
        proof {
            assert forall|i: int| 0 <= i < self.asgn@.len() implies #[trigger] self.asgn@[i]
                < self.counts@.len() by {
                if i < before.len() {
                    assert(self.asgn@[i] == before[i]);
                }
            }
            assert forall|c: int| 0 <= c < self.counts@.len() implies #[trigger] self.counts@[c]
                >= 1 && self.counts@[c] == count_of(self.asgn@, c) by {
                assert(count_of(self.asgn@, c) == count_of(before, c) + (if category == c {
                    1nat
                } else {
                    0nat
                }));
                if c < k {
                    assert(old(self).counts@[c] >= 1);
                }
            }
        }
        Ok(())
    }
}

/// In a well-formed assignment the sizes add up to the number of items, no
/// category is empty, every label names a category, and there are no more
/// categories than items.
pub proof fn lemma_partition_invariants(a: Assignment)
    requires
        a.wf(),
    ensures
        total(a.counts@) == a.asgn@.len(),
        a.counts@.len() <= a.asgn@.len(),
        forall|k: int| 0 <= k < a.counts@.len() ==> #[trigger] a.counts@[k] >= 1,
        forall|i: int| 0 <= i < a.asgn@.len() ==> #[trigger] a.asgn@[i] < a.counts@.len(),
{
    lemma_partition_total(a.asgn@, a.counts@);
}

} // verus!
