//! Sufficient statistics of categorical observations.
//!
//! For a column of categorical values the statistics of one category are
//! the number of observations and, for each value, how often it was seen.
//! They can be kept up to date one observation at a time.

use crate::assignment::copy_numbers;
use vstd::prelude::*;

verus! {

/// Why a statistic refused an observation.
#[derive(Debug, Clone, Copy, PartialEq, Eq, Structural)]
pub enum StatError {
    /// The value is not below the cardinality.
    ValueOutOfRange,
    /// No observation of this value is held, so none can be taken away.
    NotObserved,
}

/// The statistics of the categorical observations of one category.
#[derive(Debug, PartialEq, Eq)]
pub struct CategoricalSuffStat {
    /// The number of observations.
    pub n: usize,
    /// For each value, the number of observations of it.
    pub counts: Vec<usize>,
}

impl CategoricalSuffStat {
    /// The statistics of no observations, for values below `card`.
    pub fn new(card: usize) -> (stat: CategoricalSuffStat)
        ensures
            stat.n == 0,
            stat.counts@ == Seq::new(card as nat, |x: int| 0usize),
    {
        let mut counts: Vec<usize> = Vec::new();
        let mut x: usize = 0;
        while x < card
            invariant
                x <= card,
                counts@ == Seq::new(x as nat, |y: int| 0usize),
            decreases card - x,
        {
            counts.push(0);
            assert(counts@ =~= Seq::new((x + 1) as nat, |y: int| 0usize));
            x += 1;
        }
        CategoricalSuffStat { n: 0, counts }
    }

    /// A copy of the statistics.
    pub fn duplicate(&self) -> (copy: CategoricalSuffStat)
        ensures
            copy.n == self.n,
            copy.counts@ == self.counts@,
    {
        CategoricalSuffStat { n: self.n, counts: copy_numbers(&self.counts) }
    }

    /// The number of values that an observation can take.
    pub fn card(&self) -> (card: usize)
        ensures
            card == self.counts@.len(),
    {
        self.counts.len()
    }

    /// The number of observations.
    pub fn n(&self) -> (n: usize)
        ensures
            n == self.n,
    {
        self.n
    }

    /// The number of observations of `x`; zero for a value out of range.
    pub fn count(&self, x: u8) -> (c: usize)
        ensures
            c == (if x < self.counts@.len() {
                self.counts@[x as int]
            } else {
                0
            }),
    {
        let at: usize = x as usize;
        if at < self.counts.len() {
            self.counts[at]
        } else {
            0
        }
    }

    /// Records one observation of `x`.
    pub(crate) fn add_one(&mut self, x: u8)
        requires
            x < old(self).counts@.len(),
            old(self).counts@[x as int] < usize::MAX,
            old(self).n < usize::MAX,
        ensures
            final(self).n == old(self).n + 1,
            final(self).counts@ == old(self).counts@.update(
                x as int,
                (old(self).counts@[x as int] + 1) as usize,
            ),
    {
        let at: usize = x as usize;
        let c: usize = self.counts[at];
        self.counts.set(at, c + 1);
        self.n = self.n + 1;
    }

    /// Takes one observation of `x` away.
    pub(crate) fn sub_one(&mut self, x: u8)
        requires
            x < old(self).counts@.len(),
            old(self).counts@[x as int] >= 1,
            old(self).n >= 1,
        ensures
            final(self).n == old(self).n - 1,
            final(self).counts@ == old(self).counts@.update(
                x as int,
                (old(self).counts@[x as int] - 1) as usize,
            ),
    {
        let at: usize = x as usize;
        let c: usize = self.counts[at];
        self.counts.set(at, c - 1);
        self.n = self.n - 1;
    }

    /// Records one observation of `x`, if `x` is a value of this statistic.
    pub fn insert(&mut self, x: u8) -> (res: Result<(), StatError>)
        requires
            old(self).n < usize::MAX,
            forall|y: int| 0 <= y < old(self).counts@.len() ==> old(self).counts@[y] < usize::MAX,
        ensures
            res is Ok <==> x < old(self).counts@.len(),
            res is Ok ==> final(self).n == old(self).n + 1
                && final(self).counts@ == old(self).counts@.update(x as int,
                    (old(self).counts@[x as int] + 1) as usize),
            res matches Err(e) ==> e == StatError::ValueOutOfRange && final(self).n == old(self).n
                && final(self).counts@ == old(self).counts@,
    {
        if (x as usize) < self.counts.len() {
            self.add_one(x);
            Ok(())
        } else {
            Err(StatError::ValueOutOfRange)
        }
    }

    /// Takes one observation of `x` away, if one is held.
    pub fn remove(&mut self, x: u8) -> (res: Result<(), StatError>)
        ensures
            x >= old(self).counts@.len() ==> res == Err::<(), StatError>(
                StatError::ValueOutOfRange,
            ),
            x < old(self).counts@.len() && (old(self).counts@[x as int] == 0 || old(self).n == 0)
                ==> res == Err::<(), StatError>(StatError::NotObserved),
            x < old(self).counts@.len() && old(self).counts@[x as int] >= 1 && old(self).n >= 1
                ==> res is Ok,
            res is Ok ==> final(self).n == old(self).n - 1
                && final(self).counts@ == old(self).counts@.update(x as int,
                    (old(self).counts@[x as int] - 1) as usize),
            res is Err ==> final(self).n == old(self).n && final(self).counts@ == old(self).counts@,
    {
        let at: usize = x as usize;
        if at >= self.counts.len() {
            return Err(StatError::ValueOutOfRange);
        }
        if self.counts[at] == 0 || self.n == 0 {
            return Err(StatError::NotObserved);
        }
        self.sub_one(x);
        Ok(())
    }
}

} // verus!
