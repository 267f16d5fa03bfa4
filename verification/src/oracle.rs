//! Queries over an ensemble of states: how often two columns depend on
//! each other, and how similar two rows are.
//!
//! The answers are exact counts, given as fractions. Over the ensemble a
//! query is the plain mean of what the states answer, each state counting
//! once.

use crate::counting::{
    count_where, lemma_count_agree, lemma_count_all, lemma_count_bound, lemma_count_none,
};
use crate::engine::Engine;
use crate::error::ModelError;
use crate::state::State;
use vstd::prelude::*;

verus! {

/// A count `num` out of `den`.
#[derive(Debug, Clone, Copy, PartialEq, Eq, Structural)]
pub struct Fraction {
    /// The number of cases counted.
    pub num: usize,
    /// The number of cases looked at.
    pub den: usize,
}

/// How the views of a state are weighed in the similarity of two rows.
#[derive(Debug, Clone, Copy, PartialEq, Eq, Structural)]
pub enum RowSimilarityVariant {
    /// Each view counts as often as it has columns of the context.
    ViewWeighted,
    /// Each view that has a column of the context counts once.
    Standard,
}

/// The predicate "in state `s`, columns `a` and `b` are in the same view".
pub open spec fn together(states: Seq<State>, a: int, b: int) -> spec_fn(int) -> bool {
    |s: int| states[s].asgn.asgn@[a] == states[s].asgn.asgn@[b]
}

/// The number of states in which columns `a` and `b` are in the same view,
/// out of the number of states.
pub open spec fn depprob_of(states: Seq<State>, a: int, b: int) -> Fraction {
    Fraction {
        num: count_where(states.len(), together(states, a, b)) as usize,
        den: states.len() as usize,
    }
}

/// In view `v` of `state`, rows `row_a` and `row_b` are in the same
/// category.
pub open spec fn shares(state: State, row_a: int, row_b: int, v: int) -> bool {
    state.views@[v].asgn.asgn@[row_a] == state.views@[v].asgn.asgn@[row_b]
}

/// The identifiers `0..n`, in order.
pub open spec fn all_columns(n: nat) -> Seq<usize> {
    Seq::new(n, |c: int| c as usize)
}

/// The columns with respect to which similarity is taken: `wrt`, or every
/// column where `wrt` is empty.
pub open spec fn context_of(state: State, wrt: Seq<usize>) -> Seq<usize> {
    if wrt.len() == 0 {
        all_columns(state.asgn.asgn@.len())
    } else {
        wrt
    }
}

/// Every column of `wrt` is below `n_cols`.
pub open spec fn known_columns(wrt: Seq<usize>, n_cols: nat) -> bool {
    forall|i: int| 0 <= i < wrt.len() ==> #[trigger] wrt[i] < n_cols
}

/// The predicate "the rows share a category in the view of the `i`-th
/// column of the context".
pub open spec fn column_agrees(state: State, ctx: Seq<usize>, row_a: int, row_b: int) -> spec_fn(
    int,
) -> bool {
    |i: int| shares(state, row_a, row_b, state.asgn.asgn@[ctx[i] as int] as int)
}

/// View `v` holds one of the first `upto` columns of `wrt`, or `wrt` is
/// empty.
pub open spec fn considered_upto(state: State, wrt: Seq<usize>, v: int, upto: int) -> bool {
    wrt.len() == 0 || exists|i: int|
        0 <= i < upto && state.asgn.asgn@[(#[trigger] wrt[i]) as int] == v
}

/// View `v` holds a column of `wrt`, or `wrt` is empty.
pub open spec fn considered(state: State, wrt: Seq<usize>, v: int) -> bool {
    considered_upto(state, wrt, v, wrt.len() as int)
}

/// The predicate "view `v` is considered".
pub open spec fn view_counts(state: State, wrt: Seq<usize>) -> spec_fn(int) -> bool {
    |v: int| considered(state, wrt, v)
}

/// The predicate "view `v` is considered and the rows share a category in
/// it".
pub open spec fn view_agrees(state: State, wrt: Seq<usize>, row_a: int, row_b: int) -> spec_fn(
    int,
) -> bool {
    |v: int| considered(state, wrt, v) && shares(state, row_a, row_b, v)
}

/// The similarity of two rows in one state. Weighted by view, it is the
/// number of context columns in whose view the rows share a category, out
/// of the number of context columns. Otherwise it is the number of
/// considered views in which they do, out of the number of considered
/// views.
pub open spec fn rowsim_of(
    state: State,
    row_a: int,
    row_b: int,
    wrt: Seq<usize>,
    variant: RowSimilarityVariant,
) -> Fraction {
    match variant {
        RowSimilarityVariant::ViewWeighted => {
            let ctx = context_of(state, wrt);
            Fraction {
                num: count_where(ctx.len(), column_agrees(state, ctx, row_a, row_b)) as usize,
                den: ctx.len() as usize,
            }
        },
        RowSimilarityVariant::Standard => Fraction {
            num: count_where(state.views@.len(), view_agrees(state, wrt, row_a, row_b)) as usize,
            den: count_where(state.views@.len(), view_counts(state, wrt)) as usize,
        },
    }
}

/// Some column is both in `targets` and in `context`.
pub open spec fn overlapping(targets: Seq<usize>, context: Seq<usize>) -> bool {
    exists|i: int, j: int|
        0 <= i < targets.len() && 0 <= j < context.len() && #[trigger] targets[i]
            == #[trigger] context[j]
}

/// Whether every column of `wrt` is below `n_cols`.
fn all_known(wrt: &Vec<usize>, n_cols: usize) -> (known: bool)
    ensures
        known == known_columns(wrt@, n_cols as nat),
{
    let mut i: usize = 0;
    while i < wrt.len()
        invariant
            i <= wrt@.len(),
            forall|j: int| 0 <= j < i ==> #[trigger] wrt@[j] < n_cols,
        decreases wrt@.len() - i,
    {
        if wrt[i] >= n_cols {
            return false;
        }
        i += 1;
    }
    true
}

/// Checks a query that asks for `targets` given `context` against a table
/// of `n_cols` columns.
pub fn validate_query(n_cols: usize, targets: &Vec<usize>, context: &Vec<usize>) -> (res: Result<
    (),
    ModelError,
>)
    ensures
        !(known_columns(targets@, n_cols as nat) && known_columns(context@, n_cols as nat))
            ==> res == Err::<(), ModelError>(ModelError::UnknownColumn),
        known_columns(targets@, n_cols as nat) && known_columns(context@, n_cols as nat)
            && overlapping(targets@, context@) ==> res == Err::<(), ModelError>(
            ModelError::OverlappingContext,
        ),
        known_columns(targets@, n_cols as nat) && known_columns(context@, n_cols as nat)
            && !overlapping(targets@, context@) ==> res is Ok,
{
    if !all_known(targets, n_cols) {
        return Err(ModelError::UnknownColumn);
    }
    if !all_known(context, n_cols) {
        return Err(ModelError::UnknownColumn);
    }
    let mut i: usize = 0;
    while i < targets.len()
        invariant
            i <= targets@.len(),
            known_columns(targets@, n_cols as nat),
            known_columns(context@, n_cols as nat),
            forall|a: int, b: int|
                0 <= a < i && 0 <= b < context@.len() ==> #[trigger] targets@[a]
                    != #[trigger] context@[b],
        decreases targets@.len() - i,
    {
        let mut j: usize = 0;
        while j < context.len()
            invariant
                j <= context@.len(),
                i < targets@.len(),
                known_columns(targets@, n_cols as nat),
                known_columns(context@, n_cols as nat),
                forall|b: int| 0 <= b < j ==> targets@[i as int] != #[trigger] context@[b],
            decreases context@.len() - j,
        {
            if targets[i] == context[j] {
                return Err(ModelError::OverlappingContext);
            }
            j += 1;
        }
        i += 1;
    }
    Ok(())
}

/// The similarity of rows `row_a` and `row_b` in `state`, with respect to
/// the columns `wrt`, or to all columns where `wrt` is empty.
pub fn rowsim_in(
    state: &State,
    row_a: usize,
    row_b: usize,
    wrt: &Vec<usize>,
    variant: RowSimilarityVariant,
) -> (res: Result<Fraction, ModelError>)
    requires
        state.wf(),
    ensures
        row_a >= state.rows() || row_b >= state.rows() ==> res == Err::<Fraction, ModelError>(
            ModelError::RowOutOfBounds,
        ),
        row_a < state.rows() && row_b < state.rows() && !known_columns(
            wrt@,
            state.asgn.asgn@.len(),
        ) ==> res == Err::<Fraction, ModelError>(ModelError::UnknownColumn),
        row_a < state.rows() && row_b < state.rows() && known_columns(
            wrt@,
            state.asgn.asgn@.len(),
        ) ==> res == Ok::<Fraction, ModelError>(
            rowsim_of(*state, row_a as int, row_b as int, wrt@, variant),
        ),
{
    let n_rows: usize = state.n_rows();
    if row_a >= n_rows || row_b >= n_rows {
        return Err(ModelError::RowOutOfBounds);
    }
    let n_cols: usize = state.n_cols();
    if !all_known(wrt, n_cols) {
        return Err(ModelError::UnknownColumn);
    }
    let k: usize = state.views.len();
    let ghost a = row_a as int;
    let ghost b = row_b as int;
    assert(state.views@[0].wf());
    match variant {
        RowSimilarityVariant::ViewWeighted => {
            let mut context: Vec<usize> = Vec::new();
            if wrt.len() == 0 {
                let mut c: usize = 0;
                while c < n_cols
                    invariant
                        c <= n_cols,
                        context@ == all_columns(c as nat),
                    decreases n_cols - c,
                {
                    context.push(c);
                    assert(context@ =~= all_columns((c + 1) as nat));
                    c += 1;
                }
            } else {
                let mut i: usize = 0;
                while i < wrt.len()
                    invariant
                        i <= wrt@.len(),
                        context@ == wrt@.take(i as int),
                    decreases wrt@.len() - i,
                {
                    context.push(wrt[i]);
                    assert(context@ =~= wrt@.take(i + 1));
                    i += 1;
                }
                assert(wrt@.take(wrt@.len() as int) =~= wrt@);
            }
            let ghost ctx = context_of(*state, wrt@);
            assert(context@ == ctx);
            assert(known_columns(ctx, n_cols as nat));
            let n: usize = context.len();
            let mut num: usize = 0;
            let mut i: usize = 0;
            while i < n
                invariant
                    i <= n,
                    n == context@.len(),
                    context@ == ctx,
                    known_columns(ctx, n_cols as nat),
                    state.wf(),
                    n_cols == state.asgn.asgn@.len(),
                    a == row_a,
                    b == row_b,
                    row_a < state.rows(),
                    row_b < state.rows(),
                    num == count_where(i as nat, column_agrees(*state, ctx, a, b)),
                    num <= i,
                decreases n - i,
            {
                let col: usize = context[i];
                assert(ctx[i as int] < n_cols);
                let home: usize = state.asgn.asgn[col];
                assert(state.asgn.asgn@[col as int] < state.views@.len());
                assert(state.views@[home as int].wf());
                assert(state.views@[0].wf());
                if state.views[home].asgn.asgn[row_a] == state.views[home].asgn.asgn[row_b] {
                    num += 1;
                }
                i += 1;
            }
            Ok(Fraction { num, den: n })
        },
        RowSimilarityVariant::Standard => {
            let all: bool = wrt.len() == 0;
            let mut flags: Vec<bool> = Vec::new();
            let mut v: usize = 0;
            while v < k
                invariant
                    v <= k,
                    flags@.len() == v,
                    forall|u: int| 0 <= u < v ==> #[trigger] flags@[u] == all,
                decreases k - v,
            {
                flags.push(all);
                v += 1;
            }
            let mut i: usize = 0;
            while i < wrt.len()
                invariant
                    i <= wrt@.len(),
                    flags@.len() == k,
                    k == state.views@.len(),
                    state.wf(),
                    n_cols == state.asgn.asgn@.len(),
                    known_columns(wrt@, n_cols as nat),
                    forall|u: int|
                        0 <= u < k ==> #[trigger] flags@[u] == considered_upto(
                            *state,
                            wrt@,
                            u,
                            i as int,
                        ),
                decreases wrt@.len() - i,
            {
                let col: usize = wrt[i];
                assert(wrt@[i as int] < n_cols);
                let home: usize = state.asgn.asgn[col];
                assert(state.asgn.asgn@[col as int] < k);
                let ghost earlier = flags@;
                flags.set(home, true);
                proof {
                    assert forall|u: int| 0 <= u < k implies #[trigger] flags@[u]
                        == considered_upto(*state, wrt@, u, i + 1) by {
                        assert(earlier[u] == considered_upto(*state, wrt@, u, i as int));
                        if u == home {
                            assert(state.asgn.asgn@[wrt@[i as int] as int] == u);
                        } else if considered_upto(*state, wrt@, u, i + 1) {
                            let w = choose|w: int|
                                0 <= w < i + 1 && state.asgn.asgn@[(#[trigger] wrt@[w]) as int]
                                    == u;
                            assert(w < i);
                        }
                    }
                }
                i += 1;
            }
            let mut num: usize = 0;
            let mut den: usize = 0;
            v = 0;
            while v < k
                invariant
                    v <= k,
                    flags@.len() == k,
                    k == state.views@.len(),
                    state.wf(),
                    a == row_a,
                    b == row_b,
                    row_a < state.rows(),
                    row_b < state.rows(),
                    forall|u: int|
                        0 <= u < k ==> #[trigger] flags@[u] == considered(*state, wrt@, u),
                    num == count_where(v as nat, view_agrees(*state, wrt@, a, b)),
                    den == count_where(v as nat, view_counts(*state, wrt@)),
                    num <= den,
                    den <= v,
                decreases k - v,
            {
                assert(state.views@[v as int].wf());
                assert(state.views@[0].wf());
                if flags[v] {
                    den += 1;
                    if state.views[v].asgn.asgn[row_a] == state.views[v].asgn.asgn[row_b] {
                        num += 1;
                    }
                }
                v += 1;
            }
            Ok(Fraction { num, den })
        },
    }
}

/// The number of states in which columns `col_a` and `col_b` are in the
/// same view, out of the number of states.
pub fn depprob(engine: &Engine, col_a: usize, col_b: usize) -> (res: Result<Fraction, ModelError>)
    requires
        engine.wf(),
    ensures
        engine.states@.len() == 0 ==> res == Err::<Fraction, ModelError>(
            ModelError::EmptyEnsemble,
        ),
        engine.states@.len() > 0 && (col_a >= engine.cols() || col_b >= engine.cols()) ==> res
            == Err::<Fraction, ModelError>(ModelError::UnknownColumn),
        engine.states@.len() > 0 && col_a < engine.cols() && col_b < engine.cols() ==> res
            == Ok::<Fraction, ModelError>(depprob_of(engine.states@, col_a as int, col_b as int)),
{
    let n: usize = engine.states.len();
    if n == 0 {
        return Err(ModelError::EmptyEnsemble);
    }
    let n_cols: usize = engine.states[0].n_cols();
    if col_a >= n_cols || col_b >= n_cols {
        return Err(ModelError::UnknownColumn);
    }
    let ghost a = col_a as int;
    let ghost b = col_b as int;
    let mut num: usize = 0;
    let mut s: usize = 0;
    while s < n
        invariant
            s <= n,
            n == engine.states@.len(),
            engine.wf(),
            n_cols == engine.states@[0].asgn.asgn@.len(),
            col_a < n_cols,
            col_b < n_cols,
            a == col_a,
            b == col_b,
            num == count_where(s as nat, together(engine.states@, a, b)),
            num <= s,
        decreases n - s,
    {
        assert(engine.states@[s as int].wf());
        if engine.states[s].asgn.asgn[col_a] == engine.states[s].asgn.asgn[col_b] {
            num += 1;
        }
        s += 1;
    }
    Ok(Fraction { num, den: n })
}

/// The similarity of rows `row_a` and `row_b` in each state, with respect
/// to the columns `wrt`, or to all columns where `wrt` is empty.
pub fn rowsim(
    engine: &Engine,
    row_a: usize,
    row_b: usize,
    wrt: &Vec<usize>,
    variant: RowSimilarityVariant,
) -> (res: Result<Vec<Fraction>, ModelError>)
    requires
        engine.wf(),
    ensures
        engine.states@.len() == 0 ==> res == Err::<Vec<Fraction>, ModelError>(
            ModelError::EmptyEnsemble,
        ),
        engine.states@.len() > 0 && (row_a >= engine.rows() || row_b >= engine.rows()) ==> res
            == Err::<Vec<Fraction>, ModelError>(ModelError::RowOutOfBounds),
        engine.states@.len() > 0 && row_a < engine.rows() && row_b < engine.rows()
            && !known_columns(wrt@, engine.cols()) ==> res == Err::<
            Vec<Fraction>,
            ModelError,
        >(ModelError::UnknownColumn),
        engine.states@.len() > 0 && row_a < engine.rows() && row_b < engine.rows()
            && known_columns(wrt@, engine.cols()) ==> res is Ok,
        res matches Ok(each) ==> each@.len() == engine.states@.len() && forall|s: int|
            0 <= s < each@.len() ==> #[trigger] each@[s] == rowsim_of(
                engine.states@[s],
                row_a as int,
                row_b as int,
                wrt@,
                variant,
            ),
{
    let n: usize = engine.states.len();
    if n == 0 {
        return Err(ModelError::EmptyEnsemble);
    }
    let mut each: Vec<Fraction> = Vec::new();
    let mut s: usize = 0;
    while s < n
        invariant
            s <= n,
            n == engine.states@.len(),
            engine.wf(),
            each@.len() == s,
            s > 0 ==> row_a < engine.rows() && row_b < engine.rows() && known_columns(
                wrt@,
                engine.cols(),
            ),
            forall|t: int|
                0 <= t < s ==> #[trigger] each@[t] == rowsim_of(
                    engine.states@[t],
                    row_a as int,
                    row_b as int,
                    wrt@,
                    variant,
                ),
        decreases n - s,
    {
        assert(engine.states@[s as int].wf());
        assert(engine.states@[0].wf());
        match rowsim_in(&engine.states[s], row_a, row_b, wrt, variant) {
            Ok(fraction) => {
                each.push(fraction);
            },
            Err(e) => {
                return Err(e);
            },
        }
        s += 1;
    }
    Ok(each)
}

/// Rows that share a category in every view of a state are as similar as
/// can be, and rows that share none are not similar at all, whichever way
/// the views are weighed.
pub proof fn lemma_rowsim_extremes(
    state: State,
    row_a: int,
    row_b: int,
    wrt: Seq<usize>,
    variant: RowSimilarityVariant,
)
    requires
        state.wf(),
        known_columns(wrt, state.asgn.asgn@.len()),
    ensures
        (forall|v: int| 0 <= v < state.views@.len() ==> shares(state, row_a, row_b, v))
            ==> rowsim_of(state, row_a, row_b, wrt, variant).num == rowsim_of(
            state,
            row_a,
            row_b,
            wrt,
            variant,
        ).den,
        (forall|v: int| 0 <= v < state.views@.len() ==> !shares(state, row_a, row_b, v))
            ==> rowsim_of(state, row_a, row_b, wrt, variant).num == 0,
{
    let ctx = context_of(state, wrt);
    let k = state.views@.len();
    let by_column = column_agrees(state, ctx, row_a, row_b);
    let by_view = view_agrees(state, wrt, row_a, row_b);
    let counted = view_counts(state, wrt);
    assert forall|i: int| 0 <= i < ctx.len() implies 0
        <= state.asgn.asgn@[(#[trigger] ctx[i]) as int] < k by {
        if wrt.len() != 0 {
            assert(wrt[i] < state.asgn.asgn@.len());
        }
    }
    if forall|v: int| 0 <= v < k ==> shares(state, row_a, row_b, v) {
        assert forall|i: int| 0 <= i < ctx.len() implies #[trigger] by_column(i) by {
            assert(0 <= state.asgn.asgn@[ctx[i] as int] < k);
        }
        lemma_count_all(ctx.len(), by_column);
        assert forall|v: int| 0 <= v < k implies #[trigger] by_view(v) == counted(v) by {}
        lemma_count_agree(k, by_view, counted);
    }
    if forall|v: int| 0 <= v < k ==> !shares(state, row_a, row_b, v) {
        assert forall|i: int| 0 <= i < ctx.len() implies !#[trigger] by_column(i) by {
            assert(0 <= state.asgn.asgn@[ctx[i] as int] < k);
        }
        lemma_count_none(ctx.len(), by_column);
        assert forall|v: int| 0 <= v < k implies !#[trigger] by_view(v) by {}
        lemma_count_none(k, by_view);
    }
}

/// A column depends on itself in every state, and dependence does not
/// depend on the order of the two columns.
pub proof fn lemma_depprob_symmetric(states: Seq<State>, a: int, b: int)
    ensures
        depprob_of(states, a, b) == depprob_of(states, b, a),
        depprob_of(states, a, a).num == depprob_of(states, a, a).den,
{
    let ab = together(states, a, b);
    let ba = together(states, b, a);
    assert forall|s: int| 0 <= s < states.len() implies #[trigger] ab(s) == ba(s) by {}
    lemma_count_agree(states.len(), ab, ba);
    let aa = together(states, a, a);
    assert forall|s: int| 0 <= s < states.len() implies #[trigger] aa(s) by {}
    lemma_count_all(states.len(), aa);
}

} // verus!
