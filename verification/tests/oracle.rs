use lace::assignment::Assignment;
use lace::column::Column;
use lace::dataview::DataView;
use lace::engine::Engine;
use lace::error::ModelError;
use lace::oracle::{depprob, rowsim, rowsim_in, validate_query, Fraction, RowSimilarityVariant};
use lace::state::State;

fn column(id: usize) -> Column {
    let data = match id {
        0 => vec![Some(0), Some(0), Some(1), Some(1)],
        1 => vec![Some(0), Some(0), Some(1), Some(1)],
        _ => vec![Some(1), Some(0), None, Some(0)],
    };
    Column::new(id, 2, data).unwrap()
}

fn state(views: Vec<(Vec<usize>, Vec<usize>)>, cols: Vec<usize>) -> State {
    let views = views
        .into_iter()
        .map(|(rows, ids)| {
            let held = ids.into_iter().map(column).collect();
            DataView::new(Assignment::from_vec(rows).unwrap(), held).unwrap()
        })
        .collect();
    State::new(Assignment::from_vec(cols).unwrap(), views).unwrap()
}

fn split() -> State {
    state(vec![(vec![0, 0, 1, 1], vec![0, 1]), (vec![0, 1, 1, 1], vec![2])], vec![0, 0, 1])
}

fn joined() -> State {
    state(vec![(vec![0, 0, 1, 1], vec![0, 1, 2])], vec![0, 0, 0])
}

fn ensemble() -> Engine {
    Engine::new(vec![split(), split(), joined()]).unwrap()
}

#[test]
fn columns_of_one_cluster_depend_more_than_an_independent_one() {
    let engine = ensemble();
    let ab = depprob(&engine, 0, 1).unwrap();
    let ac = depprob(&engine, 0, 2).unwrap();
    let bc = depprob(&engine, 1, 2).unwrap();
    assert_eq!(ab, Fraction { num: 3, den: 3 });
    assert_eq!(ac, Fraction { num: 1, den: 3 });
    assert_eq!(bc, Fraction { num: 1, den: 3 });
    assert!(ab.num as f64 / ab.den as f64 > ac.num as f64 / ac.den as f64);
    assert!(ab.num as f64 / ab.den as f64 > bc.num as f64 / bc.den as f64);
}

#[test]
fn depprob_is_symmetric_and_full_on_the_diagonal() {
    let engine = ensemble();
    assert_eq!(depprob(&engine, 2, 0), depprob(&engine, 0, 2));
    assert_eq!(depprob(&engine, 2, 2), Ok(Fraction { num: 3, den: 3 }));
}

#[test]
fn depprob_refuses_unknown_columns_and_empty_ensembles() {
    let engine = ensemble();
    assert_eq!(depprob(&engine, 0, 3), Err(ModelError::UnknownColumn));
    assert_eq!(depprob(&engine, 3, 0), Err(ModelError::UnknownColumn));
    let nothing = Engine::new(vec![]).unwrap();
    assert_eq!(depprob(&nothing, 0, 0), Err(ModelError::EmptyEnsemble));
}

#[test]
fn rows_that_share_every_category_are_more_similar_than_rows_that_share_none() {
    for variant in [RowSimilarityVariant::ViewWeighted, RowSimilarityVariant::Standard] {
        let all = rowsim_in(&split(), 2, 3, &vec![], variant).unwrap();
        let none = rowsim_in(&split(), 0, 3, &vec![], variant).unwrap();
        assert_eq!(all.num, all.den);
        assert_eq!(none.num, 0);
        assert!(all.den > 0);
        assert!(all.num as f64 / all.den as f64 > none.num as f64 / none.den as f64);
    }
}

#[test]
fn rowsim_counts_views_or_columns() {
    let s = split();
    let weighted = RowSimilarityVariant::ViewWeighted;
    let standard = RowSimilarityVariant::Standard;
    // Rows 0 and 1 share a category in the first view, which has two of
    // the three columns, and not in the second.
    assert_eq!(rowsim_in(&s, 0, 1, &vec![], standard), Ok(Fraction { num: 1, den: 2 }));
    assert_eq!(rowsim_in(&s, 0, 1, &vec![], weighted), Ok(Fraction { num: 2, den: 3 }));
    assert_eq!(rowsim_in(&s, 0, 1, &vec![2], standard), Ok(Fraction { num: 0, den: 1 }));
    assert_eq!(rowsim_in(&s, 0, 1, &vec![2], weighted), Ok(Fraction { num: 0, den: 1 }));
    assert_eq!(rowsim_in(&s, 0, 1, &vec![0, 1], standard), Ok(Fraction { num: 1, den: 1 }));
    assert_eq!(rowsim_in(&s, 0, 1, &vec![0, 1], weighted), Ok(Fraction { num: 2, den: 2 }));
    assert_eq!(rowsim_in(&s, 0, 1, &vec![0, 2], standard), Ok(Fraction { num: 1, den: 2 }));
    assert_eq!(rowsim_in(&s, 0, 1, &vec![0, 2], weighted), Ok(Fraction { num: 1, den: 2 }));
    assert_eq!(rowsim_in(&s, 1, 1, &vec![], weighted), Ok(Fraction { num: 3, den: 3 }));
    assert_eq!(rowsim_in(&s, 1, 2, &vec![], standard), Ok(Fraction { num: 1, den: 2 }));
    assert_eq!(rowsim_in(&s, 1, 2, &vec![], weighted), Ok(Fraction { num: 1, den: 3 }));
}

#[test]
fn rowsim_answers_for_every_state() {
    let engine = ensemble();
    let each = rowsim(&engine, 0, 1, &vec![], RowSimilarityVariant::Standard).unwrap();
    assert_eq!(
        each,
        vec![
            Fraction { num: 1, den: 2 },
            Fraction { num: 1, den: 2 },
            Fraction { num: 1, den: 1 },
        ]
    );
    let weighted = rowsim(&engine, 1, 2, &vec![2], RowSimilarityVariant::ViewWeighted).unwrap();
    assert_eq!(
        weighted,
        vec![
            Fraction { num: 1, den: 1 },
            Fraction { num: 1, den: 1 },
            Fraction { num: 0, den: 1 },
        ]
    );
}

#[test]
fn rowsim_refuses_unknown_rows_and_columns() {
    let engine = ensemble();
    let standard = RowSimilarityVariant::Standard;
    assert_eq!(rowsim(&engine, 4, 0, &vec![], standard), Err(ModelError::RowOutOfBounds));
    assert_eq!(rowsim(&engine, 0, 4, &vec![3], standard), Err(ModelError::RowOutOfBounds));
    assert_eq!(rowsim(&engine, 0, 1, &vec![0, 3], standard), Err(ModelError::UnknownColumn));
    assert_eq!(rowsim_in(&split(), 0, 9, &vec![], standard), Err(ModelError::RowOutOfBounds));
    assert_eq!(rowsim_in(&split(), 0, 1, &vec![5], standard), Err(ModelError::UnknownColumn));
    let nothing = Engine::new(vec![]).unwrap();
    assert_eq!(rowsim(&nothing, 0, 0, &vec![], standard), Err(ModelError::EmptyEnsemble));
}

#[test]
fn a_query_may_not_condition_on_what_it_asks_for() {
    assert_eq!(validate_query(3, &vec![0], &vec![1, 2]), Ok(()));
    assert_eq!(validate_query(3, &vec![], &vec![]), Ok(()));
    assert_eq!(validate_query(3, &vec![0, 1], &vec![2, 1]), Err(ModelError::OverlappingContext));
    assert_eq!(validate_query(3, &vec![3], &vec![1]), Err(ModelError::UnknownColumn));
    assert_eq!(validate_query(3, &vec![0], &vec![0, 3]), Err(ModelError::UnknownColumn));
}

#[test]
fn an_engine_wants_states_of_one_shape() {
    assert_eq!(ensemble().n_states(), 3);
    assert_eq!(ensemble().n_cols(), 3);
    assert_eq!(ensemble().n_rows(), 4);
    let narrow = state(vec![(vec![0, 0, 1, 1], vec![0, 1])], vec![0, 0]);
    assert_eq!(Engine::new(vec![split(), narrow]), Err(ModelError::LengthMismatch));
    let mut stale = split();
    stale.views[0].cols[0].components[0].n = 9;
    assert_eq!(Engine::new(vec![split(), stale]), Err(ModelError::InvalidPartition));
    let nothing = Engine::new(vec![]).unwrap();
    assert_eq!(nothing.n_cols(), 0);
    assert_eq!(nothing.n_rows(), 0);
}

#[test]
fn an_edit_reaches_every_state() {
    let mut engine = ensemble();
    assert_eq!(engine.overwrite(2, 2, Some(1)), Ok(()));
    for s in &engine.states {
        assert_eq!(s.get(2, 2), Some(Some(1)));
        assert_eq!(s.get(2, 0), Some(Some(1)));
        assert_eq!(s.get(0, 2), Some(Some(1)));
        assert!(s.validate());
    }
    let once = Engine::new(vec![split(), split(), joined()]).unwrap();
    let mut twice = Engine::new(vec![split(), split(), joined()]).unwrap();
    let mut other = once;
    other.overwrite(0, 0, Some(1)).unwrap();
    twice.overwrite(0, 0, Some(1)).unwrap();
    twice.overwrite(0, 0, Some(1)).unwrap();
    assert_eq!(other, twice);
}

#[test]
fn an_edit_that_one_state_refuses_is_made_in_none() {
    let mut engine = ensemble();
    assert_eq!(engine.overwrite(0, 0, Some(2)), Err(ModelError::ValueOutOfRange));
    assert_eq!(engine.overwrite(3, 0, None), Err(ModelError::UnknownColumn));
    assert_eq!(engine.overwrite(0, 4, None), Err(ModelError::RowOutOfBounds));
    assert_eq!(engine, ensemble());
    let mut nothing = Engine::new(vec![]).unwrap();
    assert_eq!(nothing.overwrite(0, 0, None), Err(ModelError::EmptyEnsemble));
}

#[test]
fn states_of_an_engine_move_on_their_own() {
    let mut engine = ensemble();
    engine.reassign_row(1, 0, 0, 1).unwrap();
    engine.reassign_column(2, 2, 1, Some(Assignment::flat(4))).unwrap();
    assert_eq!(engine.states[0], split());
    assert_eq!(engine.states[1].views[0].asgn.asgn, vec![1, 0, 1, 1]);
    assert_eq!(engine.states[2].asgn.asgn, vec![0, 0, 1]);
    assert_eq!(engine.reassign_row(3, 0, 0, 0), Err(ModelError::StateOutOfBounds));
    assert_eq!(engine.reassign_column(3, 0, 0, None), Err(ModelError::StateOutOfBounds));
    assert_eq!(engine.reassign_row(0, 2, 0, 0), Err(ModelError::ViewOutOfBounds));
    assert_eq!(engine.reassign_column(0, 3, 0, None), Err(ModelError::UnknownColumn));
    assert_eq!(depprob(&engine, 0, 2), Ok(Fraction { num: 0, den: 3 }));
}

#[test]
fn a_row_is_appended_to_every_state() {
    let mut engine = ensemble();
    let categories = vec![vec![0, 1], vec![2, 0], vec![1]];
    assert_eq!(engine.append_row(&vec![Some(1), None, Some(0)], &categories), Ok(()));
    assert!(engine.validate());
    assert_eq!(engine.n_rows(), 5);
    for s in &engine.states {
        assert_eq!(s.get(0, 4), Some(Some(1)));
        assert_eq!(s.get(1, 4), Some(None));
        assert_eq!(s.get(2, 4), Some(Some(0)));
    }
    assert_eq!(engine.states[0].views[1].asgn.asgn, vec![0, 1, 1, 1, 1]);
    assert_eq!(engine.states[1].views[0].asgn.asgn, vec![0, 0, 1, 1, 2]);
    assert_eq!(engine.states[2].views[0].asgn.asgn, vec![0, 0, 1, 1, 1]);
}

#[test]
fn a_row_that_one_state_refuses_is_appended_to_none() {
    let mut engine = ensemble();
    let bad_last = vec![vec![0, 1], vec![2, 0], vec![3]];
    assert_eq!(
        engine.append_row(&vec![None, None, None], &bad_last),
        Err(ModelError::CategoryOutOfBounds)
    );
    let short = vec![vec![0, 1], vec![2, 0]];
    assert_eq!(engine.append_row(&vec![None, None, None], &short), Err(ModelError::LengthMismatch));
    let good = vec![vec![0, 1], vec![2, 0], vec![1]];
    assert_eq!(
        engine.append_row(&vec![None, None, Some(2)], &good),
        Err(ModelError::ValueOutOfRange)
    );
    assert_eq!(engine, ensemble());
    let mut nothing = Engine::new(vec![]).unwrap();
    assert_eq!(nothing.append_row(&vec![], &vec![]), Err(ModelError::EmptyEnsemble));
    let mut mixed = ensemble();
    mixed.states[2].asgn.counts = vec![2];
    assert!(!mixed.validate());
}

#[test]
fn a_column_is_appended_to_every_state() {
    let mut engine = ensemble();
    let data = vec![Some(2), None, Some(0), Some(2)];
    let drawn = Assignment::from_vec(vec![0, 1, 0, 1]).unwrap();
    assert_eq!(engine.append_column(3, &data, &vec![0, 2, 1], vec![None, Some(drawn), None]), Ok(()));
    assert!(engine.validate());
    assert_eq!(engine.n_cols(), 4);
    assert_eq!(engine.n_rows(), 4);
    assert_eq!(engine.states[0].asgn.asgn, vec![0, 0, 1, 0]);
    assert_eq!(engine.states[1].asgn.asgn, vec![0, 0, 1, 2]);
    assert_eq!(engine.states[2].asgn.asgn, vec![0, 0, 0, 1]);
    assert_eq!(engine.states[1].views[2].asgn.asgn, vec![0, 1, 0, 1]);
    assert_eq!(engine.states[2].views[1].asgn.asgn, vec![0, 0, 0, 0]);
    for s in &engine.states {
        assert_eq!(s.card_of(3), Some(3));
        assert_eq!(s.get(3, 0), Some(Some(2)));
        assert_eq!(s.get(3, 1), Some(None));
        assert_eq!(s.get(0, 2), Some(Some(1)));
    }
    assert_eq!(depprob(&engine, 0, 3), Ok(Fraction { num: 1, den: 3 }));
}

#[test]
fn a_column_that_one_state_refuses_is_appended_to_none() {
    let mut engine = ensemble();
    let data = vec![Some(1), None, Some(0), Some(1)];
    let none = || vec![None, None, None];
    assert_eq!(
        engine.append_column(1, &data, &vec![0, 0, 0], none()),
        Err(ModelError::ValueOutOfRange)
    );
    assert_eq!(
        engine.append_column(2, &vec![None], &vec![0, 0, 0], none()),
        Err(ModelError::LengthMismatch)
    );
    assert_eq!(engine.append_column(2, &data, &vec![0, 0], none()), Err(ModelError::LengthMismatch));
    assert_eq!(
        engine.append_column(2, &data, &vec![0, 0, 0], vec![None]),
        Err(ModelError::LengthMismatch)
    );
    assert_eq!(
        engine.append_column(2, &data, &vec![0, 0, 2], none()),
        Err(ModelError::ViewOutOfBounds)
    );
    assert_eq!(
        engine.append_column(2, &data, &vec![0, 0, 1], vec![None, None, Some(Assignment::flat(3))]),
        Err(ModelError::LengthMismatch)
    );
    let broken = Assignment { asgn: vec![0, 0, 0, 0], counts: vec![3] };
    assert_eq!(
        engine.append_column(2, &data, &vec![0, 0, 1], vec![None, None, Some(broken)]),
        Err(ModelError::InvalidPartition)
    );
    assert_eq!(engine, ensemble());
    let mut nothing = Engine::new(vec![]).unwrap();
    assert_eq!(nothing.append_column(2, &data, &vec![], vec![]), Err(ModelError::EmptyEnsemble));
}
