use lace::assignment::{Assignment, Reassignment};
use lace::column::Column;
use lace::dataview::DataView;
use lace::error::ModelError;
use lace::state::{check_parts, State};
use lace::suffstat::CategoricalSuffStat;

fn col(id: usize, card: usize, data: Vec<Option<u8>>) -> Column {
    Column::new(id, card, data).unwrap()
}

fn column(id: usize) -> Column {
    match id {
        0 => col(0, 2, vec![Some(0), Some(1), Some(1), None]),
        1 => col(1, 3, vec![Some(2), Some(2), Some(0), Some(1)]),
        _ => col(2, 2, vec![Some(1), Some(0), None, Some(0)]),
    }
}

fn example() -> State {
    let first =
        DataView::new(Assignment::from_vec(vec![0, 0, 1, 1]).unwrap(), vec![column(0), column(1)])
            .unwrap();
    let second =
        DataView::new(Assignment::from_vec(vec![0, 1, 1, 1]).unwrap(), vec![column(2)]).unwrap();
    State::new(Assignment::from_vec(vec![0, 0, 1]).unwrap(), vec![first, second]).unwrap()
}

fn holders(state: &State, id: usize) -> Vec<usize> {
    let mut found = vec![];
    for (v, view) in state.views.iter().enumerate() {
        if view.find(id).is_some() {
            found.push(v);
        }
    }
    found
}

fn assert_exclusive(state: &State) {
    assert!(state.validate());
    for c in 0..state.n_cols() {
        assert_eq!(holders(state, c), vec![state.view_of(c).unwrap()]);
    }
    let held: usize = state.views.iter().map(|v| v.n_cols()).sum();
    assert_eq!(held, state.n_cols());
    assert_eq!(state.n_views(), state.asgn.n_cats());
}

#[test]
fn a_state_is_made_of_its_parts() {
    let state = example();
    assert_eq!(state.n_rows(), 4);
    assert_eq!(state.n_cols(), 3);
    assert_eq!(state.n_views(), 2);
    assert_eq!(state.view_of(1), Some(0));
    assert_eq!(state.view_of(2), Some(1));
    assert_eq!(state.view_of(3), None);
    assert_eq!(state.same_view(0, 1), Some(true));
    assert_eq!(state.same_view(0, 2), Some(false));
    assert_eq!(state.same_view(0, 3), None);
    assert_eq!(state.card_of(1), Some(3));
    assert_eq!(state.card_of(3), None);
    assert_eq!(state.get(1, 2), Some(Some(0)));
    assert_eq!(state.get(0, 3), Some(None));
    assert_eq!(state.get(0, 4), None);
    assert_eq!(state.get(3, 0), None);
    assert_exclusive(&state);
}

#[test]
fn a_state_refuses_parts_that_do_not_fit() {
    let view = |rows: Vec<usize>, cols: Vec<Column>| {
        DataView::new(Assignment::from_vec(rows).unwrap(), cols).unwrap()
    };
    let asgn = |labels: Vec<usize>| Assignment::from_vec(labels).unwrap();
    // One view too few.
    assert_eq!(
        State::new(asgn(vec![0, 0, 1]), vec![view(vec![0, 0], vec![])]),
        Err(ModelError::LengthMismatch)
    );
    // A column in the wrong view.
    let wrong = vec![
        view(vec![0, 0, 1, 1], vec![column(0), column(2)]),
        view(vec![0, 1, 1, 1], vec![column(1)]),
    ];
    assert_eq!(State::new(asgn(vec![0, 0, 1]), wrong), Err(ModelError::UnknownColumn));
    // A column that no view holds.
    let missing =
        vec![view(vec![0, 0, 1, 1], vec![column(0)]), view(vec![0, 1, 1, 1], vec![column(2)])];
    assert_eq!(State::new(asgn(vec![0, 0, 1]), missing), Err(ModelError::UnknownColumn));
    // A column that the partition does not know.
    let foreign = vec![view(vec![0, 0, 1, 1], vec![column(0), column(1), column(2)])];
    assert_eq!(State::new(asgn(vec![0, 0]), foreign), Err(ModelError::UnknownColumn));
    // Views of different heights.
    let uneven = vec![
        view(vec![0, 0, 1, 1], vec![column(0), column(1)]),
        view(vec![0, 1, 1], vec![col(2, 2, vec![None, None, None])]),
    ];
    assert_eq!(State::new(asgn(vec![0, 0, 1]), uneven), Err(ModelError::LengthMismatch));
    // A column partition with wrong sizes.
    let broken = Assignment { asgn: vec![0, 0, 1], counts: vec![1, 2] };
    assert_eq!(State::new(broken, vec![]), Err(ModelError::InvalidPartition));
    // A view with stale statistics.
    let mut stale = example().views;
    stale[0].cols[0].components[0].n = 7;
    assert_eq!(State::new(asgn(vec![0, 0, 1]), stale), Err(ModelError::InvalidPartition));
    assert_eq!(check_parts(&asgn(vec![]), &vec![]), Ok(()));
}

#[test]
fn a_column_joins_another_view() {
    let mut state = example();
    let change = state.reassign_column(1, 1, None).unwrap();
    assert_eq!(change, Reassignment { from: 0, to: 1, opened: false, closed: false });
    assert_eq!(state.asgn.asgn, vec![0, 1, 1]);
    assert_eq!(state.views[0].n_cols(), 1);
    assert_eq!(state.views[1].n_cols(), 2);
    let at = state.views[1].find(1).unwrap();
    let moved = &state.views[1].cols[at];
    assert_eq!(moved.data, column(1).data);
    // Rows are [0, 1, 1, 1] in the view it joined.
    assert_eq!(
        moved.components,
        vec![
            CategoricalSuffStat { n: 1, counts: vec![0, 0, 1] },
            CategoricalSuffStat { n: 3, counts: vec![1, 1, 1] },
        ]
    );
    assert_exclusive(&state);
}

#[test]
fn a_view_that_loses_its_last_column_is_closed() {
    let mut state = example();
    state.reassign_column(0, 2, Some(Assignment::flat(4))).unwrap();
    assert_eq!(state.asgn.asgn, vec![2, 0, 1]);
    assert_eq!(state.n_views(), 3);
    let change = state.reassign_column(1, 1, None).unwrap();
    assert_eq!(change, Reassignment { from: 0, to: 1, opened: false, closed: true });
    assert_eq!(state.asgn.asgn, vec![1, 0, 0]);
    assert_eq!(state.n_views(), 2);
    assert_eq!(state.views[0].asgn.asgn, vec![0, 1, 1, 1]);
    assert_eq!(state.views[1].asgn.asgn, vec![0, 0, 0, 0]);
    assert_eq!(state.get(0, 1), Some(Some(1)));
    assert_eq!(state.get(1, 0), Some(Some(2)));
    assert_eq!(state.get(2, 3), Some(Some(0)));
    assert_exclusive(&state);
}

#[test]
fn a_new_view_takes_the_drawn_rows() {
    let mut state = example();
    let drawn = Assignment::from_vec(vec![0, 1, 0, 1]).unwrap();
    let change = state.reassign_column(0, 2, Some(drawn)).unwrap();
    assert_eq!(change, Reassignment { from: 0, to: 2, opened: true, closed: false });
    assert_eq!(state.n_views(), 3);
    assert_eq!(state.views[2].asgn.asgn, vec![0, 1, 0, 1]);
    assert_eq!(
        state.views[2].cols[0].components,
        vec![
            CategoricalSuffStat { n: 2, counts: vec![1, 1] },
            CategoricalSuffStat { n: 1, counts: vec![0, 1] },
        ]
    );
    assert_exclusive(&state);
}

#[test]
fn a_new_view_inherits_the_rows_of_the_old_one() {
    let mut state = example();
    let change = state.reassign_column(2, 2, None).unwrap();
    assert_eq!(change, Reassignment { from: 1, to: 2, opened: true, closed: true });
    assert_eq!(state.asgn.asgn, vec![0, 0, 1]);
    assert_eq!(state.n_views(), 2);
    assert_eq!(state.views[1].asgn.asgn, vec![0, 1, 1, 1]);
    assert_exclusive(&state);
    let mut other = example();
    other.reassign_column(0, 2, None).unwrap();
    assert_eq!(other.views[2].asgn.asgn, vec![0, 0, 1, 1]);
    assert_exclusive(&other);
}

#[test]
fn a_column_that_stays_changes_nothing() {
    let mut state = example();
    let change = state.reassign_column(2, 1, None).unwrap();
    assert_eq!(change, Reassignment { from: 1, to: 1, opened: false, closed: false });
    assert_eq!(state, example());
}

#[test]
fn reassign_column_refuses_bad_moves() {
    let mut state = example();
    assert_eq!(state.reassign_column(3, 0, None), Err(ModelError::UnknownColumn));
    assert_eq!(state.reassign_column(0, 3, None), Err(ModelError::ViewOutOfBounds));
    assert_eq!(
        state.reassign_column(0, 2, Some(Assignment::flat(3))),
        Err(ModelError::LengthMismatch)
    );
    let broken = Assignment { asgn: vec![0, 0, 0, 0], counts: vec![3] };
    assert_eq!(state.reassign_column(0, 2, Some(broken)), Err(ModelError::InvalidPartition));
    assert_eq!(state, example());
}

#[test]
fn every_column_is_in_exactly_one_view_after_many_moves() {
    let mut state = example();
    let moves = [(0, 1), (1, 1), (2, 1), (0, 0), (1, 2), (2, 0), (1, 0), (0, 1), (2, 2)];
    for (c, target) in moves {
        let _ = state.reassign_column(c, target, None);
        assert_exclusive(&state);
        assert_eq!(state.n_rows(), 4);
        for id in 0..3 {
            let home = state.view_of(id).unwrap();
            let at = state.views[home].find(id).unwrap();
            assert_eq!(state.views[home].cols[at].data, column(id).data);
            assert_eq!(state.views[home].cols[at].card, column(id).card);
        }
    }
}

#[test]
fn a_row_moves_in_one_view_only() {
    let mut state = example();
    let change = state.reassign_row(0, 3, 0).unwrap();
    assert_eq!(change, Reassignment { from: 1, to: 0, opened: false, closed: false });
    assert_eq!(state.views[0].asgn.asgn, vec![0, 0, 1, 0]);
    assert_eq!(state.views[1], example().views[1]);
    assert_eq!(state.reassign_row(2, 0, 0), Err(ModelError::ViewOutOfBounds));
    assert_eq!(state.reassign_row(0, 4, 0), Err(ModelError::RowOutOfBounds));
    assert_eq!(state.reassign_row(0, 0, 3), Err(ModelError::CategoryOutOfBounds));
    assert_exclusive(&state);
}

#[test]
fn a_cell_is_overwritten_where_its_column_lives() {
    let mut state = example();
    assert_eq!(state.overwrite(2, 2, Some(1)), Ok(()));
    assert_eq!(state.get(2, 2), Some(Some(1)));
    assert_eq!(
        state.views[1].cols[0].components,
        vec![
            CategoricalSuffStat { n: 1, counts: vec![0, 1] },
            CategoricalSuffStat { n: 3, counts: vec![2, 1] },
        ]
    );
    assert_eq!(state.views[0], example().views[0]);
    assert_eq!(state.overwrite(3, 0, None), Err(ModelError::UnknownColumn));
    assert_eq!(state.overwrite(0, 4, None), Err(ModelError::RowOutOfBounds));
    assert_eq!(state.overwrite(0, 0, Some(2)), Err(ModelError::ValueOutOfRange));
    assert_exclusive(&state);
}

#[test]
fn a_row_is_appended_to_every_view() {
    let mut state = example();
    assert_eq!(state.check_row(&vec![Some(1), None, Some(0)], &vec![0, 2]), Ok(()));
    assert_eq!(state.append_row(&vec![Some(1), None, Some(0)], &vec![0, 2]), Ok(()));
    assert_eq!(state.n_rows(), 5);
    assert_eq!(state.views[0].asgn.asgn, vec![0, 0, 1, 1, 0]);
    assert_eq!(state.views[1].asgn.asgn, vec![0, 1, 1, 1, 2]);
    assert_eq!(state.get(0, 4), Some(Some(1)));
    assert_eq!(state.get(1, 4), Some(None));
    assert_eq!(state.get(2, 4), Some(Some(0)));
    assert_eq!(state.get(1, 0), Some(Some(2)));
    // Column 0 had one 0 and one 1 in the first category; the new row adds a 1.
    assert_eq!(state.views[0].cols[0].components[0], CategoricalSuffStat { n: 3, counts: vec![1, 2] });
    assert_eq!(state.views[0].cols[1].components[0], CategoricalSuffStat { n: 2, counts: vec![0, 0, 2] });
    assert_eq!(state.views[1].cols[0].components[2], CategoricalSuffStat { n: 1, counts: vec![1, 0] });
    assert_exclusive(&state);
}

#[test]
fn append_row_refuses_rows_that_do_not_fit() {
    let mut state = example();
    assert_eq!(state.append_row(&vec![None, None], &vec![0, 0]), Err(ModelError::LengthMismatch));
    assert_eq!(state.append_row(&vec![None, None, None], &vec![0]), Err(ModelError::LengthMismatch));
    assert_eq!(
        state.append_row(&vec![None, None, None], &vec![0, 3]),
        Err(ModelError::CategoryOutOfBounds)
    );
    assert_eq!(
        state.append_row(&vec![None, Some(3), None], &vec![0, 0]),
        Err(ModelError::ValueOutOfRange)
    );
    assert_eq!(
        state.append_row(&vec![None, Some(2), Some(2)], &vec![2, 2]),
        Err(ModelError::ValueOutOfRange)
    );
    assert_eq!(state, example());
}

#[test]
fn a_column_is_appended_to_a_view() {
    let mut state = example();
    let new = col(3, 2, vec![Some(0), Some(0), Some(1), None]);
    assert_eq!(state.append_column(new, 1, None), Ok(()));
    assert_eq!(state.asgn.asgn, vec![0, 0, 1, 1]);
    assert_eq!(state.n_cols(), 4);
    assert_eq!(state.get(3, 2), Some(Some(1)));
    let at = state.views[1].find(3).unwrap();
    // Rows are [0, 1, 1, 1] in that view.
    assert_eq!(
        state.views[1].cols[at].components,
        vec![
            CategoricalSuffStat { n: 1, counts: vec![1, 0] },
            CategoricalSuffStat { n: 2, counts: vec![1, 1] },
        ]
    );
    let another = col(4, 2, vec![None, None, None, None]);
    assert_eq!(state.append_column(another, 2, Some(Assignment::from_vec(vec![0, 1, 0, 1]).unwrap())), Ok(()));
    assert_eq!(state.n_views(), 3);
    assert_eq!(state.views[2].asgn.asgn, vec![0, 1, 0, 1]);
    let last = col(5, 2, vec![None, None, None, None]);
    assert_eq!(state.append_column(last, 3, None), Ok(()));
    assert_eq!(state.views[3].asgn.asgn, vec![0, 0, 0, 0]);
    assert_exclusive(&state);
}

#[test]
fn the_first_column_of_a_state_sets_the_number_of_rows() {
    let mut state = State::new(Assignment::empty(), vec![]).unwrap();
    assert_eq!(state.n_rows(), 0);
    assert_eq!(state.append_column(col(0, 2, vec![Some(1), None, Some(0)]), 0, None), Ok(()));
    assert_eq!(state.n_rows(), 3);
    assert_eq!(state.n_views(), 1);
    assert_exclusive(&state);
}

#[test]
fn append_column_refuses_columns_that_do_not_fit() {
    let mut state = example();
    let rows = || vec![None, None, None, None];
    assert_eq!(state.append_column(col(2, 2, rows()), 0, None), Err(ModelError::UnknownColumn));
    assert_eq!(state.append_column(col(4, 2, rows()), 0, None), Err(ModelError::UnknownColumn));
    assert_eq!(state.append_column(col(3, 2, rows()), 3, None), Err(ModelError::ViewOutOfBounds));
    assert_eq!(
        state.append_column(col(3, 2, vec![None, None]), 0, None),
        Err(ModelError::LengthMismatch)
    );
    let wild = Column { id: 3, card: 1, data: vec![Some(1), None, None, None], components: vec![] };
    assert_eq!(state.append_column(wild, 0, None), Err(ModelError::ValueOutOfRange));
    assert_eq!(
        state.append_column(col(3, 2, rows()), 2, Some(Assignment::flat(3))),
        Err(ModelError::LengthMismatch)
    );
    let broken = Assignment { asgn: vec![0, 0, 0, 0], counts: vec![3] };
    assert_eq!(
        state.append_column(col(3, 2, rows()), 2, Some(broken)),
        Err(ModelError::InvalidPartition)
    );
    assert_eq!(state, example());
}
