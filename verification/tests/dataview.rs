use lace::assignment::{Assignment, AssignmentError, Reassignment};
use lace::column::{Column, ColumnError};
use lace::dataview::DataView;
use lace::error::ModelError;
use lace::suffstat::CategoricalSuffStat;

fn col(id: usize, card: usize, data: Vec<Option<u8>>) -> Column {
    Column::new(id, card, data).unwrap()
}

fn two_columns() -> DataView {
    let asgn = Assignment::from_vec(vec![0, 0, 1, 1]).unwrap();
    let cols = vec![
        col(0, 2, vec![Some(0), Some(1), Some(1), None]),
        col(1, 3, vec![Some(2), Some(2), Some(0), Some(1)]),
    ];
    DataView::new(asgn, cols).unwrap()
}

#[test]
fn a_new_view_computes_all_statistics() {
    let view = two_columns();
    assert!(view.validate());
    assert_eq!(view.n_rows(), 4);
    assert_eq!(view.n_cols(), 2);
    assert_eq!(view.n_cats(), 2);
    assert_eq!(
        view.cols[0].components,
        vec![
            CategoricalSuffStat { n: 2, counts: vec![1, 1] },
            CategoricalSuffStat { n: 1, counts: vec![0, 1] },
        ]
    );
    assert_eq!(
        view.cols[1].components,
        vec![
            CategoricalSuffStat { n: 2, counts: vec![0, 0, 2] },
            CategoricalSuffStat { n: 2, counts: vec![1, 1, 0] },
        ]
    );
}

#[test]
fn a_new_view_refuses_bad_parts() {
    let asgn = || Assignment::from_vec(vec![0, 0, 1]).unwrap();
    let short = vec![col(0, 2, vec![Some(0)])];
    assert_eq!(DataView::new(asgn(), short), Err(ModelError::LengthMismatch));
    let twice = vec![col(4, 2, vec![None, None, None]), col(4, 2, vec![None, None, None])];
    assert_eq!(DataView::new(asgn(), twice), Err(ModelError::DuplicateColumn));
    let wild = vec![Column { id: 0, card: 1, data: vec![Some(3), None, None], components: vec![] }];
    assert_eq!(DataView::new(asgn(), wild), Err(ModelError::ValueOutOfRange));
    let broken = Assignment { asgn: vec![0, 0, 1], counts: vec![1, 2] };
    assert_eq!(DataView::new(broken, vec![]), Err(ModelError::InvalidPartition));
    assert!(DataView::new(asgn(), vec![]).is_ok());
}

#[test]
fn a_row_moves_in_every_column_at_once() {
    let mut view = two_columns();
    let change = view.reassign_row(1, 1).unwrap();
    assert_eq!(change, Reassignment { from: 0, to: 1, opened: false, closed: false });
    assert_eq!(view.asgn.asgn, vec![0, 1, 1, 1]);
    assert_eq!(
        view.cols[0].components,
        vec![
            CategoricalSuffStat { n: 1, counts: vec![1, 0] },
            CategoricalSuffStat { n: 2, counts: vec![0, 2] },
        ]
    );
    assert_eq!(
        view.cols[1].components,
        vec![
            CategoricalSuffStat { n: 1, counts: vec![0, 0, 1] },
            CategoricalSuffStat { n: 3, counts: vec![1, 1, 1] },
        ]
    );
    assert!(view.validate());
}

#[test]
fn closing_a_row_category_renumbers_every_column() {
    let mut view = two_columns();
    view.reassign_row(0, 2).unwrap();
    assert_eq!(view.asgn.asgn, vec![2, 0, 1, 1]);
    let change = view.reassign_row(1, 1).unwrap();
    assert_eq!(change, Reassignment { from: 0, to: 1, opened: false, closed: true });
    assert_eq!(view.asgn.asgn, vec![1, 0, 0, 0]);
    assert_eq!(view.asgn.counts, vec![3, 1]);
    assert_eq!(
        view.cols[0].components,
        vec![
            CategoricalSuffStat { n: 2, counts: vec![0, 2] },
            CategoricalSuffStat { n: 1, counts: vec![1, 0] },
        ]
    );
    assert_eq!(
        view.cols[1].components,
        vec![
            CategoricalSuffStat { n: 3, counts: vec![1, 1, 1] },
            CategoricalSuffStat { n: 1, counts: vec![0, 0, 1] },
        ]
    );
    assert!(view.validate());
}

#[test]
fn reassign_row_refuses_rows_and_categories_out_of_bounds() {
    let mut view = two_columns();
    assert_eq!(view.reassign_row(4, 0), Err(ModelError::RowOutOfBounds));
    assert_eq!(view.reassign_row(0, 3), Err(ModelError::CategoryOutOfBounds));
    assert_eq!(view, two_columns());
}

#[test]
fn columns_come_and_go() {
    let mut view = two_columns();
    assert_eq!(view.insert_column(col(5, 2, vec![Some(1), None, Some(1), Some(0)])), Ok(()));
    assert_eq!(view.n_cols(), 3);
    assert_eq!(view.find(5), Some(2));
    assert_eq!(
        view.cols[2].components,
        vec![
            CategoricalSuffStat { n: 1, counts: vec![0, 1] },
            CategoricalSuffStat { n: 2, counts: vec![1, 1] },
        ]
    );
    let taken = view.take_column(0).unwrap();
    assert_eq!(taken.id, 0);
    assert_eq!(taken.data, vec![Some(0), Some(1), Some(1), None]);
    assert_eq!(view.find(0), None);
    assert_eq!(view.find(1), Some(0));
    assert_eq!(view.find(5), Some(1));
    assert!(view.take_column(0).is_none());
    assert!(view.validate());
}

#[test]
fn insert_column_refuses_bad_columns() {
    let mut view = two_columns();
    assert_eq!(
        view.insert_column(col(1, 2, vec![None, None, None, None])),
        Err(ModelError::DuplicateColumn)
    );
    assert_eq!(view.insert_column(col(2, 2, vec![None])), Err(ModelError::LengthMismatch));
    let wild = Column { id: 2, card: 1, data: vec![Some(1), None, None, None], components: vec![] };
    assert_eq!(view.insert_column(wild), Err(ModelError::ValueOutOfRange));
    assert_eq!(view, two_columns());
}

#[test]
fn a_row_is_appended_to_every_column() {
    let mut view = two_columns();
    assert_eq!(view.append_row(&vec![Some(1), None], 2), Ok(()));
    assert_eq!(view.asgn.asgn, vec![0, 0, 1, 1, 2]);
    assert_eq!(view.cols[0].data, vec![Some(0), Some(1), Some(1), None, Some(1)]);
    assert_eq!(view.cols[1].data, vec![Some(2), Some(2), Some(0), Some(1), None]);
    assert_eq!(view.cols[0].components[2], CategoricalSuffStat { n: 1, counts: vec![0, 1] });
    assert_eq!(view.cols[1].components[2], CategoricalSuffStat { n: 0, counts: vec![0, 0, 0] });
    assert!(view.validate());
}

#[test]
fn append_row_refuses_bad_rows() {
    let mut view = two_columns();
    assert_eq!(view.append_row(&vec![Some(1)], 0), Err(ModelError::LengthMismatch));
    assert_eq!(view.append_row(&vec![Some(1), None], 3), Err(ModelError::CategoryOutOfBounds));
    assert_eq!(view.append_row(&vec![Some(1), Some(3)], 0), Err(ModelError::ValueOutOfRange));
    assert_eq!(view, two_columns());
}

#[test]
fn a_cell_is_overwritten_in_its_column() {
    let mut view = two_columns();
    assert_eq!(view.overwrite(1, 0, Some(0)), Ok(()));
    assert_eq!(view.cols[1].data, vec![Some(0), Some(2), Some(0), Some(1)]);
    assert_eq!(view.cols[1].components[0], CategoricalSuffStat { n: 2, counts: vec![1, 0, 1] });
    assert_eq!(view.cols[0], two_columns().cols[0]);
    assert_eq!(view.overwrite(9, 0, Some(0)), Err(ModelError::UnknownColumn));
    assert_eq!(view.overwrite(1, 4, Some(0)), Err(ModelError::RowOutOfBounds));
    assert_eq!(view.overwrite(0, 0, Some(2)), Err(ModelError::ValueOutOfRange));
    assert!(view.validate());
}

#[test]
fn rows_share_a_category_or_not() {
    let view = two_columns();
    assert_eq!(view.same_category(0, 1), Some(true));
    assert_eq!(view.same_category(1, 2), Some(false));
    assert_eq!(view.same_category(1, 4), None);
}

#[test]
fn validate_finds_stale_statistics_and_twins() {
    let mut stale = two_columns();
    stale.cols[1].components[0].n = 5;
    assert!(!stale.validate());
    let mut twins = two_columns();
    twins.cols[1].id = 0;
    assert!(!twins.validate());
    let mut broken = two_columns();
    broken.asgn.counts = vec![3, 1];
    assert!(!broken.validate());
}

#[test]
fn errors_of_the_parts_become_errors_of_the_model() {
    assert_eq!(ModelError::of_rows(AssignmentError::ItemOutOfBounds), ModelError::RowOutOfBounds);
    assert_eq!(
        ModelError::of_rows(AssignmentError::CategoryOutOfBounds),
        ModelError::CategoryOutOfBounds
    );
    assert_eq!(ModelError::of_rows(AssignmentError::EmptyCategory), ModelError::InvalidPartition);
    assert_eq!(ModelError::of_cell(ColumnError::ValueOutOfRange), ModelError::ValueOutOfRange);
    assert_eq!(ModelError::of_cell(ColumnError::LengthMismatch), ModelError::LengthMismatch);
    assert_eq!(ModelError::of_cell(ColumnError::RowOutOfBounds), ModelError::RowOutOfBounds);
    assert_eq!(
        ModelError::of_cell(ColumnError::CategoryOutOfBounds),
        ModelError::CategoryOutOfBounds
    );
}
