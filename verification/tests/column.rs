use lace::assignment::Assignment;
use lace::column::{same_statistics, Column, ColumnError};
use lace::suffstat::{CategoricalSuffStat, StatError};

fn example() -> (Column, Assignment) {
    let asgn = Assignment::from_vec(vec![0, 0, 1, 1, 1]).unwrap();
    let mut col =
        Column::new(7, 3, vec![Some(0), Some(1), None, Some(1), Some(2)]).unwrap();
    col.refit(&asgn).unwrap();
    (col, asgn)
}

#[test]
fn statistics_are_computed_from_the_data() {
    let (col, asgn) = example();
    assert_eq!(col.id, 7);
    assert_eq!(col.card, 3);
    assert_eq!(
        col.components,
        vec![
            CategoricalSuffStat { n: 2, counts: vec![1, 1, 0] },
            CategoricalSuffStat { n: 2, counts: vec![0, 1, 1] },
        ]
    );
    assert!(col.is_consistent(&asgn));
}

#[test]
fn missing_values_enter_no_statistic() {
    let asgn = Assignment::flat(3);
    let mut col = Column::new(0, 2, vec![None, None, Some(1)]).unwrap();
    col.refit(&asgn).unwrap();
    assert_eq!(col.components, vec![CategoricalSuffStat { n: 1, counts: vec![0, 1] }]);
    assert_eq!(col.len(), 3);
    assert_eq!(col.get(0), Some(None));
    assert_eq!(col.get(2), Some(Some(1)));
    assert_eq!(col.get(3), None);
}

#[test]
fn a_value_out_of_range_is_refused() {
    assert_eq!(Column::new(0, 2, vec![Some(0), Some(2)]), Err(ColumnError::ValueOutOfRange));
    assert!(Column::new(0, 2, vec![Some(0), Some(1), None]).is_ok());
    let bad = Column { id: 0, card: 1, data: vec![Some(1)], components: vec![] };
    assert!(!bad.values_in_range());
}

#[test]
fn refit_refuses_another_length() {
    let mut col = Column::new(0, 2, vec![Some(0), Some(1)]).unwrap();
    assert_eq!(col.refit(&Assignment::flat(3)), Err(ColumnError::LengthMismatch));
    assert_eq!(col.components, vec![]);
}

#[test]
fn moving_a_row_moves_its_value() {
    let (mut col, mut asgn) = example();
    assert_eq!(col.reassign_row(&asgn, 1, 1), Ok(()));
    asgn.reassign_item(1, 1).unwrap();
    assert_eq!(
        col.components,
        vec![
            CategoricalSuffStat { n: 1, counts: vec![1, 0, 0] },
            CategoricalSuffStat { n: 3, counts: vec![0, 2, 1] },
        ]
    );
    assert!(col.is_consistent(&asgn));
}

#[test]
fn moving_a_row_with_a_missing_value_changes_no_statistic() {
    let (mut col, mut asgn) = example();
    assert_eq!(col.reassign_row(&asgn, 2, 0), Ok(()));
    asgn.reassign_item(2, 0).unwrap();
    assert_eq!(
        col.components,
        vec![
            CategoricalSuffStat { n: 2, counts: vec![1, 1, 0] },
            CategoricalSuffStat { n: 2, counts: vec![0, 1, 1] },
        ]
    );
    assert!(col.is_consistent(&asgn));
}

#[test]
fn kept_statistics_equal_recomputed_ones() {
    let (mut col, mut asgn) = example();
    let moves = [(0, 1), (4, 2), (1, 2), (3, 0), (2, 1), (0, 0), (4, 0), (1, 0)];
    for (row, category) in moves {
        let moved = col.reassign_row(&asgn, row, category);
        let change = asgn.reassign_item(row, category);
        assert_eq!(moved.is_ok(), change.is_ok());
        let mut anew = Column::new(col.id, col.card, col.data.clone()).unwrap();
        anew.refit(&asgn).unwrap();
        assert_eq!(col, anew);
        assert!(same_statistics(&col.components, &anew.components));
        assert!(col.is_consistent(&asgn));
    }
}

#[test]
fn a_closed_category_has_no_statistics_left() {
    let mut asgn = Assignment::from_vec(vec![0, 1, 1]).unwrap();
    let mut col = Column::new(0, 3, vec![Some(2), Some(0), Some(1)]).unwrap();
    col.refit(&asgn).unwrap();
    assert_eq!(col.components.len(), 2);
    assert_eq!(col.reassign_row(&asgn, 0, 1), Ok(()));
    asgn.reassign_item(0, 1).unwrap();
    assert_eq!(col.components, vec![CategoricalSuffStat { n: 3, counts: vec![1, 1, 1] }]);
    assert_eq!(asgn.counts, vec![3]);
}

#[test]
fn an_opened_category_gets_statistics() {
    let (mut col, mut asgn) = example();
    assert_eq!(col.reassign_row(&asgn, 4, 2), Ok(()));
    asgn.reassign_item(4, 2).unwrap();
    assert_eq!(
        col.components,
        vec![
            CategoricalSuffStat { n: 2, counts: vec![1, 1, 0] },
            CategoricalSuffStat { n: 1, counts: vec![0, 1, 0] },
            CategoricalSuffStat { n: 1, counts: vec![0, 0, 1] },
        ]
    );
}

#[test]
fn reassign_row_refuses_what_is_out_of_bounds() {
    let (mut col, asgn) = example();
    let before = col.components.clone_from_parts();
    assert_eq!(col.reassign_row(&asgn, 5, 0), Err(ColumnError::RowOutOfBounds));
    assert_eq!(col.reassign_row(&asgn, 0, 3), Err(ColumnError::CategoryOutOfBounds));
    assert_eq!(col.components, before);
}

trait CloneFromParts {
    fn clone_from_parts(&self) -> Vec<CategoricalSuffStat>;
}

impl CloneFromParts for Vec<CategoricalSuffStat> {
    fn clone_from_parts(&self) -> Vec<CategoricalSuffStat> {
        self.iter().map(|s| CategoricalSuffStat { n: s.n, counts: s.counts.clone() }).collect()
    }
}

#[test]
fn overwrite_changes_one_category_only() {
    let (mut col, asgn) = example();
    assert_eq!(col.overwrite(&asgn, 3, Some(0)), Ok(()));
    assert_eq!(col.data, vec![Some(0), Some(1), None, Some(0), Some(2)]);
    assert_eq!(
        col.components,
        vec![
            CategoricalSuffStat { n: 2, counts: vec![1, 1, 0] },
            CategoricalSuffStat { n: 2, counts: vec![1, 0, 1] },
        ]
    );
    assert_eq!(col.overwrite(&asgn, 2, Some(2)), Ok(()));
    assert_eq!(col.components[1], CategoricalSuffStat { n: 3, counts: vec![1, 0, 2] });
    assert_eq!(col.overwrite(&asgn, 0, None), Ok(()));
    assert_eq!(col.components[0], CategoricalSuffStat { n: 1, counts: vec![0, 1, 0] });
    assert!(col.is_consistent(&asgn));
}

#[test]
fn overwriting_twice_is_overwriting_once() {
    let (mut once, asgn) = example();
    let (mut twice, _) = example();
    once.overwrite(&asgn, 1, Some(2)).unwrap();
    twice.overwrite(&asgn, 1, Some(2)).unwrap();
    twice.overwrite(&asgn, 1, Some(2)).unwrap();
    assert_eq!(once, twice);
    assert_eq!(once.components[0], CategoricalSuffStat { n: 2, counts: vec![1, 0, 1] });
}

#[test]
fn overwrite_refuses_bad_cells() {
    let (mut col, asgn) = example();
    assert_eq!(col.overwrite(&asgn, 5, Some(0)), Err(ColumnError::RowOutOfBounds));
    assert_eq!(col.overwrite(&asgn, 0, Some(3)), Err(ColumnError::ValueOutOfRange));
    assert_eq!(col.overwrite(&asgn, 9, Some(9)), Err(ColumnError::RowOutOfBounds));
    let (same, _) = example();
    assert_eq!(col, same);
}

#[test]
fn an_appended_row_is_one_more_observation() {
    let (mut col, mut asgn) = example();
    assert_eq!(col.append(&asgn, Some(2), 0), Ok(()));
    asgn.append_item(0).unwrap();
    assert_eq!(col.components[0], CategoricalSuffStat { n: 3, counts: vec![1, 1, 1] });
    assert_eq!(col.components[1], CategoricalSuffStat { n: 2, counts: vec![0, 1, 1] });
    assert_eq!(col.len(), 6);
    assert!(col.is_consistent(&asgn));
    assert_eq!(col.append(&asgn, Some(1), 2), Ok(()));
    asgn.append_item(2).unwrap();
    assert_eq!(col.components[2], CategoricalSuffStat { n: 1, counts: vec![0, 1, 0] });
    assert_eq!(col.append(&asgn, None, 1), Ok(()));
    asgn.append_item(1).unwrap();
    assert_eq!(col.components[1], CategoricalSuffStat { n: 2, counts: vec![0, 1, 1] });
    assert!(col.is_consistent(&asgn));
}

#[test]
fn append_refuses_bad_rows() {
    let (mut col, asgn) = example();
    assert_eq!(col.append(&asgn, Some(0), 3), Err(ColumnError::CategoryOutOfBounds));
    assert_eq!(col.append(&asgn, Some(3), 0), Err(ColumnError::ValueOutOfRange));
    let (same, _) = example();
    assert_eq!(col, same);
}

#[test]
fn is_consistent_finds_stale_statistics() {
    let (mut col, asgn) = example();
    col.components[0].counts[0] = 2;
    assert!(!col.is_consistent(&asgn));
    let (mut other, _) = example();
    other.components[1].n = 3;
    assert!(!other.is_consistent(&asgn));
    let (third, _) = example();
    assert!(!third.is_consistent(&Assignment::from_vec(vec![0, 1, 1, 1, 1]).unwrap()));
    assert!(!third.is_consistent(&Assignment::flat(4)));
}

#[test]
fn a_statistic_counts_observations() {
    let mut stat = CategoricalSuffStat::new(3);
    assert_eq!(stat, CategoricalSuffStat { n: 0, counts: vec![0, 0, 0] });
    assert_eq!(stat.insert(1), Ok(()));
    assert_eq!(stat.insert(1), Ok(()));
    assert_eq!(stat.insert(2), Ok(()));
    assert_eq!(stat.insert(3), Err(StatError::ValueOutOfRange));
    assert_eq!(stat, CategoricalSuffStat { n: 3, counts: vec![0, 2, 1] });
    assert_eq!(stat.n(), 3);
    assert_eq!(stat.card(), 3);
    assert_eq!(stat.count(1), 2);
    assert_eq!(stat.count(7), 0);
    assert_eq!(stat.remove(1), Ok(()));
    assert_eq!(stat.remove(0), Err(StatError::NotObserved));
    assert_eq!(stat.remove(3), Err(StatError::ValueOutOfRange));
    assert_eq!(stat, CategoricalSuffStat { n: 2, counts: vec![0, 1, 1] });
}

#[test]
fn a_copy_of_a_statistic_is_equal() {
    let mut stat = CategoricalSuffStat::new(2);
    stat.insert(1).unwrap();
    let mut copy = stat.duplicate();
    assert_eq!(copy, stat);
    copy.remove(1).unwrap();
    assert_eq!(stat, CategoricalSuffStat { n: 1, counts: vec![0, 1] });
}
