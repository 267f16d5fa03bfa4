use lace::schedule::{AssignAlg, Cursor, StateTransition, UpdateConfig};

fn config() -> UpdateConfig {
    UpdateConfig {
        n_iters: 2,
        transitions: vec![
            StateTransition::ColumnAssignment(AssignAlg::Gibbs),
            StateTransition::PriorProcessParams,
            StateTransition::RowAssignment(AssignAlg::Slice),
        ],
        checkpoint: 2,
    }
}

#[test]
fn transitions_run_in_order_once_per_iteration() {
    let config = config();
    let mut at = config.start();
    assert_eq!(at, Cursor { iter: 0, step: 0 });
    let mut run = vec![];
    while let Some((transition, next)) = config.next_step(at, false) {
        run.push(transition);
        at = next;
    }
    assert_eq!(
        run,
        vec![
            StateTransition::ColumnAssignment(AssignAlg::Gibbs),
            StateTransition::PriorProcessParams,
            StateTransition::RowAssignment(AssignAlg::Slice),
            StateTransition::ColumnAssignment(AssignAlg::Gibbs),
            StateTransition::PriorProcessParams,
            StateTransition::RowAssignment(AssignAlg::Slice),
        ]
    );
    assert_eq!(at, Cursor { iter: 2, step: 0 });
}

#[test]
fn a_stop_is_honoured_between_iterations_only() {
    let config = config();
    assert_eq!(config.next_step(Cursor { iter: 0, step: 0 }, true), None);
    assert_eq!(config.next_step(Cursor { iter: 1, step: 0 }, true), None);
    assert_eq!(
        config.next_step(Cursor { iter: 0, step: 1 }, true),
        Some((StateTransition::PriorProcessParams, Cursor { iter: 0, step: 2 }))
    );
    assert_eq!(
        config.next_step(Cursor { iter: 0, step: 2 }, true),
        Some((StateTransition::RowAssignment(AssignAlg::Slice), Cursor { iter: 1, step: 0 }))
    );
}

#[test]
fn an_update_ends() {
    let config = config();
    assert_eq!(config.next_step(Cursor { iter: 2, step: 0 }, false), None);
    assert_eq!(config.next_step(Cursor { iter: 0, step: 3 }, false), None);
    let idle = UpdateConfig { n_iters: 5, transitions: vec![], checkpoint: 0 };
    assert_eq!(idle.next_step(idle.start(), false), None);
    let never = UpdateConfig { n_iters: 0, transitions: vec![StateTransition::PriorProcessParams], checkpoint: 0 };
    assert_eq!(never.next_step(never.start(), false), None);
}

#[test]
fn checkpoints_come_at_the_interval() {
    let config = config();
    assert!(!config.checkpoint_due(0));
    assert!(!config.checkpoint_due(1));
    assert!(config.checkpoint_due(2));
    assert!(!config.checkpoint_due(3));
    assert!(config.checkpoint_due(4));
    let never = UpdateConfig { n_iters: 3, transitions: vec![], checkpoint: 0 };
    assert!(!never.checkpoint_due(2));
}
