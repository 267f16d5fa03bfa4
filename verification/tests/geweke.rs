use lace::geweke::{GewekeAction, GewekeCursor, GewekePlan};

#[test]
fn a_chain_draws_runs_and_records() {
    let plan = GewekePlan { n_samples: 2, lag: 2, burn_in: 1 };
    let mut at = plan.start();
    assert_eq!(at, GewekeCursor { sample: 0, drawn: false, step: 0 });
    let mut course = vec![];
    while let Some((action, next)) = plan.next_action(at) {
        course.push(action);
        at = next;
    }
    let sample = |last: GewekeAction| {
        vec![GewekeAction::Resample, GewekeAction::Transition, GewekeAction::Transition, last]
    };
    let mut expected = sample(GewekeAction::Discard);
    expected.extend(sample(GewekeAction::Record));
    expected.extend(sample(GewekeAction::Record));
    assert_eq!(course, expected);
    assert_eq!(at, GewekeCursor { sample: 3, drawn: false, step: 0 });
}

#[test]
fn a_chain_without_lag_records_what_it_draws() {
    let plan = GewekePlan { n_samples: 1, lag: 0, burn_in: 0 };
    let first = plan.next_action(plan.start()).unwrap();
    assert_eq!(first, (GewekeAction::Resample, GewekeCursor { sample: 0, drawn: true, step: 0 }));
    let second = plan.next_action(first.1).unwrap();
    assert_eq!(second, (GewekeAction::Record, GewekeCursor { sample: 1, drawn: false, step: 0 }));
    assert_eq!(plan.next_action(second.1), None);
}

#[test]
fn a_chain_of_no_samples_does_nothing() {
    let plan = GewekePlan { n_samples: 0, lag: 3, burn_in: 0 };
    assert_eq!(plan.next_action(plan.start()), None);
    let burning = GewekePlan { n_samples: 0, lag: 1, burn_in: 2 };
    assert_eq!(
        burning.next_action(burning.start()),
        Some((GewekeAction::Resample, GewekeCursor { sample: 0, drawn: true, step: 0 }))
    );
    assert_eq!(burning.next_action(GewekeCursor { sample: 2, drawn: false, step: 0 }), None);
}
