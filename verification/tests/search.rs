use fixedbitset::FixedBitSet;
use maintenance::{Day, InterventionExclusions, Period, SearchState, IID};

fn seasons(on: &[usize]) -> FixedBitSet {
    let mut s = FixedBitSet::with_capacity(4);
    for &i in on {
        s.set(i, true);
    }
    s
}

fn period(start: usize, duration: usize) -> Period {
    Period::new(Day::new(start), Day::new(duration)).unwrap()
}

#[test]
fn new_state_plans_nothing() {
    let state = SearchState::new(3);
    assert_eq!(state.unplanned, vec![IID::new(0), IID::new(1), IID::new(2)]);
    assert!(state.planned.is_empty());
    assert!(state.current_planning().interventions.is_empty());
}

#[test]
fn schedule_plans_once() {
    let s0 = seasons(&[0]);
    let s1 = seasons(&[1]);
    let mut state = SearchState::new(3);
    assert!(state.schedule(IID::new(1), period(2, 3), &s0));
    assert_eq!(state.unplanned, vec![IID::new(0), IID::new(2)]);
    assert_eq!(state.planned, vec![IID::new(1)]);
    // already planned: nothing changes
    assert!(!state.schedule(IID::new(1), period(0, 1), &s1));
    assert_eq!(state.interventions[1], Some(period(2, 3)));
    assert!(state.schedule(IID::new(0), period(4, 1), &s1));
    assert_eq!(state.planned, vec![IID::new(1), IID::new(0)]);
    assert_eq!(state.unplanned, vec![IID::new(2)]);
    let planning = state.current_planning();
    assert_eq!(
        planning.interventions,
        vec![(IID::new(0), Day::new(4)), (IID::new(1), Day::new(2))]
    );
}

#[test]
fn check_exclusion_with_planned_interventions() {
    let s_plan = seasons(&[1, 2]);
    let mut state = SearchState::new(2);
    // intervention 1 planned on days 5..7, seasons {1, 2}
    assert!(state.schedule(IID::new(1), period(5, 3), &s_plan));
    // intervention 0 is excluded with 1 for season 3
    let ex = InterventionExclusions {
        exclusions: vec![(IID::new(1), seasons(&[3]))],
    };
    // a period with no day in common with 5..7, on a season shared with 1:
    // 1 is listed, and the exclusion's season 3 is not among {2}
    assert!(!state.check_exclusion(&period(0, 2), &seasons(&[2]), &ex));
    // a period overlapping 5..7 does not list 1
    assert!(state.check_exclusion(&period(6, 2), &seasons(&[2]), &ex));
    // no shared season with 1: 1 is not listed
    assert!(state.check_exclusion(&period(0, 2), &seasons(&[0]), &ex));
}
