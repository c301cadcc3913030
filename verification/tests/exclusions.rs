use fixedbitset::FixedBitSet;
use maintenance::reader::{compute_exclusions, update_exclusion};
use maintenance::{intersect, InterventionExclusions, IID, SID};

fn seasons(len: usize, on: &[usize]) -> FixedBitSet {
    let mut s = FixedBitSet::with_capacity(len);
    for &i in on {
        s.set(i, true);
    }
    s
}

#[test]
fn intersect_shared_season() {
    assert!(intersect(&seasons(4, &[1, 2]), &seasons(4, &[2, 3])));
    assert!(!intersect(&seasons(4, &[1]), &seasons(4, &[0, 3])));
    assert!(!intersect(&seasons(4, &[]), &seasons(4, &[0, 1, 2, 3])));
    assert!(intersect(&seasons(70, &[65]), &seasons(130, &[65, 129])));
}

fn exclusions(entries: &[(usize, &[usize])]) -> InterventionExclusions {
    InterventionExclusions {
        exclusions: entries
            .iter()
            .map(|(iid, on)| (IID::new(*iid), seasons(4, on)))
            .collect(),
    }
}

#[test]
fn is_excluded_without_exclusions() {
    let ex = exclusions(&[]);
    assert!(!ex.is_excluded(&seasons(4, &[0]), &[IID::new(0), IID::new(1)]));
}

#[test]
fn is_excluded_on_disjoint_seasons() {
    // the exclusion with 2 is for season 1; planned on season 3
    let ex = exclusions(&[(2, &[1]), (5, &[0])]);
    assert!(ex.is_excluded(&seasons(4, &[3]), &[IID::new(2)]));
    // planned on season 1: the seasons are shared
    assert!(!ex.is_excluded(&seasons(4, &[1]), &[IID::new(2)]));
    // intervention 3 is not in the exclusions
    assert!(!ex.is_excluded(&seasons(4, &[3]), &[IID::new(3)]));
}

#[test]
fn is_excluded_finds_later_interventions() {
    // entries for 1, 3, 5 with seasons {0}, {0}, {1}; planned on {0}
    let ex = exclusions(&[(1, &[0]), (3, &[0]), (5, &[1])]);
    // 3 shares season 0, 5 shares none: excluded
    assert!(ex.is_excluded(&seasons(4, &[0]), &[IID::new(3), IID::new(5)]));
    assert!(!ex.is_excluded(&seasons(4, &[0]), &[IID::new(1), IID::new(3)]));
    let ex = exclusions(&[(2, &[0]), (5, &[2]), (7, &[0])]);
    // 5 shares season 2, 7 shares none
    assert!(ex.is_excluded(&seasons(4, &[2]), &[IID::new(5), IID::new(7)]));
    assert!(ex.is_excluded(&seasons(4, &[0]), &[IID::new(5), IID::new(7)]));
    assert!(!ex.is_excluded(&seasons(4, &[0, 2]), &[IID::new(2), IID::new(5), IID::new(7)]));
}

#[test]
fn is_excluded_agrees_with_excluded_interventions() {
    let ex = exclusions(&[(1, &[0]), (3, &[1, 2]), (4, &[3]), (6, &[0, 3])]);
    for on in [&[0usize][..], &[1], &[2, 3], &[0, 1, 2, 3]] {
        let s = seasons(4, on);
        let listed = ex.excluded_interventions(&s);
        for ids in [&[0usize, 1, 2][..], &[3, 4], &[1, 6], &[2, 5, 6], &[]] {
            let iids: Vec<IID> = ids.iter().map(|&i| IID::new(i)).collect();
            let expected = iids.iter().any(|i| listed.contains(i));
            assert_eq!(ex.is_excluded(&s, &iids), expected);
        }
    }
}

#[test]
fn excluded_interventions_keeps_disjoint_entries() {
    let ex = exclusions(&[(1, &[0]), (4, &[1, 2]), (6, &[3])]);
    assert_eq!(
        ex.excluded_interventions(&seasons(4, &[1])),
        vec![IID::new(1), IID::new(6)]
    );
    assert_eq!(ex.excluded_interventions(&seasons(4, &[0, 1, 3])), vec![]);
}

#[test]
fn possible_seasons_removes_shared_seasons() {
    let ex = exclusions(&[(1, &[0, 1]), (2, &[2])]);
    let interventions = vec![seasons(4, &[]), seasons(4, &[1, 3]), seasons(4, &[2])];
    let possible = ex.possible_seasons(&interventions);
    // all seasons but 1 are left after the first entry, which stops the search
    assert_eq!(possible.ones().collect::<Vec<usize>>(), vec![0, 2, 3]);
    // without exclusions, every season of the first intervention is possible
    let none = exclusions(&[]);
    assert_eq!(none.possible_seasons(&interventions).ones().count(), 4);
}

#[test]
fn possible_seasons_goes_on_while_nothing_is_left() {
    let ex = exclusions(&[(1, &[0, 1]), (2, &[2])]);
    let interventions = vec![seasons(2, &[]), seasons(2, &[0, 1]), seasons(4, &[3])];
    let possible = ex.possible_seasons(&interventions);
    assert_eq!(possible.len(), 2);
    assert_eq!(possible.ones().count(), 0);
}

#[test]
fn update_exclusion_keeps_entries_sorted() {
    let mut ex: Vec<(IID, FixedBitSet)> = Vec::new();
    update_exclusion(&mut ex, IID::new(5), SID::new(1), 3);
    update_exclusion(&mut ex, IID::new(2), SID::new(0), 3);
    update_exclusion(&mut ex, IID::new(5), SID::new(2), 3);
    update_exclusion(&mut ex, IID::new(9), SID::new(0), 3);
    let ids: Vec<usize> = ex.iter().map(|e| e.0.get()).collect();
    assert_eq!(ids, vec![2, 5, 9]);
    assert_eq!(ex[1].1.ones().collect::<Vec<usize>>(), vec![1, 2]);
    assert_eq!(ex[1].1.len(), 3);
}

#[test]
fn compute_exclusions_is_symmetric() {
    let pairs = vec![
        (IID::new(0), IID::new(2), SID::new(1)),
        (IID::new(2), IID::new(1), SID::new(0)),
        (IID::new(0), IID::new(2), SID::new(0)),
    ];
    let ex = compute_exclusions(&pairs, 3, 2);
    assert_eq!(ex.len(), 3);
    let entries = |i: usize| -> Vec<(usize, Vec<usize>)> {
        ex[i]
            .exclusions
            .iter()
            .map(|(iid, s)| (iid.get(), s.ones().collect()))
            .collect()
    };
    assert_eq!(entries(0), vec![(2, vec![0, 1])]);
    assert_eq!(entries(1), vec![(2, vec![0])]);
    assert_eq!(entries(2), vec![(0, vec![0, 1]), (1, vec![0])]);
}
