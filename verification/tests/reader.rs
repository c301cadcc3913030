use maintenance::reader::{
    create_risks, create_seasons_of_period, create_seasons_of_periods, create_workloads,
    intervention_periods, risk_period_offsets,
};
use maintenance::{list_of_seasons, Day, Period, SerdeDay, SID};

fn days(d: &[usize]) -> Vec<SerdeDay> {
    d.iter().map(|&x| SerdeDay::new(x)).collect()
}

#[test]
fn serde_day_arithmetic() {
    assert_eq!(SerdeDay::new(3) + SerdeDay::new(4), SerdeDay::new(7));
    assert_eq!(SerdeDay::new(9) - SerdeDay::new(4), SerdeDay::new(5));
    let d: Day = SerdeDay::new(12).into();
    assert_eq!(d, Day::new(12));
    assert_eq!(SerdeDay::new(8).get(), 8);
}

#[test]
fn seasons_of_days() {
    let seasons = vec![("summer", days(&[0, 1])), ("winter", days(&[1, 3]))];
    let w = list_of_seasons(&seasons, SerdeDay::new(5));
    assert_eq!(w.nseasons, 3);
    assert_eq!(w.seasons_codes, vec!["summer", "winter"]);
    let s: Vec<usize> = w.season_of_days.iter().map(|s| s.get()).collect();
    // day 1 is listed by both: the later season wins; days 2 and 4 get the extra season
    assert_eq!(s, vec![0, 1, 2, 1, 2]);
}

#[test]
fn seasons_of_no_season() {
    let w = list_of_seasons(&[], SerdeDay::new(2));
    assert_eq!(w.nseasons, 1);
    assert_eq!(w.season_of_days, vec![SID::new(0), SID::new(0)]);
}

#[test]
fn seasons_of_a_period() {
    let season_of_days = vec![SID::new(0), SID::new(2), SID::new(2), SID::new(1)];
    let p = Period::new(Day::new(1), Day::new(2)).unwrap();
    let s = create_seasons_of_period(&p, &season_of_days, 3);
    assert_eq!(s.len(), 3);
    assert_eq!(s.ones().collect::<Vec<usize>>(), vec![2]);
    // days past the end of the list have no season
    let q = Period::new(Day::new(3), Day::new(5)).unwrap();
    let s = create_seasons_of_period(&q, &season_of_days, 3);
    assert_eq!(s.ones().collect::<Vec<usize>>(), vec![1]);
    let all = create_seasons_of_periods(&[p, q], &season_of_days, 3);
    assert_eq!(all.len(), 2);
    assert_eq!(all[1].ones().collect::<Vec<usize>>(), vec![1]);
}

#[test]
fn periods_within_the_horizon() {
    // durations are delta + 1; horizon of 5 days (0..=4)
    let delta = days(&[1, 2, 2, 0, 3]);
    let periods = intervention_periods(&delta, 5);
    assert_eq!(periods.len(), 4);
    assert_eq!(periods[0], Period::new(Day::new(0), Day::new(2)).unwrap());
    assert_eq!(periods[1], Period::new(Day::new(1), Day::new(3)).unwrap());
    assert_eq!(periods[2].days(), (Day::new(2), Day::new(4)));
    assert_eq!(periods[3], Period::new(Day::new(3), Day::new(1)).unwrap());
}

#[test]
fn periods_stop_at_the_first_one_past_the_horizon() {
    let delta = days(&[5, 0, 0]);
    assert_eq!(intervention_periods(&delta, 5).len(), 0);
    assert_eq!(intervention_periods(&days(&[]), 1).len(), 0);
}

#[test]
fn risk_offsets() {
    let periods = vec![
        Period::new(Day::new(0), Day::new(2)).unwrap(),
        Period::new(Day::new(1), Day::new(3)).unwrap(),
    ];
    assert_eq!(risk_period_offsets(&periods, 4), vec![0, 8, 20]);
    assert_eq!(risk_period_offsets(&[], 4), vec![0]);
}

#[test]
fn risks_are_placed_in_their_slots() {
    let periods = vec![
        Period::new(Day::new(0), Day::new(2)).unwrap(),
        Period::new(Day::new(1), Day::new(3)).unwrap(),
    ];
    let entries = vec![
        (SerdeDay::new(1), SerdeDay::new(0), vec![5u64, 6]),
        (SerdeDay::new(3), SerdeDay::new(1), vec![7u64]),
    ];
    let risks = create_risks(&entries, &periods, 2, 0u64);
    // offsets 0, 4, 10; the first entry goes at 0 + 1 * 2, the second at 4 + 2 * 2
    assert_eq!(risks.values(Day::new(0)), &[0, 0, 5, 6]);
    assert_eq!(risks.values(Day::new(1)), &[0, 0, 0, 0, 7, 0]);
    // sums of the groups of two values: 0, 11, 0, 0, 7
    assert_eq!(risks.summed_values(Day::new(0)), &[0, 11]);
    assert_eq!(risks.summed_values(Day::new(1)), &[0, 0, 7]);
}

#[test]
fn later_risk_entries_win() {
    let periods = vec![
        Period::new(Day::new(0), Day::new(1)).unwrap(),
        Period::new(Day::new(1), Day::new(1)).unwrap(),
    ];
    let entries = vec![
        (SerdeDay::new(0), SerdeDay::new(0), vec![1.5f64, 2.5]),
        (SerdeDay::new(0), SerdeDay::new(0), vec![4.0f64]),
    ];
    let risks = create_risks(&entries, &periods, 2, 0.0f64);
    assert_eq!(risks.values(Day::new(0)), &[4.0, 2.5]);
    assert_eq!(risks.summed_values(Day::new(0)), &[6.5]);
}

#[test]
fn workloads_are_placed_by_period_and_resource() {
    let periods = vec![
        Period::new(Day::new(0), Day::new(2)).unwrap(),
        Period::new(Day::new(1), Day::new(1)).unwrap(),
    ];
    let entries = vec![
        (1usize, SerdeDay::new(1), SerdeDay::new(0), 9u32),
        (0usize, SerdeDay::new(1), SerdeDay::new(1), 4u32),
        (0usize, SerdeDay::new(0), SerdeDay::new(0), 3u32),
    ];
    let w = create_workloads(&entries, &periods, 2, 0u32);
    assert_eq!(
        w,
        vec![(0, vec![3, 0]), (1, vec![0, 9]), (0, vec![4]), (1, vec![0])]
    );
    assert!(create_workloads(&[] as &[(usize, SerdeDay, SerdeDay, u32)], &periods, 0, 0u32).is_empty());
}

#[test]
fn later_workload_entries_win() {
    let periods = vec![Period::new(Day::new(0), Day::new(2)).unwrap()];
    let entries = vec![
        (0usize, SerdeDay::new(1), SerdeDay::new(0), 2.5f64),
        (0usize, SerdeDay::new(1), SerdeDay::new(0), 4.0f64),
    ];
    let w = create_workloads(&entries, &periods, 1, 0.0f64);
    assert_eq!(w, vec![(0, vec![0.0, 4.0])]);
}
