use maintenance::{Day, Risks};

#[test]
fn build_sums_groups_of_scenarios() {
    let risks = Risks::<u64>::builder()
        .set_nscenarios(2)
        .set_periods(vec![0, 4, 6])
        .set_risks(vec![1, 2, 3, 4, 5, 6, 7])
        .build();
    // groups (1, 2), (3, 4), (5, 6), (7)
    // one sum per day of the period: days 0 and 1, then day 2
    assert!(risks.has_summed_values(Day::new(0)));
    assert_eq!(risks.summed_values(Day::new(0)), &[3, 7]);
    assert_eq!(risks.summed_values(Day::new(1)), &[11]);
    // the values of a period run from its offset to the next one
    assert!(risks.has_values(Day::new(0)));
    assert_eq!(risks.values(Day::new(0)), &[1, 2, 3, 4]);
    assert_eq!(risks.values(Day::new(1)), &[5, 6]);
    assert!(!risks.has_values(Day::new(2)));
}

#[test]
fn float_risks_are_summed_in_order() {
    let risks = Risks::<f64>::builder()
        .set_nscenarios(3)
        .set_periods(vec![0, 3])
        .set_risks(vec![0.5, 0.25, 1.0, 2.0])
        .build();
    assert_eq!(risks.summed_values(Day::new(0)), &[1.75]);
}

#[test]
fn last_period_is_readable() {
    let risks = Risks::<u32>::builder()
        .set_nscenarios(1)
        .set_periods(vec![0, 2])
        .set_risks(vec![1, 1])
        .build();
    assert!(risks.has_values(Day::new(0)));
    assert_eq!(risks.values(Day::new(0)), &[1, 1]);
    // the sums of the last period can be read: one per day
    assert!(risks.has_summed_values(Day::new(0)));
    assert_eq!(risks.summed_values(Day::new(0)), &[1, 1]);
}

#[test]
fn one_sum_per_day() {
    // one scenario, two one-day periods
    let risks = Risks::<u32>::builder()
        .set_nscenarios(1)
        .set_periods(vec![0, 1, 2])
        .set_risks(vec![4, 9])
        .build();
    assert_eq!(risks.summed_values(Day::new(0)), &[4]);
    assert_eq!(risks.summed_values(Day::new(1)), &[9]);
}

#[test]
fn values_of_each_period() {
    // two periods of one day each, two scenarios
    let risks = Risks::<u32>::builder()
        .set_nscenarios(2)
        .set_periods(vec![0, 2, 4])
        .set_risks(vec![1, 2, 3, 4])
        .build();
    assert_eq!(risks.values(Day::new(0)), &[1, 2]);
    assert_eq!(risks.values(Day::new(1)), &[3, 4]);
    assert!(!risks.has_values(Day::new(2)));
}
