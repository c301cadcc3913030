use fixedbitset::FixedBitSet;
use maintenance::{Day, Intervention, Period, Risks, RID};

fn sample() -> Intervention<u32, u64> {
    let periods = vec![
        Period::new(Day::new(0), Day::new(2)).unwrap(),
        Period::new(Day::new(1), Day::new(2)).unwrap(),
    ];
    let mut s0 = FixedBitSet::with_capacity(2);
    s0.set(0, true);
    let mut s1 = FixedBitSet::with_capacity(2);
    s1.set(1, true);
    let risks = Risks::<u64>::builder()
        .set_nscenarios(1)
        .set_periods(vec![0, 2, 4])
        .set_risks(vec![1, 2, 3, 4])
        .build();
    Intervention::builder()
        .set_latest_start(Day::new(1))
        .set_periods(periods)
        .set_seasons(vec![s0, s1])
        .set_risks(risks)
        .set_workloads(vec![10, 11, 20, 21])
        .set_resources(vec![RID::new(0), RID::new(3)])
        .build()
}

#[test]
fn intervention_days_and_periods() {
    let i = sample();
    assert_eq!(i.latest_start(), Day::new(1));
    assert!(i.is_day_compatible(Day::new(1)));
    assert!(!i.is_day_compatible(Day::new(2)));
    assert_eq!(i.days(), vec![Day::new(0), Day::new(1)]);
    assert_eq!(i.periods().len(), 2);
    assert_eq!(i.period(Day::new(1)).start(), Day::new(1));
    assert_eq!(i.seasons(Day::new(1)).ones().collect::<Vec<usize>>(), vec![1]);
}

#[test]
fn intervention_workloads_by_day() {
    let i = sample();
    assert_eq!(i.nresources(), 2);
    assert_eq!(i.workloads(Day::new(0)), &[10, 11]);
    assert_eq!(i.workloads(Day::new(1)), &[20, 21]);
}

#[test]
fn intervention_risks_by_day() {
    let i = sample();
    assert_eq!(i.period_risks(Day::new(0)), &[1, 2]);
    assert_eq!(i.period_risks(Day::new(1)), &[3, 4]);
    assert_eq!(i.summed_risks(Day::new(0)), &[1, 2]);
    assert_eq!(i.summed_risks(Day::new(1)), &[3, 4]);
    assert!(i.risks().has_values(Day::new(1)));
    assert!(!i.risks().has_values(Day::new(2)));
}
