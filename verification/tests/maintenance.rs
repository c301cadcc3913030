use maintenance::{Day, InterventionExclusions, Maintenance, Period, Resource, UnsafeFixArray, IID};

fn sample() -> Maintenance<u32, u64> {
    Maintenance::<u32, u64>::builder()
        .set_ndays(4)
        .set_quantile(5)
        .set_alpha(7)
        .set_interventions(vec![])
        .set_resources(vec![Resource {
            min: UnsafeFixArray::from(vec![0u64; 4]),
            max: UnsafeFixArray::from(vec![9u64; 4]),
        }])
        .set_exclusions(vec![InterventionExclusions { exclusions: vec![] }])
        .set_scenarios_number(vec![3, 8, 2, 5])
        .build(|nb, q| nb * q as usize / 10)
}

#[test]
fn build_computes_scenarios_and_quantiles() {
    let m = sample();
    assert_eq!(m.nscenarios(), 8);
    assert_eq!(m.quantiles(), &[1, 4, 1, 2]);
    assert_eq!(m.ndays(), 4);
    assert_eq!(m.quantile(), 5);
    assert_eq!(m.alpha(), 7);
    assert_eq!(m.nresources(), 1);
    assert_eq!(m.ninterventions(), 0);
    assert!(m.interventions_ids().is_empty());
    assert_eq!(m.scenarios_ids().len(), 4);
    assert!(m.exclusions(IID::new(0)).exclusions.is_empty());
}

#[test]
fn values_by_period() {
    let m = sample();
    let p = Period::new(Day::new(1), Day::new(2)).unwrap();
    assert_eq!(m.scenarios_number_by_period(&p), &[8, 2]);
    assert_eq!(m.quantiles_by_period(&p), &[4, 1]);
    assert_eq!(m.scenarios_number(), &[3, 8, 2, 5]);
}
