use maintenance::{Day, Period};

fn period(start: usize, duration: usize) -> Period {
    Period::new(Day::new(start), Day::new(duration)).unwrap()
}

#[test]
fn intersection_is_symmetric_and_within_both() {
    for a in 0..6 {
        for la in 1..5 {
            for b in 0..6 {
                for lb in 1..5 {
                    let x = period(a, la);
                    let y = period(b, lb);
                    assert_eq!(x.intersection(&y), y.intersection(&x));
                    assert_eq!(x.intersect(&y), y.intersect(&x));
                    assert_eq!(x.intersection(&y).is_none(), x.intersect(&y));
                    if let Some(p) = x.intersection(&y) {
                        assert!(x.contains(&p) && y.contains(&p));
                    }
                }
            }
        }
    }
}

#[test]
fn contains_is_an_order() {
    let x = period(0, 10);
    let y = period(2, 5);
    let z = period(3, 2);
    assert!(x.contains(&x));
    assert!(x.contains(&y) && y.contains(&z) && x.contains(&z));
    assert!(!x.intersect(&y));
}

#[test]
fn day_numbering_round_trip() {
    for d in 1..50usize {
        assert_eq!((Day::new(d) - Day::new(1)) + Day::new(1), Day::new(d));
        assert_eq!((Day::new(d) + Day::new(3)) - Day::new(3), Day::new(d));
    }
}
