use maintenance::{Day, Period};

#[test]
fn new_empty() {
    for start in 0..=100 {
        let p = Period::new(Day::new(start), Day::new(0));
        assert!(p.is_none());
    }
}

#[test]
fn is_not_empty() {
    for start in 0..=100 {
        for duration in 1..=100 {
            let p = Period::new(Day::new(start), Day::new(duration));
            assert!(p.is_some())
        }
    }
}

#[test]
fn bounds() {
    for start in 0..=100 {
        for duration in 1..=100 {
            let p = Period::new(Day::new(start), Day::new(duration)).unwrap();
            assert_eq!(p.start(), Day::new(start));
            assert_eq!(p.end_exclusive(), Day::new(start + duration));
            assert_eq!(
                p.days_exclusive(),
                (Day::new(start), Day::new(start + duration))
            );
            assert_eq!(p.end(), Day::new(start + duration - 1));
            assert_eq!(
                p.days(),
                (Day::new(start), Day::new(start + duration - 1))
            );
        }
    }
}

#[test]
pub fn contains() -> Result<(), String> {
    let periods = [
        // starts at 0
        ("Allen::starts", [0, 3], [0, 1], true),
        ("Allen::finishes", [0, 3], [1, 3], true),
        ("Allen::During", [0, 3], [1, 2], true),
        ("Allen::equals", [0, 3], [0, 3], true),
        ("Allen::overlaps_xy", [0, 3], [2, 4], false),
        ("Allen::meets_xy", [0, 3], [4, 6], false),
        ("Allen::before_xy", [0, 3], [5, 6], false),
        // general
        ("Allen::starts", [2, 5], [2, 3], true),
        ("Allen::finishes", [2, 5], [3, 5], true),
        ("Allen::During", [2, 5], [3, 4], true),
        ("Allen::equals", [2, 5], [2, 5], true),
        ("Allen::overlaps_xy", [2, 5], [4, 7], false),
        ("Allen::meets_xy", [2, 5], [6, 7], false),
        ("Allen::before_xy", [2, 5], [7, 7], false),
        ("Allen::overlaps_yx", [2, 5], [0, 3], false),
        ("Allen::meets_yx", [2, 5], [0, 1], false),
        ("Allen::before_yx", [2, 5], [0, 0], false),
    ];
    for (code, x, y, expected) in periods.iter() {
        let x = Period::new(Day::new(x[0]), Day::new(x[1] - x[0] + 1)).unwrap();
        let y = Period::new(Day::new(y[0]), Day::new(y[1] - y[0] + 1)).unwrap();
        if x.contains(&y) != *expected {
            return Err(String::from(*code));
        }
    }
    Ok(())
}

#[test]
pub fn intersect() -> Result<(), String> {
    let periods = [
        // starts at 0
        ("Allen::starts", [0, 3], [0, 1], Some([0, 1])),
        ("Allen::finishes", [0, 3], [1, 3], Some([1, 3])),
        ("Allen::During", [0, 3], [1, 2], Some([1, 2])),
        ("Allen::equals", [0, 3], [0, 3], Some([0, 3])),
        ("Allen::overlaps_xy", [0, 3], [2, 4], Some([2, 3])),
        ("Allen::meets_xy", [0, 3], [4, 6], None),
        ("Allen::before_xy", [0, 3], [5, 6], None),
        // general
        ("Allen::starts", [2, 5], [2, 3], Some([2, 3])),
        ("Allen::finishes", [2, 5], [3, 5], Some([3, 5])),
        ("Allen::During", [2, 5], [3, 4], Some([3, 4])),
        ("Allen::equals", [2, 5], [2, 5], Some([2, 5])),
        ("Allen::overlaps_xy", [2, 5], [4, 7], Some([4, 5])),
        ("Allen::meets_xy", [2, 5], [6, 7], None),
        ("Allen::before_xy", [2, 5], [7, 7], None),
        ("Allen::overlaps_yx", [2, 5], [0, 3], Some([2, 3])),
        ("Allen::meets_yx", [2, 5], [0, 1], None),
        ("Allen::before_yx", [2, 5], [0, 0], None),
    ];
    for (code, x, y, expected) in periods.iter() {
        let x = Period::new(Day::new(x[0]), Day::new(x[1] - x[0] + 1)).unwrap();
        let y = Period::new(Day::new(y[0]), Day::new(y[1] - y[0] + 1)).unwrap();
        let expected =
            expected.map(|x| Period::new(Day::new(x[0]), Day::new(x[1] - x[0] + 1)).unwrap());
        if x.intersection(&y) != expected {
            return Err(String::from(*code));
        }
        if x.intersect(&y) == expected.is_some() {
            return Err(String::from(*code));
        }
    }
    Ok(())
}
