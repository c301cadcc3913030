use maintenance::{add_vec_in_place, sub_vec_in_place, MaintenanceSummary, UnsafeFixArray, A};

#[test]
fn fix_array_reads() {
    let a: UnsafeFixArray<u32> = vec![10, 20, 30, 40].into();
    assert_eq!(a.len(), 4);
    assert_eq!(a[2], 30);
    assert_eq!(&a[A { start: 1, len: 2 }], &[20, 30]);
    assert_eq!(&a[1..3], &[20, 30]);
    assert_eq!(&a[2..1], &[] as &[u32]);
    let b: UnsafeFixArray<u32> = vec![1, 2].into_boxed_slice().into();
    assert_eq!(b[1], 2);
}

#[test]
fn add_and_sub_in_place() {
    let mut x = vec![1u64, 2, 3];
    add_vec_in_place(&mut x, &[10, 20]);
    assert_eq!(x, vec![11, 22, 3]);
    sub_vec_in_place(&mut x, &[1, 2, 3, 4]);
    assert_eq!(x, vec![10, 20, 0]);
    let mut f = vec![0.5f64, 1.0];
    add_vec_in_place(&mut f, &[0.25, 0.5]);
    assert_eq!(f, vec![0.75, 1.5]);
}

#[test]
fn summary_keeps_low_bits() {
    let s = MaintenanceSummary::new(10, 20, 30, 40);
    assert_eq!((s.ndays(), s.ninterventions(), s.nresources(), s.nscenarios()), (10, 20, 30, 40));
    let big = MaintenanceSummary::new((1usize << 32) + 5, 0, 0, 0);
    assert_eq!(big.ndays(), 5);
}

#[test]
fn id_bytes_takes_the_first_sixteen() {
    let bytes: Vec<u8> = (0u8..20).collect();
    let id = maintenance::summary::id_bytes(&bytes);
    assert_eq!(id.to_vec(), (0u8..16).collect::<Vec<u8>>());
}
