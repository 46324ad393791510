use erosion_thickness::et_algorithm::burntime::BurnTime;

#[test]
fn inf_eq_orders_times_before_infinity() {
    assert!(BurnTime::Infinity.inf_eq(&BurnTime::Infinity));
    assert!(!BurnTime::Infinity.inf_eq(&BurnTime::Time(7)));
    assert!(BurnTime::Time(7).inf_eq(&BurnTime::Infinity));
    assert!(BurnTime::Time(7).inf_eq(&BurnTime::Time(7)));
    assert!(BurnTime::Time(6).inf_eq(&BurnTime::Time(7)));
    assert!(!BurnTime::Time(8).inf_eq(&BurnTime::Time(7)));
}

#[test]
fn inf_eq_compares_any_two() {
    let all = [BurnTime::Infinity, BurnTime::Time(0), BurnTime::Time(5), BurnTime::Time(u128::MAX)];
    for a in all.iter() {
        for b in all.iter() {
            assert!(a.inf_eq(b) || b.inf_eq(a));
            if a.inf_eq(b) && b.inf_eq(a) {
                assert_eq!(a, b);
            }
        }
    }
}
