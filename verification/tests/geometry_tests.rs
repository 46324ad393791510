use erosion_thickness::geometry::{isqrt, norm, subdivision_count, interpolate, Point3};

#[test]
fn isqrt_exact_values() {
    assert_eq!(isqrt(0), 0);
    assert_eq!(isqrt(1), 1);
    assert_eq!(isqrt(15), 3);
    assert_eq!(isqrt(16), 4);
    assert_eq!(isqrt(u128::MAX), u64::MAX);
}

#[test]
fn norm_of_a_3_4_12_box() {
    let a = Point3 { x: 0, y: 0, z: 0 };
    let b = Point3 { x: 3, y: 4, z: 12 };
    assert_eq!(norm(a, b), 13);
    assert_eq!(norm(b, a), 13);
}

#[test]
fn subdivision_count_is_capped() {
    assert_eq!(subdivision_count(1000, 250, 4), 4);
    assert_eq!(subdivision_count(1000, 250, 3), 3);
    assert_eq!(subdivision_count(1000, 300, 10), 3);
    assert_eq!(subdivision_count(0, 0, 10), 0);
    assert_eq!(subdivision_count(5, 0, 10), 10);
}

#[test]
fn interpolate_quarters() {
    assert_eq!(interpolate(0, 1000, 1, 4), 250);
    assert_eq!(interpolate(1000, 0, 1, 4), 750);
    assert_eq!(interpolate(-10, 10, 2, 4), 0);
}
