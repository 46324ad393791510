use erosion_thickness::geometry::{interpolate_point, interpolate_radius, Point3};
use erosion_thickness::sequences::{first_position, insert_sorted, sort_dedup};

#[test]
fn first_position_finds_the_first() {
    assert_eq!(first_position(&vec![5, 3, 5, 1], 5), Some(0));
    assert_eq!(first_position(&vec![5, 3, 5, 1], 1), Some(3));
    assert_eq!(first_position(&vec![5, 3, 5, 1], 2), None);
    assert_eq!(first_position(&vec![], 2), None);
}

#[test]
fn insert_sorted_keeps_order_and_holds_nothing_twice() {
    let mut v = vec![1, 4, 9];
    insert_sorted(&mut v, 5);
    assert_eq!(v, vec![1, 4, 5, 9]);
    insert_sorted(&mut v, 4);
    assert_eq!(v, vec![1, 4, 5, 9]);
    insert_sorted(&mut v, 0);
    insert_sorted(&mut v, 12);
    assert_eq!(v, vec![0, 1, 4, 5, 9, 12]);
    let mut w = vec![];
    insert_sorted(&mut w, 3);
    assert_eq!(w, vec![3]);
}

#[test]
fn sort_dedup_sorts_and_drops_repeats() {
    assert_eq!(sort_dedup(&vec![3, 1, 3, 2, 1]), vec![1, 2, 3]);
    assert_eq!(sort_dedup(&vec![]), Vec::<usize>::new());
    assert_eq!(sort_dedup(&vec![7, 7, 7]), vec![7]);
}

#[test]
fn points_and_radii_between_two_ends() {
    let a = Point3 { x: 0, y: 100, z: -50 };
    let b = Point3 { x: 90, y: 0, z: 50 };
    assert_eq!(interpolate_point(a, b, 1, 3), Point3 { x: 30, y: 67, z: -17 });
    assert_eq!(interpolate_point(a, b, 0, 3), a);
    assert_eq!(interpolate_point(a, b, 3, 3), b);
    assert_eq!(interpolate_radius(10, 40, 1, 3), 20);
    assert_eq!(interpolate_radius(40, 10, 1, 3), 30);
    assert_eq!(interpolate_radius(-1, 40, 1, 3), -1);
    assert_eq!(interpolate_radius(40, -7, 2, 3), -1);
    assert_eq!(interpolate_radius(0, 0, 2, 3), 0);
}
