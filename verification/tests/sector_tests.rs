use erosion_thickness::et_algorithm::burntime::BurnTime;
use erosion_thickness::et_algorithm::sector::Sector;
use std::collections::HashSet;

fn set_of(items: &[usize]) -> HashSet<usize> {
    let mut s = HashSet::new();
    for &i in items {
        s.insert(i);
    }
    s
}

#[test]
fn new_sector_is_fresh() {
    let s = Sector::new(vec![4, 2, 7], set_of(&[1]), set_of(&[]));
    assert_eq!(*s.arc(), vec![4, 2, 7]);
    assert!(!s.is_burned());
    assert_eq!(*s.prime_arc(), None);
    assert_eq!(*s.time(), BurnTime::Infinity);
    assert_eq!(s.get_sec_unexposed()[0], set_of(&[1]));
    assert_eq!(s.get_sec_unexposed()[1], set_of(&[]));
}

#[test]
fn sector_is_exposed_when_one_end_is_free() {
    assert!(Sector::new(vec![0], set_of(&[]), set_of(&[3])).is_exposed());
    assert!(Sector::new(vec![0], set_of(&[3]), set_of(&[])).is_exposed());
    assert!(Sector::new(vec![0], set_of(&[]), set_of(&[])).is_exposed());
    assert!(!Sector::new(vec![0], set_of(&[2]), set_of(&[3])).is_exposed());
}

#[test]
fn get_arc_gives_the_first_place() {
    let s = Sector::new(vec![4, 2, 7, 2], set_of(&[]), set_of(&[]));
    assert_eq!(s.get_arc(4), Some(0));
    assert_eq!(s.get_arc(2), Some(1));
    assert_eq!(s.get_arc(7), Some(2));
    assert_eq!(s.get_arc(9), None);
}

#[test]
fn sector_setters_change_one_field() {
    let mut s = Sector::new(vec![4, 2], set_of(&[1]), set_of(&[5]));
    s.set_time(12);
    assert_eq!(*s.time(), BurnTime::Time(12));
    assert_eq!(*s.prime_arc(), None);
    s.set_prime_arc(1);
    assert_eq!(*s.prime_arc(), Some(1));
    assert_eq!(*s.time(), BurnTime::Time(12));
    assert!(!s.is_burned());
    assert_eq!(*s.arc(), vec![4, 2]);
    assert_eq!(s.get_sec_unexposed()[0], set_of(&[1]));
}

#[test]
fn burn_marks_and_frees_the_sector() {
    let mut s = Sector::new(vec![4, 2], set_of(&[1]), set_of(&[5]));
    s.set_time(3);
    s.burn();
    assert!(s.is_burned());
    assert!(s.is_exposed());
    assert_eq!(s.get_sec_unexposed()[0], set_of(&[]));
    assert_eq!(s.get_sec_unexposed()[1], set_of(&[]));
    assert_eq!(*s.time(), BurnTime::Time(3));
}

#[test]
fn expose_neigh_takes_a_shield_from_both_ends() {
    let mut s = Sector::new(vec![4, 2], set_of(&[1, 3]), set_of(&[1]));
    s.expose_neigh(1);
    assert_eq!(s.get_sec_unexposed()[0], set_of(&[3]));
    assert_eq!(s.get_sec_unexposed()[1], set_of(&[]));
    assert!(s.is_exposed());
    s.expose_neigh(9);
    assert_eq!(s.get_sec_unexposed()[0], set_of(&[3]));
}
