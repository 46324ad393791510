use erosion_thickness::et_algorithm::burntime::BurnTime;
use erosion_thickness::et_algorithm::vertex::{detect_sectors, follow_sector, ErosionThickness, Vertex};
use erosion_thickness::geometry::Point3;
use std::collections::HashSet;

fn origin() -> Point3 {
    Point3 { x: 0, y: 0, z: 0 }
}

fn set_of(items: &[usize]) -> HashSet<usize> {
    let mut s = HashSet::new();
    for &i in items {
        s.insert(i);
    }
    s
}

/// A node whose link is the path 10 - 11 - 12.
fn path_node() -> Vertex {
    let mut v = Vertex::new(origin(), -1);
    v.add_couple_neigh(10, 11);
    v.add_couple_neigh(11, 12);
    v
}

/// A node whose link is the ring 10 - 11 - 12 - 10.
fn ring_node() -> Vertex {
    let mut v = Vertex::new(origin(), -1);
    v.add_couple_neigh(10, 11);
    v.add_couple_neigh(11, 12);
    v.add_couple_neigh(12, 10);
    v
}

/// A node whose link has three arms 20, 21, 22 that meet at 30.
fn star_node() -> Vertex {
    let mut v = Vertex::new(origin(), -1);
    v.add_couple_neigh(20, 30);
    v.add_couple_neigh(21, 30);
    v.add_couple_neigh(22, 30);
    v
}

/// A node whose link has two junctions, 40 and 41, joined by three ways,
/// through 50, 51 and 52.
fn theta_node() -> Vertex {
    let mut v = Vertex::new(origin(), -1);
    v.add_couple_neigh(40, 50);
    v.add_couple_neigh(50, 41);
    v.add_couple_neigh(40, 51);
    v.add_couple_neigh(51, 41);
    v.add_couple_neigh(40, 52);
    v.add_couple_neigh(52, 41);
    v
}

fn assert_symmetric(v: &Vertex) {
    for i in 0..v.neigh_adj.len() {
        for &j in v.neigh_adj[i].iter() {
            assert!(j < v.neigh_adj.len());
            assert!(v.neigh_adj[j].contains(&i));
        }
    }
}

#[test]
fn new_vertex_is_blank() {
    let v = Vertex::new(Point3 { x: 1, y: 2, z: 3 }, 7);
    assert_eq!(v.pos(), Point3 { x: 1, y: 2, z: 3 });
    assert_eq!(v.rad(), 7);
    assert_eq!(*v.time(), BurnTime::Infinity);
    assert!(!v.is_burned());
    assert!(!v.is_boundary());
    assert_eq!(*v.prime_sector(), None);
    assert_eq!(v.prime_neighbor(), None);
    assert!(v.neigh().is_empty());
    assert!(v.neigh_adj.is_empty());
    assert!(v.sector.is_empty());
}

#[test]
fn vertex_setters_change_one_field() {
    let mut v = Vertex::new(origin(), 7);
    v.set_time(9);
    assert_eq!(*v.time(), BurnTime::Time(9));
    v.set_prime_sector(2);
    assert_eq!(*v.prime_sector(), Some(2));
    assert_eq!(*v.time(), BurnTime::Time(9));
    v.reset_prime_sector();
    assert_eq!(*v.prime_sector(), None);
    v.reset_time();
    assert_eq!(*v.time(), BurnTime::Infinity);
    v.burn();
    assert!(v.is_burned());
    assert_eq!(v.rad(), 7);
}

#[test]
fn erosion_thickness_is_time_less_radius() {
    let mut v = Vertex::new(origin(), 7);
    assert_eq!(v.erosion_thickness(), ErosionThickness::Infinity);
    v.set_time(10);
    assert_eq!(v.erosion_thickness(), ErosionThickness::ET(3));
    let mut w = Vertex::new(origin(), -1);
    w.set_time(10);
    assert_eq!(w.erosion_thickness(), ErosionThickness::ET(11));
    let mut x = Vertex::new(origin(), 12);
    x.set_time(10);
    assert_eq!(x.erosion_thickness(), ErosionThickness::ET(-2));
}

#[test]
fn add_couple_neigh_builds_a_symmetric_link() {
    let v = path_node();
    assert_eq!(*v.neigh(), vec![10, 11, 12]);
    assert_eq!(v.neigh_adj, vec![vec![1], vec![0, 2], vec![1]]);
    assert_eq!(v.get_num_neigh(11), Some(1));
    assert_eq!(v.get_num_neigh(13), None);
    assert_symmetric(&v);
    assert_symmetric(&ring_node());
    assert_symmetric(&star_node());
    assert_symmetric(&theta_node());
}

#[test]
fn add_couple_neigh_keeps_what_is_added_twice() {
    let mut v = Vertex::new(origin(), -1);
    v.add_couple_neigh(10, 11);
    v.add_couple_neigh(11, 10);
    assert_eq!(*v.neigh(), vec![10, 11]);
    assert_eq!(v.neigh_adj, vec![vec![1, 1], vec![0, 0]]);
    v.compute_sectors();
    assert_eq!(v.neigh_adj, vec![vec![1], vec![0]]);
    assert_symmetric(&v);
}

#[test]
fn sectors_of_a_path() {
    let mut v = path_node();
    v.compute_sectors();
    assert!(v.is_boundary());
    assert_eq!(v.edge_sector, vec![vec![Some(0)], vec![Some(0), Some(0)], vec![Some(0)]]);
    assert_eq!(v.sector.len(), 1);
    assert_eq!(*v.sector[0].arc(), vec![0, 1, 2]);
    assert!(v.sector[0].is_exposed());
    assert_eq!(v.sector[0].get_sec_unexposed()[0], set_of(&[]));
    assert_eq!(v.sector[0].get_sec_unexposed()[1], set_of(&[]));
    assert_eq!(v.attached_sectors(1), vec![0]);
    assert!(v.check_usable());
}

#[test]
fn sectors_of_a_ring() {
    let mut v = ring_node();
    v.compute_sectors();
    assert!(!v.is_boundary());
    assert_eq!(v.neigh_adj, vec![vec![1, 2], vec![0, 2], vec![0, 1]]);
    for row in v.edge_sector.iter() {
        assert_eq!(*row, vec![Some(0), Some(0)]);
    }
    assert_eq!(v.sector.len(), 1);
    assert_eq!(*v.sector[0].arc(), vec![0, 1, 2]);
    assert!(!v.sector[0].is_exposed());
    assert_eq!(v.sector[0].get_sec_unexposed()[0], set_of(&[0]));
    assert_eq!(v.sector[0].get_sec_unexposed()[1], set_of(&[0]));
    assert!(v.get_exposed_sectors().is_empty());
    assert_eq!(v.get_unburned_sectors(), vec![0]);
}

#[test]
fn sectors_of_a_star() {
    let mut v = star_node();
    v.compute_sectors();
    // the junction has degree 3: the node is singular and no boundary
    assert!(!v.is_boundary());
    assert_eq!(*v.neigh(), vec![20, 30, 21, 22]);
    assert_eq!(
        v.edge_sector,
        vec![vec![Some(0)], vec![Some(0), Some(1), Some(2)], vec![Some(1)], vec![Some(2)]]
    );
    assert_eq!(v.sector.len(), 3);
    assert_eq!(*v.sector[0].arc(), vec![0, 1]);
    assert_eq!(*v.sector[1].arc(), vec![1, 2]);
    assert_eq!(*v.sector[2].arc(), vec![1, 3]);
    assert_eq!(v.sector[0].get_sec_unexposed()[0], set_of(&[]));
    assert_eq!(v.sector[0].get_sec_unexposed()[1], set_of(&[1, 2]));
    assert_eq!(v.sector[1].get_sec_unexposed()[0], set_of(&[0, 2]));
    assert_eq!(v.sector[1].get_sec_unexposed()[1], set_of(&[]));
    assert_eq!(v.attached_sectors(1), vec![0, 1, 2]);
    assert_eq!(v.attached_sectors(2), vec![1]);
    assert_eq!(v.get_exposed_sectors(), vec![0, 1, 2]);
    assert!(v.check_usable());
}

#[test]
fn sectors_cover_every_link_edge() {
    for mut v in [path_node(), ring_node(), star_node(), theta_node()] {
        v.compute_sectors();
        for i in 0..v.edge_sector.len() {
            assert_eq!(v.edge_sector[i].len(), v.neigh_adj[i].len());
            for k in 0..v.edge_sector[i].len() {
                let label = v.edge_sector[i][k];
                assert!(matches!(label, Some(s) if s < v.sector.len()));
                // the other end of the link edge carries the same label
                let j = v.neigh_adj[i][k];
                let back = v.neigh_adj[j].iter().position(|&x| x == i).unwrap();
                assert_eq!(v.edge_sector[j][back], label);
            }
        }
    }
}

#[test]
fn a_ring_beside_a_path_gets_no_label() {
    let mut v = path_node();
    v.add_couple_neigh(60, 61);
    v.add_couple_neigh(61, 62);
    v.add_couple_neigh(62, 60);
    v.compute_sectors();
    assert_eq!(v.sector.len(), 1);
    assert_eq!(v.edge_sector[3], vec![None, None]);
    assert!(!v.check_usable());
}

#[test]
fn detect_and_follow_on_bare_lists() {
    let adj = vec![vec![1], vec![0, 2], vec![1, 3], vec![2]];
    let mut labels = vec![vec![None], vec![None, None], vec![None, None], vec![None]];
    assert_eq!(detect_sectors(&adj, &mut labels), (1, false));
    assert_eq!(
        labels,
        vec![vec![Some(0)], vec![Some(0), Some(0)], vec![Some(0), Some(0)], vec![Some(0)]]
    );
    assert_eq!(follow_sector(&adj, &labels, 0, 0), (vec![0, 1, 2, 3], false));
    assert_eq!(follow_sector(&adj, &labels, 3, 0), (vec![3, 2, 1, 0], false));
    assert_eq!(follow_sector(&adj, &labels, 0, 1), (vec![0], false));
    let no_adj: Vec<Vec<usize>> = vec![];
    let mut no_labels: Vec<Vec<Option<usize>>> = vec![];
    assert_eq!(detect_sectors(&no_adj, &mut no_labels), (0, false));
}

#[test]
fn burning_sectors_of_a_theta_exposes_the_last() {
    let mut v = theta_node();
    v.compute_sectors();
    assert_eq!(v.sector.len(), 3);
    for s in 0..3 {
        assert!(!v.sector[s].is_exposed());
    }
    assert_eq!(v.sector[0].get_sec_unexposed()[0], set_of(&[1, 2]));
    assert_eq!(v.sector[0].get_sec_unexposed()[1], set_of(&[1, 2]));
    assert!(v.get_exposed_sectors().is_empty());
    v.burn_sector(0);
    assert!(v.sector[0].is_burned());
    assert!(!v.sector[1].is_exposed());
    assert_eq!(v.sector[1].get_sec_unexposed()[0], set_of(&[2]));
    assert_eq!(v.sector[2].get_sec_unexposed()[0], set_of(&[1]));
    assert_eq!(v.get_unburned_sectors(), vec![1, 2]);
    assert!(v.get_exposed_sectors().is_empty());
    v.burn_sector(1);
    // sector 2 has lost its last shield
    assert!(v.sector[2].is_exposed());
    assert!(!v.sector[2].is_burned());
    assert_eq!(v.get_exposed_sectors(), vec![2]);
    assert_eq!(v.get_unburned_sectors(), vec![2]);
}

#[test]
fn prime_neighbor_follows_sector_and_arc() {
    let mut v = star_node();
    v.compute_sectors();
    v.set_prime_sector(1);
    assert_eq!(v.prime_neighbor(), None);
    v.sectors()[1].set_prime_arc(1);
    // place 1 of the arc [1, 2] is link node 2, which is node 21
    assert_eq!(v.prime_neighbor(), Some(21));
}

#[test]
fn relax_from_reaches_every_attached_sector() {
    let mut v = star_node();
    v.compute_sectors();
    assert!(v.relax_from(1, 50));
    assert_eq!(*v.time(), BurnTime::Time(50));
    assert_eq!(*v.prime_sector(), Some(2));
    for s in 0..3 {
        assert_eq!(*v.sector[s].time(), BurnTime::Time(50));
    }
    assert_eq!(*v.sector[0].prime_arc(), Some(1));
    assert_eq!(*v.sector[1].prime_arc(), Some(0));
    // a later fire changes nothing
    assert!(!v.relax_from(0, 60));
    assert_eq!(*v.time(), BurnTime::Time(50));
    assert_eq!(*v.sector[0].time(), BurnTime::Time(50));
    assert_eq!(*v.sector[0].prime_arc(), Some(1));
    // an earlier fire through one arm lowers its sector and the node
    assert!(v.relax_from(2, 40));
    assert_eq!(*v.time(), BurnTime::Time(40));
    assert_eq!(*v.prime_sector(), Some(1));
    assert_eq!(*v.sector[1].time(), BurnTime::Time(40));
    assert_eq!(*v.sector[1].prime_arc(), Some(1));
    assert_eq!(*v.sector[0].time(), BurnTime::Time(50));
}

#[test]
fn relax_from_skips_burned_sectors() {
    let mut v = star_node();
    v.compute_sectors();
    v.burn_sector(1);
    assert!(v.relax_from(1, 50));
    assert_eq!(*v.sector[1].time(), BurnTime::Infinity);
    assert_eq!(*v.sector[0].time(), BurnTime::Time(50));
    assert_eq!(*v.prime_sector(), Some(2));
}

#[test]
fn ignite_burns_prime_and_exposed_sectors() {
    let mut v = theta_node();
    v.compute_sectors();
    v.sectors()[0].set_time(5);
    v.sectors()[1].set_time(9);
    v.set_prime_sector(0);
    v.set_time(5);
    v.ignite(5);
    assert!(v.sector[0].is_burned());
    assert!(!v.sector[1].is_burned());
    assert!(!v.sector[2].is_burned());
    assert_eq!(v.choose_sector(&v.get_unburned_sectors()), 1);
    v.set_prime_sector(1);
    v.set_time(9);
    v.ignite(9);
    // the prime sector keeps its time, the exposed one gets the time of the turn
    assert!(v.sector[1].is_burned());
    assert!(v.sector[2].is_burned());
    assert_eq!(*v.sector[1].time(), BurnTime::Time(9));
    assert_eq!(*v.sector[2].time(), BurnTime::Time(9));
    assert!(v.get_unburned_sectors().is_empty());
}

#[test]
fn burn_exposed_stamps_the_time() {
    let mut v = star_node();
    v.compute_sectors();
    v.burn_exposed(17);
    for s in 0..3 {
        assert!(v.sector[s].is_burned());
        assert_eq!(*v.sector[s].time(), BurnTime::Time(17));
    }
}

#[test]
fn choose_sector_takes_the_first_of_the_earliest() {
    let mut v = star_node();
    v.compute_sectors();
    assert_eq!(v.choose_sector(&vec![0, 1, 2]), 0);
    v.sectors()[1].set_time(4);
    v.sectors()[2].set_time(4);
    assert_eq!(v.choose_sector(&vec![0, 1, 2]), 1);
    assert_eq!(v.choose_sector(&vec![2, 1]), 2);
    v.sectors()[0].set_time(3);
    assert_eq!(v.choose_sector(&vec![1, 2, 0]), 0);
}
