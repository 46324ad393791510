use erosion_thickness::et_algorithm::burntime::BurnTime;
use erosion_thickness::et_algorithm::graph::ETGraph;
use erosion_thickness::geometry::Point3;
use erosion_thickness::skeleton::skeleton::Skeleton;

fn triangle(radii: [i32; 3]) -> Skeleton {
    let mut skel = Skeleton::new();
    skel.add_vertex(Point3 { x: 0, y: 0, z: 0 }, radii[0]);
    skel.add_vertex(Point3 { x: 1000, y: 0, z: 0 }, radii[1]);
    skel.add_vertex(Point3 { x: 500, y: 866, z: 0 }, radii[2]);
    assert!(skel.add_face(vec![0, 1, 2]).is_ok());
    skel
}

#[test]
fn single_triangle_all_seeds() {
    let skel = triangle([100, 100, 100]);
    let mut g = ETGraph::new(&skel, 10_000, 1);
    assert_eq!(g.vert.len(), 3);
    assert!(g.check_neighbors());
    g.burn();
    for v in g.vert.iter() {
        assert!(v.is_burned());
        assert_eq!(*v.time(), BurnTime::Time(100));
        assert_eq!(v.prime_neighbor(), None);
    }
}

#[test]
fn single_triangle_one_seed() {
    let skel = triangle([100, -1, -1]);
    let mut g = ETGraph::new(&skel, 10_000, 1);
    assert!(g.check_neighbors());
    g.burn();
    assert_eq!(*g.vert[0].time(), BurnTime::Time(100));
    assert_eq!(*g.vert[1].time(), BurnTime::Time(1100));
    assert_eq!(*g.vert[2].time(), BurnTime::Time(1099));
    assert_eq!(g.vert[0].prime_neighbor(), None);
    assert_eq!(g.vert[1].prime_neighbor(), Some(0));
    assert_eq!(g.vert[2].prime_neighbor(), Some(0));
}
