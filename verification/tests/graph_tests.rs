use erosion_thickness::et_algorithm::algorithm::erosion_thickness_computation;
use erosion_thickness::et_algorithm::burntime::BurnTime;
use erosion_thickness::et_algorithm::graph::ETGraph;
use erosion_thickness::geometry::Point3;
use erosion_thickness::skeleton::properties::Property;
use erosion_thickness::skeleton::skeleton::Skeleton;

fn pt(x: i32, y: i32, z: i32) -> Point3 {
    Point3 { x, y, z }
}

#[test]
fn subdivided_edge() {
    let mut skel = Skeleton::new();
    skel.add_vertex(pt(0, 0, 0), 100);
    skel.add_vertex(pt(1000, 0, 0), 200);
    assert_eq!(skel.add_edge([0, 1]), 0);
    let g = ETGraph::new(&skel, 250, 4);
    assert_eq!(g.vert.len(), 5);
    assert_eq!(g.vert[2].pos(), pt(250, 0, 0));
    assert_eq!(g.vert[3].pos(), pt(500, 0, 0));
    assert_eq!(g.vert[4].pos(), pt(750, 0, 0));
    assert_eq!(g.vert[2].rad(), 125);
    assert_eq!(g.vert[3].rad(), 150);
    assert_eq!(g.vert[4].rad(), 175);
}

#[test]
fn subdivided_edge_with_unknown_radius() {
    let mut skel = Skeleton::new();
    skel.add_vertex(pt(0, 0, 0), 100);
    skel.add_vertex(pt(1000, 0, 0), -1);
    skel.add_edge([0, 1]);
    let g = ETGraph::new(&skel, 250, 2);
    assert_eq!(g.vert.len(), 3);
    assert_eq!(g.vert[2].pos(), pt(500, 0, 0));
    assert_eq!(g.vert[2].rad(), -1);
}

#[test]
fn subdivided_triangle_hangs_together() {
    let mut skel = Skeleton::new();
    skel.add_vertex(pt(0, 0, 0), 0);
    skel.add_vertex(pt(900, 0, 0), 0);
    skel.add_vertex(pt(0, 900, 0), 0);
    assert!(skel.add_face(vec![0, 1, 2]).is_ok());
    let mut g = ETGraph::new(&skel, 300, 3);
    // 3 corners, 2 points on each of the two short sides, 2 on the long one
    assert_eq!(g.vert.len(), 9);
    assert!(g.check_neighbors());
    for v in g.vert.iter() {
        // the link of every node of a single triangle is a path
        assert!(v.is_boundary());
        assert_eq!(v.sector.len(), 1);
    }
    g.burn();
    for v in g.vert.iter() {
        assert!(v.is_burned());
        assert_eq!(*v.time(), BurnTime::Time(0));
    }
}

#[test]
fn rhombus_interior_times() {
    let mut skel = Skeleton::new();
    skel.add_vertex(pt(0, 0, 0), 0);
    skel.add_vertex(pt(300, 400, 0), -1);
    skel.add_vertex(pt(300, -400, 0), -1);
    skel.add_vertex(pt(1200, 0, 0), 0);
    assert!(skel.add_face(vec![0, 1, 2]).is_ok());
    assert!(skel.add_face(vec![1, 3, 2]).is_ok());
    let mut g = ETGraph::new(&skel, 10_000, 1);
    assert!(g.check_neighbors());
    g.burn();
    assert_eq!(*g.vert[0].time(), BurnTime::Time(0));
    assert_eq!(*g.vert[3].time(), BurnTime::Time(0));
    // the nearest seed of both shared corners is vertex 0, at distance 500
    assert_eq!(*g.vert[1].time(), BurnTime::Time(500));
    assert_eq!(*g.vert[2].time(), BurnTime::Time(500));
    assert_eq!(g.vert[1].prime_neighbor(), Some(0));
    assert_eq!(g.vert[2].prime_neighbor(), Some(0));
}

#[test]
fn closed_fan_center_time() {
    let mut skel = Skeleton::new();
    skel.add_vertex(pt(0, 0, 0), -1);
    let ring = [(1000, 0), (500, 866), (-500, 866), (-1000, 0), (-500, -866), (500, -866)];
    for (x, y) in ring.iter() {
        skel.add_vertex(pt(*x, *y, 0), 100);
    }
    for k in 0..6 {
        assert!(skel.add_face(vec![0, 1 + k, 1 + (k + 1) % 6]).is_ok());
    }
    let mut g = ETGraph::new(&skel, 10_000, 1);
    assert!(g.check_neighbors());
    assert!(!g.vert[0].is_boundary());
    assert_eq!(g.vert[0].sector.len(), 1);
    assert!(!g.vert[0].sector[0].is_exposed());
    g.burn();
    for k in 1..7 {
        assert_eq!(*g.vert[k].time(), BurnTime::Time(100));
    }
    // the nearest ring vertex is 999 units away
    assert_eq!(*g.vert[0].time(), BurnTime::Time(1099));
    assert!(g.vert[0].is_burned());
}

#[test]
fn kink_terminates_with_monotone_times() {
    // three sheets that meet along the edge between vertices 0 and 1
    let mut skel = Skeleton::new();
    skel.add_vertex(pt(0, 0, 0), -1);
    skel.add_vertex(pt(0, 0, 1000), -1);
    skel.add_vertex(pt(1000, 0, 500), 10);
    skel.add_vertex(pt(-500, 866, 500), 20);
    skel.add_vertex(pt(-500, -866, 500), 30);
    assert!(skel.add_face(vec![0, 1, 2]).is_ok());
    assert!(skel.add_face(vec![0, 1, 3]).is_ok());
    assert!(skel.add_face(vec![0, 1, 4]).is_ok());
    let mut g = ETGraph::new(&skel, 10_000, 1);
    assert!(g.check_neighbors());
    assert_eq!(g.vert[0].sector.len(), 3);
    assert!(!g.vert[0].is_boundary());
    g.burn();
    for (i, v) in g.vert.iter().enumerate() {
        match (*v.time(), v.prime_neighbor()) {
            (BurnTime::Time(t), Some(w)) => match *g.vert[w].time() {
                BurnTime::Time(tw) => assert!(tw <= t),
                BurnTime::Infinity => panic!("node {} came from a node without a time", i),
            },
            (BurnTime::Time(t), None) => assert_eq!(t as i128, v.rad() as i128),
            (BurnTime::Infinity, p) => assert_eq!(p, None),
        }
    }
    assert_eq!(*g.vert[2].time(), BurnTime::Time(10));
    assert_eq!(*g.vert[0].time(), BurnTime::Time(10 + 1118));
}

#[test]
fn computation_enters_thickness_and_path() {
    let mut skel = Skeleton::new();
    skel.add_vertex(pt(0, 0, 0), 100);
    skel.add_vertex(pt(1000, 0, 0), -1);
    skel.add_vertex(pt(500, 866, 0), -1);
    assert!(skel.add_face(vec![0, 1, 2]).is_ok());
    let path = match erosion_thickness_computation(&mut skel, 10_000, 1) {
        Ok(p) => p,
        Err(e) => panic!("{:?}", e),
    };
    assert_eq!(path.vertex_properties.len(), 3);
    assert_eq!(path.edge_properties.len(), 2);
    assert_eq!(path.vertex_properties[1].get("burntime"), Some(&Property::Scalar(1100)));
    assert_eq!(path.vertex_properties[0].get("red"), Some(&Property::UChar(0)));
    assert_eq!(path.vertex_properties[0].get("blue"), Some(&Property::UChar(255)));
    assert_eq!(path.vertex_properties[1].get("red"), Some(&Property::UChar(255)));
    assert_eq!(path.vertex_properties[1].get("green"), Some(&Property::UChar(0)));
    assert_eq!(path.vertex_properties[1].get("blue"), Some(&Property::UChar(0)));
    assert_eq!(path.edge_properties[0].get("vertex1"), Some(&Property::Index(1)));
    assert_eq!(path.edge_properties[0].get("vertex2"), Some(&Property::Index(0)));
    // erosion thickness: 0 at the seed, time + 1 at the corners without radius
    assert_eq!(skel.vertex_properties[0].get("erosion_thickness"), Some(&Property::Scalar(0)));
    assert_eq!(skel.vertex_properties[1].get("erosion_thickness"), Some(&Property::Scalar(1101)));
    assert_eq!(skel.vertex_properties[2].get("erosion_thickness"), Some(&Property::Scalar(1100)));
    assert_eq!(skel.vertex_properties[1].get("red"), Some(&Property::UChar(255)));
}
