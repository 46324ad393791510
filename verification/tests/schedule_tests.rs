use erosion_thickness::error::EtError;
use erosion_thickness::et_algorithm::algorithm::{
    enter_thickness, erosion_thickness_computation, extract_min, seed, turn,
};
use erosion_thickness::et_algorithm::burntime::BurnTime;
use erosion_thickness::et_algorithm::graph::ETGraph;
use erosion_thickness::et_algorithm::vertex::Vertex;
use erosion_thickness::geometry::{norm, Point3};
use erosion_thickness::skeleton::properties::Property;
use erosion_thickness::skeleton::skeleton::Skeleton;

fn pt(x: i32, y: i32, z: i32) -> Point3 {
    Point3 { x, y, z }
}

/// A strip of four triangles over six vertices; the fire starts at the two
/// vertices on the left.
fn strip() -> Skeleton {
    let mut skel = Skeleton::new();
    skel.add_vertex(pt(0, 0, 0), 10);
    skel.add_vertex(pt(0, 400, 0), 30);
    skel.add_vertex(pt(300, 0, 0), -1);
    skel.add_vertex(pt(300, 400, 0), -1);
    skel.add_vertex(pt(600, 0, 0), -1);
    skel.add_vertex(pt(600, 400, 0), -1);
    for face in [[0, 2, 1], [1, 2, 3], [2, 4, 3], [3, 4, 5]] {
        assert!(skel.add_face(face.to_vec()).is_ok());
    }
    skel
}

fn times(verts: &Vec<Vertex>) -> Vec<BurnTime> {
    verts.iter().map(|v| *v.time()).collect()
}

#[test]
fn seed_queues_the_nodes_with_a_radius() {
    let skel = strip();
    let mut g = ETGraph::new(&skel, 10_000, 1);
    assert!(g.check_neighbors());
    let q = seed(&mut g.vert);
    assert_eq!(q, vec![true, true, false, false, false, false]);
    assert_eq!(
        times(&g.vert),
        vec![
            BurnTime::Time(10),
            BurnTime::Time(30),
            BurnTime::Infinity,
            BurnTime::Infinity,
            BurnTime::Infinity,
            BurnTime::Infinity
        ]
    );
}

#[test]
fn extract_min_takes_the_earliest_and_lowest() {
    let skel = strip();
    let mut g = ETGraph::new(&skel, 10_000, 1);
    let mut q = seed(&mut g.vert);
    assert_eq!(extract_min(&g.vert, &q), Some(0));
    q[0] = false;
    assert_eq!(extract_min(&g.vert, &q), Some(1));
    q[4] = true;
    q[5] = true;
    // among queued nodes without a time the lowest is taken last
    assert_eq!(extract_min(&g.vert, &q), Some(1));
    q[1] = false;
    assert_eq!(extract_min(&g.vert, &q), Some(4));
    q[4] = false;
    q[5] = false;
    assert_eq!(extract_min(&g.vert, &q), None);
    g.vert[1].set_time(10);
    q[0] = true;
    q[1] = true;
    assert_eq!(extract_min(&g.vert, &q), Some(0));
}

#[test]
fn times_only_fall_turn_by_turn() {
    let skel = strip();
    let mut g = ETGraph::new(&skel, 10_000, 1);
    assert!(g.check_neighbors());
    let mut q = seed(&mut g.vert);
    let mut turns = 0;
    while let Some(v) = extract_min(&g.vert, &q) {
        let before = times(&g.vert);
        let burned: Vec<bool> = g.vert.iter().map(|x| x.is_burned()).collect();
        turn(&mut g.vert, &mut q, v);
        let after = times(&g.vert);
        for j in 0..g.vert.len() {
            if j != v {
                assert!(after[j].inf_eq(&before[j]));
            }
            if burned[j] {
                assert!(g.vert[j].is_burned());
                assert_eq!(after[j], before[j]);
            }
        }
        assert!(!q[v] || !g.vert[v].is_burned());
        turns += 1;
        assert!(turns < 100);
    }
    let mut h = ETGraph::new(&skel, 10_000, 1);
    h.burn();
    assert_eq!(times(&g.vert), times(&h.vert));
}

#[test]
fn strip_times_and_way_of_the_fire() {
    let skel = strip();
    let mut g = ETGraph::new(&skel, 10_000, 1);
    assert!(g.check_neighbors());
    g.burn();
    assert_eq!(
        times(&g.vert),
        vec![
            BurnTime::Time(10),
            BurnTime::Time(30),
            BurnTime::Time(310),
            BurnTime::Time(330),
            BurnTime::Time(610),
            BurnTime::Time(630)
        ]
    );
    let pred: Vec<Option<usize>> = g.vert.iter().map(|v| v.prime_neighbor()).collect();
    assert_eq!(pred, vec![None, None, Some(0), Some(1), Some(2), Some(3)]);
    assert_eq!(g.prime_arc_list(), vec![[2, 0], [3, 1], [4, 2], [5, 3]]);
    // each node got its time from the node before it
    for (i, v) in g.vert.iter().enumerate() {
        if let Some(w) = pred[i] {
            let (tw, tv) = match (*g.vert[w].time(), *v.time()) {
                (BurnTime::Time(a), BurnTime::Time(b)) => (a, b),
                _ => panic!("a node on the way of the fire has no time"),
            };
            assert_eq!(tv, tw + norm(g.vert[w].pos(), v.pos()) as u128);
        }
    }
    assert_eq!(g.latest_time(), 630);
    assert_eq!(g.earliest_time(), 10);
    assert_eq!(g.thickness_values(6), vec![0, 0, 311, 331, 611, 631]);
    assert_eq!(g.thickness_values(2), vec![0, 0]);
    let colors = g.time_colors();
    assert_eq!(colors[0], [0, 0, 255]);
    assert_eq!(colors[5], [255, 0, 0]);
    assert_eq!(colors[2], [123, 0, 132]);
}

#[test]
fn a_node_whose_sectors_are_shielded_waits() {
    // a closed fan around vertex 0, which has a radius: its one sector is a
    // ring that nothing exposes, so the fire that starts there dies
    let mut skel = Skeleton::new();
    skel.add_vertex(pt(0, 0, 0), 5);
    for (x, y) in [(1000, 0), (0, 1000), (-1000, 0), (0, -1000)] {
        skel.add_vertex(pt(x, y, 0), -1);
    }
    for k in 0..4 {
        assert!(skel.add_face(vec![0, 1 + k, 1 + (k + 1) % 4]).is_ok());
    }
    let mut g = ETGraph::new(&skel, 10_000, 1);
    assert!(g.check_neighbors());
    g.burn();
    for v in g.vert.iter() {
        assert_eq!(*v.time(), BurnTime::Infinity);
        assert!(!v.is_burned());
        assert_eq!(v.prime_neighbor(), None);
    }
    assert_eq!(g.latest_time(), 0);
    assert_eq!(g.thickness_values(5), vec![0, 0, 0, 0, 0]);
    assert_eq!(g.time_colors(), vec![[0, 0, 0]; 5]);
}

#[test]
fn a_graph_that_does_not_hang_together_is_turned_down() {
    // a closed fan and one more triangle at the same vertex: in the link of
    // vertex 0 the ring of the fan lies beside the path of the triangle
    let mut skel = Skeleton::new();
    skel.add_vertex(pt(0, 0, 0), -1);
    for (x, y) in [(1000, 0), (0, 1000), (-1000, 0), (0, -1000)] {
        skel.add_vertex(pt(x, y, 0), 1);
    }
    skel.add_vertex(pt(0, 0, 1000), 1);
    skel.add_vertex(pt(500, 0, 1000), 1);
    for k in 0..4 {
        assert!(skel.add_face(vec![0, 1 + k, 1 + (k + 1) % 4]).is_ok());
    }
    assert!(skel.add_face(vec![0, 5, 6]).is_ok());
    let g = ETGraph::new(&skel, 10_000, 1);
    assert!(!g.check_neighbors());
    assert!(!g.vert[0].check_usable());
    assert!(g.vert[1].check_usable());
    assert!(matches!(
        erosion_thickness_computation(&mut skel, 10_000, 1),
        Err(EtError::InternalInvariant)
    ));
    assert_eq!(skel.vertex_property_types.get("erosion_thickness"), None);
    assert_eq!(skel.vertex_properties[0].get("erosion_thickness"), None);
}

#[test]
fn an_edge_without_length_stays_whole() {
    let mut skel = Skeleton::new();
    skel.add_vertex(pt(7, 7, 7), 1);
    skel.add_vertex(pt(7, 7, 7), 2);
    skel.add_vertex(pt(7, 7, 9), 2);
    skel.add_edge([0, 1]);
    skel.add_edge([1, 2]);
    let g = ETGraph::new(&skel, 0, 5);
    // the first edge has no length and gets no point; the second is cut in 5
    assert_eq!(g.vert.len(), 3 + 4);
    assert_eq!(g.vert[3].pos(), pt(7, 7, 7));
    assert_eq!(g.vert[6].pos(), pt(7, 7, 8));
}

#[test]
fn enter_thickness_writes_values_and_colours() {
    let mut skel = Skeleton::new();
    skel.add_vertex(pt(0, 0, 0), 1);
    skel.add_vertex(pt(1, 0, 0), 1);
    enter_thickness(&mut skel, &vec![0, 8]);
    assert_eq!(skel.vertex_properties[1].get("erosion_thickness"), Some(&Property::Scalar(8)));
    assert_eq!(skel.vertex_properties[0].get("blue"), Some(&Property::UChar(255)));
    assert_eq!(skel.vertex_properties[1].get("red"), Some(&Property::UChar(255)));
}

#[test]
fn subdivided_faces_give_every_node_its_ring() {
    let mut skel = Skeleton::new();
    skel.add_vertex(pt(0, 0, 0), 0);
    skel.add_vertex(pt(900, 0, 0), -1);
    skel.add_vertex(pt(0, 900, 0), -1);
    assert!(skel.add_face(vec![0, 1, 2]).is_ok());
    let g = ETGraph::new(&skel, 450, 2);
    // nodes 3, 4, 5 halve the edges 0-1, 1-2, 2-0
    assert_eq!(g.vert.len(), 6);
    assert_eq!(g.vert[3].pos(), pt(450, 0, 0));
    assert_eq!(g.vert[4].pos(), pt(450, 450, 0));
    assert_eq!(g.vert[5].pos(), pt(0, 450, 0));
    // the corner sees the two nodes beside it, across the point on the far side
    assert_eq!(*g.vert[0].neigh(), vec![3, 4, 5]);
    assert_eq!(g.vert[0].neigh_adj, vec![vec![1], vec![0, 2], vec![1]]);
    // the point on the first edge sees all other nodes, from corner to corner
    assert_eq!(*g.vert[3].neigh(), vec![1, 4, 2, 5, 0]);
    assert_eq!(*g.vert[3].sector[0].arc(), vec![0, 1, 2, 3, 4]);
    assert!(g.check_neighbors());
}
