use erosion_thickness::et_algorithm::burntime::BurnTime;
use erosion_thickness::et_algorithm::graph::ETGraph;
use erosion_thickness::et_algorithm::vertex::{ErosionThickness, Vertex};
use erosion_thickness::geometry::{norm, Point3};
use erosion_thickness::skeleton::skeleton::Skeleton;

/// A sheet of `n` by `n` squares, each cut into two triangles; the vertices
/// on the rim of the sheet have the radius 20.
fn sheet(n: usize, side: i32) -> Skeleton {
    let mut skel = Skeleton::new();
    for row in 0..=n {
        for col in 0..=n {
            let rim = row == 0 || col == 0 || row == n || col == n;
            let radius = if rim { 20 } else { -1 };
            // a slight wave keeps the distances from being all the same
            let z = ((row * 7 + col * 3) % 5) as i32;
            skel.add_vertex(
                Point3 { x: col as i32 * side, y: row as i32 * side, z },
                radius,
            );
        }
    }
    let at = |row: usize, col: usize| row * (n + 1) + col;
    for row in 0..n {
        for col in 0..n {
            assert!(skel
                .add_face(vec![at(row, col), at(row, col + 1), at(row + 1, col + 1)])
                .is_ok());
            assert!(skel
                .add_face(vec![at(row, col), at(row + 1, col + 1), at(row + 1, col)])
                .is_ok());
        }
    }
    skel
}

fn time_of(v: &Vertex) -> Option<u128> {
    match *v.time() {
        BurnTime::Time(t) => Some(t),
        BurnTime::Infinity => None,
    }
}

fn check_burned(g: &ETGraph) {
    let n = g.vert.len();
    for (i, v) in g.vert.iter().enumerate() {
        // a node is burned exactly if it has a time
        assert_eq!(v.is_burned(), time_of(v).is_some());
        // links are symmetric
        for a in 0..v.neigh_adj.len() {
            for &b in v.neigh_adj[a].iter() {
                assert!(v.neigh_adj[b].contains(&a));
            }
        }
        match v.prime_neighbor() {
            Some(w) => {
                // the time of a node is the time of the node before and the distance
                let tw = time_of(&g.vert[w]).unwrap();
                let tv = time_of(v).unwrap();
                assert_eq!(tv, tw + norm(g.vert[w].pos(), v.pos()) as u128);
            }
            None => {
                if time_of(v).is_some() {
                    assert!(v.rad() >= 0);
                    assert_eq!(time_of(v), Some(v.rad() as u128));
                }
            }
        }
        // the way back ends after fewer steps than there are nodes
        let mut at = i;
        let mut steps = 0;
        while let Some(w) = g.vert[at].prime_neighbor() {
            at = w;
            steps += 1;
            assert!(steps < n);
        }
        if time_of(v).is_some() {
            assert!(g.vert[at].rad() >= 0);
        }
        // no erosion thickness is below zero
        if let ErosionThickness::ET(et) = v.erosion_thickness() {
            assert!(et >= 0);
        }
        // the fire of a burned node has reached the sectors of its neighbours
        if v.is_burned() {
            for &u in v.neigh().iter() {
                let node = &g.vert[u];
                if node.rad() < 0 {
                    let k = node.get_num_neigh(i).unwrap();
                    for s in node.attached_sectors(k) {
                        assert!(matches!(*node.sector[s].time(), BurnTime::Time(_)));
                    }
                }
            }
        }
    }
}

#[test]
fn sheet_burns_from_the_rim() {
    let skel = sheet(4, 100);
    let mut g = ETGraph::new(&skel, 10_000, 1);
    assert_eq!(g.vert.len(), 25);
    assert!(g.check_neighbors());
    g.burn();
    check_burned(&g);
    for v in g.vert.iter() {
        assert!(v.is_burned());
    }
    // the middle of the sheet burns last
    let latest = g.latest_time();
    assert_eq!(time_of(&g.vert[12]), Some(latest));
    assert!(latest >= 20 + 200);
}

#[test]
fn cut_sheet_burns_from_the_rim() {
    let skel = sheet(3, 100);
    let mut g = ETGraph::new(&skel, 40, 3);
    // 16 vertices; 24 short edges cut in 2 and 9 long edges cut in 3
    assert_eq!(g.vert.len(), 16 + 24 + 9 * 2);
    assert!(g.check_neighbors());
    for v in g.vert.iter() {
        assert!(v.check_usable());
    }
    g.burn();
    check_burned(&g);
    let mut waiting = 0;
    for v in g.vert.iter() {
        if !v.is_burned() {
            // only a node with a radius whose sectors are shielded is left:
            // its fire has died, and no other fire is let in
            assert!(v.rad() >= 0);
            assert_eq!(*v.time(), BurnTime::Infinity);
            assert!(v.sector.iter().any(|s| !s.is_exposed() && !s.is_burned()));
            waiting += 1;
        }
    }
    // the two points on each of the two edges that cross the sheet from rim to rim
    assert_eq!(waiting, 4);
}

#[test]
fn kink_sheets_burn() {
    // three sheets of two triangles each that share the edge 0 - 1
    let mut skel = Skeleton::new();
    skel.add_vertex(Point3 { x: 0, y: 0, z: 0 }, -1);
    skel.add_vertex(Point3 { x: 0, y: 0, z: 1000 }, -1);
    let wings = [(1000, 0), (-500, 866), (-500, -866)];
    for (x, y) in wings.iter() {
        skel.add_vertex(Point3 { x: *x, y: *y, z: 0 }, 5);
        skel.add_vertex(Point3 { x: *x, y: *y, z: 1000 }, 5);
    }
    for k in 0..3 {
        assert!(skel.add_face(vec![0, 1, 3 + 2 * k]).is_ok());
        assert!(skel.add_face(vec![0, 3 + 2 * k, 2 + 2 * k]).is_ok());
    }
    let mut g = ETGraph::new(&skel, 260, 4);
    assert!(g.check_neighbors());
    assert!(!g.vert[0].is_boundary());
    g.burn();
    check_burned(&g);
    assert!(g.vert[0].is_burned());
    assert!(g.vert[1].is_burned());
}
