use erosion_thickness::et_algorithm::graph::ETGraph;
use erosion_thickness::geometry::Point3;
use erosion_thickness::skeleton::skeleton::Skeleton;

/// The unit skeleton: a square of two triangles with sides of 1000 units.
fn unit_skeleton() -> Skeleton {
    let mut skeleton = Skeleton::new();
    skeleton.add_vertex(Point3 { x: 0, y: 0, z: 0 }, 100);
    skeleton.add_vertex(Point3 { x: 1000, y: 0, z: 0 }, 100);
    skeleton.add_vertex(Point3 { x: 1000, y: 1000, z: 0 }, 100);
    skeleton.add_vertex(Point3 { x: 0, y: 1000, z: 0 }, 100);
    assert!(skeleton.add_face(vec![0, 1, 2]).is_ok());
    assert!(skeleton.add_face(vec![0, 2, 3]).is_ok());
    skeleton
}

/// The second unit skeleton: a fan of four triangles round a vertex.
fn unit_skeleton2() -> Skeleton {
    let mut skeleton = Skeleton::new();
    skeleton.add_vertex(Point3 { x: 0, y: 0, z: 0 }, -1);
    skeleton.add_vertex(Point3 { x: 1000, y: 0, z: 0 }, 100);
    skeleton.add_vertex(Point3 { x: 0, y: 1000, z: 0 }, 100);
    skeleton.add_vertex(Point3 { x: -1000, y: 0, z: 0 }, 100);
    skeleton.add_vertex(Point3 { x: 0, y: -1000, z: 0 }, 100);
    for k in 0..4 {
        assert!(skeleton.add_face(vec![0, 1 + k, 1 + (k + 1) % 4]).is_ok());
    }
    skeleton
}

/// The third unit skeleton: three triangles that share one edge.
fn unit_skeleton3() -> Skeleton {
    let mut skeleton = Skeleton::new();
    skeleton.add_vertex(Point3 { x: 0, y: 0, z: 0 }, -1);
    skeleton.add_vertex(Point3 { x: 0, y: 0, z: 1000 }, -1);
    skeleton.add_vertex(Point3 { x: 1000, y: 0, z: 500 }, 100);
    skeleton.add_vertex(Point3 { x: -500, y: 866, z: 500 }, 100);
    skeleton.add_vertex(Point3 { x: -500, y: -866, z: 500 }, 100);
    for k in 2..5 {
        assert!(skeleton.add_face(vec![0, 1, k]).is_ok());
    }
    skeleton
}

#[test]
fn test_1_a() {
    let dist_max = 100;
    let nb_subdiv_max = 1;
    let skeleton = unit_skeleton();

    let mut et_graph = ETGraph::new(&skeleton, dist_max, nb_subdiv_max);

    for v in 0..et_graph.get_vertices().len() {
        for s in 0..et_graph.get_vertices()[v].sectors().len() {
            let arc = et_graph.get_vertices()[v].sectors()[s].arc();
            assert!(!arc.is_empty());
        }
    }

    assert!(true);
}

#[test]
fn test_1_b() {
    let dist_max = 100;
    let nb_subdiv_max = 2;
    let skeleton = unit_skeleton();

    let mut et_graph = ETGraph::new(&skeleton, dist_max, nb_subdiv_max);

    for v in 0..et_graph.get_vertices().len() {
        for s in 0..et_graph.get_vertices()[v].sectors().len() {
            let arc = et_graph.get_vertices()[v].sectors()[s].arc();
            assert!(!arc.is_empty());
        }
    }

    assert!(true);
}

#[test]
fn test_2_a() {
    let dist_max = 500;
    let nb_subdiv_max = 1;
    let skeleton = unit_skeleton2();

    let et_graph = ETGraph::new(&skeleton, dist_max, nb_subdiv_max);
    assert_eq!(et_graph.vert.len(), 5);

    assert!(true);
}

#[test]
fn test_3_a() {
    let dist_max = 500;
    let nb_subdiv_max = 1;
    let skeleton = unit_skeleton3();

    let et_graph = ETGraph::new(&skeleton, dist_max, nb_subdiv_max);
    assert_eq!(et_graph.vert.len(), 5);

    assert!(true);
}

#[test]
fn test_3_b() {
    let dist_max = 500;
    let nb_subdiv_max = 3;
    let skeleton = unit_skeleton3();

    let et_graph = ETGraph::new(&skeleton, dist_max, nb_subdiv_max);
    assert!(et_graph.check_neighbors());
    assert!(true);
}
