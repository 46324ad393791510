use erosion_thickness::error::EtError;
use erosion_thickness::geometry::Point3;
use erosion_thickness::skeleton::properties::{color_channel, NameMap, Property, PropertyType};
use erosion_thickness::skeleton::skeleton::Skeleton;

fn pt(x: i32, y: i32, z: i32) -> Point3 {
    Point3 { x, y, z }
}

fn square() -> Skeleton {
    let mut skel = Skeleton::new();
    skel.add_vertex(pt(0, 0, 0), 5);
    skel.add_vertex(pt(10, 0, 0), -1);
    skel.add_vertex(pt(10, 10, 0), 7);
    skel.add_vertex(pt(0, 10, 0), -1);
    skel
}

#[test]
fn new_skeleton_is_empty() {
    let skel = Skeleton::new();
    assert!(skel.get_vertices().is_empty());
    assert!(skel.get_radii().is_empty());
    assert!(skel.get_edges().is_empty());
    assert!(skel.get_faces().is_empty());
    assert_eq!(skel.get_edges_from_vertex(0), None);
    assert_eq!(skel.get_faces_from_edge(0), None);
}

#[test]
fn add_vertex_returns_the_index() {
    let mut skel = Skeleton::new();
    assert_eq!(skel.add_vertex(pt(1, 2, 3), 4), 0);
    assert_eq!(skel.add_vertex(pt(5, 6, 7), -1), 1);
    assert_eq!(*skel.get_vertices(), vec![pt(1, 2, 3), pt(5, 6, 7)]);
    assert_eq!(*skel.get_radii(), vec![4, -1]);
    assert_eq!(skel.vertex_property_types.get("x"), Some(&PropertyType::Scalar));
    assert_eq!(skel.vertex_property_types.get("radius"), Some(&PropertyType::Scalar));
    assert_eq!(skel.vertex_property_types.get("red"), None);
    assert_eq!(skel.vertex_properties.len(), 2);
    assert_eq!(skel.vertex_properties[0].get("x"), None);
}

#[test]
fn add_edge_stores_an_edge_once() {
    let mut skel = square();
    assert_eq!(skel.add_edge([0, 1]), 0);
    assert_eq!(skel.add_edge([1, 2]), 1);
    assert_eq!(skel.add_edge([1, 0]), 0);
    assert_eq!(skel.add_edge([0, 1]), 0);
    assert_eq!(skel.add_edge([2, 1]), 1);
    assert_eq!(*skel.get_edges(), vec![[0, 1], [1, 2]]);
    assert_eq!(skel.get_edges_from_vertex(1), Some(&vec![0, 1]));
    assert_eq!(skel.get_edges_from_vertex(0), Some(&vec![0]));
    assert_eq!(skel.get_edges_from_vertex(3), None);
}

#[test]
fn add_face_adds_the_missing_edges() {
    let mut skel = square();
    assert_eq!(skel.add_face(vec![0, 1, 2]), Ok(()));
    assert_eq!(*skel.get_edges(), vec![[0, 1], [1, 2], [2, 0]]);
    assert_eq!(*skel.get_faces(), vec![vec![0, 1, 2]]);
    assert_eq!(skel.add_face(vec![0, 2, 3]), Ok(()));
    assert_eq!(*skel.get_edges(), vec![[0, 1], [1, 2], [2, 0], [2, 3], [3, 0]]);
    assert_eq!(*skel.get_faces(), vec![vec![0, 1, 2], vec![2, 3, 4]]);
    assert_eq!(skel.face_vertices, vec![vec![0, 1, 2], vec![0, 2, 3]]);
    assert_eq!(skel.get_faces_from_edge(2), Some(&vec![0, 1]));
    assert_eq!(skel.get_faces_from_edge(0), Some(&vec![0]));
    assert_eq!(skel.get_faces_from_edge(4), Some(&vec![1]));
    assert_eq!(skel.get_faces_from_edge(5), None);
    assert_eq!(skel.get_edges_from_vertex(2), Some(&vec![1, 2, 3]));
}

#[test]
fn add_face_turns_down_what_is_no_triangle() {
    let mut skel = square();
    assert_eq!(skel.add_face(vec![0, 1]), Err(EtError::InputMalformed));
    assert_eq!(skel.add_face(vec![0, 1, 2, 3]), Err(EtError::InputMalformed));
    assert_eq!(skel.add_face(vec![]), Err(EtError::InputMalformed));
    assert_eq!(skel.add_face(vec![0, 1, 4]), Err(EtError::InputMalformed));
    assert_eq!(skel.add_face(vec![0, 1, 1]), Err(EtError::InputMalformed));
    assert_eq!(skel.add_face(vec![2, 1, 2]), Err(EtError::InputMalformed));
    assert!(skel.get_edges().is_empty());
    assert!(skel.get_faces().is_empty());
}

#[test]
fn set_property_wants_one_value_for_each_vertex() {
    let mut skel = square();
    assert_eq!(skel.set_property_f32("depth", &vec![1, 2, 3]), Err(EtError::InputMalformed));
    assert_eq!(skel.vertex_property_types.get("depth"), None);
    assert_eq!(skel.set_property_f32("depth", &vec![1, 2, 3, -4]), Ok(()));
    assert_eq!(skel.vertex_property_types.get("depth"), Some(&PropertyType::Scalar));
    assert_eq!(skel.vertex_properties[3].get("depth"), Some(&Property::Scalar(-4)));
    assert_eq!(skel.set_property_f32("depth", &vec![5, 6, 7, 8]), Ok(()));
    assert_eq!(skel.vertex_properties[3].get("depth"), Some(&Property::Scalar(8)));
    assert_eq!(skel.vertex_properties[3].names.len(), 1);
}

#[test]
fn colour_of_a_property_that_is_missing() {
    let mut skel = square();
    assert_eq!(
        skel.set_vertex_color_from_property_f32("depth"),
        Err(EtError::InputMissing)
    );
    assert_eq!(skel.vertex_property_types.get("red"), None);
}

#[test]
fn colour_of_a_property_that_is_no_scalar() {
    let mut skel = square();
    assert_eq!(skel.set_property_f32("depth", &vec![0, 10, 20, 40]), Ok(()));
    assert_eq!(skel.set_vertex_color_from_property_f32("depth"), Ok(()));
    assert_eq!(
        skel.set_vertex_color_from_property_f32("red"),
        Err(EtError::InputMalformed)
    );
}

#[test]
fn colour_runs_from_blue_to_red() {
    let mut skel = square();
    assert_eq!(skel.set_property_f32("depth", &vec![0, 10, 20, 40]), Ok(()));
    assert_eq!(skel.set_vertex_color_from_property_f32("depth"), Ok(()));
    let expected = [(0u8, 255u8), (64, 191), (128, 128), (255, 0)];
    for i in 0..4 {
        assert_eq!(skel.vertex_properties[i].get("red"), Some(&Property::UChar(expected[i].0)));
        assert_eq!(skel.vertex_properties[i].get("green"), Some(&Property::UChar(0)));
        assert_eq!(skel.vertex_properties[i].get("blue"), Some(&Property::UChar(expected[i].1)));
    }
    assert_eq!(skel.vertex_property_types.get("red"), Some(&PropertyType::UChar));
    assert_eq!(skel.vertex_property_types.get("green"), Some(&PropertyType::UChar));
    assert_eq!(skel.vertex_property_types.get("blue"), Some(&PropertyType::UChar));
    assert_eq!(skel.vertex_properties[1].get("depth"), Some(&Property::Scalar(10)));
}

#[test]
fn colour_of_equal_values_is_black() {
    let mut skel = square();
    assert_eq!(skel.set_property_f32("depth", &vec![3, 3, 3, 3]), Ok(()));
    assert_eq!(skel.set_vertex_color_from_property_f32("depth"), Ok(()));
    for i in 0..4 {
        assert_eq!(skel.vertex_properties[i].get("red"), Some(&Property::UChar(0)));
        assert_eq!(skel.vertex_properties[i].get("green"), Some(&Property::UChar(0)));
        assert_eq!(skel.vertex_properties[i].get("blue"), Some(&Property::UChar(0)));
    }
}

#[test]
fn color_channel_rounds_to_the_nearest() {
    assert_eq!(color_channel(0, 40), 0);
    assert_eq!(color_channel(10, 40), 64);
    assert_eq!(color_channel(20, 40), 128);
    assert_eq!(color_channel(30, 40), 191);
    assert_eq!(color_channel(40, 40), 255);
    assert_eq!(color_channel(1, 3), 85);
    assert_eq!(color_channel(1, 1000), 0);
    assert_eq!(color_channel(2, 1000), 1);
    assert_eq!(color_channel(0, 0), 0);
}

#[test]
fn name_map_holds_a_name_once() {
    let mut m: NameMap<u32> = NameMap::new();
    assert_eq!(m.get("a"), None);
    assert!(!m.contains_key("a"));
    assert_eq!(m.find("a"), None);
    m.insert("a", 1);
    m.insert("b", 2);
    assert_eq!(m.get("a"), Some(&1));
    assert_eq!(m.get("b"), Some(&2));
    assert_eq!(m.find("b"), Some(1));
    m.insert("a", 3);
    assert_eq!(m.get("a"), Some(&3));
    assert_eq!(m.get("b"), Some(&2));
    assert_eq!(m.names.len(), 2);
    assert!(m.contains_key("b"));
    assert!(!m.contains_key("c"));
}
