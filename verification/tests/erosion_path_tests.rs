use erosion_thickness::error::EtError;
use erosion_thickness::geometry::Point3;
use erosion_thickness::skeleton::erosion_path::ErosionPath;
use erosion_thickness::skeleton::properties::{Property, PropertyType};

#[test]
fn new_path_knows_its_properties() {
    let p = ErosionPath::new();
    assert!(p.vertex_properties.is_empty());
    assert!(p.edge_properties.is_empty());
    for name in ["x", "y", "z", "burntime"] {
        assert_eq!(p.vertex_property_types.get(name), Some(&PropertyType::Scalar));
    }
    for name in ["vertex1", "vertex2"] {
        assert_eq!(p.edge_property_types.get(name), Some(&PropertyType::Index));
    }
    assert_eq!(p.vertex_property_types.get("vertex1"), None);
    assert_eq!(p.vertex_property_types.get("red"), None);
}

#[test]
fn path_vertices_and_edges() {
    let mut p = ErosionPath::new();
    assert_eq!(p.add_vertex(Point3 { x: 1, y: -2, z: 3 }, 40), 0);
    assert_eq!(p.add_vertex(Point3 { x: 4, y: 5, z: 6 }, 50), 1);
    assert_eq!(p.vertex_properties[0].get("x"), Some(&Property::Scalar(1)));
    assert_eq!(p.vertex_properties[0].get("y"), Some(&Property::Scalar(-2)));
    assert_eq!(p.vertex_properties[0].get("z"), Some(&Property::Scalar(3)));
    assert_eq!(p.vertex_properties[0].get("burntime"), Some(&Property::Scalar(40)));
    assert_eq!(p.vertex_properties[1].get("burntime"), Some(&Property::Scalar(50)));
    assert_eq!(p.add_edge([1, 0]), 0);
    assert_eq!(p.add_edge([0, 1]), 1);
    assert_eq!(p.edge_properties[0].get("vertex1"), Some(&Property::Index(1)));
    assert_eq!(p.edge_properties[0].get("vertex2"), Some(&Property::Index(0)));
    assert_eq!(p.edge_properties[1].get("vertex1"), Some(&Property::Index(0)));
}

#[test]
fn path_colour_shows_the_burn_time() {
    let mut p = ErosionPath::new();
    p.add_vertex(Point3 { x: 0, y: 0, z: 0 }, 100);
    p.add_vertex(Point3 { x: 0, y: 0, z: 0 }, 200);
    p.add_vertex(Point3 { x: 0, y: 0, z: 0 }, 300);
    assert_eq!(p.set_vertex_color_from_property_f32("burntime"), Ok(()));
    assert_eq!(p.vertex_properties[0].get("red"), Some(&Property::UChar(0)));
    assert_eq!(p.vertex_properties[0].get("blue"), Some(&Property::UChar(255)));
    assert_eq!(p.vertex_properties[1].get("red"), Some(&Property::UChar(128)));
    assert_eq!(p.vertex_properties[1].get("green"), Some(&Property::UChar(0)));
    assert_eq!(p.vertex_properties[1].get("blue"), Some(&Property::UChar(128)));
    assert_eq!(p.vertex_properties[2].get("red"), Some(&Property::UChar(255)));
    assert_eq!(p.vertex_properties[2].get("blue"), Some(&Property::UChar(0)));
    assert_eq!(p.vertex_property_types.get("red"), Some(&PropertyType::UChar));
    assert_eq!(p.vertex_properties[2].get("burntime"), Some(&Property::Scalar(300)));
}

#[test]
fn path_colour_errors() {
    let mut p = ErosionPath::new();
    p.add_vertex(Point3 { x: 0, y: 0, z: 0 }, 100);
    assert_eq!(p.set_vertex_color_from_property_f32("depth"), Err(EtError::InputMissing));
    assert_eq!(p.set_vertex_color_from_property_f32("x"), Ok(()));
    assert_eq!(p.set_vertex_color_from_property_f32("blue"), Err(EtError::InputMalformed));
}
