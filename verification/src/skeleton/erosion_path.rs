//! The erosion path: every node of the burn graph with its burn time, and
//! an edge from each node to the node from which the fire reached it.

use vstd::prelude::*;
use crate::error::EtError;
use crate::geometry::Point3;
use super::properties::{
    NameMap, Property, PropertyType, color_vertices, colored, column_ready, is_column_max,
    is_column_min, scalar_at,
};

verus! {

/// An erosion path. A vertex holds the scalars `x`, `y`, `z` and
/// `burntime`; an edge holds the indices `vertex1` and `vertex2`.
pub struct ErosionPath {
    pub vertex_property_types: NameMap<PropertyType>,
    pub edge_property_types: NameMap<PropertyType>,
    pub vertex_properties: Vec<NameMap<Property>>,
    pub edge_properties: Vec<NameMap<Property>>,
}

/// The four names of a vertex differ.
pub proof fn lemma_vertex_names()
    ensures
        "x"@ != "y"@,
        "x"@ != "z"@,
        "y"@ != "z"@,
        "x"@ != "burntime"@,
        "y"@ != "burntime"@,
        "z"@ != "burntime"@,
        "vertex1"@ != "vertex2"@,
{
    reveal_strlit("x");
    reveal_strlit("y");
    reveal_strlit("z");
    reveal_strlit("burntime");
    reveal_strlit("vertex1");
    reveal_strlit("vertex2");
    assert("x"@[0] == 'x');
    assert("y"@[0] == 'y');
    assert("z"@[0] == 'z');
    assert("x"@.len() == 1 && "y"@.len() == 1 && "z"@.len() == 1);
    assert("burntime"@.len() == 8);
    assert("vertex1"@[6] == '1');
    assert("vertex2"@[6] == '2');
}

/// The properties of a vertex at `position` with the burn time `burntime`.
pub open spec fn is_path_vertex(m: NameMap<Property>, position: Point3, burntime: i128) -> bool {
    &&& m.wf()
    &&& m.has("x"@) && m.value("x"@) == Property::Scalar(position.x as i128)
    &&& m.has("y"@) && m.value("y"@) == Property::Scalar(position.y as i128)
    &&& m.has("z"@) && m.value("z"@) == Property::Scalar(position.z as i128)
    &&& m.has("burntime"@) && m.value("burntime"@) == Property::Scalar(burntime)
    &&& forall|key: Seq<char>|
        m.has(key) ==> key == "x"@ || key == "y"@ || key == "z"@ || key == "burntime"@
}

/// The properties of an edge from vertex `a` to vertex `b`.
pub open spec fn is_path_edge(m: NameMap<Property>, a: usize, b: usize) -> bool {
    &&& m.wf()
    &&& m.has("vertex1"@) && m.value("vertex1"@) == Property::Index(a)
    &&& m.has("vertex2"@) && m.value("vertex2"@) == Property::Index(b)
    &&& forall|key: Seq<char>| m.has(key) ==> key == "vertex1"@ || key == "vertex2"@
}

impl ErosionPath {
    /// The kinds of the properties are sound, and so are the properties of
    /// every vertex and every edge.
    pub open spec fn wf(&self) -> bool {
        &&& self.vertex_property_types.wf()
        &&& self.edge_property_types.wf()
        &&& forall|i: int|
            0 <= i < self.vertex_properties@.len() ==> (#[trigger] self.vertex_properties@[i]).wf()
        &&& forall|i: int|
            0 <= i < self.edge_properties@.len() ==> (#[trigger] self.edge_properties@[i]).wf()
    }

    /// The kinds of the properties that every path has.
    pub open spec fn typed(&self) -> bool {
        &&& self.vertex_property_types.has("x"@) && self.vertex_property_types.value("x"@)
            == PropertyType::Scalar
        &&& self.vertex_property_types.has("y"@) && self.vertex_property_types.value("y"@)
            == PropertyType::Scalar
        &&& self.vertex_property_types.has("z"@) && self.vertex_property_types.value("z"@)
            == PropertyType::Scalar
        &&& self.vertex_property_types.has("burntime"@) && self.vertex_property_types.value(
            "burntime"@,
        ) == PropertyType::Scalar
        &&& self.edge_property_types.has("vertex1"@) && self.edge_property_types.value("vertex1"@)
            == PropertyType::Index
        &&& self.edge_property_types.has("vertex2"@) && self.edge_property_types.value("vertex2"@)
            == PropertyType::Index
    }

    /// The path without vertices and edges.
    pub fn new() -> (p: ErosionPath)
        ensures
            p.wf(),
            p.typed(),
            p.vertex_properties@.len() == 0,
            p.edge_properties@.len() == 0,
    {
        proof {
            lemma_vertex_names();
        }
        let mut vertex_property_types: NameMap<PropertyType> = NameMap::new();
        vertex_property_types.insert("x", PropertyType::Scalar);
        vertex_property_types.insert("y", PropertyType::Scalar);
        vertex_property_types.insert("z", PropertyType::Scalar);
        vertex_property_types.insert("burntime", PropertyType::Scalar);
        let mut edge_property_types: NameMap<PropertyType> = NameMap::new();
        edge_property_types.insert("vertex1", PropertyType::Index);
        edge_property_types.insert("vertex2", PropertyType::Index);
        ErosionPath {
            vertex_property_types,
            edge_property_types,
            vertex_properties: Vec::new(),
            edge_properties: Vec::new(),
        }
    }

    /// Adds a vertex and returns its index.
    pub fn add_vertex(&mut self, position: Point3, burntime: i128) -> (index: usize)
        requires
            old(self).wf(),
        ensures
            final(self).wf(),
            index == old(self).vertex_properties@.len(),
            final(self).vertex_properties@.len() == index + 1,
            is_path_vertex(final(self).vertex_properties@[index as int], position, burntime),
            forall|i: int|
                0 <= i < index ==> final(self).vertex_properties@[i]
                    == old(self).vertex_properties@[i],
            final(self).vertex_property_types == old(self).vertex_property_types,
            final(self).edge_property_types == old(self).edge_property_types,
            final(self).edge_properties == old(self).edge_properties,
    {
        proof {
            lemma_vertex_names();
        }
        let mut vertex_property: NameMap<Property> = NameMap::new();
        vertex_property.insert("x", Property::Scalar(position.x as i128));
        vertex_property.insert("y", Property::Scalar(position.y as i128));
        vertex_property.insert("z", Property::Scalar(position.z as i128));
        vertex_property.insert("burntime", Property::Scalar(burntime));
        self.vertex_properties.push(vertex_property);
        proof {
            assert forall|i: int| 0 <= i < self.vertex_properties@.len() implies (
            #[trigger] self.vertex_properties@[i]).wf() by {
                if i < old(self).vertex_properties@.len() {
                    assert(self.vertex_properties@[i] == old(self).vertex_properties@[i]);
                }
            }
        }
        self.vertex_properties.len() - 1
    }

    /// Adds an edge from the first vertex to the second and returns its
    /// index.
    pub fn add_edge(&mut self, vertex_indices: [usize; 2]) -> (index: usize)
        requires
            old(self).wf(),
        ensures
            final(self).wf(),
            index == old(self).edge_properties@.len(),
            final(self).edge_properties@.len() == index + 1,
            is_path_edge(
                final(self).edge_properties@[index as int],
                vertex_indices[0],
                vertex_indices[1],
            ),
            forall|i: int|
                0 <= i < index ==> final(self).edge_properties@[i] == old(self).edge_properties@[i],
            final(self).vertex_property_types == old(self).vertex_property_types,
            final(self).edge_property_types == old(self).edge_property_types,
            final(self).vertex_properties == old(self).vertex_properties,
    {
        proof {
            lemma_vertex_names();
        }
        let mut edge_property: NameMap<Property> = NameMap::new();
        edge_property.insert("vertex1", Property::Index(vertex_indices[0]));
        edge_property.insert("vertex2", Property::Index(vertex_indices[1]));
        self.edge_properties.push(edge_property);
        proof {
            assert forall|i: int| 0 <= i < self.edge_properties@.len() implies (
            #[trigger] self.edge_properties@[i]).wf() by {
                if i < old(self).edge_properties@.len() {
                    assert(self.edge_properties@[i] == old(self).edge_properties@[i]);
                }
            }
        }
        self.edge_properties.len() - 1
    }

    /// Gives every vertex the colour that shows its scalar property
    /// `prop_name`: from blue for the least value to red for the greatest, and
    /// black where all values are the same.
    ///
    /// Fails with `InputMissing` where no property has the name, and with
    /// `InputMalformed` where the property is no scalar.
    pub fn set_vertex_color_from_property_f32(&mut self, prop_name: &str) -> (r: Result<
        (),
        EtError,
    >)
        requires
            old(self).wf(),
            old(self).vertex_property_types.has(prop_name@)
                && old(self).vertex_property_types.value(prop_name@) == PropertyType::Scalar
                ==> old(self).vertex_properties@.len() > 0 && column_ready(
                old(self).vertex_properties@,
                prop_name@,
            ),
        ensures
            final(self).wf(),
            final(self).edge_property_types == old(self).edge_property_types,
            final(self).edge_properties == old(self).edge_properties,
            final(self).vertex_properties@.len() == old(self).vertex_properties@.len(),
            match r {
                Ok(_) => {
                    &&& old(self).vertex_property_types.has(prop_name@)
                        && old(self).vertex_property_types.value(prop_name@) == PropertyType::Scalar
                    &&& final(self).vertex_property_types.has("red"@)
                        && final(self).vertex_property_types.value("red"@) == PropertyType::UChar
                    &&& final(self).vertex_property_types.has("green"@)
                        && final(self).vertex_property_types.value("green"@) == PropertyType::UChar
                    &&& final(self).vertex_property_types.has("blue"@)
                        && final(self).vertex_property_types.value("blue"@) == PropertyType::UChar
                    &&& forall|key: Seq<char>|
                        key != "red"@ && key != "green"@ && key != "blue"@
                            ==> final(self).vertex_property_types.has(key)
                            == old(self).vertex_property_types.has(
                            key,
                        ) && (old(self).vertex_property_types.has(key)
                            ==> final(self).vertex_property_types.value(key)
                            == old(self).vertex_property_types.value(key))
                    &&& exists|lo: int, hi: int|
                        is_column_min(
                            old(self).vertex_properties@,
                            prop_name@,
                            old(self).vertex_properties@.len() as int,
                            lo,
                        ) && is_column_max(
                            old(self).vertex_properties@,
                            prop_name@,
                            old(self).vertex_properties@.len() as int,
                            hi,
                        ) && forall|i: int|
                            0 <= i < old(self).vertex_properties@.len() ==> colored(
                                old(self).vertex_properties@[i],
                                #[trigger] final(self).vertex_properties@[i],
                                scalar_at(old(self).vertex_properties@, prop_name@, i),
                                lo,
                                hi,
                            )
                },
                Err(e) => {
                    &&& final(self).vertex_properties == old(self).vertex_properties
                    &&& final(self).vertex_property_types == old(self).vertex_property_types
                    &&& e == if old(self).vertex_property_types.has(prop_name@) {
                        EtError::InputMalformed
                    } else {
                        EtError::InputMissing
                    }
                    &&& !(old(self).vertex_property_types.has(prop_name@)
                        && old(self).vertex_property_types.value(prop_name@)
                        == PropertyType::Scalar)
                },
            },
    {
        let r = color_vertices(
            &mut self.vertex_property_types,
            &mut self.vertex_properties,
            prop_name,
        );
        proof {
            if r is Ok {
                let (lo, hi) = choose|lo: int, hi: int|
                    is_column_min(
                        old(self).vertex_properties@,
                        prop_name@,
                        old(self).vertex_properties@.len() as int,
                        lo,
                    ) && is_column_max(
                        old(self).vertex_properties@,
                        prop_name@,
                        old(self).vertex_properties@.len() as int,
                        hi,
                    ) && forall|i: int|
                        0 <= i < old(self).vertex_properties@.len() ==> colored(
                            old(self).vertex_properties@[i],
                            #[trigger] self.vertex_properties@[i],
                            scalar_at(old(self).vertex_properties@, prop_name@, i),
                            lo,
                            hi,
                        );
                assert forall|i: int| 0 <= i < self.vertex_properties@.len() implies (
                #[trigger] self.vertex_properties@[i]).wf() by {
                    assert(colored(
                        old(self).vertex_properties@[i],
                        self.vertex_properties@[i],
                        scalar_at(old(self).vertex_properties@, prop_name@, i),
                        lo,
                        hi,
                    ));
                }
            }
        }
        r
    }
}

} // verus!
