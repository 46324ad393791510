//! A medial skeleton: vertices with radii, edges between them, and
//! triangular faces on the edges.

use vstd::prelude::*;
use std::collections::HashMap;
use crate::error::EtError;
use crate::geometry::Point3;
use crate::sequences::strictly_increasing;
use super::properties::{
    NameMap, Property, PropertyType, color_vertices, colored, column_ready, is_column_max,
    is_column_min, scalar_at,
};

verus! {

broadcast use {vstd::std_specs::hash::group_hash_axioms, vstd::array::group_array_axioms};

/// A skeleton. An edge is a pair of vertex indices, without direction, and
/// is stored once. A face is a triangle: `face_vertices` holds its three
/// corners, `face_edges` the three edges that join each corner to the next.
/// `vertex_to_edges` and `edge_to_faces` list the edges at a vertex and the
/// faces at an edge. Besides place and radius a vertex may hold properties by
/// name; `vertex_property_types` holds the kind of each name in use.
pub struct Skeleton {
    pub vertex_property_types: NameMap<PropertyType>,
    pub vertex_coords: Vec<Point3>,
    pub vertex_radius: Vec<i32>,
    pub vertex_properties: Vec<NameMap<Property>>,
    pub edges: Vec<[usize; 2]>,
    pub face_vertices: Vec<Vec<usize>>,
    pub face_edges: Vec<Vec<usize>>,
    pub vertex_to_edges: HashMap<usize, Vec<usize>>,
    pub edge_to_faces: HashMap<usize, Vec<usize>>,
}

/// Whether `e` joins the vertices `a` and `b`, in either direction.
pub open spec fn same_edge(e: [usize; 2], a: usize, b: usize) -> bool {
    (e[0] == a && e[1] == b) || (e[0] == b && e[1] == a)
}

/// The list that an index holds for `key`; empty where it holds none.
pub open spec fn listed(index: Map<usize, Vec<usize>>, key: usize) -> Seq<usize> {
    if index.contains_key(key) {
        index[key]@
    } else {
        Seq::empty()
    }
}

/// Appends `value` to the list that `index` holds for `key`.
fn append_to_index(index: &mut HashMap<usize, Vec<usize>>, key: usize, value: usize)
    ensures
        final(index)@.contains_key(key),
        listed(final(index)@, key) == listed(old(index)@, key).push(value),
        forall|k: usize| k != key ==> listed(final(index)@, k) == listed(old(index)@, k),
        forall|k: usize| k != key ==> final(index)@.contains_key(k) == old(index)@.contains_key(k),
        forall|k: usize, x: usize| #[trigger]
            listed(final(index)@, k).contains(x) <==> listed(old(index)@, k).contains(x) || (k
                == key && x == value),
{
    let ghost before = listed(index@, key);
    let mut list: Vec<usize> = match index.remove(&key) {
        Some(l) => l,
        None => Vec::new(),
    };
    list.push(value);
    index.insert(key, list);
    proof {
        let after = listed(index@, key);
        assert(after == before.push(value));
        assert forall|k: usize, x: usize| #[trigger]
            listed(index@, k).contains(x) <==> listed(old(index)@, k).contains(x) || (k == key && x
                == value) by {
            if k == key {
                if after.contains(x) {
                    let q = choose|q: int| 0 <= q < after.len() && after[q] == x;
                    if q < before.len() {
                        assert(before[q] == x);
                    }
                }
                if before.contains(x) {
                    let q = choose|q: int| 0 <= q < before.len() && before[q] == x;
                    assert(after[q] == x);
                }
                assert(after[before.len() as int] == value);
            } else {
                assert(listed(index@, k) == listed(old(index)@, k));
            }
        }
    }
}

/// A list in increasing order stays so when a value above all its values is
/// appended.
pub proof fn lemma_push_increasing(s: Seq<usize>, x: usize)
    requires
        strictly_increasing(s),
        forall|i: int| 0 <= i < s.len() ==> #[trigger] s[i] < x,
    ensures
        strictly_increasing(s.push(x)),
{
    let t = s.push(x);
    assert forall|i: int, j: int| 0 <= i < j < t.len() implies t[i] < t[j] by {
        if j < s.len() {
            assert(s[i] < s[j]);
        } else {
            assert(t[i] == s[i]);
        }
    }
}

impl Skeleton {
    /// Number of vertices.
    pub open spec fn vertex_count(&self) -> int {
        self.vertex_coords@.len() as int
    }

    /// Each vertex has a radius; each edge joins two different vertices that
    /// exist; no two edges join the same two vertices.
    pub open spec fn edges_wf(&self) -> bool {
        &&& self.vertex_radius@.len() == self.vertex_coords@.len()
        &&& forall|e: int|
            0 <= e < self.edges@.len() ==> (#[trigger] self.edges@[e])[0] < self.vertex_count()
                && self.edges@[e][1] < self.vertex_count() && self.edges@[e][0] != self.edges@[e][1]
        &&& forall|e1: int, e2: int|
            0 <= e1 < e2 < self.edges@.len() ==> !same_edge(
                #[trigger] self.edges@[e1],
                (#[trigger] self.edges@[e2])[0],
                self.edges@[e2][1],
            )
    }

    /// Face `f` is a triangle: three different vertices that exist, and for
    /// each corner the edge that joins it to the next one.
    pub open spec fn face_wf(&self, f: int) -> bool {
        let fv = self.face_vertices@[f]@;
        let fe = self.face_edges@[f]@;
        &&& fv.len() == 3
        &&& fe.len() == 3
        &&& fv[0] != fv[1] && fv[1] != fv[2] && fv[2] != fv[0]
        &&& fv[0] < self.vertex_count() && fv[1] < self.vertex_count() && fv[2]
            < self.vertex_count()
        &&& fe[0] < self.edges@.len() && fe[1] < self.edges@.len() && fe[2] < self.edges@.len()
        &&& same_edge(self.edges@[fe[0] as int], fv[0], fv[1])
        &&& same_edge(self.edges@[fe[1] as int], fv[1], fv[2])
        &&& same_edge(self.edges@[fe[2] as int], fv[2], fv[0])
    }

    /// Every face is a triangle on edges of the skeleton.
    pub open spec fn faces_wf(&self) -> bool {
        &&& self.face_edges@.len() == self.face_vertices@.len()
        &&& forall|f: int| 0 <= f < self.face_vertices@.len() ==> #[trigger] self.face_wf(f)
    }

    /// The index from vertices to edges lists, for each vertex, the edges
    /// that end there, and no others.
    pub open spec fn vertex_index_wf(&self) -> bool {
        forall|v: usize, e: usize| #[trigger]
            listed(self.vertex_to_edges@, v).contains(e) <==> e < self.edges@.len() && (
            self.edges@[e as int][0] == v || self.edges@[e as int][1] == v)
    }

    /// The index from edges to faces lists, for each edge, the faces on it,
    /// and no others.
    pub open spec fn edge_index_wf(&self) -> bool {
        forall|e: usize, f: usize| #[trigger]
            listed(self.edge_to_faces@, e).contains(f) <==> f < self.face_edges@.len()
                && self.face_edges@[f as int]@.contains(e)
    }

    /// The lists of both indexes are in increasing order.
    pub open spec fn indexes_sorted(&self) -> bool {
        &&& forall|v: usize| strictly_increasing(#[trigger] listed(self.vertex_to_edges@, v))
        &&& forall|e: usize| strictly_increasing(#[trigger] listed(self.edge_to_faces@, e))
    }

    /// Every vertex has its properties, and no name is held twice.
    pub open spec fn properties_wf(&self) -> bool {
        &&& self.vertex_property_types.wf()
        &&& self.vertex_properties@.len() == self.vertex_coords@.len()
        &&& forall|i: int|
            0 <= i < self.vertex_properties@.len() ==> (#[trigger] self.vertex_properties@[i]).wf()
    }

    /// The skeleton hangs together.
    pub open spec fn wf(&self) -> bool {
        &&& self.properties_wf()
        &&& self.edges_wf()
        &&& self.faces_wf()
        &&& self.vertex_index_wf()
        &&& self.edge_index_wf()
        &&& self.indexes_sorted()
    }

    /// The empty skeleton.
    pub fn new() -> (s: Skeleton)
        ensures
            s.wf(),
            s.vertex_coords@.len() == 0,
            s.edges@.len() == 0,
            s.face_edges@.len() == 0,
    {
        Skeleton {
            vertex_property_types: NameMap::new(),
            vertex_coords: Vec::new(),
            vertex_radius: Vec::new(),
            vertex_properties: Vec::new(),
            edges: Vec::new(),
            face_vertices: Vec::new(),
            face_edges: Vec::new(),
            vertex_to_edges: HashMap::new(),
            edge_to_faces: HashMap::new(),
        }
    }

    /// Adds a vertex and returns its index.
    pub fn add_vertex(&mut self, position: Point3, radius: i32) -> (index: usize)
        requires
            old(self).wf(),
        ensures
            final(self).wf(),
            index == old(self).vertex_coords@.len(),
            final(self).vertex_coords@ == old(self).vertex_coords@.push(position),
            final(self).vertex_radius@ == old(self).vertex_radius@.push(radius),
            final(self).vertex_properties@.len() == old(self).vertex_properties@.len() + 1,
            forall|key: Seq<char>| !final(self).vertex_properties@[index as int].has(key),
            forall|i: int|
                0 <= i < old(self).vertex_properties@.len() ==> final(self).vertex_properties@[i]
                    == old(self).vertex_properties@[i],
            final(self).vertex_property_types.has("x"@) && final(self).vertex_property_types.value(
                "x"@,
            ) == PropertyType::Scalar,
            final(self).vertex_property_types.has("y"@) && final(self).vertex_property_types.value(
                "y"@,
            ) == PropertyType::Scalar,
            final(self).vertex_property_types.has("z"@) && final(self).vertex_property_types.value(
                "z"@,
            ) == PropertyType::Scalar,
            final(self).vertex_property_types.has("radius"@)
                && final(self).vertex_property_types.value("radius"@) == PropertyType::Scalar,
            forall|key: Seq<char>|
                key != "x"@ && key != "y"@ && key != "z"@ && key != "radius"@
                    ==> final(self).vertex_property_types.has(key)
                    == old(self).vertex_property_types.has(key)
                        && (old(self).vertex_property_types.has(key)
                    ==> final(self).vertex_property_types.value(key)
                        == old(self).vertex_property_types.value(key)),
            final(self).edges == old(self).edges,
            final(self).face_vertices == old(self).face_vertices,
            final(self).face_edges == old(self).face_edges,
            final(self).vertex_to_edges == old(self).vertex_to_edges,
            final(self).edge_to_faces == old(self).edge_to_faces,
    {
        self.vertex_coords.push(position);
        self.vertex_radius.push(radius);
        self.vertex_properties.push(NameMap::new());
        self.vertex_property_types.insert("x", PropertyType::Scalar);
        self.vertex_property_types.insert("y", PropertyType::Scalar);
        self.vertex_property_types.insert("z", PropertyType::Scalar);
        self.vertex_property_types.insert("radius", PropertyType::Scalar);
        proof {
            reveal_strlit("x");
            reveal_strlit("y");
            reveal_strlit("z");
            reveal_strlit("radius");
            assert("x"@ != "y"@) by {
                assert("x"@[0] == 'x');
                assert("y"@[0] == 'y');
            }
            assert("x"@ != "z"@) by {
                assert("x"@[0] == 'x');
                assert("z"@[0] == 'z');
            }
            assert("y"@ != "z"@) by {
                assert("y"@[0] == 'y');
                assert("z"@[0] == 'z');
            }
            assert("radius"@.len() == 6);
            assert("x"@.len() == 1 && "y"@.len() == 1 && "z"@.len() == 1);
            assert(self.properties_wf()) by {
                assert forall|i: int| 0 <= i < self.vertex_properties@.len() implies (
                #[trigger] self.vertex_properties@[i]).wf() by {
                    if i < old(self).vertex_properties@.len() {
                        assert(self.vertex_properties@[i] == old(self).vertex_properties@[i]);
                    }
                }
            }
            assert(self.vertex_index_wf()) by {
                assert forall|v: usize, e: usize| #[trigger]
                    listed(self.vertex_to_edges@, v).contains(e) <==> e < self.edges@.len() && (
                    self.edges@[e as int][0] == v || self.edges@[e as int][1] == v) by {
                    assert(listed(old(self).vertex_to_edges@, v).contains(e)
                        <==> e < old(self).edges@.len() && (old(self).edges@[e as int][0] == v
                        || old(self).edges@[e as int][1] == v));
                }
            }
            assert(self.edge_index_wf()) by {
                assert forall|e: usize, f: usize| #[trigger]
                    listed(self.edge_to_faces@, e).contains(f) <==> f < self.face_edges@.len()
                        && self.face_edges@[f as int]@.contains(e) by {
                    assert(listed(old(self).edge_to_faces@, e).contains(f)
                        <==> f < old(self).face_edges@.len()
                        && old(self).face_edges@[f as int]@.contains(e));
                }
            assert(self.indexes_sorted()) by {
                assert forall|v: usize| strictly_increasing(
                    #[trigger] listed(self.vertex_to_edges@, v),
                ) by {
                    assert(strictly_increasing(listed(old(self).vertex_to_edges@, v)));
                }
                assert forall|e: usize| strictly_increasing(
                    #[trigger] listed(self.edge_to_faces@, e),
                ) by {
                    assert(strictly_increasing(listed(old(self).edge_to_faces@, e)));
                }
            }
            }
            assert forall|f: int| 0 <= f < self.face_vertices@.len()
                implies #[trigger] self.face_wf(
                f,
            ) by {
                assert(old(self).face_wf(f));
            }
        }
        self.vertex_coords.len() - 1
    }

    /// The edge that joins `a` and `b`, where the skeleton has one.
    pub open spec fn edge_between(&self, a: usize, b: usize) -> Option<usize> {
        if exists|e: int| 0 <= e < self.edges@.len() && same_edge(#[trigger] self.edges@[e], a, b) {
            Some(
                (choose|e: int|
                    0 <= e < self.edges@.len()
                        && same_edge(#[trigger] self.edges@[e], a, b)) as usize,
            )
        } else {
            None
        }
    }

    /// Gives the index of the edge that joins the two vertices. The edge is
    /// added where the skeleton does not have it yet, in whichever direction.
    pub fn add_edge(&mut self, vertex_indices: [usize; 2]) -> (edge_index: usize)
        requires
            old(self).wf(),
            vertex_indices[0] < old(self).vertex_count(),
            vertex_indices[1] < old(self).vertex_count(),
            vertex_indices[0] != vertex_indices[1],
        ensures
            final(self).wf(),
            edge_index < final(self).edges@.len(),
            same_edge(final(self).edges@[edge_index as int], vertex_indices[0], vertex_indices[1]),
            match old(self).edge_between(vertex_indices[0], vertex_indices[1]) {
                Some(e) => edge_index == e && final(self).edges == old(self).edges
                    && final(self).vertex_to_edges == old(self).vertex_to_edges,
                None => edge_index == old(self).edges@.len() && final(self).edges@
                    == old(self).edges@.push(vertex_indices),
            },
            final(self).vertex_coords == old(self).vertex_coords,
            final(self).vertex_radius == old(self).vertex_radius,
            final(self).vertex_properties == old(self).vertex_properties,
            final(self).vertex_property_types == old(self).vertex_property_types,
            final(self).face_vertices == old(self).face_vertices,
            final(self).face_edges == old(self).face_edges,
            final(self).edge_to_faces == old(self).edge_to_faces,
    {
        let a: usize = vertex_indices[0];
        let b: usize = vertex_indices[1];
        match self.vertex_to_edges.get(&a) {
            Some(edge_indices) => {
                let mut q: usize = 0;
                while q < edge_indices.len()
                    invariant
                        q <= edge_indices@.len(),
                        a == vertex_indices[0],
                        b == vertex_indices[1],
                        self.wf(),
                        *self == *old(self),
                        self.vertex_to_edges@.contains_key(a),
                        *edge_indices == self.vertex_to_edges@[a],
                        forall|q2: int|
                            0 <= q2 < q ==> !same_edge(
                                self.edges@[(#[trigger] edge_indices@[q2]) as int],
                                a,
                                b,
                            ),
                    decreases edge_indices@.len() - q,
                {
                    let edge_index: usize = edge_indices[q];
                    assert(listed(self.vertex_to_edges@, a).contains(edge_index)) by {
                        assert(listed(self.vertex_to_edges@, a)[q as int] == edge_index);
                    }
                    let e: [usize; 2] = self.edges[edge_index];
                    if (e[0] == a && e[1] == b) || (e[1] == a && e[0] == b) {
                        proof {
                            assert(a == vertex_indices[0]);
                            assert(e == self.edges@[edge_index as int]);
                            assert(e[0] == a || e[0] == b);
                            assert(same_edge(e, a, b));
                            self.lemma_edge_between(a, b, edge_index as int);
                            assert(old(self).edge_between(a, b) == Some(edge_index));
                        }
                        return edge_index;
                    }
                    q = q + 1;
                }
            },
            None => {},
        }
        proof {
            // no edge joins the two vertices: it would be listed at `a`
            assert(self.edges.len() == self.edges@.len());
            assert forall|e: int| 0 <= e < self.edges@.len() implies !same_edge(
                #[trigger] self.edges@[e],
                a,
                b,
            ) by {
                if same_edge(self.edges@[e], a, b) {
                    assert(listed(self.vertex_to_edges@, a).contains(e as usize));
                    let q = choose|q: int|
                        0 <= q < listed(self.vertex_to_edges@, a).len() && listed(
                            self.vertex_to_edges@,
                            a,
                        )[q] == e as usize;
                    assert(self.vertex_to_edges@[a]@[q] == e as usize);
                }
            }
        }
        let edge_index: usize = self.edges.len();
        self.edges.push(vertex_indices);
        let ghost ix0 = self.vertex_to_edges@;
        append_to_index(&mut self.vertex_to_edges, a, edge_index);
        let ghost ix1 = self.vertex_to_edges@;
        append_to_index(&mut self.vertex_to_edges, b, edge_index);
        proof {
            let old_edges = old(self).edges@;
            let new_edges = self.edges@;
            let new_ix = self.vertex_to_edges@;
            assert(new_edges[edge_index as int] == vertex_indices);
            assert forall|e: int| 0 <= e < old_edges.len() implies new_edges[e]
                == old_edges[e] by {}
            assert(self.edges_wf()) by {
                assert forall|e1: int, e2: int| 0 <= e1 < e2 < new_edges.len() implies !same_edge(
                    #[trigger] new_edges[e1],
                    (#[trigger] new_edges[e2])[0],
                    new_edges[e2][1],
                ) by {
                    if e2 < old_edges.len() {
                        assert(!same_edge(old_edges[e1], old_edges[e2][0], old_edges[e2][1]));
                    } else {
                        assert(!same_edge(old_edges[e1], a, b));
                    }
                }
            }
            assert(self.faces_wf()) by {
                assert forall|f: int| 0 <= f < self.face_vertices@.len()
                    implies #[trigger] self.face_wf(
                    f,
                ) by {
                    assert(old(self).face_wf(f));
                    let fe = self.face_edges@[f]@;
                    assert(new_edges[fe[0] as int] == old_edges[fe[0] as int]);
                    assert(new_edges[fe[1] as int] == old_edges[fe[1] as int]);
                    assert(new_edges[fe[2] as int] == old_edges[fe[2] as int]);
                }
            }
            assert(self.vertex_index_wf()) by {
                assert forall|v: usize, e: usize| #[trigger]
                    listed(new_ix, v).contains(e) <==> e < new_edges.len() && (
                    new_edges[e as int][0] == v || new_edges[e as int][1] == v) by {
                    assert(listed(ix1, v).contains(e) <==> listed(ix0, v).contains(e) || (v == a
                        && e == edge_index));
                    assert(listed(ix0, v).contains(e) <==> e < old_edges.len() && (
                    old_edges[e as int][0] == v || old_edges[e as int][1] == v));
                    if e < old_edges.len() {
                        assert(new_edges[e as int] == old_edges[e as int]);
                    }
                }
            }
            assert(self.edge_index_wf()) by {
                assert forall|e: usize, f: usize| #[trigger]
                    listed(self.edge_to_faces@, e).contains(f) <==> f < self.face_edges@.len()
                        && self.face_edges@[f as int]@.contains(e) by {
                    assert(listed(old(self).edge_to_faces@, e).contains(f)
                        <==> f < old(self).face_edges@.len()
                        && old(self).face_edges@[f as int]@.contains(e));
                }
            }
            assert(self.indexes_sorted()) by {
                assert forall|v: usize| strictly_increasing(#[trigger] listed(new_ix, v)) by {
                    let before = listed(ix0, v);
                    assert(strictly_increasing(before));
                    assert forall|i: int| 0 <= i < before.len() implies #[trigger] before[i]
                        < edge_index by {
                        assert(before.contains(before[i]));
                    }
                    if v == a {
                        lemma_push_increasing(before, edge_index);
                        assert(listed(new_ix, v) == listed(ix1, v));
                    } else if v == b {
                        assert(listed(ix1, v) == before);
                        lemma_push_increasing(before, edge_index);
                    } else {
                        assert(listed(ix1, v) == before);
                    }
                }
                assert forall|e: usize| strictly_increasing(
                    #[trigger] listed(self.edge_to_faces@, e),
                ) by {
                    assert(strictly_increasing(listed(old(self).edge_to_faces@, e)));
                }
            }
        }
        edge_index
    }

    /// Whether `fv` can be a face: three different vertices of the skeleton.
    pub open spec fn acceptable_face(&self, fv: Seq<usize>) -> bool {
        &&& fv.len() == 3
        &&& fv[0] < self.vertex_count() && fv[1] < self.vertex_count() && fv[2]
            < self.vertex_count()
        &&& fv[0] != fv[1] && fv[1] != fv[2] && fv[2] != fv[0]
    }

    /// Adds the triangle on the three vertices, with the edges that it
    /// needs. Anything but three different vertices of the skeleton is turned
    /// down, and the skeleton stays as it is.
    pub fn add_face(&mut self, vertex_indices: Vec<usize>) -> (r: Result<(), EtError>)
        requires
            old(self).wf(),
        ensures
            final(self).wf(),
            final(self).vertex_coords == old(self).vertex_coords,
            final(self).vertex_radius == old(self).vertex_radius,
            final(self).vertex_properties == old(self).vertex_properties,
            final(self).vertex_property_types == old(self).vertex_property_types,
            match r {
                Ok(_) => {
                    &&& old(self).acceptable_face(vertex_indices@)
                    &&& final(self).face_vertices@ == old(self).face_vertices@.push(vertex_indices)
                    &&& final(self).face_edges@.len() == old(self).face_edges@.len() + 1
                    &&& final(self).edges@.len() >= old(self).edges@.len()
                    &&& forall|e: int|
                        0 <= e < old(self).edges@.len() ==> #[trigger] final(self).edges@[e]
                            == old(self).edges@[e]
                    &&& forall|e: int|
                        old(self).edges@.len() <= e < final(self).edges@.len() ==> same_edge(
                            #[trigger] final(self).edges@[e],
                            vertex_indices@[0],
                            vertex_indices@[1],
                        ) || same_edge(final(self).edges@[e], vertex_indices@[1], vertex_indices@[2])
                            || same_edge(final(self).edges@[e], vertex_indices@[2], vertex_indices@[0])
                },
                Err(e) => e == EtError::InputMalformed && !old(self).acceptable_face(
                    vertex_indices@,
                ) && final(self).edges == old(self).edges && final(self).face_vertices
                    == old(self).face_vertices && final(self).face_edges
                    == old(self).face_edges && final(self).vertex_to_edges
                    == old(self).vertex_to_edges && final(self).edge_to_faces
                    == old(self).edge_to_faces,
            },
    {
        if vertex_indices.len() != 3 {
            return Err(EtError::InputMalformed);
        }
        let n: usize = self.vertex_coords.len();
        let v0: usize = vertex_indices[0];
        let v1: usize = vertex_indices[1];
        let v2: usize = vertex_indices[2];
        if v0 >= n || v1 >= n || v2 >= n || v0 == v1 || v1 == v2 || v2 == v0 {
            return Err(EtError::InputMalformed);
        }
        let ghost edges_a = self.edges@;
        let e0: usize = self.add_edge([v0, v1]);
        let ghost edges_b = self.edges@;
        let e1: usize = self.add_edge([v1, v2]);
        let ghost edges1 = self.edges@;
        assert(same_edge(edges1[e0 as int], v0, v1));
        let e2: usize = self.add_edge([v2, v0]);
        let ghost edges2 = self.edges@;
        assert(same_edge(edges2[e0 as int], v0, v1));
        assert(same_edge(edges2[e1 as int], v1, v2));
        proof {
            assert forall|e: int| 0 <= e < edges_a.len() implies #[trigger] edges2[e]
                == edges_a[e] by {
                assert(edges_b[e] == edges_a[e]);
                assert(edges1[e] == edges_b[e]);
                assert(edges2[e] == edges1[e]);
            }
            assert forall|e: int| edges_a.len() <= e < edges2.len() implies same_edge(
                #[trigger] edges2[e],
                v0,
                v1,
            ) || same_edge(edges2[e], v1, v2) || same_edge(edges2[e], v2, v0) by {
                if e < edges_b.len() {
                    assert(edges_b[e] == [v0, v1]);
                    assert(edges1[e] == edges_b[e]);
                    assert(edges2[e] == edges1[e]);
                } else if e < edges1.len() {
                    assert(edges1[e] == [v1, v2]);
                    assert(edges2[e] == edges1[e]);
                } else {
                    assert(edges2[e] == [v2, v0]);
                }
            }
        }
        let face_index: usize = self.face_edges.len();
        let mut edge_indices: Vec<usize> = Vec::new();
        edge_indices.push(e0);
        edge_indices.push(e1);
        edge_indices.push(e2);
        let ghost mid = *self;
        self.face_vertices.push(vertex_indices);
        self.face_edges.push(edge_indices);
        let ghost ix0 = self.edge_to_faces@;
        append_to_index(&mut self.edge_to_faces, e0, face_index);
        let ghost ix1 = self.edge_to_faces@;
        append_to_index(&mut self.edge_to_faces, e1, face_index);
        let ghost ix2 = self.edge_to_faces@;
        append_to_index(&mut self.edge_to_faces, e2, face_index);
        proof {
            let fe = self.face_edges@[face_index as int]@;
            assert(fe[0] == e0 && fe[1] == e1 && fe[2] == e2);
            assert(fe.len() == 3);
            assert(self.face_vertices.len() == self.face_vertices@.len());
            self.lemma_face_added(mid, ix1, ix2, e0, e1, e2);
        }
        Ok(())
    }

    /// A sound skeleton stays sound when a triangle on three of its edges
    /// is added as its last face and entered in the index of each of the three.
    pub proof fn lemma_face_added(
        &self,
        mid: Skeleton,
        ix1: Map<usize, Vec<usize>>,
        ix2: Map<usize, Vec<usize>>,
        e0: usize,
        e1: usize,
        e2: usize,
    )
        requires
            mid.wf(),
            self.vertex_coords == mid.vertex_coords,
            self.vertex_radius == mid.vertex_radius,
            self.vertex_properties == mid.vertex_properties,
            self.vertex_property_types == mid.vertex_property_types,
            self.edges == mid.edges,
            self.vertex_to_edges == mid.vertex_to_edges,
            self.face_vertices@.len() == mid.face_vertices@.len() + 1,
            self.face_edges@.len() == mid.face_edges@.len() + 1,
            self.face_vertices@.len() <= usize::MAX,
            forall|f: int|
                0 <= f < mid.face_vertices@.len() ==> self.face_vertices@[f]
                    == mid.face_vertices@[f] && self.face_edges@[f] == mid.face_edges@[f],
            self.face_wf(mid.face_vertices@.len() as int),
            self.face_edges@[mid.face_edges@.len() as int]@[0] == e0,
            self.face_edges@[mid.face_edges@.len() as int]@[1] == e1,
            self.face_edges@[mid.face_edges@.len() as int]@[2] == e2,
            listed(ix1, e0) == listed(mid.edge_to_faces@, e0).push(mid.face_edges@.len() as usize),
            forall|k: usize| k != e0 ==> listed(ix1, k) == listed(mid.edge_to_faces@, k),
            listed(ix2, e1) == listed(ix1, e1).push(mid.face_edges@.len() as usize),
            forall|k: usize| k != e1 ==> listed(ix2, k) == listed(ix1, k),
            listed(self.edge_to_faces@, e2) == listed(ix2, e2).push(
                mid.face_edges@.len() as usize,
            ),
            forall|k: usize| k != e2 ==> listed(self.edge_to_faces@, k) == listed(ix2, k),
        ensures
            self.wf(),
    {
        let face_index = mid.face_edges@.len() as usize;
        let ix0 = mid.edge_to_faces@;
        let ix3 = self.edge_to_faces@;
        let fe = self.face_edges@[face_index as int]@;
        let fv = self.face_vertices@[face_index as int]@;
        // the three edges differ, as the three corners do
        assert(e0 != e1 && e1 != e2 && e2 != e0);
        assert forall|v: usize, e: usize| #[trigger]
            listed(self.vertex_to_edges@, v).contains(e) <==> e < self.edges@.len() && (
            self.edges@[e as int][0] == v || self.edges@[e as int][1] == v) by {
            assert(listed(mid.vertex_to_edges@, v).contains(e) <==> e < mid.edges@.len() && (
            mid.edges@[e as int][0] == v || mid.edges@[e as int][1] == v));
        }
        assert forall|f: int| 0 <= f < self.face_vertices@.len() implies #[trigger] self.face_wf(
            f,
        ) by {
            if f < face_index {
                assert(mid.face_wf(f));
            }
        }
        assert forall|e: usize, x: usize|
            listed(ix3, e).contains(x) <==> listed(ix0, e).contains(x) || ((e == e0 || e == e1 || e
                == e2) && x == face_index) by {
            let l0 = listed(ix0, e);
            let l3 = listed(ix3, e);
            if e == e0 {
                assert(listed(ix2, e) == listed(ix1, e));
                assert(l3 == l0.push(face_index));
            } else if e == e1 {
                assert(listed(ix1, e) == l0);
                assert(l3 == l0.push(face_index));
            } else if e == e2 {
                assert(listed(ix1, e) == l0);
                assert(listed(ix2, e) == listed(ix1, e));
                assert(l3 == l0.push(face_index));
            }
            if e == e0 || e == e1 || e == e2 {
                assert(l3[l0.len() as int] == face_index);
                if l3.contains(x) {
                    let q = choose|q: int| 0 <= q < l3.len() && l3[q] == x;
                    if q < l0.len() {
                        assert(l0[q] == x);
                    }
                }
                if l0.contains(x) {
                    let q = choose|q: int| 0 <= q < l0.len() && l0[q] == x;
                    assert(l3[q] == x);
                }
            } else {
                assert(listed(ix1, e) == l0);
                assert(listed(ix2, e) == listed(ix1, e));
                assert(l3 == l0);
            }
        }
        assert forall|e: usize, f: usize| #[trigger]
            listed(ix3, e).contains(f) <==> f < self.face_edges@.len()
                && self.face_edges@[f as int]@.contains(e) by {
            assert(listed(ix0, e).contains(f) <==> f < mid.face_edges@.len()
                && mid.face_edges@[f as int]@.contains(e));
            assert(listed(ix3, e).contains(f) <==> listed(ix0, e).contains(f) || ((e == e0 || e
                == e1 || e == e2) && f == face_index));
            if f == face_index {
                if fe.contains(e) {
                    let q = choose|q: int| 0 <= q < fe.len() && fe[q] == e;
                    assert(q == 0 || q == 1 || q == 2);
                }
                if e == e0 {
                    assert(fe[0] == e);
                }
                if e == e1 {
                    assert(fe[1] == e);
                }
                if e == e2 {
                    assert(fe[2] == e);
                }
            }
        }
        assert forall|v: usize| strictly_increasing(#[trigger] listed(self.vertex_to_edges@, v)) by {
            assert(strictly_increasing(listed(mid.vertex_to_edges@, v)));
        }
        assert forall|e: usize| strictly_increasing(#[trigger] listed(ix3, e)) by {
            let l0 = listed(ix0, e);
            assert(strictly_increasing(l0));
            assert forall|i: int| 0 <= i < l0.len() implies #[trigger] l0[i] < face_index by {
                assert(l0.contains(l0[i]));
            }
            if e == e0 {
                assert(listed(ix2, e) == listed(ix1, e));
                lemma_push_increasing(l0, face_index);
            } else if e == e1 {
                assert(listed(ix1, e) == l0);
                lemma_push_increasing(l0, face_index);
            } else if e == e2 {
                assert(listed(ix1, e) == l0);
                assert(listed(ix2, e) == listed(ix1, e));
                lemma_push_increasing(l0, face_index);
            } else {
                assert(listed(ix1, e) == l0);
                assert(listed(ix2, e) == listed(ix1, e));
            }
        }
    }

    /// An edge that joins `a` and `b` is the edge between them.
    pub proof fn lemma_edge_between(&self, a: usize, b: usize, e: int)
        requires
            self.edges_wf(),
            0 <= e < self.edges@.len(),
            same_edge(self.edges@[e], a, b),
        ensures
            self.edge_between(a, b) == Some(e as usize),
    {
        let e2 = choose|e2: int|
            0 <= e2 < self.edges@.len() && same_edge(#[trigger] self.edges@[e2], a, b);
        if e2 < e {
            assert(!same_edge(self.edges@[e2], self.edges@[e][0], self.edges@[e][1]));
        }
        if e < e2 {
            assert(!same_edge(self.edges@[e], self.edges@[e2][0], self.edges@[e2][1]));
        }
    }

    /// Gives every vertex the scalar property `prop_name`, vertex `i` with
    /// the value `prop_value[i]`. A list with another length than the number of
    /// vertices is turned down, and the skeleton stays as it is.
    pub fn set_property_f32(&mut self, prop_name: &str, prop_value: &Vec<i128>) -> (r: Result<
        (),
        EtError,
    >)
        requires
            old(self).wf(),
        ensures
            final(self).wf(),
            final(self).vertex_coords == old(self).vertex_coords,
            final(self).vertex_radius == old(self).vertex_radius,
            final(self).edges == old(self).edges,
            final(self).face_vertices == old(self).face_vertices,
            final(self).face_edges == old(self).face_edges,
            final(self).vertex_to_edges == old(self).vertex_to_edges,
            final(self).edge_to_faces == old(self).edge_to_faces,
            match r {
                Ok(_) => {
                    &&& prop_value@.len() == old(self).vertex_properties@.len()
                    &&& final(self).vertex_property_types.has(prop_name@)
                    &&& final(self).vertex_property_types.value(prop_name@) == PropertyType::Scalar
                    &&& forall|key: Seq<char>|
                        key != prop_name@ ==> final(self).vertex_property_types.has(key)
                            == old(self).vertex_property_types.has(key)
                            && (old(self).vertex_property_types.has(key)
                            ==> final(self).vertex_property_types.value(key)
                                == old(self).vertex_property_types.value(key))
                    &&& forall|i: int|
                        0 <= i < prop_value@.len() ==> {
                            let after = #[trigger] final(self).vertex_properties@[i];
                            let before = old(self).vertex_properties@[i];
                            &&& after.has(prop_name@)
                            &&& after.value(prop_name@) == Property::Scalar(prop_value@[i])
                            &&& forall|key: Seq<char>|
                                key != prop_name@ ==> after.has(key) == before.has(key) && (
                                before.has(key) ==> after.value(key) == before.value(key))
                        }
                },
                Err(e) => e == EtError::InputMalformed
                    && prop_value@.len() != old(self).vertex_properties@.len()
                    && final(self).vertex_properties == old(self).vertex_properties
                    && final(self).vertex_property_types == old(self).vertex_property_types,
            },
    {
        if prop_value.len() != self.vertex_properties.len() {
            return Err(EtError::InputMalformed);
        }
        self.vertex_property_types.insert(prop_name, PropertyType::Scalar);
        let n: usize = self.vertex_properties.len();
        let mut i: usize = 0;
        while i < n
            invariant
                i <= n,
                n == self.vertex_properties@.len(),
                n == old(self).vertex_properties@.len(),
                n == prop_value@.len(),
                self.vertex_coords == old(self).vertex_coords,
                self.vertex_radius == old(self).vertex_radius,
                self.edges == old(self).edges,
                self.face_vertices == old(self).face_vertices,
                self.face_edges == old(self).face_edges,
                self.vertex_to_edges == old(self).vertex_to_edges,
                self.edge_to_faces == old(self).edge_to_faces,
                self.vertex_property_types.wf(),
                self.vertex_property_types.has(prop_name@),
                self.vertex_property_types.value(prop_name@) == PropertyType::Scalar,
                forall|key: Seq<char>|
                    key != prop_name@ ==> self.vertex_property_types.has(key)
                        == old(self).vertex_property_types.has(key)
                        && (old(self).vertex_property_types.has(key)
                        ==> self.vertex_property_types.value(key)
                            == old(self).vertex_property_types.value(key)),
                forall|i2: int|
                    i <= i2 < n ==> self.vertex_properties@[i2] == old(self).vertex_properties@[i2],
                forall|i2: int| 0 <= i2 < n ==> (#[trigger] old(self).vertex_properties@[i2]).wf(),
                forall|i2: int|
                    0 <= i2 < i ==> {
                        let after = #[trigger] self.vertex_properties@[i2];
                        let before = old(self).vertex_properties@[i2];
                        &&& after.wf()
                        &&& after.has(prop_name@)
                        &&& after.value(prop_name@) == Property::Scalar(prop_value@[i2])
                        &&& forall|key: Seq<char>|
                            key != prop_name@ ==> after.has(key) == before.has(key) && (
                            before.has(key) ==> after.value(key) == before.value(key))
                    },
            decreases n - i,
        {
            let ghost before = self.vertex_properties@;
            assert(old(self).vertex_properties@[i as int].wf());
            self.vertex_properties[i].insert(prop_name, Property::Scalar(prop_value[i]));
            proof {
                assert forall|i2: int| 0 <= i2 < i + 1 implies {
                    let after = #[trigger] self.vertex_properties@[i2];
                    let bef = old(self).vertex_properties@[i2];
                    &&& after.wf()
                    &&& after.has(prop_name@)
                    &&& after.value(prop_name@) == Property::Scalar(prop_value@[i2])
                    &&& forall|key: Seq<char>|
                        key != prop_name@ ==> after.has(key) == bef.has(key) && (bef.has(key)
                            ==> after.value(key) == bef.value(key))
                } by {
                    if i2 < i {
                        assert(self.vertex_properties@[i2] == before[i2]);
                    }
                }
            }
            i = i + 1;
        }
        proof {
            self.lemma_wf_frame(*old(self));
        }
        Ok(())
    }

    /// A skeleton with the same vertices, edges and faces as a sound one,
    /// and with sound properties, is sound.
    pub proof fn lemma_wf_frame(&self, other: Skeleton)
        requires
            other.wf(),
            self.properties_wf(),
            self.vertex_coords == other.vertex_coords,
            self.vertex_radius == other.vertex_radius,
            self.edges == other.edges,
            self.face_vertices == other.face_vertices,
            self.face_edges == other.face_edges,
            self.vertex_to_edges == other.vertex_to_edges,
            self.edge_to_faces == other.edge_to_faces,
        ensures
            self.wf(),
    {
        assert forall|f: int| 0 <= f < self.face_vertices@.len() implies #[trigger] self.face_wf(
            f,
        ) by {
            assert(other.face_wf(f));
        }
        assert forall|v: usize, e: usize| #[trigger]
            listed(self.vertex_to_edges@, v).contains(e) <==> e < self.edges@.len() && (
            self.edges@[e as int][0] == v || self.edges@[e as int][1] == v) by {
            assert(listed(other.vertex_to_edges@, v).contains(e) <==> e < other.edges@.len() && (
            other.edges@[e as int][0] == v || other.edges@[e as int][1] == v));
        }
        assert forall|e: usize, f: usize| #[trigger]
            listed(self.edge_to_faces@, e).contains(f) <==> f < self.face_edges@.len()
                && self.face_edges@[f as int]@.contains(e) by {
            assert(listed(other.edge_to_faces@, e).contains(f) <==> f < other.face_edges@.len()
                && other.face_edges@[f as int]@.contains(e));
        }
        assert forall|v: usize| strictly_increasing(#[trigger] listed(self.vertex_to_edges@, v)) by {
            assert(strictly_increasing(listed(other.vertex_to_edges@, v)));
        }
        assert forall|e: usize| strictly_increasing(#[trigger] listed(self.edge_to_faces@, e)) by {
            assert(strictly_increasing(listed(other.edge_to_faces@, e)));
        }
    }

    /// Gives every vertex the colour that shows its scalar property
    /// `prop_name`: from blue for the least value to red for the greatest, and
    /// black where all values are the same.
    ///
    /// Fails with `InputMissing` where no property has the name, and with
    /// `InputMalformed` where the property is no scalar.
    pub fn set_vertex_color_from_property_f32(&mut self, prop_name: &str) -> (r: Result<
        (),
        EtError,
    >)
        requires
            old(self).wf(),
            old(self).vertex_property_types.has(prop_name@)
                && old(self).vertex_property_types.value(prop_name@) == PropertyType::Scalar
                ==> old(self).vertex_properties@.len() > 0 && column_ready(
                old(self).vertex_properties@,
                prop_name@,
            ),
        ensures
            final(self).wf(),
            final(self).vertex_coords == old(self).vertex_coords,
            final(self).vertex_radius == old(self).vertex_radius,
            final(self).edges == old(self).edges,
            final(self).face_vertices == old(self).face_vertices,
            final(self).face_edges == old(self).face_edges,
            final(self).vertex_to_edges == old(self).vertex_to_edges,
            final(self).edge_to_faces == old(self).edge_to_faces,
            match r {
                Ok(_) => {
                    &&& old(self).vertex_property_types.has(prop_name@)
                        && old(self).vertex_property_types.value(prop_name@) == PropertyType::Scalar
                    &&& final(self).vertex_property_types.has("red"@)
                        && final(self).vertex_property_types.value("red"@) == PropertyType::UChar
                    &&& final(self).vertex_property_types.has("green"@)
                        && final(self).vertex_property_types.value("green"@) == PropertyType::UChar
                    &&& final(self).vertex_property_types.has("blue"@)
                        && final(self).vertex_property_types.value("blue"@) == PropertyType::UChar
                    &&& forall|key: Seq<char>|
                        key != "red"@ && key != "green"@ && key != "blue"@
                            ==> final(self).vertex_property_types.has(key)
                            == old(self).vertex_property_types.has(key)
                                && (old(self).vertex_property_types.has(key)
                            ==> final(self).vertex_property_types.value(key)
                                == old(self).vertex_property_types.value(key))
                    &&& exists|lo: int, hi: int|
                        is_column_min(
                            old(self).vertex_properties@,
                            prop_name@,
                            old(self).vertex_properties@.len() as int,
                            lo,
                        ) && is_column_max(
                            old(self).vertex_properties@,
                            prop_name@,
                            old(self).vertex_properties@.len() as int,
                            hi,
                        ) && forall|i: int|
                            0 <= i < old(self).vertex_properties@.len() ==> colored(
                                old(self).vertex_properties@[i],
                                #[trigger] final(self).vertex_properties@[i],
                                scalar_at(old(self).vertex_properties@, prop_name@, i),
                                lo,
                                hi,
                            )
                },
                Err(e) => {
                    &&& final(self).vertex_properties == old(self).vertex_properties
                    &&& final(self).vertex_property_types == old(self).vertex_property_types
                    &&& e == if old(self).vertex_property_types.has(prop_name@) {
                        EtError::InputMalformed
                    } else {
                        EtError::InputMissing
                    }
                    &&& !(old(self).vertex_property_types.has(prop_name@)
                        && old(self).vertex_property_types.value(prop_name@)
                        == PropertyType::Scalar)
                },
            },
    {
        let r = color_vertices(
            &mut self.vertex_property_types,
            &mut self.vertex_properties,
            prop_name,
        );
        proof {
            if r is Ok {
                let (lo, hi) = choose|lo: int, hi: int|
                    is_column_min(
                        old(self).vertex_properties@,
                        prop_name@,
                        old(self).vertex_properties@.len() as int,
                        lo,
                    ) && is_column_max(
                        old(self).vertex_properties@,
                        prop_name@,
                        old(self).vertex_properties@.len() as int,
                        hi,
                    ) && forall|i: int|
                        0 <= i < old(self).vertex_properties@.len() ==> colored(
                            old(self).vertex_properties@[i],
                            #[trigger] self.vertex_properties@[i],
                            scalar_at(old(self).vertex_properties@, prop_name@, i),
                            lo,
                            hi,
                        );
                assert forall|i: int| 0 <= i < self.vertex_properties@.len() implies (
                #[trigger] self.vertex_properties@[i]).wf() by {
                    assert(colored(
                        old(self).vertex_properties@[i],
                        self.vertex_properties@[i],
                        scalar_at(old(self).vertex_properties@, prop_name@, i),
                        lo,
                        hi,
                    ));
                }
            }
            self.lemma_wf_frame(*old(self));
        }
        r
    }

    /// The places of the vertices.
    pub fn get_vertices(&self) -> (v: &Vec<Point3>)
        ensures
            *v == self.vertex_coords,
    {
        &self.vertex_coords
    }

    /// The radii of the vertices; below zero where a radius is not known.
    pub fn get_radii(&self) -> (r: &Vec<i32>)
        ensures
            *r == self.vertex_radius,
    {
        &self.vertex_radius
    }

    /// The edges, each as its two vertices.
    pub fn get_edges(&self) -> (e: &Vec<[usize; 2]>)
        ensures
            *e == self.edges,
    {
        &self.edges
    }

    /// The faces, each as its three edges.
    pub fn get_faces(&self) -> (f: &Vec<Vec<usize>>)
        ensures
            *f == self.face_edges,
    {
        &self.face_edges
    }

    /// The edges that end at a vertex; `None` where no edge does.
    pub fn get_edges_from_vertex(&self, vertex_index: usize) -> (r: Option<&Vec<usize>>)
        ensures
            match r {
                Some(l) => self.vertex_to_edges@.contains_key(vertex_index) && *l
                    == self.vertex_to_edges@[vertex_index],
                None => !self.vertex_to_edges@.contains_key(vertex_index),
            },
    {
        self.vertex_to_edges.get(&vertex_index)
    }

    /// The faces on an edge; `None` where there is none.
    pub fn get_faces_from_edge(&self, edge_index: usize) -> (r: Option<&Vec<usize>>)
        ensures
            match r {
                Some(l) => self.edge_to_faces@.contains_key(edge_index) && *l
                    == self.edge_to_faces@[edge_index],
                None => !self.edge_to_faces@.contains_key(edge_index),
            },
    {
        self.edge_to_faces.get(&edge_index)
    }
}

} // verus!
