//! The burn graph: the vertices of a skeleton, the points set on its long
//! edges, and around each of them the link that the faces give it.

use vstd::prelude::*;
use super::burntime::BurnTime;
use super::link::{Link, lemma_add_ring_concat, lemma_add_ring_push};
use super::vertex::Vertex;
use crate::geometry::{
    Point3, distance, interior_count, interpolate_point, interpolate_radius, lerp_point,
    lerp_radius, norm, piece_count, subdivision_count,
};
use crate::skeleton::skeleton::Skeleton;

verus! {

broadcast use vstd::array::group_array_axioms;

/// The burn graph of a skeleton.
pub struct ETGraph<'a> {
    pub skel: &'a Skeleton,
    pub vert: Vec<Vertex>,
}

/// Into how many pieces edge `e` of the skeleton is cut.
pub open spec fn edge_pieces(skel: &Skeleton, e: int, dist_max: u64, subdiv_max: usize) -> nat {
    let a = skel.edges@[e][0] as int;
    let b = skel.edges@[e][1] as int;
    piece_count(
        distance(skel.vertex_coords@[a], skel.vertex_coords@[b]),
        dist_max as nat,
        subdiv_max as nat,
    )
}

/// How many points are set on edge `e` of the skeleton.
pub open spec fn edge_interior(skel: &Skeleton, e: int, dist_max: u64, subdiv_max: usize) -> nat {
    let a = skel.edges@[e][0] as int;
    let b = skel.edges@[e][1] as int;
    interior_count(
        distance(skel.vertex_coords@[a], skel.vertex_coords@[b]),
        dist_max as nat,
        subdiv_max as nat,
    )
}

/// How many points are set on the edges before edge `e`.
pub open spec fn interior_before(skel: &Skeleton, e: int, dist_max: u64, subdiv_max: usize) -> nat
    decreases e,
{
    if e <= 0 {
        0
    } else {
        interior_before(skel, e - 1, dist_max, subdiv_max) + edge_interior(
            skel,
            e - 1,
            dist_max,
            subdiv_max,
        )
    }
}

/// The node that is the `j`-th point set on edge `e`, counted from 1: the
/// points come after the vertices of the skeleton, edge by edge.
pub open spec fn interior_node(
    skel: &Skeleton,
    e: int,
    j: int,
    dist_max: u64,
    subdiv_max: usize,
) -> int {
    skel.vertex_coords@.len() + interior_before(skel, e, dist_max, subdiv_max) + j - 1
}

/// The chain of edge `e`: its first vertex, the points set on it in their
/// order, and its second vertex.
pub open spec fn chain_of(skel: &Skeleton, e: int, dist_max: u64, subdiv_max: usize) -> Seq<usize> {
    let m = edge_interior(skel, e, dist_max, subdiv_max) as int;
    Seq::new(
        (m + 2) as nat,
        |j: int|
            if j == 0 {
                skel.edges@[e][0]
            } else if j == m + 1 {
                skel.edges@[e][1]
            } else {
                interior_node(skel, e, j, dist_max, subdiv_max) as usize
            },
    )
}

/// Where the nodes of the burn graph lie: node `i` is vertex `i` of the
/// skeleton, and the `j`-th point on edge `e` lies `j` pieces of the edge away
/// from the edge's first vertex, with a radius between those of the two ends,
/// or with none where an end has none.
pub open spec fn nodes_placed(
    skel: &Skeleton,
    vert: Seq<Vertex>,
    edges_done: int,
    dist_max: u64,
    subdiv_max: usize,
) -> bool {
    let n = skel.vertex_coords@.len() as int;
    &&& vert.len() == n + interior_before(skel, edges_done, dist_max, subdiv_max)
    &&& forall|i: int|
        0 <= i < n ==> (#[trigger] vert[i]).pos == skel.vertex_coords@[i] && vert[i].rad
            == skel.vertex_radius@[i]
    &&& forall|e: int, j: int|
        0 <= e < edges_done && 1 <= j <= edge_interior(skel, e, dist_max, subdiv_max) ==> {
            let a = skel.edges@[e][0] as int;
            let b = skel.edges@[e][1] as int;
            let pieces = edge_pieces(skel, e, dist_max, subdiv_max);
            let node = #[trigger] vert[interior_node(skel, e, j, dist_max, subdiv_max)];
            &&& node.pos
                == lerp_point(skel.vertex_coords@[a], skel.vertex_coords@[b], j as nat, pieces)
            &&& node.rad == lerp_radius(
                skel.vertex_radius@[a] as int,
                skel.vertex_radius@[b] as int,
                j as nat,
                pieces,
            )
        }
}

impl<'a> ETGraph<'a> {
    /// The nodes of the graph.
    pub fn get_vertices(&mut self) -> (v: &mut Vec<Vertex>)
        ensures
            *v == old(self).vert,
            final(self).vert == *final(v),
            final(self).skel == old(self).skel,
    {
        &mut self.vert
    }

    /// Fills the graph with the vertices of the skeleton and with the points
    /// that cut its long edges. Returns the chain of each edge.
    pub fn build_subdiv_vertices(&mut self, dist_max: u64, subdiv_max: usize) -> (subdivs_ind: Vec<
        Vec<usize>,
    >)
        requires
            old(self).skel.edges_wf(),
            old(self).vert@.len() == 0,
        ensures
            final(self).skel == old(self).skel,
            nodes_placed(
                final(self).skel,
                final(self).vert@,
                final(self).skel.edges@.len() as int,
                dist_max,
                subdiv_max,
            ),
            forall|i: int| 0 <= i < final(self).vert@.len()
                ==> (#[trigger] final(self).vert@[i]).blank(),
            subdivs_ind@.len() == final(self).skel.edges@.len(),
            forall|e: int|
                0 <= e < subdivs_ind@.len() ==> (#[trigger] subdivs_ind@[e])@ == chain_of(
                    final(self).skel,
                    e,
                    dist_max,
                    subdiv_max,
                ),
    {
        let n: usize = self.skel.get_vertices().len();
        let mut i: usize = 0;
        while i < n
            invariant
                i <= n,
                n == self.skel.vertex_coords@.len(),
                self.skel == old(self).skel,
                self.skel.edges_wf(),
                self.vert@.len() == i,
                forall|i2: int| 0 <= i2 < i ==> (#[trigger] self.vert@[i2]).blank(),
                forall|i2: int|
                    0 <= i2 < i ==> (#[trigger] self.vert@[i2]).pos == self.skel.vertex_coords@[i2]
                        && self.vert@[i2].rad == self.skel.vertex_radius@[i2],
            decreases n - i,
        {
            let v: Vertex = Vertex::new(self.skel.get_vertices()[i], self.skel.get_radii()[i]);
            self.vert.push(v);
            i = i + 1;
        }
        let mut subdivs_ind: Vec<Vec<usize>> = Vec::new();
        let n_edges: usize = self.skel.get_edges().len();
        let mut e: usize = 0;
        while e < n_edges
            invariant
                e <= n_edges,
                n == self.skel.vertex_coords@.len(),
                n_edges == self.skel.edges@.len(),
                self.skel == old(self).skel,
                self.skel.edges_wf(),
                nodes_placed(self.skel, self.vert@, e as int, dist_max, subdiv_max),
                forall|i2: int| 0 <= i2 < self.vert@.len() ==> (#[trigger] self.vert@[i2]).blank(),
                subdivs_ind@.len() == e,
                forall|e2: int|
                    0 <= e2 < e ==> (#[trigger] subdivs_ind@[e2])@ == chain_of(
                        self.skel,
                        e2,
                        dist_max,
                        subdiv_max,
                    ),
            decreases n_edges - e,
        {
            let edge: [usize; 2] = self.skel.get_edges()[e];
            let ind_v1: usize = edge[0];
            let ind_v2: usize = edge[1];
            assert(ind_v1 < n && ind_v2 < n);
            let v1: Point3 = self.vert[ind_v1].pos();
            let v2: Point3 = self.vert[ind_v2].pos();
            let len_edg: u64 = norm(v1, v2);
            let r1: i32 = self.vert[ind_v1].rad();
            let r2: i32 = self.vert[ind_v2].rad();
            let nb_subdiv: usize = subdivision_count(len_edg, dist_max, subdiv_max);
            let ghost m: int = edge_interior(self.skel, e as int, dist_max, subdiv_max) as int;
            let ghost base: int = n + interior_before(self.skel, e as int, dist_max, subdiv_max);
            let ghost chain = chain_of(self.skel, e as int, dist_max, subdiv_max);
            let ghost before = self.vert@;
            assert(nb_subdiv == edge_pieces(self.skel, e as int, dist_max, subdiv_max));
            let mut vec_sub: Vec<usize> = Vec::new();
            vec_sub.push(ind_v1);
            let mut j: usize = 1;
            while j < nb_subdiv
                invariant
                    1 <= j,
                    nb_subdiv <= 1 || j <= nb_subdiv,
                    nb_subdiv <= 1 ==> j == 1,
                    nb_subdiv <= 1 ==> m == 0,
                    nb_subdiv > 1 ==> m == nb_subdiv - 1,
                    e < n_edges,
                    n_edges == self.skel.edges@.len(),
                    n == self.skel.vertex_coords@.len(),
                    self.skel == old(self).skel,
                    self.skel.edges_wf(),
                    ind_v1 == self.skel.edges@[e as int][0],
                    ind_v2 == self.skel.edges@[e as int][1],
                    v1 == self.skel.vertex_coords@[ind_v1 as int],
                    v2 == self.skel.vertex_coords@[ind_v2 as int],
                    r1 == self.skel.vertex_radius@[ind_v1 as int],
                    r2 == self.skel.vertex_radius@[ind_v2 as int],
                    nb_subdiv == edge_pieces(self.skel, e as int, dist_max, subdiv_max),
                    m == edge_interior(self.skel, e as int, dist_max, subdiv_max),
                    base == n + interior_before(self.skel, e as int, dist_max, subdiv_max),
                    chain == chain_of(self.skel, e as int, dist_max, subdiv_max),
                    before.len() == base,
                    self.vert@.len() == base + j - 1,
                    forall|i2: int| 0 <= i2 < base ==> self.vert@[i2] == before[i2],
                    forall|i2: int| 0 <= i2 < self.vert@.len()
                        ==> (#[trigger] self.vert@[i2]).blank(),
                    forall|j2: int|
                        1 <= j2 < j ==> (#[trigger] self.vert@[base + j2 - 1]).pos == lerp_point(
                            v1,
                            v2,
                            j2 as nat,
                            nb_subdiv as nat,
                        ) && self.vert@[base + j2 - 1].rad == lerp_radius(
                            r1 as int,
                            r2 as int,
                            j2 as nat,
                            nb_subdiv as nat,
                        ),
                    vec_sub@.len() == j,
                    forall|j2: int| 0 <= j2 < j ==> vec_sub@[j2] == chain[j2],
                decreases nb_subdiv - j,
            {
                let cur_pos: Point3 = interpolate_point(v1, v2, j, nb_subdiv);
                let cur_rad: i32 = interpolate_radius(r1, r2, j, nb_subdiv);
                let ind: usize = self.vert.len();
                self.vert.push(Vertex::new(cur_pos, cur_rad));
                vec_sub.push(ind);
                j = j + 1;
            }
            vec_sub.push(ind_v2);
            proof {
                assert(vec_sub@ =~= chain);
                let after = self.vert@;
                assert(interior_before(self.skel, e + 1, dist_max, subdiv_max) == interior_before(
                    self.skel,
                    e as int,
                    dist_max,
                    subdiv_max,
                ) + m);
                assert forall|i2: int| 0 <= i2 < n implies (#[trigger] after[i2]).pos
                    == self.skel.vertex_coords@[i2] && after[i2].rad
                    == self.skel.vertex_radius@[i2] by {
                    assert(after[i2] == before[i2]);
                }
                assert forall|e2: int, j2: int|
                    0 <= e2 < e + 1 && 1 <= j2 <= edge_interior(
                        self.skel,
                        e2,
                        dist_max,
                        subdiv_max,
                    ) implies {
                    let a = self.skel.edges@[e2][0] as int;
                    let b = self.skel.edges@[e2][1] as int;
                    let pieces = edge_pieces(self.skel, e2, dist_max, subdiv_max);
                    let node = #[trigger] after[interior_node(
                        self.skel,
                        e2,
                        j2,
                        dist_max,
                        subdiv_max,
                    )];
                    &&& node.pos == lerp_point(
                        self.skel.vertex_coords@[a],
                        self.skel.vertex_coords@[b],
                        j2 as nat,
                        pieces,
                    )
                    &&& node.rad == lerp_radius(
                        self.skel.vertex_radius@[a] as int,
                        self.skel.vertex_radius@[b] as int,
                        j2 as nat,
                        pieces,
                    )
                } by {
                    let node_index = interior_node(self.skel, e2, j2, dist_max, subdiv_max);
                    if e2 < e {
                        lemma_interior_before_monotone(
                            self.skel,
                            e2 + 1,
                            e as int,
                            dist_max,
                            subdiv_max,
                        );
                        assert(node_index < base);
                        assert(after[node_index] == before[node_index]);
                    } else {
                        assert(node_index == base + j2 - 1);
                    }
                }
            }
            subdivs_ind.push(vec_sub);
            e = e + 1;
        }
        subdivs_ind
    }
}

/// The points set on the edges before an edge are no more than those before
/// a later edge.
pub proof fn lemma_interior_before_monotone(
    skel: &Skeleton,
    e1: int,
    e2: int,
    dist_max: u64,
    subdiv_max: usize,
)
    requires
        0 <= e1 <= e2,
    ensures
        interior_before(skel, e1, dist_max, subdiv_max) <= interior_before(
            skel,
            e2,
            dist_max,
            subdiv_max,
        ),
    decreases e2 - e1,
{
    if e1 < e2 {
        lemma_interior_before_monotone(skel, e1, e2 - 1, dist_max, subdiv_max);
    }
}


/// The ring of neighbours that a face gives to the corner `s1[0]`, where
/// `s1`, `s2` and `s3` are the chains of its three sides, each ending where
/// the next begins: the node after the corner on `s1`, the points set on
/// `s2`, and the node before the corner on `s3`.
pub open spec fn corner_ring(s1: Seq<usize>, s2: Seq<usize>, s3: Seq<usize>) -> Seq<usize> {
    seq![s1[1]] + s2.subrange(1, s2.len() - 1) + seq![s3[s3.len() - 2]]
}

/// The ring of neighbours that a face gives to the point `s1[i]` set on its
/// side `s1`: the next node on `s1`, all of `s2` but its first node, the
/// points set on `s3`, and the node before on `s1`.
pub open spec fn interior_ring(s1: Seq<usize>, s2: Seq<usize>, s3: Seq<usize>, i: int) -> Seq<
    usize,
> {
    seq![s1[i + 1]] + s2.subrange(1, s2.len() as int) + s3.subrange(1, s3.len() - 1) + seq![
        s1[i - 1],
    ]
}

/// The ring of the node at place `i` of `s1`.
pub open spec fn ring_at(s1: Seq<usize>, s2: Seq<usize>, s3: Seq<usize>, i: int) -> Seq<usize> {
    if i == 0 {
        corner_ring(s1, s2, s3)
    } else {
        interior_ring(s1, s2, s3, i)
    }
}

/// The links of all nodes after node `node` was led along `ring`.
pub open spec fn links_with_ring(links: Seq<Link>, node: int, ring: Seq<usize>) -> Seq<Link> {
    links.update(node, links[node].add_ring(ring))
}

/// The links of all nodes after the first `k` nodes of `s1` got their rings.
pub open spec fn links_after_chain(
    links: Seq<Link>,
    s1: Seq<usize>,
    s2: Seq<usize>,
    s3: Seq<usize>,
    k: int,
) -> Seq<Link>
    decreases k,
{
    if k <= 0 {
        links
    } else {
        links_with_ring(
            links_after_chain(links, s1, s2, s3, k - 1),
            s1[k - 1] as int,
            ring_at(s1, s2, s3, k - 1),
        )
    }
}

/// The links of all nodes after a face with the sides `s1`, `s2`, `s3` was
/// looked at: each side in turn is taken as the first, and all its nodes but
/// the last get their rings.
pub open spec fn links_after_face(
    links: Seq<Link>,
    s1: Seq<usize>,
    s2: Seq<usize>,
    s3: Seq<usize>,
) -> Seq<Link> {
    let l1 = links_after_chain(links, s1, s2, s3, s1.len() - 1);
    let l2 = links_after_chain(l1, s2, s3, s1, s2.len() - 1);
    links_after_chain(l2, s3, s1, s2, s3.len() - 1)
}

/// The chain, turned so that it starts at node `from`.
pub open spec fn oriented(chain: Seq<usize>, from: usize) -> Seq<usize> {
    if chain[0] == from {
        chain
    } else {
        chain.reverse()
    }
}

/// The links of all nodes after the first `f` faces of the skeleton were
/// looked at. The side of a face between one corner and the next is the chain
/// of the edge between them, turned to start at the first of the two.
pub open spec fn links_after_faces(
    links: Seq<Link>,
    skel: &Skeleton,
    chains: Seq<Seq<usize>>,
    f: int,
) -> Seq<Link>
    decreases f,
{
    if f <= 0 {
        links
    } else {
        let fv = skel.face_vertices@[f - 1]@;
        let fe = skel.face_edges@[f - 1]@;
        links_after_face(
            links_after_faces(links, skel, chains, f - 1),
            oriented(chains[fe[0] as int], fv[0]),
            oriented(chains[fe[1] as int], fv[1]),
            oriented(chains[fe[2] as int], fv[2]),
        )
    }
}

/// The links of the nodes.
pub open spec fn links_of(vert: Seq<Vertex>) -> Seq<Link> {
    Seq::new(vert.len(), |i: int| vert[i].link())
}

/// The two nodes differ in their link at most.
pub open spec fn same_but_link(a: Vertex, b: Vertex) -> bool {
    &&& a.pos == b.pos
    &&& a.rad == b.rad
    &&& a.edge_sector == b.edge_sector
    &&& a.time == b.time
    &&& a.burned == b.burned
    &&& a.boundary == b.boundary
    &&& a.prime_sector == b.prime_sector
    &&& a.sector == b.sector
}

/// The link of the node is well formed and simple.
pub open spec fn link_sound(v: Vertex) -> bool {
    v.link().wf() && v.link().simple() && v.neigh_adj@.len() == v.neigh@.len()
}

/// Leads the node along the ring that starts at `prev` and goes on through
/// `seg[from..to]`: each two neighbours that follow one another in it, and
/// differ, become a couple. Returns the last neighbour of the ring.
fn walk_ring(v: &mut Vertex, prev: usize, seg: &Vec<usize>, from: usize, to: usize) -> (last: usize)
    requires
        from <= to <= seg@.len(),
        link_sound(*old(v)),
    ensures
        final(v).link()
            == old(v).link().add_ring(seq![prev] + seg@.subrange(from as int, to as int)),
        last == (seq![prev] + seg@.subrange(from as int, to as int)).last(),
        link_sound(*final(v)),
        same_but_link(*old(v), *final(v)),
{
    let mut prev: usize = prev;
    let mut k: usize = from;
    let ghost first = prev;
    while k < to
        invariant
            from <= k <= to,
            to <= seg@.len(),
            v.link() == old(v).link().add_ring(seq![first] + seg@.subrange(from as int, k as int)),
            prev == (seq![first] + seg@.subrange(from as int, k as int)).last(),
            link_sound(*v),
            same_but_link(*old(v), *v),
        decreases to - k,
    {
        let cur: usize = seg[k];
        proof {
            let ring = seq![first] + seg@.subrange(from as int, k as int);
            assert(ring.push(cur) == seq![first] + seg@.subrange(from as int, k + 1));
            lemma_add_ring_push(old(v).link(), ring, cur);
        }
        if prev != cur {
            v.add_couple_neigh(prev, cur);
        }
        prev = cur;
        k = k + 1;
    }
    prev
}

/// Looks at a face from its side `s1`: the corner `s1[0]` and the points
/// set on `s1` get the rings of neighbours that the face gives them.
pub fn expand_chain(verts: &mut Vec<Vertex>, s1: &Vec<usize>, s2: &Vec<usize>, s3: &Vec<usize>)
    requires
        s1@.len() >= 2,
        s2@.len() >= 2,
        s3@.len() >= 2,
        forall|i: int| 0 <= i < s1@.len() ==> (#[trigger] s1@[i]) < old(verts)@.len(),
        forall|i: int| 0 <= i < old(verts)@.len() ==> link_sound(#[trigger] old(verts)@[i]),
    ensures
        final(verts)@.len() == old(verts)@.len(),
        links_of(final(verts)@) == links_after_chain(
            links_of(old(verts)@),
            s1@,
            s2@,
            s3@,
            s1@.len() - 1,
        ),
        forall|i: int| 0 <= i < old(verts)@.len() ==> link_sound(#[trigger] final(verts)@[i]),
        forall|i: int|
            0 <= i < old(verts)@.len()
                ==> same_but_link(old(verts)@[i], #[trigger] final(verts)@[i]),
{
    let mut k: usize = 0;
    while k < s1.len() - 1
        invariant
            k <= s1@.len() - 1,
            s1@.len() >= 2,
            s2@.len() >= 2,
            s3@.len() >= 2,
            verts@.len() == old(verts)@.len(),
            forall|i: int| 0 <= i < s1@.len() ==> (#[trigger] s1@[i]) < verts@.len(),
            links_of(verts@) == links_after_chain(links_of(old(verts)@), s1@, s2@, s3@, k as int),
            forall|i: int| 0 <= i < verts@.len() ==> link_sound(#[trigger] verts@[i]),
            forall|i: int|
                0 <= i < verts@.len() ==> same_but_link(old(verts)@[i], #[trigger] verts@[i]),
        decreases s1@.len() - 1 - k,
    {
        let node: usize = s1[k];
        let ghost before = verts@;
        let ghost l0 = before[node as int].link();
        if k == 0 {
            let first_seen: usize = s1[1];
            let second_seen: usize = walk_ring(&mut verts[node], first_seen, s2, 1, s2.len() - 1);
            let ghost r1 = seq![first_seen] + s2@.subrange(1, s2@.len() - 1);
            walk_ring(&mut verts[node], second_seen, s3, s3.len() - 2, s3.len() - 1);
            proof {
                let r2 = s3@.subrange(s3@.len() - 2, s3@.len() - 1);
                lemma_add_ring_concat(l0, r1, r2);
                assert(r2 == seq![s3@[s3@.len() - 2]]);
                assert(r1 + r2 == corner_ring(s1@, s2@, s3@));
            }
        } else {
            let first_seen: usize = s1[k + 1];
            let second_seen: usize = walk_ring(&mut verts[node], first_seen, s2, 1, s2.len());
            let ghost r1 = seq![first_seen] + s2@.subrange(1, s2@.len() as int);
            let third_seen: usize = walk_ring(&mut verts[node], second_seen, s3, 1, s3.len() - 1);
            let ghost r2 = s3@.subrange(1, s3@.len() - 1);
            walk_ring(&mut verts[node], third_seen, s1, k - 1, k);
            proof {
                let r3 = s1@.subrange(k - 1, k as int);
                lemma_add_ring_concat(l0, r1, r2);
                lemma_add_ring_concat(l0, r1 + r2, r3);
                assert(r3 == seq![s1@[k - 1]]);
                assert(r1 + r2 + r3 == interior_ring(s1@, s2@, s3@, k as int));
            }
        }
        proof {
            let ring = ring_at(s1@, s2@, s3@, k as int);
            assert(verts@[node as int].link() == l0.add_ring(ring));
            assert forall|i: int| 0 <= i < verts@.len() && i != node implies verts@[i]
                == before[i] by {}
            assert(links_of(verts@) =~= links_with_ring(links_of(before), node as int, ring));
        }
        k = k + 1;
    }
}


/// The chains as sequences.
pub open spec fn chain_views(chains: Seq<Vec<usize>>) -> Seq<Seq<usize>> {
    Seq::new(chains.len(), |e: int| chains[e]@)
}

/// The chains of all edges of the skeleton.
pub open spec fn chains_of(skel: &Skeleton, dist_max: u64, subdiv_max: usize) -> Seq<Seq<usize>> {
    Seq::new(skel.edges@.len(), |e: int| chain_of(skel, e, dist_max, subdiv_max))
}

/// Every edge has its chain; a chain has two nodes at least, and holds
/// nodes of the graph.
pub open spec fn chains_fit(chains: Seq<Seq<usize>>, n_edges: int, n_nodes: int) -> bool {
    &&& chains.len() == n_edges
    &&& forall|e: int| 0 <= e < chains.len() ==> (#[trigger] chains[e]).len() >= 2
    &&& forall|e: int, j: int|
        0 <= e < chains.len() && 0 <= j < chains[e].len() ==> (#[trigger] chains[e][j]) < n_nodes
}

/// A copy of the chain that starts at node `from`: the chain itself where
/// it starts there, the chain backwards where it does not.
fn orient(chain: &Vec<usize>, from: usize) -> (r: Vec<usize>)
    requires
        chain@.len() >= 1,
    ensures
        r@ == oriented(chain@, from),
{
    let mut r: Vec<usize> = Vec::new();
    let n: usize = chain.len();
    let forward: bool = chain[0] == from;
    let mut k: usize = 0;
    while k < n
        invariant
            k <= n,
            n == chain@.len(),
            r@.len() == k,
            forall|q: int|
                0 <= q < k ==> r@[q] == if forward {
                    chain@[q]
                } else {
                    chain@[n - 1 - q]
                },
        decreases n - k,
    {
        if forward {
            r.push(chain[k]);
        } else {
            r.push(chain[n - 1 - k]);
        }
        k = k + 1;
    }
    proof {
        if forward {
            assert(r@ =~= chain@);
        } else {
            assert(r@ =~= chain@.reverse());
        }
    }
    r
}

/// Turning a chain keeps its length and its nodes.
pub proof fn lemma_oriented(chain: Seq<usize>, from: usize, bound: int)
    requires
        forall|j: int| 0 <= j < chain.len() ==> (#[trigger] chain[j]) < bound,
    ensures
        oriented(chain, from).len() == chain.len(),
        forall|j: int|
            0 <= j < chain.len() ==> (#[trigger] oriented(chain, from)[j]) < bound,
{
    let o = oriented(chain, from);
    assert forall|j: int| 0 <= j < chain.len() implies (#[trigger] o[j]) < bound by {
        if chain[0] != from {
            assert(o[j] == chain[chain.len() - 1 - j]);
        }
    }
}

impl<'a> ETGraph<'a> {
    /// Looks at every face of the skeleton and gives each node on it the
    /// ring of neighbours that the face lets it see.
    pub fn build_subdiv_faces(&mut self, subdivs_ind: Vec<Vec<usize>>)
        requires
            old(self).skel.faces_wf(),
            chains_fit(
                chain_views(subdivs_ind@),
                old(self).skel.edges@.len() as int,
                old(self).vert@.len() as int,
            ),
            forall|i: int| 0 <= i < old(self).vert@.len()
                ==> link_sound(#[trigger] old(self).vert@[i]),
        ensures
            final(self).skel == old(self).skel,
            final(self).vert@.len() == old(self).vert@.len(),
            links_of(final(self).vert@) == links_after_faces(
                links_of(old(self).vert@),
                final(self).skel,
                chain_views(subdivs_ind@),
                final(self).skel.face_edges@.len() as int,
            ),
            forall|i: int|
                0 <= i < old(self).vert@.len() ==> link_sound(#[trigger] final(self).vert@[i]),
            forall|i: int|
                0 <= i < old(self).vert@.len() ==> same_but_link(
                    old(self).vert@[i],
                    #[trigger] final(self).vert@[i],
                ),
    {
        let nb_faces: usize = self.skel.get_faces().len();
        let ghost chains = chain_views(subdivs_ind@);
        let mut f: usize = 0;
        while f < nb_faces
            invariant
                f <= nb_faces,
                nb_faces == self.skel.face_edges@.len(),
                self.skel == old(self).skel,
                self.skel.faces_wf(),
                chains == chain_views(subdivs_ind@),
                chains_fit(chains, self.skel.edges@.len() as int, self.vert@.len() as int),
                self.vert@.len() == old(self).vert@.len(),
                links_of(self.vert@) == links_after_faces(
                    links_of(old(self).vert@),
                    self.skel,
                    chains,
                    f as int,
                ),
                forall|i: int| 0 <= i < self.vert@.len() ==> link_sound(#[trigger] self.vert@[i]),
                forall|i: int|
                    0 <= i < self.vert@.len() ==> same_but_link(
                        old(self).vert@[i],
                        #[trigger] self.vert@[i],
                    ),
            decreases nb_faces - f,
        {
            assert(self.skel.face_wf(f as int));
            let e0: usize = self.skel.face_edges[f][0];
            let e1: usize = self.skel.face_edges[f][1];
            let e2: usize = self.skel.face_edges[f][2];
            let c0: usize = self.skel.face_vertices[f][0];
            let c1: usize = self.skel.face_vertices[f][1];
            let c2: usize = self.skel.face_vertices[f][2];
            assert(chains[e0 as int] == subdivs_ind@[e0 as int]@);
            assert(chains[e1 as int] == subdivs_ind@[e1 as int]@);
            assert(chains[e2 as int] == subdivs_ind@[e2 as int]@);
            let s1: Vec<usize> = orient(&subdivs_ind[e0], c0);
            let s2: Vec<usize> = orient(&subdivs_ind[e1], c1);
            let s3: Vec<usize> = orient(&subdivs_ind[e2], c2);
            proof {
                lemma_oriented(chains[e0 as int], c0, self.vert@.len() as int);
                lemma_oriented(chains[e1 as int], c1, self.vert@.len() as int);
                lemma_oriented(chains[e2 as int], c2, self.vert@.len() as int);
            }
            expand_chain(&mut self.vert, &s1, &s2, &s3);
            expand_chain(&mut self.vert, &s2, &s3, &s1);
            expand_chain(&mut self.vert, &s3, &s1, &s2);
            f = f + 1;
        }
    }

    /// Splits the link of every node into sectors.
    pub fn build_sectors(&mut self)
        requires
            forall|i: int|
                0 <= i < old(self).vert@.len() ==> link_sound(#[trigger] old(self).vert@[i])
                    && old(self).vert@[i].edge_sector@.len() == 0
                    && old(self).vert@[i].sector@.len() == 0,
        ensures
            final(self).skel == old(self).skel,
            final(self).vert@.len() == old(self).vert@.len(),
            forall|i: int|
                0 <= i < old(self).vert@.len() ==> split_from(
                    old(self).vert@[i],
                    #[trigger] final(self).vert@[i],
                ),
    {
        let n: usize = self.vert.len();
        let mut i: usize = 0;
        while i < n
            invariant
                i <= n,
                n == self.vert@.len(),
                n == old(self).vert@.len(),
                self.skel == old(self).skel,
                forall|i2: int| i <= i2 < n ==> self.vert@[i2] == old(self).vert@[i2],
                forall|i2: int|
                    0 <= i2 < n ==> link_sound(#[trigger] old(self).vert@[i2])
                        && old(self).vert@[i2].edge_sector@.len() == 0
                        && old(self).vert@[i2].sector@.len() == 0,
                forall|i2: int|
                    0 <= i2 < i ==> split_from(old(self).vert@[i2], #[trigger] self.vert@[i2]),
            decreases n - i,
        {
            let ghost before = self.vert@;
            assert(link_sound(old(self).vert@[i as int]));
            self.vert[i].compute_sectors();
            proof {
                assert forall|i2: int| 0 <= i2 < i + 1 implies split_from(
                    old(self).vert@[i2],
                    #[trigger] self.vert@[i2],
                ) by {
                    if i2 < i {
                        assert(self.vert@[i2] == before[i2]);
                    }
                }
            }
            i = i + 1;
        }
    }
}

/// Node `after` is node `before` split into sectors: the same place, radius
/// and neighbours, adjacency lists that hold what they held (sorted, each
/// place once), and the sectors of that link.
pub open spec fn split_from(before: Vertex, after: Vertex) -> bool {
    &&& after.decomposed()
    &&& after.neigh == before.neigh
    &&& after.neigh_adj@.len() == before.neigh_adj@.len()
    &&& forall|p: int, x: usize|
        0 <= p < before.neigh_adj@.len() ==> (after.neigh_adj@[p]@.contains(x)
            <==> before.neigh_adj@[p]@.contains(x))
    &&& after.pos == before.pos
    &&& after.rad == before.rad
    &&& after.time == before.time
    &&& after.burned == before.burned
    &&& after.prime_sector == before.prime_sector
}


/// The links of `count` nodes without neighbours.
pub open spec fn no_links(count: nat) -> Seq<Link> {
    Seq::new(count, |i: int| Link::empty())
}

/// What the faces of the skeleton let the nodes see: the link of every
/// node after all faces were looked at.
pub open spec fn face_links(skel: &Skeleton, count: nat, dist_max: u64, subdiv_max: usize) -> Seq<
    Link,
> {
    links_after_faces(
        no_links(count),
        skel,
        chains_of(skel, dist_max, subdiv_max),
        skel.face_edges@.len() as int,
    )
}

/// Node `v` carries the link `l`, with sorted adjacency lists that hold
/// each place once.
pub open spec fn carries_link(v: Vertex, l: Link) -> bool {
    &&& v.neigh@ == l.neigh
    &&& v.neigh_adj@.len() == l.adj.len()
    &&& forall|p: int, x: usize|
        0 <= p < l.adj.len() ==> (v.neigh_adj@[p]@.contains(x) <==> l.adj[p].contains(x))
}

/// The fire has not touched the node.
pub open spec fn untouched(v: Vertex) -> bool {
    &&& v.time == BurnTime::Infinity
    &&& !v.burned
    &&& v.prime_sector is None
    &&& forall|s: int|
        0 <= s < v.sector@.len() ==> !(#[trigger] v.sector@[s]).burned && v.sector@[s].time
            == BurnTime::Infinity && v.sector@[s].prime_arc is None
}

/// Node `i` hangs together with its neighbours as the burning needs it: the
/// node is usable, its neighbours are nodes of the graph, and each of them
/// has the node among its own neighbours.
pub open spec fn node_ready(verts: Seq<Vertex>, i: int) -> bool {
    &&& verts[i].usable()
    &&& forall|p: int|
        0 <= p < verts[i].neigh@.len() ==> (#[trigger] verts[i].neigh@[p]) < verts.len()
            && verts[verts[i].neigh@[p] as int].neigh@.contains(i as usize)
}

/// `verts` are the nodes of the burn graph of the skeleton for the given
/// limits: the nodes lie where the cutting of the edges puts them, every node
/// carries the link that the faces give it and is split into sectors, and the
/// fire has touched nothing.
pub open spec fn is_burn_graph(
    skel: &Skeleton,
    verts: Seq<Vertex>,
    dist_max: u64,
    subdiv_max: usize,
) -> bool {
    &&& nodes_placed(skel, verts, skel.edges@.len() as int, dist_max, subdiv_max)
    &&& forall|i: int|
        0 <= i < verts.len() ==> (#[trigger] verts[i]).decomposed() && untouched(verts[i])
            && carries_link(verts[i], face_links(skel, verts.len(), dist_max, subdiv_max)[i])
}

/// Every node hangs together with its neighbours.
pub open spec fn all_ready(verts: Seq<Vertex>) -> bool {
    forall|i: int| 0 <= i < verts.len() ==> #[trigger] node_ready(verts, i)
}

impl<'a> ETGraph<'a> {
    /// The graph is the burn graph of its skeleton for the given limits.
    pub open spec fn built(&self, dist_max: u64, subdiv_max: usize) -> bool {
        is_burn_graph(self.skel, self.vert@, dist_max, subdiv_max)
    }

    /// Every node hangs together with its neighbours.
    pub open spec fn ready(&self) -> bool {
        all_ready(self.vert@)
    }

    /// Builds the burn graph of a skeleton. An edge longer than `dist_max`
    /// is cut into equal pieces, into `subdiv_max` at most.
    pub fn new(skel: &'a Skeleton, dist_max: u64, subdiv_max: usize) -> (g: ETGraph<'a>)
        requires
            skel.wf(),
        ensures
            g.skel == skel,
            g.built(dist_max, subdiv_max),
    {
        let mut etgraph = ETGraph { skel, vert: Vec::new() };
        let subdiv_inds: Vec<Vec<usize>> = etgraph.build_subdiv_vertices(dist_max, subdiv_max);
        let ghost v0 = etgraph.vert@;
        let ghost chains = chains_of(skel, dist_max, subdiv_max);
        proof {
            let n_edges = skel.edges@.len() as int;
            assert(chain_views(subdiv_inds@) =~= chains);
            assert forall|e: int, j: int| 0 <= e < chains.len()
                && 0 <= j < chains[e].len() implies (
            #[trigger] chains[e][j]) < v0.len() by {
                lemma_interior_before_monotone(skel, e + 1, n_edges, dist_max, subdiv_max);
            }
            assert forall|i: int| 0 <= i < v0.len() implies link_sound(#[trigger] v0[i]) by {
                assert(v0[i].blank());
                assert(v0[i].link().adj =~= Link::empty().adj);
            }
            assert(links_of(v0) =~= no_links(v0.len())) by {
                assert forall|i: int| 0 <= i < v0.len() implies links_of(v0)[i]
                    == Link::empty() by {
                    assert(v0[i].blank());
                    assert(v0[i].link().adj =~= Link::empty().adj);
                    assert(v0[i].link().neigh =~= Link::empty().neigh);
                }
            }
        }
        etgraph.build_subdiv_faces(subdiv_inds);
        let ghost v1 = etgraph.vert@;
        proof {
            assert forall|i: int| 0 <= i < v1.len() implies link_sound(#[trigger] v1[i])
                && v1[i].edge_sector@.len() == 0 && v1[i].sector@.len() == 0 by {
                assert(same_but_link(v0[i], v1[i]));
                assert(v0[i].blank());
            }
        }
        etgraph.build_sectors();
        proof {
            let v2 = etgraph.vert@;
            let links = face_links(skel, v2.len(), dist_max, subdiv_max);
            assert(links == links_of(v1));
            assert forall|i: int| 0 <= i < v2.len() implies (#[trigger] v2[i]).decomposed()
                && untouched(v2[i]) && carries_link(v2[i], links[i]) by {
                assert(split_from(v1[i], v2[i]));
                assert(same_but_link(v0[i], v1[i]));
                assert(v0[i].blank());
                assert(links[i] == v1[i].link());
                assert forall|s: int| 0 <= s < v2[i].sector@.len() implies !(
                #[trigger] v2[i].sector@[s]).burned && v2[i].sector@[s].time == BurnTime::Infinity
                    && v2[i].sector@[s].prime_arc is None by {
                    assert(super::vertex::sector_reified(
                        v2[i].neigh_adj@,
                        v2[i].edge_sector@,
                        v2[i].sector@[s],
                        s,
                    ));
                }
            }
            let n = skel.vertex_coords@.len() as int;
            let n_edges = skel.edges@.len() as int;
            assert(nodes_placed(skel, v2, n_edges, dist_max, subdiv_max)) by {
                assert forall|i: int| 0 <= i < n implies (#[trigger] v2[i]).pos
                    == skel.vertex_coords@[i] && v2[i].rad == skel.vertex_radius@[i] by {
                    assert(split_from(v1[i], v2[i]));
                    assert(same_but_link(v0[i], v1[i]));
                }
                assert forall|e: int, j: int|
                    0 <= e < n_edges && 1 <= j <= edge_interior(
                        skel,
                        e,
                        dist_max,
                        subdiv_max,
                    ) implies {
                    let a = skel.edges@[e][0] as int;
                    let b = skel.edges@[e][1] as int;
                    let pieces = edge_pieces(skel, e, dist_max, subdiv_max);
                    let node = #[trigger] v2[interior_node(skel, e, j, dist_max, subdiv_max)];
                    &&& node.pos == lerp_point(
                        skel.vertex_coords@[a],
                        skel.vertex_coords@[b],
                        j as nat,
                        pieces,
                    )
                    &&& node.rad == lerp_radius(
                        skel.vertex_radius@[a] as int,
                        skel.vertex_radius@[b] as int,
                        j as nat,
                        pieces,
                    )
                } by {
                    let x = interior_node(skel, e, j, dist_max, subdiv_max);
                    lemma_interior_before_monotone(skel, e + 1, n_edges, dist_max, subdiv_max);
                    assert(split_from(v1[x], v2[x]));
                    assert(same_but_link(v0[x], v1[x]));
                }
            }
        }
        etgraph
    }

    /// Tests whether every node hangs together with its neighbours, as the
    /// burning needs it.
    pub fn check_neighbors(&self) -> (b: bool)
        ensures
            b == self.ready(),
    {
        let n: usize = self.vert.len();
        let mut i: usize = 0;
        while i < n
            invariant
                i <= n,
                n == self.vert@.len(),
                forall|i2: int| 0 <= i2 < i ==> #[trigger] node_ready(self.vert@, i2),
            decreases n - i,
        {
            if !self.vert[i].check_usable() {
                assert(!node_ready(self.vert@, i as int));
                return false;
            }
            let mut p: usize = 0;
            while p < self.vert[i].neigh.len()
                invariant
                    i < n,
                    n == self.vert@.len(),
                    p <= self.vert@[i as int].neigh@.len(),
                    forall|earlier: int|
                        0 <= earlier < p ==> (#[trigger] self.vert@[i as int].neigh@[earlier])
                            < self.vert@.len()
                                && self.vert@[self.vert@[i as int].neigh@[earlier] as int].neigh@.contains(
                            i as usize,
                        ),
                decreases self.vert@[i as int].neigh@.len() - p,
            {
                let u: usize = self.vert[i].neigh[p];
                if u >= n {
                    assert(!node_ready(self.vert@, i as int));
                    return false;
                }
                if self.vert[u].get_num_neigh(i).is_none() {
                    assert(!node_ready(self.vert@, i as int));
                    return false;
                }
                p = p + 1;
            }
            assert(node_ready(self.vert@, i as int));
            i = i + 1;
        }
        true
    }
}

/// In a burn graph the link of every node is symmetric: where the
/// adjacency list of the neighbour at place `i` of node `n` holds the place
/// `j`, the adjacency list of the neighbour at place `j` holds the place `i`.
pub proof fn lemma_graph_links_symmetric(
    skel: &Skeleton,
    verts: Seq<Vertex>,
    dist_max: u64,
    subdiv_max: usize,
    n: int,
    i: int,
    j: usize,
)
    requires
        is_burn_graph(skel, verts, dist_max, subdiv_max),
        0 <= n < verts.len(),
        0 <= i < verts[n].neigh@.len(),
        verts[n].neigh_adj@[i]@.contains(j),
    ensures
        j < verts[n].neigh@.len(),
        verts[n].neigh_adj@[j as int]@.contains(i as usize),
{
    assert(verts[n].decomposed());
    super::vertex::lemma_link_symmetric(verts[n], i, j);
}

} // verus!
