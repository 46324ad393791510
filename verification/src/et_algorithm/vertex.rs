//! A node of the burn graph: its place and radius, its link graph, the
//! sectors of that link, and how far the fire has come.

use vstd::prelude::*;
use std::collections::HashSet;
use super::burntime::BurnTime;
use super::exposure::{closed_under, exposed_by, lemma_spread_closed, lemma_spread_least, opens, spread};
use super::link::{Link, lemma_add_couple_wf, lemma_place, lemma_place_is};
use super::sector::Sector;
use crate::geometry::Point3;
use crate::sequences::{
    first_position, is_first_position, lemma_occurrences_contains, occurrences, sort_dedup,
    strictly_increasing,
};

verus! {

broadcast use vstd::std_specs::hash::group_hash_axioms;

/// How long a node withstands the fire beyond its own radius.
#[derive(Clone, Copy, Debug, PartialEq, Eq, Structural)]
pub enum ErosionThickness {
    Infinity,
    ET(i128),
}

/// A node of the burn graph. `neigh` holds indices of nodes; `neigh_adj`
/// and `edge_sector` run parallel to it and hold, for each neighbour, the
/// places of the neighbours next to it in the link, and the sector of each
/// such link edge. A radius below zero stands for an unknown radius.
#[derive(Clone)]
pub struct Vertex {
    pub pos: Point3,
    pub rad: i32,
    pub neigh: Vec<usize>,
    pub neigh_adj: Vec<Vec<usize>>,
    pub edge_sector: Vec<Vec<Option<usize>>>,
    pub time: BurnTime,
    pub burned: bool,
    pub boundary: bool,
    pub prime_sector: Option<usize>,
    pub sector: Vec<Sector>,
}

impl Vertex {
    /// The link graph of the node.
    pub open spec fn link(&self) -> Link {
        Link {
            neigh: self.neigh@,
            adj: Seq::new(self.neigh_adj@.len(), |i: int| self.neigh_adj@[i]@),
        }
    }

    /// Whether the fire starts at this node: its radius is known.
    pub open spec fn is_seed(&self) -> bool {
        self.rad >= 0
    }

    /// The prime sector and its prime arc point at a sector, a place in its
    /// arc and a neighbour that exist.
    pub open spec fn prime_in_range(&self) -> bool {
        match self.prime_sector {
            Some(sec) => sec < self.sector@.len() && match self.sector@[sec as int].prime_arc {
                Some(arc) => arc < self.sector@[sec as int].arc@.len()
                    && self.sector@[sec as int].arc@[arc as int]
                    < self.neigh@.len(),
                None => true,
            },
            None => true,
        }
    }

    /// The node from which the fire reached this node: the neighbour at the
    /// prime arc of the prime sector.
    pub open spec fn predecessor(&self) -> Option<usize> {
        match self.prime_sector {
            Some(sec) => match self.sector@[sec as int].prime_arc {
                Some(arc) => Some(self.neigh@[self.sector@[sec as int].arc@[arc as int] as int]),
                None => None,
            },
            None => None,
        }
    }

    /// The node has no neighbours and no sectors, and the fire has not
    /// reached it.
    pub open spec fn blank(&self) -> bool {
        &&& self.neigh@.len() == 0
        &&& self.neigh_adj@.len() == 0
        &&& self.edge_sector@.len() == 0
        &&& self.time == BurnTime::Infinity
        &&& !self.burned
        &&& !self.boundary
        &&& self.prime_sector is None
        &&& self.sector@.len() == 0
    }

    /// A node without neighbours, not reached by the fire.
    pub fn new(pos: Point3, rad: i32) -> (v: Vertex)
        ensures
            v.blank(),
            v.pos == pos,
            v.rad == rad,
            v.neigh@.len() == 0,
            v.neigh_adj@.len() == 0,
            v.edge_sector@.len() == 0,
            v.time == BurnTime::Infinity,
            !v.burned,
            !v.boundary,
            v.prime_sector is None,
            v.sector@.len() == 0,
            v.link() == Link::empty(),
    {
        let v = Vertex {
            pos,
            rad,
            neigh: Vec::new(),
            neigh_adj: Vec::new(),
            edge_sector: Vec::new(),
            time: BurnTime::Infinity,
            burned: false,
            boundary: false,
            prime_sector: None,
            sector: Vec::new(),
        };
        assert(v.link().adj =~= Link::empty().adj);
        v
    }

    /// The place of the node.
    pub fn pos(&self) -> (p: Point3)
        ensures
            p == self.pos,
    {
        self.pos
    }

    /// The radius of the node; below zero where it is not known.
    pub fn rad(&self) -> (r: i32)
        ensures
            r == self.rad,
    {
        self.rad
    }

    /// When the fire reached the node.
    pub fn time(&self) -> (t: &BurnTime)
        ensures
            *t == self.time,
    {
        &self.time
    }

    /// Erosion thickness of the node: its burn time less its radius.
    pub fn erosion_thickness(&self) -> (et: ErosionThickness)
        requires
            self.time matches BurnTime::Time(t) ==> t <= i128::MAX + self.rad,
        ensures
            et == match self.time {
                BurnTime::Infinity => ErosionThickness::Infinity,
                BurnTime::Time(t) => ErosionThickness::ET((t - self.rad) as i128),
            },
    {
        match self.time {
            BurnTime::Infinity => ErosionThickness::Infinity,
            BurnTime::Time(t) => {
                if self.rad >= 0 {
                    if t <= i128::MAX as u128 {
                        ErosionThickness::ET(t as i128 - self.rad as i128)
                    } else {
                        let over: u128 = t - i128::MAX as u128;
                        ErosionThickness::ET(i128::MAX - (self.rad as i128 - over as i128))
                    }
                } else {
                    let up: u128 = (-(self.rad as i64)) as u128;
                    ErosionThickness::ET((t + up) as i128)
                }
            },
        }
    }

    /// Marks the node as burned.
    pub fn burn(&mut self)
        ensures
            *final(self) == (Vertex { burned: true, ..*old(self) }),
    {
        self.burned = true
    }

    /// The sector for which the node waits.
    pub fn prime_sector(&self) -> (p: &Option<usize>)
        ensures
            *p == self.prime_sector,
    {
        &self.prime_sector
    }

    /// The neighbour from which the fire came, where it is known.
    pub fn prime_neighbor(&self) -> (p: Option<usize>)
        requires
            self.prime_in_range(),
        ensures
            p == self.predecessor(),
    {
        if let Some(sec) = self.prime_sector {
            if let Some(arc) = *self.sector[sec].prime_arc() {
                let num_neigh: usize = self.sector[sec].arc()[arc];
                Some(self.neigh[num_neigh])
            } else {
                None
            }
        } else {
            None
        }
    }

    /// Lets the node wait for sector `sec`.
    pub fn set_prime_sector(&mut self, sec: usize)
        ensures
            *final(self) == (Vertex { prime_sector: Some(sec), ..*old(self) }),
    {
        self.prime_sector = Some(sec);
    }

    /// Lets the node wait for no sector.
    pub fn reset_prime_sector(&mut self)
        ensures
            *final(self) == (Vertex { prime_sector: None, ..*old(self) }),
    {
        self.prime_sector = None;
    }

    /// Sets the time at which the fire reached the node.
    pub fn set_time(&mut self, time: u128)
        ensures
            *final(self) == (Vertex { time: BurnTime::Time(time), ..*old(self) }),
    {
        self.time = BurnTime::Time(time);
    }

    /// Takes the time from the node.
    pub fn reset_time(&mut self)
        ensures
            *final(self) == (Vertex { time: BurnTime::Infinity, ..*old(self) }),
    {
        self.time = BurnTime::Infinity;
    }

    /// Whether the node is burned.
    pub fn is_burned(&self) -> (b: bool)
        ensures
            b == self.burned,
    {
        self.burned
    }

    /// Whether the node lies on the boundary: its link has a link node of
    /// degree 1 and none of a degree above 2.
    pub fn is_boundary(&self) -> (b: bool)
        ensures
            b == self.boundary,
    {
        self.boundary
    }

    /// The sectors of the node.
    pub fn sectors(&mut self) -> (s: &mut Vec<Sector>)
        ensures
            *s == old(self).sector,
            *final(self) == (Vertex { sector: *final(s), ..*old(self) }),
    {
        &mut self.sector
    }

    /// The neighbours of the node.
    pub fn neigh(&self) -> (n: &Vec<usize>)
        ensures
            *n == self.neigh,
    {
        &self.neigh
    }

    /// Place of node `ind_vert` in the neighbour list.
    pub fn get_num_neigh(&self, ind_vert: usize) -> (pos: Option<usize>)
        ensures
            is_first_position(self.neigh@, ind_vert, pos),
    {
        first_position(&self.neigh, ind_vert)
    }

    /// Records that the nodes `ind_vert1` and `ind_vert2` lie on a common
    /// face with this node: both become neighbours, and each one's
    /// adjacency list gets the other's place.
    pub fn add_couple_neigh(&mut self, ind_vert1: usize, ind_vert2: usize)
        requires
            old(self).neigh_adj@.len() == old(self).neigh@.len(),
        ensures
            final(self).link() == old(self).link().add_couple(ind_vert1, ind_vert2),
            old(self).link().wf() ==> final(self).link().wf(),
            old(self).link().wf() && old(self).link().simple() && ind_vert1 != ind_vert2
                ==> final(self).link().simple(),
            final(self).pos == old(self).pos,
            final(self).rad == old(self).rad,
            final(self).edge_sector == old(self).edge_sector,
            final(self).time == old(self).time,
            final(self).burned == old(self).burned,
            final(self).boundary == old(self).boundary,
            final(self).prime_sector == old(self).prime_sector,
            final(self).sector == old(self).sector,
    {
        let ghost l0 = self.link();
        let ghost l1 = l0.with_neigh(ind_vert1);
        let ghost l2 = l1.with_neigh(ind_vert2);
        proof {
            lemma_place(l0, ind_vert1);
        }
        let ind1: usize = match first_position(&self.neigh, ind_vert1) {
            Some(ind) => {
                proof {
                    lemma_place_is(l0, ind_vert1, ind as int);
                }
                ind
            },
            None => {
                self.neigh.push(ind_vert1);
                self.neigh_adj.push(Vec::new());
                proof {
                    lemma_place_is(l1, ind_vert1, l0.neigh.len() as int);
                }
                self.neigh.len() - 1
            },
        };
        assert(self.link().neigh == l1.neigh);
        assert(self.link().adj =~= l1.adj);
        assert(ind1 == l1.place(ind_vert1));
        proof {
            lemma_place(l1, ind_vert2);
        }
        let ind2: usize = match first_position(&self.neigh, ind_vert2) {
            Some(ind) => {
                proof {
                    lemma_place_is(l1, ind_vert2, ind as int);
                }
                ind
            },
            None => {
                self.neigh.push(ind_vert2);
                self.neigh_adj.push(Vec::new());
                proof {
                    lemma_place_is(l2, ind_vert2, l1.neigh.len() as int);
                }
                self.neigh.len() - 1
            },
        };
        assert(self.link().neigh == l2.neigh);
        assert(self.link().adj =~= l2.adj);
        assert(ind2 == l2.place(ind_vert2));
        proof {
            // the place of the first neighbour did not move
            assert(l2.neigh[ind1 as int] == ind_vert1);
            assert forall|j: int| 0 <= j < ind1 implies l2.neigh[j] != ind_vert1 by {
                assert(l2.neigh[j] == l1.neigh[j]);
                lemma_place(l1, ind_vert1);
            }
            lemma_place_is(l2, ind_vert1, ind1 as int);
        }
        self.neigh_adj[ind1].push(ind2);
        self.neigh_adj[ind2].push(ind1);
        proof {
            let r = l0.add_couple(ind_vert1, ind_vert2);
            assert(self.link().neigh == r.neigh);
            assert(self.link().adj =~= r.adj);
            if l0.wf() {
                lemma_add_couple_wf(l0, ind_vert1, ind_vert2);
            }
        }
    }
}


/// Weight of a label list in the measure of the labelling walk: 1 for the
/// list of a link node of degree 2 that has no label yet.
pub open spec fn waiting(v: Vec<Option<usize>>) -> nat {
    if v@.len() == 2 && v@[0] is None {
        1
    } else {
        0
    }
}

/// `waiting` as a value.
pub open spec fn waiting_fn() -> spec_fn(Vec<Option<usize>>) -> nat {
    |v: Vec<Option<usize>>| waiting(v)
}

/// Whether `k` is a place in the adjacency list of link node `i`.
pub open spec fn slot(adj: Seq<Vec<usize>>, i: int, k: int) -> bool {
    0 <= i < adj.len() && 0 <= k < adj[i]@.len()
}

/// The link node at place `k` of the adjacency list of link node `i`.
pub open spec fn nb(adj: Seq<Vec<usize>>, i: int, k: int) -> int {
    adj[i]@[k] as int
}

/// The sector label of the link edge at place `k` of link node `i`.
pub open spec fn lab(labels: Seq<Vec<Option<usize>>>, i: int, k: int) -> Option<usize> {
    labels[i]@[k]
}

/// The adjacency lists are ready to be split into sectors: they are sorted
/// and hold no place twice, a list holds places of other link nodes only, and
/// a link node that lists another is listed by it.
pub open spec fn adj_ready(adj: Seq<Vec<usize>>) -> bool {
    &&& adj.len() <= usize::MAX
    &&& forall|i: int, k: int|
        slot(adj, i, k) ==> 0 <= #[trigger] nb(adj, i, k) < adj.len() && nb(adj, i, k) != i
            && adj[nb(adj, i, k)]@.contains(i as usize)
    &&& forall|i: int| 0 <= i < adj.len() ==> strictly_increasing(#[trigger] adj[i]@)
}

/// Every link edge has a place for its label.
pub open spec fn labels_shaped(adj: Seq<Vec<usize>>, labels: Seq<Vec<Option<usize>>>) -> bool {
    &&& labels.len() == adj.len()
    &&& forall|i: int| 0 <= i < adj.len() ==> (#[trigger] labels[i])@.len() == adj[i]@.len()
}

/// The labels given so far fit together: each is below `num`; the two ends
/// of a link edge carry the same label, except on the edge between the link
/// nodes `p` and `c`; and the two edges of a link node of degree 2 carry the
/// same label.
pub open spec fn labels_agree(
    adj: Seq<Vec<usize>>,
    labels: Seq<Vec<Option<usize>>>,
    num: int,
    p: int,
    c: int,
) -> bool {
    &&& forall|i: int, k: int|
        slot(adj, i, k) ==> (#[trigger] lab(labels, i, k) matches Some(s) ==> s < num)
    &&& forall|i: int, k: int, j: int, k2: int|
        slot(adj, i, k) && slot(adj, j, k2) && nb(adj, i, k) == j && nb(adj, j, k2) == i && !(i == p
            && j == c) && !(i == c && j == p) ==> #[trigger] lab(labels, i, k) == #[trigger] lab(
            labels,
            j,
            k2,
        )
    &&& forall|i: int|
        0 <= i < adj.len() && adj[i]@.len() == 2 ==> #[trigger] lab(labels, i, 0) == lab(
            labels,
            i,
            1,
        )
}

/// Measure of the labelling walk: the link nodes of degree 2 without a
/// label.
pub open spec fn waiting_count(labels: Seq<Vec<Option<usize>>>) -> nat {
    crate::sequences::sum_by(labels, waiting_fn())
}

/// In ready lists the place of a link node in a list is unique.
pub proof fn lemma_slot_unique(adj: Seq<Vec<usize>>, i: int, k: int, k2: int)
    requires
        adj_ready(adj),
        slot(adj, i, k),
        slot(adj, i, k2),
        nb(adj, i, k) == nb(adj, i, k2),
    ensures
        k == k2,
{
    let a = adj[i]@;
    assert(strictly_increasing(a));
    if k < k2 {
        assert(a[k] < a[k2]);
    }
    if k2 < k {
        assert(a[k2] < a[k]);
    }
}

/// In ready lists every link edge has a place at its other end.
pub proof fn lemma_back_slot(adj: Seq<Vec<usize>>, i: int, k: int) -> (k2: int)
    requires
        adj_ready(adj),
        slot(adj, i, k),
    ensures
        slot(adj, nb(adj, i, k), k2),
        nb(adj, nb(adj, i, k), k2) == i,
{
    let j = nb(adj, i, k);
    let a = adj[j]@;
    assert(a.contains(i as usize));
    choose|k2: int| 0 <= k2 < a.len() && a[k2] == i as usize
}

/// `path` is a way through the link: each of its link nodes lists the next.
pub open spec fn is_link_path(adj: Seq<Vec<usize>>, path: Seq<int>) -> bool {
    &&& path.len() >= 1
    &&& forall|t: int| 0 <= t < path.len() ==> 0 <= #[trigger] path[t] < adj.len()
    &&& forall|t: int|
        0 <= t < path.len() - 1 ==> (#[trigger] adj[path[t]])@.contains(path[t + 1] as usize)
}

/// A way through the link leads from link node `i` to a link node whose
/// degree is not 2.
pub open spec fn reaches_end(adj: Seq<Vec<usize>>, i: int) -> bool {
    exists|path: Seq<int>| #[trigger]
        is_link_path(adj, path) && path[0] == i && adj[path[path.len() - 1]]@.len() != 2
}

/// A link node that lists a link node with a way to an end has one too.
pub proof fn lemma_reaches_step(adj: Seq<Vec<usize>>, i: int, j: int)
    requires
        0 <= i < adj.len(),
        adj[i]@.contains(j as usize),
        0 <= j <= usize::MAX,
        reaches_end(adj, j),
    ensures
        reaches_end(adj, i),
{
    let path = choose|path: Seq<int>| #[trigger]
        is_link_path(adj, path) && path[0] == j && adj[path[path.len() - 1]]@.len() != 2;
    let longer = seq![i] + path;
    assert forall|t: int| 0 <= t < longer.len() - 1 implies (#[trigger] adj[longer[t]])@.contains(
        longer[t + 1] as usize,
    ) by {
        if t > 0 {
            assert(longer[t] == path[t - 1]);
            assert(longer[t + 1] == path[t]);
            assert(adj[path[t - 1]]@.contains(path[t] as usize));
        }
    }
    assert forall|t: int| 0 <= t < longer.len() implies 0 <= #[trigger] longer[t] < adj.len() by {
        if t > 0 {
            assert(longer[t] == path[t - 1]);
        }
    }
    assert(longer[longer.len() - 1] == path[path.len() - 1]);
    assert(is_link_path(adj, longer));
}

/// A link node whose degree is not 2 is an end itself.
pub proof fn lemma_reaches_self(adj: Seq<Vec<usize>>, i: int)
    requires
        0 <= i < adj.len(),
        adj[i]@.len() != 2,
    ensures
        reaches_end(adj, i),
{
    let path = seq![i];
    assert(is_link_path(adj, path));
}

/// Place `k` of link node `i` comes before place `k2` of link node `i2`, as
/// the places are read node by node.
pub open spec fn slot_before(i: int, k: int, i2: int, k2: int) -> bool {
    i < i2 || (i == i2 && k < k2)
}

/// Sector `s` runs between two places at link nodes whose degree is not 2:
/// it leaves by place `ok` of link node `oi` and arrives by place `ek` of link
/// node `ei`, which lies further on; no other place at such a link node
/// carries its number.
pub open spec fn sector_ends(
    adj: Seq<Vec<usize>>,
    labels: Seq<Vec<Option<usize>>>,
    s: int,
    ends: (int, int, int, int),
) -> bool {
    let (oi, ok, ei, ek) = ends;
    &&& slot(adj, oi, ok) && adj[oi]@.len() != 2 && lab(labels, oi, ok) == Some(s as usize)
    &&& slot(adj, ei, ek) && adj[ei]@.len() != 2 && lab(labels, ei, ek) == Some(s as usize)
    &&& slot_before(oi, ok, ei, ek)
    &&& forall|i: int, k: int|
        slot(adj, i, k) && adj[i]@.len() != 2 && #[trigger] lab(labels, i, k) == Some(s as usize)
            ==> (i == oi && k == ok) || (i == ei && k == ek)
}

/// The sectors are numbered in the order of the places by which they leave:
/// `ends[s]` holds the two ends of sector `s`, and a sector with a lower number
/// leaves by an earlier place.
pub open spec fn numbered_by(
    adj: Seq<Vec<usize>>,
    labels: Seq<Vec<Option<usize>>>,
    ends: Seq<(int, int, int, int)>,
) -> bool {
    &&& forall|s: int| 0 <= s < ends.len() ==> sector_ends(adj, labels, s, #[trigger] ends[s])
    &&& forall|s: int, s2: int|
        0 <= s < s2 < ends.len() ==> slot_before(
            (#[trigger] ends[s]).0,
            ends[s].1,
            (#[trigger] ends[s2]).0,
            ends[s2].1,
        )
}

/// The link edges at link nodes of degree 2 that carry a label lie on a way
/// to a link node of another degree.
pub open spec fn labels_reach(adj: Seq<Vec<usize>>, labels: Seq<Vec<Option<usize>>>) -> bool {
    forall|i: int, k: int|
        slot(adj, i, k) && adj[i]@.len() == 2 && (#[trigger] lab(labels, i, k)) is Some
            ==> reaches_end(adj, i)
}

/// Labels the sector that leaves link node `start` by its link edge at
/// place `j`: walks on through link nodes of degree 2, giving every link
/// edge on the way the label `num`, up to the next link node of another
/// degree.
fn label_walk(
    adj: &Vec<Vec<usize>>,
    labels: &mut Vec<Vec<Option<usize>>>,
    start: usize,
    j: usize,
    num: usize,
) -> (end: Ghost<(int, int)>)
    requires
        adj_ready(adj@),
        labels_shaped(adj@, old(labels)@),
        labels_agree(adj@, old(labels)@, num as int, -1, -1),
        slot(adj@, start as int, j as int),
        adj@[start as int]@.len() != 2,
        lab(old(labels)@, start as int, j as int) is None,
    ensures
        labels_shaped(adj@, final(labels)@),
        labels_agree(adj@, final(labels)@, num + 1, -1, -1),
        lab(final(labels)@, start as int, j as int) == Some(num),
        forall|i: int, k: int|
            slot(adj@, i, k) ==> #[trigger] lab(final(labels)@, i, k)
                == lab(old(labels)@, i, k) || (
            lab(old(labels)@, i, k) is None && lab(final(labels)@, i, k) == Some(num)),
        slot(adj@, end@.0, end@.1),
        adj@[end@.0]@.len() != 2,
        !(end@.0 == start && end@.1 == j),
        lab(old(labels)@, end@.0, end@.1) is None,
        lab(final(labels)@, end@.0, end@.1) == Some(num),
        forall|i: int, k: int|
            slot(adj@, i, k) && adj@[i]@.len() != 2 && !(i == start && k == j) && !(i == end@.0 && k
                == end@.1) ==> #[trigger] lab(final(labels)@, i, k) == lab(old(labels)@, i, k),
        forall|i: int, k: int|
            slot(adj@, i, k) && adj@[i]@.len() == 2 && #[trigger] lab(final(labels)@, i, k) != lab(
                old(labels)@,
                i,
                k,
            ) ==> reaches_end(adj@, i),
{
    let ghost kb = lemma_back_slot(adj@, start as int, j as int);
    let ghost mut end: (int, int) = (0, 0);
    proof {
        lemma_reaches_self(adj@, start as int);
    }
    labels[start][j] = Some(num);
    assert(lab(labels@, start as int, j as int) == Some(num));
    let mut prev: usize = start;
    let mut curr: usize = adj[start][j];
    let ghost kp: int = j as int;
    assert(lab(labels@, curr as int, kb) is None) by {
        assert(lab(old(labels)@, start as int, j as int) == lab(old(labels)@, curr as int, kb));
        assert(labels@[curr as int] == old(labels)@[curr as int]);
    }
    assert(labels_agree(adj@, labels@, num + 1, prev as int, curr as int)) by {
        assert forall|i: int, k: int| slot(adj@, i, k) implies (#[trigger] lab(labels@,
            i,
            k,
        ) matches Some(s) ==> s < num + 1) by {
            if !(i == start && k == j) {
                assert(lab(labels@, i, k) == lab(old(labels)@, i, k));
            }
        }
        assert forall|i: int, k: int, j2: int, k2: int|
            slot(adj@, i, k) && slot(adj@, j2, k2) && nb(adj@, i, k) == j2 && nb(adj@, j2, k2) == i
                && !(i == prev && j2 == curr) && !(i == curr && j2 == prev)
                    implies #[trigger] lab(labels@,
            i,
            k,
        ) == #[trigger] lab(labels@, j2, k2) by {
            assert(lab(old(labels)@, i, k) == lab(old(labels)@, j2, k2));
            if i == start && k == j {
                assert(j2 == curr);
            }
            if j2 == start && k2 == j {
                assert(i == curr);
            }
        }
        assert forall|i: int| 0 <= i < adj@.len() && adj@[i]@.len() == 2
            implies #[trigger] lab(labels@,
            i,
            0,
        ) == lab(labels@, i, 1) by {
            assert(lab(old(labels)@, i, 0) == lab(old(labels)@, i, 1));
        }
    }
    loop
        invariant_except_break
            forall|i: int, k: int|
                slot(adj@, i, k) && adj@[i]@.len() != 2 && !(i == start && k == j)
                    ==> #[trigger] lab(
                    labels@,
                    i,
                    k,
                ) == lab(old(labels)@, i, k),
            reaches_end(adj@, prev as int),
            labels_agree(adj@, labels@, num + 1, prev as int, curr as int),
            slot(adj@, prev as int, kp),
            nb(adj@, prev as int, kp) == curr,
            lab(labels@, prev as int, kp) == Some(num),
            forall|kc: int|
                slot(adj@, curr as int, kc) && nb(adj@, curr as int, kc) == prev ==> lab(labels@,
                    curr as int,
                    kc,
                ) is None,
        invariant
            adj_ready(adj@),
            labels_shaped(adj@, labels@),
            forall|i: int, k: int|
                slot(adj@, i, k) && adj@[i]@.len() == 2 && #[trigger] lab(labels@, i, k) != lab(
                    old(labels)@,
                    i,
                    k,
                ) ==> reaches_end(adj@, i),
            prev < adj@.len(),
            curr < adj@.len(),
            slot(adj@, start as int, j as int),
            lab(labels@, start as int, j as int) == Some(num),
            forall|i: int, k: int|
                slot(adj@, i, k) ==> #[trigger] lab(labels@, i, k) == lab(old(labels)@, i, k) || (
                lab(old(labels)@, i, k) is None && lab(labels@, i, k) == Some(num)),
        ensures
            labels_agree(adj@, labels@, num + 1, -1, -1),
            slot(adj@, end.0, end.1),
            adj@[end.0]@.len() != 2,
            !(end.0 == start && end.1 == j),
            lab(old(labels)@, end.0, end.1) is None,
            lab(labels@, end.0, end.1) == Some(num),
            forall|i: int, k: int|
                slot(adj@, i, k) && adj@[i]@.len() != 2 && !(i == start && k == j) && !(i == end.0
                    && k == end.1) ==> #[trigger] lab(labels@, i, k) == lab(old(labels)@, i, k),
        decreases waiting_count(labels@),
    {
        let ghost before = labels@;
        let ghost kc = lemma_back_slot(adj@, prev as int, kp);
        if labels[curr].len() != 2 {
            match first_position(&adj[curr], prev) {
                Some(k) => {
                    proof {
                        lemma_slot_unique(adj@, curr as int, k as int, kc);
                    }
                    labels[curr][k] = Some(num);
                },
                None => {
                    assert(false);
                },
            }
            proof {
                assert forall|i: int, k: int| slot(adj@, i, k) implies (#[trigger] lab(labels@,
                    i,
                    k,
                ) matches Some(s) ==> s < num + 1) by {
                    if !(i == curr && k == kc) {
                        assert(lab(labels@, i, k) == lab(before, i, k));
                    }
                }
                assert forall|i: int, k: int, j2: int, k2: int|
                    slot(adj@, i, k) && slot(adj@, j2, k2) && nb(adj@, i, k) == j2 && nb(adj@,
                        j2,
                        k2,
                    ) == i implies #[trigger] lab(labels@, i, k)
                        == #[trigger] lab(labels@, j2, k2) by {
                    if i == prev && j2 == curr {
                        lemma_slot_unique(adj@, i, k, kp);
                        lemma_slot_unique(adj@, j2, k2, kc);
                    } else if i == curr && j2 == prev {
                        lemma_slot_unique(adj@, j2, k2, kp);
                        lemma_slot_unique(adj@, i, k, kc);
                    } else {
                        assert(lab(before, i, k) == lab(before, j2, k2));
                        if i == curr && k == kc {
                            assert(j2 == prev);
                        }
                        if j2 == curr && k2 == kc {
                            assert(i == prev);
                        }
                    }
                }
                assert forall|i: int|
                    0 <= i < adj@.len() && adj@[i]@.len() == 2 implies #[trigger] lab(labels@, i, 0)
                    == lab(labels@, i, 1) by {
                    assert(lab(before, i, 0) == lab(before, i, 1));
                    assert(i != curr);
                }
                assert forall|i: int, k: int| slot(adj@, i, k) implies #[trigger] lab(labels@,
                    i,
                    k,
                ) == lab(old(labels)@, i, k) || (lab(old(labels)@, i, k) is None
                    && lab(labels@, i, k)
                    == Some(num)) by {
                    if !(i == curr && k == kc) {
                        assert(lab(labels@, i, k) == lab(before, i, k));
                    } else {
                        assert(lab(before, i, k) is None);
                    }
                }
                assert(lab(before, start as int, j as int) == Some(num));
                assert(lab(labels@, start as int, j as int) == Some(num));
                end = (curr as int, kc);
                assert(lab(before, curr as int, kc) is None);
                assert(!(curr == start && kc == j as int));
                assert(lab(old(labels)@, curr as int, kc) is None) by {
                    assert(lab(before, curr as int, kc) == lab(old(labels)@, curr as int, kc)
                        || lab(before, curr as int, kc) == Some(num));
                }
                assert forall|i: int, k: int|
                    slot(adj@, i, k) && adj@[i]@.len() != 2 && !(i == start && k == j) && !(i
                        == end.0 && k == end.1) implies #[trigger] lab(labels@, i, k) == lab(
                    old(labels)@,
                    i,
                    k,
                ) by {
                    assert(lab(before, i, k) == lab(old(labels)@, i, k));
                    assert(lab(labels@, i, k) == lab(before, i, k));
                }
                assert forall|i: int, k: int|
                    slot(adj@, i, k) && adj@[i]@.len() == 2 && #[trigger] lab(labels@, i, k) != lab(
                        old(labels)@,
                        i,
                        k,
                    ) implies reaches_end(adj@, i) by {
                    assert(i != curr);
                    assert(lab(labels@, i, k) == lab(before, i, k));
                }
            }
            break ;
        } else {
            assert(lab(before, curr as int, 0) == lab(before, curr as int, 1));
            assert(lab(before, curr as int, kc) is None);
            assert(lab(before, curr as int, 0) is None && lab(before, curr as int, 1) is None);
            labels[curr][0] = Some(num);
            labels[curr][1] = Some(num);
            let next: usize = if adj[curr][0] != prev {
                adj[curr][0]
            } else {
                adj[curr][1]
            };
            let ghost kn: int = if nb(adj@, curr as int, 0) != prev {
                0
            } else {
                1
            };
            proof {
                if kn == 1 {
                    if nb(adj@, curr as int, 1) == prev {
                        lemma_slot_unique(adj@, curr as int, 0, 1);
                    }
                }
                assert(slot(adj@, curr as int, kn));
                assert(nb(adj@, curr as int, kn) == next);
                assert(next != prev);
                assert(kn != kc);
                let kx = lemma_back_slot(adj@, curr as int, kn);
                assert(lab(before, next as int, kx) == lab(before, curr as int, kn));
                assert forall|kc2: int|
                    slot(adj@, next as int, kc2) && nb(adj@, next as int, kc2)
                        == curr implies lab(labels@, next as int, kc2) is None by {
                    lemma_slot_unique(adj@, next as int, kc2, kx);
                    assert(lab(labels@, next as int, kc2) == lab(before, next as int, kc2));
                }
                assert forall|i: int, k: int| slot(adj@, i, k) implies (#[trigger] lab(labels@,
                    i,
                    k,
                ) matches Some(s) ==> s < num + 1) by {
                    if i != curr {
                        assert(lab(labels@, i, k) == lab(before, i, k));
                    }
                }
                assert forall|i: int, k: int, j2: int, k2: int|
                    slot(adj@, i, k) && slot(adj@, j2, k2) && nb(adj@, i, k) == j2 && nb(adj@,
                        j2,
                        k2,
                    ) == i && !(i == curr && j2 == next) && !(i == next && j2
                        == curr) implies #[trigger] lab(labels@, i, k) == #[trigger] lab(labels@,
                    j2,
                    k2,
                ) by {
                    if i == prev && j2 == curr {
                        lemma_slot_unique(adj@, i, k, kp);
                    } else if i == curr && j2 == prev {
                        lemma_slot_unique(adj@, j2, k2, kp);
                    } else {
                        assert(lab(before, i, k) == lab(before, j2, k2));
                        if i == curr {
                            if k == kc {
                                assert(j2 == prev);
                            } else {
                                assert(k == kn);
                                assert(j2 == next);
                            }
                        }
                        if j2 == curr {
                            if k2 == kc {
                                assert(i == prev);
                            } else {
                                assert(k2 == kn);
                                assert(i == next);
                            }
                        }
                    }
                }
                assert forall|i: int|
                    0 <= i < adj@.len() && adj@[i]@.len() == 2 implies #[trigger] lab(labels@, i, 0)
                    == lab(labels@, i, 1) by {
                    assert(lab(before, i, 0) == lab(before, i, 1));
                }
                assert forall|i: int, k: int| slot(adj@, i, k) implies #[trigger] lab(labels@,
                    i,
                    k,
                ) == lab(old(labels)@, i, k) || (lab(old(labels)@, i, k) is None
                    && lab(labels@, i, k)
                    == Some(num)) by {
                    if i != curr {
                        assert(lab(labels@, i, k) == lab(before, i, k));
                    } else {
                        assert(lab(before, i, k) is None);
                    }
                }
                assert(labels@ =~= before.update(
                    curr as int,
                    labels@[curr as int],
                ));
                crate::sequences::lemma_sum_by_update(
                    before,
                    waiting_fn(),
                    curr as int,
                    labels@[curr as int],
                );
                assert(waiting(before[curr as int]) == 1);
                assert(lab(before, start as int, j as int) == Some(num));
                assert(lab(labels@, start as int, j as int) == Some(num));
                assert forall|i: int, k: int|
                    slot(adj@, i, k) && adj@[i]@.len() != 2 && !(i == start && k
                        == j) implies #[trigger] lab(labels@, i, k) == lab(old(labels)@, i, k) by {
                    assert(i != curr);
                    assert(lab(labels@, i, k) == lab(before, i, k));
                    assert(lab(before, i, k) == lab(old(labels)@, i, k));
                }
                assert(adj@[curr as int]@[kc] == prev);
                assert(adj@[curr as int]@.contains(prev));
                lemma_reaches_step(adj@, curr as int, prev as int);
                assert forall|i: int, k: int|
                    slot(adj@, i, k) && adj@[i]@.len() == 2 && #[trigger] lab(labels@, i, k) != lab(
                        old(labels)@,
                        i,
                        k,
                    ) implies reaches_end(adj@, i) by {
                    if i != curr {
                        assert(lab(labels@, i, k) == lab(before, i, k));
                    }
                }
                assert(waiting(labels@[curr as int]) == 0);
            }
            prev = curr;
            curr = next;
            proof {
                kp = kn;
            }
        }
    }
    Ghost(end)
}


/// Sector `s` ends at a link node whose degree is not 2.
pub open spec fn sector_has_end(
    adj: Seq<Vec<usize>>,
    labels: Seq<Vec<Option<usize>>>,
    s: int,
) -> bool {
    exists|i: int, k: int|
        slot(adj, i, k) && adj[i]@.len() != 2 && #[trigger] lab(labels, i, k) == Some(s as usize)
}

/// The link has edges, and all of them lie on rings: every link node with
/// an edge has degree 2.
pub open spec fn ring_only(adj: Seq<Vec<usize>>) -> bool {
    &&& exists|i: int, k: int| #[trigger] slot(adj, i, k)
    &&& forall|i: int| 0 <= i < adj.len() ==> (#[trigger] adj[i])@.len() == 2 || adj[i]@.len() == 0
}

/// What the labelling leaves behind. The labels fit together and are below
/// `num`. Every link edge at a link node of a degree other than 2 has a
/// label; every sector runs between two such places, and the sectors are
/// numbered in the order of the places by which they leave; a link edge at a
/// link node of degree 2 has a label only on a way to a link node of another
/// degree. Or the link is made of rings only, and all its edges belong to
/// sector 0.
pub open spec fn labels_done(
    adj: Seq<Vec<usize>>,
    labels: Seq<Vec<Option<usize>>>,
    num: int,
    closed: bool,
) -> bool {
    &&& labels_shaped(adj, labels)
    &&& labels_agree(adj, labels, num, -1, -1)
    &&& closed == ring_only(adj)
    &&& forall|i: int, k: int|
        slot(adj, i, k) && adj[i]@.len() != 2 ==> #[trigger] lab(labels, i, k) is Some
    &&& closed ==> num == 1 && forall|i: int, k: int|
        slot(adj, i, k) ==> #[trigger] lab(labels, i, k) == Some(0usize)
    &&& !closed ==> forall|s: int| 0 <= s < num ==> #[trigger] sector_has_end(adj, labels, s)
    &&& !closed ==> labels_reach(adj, labels)
    &&& !closed ==> exists|ends: Seq<(int, int, int, int)>|
        ends.len() == num && #[trigger] numbered_by(adj, labels, ends)
}

/// Gives every link edge its sector label. A sector runs from a link node
/// whose degree is not 2, through link nodes of degree 2, to the next link
/// node whose degree is not 2. Where no such link node has an edge, all the
/// edges go to sector 0. Returns the number of sectors, and whether the link
/// is made of rings only.
pub fn detect_sectors(adj: &Vec<Vec<usize>>, labels: &mut Vec<Vec<Option<usize>>>) -> (r: (
    usize,
    bool,
))
    requires
        adj_ready(adj@),
        labels_shaped(adj@, old(labels)@),
        forall|i: int, k: int| slot(adj@, i, k) ==> #[trigger] lab(old(labels)@, i, k) is None,
    ensures
        labels_done(adj@, final(labels)@, r.0 as int, r.1),
{
    // the link node at which each sector found so far starts
    let mut starts: Vec<usize> = Vec::new();
    let ghost mut ends: Seq<(int, int, int, int)> = Seq::empty();
    let mut i: usize = 0;
    while i < adj.len()
        invariant
            i <= adj@.len(),
            adj_ready(adj@),
            labels_shaped(adj@, labels@),
            labels_reach(adj@, labels@),
            ends.len() == starts@.len(),
            numbered_by(adj@, labels@, ends),
            forall|s: int| 0 <= s < ends.len() ==> (#[trigger] ends[s]).0 < i,
            labels_agree(adj@, labels@, starts@.len() as int, -1, -1),
            forall|i2: int, k: int|
                slot(adj@, i2, k) && i2 < i && adj@[i2]@.len() != 2 ==> #[trigger] lab(
                    labels@,
                    i2,
                    k,
                ) is Some,
            forall|s: int| 0 <= s < starts@.len() ==> #[trigger] sector_has_end(adj@, labels@, s),
        decreases adj@.len() - i,
    {
        if adj[i].len() != 2 {
            let mut j: usize = 0;
            while j < adj[i].len()
                invariant
                    i < adj@.len(),
                    j <= adj@[i as int]@.len(),
                    adj@[i as int]@.len() != 2,
                    adj_ready(adj@),
                    labels_shaped(adj@, labels@),
                    labels_reach(adj@, labels@),
                    ends.len() == starts@.len(),
                    numbered_by(adj@, labels@, ends),
                    forall|s: int|
                        0 <= s < ends.len() ==> slot_before(
                            (#[trigger] ends[s]).0,
                            ends[s].1,
                            i as int,
                            j as int,
                        ),
                    labels_agree(adj@, labels@, starts@.len() as int, -1, -1),
                    forall|i2: int, k: int|
                        slot(adj@, i2, k) && i2 < i && adj@[i2]@.len() != 2 ==> #[trigger] lab(
                            labels@,
                            i2,
                            k,
                        ) is Some,
                    forall|k: int| 0 <= k < j ==> #[trigger] lab(labels@, i as int, k) is Some,
                    forall|s: int|
                        0 <= s < starts@.len() ==> #[trigger] sector_has_end(adj@, labels@, s),
                decreases adj@[i as int]@.len() - j,
            {
                assert(slot(adj@, i as int, j as int));
                assert(labels@[i as int]@.len() == adj@[i as int]@.len());
                if labels[i][j].is_none() {
                    let num: usize = starts.len();
                    let ghost before = labels@;
                    let ghost before_ends = ends;
                    assert(lab(before, i as int, j as int) is None);
                    let end = label_walk(adj, labels, i, j, num);
                    starts.push(i);
                    proof {
                        let e = end@;
                        ends = ends.push((i as int, j as int, e.0, e.1));
                        // the far end had no label: it lies after the place of leaving
                        assert(slot_before(i as int, j as int, e.0, e.1)) by {
                            if e.0 < i {
                                assert(lab(before, e.0, e.1) is Some);
                            } else if e.0 == i && e.1 < j {
                                assert(lab(before, i as int, e.1) is Some);
                            }
                        }
                        assert forall|s: int| 0 <= s < ends.len() implies sector_ends(
                            adj@,
                            labels@,
                            s,
                            #[trigger] ends[s],
                        ) by {
                            if s < num {
                                assert(sector_ends(adj@, before, s, before_ends[s]));
                                let (oi, ok, ei, ek) = before_ends[s];
                                assert(lab(labels@, oi, ok) == Some(s as usize));
                                assert(lab(labels@, ei, ek) == Some(s as usize));
                                assert forall|i2: int, k2: int|
                                    slot(adj@, i2, k2) && adj@[i2]@.len() != 2 && #[trigger] lab(
                                        labels@,
                                        i2,
                                        k2,
                                    ) == Some(s as usize) implies (i2 == oi && k2 == ok)
                                        || (i2 == ei
                                    && k2 == ek) by {
                                    assert(lab(before, i2, k2) == Some(s as usize));
                                }
                            } else {
                                assert forall|i2: int, k2: int|
                                    slot(adj@, i2, k2) && adj@[i2]@.len() != 2 && #[trigger] lab(
                                        labels@,
                                        i2,
                                        k2,
                                    ) == Some(s as usize) implies (i2 == i && k2 == j) || (i2 == e.0
                                    && k2 == e.1) by {
                                    if !((i2 == i && k2 == j) || (i2 == e.0 && k2 == e.1)) {
                                        assert(lab(labels@, i2, k2) == lab(before, i2, k2));
                                    }
                                }
                            }
                        }
                        assert forall|s: int, s2: int| 0 <= s < s2 < ends.len() implies slot_before(
                            (#[trigger] ends[s]).0,
                            ends[s].1,
                            (#[trigger] ends[s2]).0,
                            ends[s2].1,
                        ) by {
                            if s2 < num {
                                assert(slot_before(
                                    before_ends[s].0,
                                    before_ends[s].1,
                                    before_ends[s2].0,
                                    before_ends[s2].1,
                                ));
                            } else {
                                assert(slot_before(
                                    before_ends[s].0,
                                    before_ends[s].1,
                                    i as int,
                                    j as int,
                                ));
                            }
                        }
                        assert forall|s: int| 0 <= s < ends.len() implies slot_before(
                            (#[trigger] ends[s]).0,
                            ends[s].1,
                            i as int,
                            j + 1,
                        ) by {
                            if s < num {
                                assert(slot_before(
                                    before_ends[s].0,
                                    before_ends[s].1,
                                    i as int,
                                    j as int,
                                ));
                            }
                        }
                        assert forall|i2: int, k2: int|
                            slot(adj@, i2, k2) && adj@[i2]@.len() == 2 && (#[trigger] lab(
                                labels@,
                                i2,
                                k2,
                            )) is Some implies reaches_end(adj@, i2) by {
                            if lab(labels@, i2, k2) == lab(before, i2, k2) {
                                assert(lab(before, i2, k2) is Some);
                            }
                        }
                        assert forall|i2: int, k: int|
                            slot(adj@, i2, k) && i2 < i && adj@[i2]@.len() != 2
                                implies #[trigger] lab(
                            labels@,
                            i2,
                            k,
                        ) is Some by {
                            assert(lab(before, i2, k) is Some);
                        }
                        assert forall|k: int| 0 <= k < j implies #[trigger] lab(
                            labels@,
                            i as int,
                            k,
                        ) is Some by {
                            assert(lab(before, i as int, k) is Some);
                            assert(slot(adj@, i as int, k));
                        }
                        assert forall|s: int| 0 <= s < starts@.len()
                            implies #[trigger] sector_has_end(
                            adj@,
                            labels@,
                            s,
                        ) by {
                            if s < num {
                                assert(sector_has_end(adj@, before, s));
                                let (i0, k0) = choose|i0: int, k0: int|
                                    slot(adj@, i0, k0) && adj@[i0]@.len() != 2 && #[trigger] lab(
                                        before,
                                        i0,
                                        k0,
                                    ) == Some(s as usize);
                                assert(lab(labels@, i0, k0) == Some(s as usize));
                            } else {
                                assert(lab(labels@, i as int, j as int) == Some(s as usize));
                            }
                        }
                    }
                }
                j = j + 1;
            }
        }
        i = i + 1;
    }
    let num: usize = starts.len();
    if num > 0 {
        proof {
            assert(sector_has_end(adj@, labels@, 0));
            let (i0, k0) = choose|i0: int, k0: int|
                slot(adj@, i0, k0) && adj@[i0]@.len() != 2 && #[trigger] lab(labels@, i0, k0)
                    == Some(0usize);
            assert(adj@[i0]@.len() != 2 && adj@[i0]@.len() != 0);
        }
        return (num, false);
    }
    // no sector was found: every link node with an edge has degree 2
    proof {
        assert forall|i2: int| 0 <= i2 < adj@.len() implies (#[trigger] adj@[i2])@.len() == 2
            || adj@[i2]@.len() == 0 by {
            if adj@[i2]@.len() != 2 && adj@[i2]@.len() != 0 {
                assert(slot(adj@, i2, 0));
                assert(lab(labels@, i2, 0) is Some);
            }
        }
    }
    let mut any: bool = false;
    let mut i: usize = 0;
    while i < adj.len()
        invariant
            i <= adj@.len(),
            labels_shaped(adj@, labels@),
            forall|i2: int, k: int|
                slot(adj@, i2, k) && i2 < i ==> #[trigger] lab(labels@, i2, k) == Some(0usize),
            any <==> exists|i2: int, k: int| i2 < i && #[trigger] slot(adj@, i2, k),
        decreases adj@.len() - i,
    {
        let mut j: usize = 0;
        while j < labels[i].len()
            invariant
                i < adj@.len(),
                j <= adj@[i as int]@.len(),
                labels_shaped(adj@, labels@),
                forall|i2: int, k: int|
                    slot(adj@, i2, k) && i2 < i ==> #[trigger] lab(labels@, i2, k) == Some(0usize),
                forall|k: int| 0 <= k < j ==> #[trigger] lab(labels@, i as int, k) == Some(0usize),
                any <==> exists|i2: int, k: int|
                    (i2 < i || (i2 == i && k < j)) && #[trigger] slot(adj@, i2, k),
            decreases adj@[i as int]@.len() - j,
        {
            let ghost before = labels@;
            labels[i][j] = Some(0);
            any = true;
            proof {
                assert(slot(adj@, i as int, j as int));
                assert forall|i2: int, k: int| slot(adj@, i2, k) && i2 < i implies #[trigger] lab(
                    labels@,
                    i2,
                    k,
                ) == Some(0usize) by {
                    assert(lab(before, i2, k) == Some(0usize));
                }
                assert forall|k: int| 0 <= k < j + 1 implies #[trigger] lab(labels@, i as int, k)
                    == Some(0usize) by {
                    if k < j {
                        assert(lab(before, i as int, k) == Some(0usize));
                    }
                }
            }
            j = j + 1;
        }
        i = i + 1;
    }
    proof {
        assert(any == ring_only(adj@));
        if any {
            assert forall|i2: int, k: int, j2: int, k2: int|
                slot(adj@, i2, k) && slot(adj@, j2, k2) && nb(adj@, i2, k) == j2 && nb(adj@, j2, k2)
                    == i2 implies #[trigger] lab(labels@, i2, k) == #[trigger] lab(
                labels@,
                j2,
                k2,
            ) by {}
            assert forall|i2: int| 0 <= i2 < adj@.len() && adj@[i2]@.len() == 2
                implies #[trigger] lab(
                labels@,
                i2,
                0,
            ) == lab(labels@, i2, 1) by {
                assert(slot(adj@, i2, 0) && slot(adj@, i2, 1));
            }
        } else {
            assert forall|i2: int, k: int| slot(adj@, i2, k) implies false by {}
            assert(numbered_by(adj@, labels@, Seq::<(int, int, int, int)>::empty()));
        }
    }
    if any {
        (1, true)
    } else {
        (0, false)
    }
}


/// Where the sector walk goes from link node `cur`, having come from link
/// node `last`: along the first link edge, from place `from` on, that belongs
/// to sector `sec` and does not lead back to `last`.
pub open spec fn hop_from(
    adj: Seq<Vec<usize>>,
    labels: Seq<Vec<Option<usize>>>,
    cur: int,
    last: int,
    sec: usize,
    from: int,
) -> Option<usize>
    decreases adj[cur]@.len() - from,
{
    if from < 0 || from >= adj[cur]@.len() {
        None
    } else if lab(labels, cur, from) == Some(sec) && nb(adj, cur, from) != last {
        Some(adj[cur]@[from])
    } else {
        hop_from(adj, labels, cur, last, sec, from + 1)
    }
}

/// Where the sector walk goes from link node `cur`, having come from `last`.
pub open spec fn next_hop(
    adj: Seq<Vec<usize>>,
    labels: Seq<Vec<Option<usize>>>,
    cur: int,
    last: int,
    sec: usize,
) -> Option<usize> {
    hop_from(adj, labels, cur, last, sec, 0)
}

/// Computes `next_hop`.
fn find_hop(
    adj: &Vec<Vec<usize>>,
    labels: &Vec<Vec<Option<usize>>>,
    cur: usize,
    last: usize,
    sec: usize,
) -> (r: Option<usize>)
    requires
        labels_shaped(adj@, labels@),
        cur < adj@.len(),
    ensures
        r == next_hop(adj@, labels@, cur as int, last as int, sec),
        r matches Some(x) ==> exists|k: int| slot(adj@, cur as int, k)
            && #[trigger] nb(adj@, cur as int, k) == x,
{
    let mut j: usize = 0;
    assert(labels@[cur as int]@.len() == adj@[cur as int]@.len());
    while j < labels[cur].len()
        invariant
            cur < adj@.len(),
            labels@.len() == adj@.len(),
            labels@[cur as int]@.len() == adj@[cur as int]@.len(),
            j <= adj@[cur as int]@.len(),
            next_hop(adj@, labels@, cur as int, last as int, sec) == hop_from(
                adj@,
                labels@,
                cur as int,
                last as int,
                sec,
                j as int,
            ),
        decreases adj@[cur as int]@.len() - j,
    {
        let hit: bool = match labels[cur][j] {
            Some(x) => x == sec,
            None => false,
        };
        if hit && adj[cur][j] != last {
            assert(slot(adj@, cur as int, j as int));
            assert(nb(adj@, cur as int, j as int) == adj@[cur as int]@[j as int]);
            return Some(adj[cur][j]);
        }
        j = j + 1;
    }
    None
}

/// The link node before place `t` of a walk; the walk starts as if it had
/// come from its own first node.
pub open spec fn came_from(arc: Seq<usize>, t: int) -> int {
    if t == 0 {
        arc[0] as int
    } else {
        arc[t - 1] as int
    }
}

/// `arc` is the walk through sector `sec` that starts at link node `first`:
/// each step is the next hop, the walk never steps onto `first` again, and it
/// ends where there is no next hop (an open sector), where the next hop is
/// `first` (a closed one), or, in a link that is not sound, after more steps
/// than the link has nodes.
pub open spec fn is_sector_walk(
    adj: Seq<Vec<usize>>,
    labels: Seq<Vec<Option<usize>>>,
    first: int,
    sec: usize,
    arc: Seq<usize>,
    closed: bool,
) -> bool {
    &&& arc.len() >= 1
    &&& arc[0] == first
    &&& forall|t: int| 0 <= t < arc.len() ==> (#[trigger] arc[t]) < adj.len()
    &&& forall|t: int|
        0 <= t < arc.len() - 1 ==> #[trigger] next_hop(
            adj,
            labels,
            arc[t] as int,
            came_from(arc, t),
            sec,
        ) == Some(arc[t + 1]) && arc[t + 1] != first
    &&& match next_hop(adj, labels, arc[arc.len() - 1] as int, came_from(arc, arc.len() - 1), sec) {
        None => !closed,
        Some(x) => (x == first && closed) || (arc.len() > adj.len() && !closed),
    }
}

/// Walks through sector `curr_sec` from link node `first_vert`. Returns the
/// link nodes in the order of the walk, and whether the walk came back to
/// where it started.
pub fn follow_sector(
    adj: &Vec<Vec<usize>>,
    labels: &Vec<Vec<Option<usize>>>,
    first_vert: usize,
    curr_sec: usize,
) -> (r: (Vec<usize>, bool))
    requires
        adj_ready(adj@),
        labels_shaped(adj@, labels@),
        first_vert < adj@.len(),
    ensures
        is_sector_walk(adj@, labels@, first_vert as int, curr_sec, r.0@, r.1),
{
    let mut arc: Vec<usize> = Vec::new();
    arc.push(first_vert);
    let mut current_position: usize = first_vert;
    let mut last_position: usize = first_vert;
    let mut closed: bool = false;
    loop
        invariant_except_break
            !closed,
        invariant
            adj_ready(adj@),
            labels_shaped(adj@, labels@),
            first_vert < adj@.len(),
            arc@.len() >= 1,
            arc@.len() <= adj@.len() + 1,
            arc@[0] == first_vert,
            current_position == arc@[arc@.len() - 1],
            last_position == came_from(arc@, arc@.len() - 1),
            forall|t: int| 0 <= t < arc@.len() ==> (#[trigger] arc@[t]) < adj@.len(),
            forall|t: int|
                0 <= t < arc@.len() - 1 ==> #[trigger] next_hop(
                    adj@,
                    labels@,
                    arc@[t] as int,
                    came_from(arc@, t),
                    curr_sec,
                ) == Some(arc@[t + 1]) && arc@[t + 1] != first_vert,
        ensures
            is_sector_walk(adj@, labels@, first_vert as int, curr_sec, arc@, closed),
        decreases adj@.len() + 1 - arc@.len(),
    {
        if arc.len() > adj.len() {
            break ;
        }
        match find_hop(adj, labels, current_position, last_position, curr_sec) {
            None => {
                break ;
            },
            Some(x) => {
                if x == first_vert {
                    closed = true;
                    break ;
                }
                let ghost before = arc@;
                last_position = current_position;
                current_position = x;
                arc.push(x);
                proof {
                    let n = before.len() as int;
                    assert forall|t: int| 0 <= t < arc@.len() - 1 implies #[trigger] next_hop(
                        adj@,
                        labels@,
                        arc@[t] as int,
                        came_from(arc@, t),
                        curr_sec,
                    ) == Some(arc@[t + 1]) && arc@[t + 1] != first_vert by {
                        assert(arc@[t] == before[t]);
                        assert(came_from(arc@, t) == came_from(before, t));
                        if t < n - 1 {
                            assert(arc@[t + 1] == before[t + 1]);
                        }
                    }
                }
            },
        }
    }
    (arc, closed)
}

/// How many link edges of link node `i` belong to sector `s`.
pub open spec fn marks(labels: Seq<Vec<Option<usize>>>, i: int, s: usize) -> nat {
    occurrences(labels[i]@, Some(s))
}

/// Computes `marks`.
fn count_label(labels: &Vec<Vec<Option<usize>>>, i: usize, sec: usize) -> (c: usize)
    requires
        i < labels@.len(),
    ensures
        c == marks(labels@, i as int, sec),
{
    let mut c: usize = 0;
    let mut k: usize = 0;
    while k < labels[i].len()
        invariant
            i < labels@.len(),
            k <= labels@[i as int]@.len(),
            c <= k,
            c == occurrences(labels@[i as int]@.take(k as int), Some(sec)),
        decreases labels@[i as int]@.len() - k,
    {
        let hit: bool = match labels[i][k] {
            Some(x) => x == sec,
            None => false,
        };
        proof {
            let row = labels@[i as int]@;
            assert(row.take(k + 1).drop_last() == row.take(k as int));
        }
        if hit {
            c = c + 1;
        }
        k = k + 1;
    }
    assert(labels@[i as int]@.take(k as int) == labels@[i as int]@);
    c
}

/// `e` is the link node from which sector `s` is walked: the first one with
/// exactly one link edge of the sector; where there is none, the first one of
/// a degree other than 2 with a link edge of the sector; `None` where there
/// is neither.
pub open spec fn is_extremity(labels: Seq<Vec<Option<usize>>>, s: usize, e: Option<usize>) -> bool {
    match e {
        Some(e) => e < labels.len() && ((marks(labels, e as int, s) == 1 && forall|i: int|
            0 <= i < e ==> #[trigger] marks(labels, i, s) != 1) || ((forall|i: int|
            0 <= i < labels.len() ==> #[trigger] marks(labels, i, s) != 1)
                && labels[e as int]@.len()
            != 2 && marks(labels, e as int, s) != 0 && forall|i: int|
            0 <= i < e ==> labels[i]@.len() == 2 || #[trigger] marks(labels, i, s) == 0)),
        None => forall|i: int|
            0 <= i < labels.len() ==> #[trigger] marks(labels, i, s) != 1 && (labels[i]@.len() == 2
                || marks(labels, i, s) == 0),
    }
}

/// Finds the link node from which sector `sec` is walked.
fn find_extremity(labels: &Vec<Vec<Option<usize>>>, sec: usize) -> (e: Option<usize>)
    ensures
        is_extremity(labels@, sec, e),
{
    let mut i: usize = 0;
    while i < labels.len()
        invariant
            i <= labels@.len(),
            forall|i2: int| 0 <= i2 < i ==> #[trigger] marks(labels@, i2, sec) != 1,
        decreases labels@.len() - i,
    {
        if count_label(labels, i, sec) == 1 {
            return Some(i);
        }
        i = i + 1;
    }
    let mut i: usize = 0;
    while i < labels.len()
        invariant
            i <= labels@.len(),
            forall|i2: int| 0 <= i2 < labels@.len() ==> #[trigger] marks(labels@, i2, sec) != 1,
            forall|i2: int|
                0 <= i2 < i ==> labels@[i2]@.len() == 2 || #[trigger] marks(labels@, i2, sec) == 0,
        decreases labels@.len() - i,
    {
        if labels[i].len() != 2 && count_label(labels, i, sec) != 0 {
            return Some(i);
        }
        i = i + 1;
    }
    None
}

/// The sectors that shield an end of sector `own` at a link node with the
/// labels `row`: every sector with a link edge there, but for an open sector
/// not the sector itself.
pub open spec fn shield_of(row: Seq<Option<usize>>, own: usize, closed: bool) -> Set<usize> {
    Set::new(|x: usize| row.contains(Some(x)) && (closed || x != own))
}

/// Computes `shield_of`.
fn shield_set(row: &Vec<Option<usize>>, own: usize, closed: bool) -> (r: HashSet<usize>)
    ensures
        r@ == shield_of(row@, own, closed),
{
    let mut r: HashSet<usize> = HashSet::new();
    let mut k: usize = 0;
    while k < row.len()
        invariant
            k <= row@.len(),
            r@ == shield_of(row@.take(k as int), own, closed),
        decreases row@.len() - k,
    {
        let ghost t0 = row@.take(k as int);
        let ghost t1 = row@.take(k + 1);
        let ghost before = r@;
        match row[k] {
            Some(x) => {
                if closed || x != own {
                    r.insert(x);
                }
            },
            None => {},
        }
        proof {
            assert forall|y: usize| r@.contains(y) <==> shield_of(t1, own, closed).contains(
                y,
            ) by {
                if t1.contains(Some(y)) {
                    let q = choose|q: int| 0 <= q < t1.len() && t1[q] == Some(y);
                    if q < k {
                        assert(t0[q] == Some(y));
                    }
                }
                if t0.contains(Some(y)) {
                    let q = choose|q: int| 0 <= q < t0.len() && t0[q] == Some(y);
                    assert(t1[q] == Some(y));
                }
                assert(t1[k as int] == row@[k as int]);
                assert(before.contains(y) <==> shield_of(t0, own, closed).contains(y));
            }
            assert(r@ =~= shield_of(t1, own, closed));
        }
        k = k + 1;
    }
    assert(row@.take(k as int) == row@);
    r
}


/// The local boundary flag of a link: some link node has degree 1 and none
/// has a degree above 2.
pub open spec fn link_boundary(adj: Seq<Vec<usize>>) -> bool {
    &&& exists|i: int| 0 <= i < adj.len() && (#[trigger] adj[i])@.len() == 1
    &&& forall|i: int| 0 <= i < adj.len() ==> (#[trigger] adj[i])@.len() <= 2
}

/// Sector `sec`, the one with number `s`, was walked from link node `e`,
/// and `closed` tells whether the walk came back to `e`.
pub open spec fn reified_from(
    adj: Seq<Vec<usize>>,
    labels: Seq<Vec<Option<usize>>>,
    sec: Sector,
    s: int,
    e: int,
    closed: bool,
) -> bool {
    &&& is_sector_walk(adj, labels, e, s as usize, sec.arc@, closed)
    &&& if ring_only(adj) {
        &&& e == 0
        &&& sec.shield_begin() == Set::<usize>::empty().insert(0)
        &&& sec.shield_end() == Set::<usize>::empty().insert(0)
    } else {
        &&& is_extremity(labels, s as usize, Some(e as usize))
        &&& sec.shield_begin() == shield_of(labels[sec.arc@[0] as int]@, s as usize, closed)
        &&& sec.shield_end() == shield_of(
            labels[sec.arc@[sec.arc@.len() - 1] as int]@,
            s as usize,
            closed,
        )
    }
}

/// Sector `sec`, the one with number `s`, is as the decomposition leaves it:
/// fresh, with the walk through the sector as its arc, and shielded at each
/// end by the sectors that meet it there. In a link made of rings only, the
/// one sector is walked from link node 0 and shields itself.
pub open spec fn sector_reified(
    adj: Seq<Vec<usize>>,
    labels: Seq<Vec<Option<usize>>>,
    sec: Sector,
    s: int,
) -> bool {
    &&& !sec.burned
    &&& sec.prime_arc is None
    &&& sec.time == BurnTime::Infinity
    &&& exists|e: int, closed: bool| #[trigger] reified_from(adj, labels, sec, s, e, closed)
}

/// A row of `n` link edges without labels.
fn none_labels(n: usize) -> (r: Vec<Option<usize>>)
    ensures
        r@.len() == n,
        forall|k: int| 0 <= k < n ==> r@[k] is None,
{
    let mut r: Vec<Option<usize>> = Vec::new();
    let mut k: usize = 0;
    while k < n
        invariant
            k <= n,
            r@.len() == k,
            forall|q: int| 0 <= q < k ==> r@[q] is None,
        decreases n - k,
    {
        r.push(None);
        k = k + 1;
    }
    r
}

impl Vertex {
    /// The node is split into sectors: its adjacency lists are sorted, its
    /// boundary flag is set, every link edge that a sector reaches has its
    /// label, and each sector stands in `sector` under its number.
    pub open spec fn decomposed(&self) -> bool {
        &&& self.neigh_adj@.len() == self.neigh@.len()
        &&& adj_ready(self.neigh_adj@)
        &&& self.boundary == link_boundary(self.neigh_adj@)
        &&& labels_done(
            self.neigh_adj@,
            self.edge_sector@,
            self.sector@.len() as int,
            ring_only(self.neigh_adj@),
        )
        &&& forall|s: int|
            0 <= s < self.sector@.len() ==> sector_reified(
                self.neigh_adj@,
                self.edge_sector@,
                #[trigger] self.sector@[s],
                s,
            )
    }

    /// Splits the link of the node into sectors. Sorts the adjacency lists
    /// and drops what they hold twice, sets the boundary flag, labels the link
    /// edges, and builds one sector for each label.
    pub fn compute_sectors(&mut self)
        requires
            old(self).link().wf(),
            old(self).link().simple(),
            old(self).edge_sector@.len() == 0,
            old(self).sector@.len() == 0,
        ensures
            final(self).decomposed(),
            final(self).neigh == old(self).neigh,
            final(self).neigh_adj@.len() == old(self).neigh_adj@.len(),
            forall|i: int, x: usize|
                0 <= i < old(self).neigh_adj@.len() ==> (final(self).neigh_adj@[i]@.contains(x)
                    <==> old(self).neigh_adj@[i]@.contains(x)),
            final(self).pos == old(self).pos,
            final(self).rad == old(self).rad,
            final(self).time == old(self).time,
            final(self).burned == old(self).burned,
            final(self).prime_sector == old(self).prime_sector,
    {
        let mut bound: bool = false;
        let mut sing: bool = false;
        let n: usize = self.neigh_adj.len();
        let mut i: usize = 0;
        while i < n
            invariant
                i <= n,
                n == self.neigh_adj@.len(),
                n == old(self).neigh_adj@.len(),
                self.neigh == old(self).neigh,
                self.pos == old(self).pos,
                self.rad == old(self).rad,
                self.time == old(self).time,
                self.burned == old(self).burned,
                self.prime_sector == old(self).prime_sector,
                self.sector == old(self).sector,
                forall|i2: int, x: usize|
                    0 <= i2 < n ==> (self.neigh_adj@[i2]@.contains(x)
                        <==> old(self).neigh_adj@[i2]@.contains(x)),
                forall|i2: int| 0 <= i2 < i
                    ==> strictly_increasing(#[trigger] self.neigh_adj@[i2]@),
                self.edge_sector@.len() == i,
                forall|i2: int|
                    0 <= i2 < i ==> (#[trigger] self.edge_sector@[i2])@.len()
                        == self.neigh_adj@[i2]@.len(),
                forall|i2: int, k: int|
                    0 <= i2 < i && 0 <= k < self.edge_sector@[i2]@.len() ==> #[trigger] lab(
                        self.edge_sector@,
                        i2,
                        k,
                    ) is None,
                bound <==> exists|i2: int| 0 <= i2 < i
                    && (#[trigger] self.neigh_adj@[i2])@.len() == 1,
                !sing <==> forall|i2: int|
                    0 <= i2 < i ==> (#[trigger] self.neigh_adj@[i2])@.len() <= 2,
            decreases n - i,
        {
            let ghost before = *self;
            let sorted: Vec<usize> = sort_dedup(&self.neigh_adj[i]);
            let len: usize = sorted.len();
            self.neigh_adj[i] = sorted;
            self.edge_sector.push(none_labels(len));
            if len == 1 {
                bound = true;
            }
            if len >= 3 {
                sing = true;
            }
            proof {
                assert forall|i2: int| 0 <= i2 < i + 1 implies strictly_increasing(
                    #[trigger] self.neigh_adj@[i2]@,
                ) by {
                    if i2 < i {
                        assert(self.neigh_adj@[i2] == before.neigh_adj@[i2]);
                    }
                }
                assert forall|i2: int| 0 <= i2 < i + 1
                    implies (#[trigger] self.edge_sector@[i2])@.len()
                    == self.neigh_adj@[i2]@.len() by {
                    if i2 < i {
                        assert(self.neigh_adj@[i2] == before.neigh_adj@[i2]);
                        assert(self.edge_sector@[i2] == before.edge_sector@[i2]);
                    }
                }
                assert forall|i2: int, k: int|
                    0 <= i2 < i + 1 && 0 <= k < self.edge_sector@[i2]@.len() implies #[trigger] lab(
                    self.edge_sector@,
                    i2,
                    k,
                ) is None by {
                    if i2 < i {
                        assert(self.edge_sector@[i2] == before.edge_sector@[i2]);
                        assert(lab(before.edge_sector@, i2, k) is None);
                    }
                }
                assert forall|i2: int, x: usize| 0 <= i2 < n implies (self.neigh_adj@[i2]@.contains(
                    x,
                ) <==> old(self).neigh_adj@[i2]@.contains(x)) by {
                    if i2 != i {
                        assert(self.neigh_adj@[i2] == before.neigh_adj@[i2]);
                    }
                }
                if bound {
                    if len == 1 {
                        assert(self.neigh_adj@[i as int]@.len() == 1);
                    } else {
                        let w = choose|i2: int|
                            0 <= i2 < i && (#[trigger] before.neigh_adj@[i2])@.len() == 1;
                        assert(self.neigh_adj@[w] == before.neigh_adj@[w]);
                    }
                } else {
                    assert forall|i2: int| 0 <= i2 < i + 1 implies (
                    #[trigger] self.neigh_adj@[i2])@.len() != 1 by {
                        if i2 < i {
                            assert(self.neigh_adj@[i2] == before.neigh_adj@[i2]);
                        }
                    }
                }
                if !sing {
                    assert forall|i2: int| 0 <= i2 < i + 1 implies (
                    #[trigger] self.neigh_adj@[i2])@.len() <= 2 by {
                        if i2 < i {
                            assert(self.neigh_adj@[i2] == before.neigh_adj@[i2]);
                        }
                    }
                } else {
                    if len >= 3 {
                        assert(self.neigh_adj@[i as int]@.len() > 2);
                    } else {
                        let w = choose|i2: int|
                            0 <= i2 < i && !((#[trigger] before.neigh_adj@[i2])@.len() <= 2);
                        assert(self.neigh_adj@[w] == before.neigh_adj@[w]);
                    }
                }
            }
            i = i + 1;
        }
        self.boundary = bound && !sing;
        proof {
            let adj = self.neigh_adj@;
            let l = old(self).link();
            assert forall|i2: int, k: int| slot(adj, i2, k) implies 0 <= #[trigger] nb(adj, i2, k)
                < adj.len() && nb(adj, i2, k) != i2 && adj[nb(adj, i2, k)]@.contains(
                i2 as usize,
            ) by {
                let x = adj[i2]@[k];
                assert(adj[i2]@.contains(x));
                assert(old(self).neigh_adj@[i2]@.contains(x));
                let k0 = choose|k0: int|
                    0 <= k0 < old(self).neigh_adj@[i2]@.len() && old(self).neigh_adj@[i2]@[k0] == x;
                assert(l.adj[i2][k0] == x);
                assert(l.has(x as int, i2));
                assert(l.adj[x as int] == old(self).neigh_adj@[x as int]@);
                assert(old(self).neigh_adj@[x as int]@.contains(i2 as usize));
            }
        }
        let (num_sector, one_closed) = detect_sectors(&self.neigh_adj, &mut self.edge_sector);
        if !one_closed {
            let mut curr_sec: usize = 0;
            while curr_sec < num_sector
                invariant
                    curr_sec <= num_sector,
                    self.sector@.len() == curr_sec,
                    !ring_only(self.neigh_adj@),
                    adj_ready(self.neigh_adj@),
                    labels_done(self.neigh_adj@, self.edge_sector@, num_sector as int, false),
                    forall|s: int|
                        0 <= s < curr_sec ==> sector_reified(
                            self.neigh_adj@,
                            self.edge_sector@,
                            #[trigger] self.sector@[s],
                            s,
                        ),
                    n == self.neigh_adj@.len(),
                    n == old(self).neigh_adj@.len(),
                    self.neigh == old(self).neigh,
                    self.pos == old(self).pos,
                    self.rad == old(self).rad,
                    self.time == old(self).time,
                    self.burned == old(self).burned,
                    self.prime_sector == old(self).prime_sector,
                    self.boundary == link_boundary(self.neigh_adj@),
                    forall|i2: int, x: usize|
                        0 <= i2 < n ==> (self.neigh_adj@[i2]@.contains(x)
                            <==> old(self).neigh_adj@[i2]@.contains(x)),
                decreases num_sector - curr_sec,
            {
                let extremity: usize = match find_extremity(&self.edge_sector, curr_sec) {
                    Some(e) => e,
                    None => {
                        proof {
                            let adj = self.neigh_adj@;
                            let labels = self.edge_sector@;
                            assert(sector_has_end(adj, labels, curr_sec as int));
                            let (i0, k0) = choose|i0: int, k0: int|
                                slot(adj, i0, k0) && adj[i0]@.len() != 2 && #[trigger] lab(
                                    labels,
                                    i0,
                                    k0,
                                ) == Some(curr_sec);
                            lemma_occurrences_contains(labels[i0]@, Some(curr_sec));
                            assert(labels[i0]@[k0] == Some(curr_sec));
                            assert(marks(labels, i0, curr_sec) != 1 && (labels[i0]@.len() == 2
                                || marks(labels, i0, curr_sec) == 0));
                        }
                        0
                    },
                };
                let (arc, closed) = follow_sector(
                    &self.neigh_adj,
                    &self.edge_sector,
                    extremity,
                    curr_sec,
                );
                let beg_sec: HashSet<usize> = shield_set(
                    &self.edge_sector[arc[0]],
                    curr_sec,
                    closed,
                );
                let end_sec: HashSet<usize> = shield_set(
                    &self.edge_sector[arc[arc.len() - 1]],
                    curr_sec,
                    closed,
                );
                let ghost before = self.sector@;
                self.sector.push(Sector::new(arc, beg_sec, end_sec));
                proof {
                    assert(reified_from(
                        self.neigh_adj@,
                        self.edge_sector@,
                        self.sector@[curr_sec as int],
                        curr_sec as int,
                        extremity as int,
                        closed,
                    ));
                    assert forall|s: int| 0 <= s < curr_sec + 1 implies sector_reified(
                        self.neigh_adj@,
                        self.edge_sector@,
                        #[trigger] self.sector@[s],
                        s,
                    ) by {
                        if s < curr_sec {
                            assert(self.sector@[s] == before[s]);
                        }
                    }
                }
                curr_sec = curr_sec + 1;
            }
        } else {
            proof {
                let (i0, k0) = choose|i0: int, k0: int| #[trigger] slot(self.neigh_adj@, i0, k0);
            }
            let (arc, closed) = follow_sector(&self.neigh_adj, &self.edge_sector, 0, 0);
            let mut beg_sec: HashSet<usize> = HashSet::new();
            beg_sec.insert(0);
            let mut end_sec: HashSet<usize> = HashSet::new();
            end_sec.insert(0);
            self.sector.push(Sector::new(arc, beg_sec, end_sec));
            proof {
                assert(reified_from(
                    self.neigh_adj@,
                    self.edge_sector@,
                    self.sector@[0],
                    0,
                    0,
                    closed,
                ));
            }
        }
    }
}


/// Weight of a sector in the measure of the exposure cascade: 1 while it is
/// not exposed.
pub open spec fn unexposed_weight(s: Sector) -> nat {
    if s.exposed() {
        0
    } else {
        1
    }
}

/// `unexposed_weight` as a value.
pub open spec fn unexposed_fn() -> spec_fn(Sector) -> nat {
    |s: Sector| unexposed_weight(s)
}

/// How burning a sector of a node changes one of the node's sectors. Arc,
/// time and prime arc stay. The burned sector (`target`) is marked and loses
/// its shields. Another sector keeps its mark; it can only lose shields, and
/// loses none if it was exposed before.
pub open spec fn sector_after_burn(before: Sector, after: Sector, target: bool) -> bool {
    &&& after.arc == before.arc
    &&& after.time == before.time
    &&& after.prime_arc == before.prime_arc
    &&& after.burned == (before.burned || target)
    &&& after.shield_begin().subset_of(before.shield_begin())
    &&& after.shield_end().subset_of(before.shield_end())
    &&& target ==> after.shield_begin().is_empty() && after.shield_end().is_empty()
    &&& !target && before.exposed() ==> after.shield_begin() == before.shield_begin()
        && after.shield_end() == before.shield_end()
}

impl Vertex {
    /// The sectors with a link edge at link node `num_neigh`, in increasing
    /// order, each once.
    pub fn attached_sectors(&self, num_neigh: usize) -> (sec: Vec<usize>)
        requires
            num_neigh < self.edge_sector@.len(),
            forall|k: int|
                0 <= k < self.edge_sector@[num_neigh as int]@.len() ==> #[trigger] lab(
                    self.edge_sector@,
                    num_neigh as int,
                    k,
                ) is Some,
        ensures
            strictly_increasing(sec@),
            forall|x: usize|
                sec@.contains(x) <==> self.edge_sector@[num_neigh as int]@.contains(Some(x)),
    {
        let mut all: Vec<usize> = Vec::new();
        let mut k: usize = 0;
        let ghost row = self.edge_sector@[num_neigh as int]@;
        while k < self.edge_sector[num_neigh].len()
            invariant
                num_neigh < self.edge_sector@.len(),
                row == self.edge_sector@[num_neigh as int]@,
                k <= row.len(),
                all@.len() == k,
                forall|q: int| 0 <= q < k ==> row[q] == Some(#[trigger] all@[q]),
                forall|q: int| 0 <= q < row.len() ==> #[trigger] lab(
                    self.edge_sector@,
                    num_neigh as int,
                    q,
                ) is Some,
            decreases row.len() - k,
        {
            assert(lab(self.edge_sector@, num_neigh as int, k as int) is Some);
            match self.edge_sector[num_neigh][k] {
                Some(x) => {
                    all.push(x);
                },
                None => {},
            }
            k = k + 1;
        }
        let sec: Vec<usize> = sort_dedup(&all);
        proof {
            assert forall|x: usize| sec@.contains(x) <==> row.contains(Some(x)) by {
                if all@.contains(x) {
                    let q = choose|q: int| 0 <= q < all@.len() && all@[q] == x;
                    assert(row[q] == Some(x));
                }
                if row.contains(Some(x)) {
                    let q = choose|q: int| 0 <= q < row.len() && row[q] == Some(x);
                    assert(all@[q] == x);
                }
            }
        }
        sec
    }

    /// Burns sector `ind_sec` and lets the exposure spread: a sector that
    /// becomes exposed stops shielding every sector that is not exposed yet,
    /// which may expose that one in turn.
    pub fn burn_sector(&mut self, ind_sec: usize)
        requires
            ind_sec < old(self).sector@.len(),
        ensures
            final(self).sector@.len() == old(self).sector@.len(),
            forall|j: int|
                0 <= j < old(self).sector@.len() ==> sector_after_burn(
                    old(self).sector@[j],
                    #[trigger] final(self).sector@[j],
                    j == ind_sec,
                ),
            exposed_by(
                old(self).sector@,
                final(self).sector@,
                spread(old(self).sector@, Set::<usize>::empty().insert(ind_sec)),
            ),
            final(self).pos == old(self).pos,
            final(self).rad == old(self).rad,
            final(self).neigh == old(self).neigh,
            final(self).neigh_adj == old(self).neigh_adj,
            final(self).edge_sector == old(self).edge_sector,
            final(self).time == old(self).time,
            final(self).burned == old(self).burned,
            final(self).boundary == old(self).boundary,
            final(self).prime_sector == old(self).prime_sector,
    {
        let ghost s0 = self.sector@;
        let ghost seeds = Set::<usize>::empty().insert(ind_sec);
        let ghost l = spread(s0, seeds);
        proof {
            lemma_spread_closed(s0, seeds);
            assert(seeds.contains(ind_sec));
        }
        self.sector[ind_sec].burn();
        let mut exposed: Vec<usize> = Vec::new();
        exposed.push(ind_sec);
        let ghost mut done: Set<usize> = Set::empty();
        let n: usize = self.sector.len();
        proof {
            assert(exposed@[0] == ind_sec);
            assert forall|j: int| 0 <= j < n && !(#[trigger] self.sector@[j]).exposed()
                implies self.sector@[j].shield_begin()
                == s0[j].shield_begin().difference(done) && self.sector@[j].shield_end()
                == s0[j].shield_end().difference(done) by {
                assert(self.sector@[j] == s0[j]);
                assert(s0[j].shield_begin().difference(done) =~= s0[j].shield_begin());
                assert(s0[j].shield_end().difference(done) =~= s0[j].shield_end());
            }
            assert forall|j: int|
                0 <= j < n && (#[trigger] self.sector@[j]).exposed() && !s0[j].exposed()
                    implies done.contains(
                j as usize,
            ) || exposed@.contains(j as usize) by {
                if j != ind_sec {
                    assert(self.sector@[j] == s0[j]);
                }
            }
        }
        loop
            invariant
                n == self.sector@.len(),
                n == s0.len(),
                s0 == old(self).sector@,
                seeds == Set::<usize>::empty().insert(ind_sec),
                l == spread(s0, seeds),
                closed_under(s0, seeds, l),
                ind_sec < n,
                forall|j: int|
                    0 <= j < n ==> sector_after_burn(s0[j], #[trigger] self.sector@[j], j
                        == ind_sec),
                forall|e: usize|
                    #![trigger done.contains(e)]
                    #![trigger exposed@.contains(e)]
                    done.contains(e) || exposed@.contains(e) ==> l.contains(e) && e < n
                        && self.sector@[e as int].exposed(),
                done.contains(ind_sec) || exposed@.contains(ind_sec),
                forall|j: int|
                    0 <= j < n && (#[trigger] self.sector@[j]).exposed() && !s0[j].exposed()
                        ==> done.contains(j as usize) || exposed@.contains(j as usize),
                forall|j: int|
                    0 <= j < n && !(#[trigger] self.sector@[j]).exposed()
                        ==> self.sector@[j].shield_begin() == s0[j].shield_begin().difference(done)
                        && self.sector@[j].shield_end() == s0[j].shield_end().difference(done),
                self.pos == old(self).pos,
                self.rad == old(self).rad,
                self.neigh == old(self).neigh,
                self.neigh_adj == old(self).neigh_adj,
                self.edge_sector == old(self).edge_sector,
                self.time == old(self).time,
                self.burned == old(self).burned,
                self.boundary == old(self).boundary,
                self.prime_sector == old(self).prime_sector,
            ensures
                exposed@.len() == 0,
            decreases crate::sequences::sum_by(self.sector@, unexposed_fn()), exposed@.len(),
        {
            let ghost stack0 = exposed@;
            let ind_exp: usize = match exposed.pop() {
                Some(x) => x,
                None => {
                    break ;
                },
            };
            let ghost c0 = crate::sequences::sum_by(self.sector@, unexposed_fn());
            let ghost stack1 = exposed@;
            proof {
                assert(stack0 == stack1.push(ind_exp));
                assert(stack0[stack1.len() as int] == ind_exp);
                assert(stack0.contains(ind_exp));
                assert forall|e: usize| #[trigger] stack0.contains(e) implies stack1.contains(e)
                    || e == ind_exp by {
                    let q = choose|q: int| 0 <= q < stack0.len() && stack0[q] == e;
                    if q < stack1.len() {
                        assert(stack1[q] == e);
                    }
                }
                assert forall|e: usize| #[trigger] stack1.contains(e)
                    implies stack0.contains(e) by {
                    let q = choose|q: int| 0 <= q < stack1.len() && stack1[q] == e;
                    assert(stack0[q] == e);
                }
            }
            let mut j: usize = 0;
            while j < n
                invariant
                    j <= n,
                    n == self.sector@.len(),
                    n == s0.len(),
                    s0 == old(self).sector@,
                    seeds == Set::<usize>::empty().insert(ind_sec),
                    l == spread(s0, seeds),
                    closed_under(s0, seeds, l),
                    ind_sec < n,
                    ind_exp < n,
                    l.contains(ind_exp),
                    self.sector@[ind_exp as int].exposed(),
                    forall|j2: int|
                        0 <= j2 < n ==> sector_after_burn(
                            s0[j2],
                            #[trigger] self.sector@[j2],
                            j2 == ind_sec,
                        ),
                    forall|e: usize|
                        #![trigger done.contains(e)]
                        #![trigger exposed@.contains(e)]
                        done.contains(e) || exposed@.contains(e) ==> l.contains(e) && e < n
                            && self.sector@[e as int].exposed(),
                    done.contains(ind_sec) || exposed@.contains(ind_sec) || ind_sec == ind_exp,
                    forall|j2: int|
                        0 <= j2 < n && (#[trigger] self.sector@[j2]).exposed() && !s0[j2].exposed()
                            ==> done.contains(j2 as usize) || exposed@.contains(j2 as usize) || j2
                            == ind_exp,
                    forall|j2: int|
                        0 <= j2 < n && !(#[trigger] self.sector@[j2]).exposed() ==> {
                            let gone = if j2 < j {
                                done.insert(ind_exp)
                            } else {
                                done
                            };
                            self.sector@[j2].shield_begin()
                                == s0[j2].shield_begin().difference(gone)
                                && self.sector@[j2].shield_end() == s0[j2].shield_end().difference(
                                gone,
                            )
                        },
                    crate::sequences::sum_by(self.sector@, unexposed_fn()) <= c0,
                    crate::sequences::sum_by(self.sector@, unexposed_fn()) < c0 || exposed@.len()
                        == stack1.len(),
                    self.pos == old(self).pos,
                    self.rad == old(self).rad,
                    self.neigh == old(self).neigh,
                    self.neigh_adj == old(self).neigh_adj,
                    self.edge_sector == old(self).edge_sector,
                    self.time == old(self).time,
                    self.burned == old(self).burned,
                    self.boundary == old(self).boundary,
                    self.prime_sector == old(self).prime_sector,
                decreases n - j,
            {
                let ghost before = self.sector@;
                let ghost stack_b = exposed@;
                let mut pushed: bool = false;
                if !self.sector[j].is_exposed() {
                    self.sector[j].expose_neigh(ind_exp);
                    proof {
                        assert(self.sector@ =~= before.update(j as int, self.sector@[j as int]));
                        crate::sequences::lemma_sum_by_update(
                            before,
                            unexposed_fn(),
                            j as int,
                            self.sector@[j as int],
                        );
                        assert(unexposed_weight(before[j as int]) == 1);
                        let gone = done.insert(ind_exp);
                        assert(self.sector@[j as int].shield_begin() =~= s0[j as int].shield_begin().difference(
                            gone,
                        ));
                        assert(self.sector@[j as int].shield_end() =~= s0[j as int].shield_end().difference(
                            gone,
                        ));
                    }
                    if self.sector[j].is_exposed() {
                        exposed.push(j);
                        pushed = true;
                        proof {
                            assert(exposed@[stack_b.len() as int] == j);
                            // the sector had shields that are all gone at one end
                            assert(j != ind_sec);
                            assert(sector_after_burn(s0[j as int], before[j as int], false));
                            assert(!s0[j as int].exposed());
                            let gone = done.insert(ind_exp);
                            if self.sector@[j as int].shield_begin().is_empty() {
                                assert forall|x: usize| s0[j as int].shield_begin().contains(
                                    x,
                                ) implies l.contains(x) by {
                                    if !gone.contains(x) {
                                        assert(self.sector@[j as int].shield_begin().contains(x));
                                    }
                                }
                            } else {
                                assert forall|x: usize| s0[j as int].shield_end().contains(
                                    x,
                                ) implies l.contains(x) by {
                                    if !gone.contains(x) {
                                        assert(self.sector@[j as int].shield_end().contains(x));
                                    }
                                }
                            }
                            assert(opens(s0[j as int], l));
                            assert(l.contains(j));
                        }
                    }
                }
                proof {
                    let now = self.sector@;
                    assert forall|j2: int| 0 <= j2 < n implies sector_after_burn(
                        s0[j2],
                        #[trigger] now[j2],
                        j2 == ind_sec,
                    ) by {
                        assert(sector_after_burn(s0[j2], before[j2], j2 == ind_sec));
                        if j2 != j {
                            assert(now[j2] == before[j2]);
                        }
                    }
                    assert forall|e: usize| #[trigger] stack_b.contains(e)
                        implies exposed@.contains(
                        e,
                    ) by {
                        let q = choose|q: int| 0 <= q < stack_b.len() && stack_b[q] == e;
                        assert(exposed@[q] == e);
                    }
                    assert forall|e: usize| #[trigger] exposed@.contains(e)
                        implies stack_b.contains(
                        e,
                    ) || (pushed && e == j) by {
                        let q = choose|q: int| 0 <= q < exposed@.len() && exposed@[q] == e;
                        if q < stack_b.len() {
                            assert(stack_b[q] == e);
                        }
                    }
                    assert forall|e: usize|
                        #![trigger done.contains(e)]
                        #![trigger exposed@.contains(e)]
                        done.contains(e) || exposed@.contains(e) implies l.contains(e) && e < n
                        && now[e as int].exposed() by {
                        if done.contains(e) || stack_b.contains(e) {
                            assert(l.contains(e) && e < n && before[e as int].exposed());
                            if e != j {
                                assert(now[e as int] == before[e as int]);
                            }
                        }
                    }
                    assert(now[ind_exp as int].exposed()) by {
                        if ind_exp != j {
                            assert(now[ind_exp as int] == before[ind_exp as int]);
                        }
                    }
                    assert forall|j2: int|
                        0 <= j2 < n && (#[trigger] now[j2]).exposed()
                            && !s0[j2].exposed() implies done.contains(
                        j2 as usize,
                    ) || exposed@.contains(j2 as usize) || j2 == ind_exp by {
                        if j2 != j {
                            assert(now[j2] == before[j2]);
                        } else if before[j2].exposed() {
                            assert(now[j2] == before[j2]);
                        }
                    }
                    assert forall|j2: int| 0 <= j2 < n && !(#[trigger] now[j2]).exposed() implies {
                        let gone = if j2 < j + 1 {
                            done.insert(ind_exp)
                        } else {
                            done
                        };
                        now[j2].shield_begin() == s0[j2].shield_begin().difference(gone)
                            && now[j2].shield_end() == s0[j2].shield_end().difference(gone)
                    } by {
                        if j2 != j {
                            assert(now[j2] == before[j2]);
                        } else {
                            assert(!before[j2].exposed());
                        }
                    }
                }
                j = j + 1;
            }
            proof {
                done = done.insert(ind_exp);
            }
        }
        proof {
            let now = self.sector@;
            assert(forall|e: usize| !exposed@.contains(e));
            assert(closed_under(s0, seeds, done)) by {
                assert forall|x: usize| seeds.contains(x) implies done.contains(x) by {
                    assert(x == ind_sec);
                }
                assert forall|j: int| 0 <= j < n && opens(#[trigger] s0[j], done)
                    implies done.contains(
                    j as usize,
                ) by {
                    if !now[j].exposed() {
                        if s0[j].shield_begin().subset_of(done) {
                            assert(now[j].shield_begin() =~= Set::<usize>::empty());
                        } else {
                            assert(now[j].shield_end() =~= Set::<usize>::empty());
                        }
                    }
                }
            }
            lemma_spread_least(s0, seeds, done);
            assert(done =~= l);
            assert forall|j: int| 0 <= j < n implies (#[trigger] now[j]).exposed() == (
            s0[j].exposed() || l.contains(j as usize)) by {
                assert(sector_after_burn(s0[j], now[j], j == ind_sec));
                if l.contains(j as usize) {
                    assert(done.contains(j as usize));
                }
            }
        }
    }

    /// The sectors that are exposed and not burned, in increasing order.
    pub fn get_exposed_sectors(&self) -> (r: Vec<usize>)
        ensures
            strictly_increasing(r@),
            forall|x: usize|
                #[trigger] r@.contains(x) <==> x < self.sector@.len()
                    && self.sector@[x as int].exposed()
                    && !self.sector@[x as int].burned,
    {
        let mut r: Vec<usize> = Vec::new();
        let mut i: usize = 0;
        while i < self.sector.len()
            invariant
                i <= self.sector@.len(),
                strictly_increasing(r@),
                forall|q: int| 0 <= q < r@.len() ==> #[trigger] r@[q] < i,
                forall|x: usize|
                    #[trigger] r@.contains(x) <==> x < i && self.sector@[x as int].exposed()
                        && !self.sector@[x as int].burned,
            decreases self.sector@.len() - i,
        {
            let ghost before = r@;
            if self.sector[i].is_exposed() && !self.sector[i].is_burned() {
                r.push(i);
                proof {
                    assert(r@[before.len() as int] == i);
                    assert forall|x: usize| #[trigger] r@.contains(x) <==> (before.contains(x)
                        || x == i) by {
                        if before.contains(x) {
                            let q = choose|q: int| 0 <= q < before.len() && before[q] == x;
                            assert(r@[q] == x);
                        }
                        if r@.contains(x) {
                            let q = choose|q: int| 0 <= q < r@.len() && r@[q] == x;
                            if q < before.len() {
                                assert(before[q] == x);
                            }
                        }
                    }
                }
            }
            i = i + 1;
        }
        r
    }

    /// The sectors that are not burned, in increasing order.
    pub fn get_unburned_sectors(&self) -> (r: Vec<usize>)
        ensures
            strictly_increasing(r@),
            forall|x: usize|
                #[trigger] r@.contains(x) <==> x < self.sector@.len()
                    && !self.sector@[x as int].burned,
    {
        let mut r: Vec<usize> = Vec::new();
        let mut i: usize = 0;
        while i < self.sector.len()
            invariant
                i <= self.sector@.len(),
                strictly_increasing(r@),
                forall|q: int| 0 <= q < r@.len() ==> #[trigger] r@[q] < i,
                forall|x: usize| #[trigger] r@.contains(x) <==> x < i
                    && !self.sector@[x as int].burned,
            decreases self.sector@.len() - i,
        {
            let ghost before = r@;
            if !self.sector[i].is_burned() {
                r.push(i);
                proof {
                    assert(r@[before.len() as int] == i);
                    assert forall|x: usize| #[trigger] r@.contains(x) <==> (before.contains(x)
                        || x == i) by {
                        if before.contains(x) {
                            let q = choose|q: int| 0 <= q < before.len() && before[q] == x;
                            assert(r@[q] == x);
                        }
                        if r@.contains(x) {
                            let q = choose|q: int| 0 <= q < r@.len() && r@[q] == x;
                            if q < before.len() {
                                assert(before[q] == x);
                            }
                        }
                    }
                }
            }
            i = i + 1;
        }
        r
    }
}


/// The link graph of a node is symmetric, while it is built and after it
/// was split into sectors: a neighbour whose adjacency list holds the place
/// of another stands in the list of that one.
pub proof fn lemma_link_symmetric(v: Vertex, i: int, j: usize)
    requires
        v.link().wf() || v.decomposed(),
        0 <= i < v.neigh@.len(),
        v.neigh_adj@[i]@.contains(j),
    ensures
        j < v.neigh@.len(),
        v.neigh_adj@[j as int]@.contains(i as usize),
{
    let adj = v.neigh_adj@;
    let k = choose|k: int| 0 <= k < adj[i]@.len() && adj[i]@[k] == j;
    if v.link().wf() {
        let l = v.link();
        assert(l.adj[i][k] == j);
        assert(l.has(j as int, i));
        assert(l.adj[j as int] == adj[j as int]@);
    } else {
        assert(slot(adj, i, k));
        assert(nb(adj, i, k) == j);
    }
}

/// Every link edge of a node that was split into sectors belongs to
/// exactly one sector: where the link is made of rings only, or where a way
/// through the link leads from the link node `path[0]` to a link node whose
/// degree is not 2, the link edge at place `k` of `path[0]` carries the
/// number of a sector of the node, and carries it at its other end too.
pub proof fn lemma_sector_coverage(v: Vertex, path: Seq<int>, k: int)
    requires
        v.decomposed(),
        ring_only(v.neigh_adj@) || (is_link_path(v.neigh_adj@, path) && v.neigh_adj@[path[path.len()
            - 1]]@.len() != 2),
        ring_only(v.neigh_adj@) ==> path.len() >= 1,
        slot(v.neigh_adj@, path[0], k),
    ensures
        lab(v.edge_sector@, path[0], k) matches Some(s) && s < v.sector@.len(),
        forall|k2: int|
            slot(v.neigh_adj@, nb(v.neigh_adj@, path[0], k), k2) && nb(
                v.neigh_adj@,
                nb(v.neigh_adj@, path[0], k),
                k2,
            ) == path[0] ==> lab(v.edge_sector@, nb(v.neigh_adj@, path[0], k), k2) == lab(
                v.edge_sector@,
                path[0],
                k,
            ),
    decreases path.len(),
{
    let adj = v.neigh_adj@;
    let labels = v.edge_sector@;
    let a = path[0];
    assert forall|k2: int| slot(adj, nb(adj, a, k), k2) && nb(adj, nb(adj, a, k), k2)
        == a implies lab(
        labels,
        nb(adj, a, k),
        k2,
    ) == lab(labels, a, k) by {
        assert(lab(labels, a, k) == lab(labels, nb(adj, a, k), k2));
    }
    if ring_only(adj) {
        assert(lab(labels, a, k) == Some(0usize));
    } else if adj[a]@.len() != 2 {
        assert(lab(labels, a, k) is Some);
    } else {
        let rest = path.subrange(1, path.len() as int);
        let b = path[1];
        assert(adj[path[0]]@.contains(path[1] as usize));
        let k1 = choose|k1: int| 0 <= k1 < adj[a]@.len() && adj[a]@[k1] == b as usize;
        assert(slot(adj, a, k1));
        assert(nb(adj, a, k1) == b);
        let kb = lemma_back_slot(adj, a, k1);
        assert forall|t: int| 0 <= t < rest.len() - 1 implies (#[trigger] adj[rest[t]])@.contains(
            rest[t + 1] as usize,
        ) by {
            assert(rest[t] == path[t + 1]);
            assert(rest[t + 1] == path[t + 2]);
            assert(adj[path[t + 1]]@.contains(path[t + 2] as usize));
        }
        assert(rest[rest.len() - 1] == path[path.len() - 1]);
        lemma_sector_coverage(v, rest, kb);
        assert(lab(labels, a, k1) == lab(labels, b, kb));
        assert(lab(labels, a, 0) == lab(labels, a, 1));
        assert(k == 0 || k == 1);
        assert(k1 == 0 || k1 == 1);
    }
    assert(lab(labels, a, k) matches Some(s) ==> s < v.sector@.len() as int);
}


impl Vertex {
    /// The label at place `q` of link node `k` names a sector of the node
    /// whose arc passes through `k`.
    pub open spec fn label_usable(&self, k: int, q: int) -> bool {
        match lab(self.edge_sector@, k, q) {
            Some(t) => t < self.sector@.len() && self.sector@[t as int].arc@.contains(k as usize),
            None => false,
        }
    }

    /// The node can be burned: every neighbour has its row of labels, every
    /// link edge carries the number of a sector whose arc passes through the
    /// neighbour, and the arcs hold places of neighbours only.
    pub open spec fn usable(&self) -> bool {
        &&& self.edge_sector@.len() == self.neigh@.len()
        &&& forall|k: int, q: int|
            0 <= k < self.edge_sector@.len() && 0 <= q < self.edge_sector@[k]@.len()
                ==> #[trigger] self.label_usable(k, q)
        &&& forall|s: int, a: int|
            0 <= s < self.sector@.len() && 0 <= a < self.sector@[s].arc@.len() ==> (
            #[trigger] self.sector@[s].arc@[a]) < self.neigh@.len()
    }

    /// Tests `usable`.
    pub fn check_usable(&self) -> (b: bool)
        ensures
            b == self.usable(),
    {
        if self.edge_sector.len() != self.neigh.len() {
            return false;
        }
        let mut k: usize = 0;
        while k < self.edge_sector.len()
            invariant
                k <= self.edge_sector@.len(),
                forall|k2: int, q: int|
                    0 <= k2 < k && 0 <= q < self.edge_sector@[k2]@.len()
                        ==> #[trigger] self.label_usable(k2, q),
            decreases self.edge_sector@.len() - k,
        {
            let mut q: usize = 0;
            while q < self.edge_sector[k].len()
                invariant
                    k < self.edge_sector@.len(),
                    q <= self.edge_sector@[k as int]@.len(),
                    forall|k2: int, q2: int|
                        0 <= k2 < k && 0 <= q2 < self.edge_sector@[k2]@.len()
                            ==> #[trigger] self.label_usable(k2, q2),
                    forall|q2: int| 0 <= q2 < q ==> #[trigger] self.label_usable(k as int, q2),
                decreases self.edge_sector@[k as int]@.len() - q,
            {
                match self.edge_sector[k][q] {
                    Some(t) => {
                        if t >= self.sector.len() {
                            assert(!self.label_usable(k as int, q as int));
                            return false;
                        }
                        if self.sector[t].get_arc(k).is_none() {
                            assert(!self.label_usable(k as int, q as int));
                            return false;
                        }
                    },
                    None => {
                        assert(!self.label_usable(k as int, q as int));
                        return false;
                    },
                }
                assert(self.label_usable(k as int, q as int));
                q = q + 1;
            }
            k = k + 1;
        }
        let mut s: usize = 0;
        while s < self.sector.len()
            invariant
                s <= self.sector@.len(),
                forall|s2: int, a: int|
                    0 <= s2 < s && 0 <= a < self.sector@[s2].arc@.len() ==> (
                    #[trigger] self.sector@[s2].arc@[a]) < self.neigh@.len(),
            decreases self.sector@.len() - s,
        {
            let mut a: usize = 0;
            while a < self.sector[s].arc.len()
                invariant
                    s < self.sector@.len(),
                    a <= self.sector@[s as int].arc@.len(),
                    forall|s2: int, a2: int|
                        0 <= s2 < s && 0 <= a2 < self.sector@[s2].arc@.len() ==> (
                        #[trigger] self.sector@[s2].arc@[a2]) < self.neigh@.len(),
                    forall|a2: int|
                        0 <= a2 < a ==> (#[trigger] self.sector@[s as int].arc@[a2])
                            < self.neigh@.len(),
                decreases self.sector@[s as int].arc@.len() - a,
            {
                if self.sector[s].arc[a] >= self.neigh.len() {
                    return false;
                }
                a = a + 1;
            }
            s = s + 1;
        }
        true
    }
}

} // verus!
