//! The link graph of a node as a mathematical object: the list of the node's
//! neighbours, and for each of them the places of the neighbours that share
//! a face with it and the node.

use vstd::prelude::*;

verus! {

/// A link graph. `neigh` lists the neighbours of a node; `adj[i]` lists
/// places in `neigh`: the neighbours that share a face with `neigh[i]` and
/// the node.
pub struct Link {
    pub neigh: Seq<usize>,
    pub adj: Seq<Seq<usize>>,
}

impl Link {
    /// The link graph with no neighbour.
    pub open spec fn empty() -> Link {
        Link { neigh: Seq::empty(), adj: Seq::empty() }
    }

    /// Place of `x` in the neighbour list: the first one that holds it, or
    /// the list's length where `x` is not a neighbour.
    pub open spec fn place(self, x: usize) -> int {
        match self.neigh.index_of_first(x) {
            Some(i) => i,
            None => self.neigh.len() as int,
        }
    }

    /// Whether place `i` lists place `j`.
    pub open spec fn has(self, i: int, j: int) -> bool {
        0 <= i < self.adj.len() && 0 <= j < self.adj.len() && self.adj[i].contains(j as usize)
    }

    /// Every neighbour has one adjacency list, a place fits in a machine
    /// word, no neighbour is listed twice,
    /// the lists hold places of neighbours, and a place that lists another
    /// is listed by it.
    pub open spec fn wf(self) -> bool {
        &&& self.adj.len() == self.neigh.len()
        &&& self.neigh.len() <= usize::MAX
        &&& self.neigh.no_duplicates()
        &&& forall|i: int, k: int|
            0 <= i < self.adj.len() && 0 <= k < self.adj[i].len() ==> (#[trigger] self.adj[i][k])
                < self.adj.len()
        &&& forall|i: int, k: int|
            0 <= i < self.adj.len() && 0 <= k < self.adj[i].len() ==> self.has(
                #[trigger] self.adj[i][k] as int,
                i,
            )
    }

    /// No place lists itself.
    pub open spec fn simple(self) -> bool {
        forall|i: int, k: int|
            0 <= i < self.adj.len() && 0 <= k < self.adj[i].len() ==> (#[trigger] self.adj[i][k])
                != i
    }

    /// The link with `x` among the neighbours.
    pub open spec fn with_neigh(self, x: usize) -> Link {
        if self.neigh.contains(x) {
            self
        } else {
            Link { neigh: self.neigh.push(x), adj: self.adj.push(Seq::empty()) }
        }
    }

    /// The link after the neighbours `a` and `b` were found on a common
    /// face: both are neighbours, and each one's list ends with the other's
    /// place.
    pub open spec fn add_couple(self, a: usize, b: usize) -> Link {
        let l = self.with_neigh(a).with_neigh(b);
        let place_a = l.place(a);
        let place_b = l.place(b);
        let adj1 = l.adj.update(place_a, l.adj[place_a].push(place_b as usize));
        Link { neigh: l.neigh, adj: adj1.update(place_b, adj1[place_b].push(place_a as usize)) }
    }

    /// The link after a walk along `ring`: each two neighbours that follow
    /// one another in it, and differ, were found on a common face.
    pub open spec fn add_ring(self, ring: Seq<usize>) -> Link
        decreases ring.len(),
    {
        if ring.len() < 2 {
            self
        } else {
            let l = self.add_ring(ring.drop_last());
            let a = ring[ring.len() - 2];
            let b = ring[ring.len() - 1];
            if a != b {
                l.add_couple(a, b)
            } else {
                l
            }
        }
    }
}

/// Where `x` is a neighbour, `place` is a place that holds it, and the
/// first such.
pub proof fn lemma_place(l: Link, x: usize)
    ensures
        l.neigh.contains(x) ==> 0 <= l.place(x) < l.neigh.len() && l.neigh[l.place(x)] == x,
        !l.neigh.contains(x) ==> l.place(x) == l.neigh.len(),
        forall|j: int| 0 <= j < l.place(x) && j < l.neigh.len() ==> l.neigh[j] != x,
{
    l.neigh.index_of_first_ensures(x);
}

/// A place that holds `x` with no `x` before it is `place(x)`.
pub proof fn lemma_place_is(l: Link, x: usize, i: int)
    requires
        0 <= i < l.neigh.len(),
        l.neigh[i] == x,
        forall|j: int| 0 <= j < i ==> l.neigh[j] != x,
    ensures
        l.place(x) == i,
{
    l.neigh.index_of_first_ensures(x);
    assert(l.neigh.contains(x));
}

/// `with_neigh` keeps a link well formed and simple, keeps the places of
/// the neighbours it had, and makes `x` a neighbour.
pub proof fn lemma_with_neigh(l: Link, x: usize)
    requires
        l.wf(),
        l.with_neigh(x).neigh.len() <= usize::MAX,
    ensures
        l.with_neigh(x).wf(),
        l.simple() ==> l.with_neigh(x).simple(),
        l.with_neigh(x).neigh.contains(x),
        0 <= l.with_neigh(x).place(x) < l.with_neigh(x).neigh.len(),
        l.with_neigh(x).neigh[l.with_neigh(x).place(x)] == x,
        forall|y: usize| l.neigh.contains(y) ==> l.with_neigh(x).place(y) == l.place(y),
        forall|y: usize| l.neigh.contains(y) ==> l.with_neigh(x).neigh.contains(y),
{
    let m = l.with_neigh(x);
    lemma_place(l, x);
    if !l.neigh.contains(x) {
        assert forall|i: int, j: int|
            0 <= i < m.neigh.len() && 0 <= j < m.neigh.len() && i != j implies m.neigh[i]
            != m.neigh[j] by {
            if i == l.neigh.len() {
                assert(l.neigh[j] == m.neigh[j]);
            } else if j == l.neigh.len() {
                assert(l.neigh[i] == m.neigh[i]);
            }
        }
        assert forall|i: int, k: int| 0 <= i < m.adj.len() && 0 <= k < m.adj[i].len() implies (
        #[trigger] m.adj[i][k]) < m.adj.len() && m.has(m.adj[i][k] as int, i) by {
            assert(i < l.adj.len());
            assert(m.adj[i] == l.adj[i]);
            let j = l.adj[i][k] as int;
            assert(l.has(j, i));
            assert(m.adj[j] == l.adj[j]);
        }
        assert(m.neigh[l.neigh.len() as int] == x);
        lemma_place_is(m, x, l.neigh.len() as int);
        assert forall|y: usize| l.neigh.contains(y) implies m.place(y) == l.place(y) by {
            lemma_place(l, y);
            let p = l.place(y);
            assert(m.neigh[p] == y);
            assert forall|j: int| 0 <= j < p implies m.neigh[j] != y by {
                assert(m.neigh[j] == l.neigh[j]);
            }
            lemma_place_is(m, y, p);
        }
        assert forall|y: usize| l.neigh.contains(y) implies m.neigh.contains(y) by {
            lemma_place(l, y);
            assert(m.neigh[l.place(y)] == y);
        }
        if l.simple() {
            assert forall|i: int, k: int|
                0 <= i < m.adj.len() && 0 <= k < m.adj[i].len() implies (#[trigger] m.adj[i][k])
                != i by {
                assert(m.adj[i] == l.adj[i]);
            }
        }
    }
}

/// `add_couple` keeps a link well formed; where the two neighbours differ
/// it keeps it simple too.
pub proof fn lemma_add_couple_wf(l: Link, a: usize, b: usize)
    requires
        l.wf(),
        l.add_couple(a, b).neigh.len() <= usize::MAX,
    ensures
        l.add_couple(a, b).wf(),
        l.simple() && a != b ==> l.add_couple(a, b).simple(),
        l.add_couple(a, b).neigh.len() >= l.neigh.len(),
        forall|y: usize| l.neigh.contains(y) ==> l.add_couple(a, b).neigh.contains(y),
        l.add_couple(a, b).neigh.contains(a),
        l.add_couple(a, b).neigh.contains(b),
{
    let l1 = l.with_neigh(a);
    lemma_add_couple_grows(l, a, b);
    lemma_with_neigh(l, a);
    let l2 = l1.with_neigh(b);
    lemma_with_neigh(l1, b);
    let place_a = l2.place(a);
    let place_b = l2.place(b);
    let adj1 = l2.adj.update(place_a, l2.adj[place_a].push(place_b as usize));
    let adj2 = adj1.update(place_b, adj1[place_b].push(place_a as usize));
    let r = l.add_couple(a, b);
    assert(r.neigh == l2.neigh);
    assert(r.adj == adj2);
    assert(place_a == l1.place(a));
    assert(0 <= place_a < l2.neigh.len());
    assert(0 <= place_b < l2.neigh.len());
    assert(l2.neigh[place_a] == a);
    assert(l2.neigh[place_b] == b);
    assert(adj1.len() == l2.adj.len() && adj2.len() == l2.adj.len());
    assert(adj1[place_a] == l2.adj[place_a].push(place_b as usize));
    assert(adj2[place_b] == adj1[place_b].push(place_a as usize));
    assert forall|i: int| 0 <= i < r.adj.len() && i != place_a && i != place_b implies r.adj[i]
        == l2.adj[i] by {}
    if place_a != place_b {
        assert(r.adj[place_a] == l2.adj[place_a].push(place_b as usize));
        assert(r.adj[place_b] == l2.adj[place_b].push(place_a as usize));
    } else {
        assert(r.adj[place_a] == l2.adj[place_a].push(place_a as usize).push(place_a as usize));
    }
    // every entry of the new lists is an old entry or one of the two new ones
    assert forall|i: int, k: int| 0 <= i < r.adj.len() && 0 <= k < r.adj[i].len() implies (
    #[trigger] r.adj[i][k]) < r.adj.len() && r.has(r.adj[i][k] as int, i) by {
        let j = r.adj[i][k] as int;
        if k < l2.adj[i].len() {
            assert(r.adj[i][k] == l2.adj[i][k]);
            assert(l2.has(j, i));
            let w = choose|w: int| 0 <= w < l2.adj[j].len() && l2.adj[j][w] == i as usize;
            assert(r.adj[j][w] == i as usize);
        } else if place_a != place_b {
            if i == place_a {
                assert(j == place_b);
                assert(r.adj[place_b][l2.adj[place_b].len() as int] == place_a as usize);
            } else {
                assert(i == place_b);
                assert(j == place_a);
                assert(r.adj[place_a][l2.adj[place_a].len() as int] == place_b as usize);
            }
        } else {
            assert(i == place_a);
            assert(j == place_a);
            assert(r.adj[place_a][l2.adj[place_a].len() as int] == place_a as usize);
        }
    }
    if l.simple() && a != b {
        assert(place_a != place_b);
        assert forall|i: int, k: int|
            0 <= i < r.adj.len() && 0 <= k < r.adj[i].len() implies (#[trigger] r.adj[i][k])
            != i by {
            if k < l2.adj[i].len() {
                assert(r.adj[i][k] == l2.adj[i][k]);
            } else if i == place_a {
                assert(r.adj[i][k] == place_b as usize);
            } else {
                assert(i == place_b);
                assert(r.adj[i][k] == place_a as usize);
            }
        }
    }
    assert(l2.neigh.contains(a));
}

/// `add_couple` never takes a neighbour away.
pub proof fn lemma_add_couple_grows(l: Link, a: usize, b: usize)
    ensures
        l.add_couple(a, b).neigh.len() >= l.with_neigh(a).neigh.len() >= l.neigh.len(),
{
}

/// Two walks of which the second starts where the first ends make one walk.
pub proof fn lemma_add_ring_concat(l: Link, r1: Seq<usize>, r2: Seq<usize>)
    requires
        r1.len() >= 1,
    ensures
        l.add_ring(r1).add_ring(seq![r1.last()] + r2) == l.add_ring(r1 + r2),
    decreases r2.len(),
{
    let second = seq![r1.last()] + r2;
    if r2.len() == 0 {
        assert(r1 + r2 == r1);
    } else {
        let r2p = r2.drop_last();
        lemma_add_ring_concat(l, r1, r2p);
        assert(second.drop_last() == seq![r1.last()] + r2p);
        assert((r1 + r2).drop_last() == r1 + r2p);
        assert(second[second.len() - 1] == (r1 + r2)[(r1 + r2).len() - 1]);
        assert(second[second.len() - 2] == (r1 + r2)[(r1 + r2).len() - 2]);
    }
}

/// A walk that is one neighbour longer adds one couple, where its last two
/// neighbours differ.
pub proof fn lemma_add_ring_push(l: Link, ring: Seq<usize>, x: usize)
    requires
        ring.len() >= 1,
    ensures
        l.add_ring(ring.push(x)) == if ring.last() != x {
            l.add_ring(ring).add_couple(ring.last(), x)
        } else {
            l.add_ring(ring)
        },
{
    assert(ring.push(x).drop_last() == ring);
}

} // verus!
