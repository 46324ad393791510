//! The burn front at one node: how the fire that has burned a neighbour
//! reaches the node's sectors, how the node's exposed sectors burn, and which
//! sector the node waits for next.

use vstd::prelude::*;
use super::burntime::BurnTime;
use super::exposure::{exposed_by, lemma_exposed_by_chain, lemma_spread_compose, spread};
use super::sector::Sector;
use super::vertex::{Vertex, lab, sector_after_burn};
use crate::sequences::{is_first_position, lemma_sum_by_pointwise, strictly_increasing, sum_by};

verus! {

/// The nodes `a` and `b` differ at most in how far the fire has come: they
/// have the same place, radius, neighbours, link and labels, and sectors with
/// the same arcs.
pub open spec fn same_structure(a: Vertex, b: Vertex) -> bool {
    &&& a.pos == b.pos
    &&& a.rad == b.rad
    &&& a.neigh == b.neigh
    &&& a.neigh_adj == b.neigh_adj
    &&& a.edge_sector == b.edge_sector
    &&& a.boundary == b.boundary
    &&& a.sector@.len() == b.sector@.len()
    &&& forall|s: int|
        #![trigger a.sector@[s]]
        #![trigger b.sector@[s]]
        0 <= s < a.sector@.len() ==> a.sector@[s].arc == b.sector@[s].arc
}

/// Whether a fire that comes at time `h` through the neighbour at place `k`
/// reaches sector `j` of node `u`: the sector has a link edge at `k`, is not
/// burned, and has no earlier arrival.
pub open spec fn reached(u: Vertex, k: int, h: u128, j: int) -> bool {
    &&& u.edge_sector@[k]@.contains(Some(j as usize))
    &&& !u.sector@[j].burned
    &&& BurnTime::Time(h).le(u.sector@[j].time)
}

/// Sector `after` is sector `before` with the arrival at time `h` through
/// the neighbour at place `k`.
pub open spec fn sector_reached(before: Sector, after: Sector, k: usize, h: u128) -> bool {
    &&& after.arc == before.arc
    &&& after.burned == before.burned
    &&& after.sec_neigh_unexposed == before.sec_neigh_unexposed
    &&& after.time == BurnTime::Time(h)
    &&& is_first_position(before.arc@, k, after.prime_arc)
    &&& after.prime_arc is Some
}

/// What an arrival leaves of a node. The fire comes at time `h` through the
/// neighbour at place `k` of node `before`. Every sector that it reaches
/// takes the arrival; the others stay. If it reaches a sector and is no later
/// than the node's own time, the node takes the time and waits for the last
/// of the reached sectors (`took`); else the node's time and prime sector
/// stay.
pub open spec fn node_reached(before: Vertex, after: Vertex, k: int, h: u128, took: bool) -> bool {
    &&& same_structure(before, after)
    &&& after.burned == before.burned
    &&& forall|j: int|
        0 <= j < before.sector@.len() ==> if reached(before, k, h, j) {
            sector_reached(before.sector@[j], #[trigger] after.sector@[j], k as usize, h)
        } else {
            after.sector@[j] == before.sector@[j]
        }
    &&& took == (BurnTime::Time(h).le(before.time) && exists|j: int|
        0 <= j < before.sector@.len() && #[trigger] reached(before, k, h, j))
    &&& if took {
        &&& after.time == BurnTime::Time(h)
        &&& after.prime_sector matches Some(t) && t < before.sector@.len() && reached(
            before,
            k,
            h,
            t as int,
        ) && forall|j: int| t < j < before.sector@.len() ==> !#[trigger] reached(before, k, h, j)
    } else {
        &&& after.time == before.time
        &&& after.prime_sector == before.prime_sector
    }
}

/// Whether `j` stands in `list` before place `x`.
pub open spec fn listed_before(list: Seq<usize>, x: int, j: int) -> bool {
    exists|q: int| 0 <= q < x && q < list.len() && #[trigger] list[q] == j
}

impl Vertex {
    /// The labels at place `k` name sectors of the node whose arcs pass
    /// through `k`.
    pub open spec fn place_usable(&self, k: int) -> bool {
        &&& 0 <= k < self.edge_sector@.len()
        &&& forall|q: int|
            0 <= q < self.edge_sector@[k]@.len() ==> #[trigger] self.label_usable(k, q)
    }

    /// Lets the fire arrive at time `h` through the neighbour at place
    /// `num_neigh`. Returns whether the node took the time for its own.
    pub fn relax_from(&mut self, num_neigh: usize, h: u128) -> (took: bool)
        requires
            old(self).place_usable(num_neigh as int),
        ensures
            node_reached(*old(self), *final(self), num_neigh as int, h, took),
    {
        assert forall|q: int|
            0 <= q < self.edge_sector@[num_neigh as int]@.len() implies #[trigger] lab(
            self.edge_sector@,
            num_neigh as int,
            q,
        ) is Some by {
            assert(self.label_usable(num_neigh as int, q));
        }
        let vec_t: Vec<usize> = self.attached_sectors(num_neigh);
        let ghost row = self.edge_sector@[num_neigh as int]@;
        let ghost start = *self;
        let ghost k = num_neigh as int;
        let mut took: bool = false;
        let mut x: usize = 0;
        proof {
            assert(start.sector.len() == start.sector@.len());
            assert forall|y: usize| vec_t@.contains(y) implies y < start.sector@.len()
                && start.sector@[y as int].arc@.contains(num_neigh) by {
                let q = choose|q: int| 0 <= q < row.len() && row[q] == Some(y);
                assert(start.label_usable(k, q));
            }
        }
        while x < vec_t.len()
            invariant
                x <= vec_t@.len(),
                start == *old(self),
                k == num_neigh,
                start.sector@.len() <= usize::MAX,
                row == start.edge_sector@[k]@,
                strictly_increasing(vec_t@),
                forall|y: usize| vec_t@.contains(y) <==> row.contains(Some(y)),
                forall|y: usize|
                    vec_t@.contains(y) ==> y < start.sector@.len()
                        && start.sector@[y as int].arc@.contains(num_neigh),
                same_structure(start, *self),
                self.burned == start.burned,
                forall|j: int|
                    0 <= j < start.sector@.len() ==> if reached(start, k, h, j) && listed_before(
                        vec_t@,
                        x as int,
                        j,
                    ) {
                        sector_reached(start.sector@[j], #[trigger] self.sector@[j], num_neigh, h)
                    } else {
                        self.sector@[j] == start.sector@[j]
                    },
                took == (BurnTime::Time(h).le(start.time) && exists|j: int|
                    0 <= j < start.sector@.len() && #[trigger] reached(start, k, h, j)
                        && listed_before(vec_t@, x as int, j)),
                took ==> self.time == BurnTime::Time(h) && (self.prime_sector matches Some(t) && t
                    < start.sector@.len() && reached(start, k, h, t as int) && listed_before(
                    vec_t@,
                    x as int,
                    t as int,
                ) && forall|j: int|
                    t < j < start.sector@.len() && listed_before(vec_t@, x as int, j)
                        ==> !#[trigger] reached(start, k, h, j)),
                !took ==> self.time == start.time && self.prime_sector == start.prime_sector,
            decreases vec_t@.len() - x,
        {
            let t: usize = vec_t[x];
            let ghost before = *self;
            let ghost was_took = took;
            assert(vec_t@.contains(t));
            assert(!listed_before(vec_t@, x as int, t as int)) by {
                if listed_before(vec_t@, x as int, t as int) {
                    let q = choose|q: int| 0 <= q < x && q < vec_t@.len()
                        && #[trigger] vec_t@[q] == t;
                    assert(vec_t@[q] < vec_t@[x as int]);
                }
            }
            assert(self.sector@[t as int] == start.sector@[t as int]);
            let mut hit: bool = false;
            if !self.sector[t].is_burned() {
                if BurnTime::Time(h).inf_eq(self.sector[t].time()) {
                    hit = true;
                    self.sector[t].set_time(h);
                    let ind_prime_arc: usize = match self.sector[t].get_arc(num_neigh) {
                        Some(a) => a,
                        None => {
                            assert(false);
                            0
                        },
                    };
                    self.sector[t].set_prime_arc(ind_prime_arc);
                    if BurnTime::Time(h).inf_eq(&self.time) {
                        self.time = BurnTime::Time(h);
                        self.prime_sector = Some(t);
                        took = true;
                    }
                }
            }
            proof {
                assert(hit == reached(start, k, h, t as int));
                assert(listed_before(vec_t@, x + 1, t as int)) by {
                    assert(vec_t@[x as int] == t);
                }
                assert forall|j: int|
                    listed_before(vec_t@, x + 1, j) <==> listed_before(vec_t@, x as int, j) || j
                        == t by {
                    if listed_before(vec_t@, x + 1, j) {
                        let q = choose|q: int|
                            0 <= q < x + 1 && q < vec_t@.len() && #[trigger] vec_t@[q] == j;
                        if q < x {
                            assert(listed_before(vec_t@, x as int, j));
                        }
                    }
                    if listed_before(vec_t@, x as int, j) {
                        let q = choose|q: int|
                            0 <= q < x && q < vec_t@.len() && #[trigger] vec_t@[q] == j;
                        assert(vec_t@[q] == j);
                    }
                }
                assert forall|j: int| listed_before(vec_t@, x as int, j) implies j < t by {
                    let q = choose|q: int| 0 <= q < x && q < vec_t@.len()
                        && #[trigger] vec_t@[q] == j;
                    assert(vec_t@[q] < vec_t@[x as int]);
                }
                assert forall|j: int| 0 <= j < start.sector@.len() implies if reached(
                    start,
                    k,
                    h,
                    j,
                ) && listed_before(vec_t@, x + 1, j) {
                    sector_reached(start.sector@[j], #[trigger] self.sector@[j], num_neigh, h)
                } else {
                    self.sector@[j] == start.sector@[j]
                } by {
                    if j != t {
                        assert(self.sector@[j] == before.sector@[j]);
                    }
                }
                assert forall|s: int|
                    #![trigger start.sector@[s]]
                    #![trigger self.sector@[s]]
                    0 <= s < start.sector@.len() implies start.sector@[s].arc
                    == self.sector@[s].arc by {
                    if s != t {
                        assert(self.sector@[s] == before.sector@[s]);
                    }
                }
                if was_took {
                    assert(took);
                    let j0 = choose|j: int|
                        0 <= j < start.sector@.len() && #[trigger] reached(start, k, h, j)
                            && listed_before(vec_t@, x as int, j);
                    assert(reached(start, k, h, j0) && listed_before(vec_t@, x + 1, j0));
                } else if took {
                    assert(reached(start, k, h, t as int)
                        && listed_before(vec_t@, x + 1, t as int));
                } else {
                    if BurnTime::Time(h).le(start.time) {
                        assert(!hit);
                        assert forall|j: int|
                            0 <= j < start.sector@.len() && listed_before(
                                vec_t@,
                                x + 1,
                                j,
                            ) implies !#[trigger] reached(start, k, h, j) by {
                            if j != t {
                                assert(listed_before(vec_t@, x as int, j));
                            }
                        }
                    }
                }
            }
            x = x + 1;
        }
        proof {
            assert forall|j: int|
                0 <= j < start.sector@.len() && reached(start, k, h, j) implies listed_before(
                vec_t@,
                x as int,
                j,
            ) by {
                assert(row.contains(Some(j as usize)));
                assert(vec_t@.contains(j as usize));
                let q = choose|q: int| 0 <= q < vec_t@.len() && vec_t@[q] == j as usize;
                assert(vec_t@[q] == j);
            }
        }
        took
    }
}


/// Weight of a sector in the measure of the burning: 1 while it is not
/// burned.
pub open spec fn unburned_weight(s: Sector) -> nat {
    if s.burned {
        0
    } else {
        1
    }
}

/// `unburned_weight` as a value.
pub open spec fn unburned_fn() -> spec_fn(Sector) -> nat {
    |s: Sector| unburned_weight(s)
}

/// How many sectors of the node are not burned.
pub open spec fn unburned_sectors(v: Vertex) -> nat {
    sum_by(v.sector@, unburned_fn())
}

/// The node waits for a sector that is not burned.
pub open spec fn primed(v: Vertex) -> bool {
    v.prime_sector matches Some(s) && s < v.sector@.len() && !v.sector@[s as int].burned
}

/// Weight of a node in the measure of the burning: nothing once it is
/// burned; before, two for itself and two for each sector that is not burned,
/// less one while it waits for such a sector.
pub open spec fn node_weight(v: Vertex) -> nat {
    if v.burned {
        0
    } else if primed(v) {
        2 * unburned_sectors(v) + 1
    } else {
        2 * unburned_sectors(v) + 2
    }
}

/// `node_weight` as a value.
pub open spec fn node_weight_fn() -> spec_fn(Vertex) -> nat {
    |v: Vertex| node_weight(v)
}

/// Burning a sector takes one from the sectors that are not burned, if it
/// was not burned before.
pub proof fn lemma_unburned_after_burn(before: Seq<Sector>, after: Seq<Sector>, target: int)
    requires
        before.len() == after.len(),
        0 <= target < before.len(),
        forall|j: int|
            0 <= j < before.len() ==> sector_after_burn(before[j], #[trigger] after[j], j
                == target),
    ensures
        sum_by(after, unburned_fn()) + unburned_weight(before[target]) == sum_by(
            before,
            unburned_fn(),
        ),
{
    assert forall|j: int| 0 <= j < before.len() && j != target implies unburned_fn()(
        #[trigger] before[j],
    ) == unburned_fn()(after[j]) by {
        assert(sector_after_burn(before[j], after[j], j == target));
    }
    assert(sector_after_burn(before[target], after[target], true));
    lemma_sum_by_pointwise(before, after, unburned_fn(), target);
}

/// Sectors with the same marks count the same.
pub proof fn lemma_unburned_same(before: Seq<Sector>, after: Seq<Sector>)
    requires
        before.len() == after.len(),
        forall|j: int| 0 <= j < before.len() ==> (#[trigger] after[j]).burned == before[j].burned,
    ensures
        sum_by(after, unburned_fn()) == sum_by(before, unburned_fn()),
{
    assert forall|j: int| 0 <= j < before.len() implies unburned_fn()(#[trigger] before[j])
        == unburned_fn()(after[j]) by {
        assert(after[j].burned == before[j].burned);
    }
    lemma_sum_by_pointwise(before, after, unburned_fn(), -1);
}

/// An arrival does not add to the weight of a node.
pub proof fn lemma_weight_after_arrival(before: Vertex, after: Vertex, k: int, h: u128, took: bool)
    requires
        node_reached(before, after, k, h, took),
    ensures
        node_weight(after) <= node_weight(before),
{
    assert forall|j: int| 0 <= j < before.sector@.len() implies (#[trigger] after.sector@[j]).burned
        == before.sector@[j].burned by {
        if reached(before, k, h, j) {
            assert(sector_reached(before.sector@[j], after.sector@[j], k as usize, h));
        }
    }
    lemma_unburned_same(before.sector@, after.sector@);
    if took {
        let t = after.prime_sector->0;
        assert(after.sector@[t as int].burned == before.sector@[t as int].burned);
    } else {
        if primed(before) {
            let t = before.prime_sector->0;
            assert(after.sector@[t as int].burned == before.sector@[t as int].burned);
        }
    }
}

/// What the burning of the exposed sectors at time `v_time` leaves of a node:
/// each sector that was exposed and not burned is burned and carries the
/// time, and nothing shields it; the others keep mark and time, and those
/// that were exposed keep their shields. Exposure has spread from the burned
/// sectors.
pub open spec fn exposed_burned(before: Vertex, after: Vertex, v_time: u128) -> bool {
    &&& same_structure(before, after)
    &&& after.time == before.time
    &&& after.burned == before.burned
    &&& after.prime_sector == before.prime_sector
    &&& forall|j: int|
        0 <= j < before.sector@.len() ==> {
            let lit = before.sector@[j].exposed() && !before.sector@[j].burned;
            &&& (#[trigger] after.sector@[j]).prime_arc == before.sector@[j].prime_arc
            &&& after.sector@[j].burned == (before.sector@[j].burned || lit)
            &&& after.sector@[j].time == if lit {
                BurnTime::Time(v_time)
            } else {
                before.sector@[j].time
            }
            &&& after.sector@[j].shield_begin().subset_of(before.sector@[j].shield_begin())
            &&& after.sector@[j].shield_end().subset_of(before.sector@[j].shield_end())
            &&& lit ==> after.sector@[j].shield_begin().is_empty()
                && after.sector@[j].shield_end().is_empty()
            &&& !lit && before.sector@[j].exposed() ==> after.sector@[j].shield_begin()
                == before.sector@[j].shield_begin() && after.sector@[j].shield_end()
                == before.sector@[j].shield_end()
        }
    &&& exposed_by(before.sector@, after.sector@, spread(before.sector@, lit_sectors(before.sector@)))
}

/// The sectors that are exposed and not burned.
pub open spec fn lit_sectors(sectors: Seq<Sector>) -> Set<usize> {
    Set::new(|j: usize| j < sectors.len() && sectors[j as int].exposed()
        && !sectors[j as int].burned)
}

/// The sectors in `list` before place `x`.
pub open spec fn listed_set(list: Seq<usize>, x: int) -> Set<usize> {
    Set::new(|j: usize| listed_before(list, x, j as int))
}

/// Exposure spreads from no sector to none.
pub proof fn lemma_spread_nothing(sectors: Seq<Sector>)
    ensures
        spread(sectors, Set::<usize>::empty()) == Set::<usize>::empty(),
        exposed_by(sectors, sectors, Set::<usize>::empty()),
{
    let none = Set::<usize>::empty();
    assert(super::exposure::closed_under(sectors, none, none)) by {
        assert forall|j: int|
            0 <= j < sectors.len() && super::exposure::opens(
                #[trigger] sectors[j],
                none,
            ) implies none.contains(j as usize) by {
            let sec = sectors[j];
            if sec.shield_begin().subset_of(none) {
                assert(sec.shield_begin() =~= none);
            } else {
                assert(sec.shield_end() =~= none);
            }
        }
    }
    super::exposure::lemma_spread_least(sectors, none, none);
    assert(spread(sectors, none) =~= none);
    assert forall|j: int| 0 <= j < sectors.len() implies (#[trigger] sectors[j]).shield_begin()
        == sectors[j].shield_begin().difference(none) && sectors[j].shield_end()
        == sectors[j].shield_end().difference(none) by {
        assert(sectors[j].shield_begin() =~= sectors[j].shield_begin().difference(none));
        assert(sectors[j].shield_end() =~= sectors[j].shield_end().difference(none));
    }
}

impl Vertex {
    /// Burns every sector of the node that is exposed and not burned, at
    /// time `v_time`.
    pub fn burn_exposed(&mut self, v_time: u128)
        ensures
            exposed_burned(*old(self), *final(self), v_time),
            unburned_sectors(*final(self)) <= unburned_sectors(*old(self)),
    {
        let exposed_sectors: Vec<usize> = self.get_exposed_sectors();
        let ghost start = *self;
        let mut x: usize = 0;
        proof {
            assert(start.sector.len() == start.sector@.len());
            lemma_spread_nothing(start.sector@);
            assert(listed_set(exposed_sectors@, 0) =~= Set::<usize>::empty());
        }
        while x < exposed_sectors.len()
            invariant
                x <= exposed_sectors@.len(),
                start == *old(self),
                strictly_increasing(exposed_sectors@),
                forall|y: usize| #[trigger]
                    exposed_sectors@.contains(y) <==> y < start.sector@.len()
                        && start.sector@[y as int].exposed() && !start.sector@[y as int].burned,
                same_structure(start, *self),
                self.time == start.time,
                self.burned == start.burned,
                self.prime_sector == start.prime_sector,
                unburned_sectors(*self) <= unburned_sectors(start),
                start.sector@.len() <= usize::MAX,
                exposed_by(
                    start.sector@,
                    self.sector@,
                    spread(start.sector@, listed_set(exposed_sectors@, x as int)),
                ),
                forall|j: int|
                    0 <= j < start.sector@.len() ==> {
                        let lit = listed_before(exposed_sectors@, x as int, j);
                        &&& (#[trigger] self.sector@[j]).prime_arc == start.sector@[j].prime_arc
                        &&& self.sector@[j].burned == (start.sector@[j].burned || lit)
                        &&& self.sector@[j].time == if lit {
                            BurnTime::Time(v_time)
                        } else {
                            start.sector@[j].time
                        }
                        &&& self.sector@[j].shield_begin().subset_of(
                            start.sector@[j].shield_begin(),
                        )
                        &&& self.sector@[j].shield_end().subset_of(start.sector@[j].shield_end())
                        &&& lit ==> self.sector@[j].shield_begin().is_empty()
                            && self.sector@[j].shield_end().is_empty()
                        &&& !lit && start.sector@[j].exposed() ==> self.sector@[j].shield_begin()
                            == start.sector@[j].shield_begin() && self.sector@[j].shield_end()
                            == start.sector@[j].shield_end()
                    },
            decreases exposed_sectors@.len() - x,
        {
            let ind_sec: usize = exposed_sectors[x];
            assert(exposed_sectors@.contains(ind_sec));
            let ghost before = *self;
            assert(!listed_before(exposed_sectors@, x as int, ind_sec as int)) by {
                if listed_before(exposed_sectors@, x as int, ind_sec as int) {
                    let q = choose|q: int|
                        0 <= q < x && q < exposed_sectors@.len() && #[trigger] exposed_sectors@[q]
                            == ind_sec;
                    assert(exposed_sectors@[q] < exposed_sectors@[x as int]);
                }
            }
            self.burn_sector(ind_sec);
            let ghost mid = *self;
            self.sector[ind_sec].set_time(v_time);
            proof {
                let a = listed_set(exposed_sectors@, x as int);
                let b = Set::<usize>::empty().insert(ind_sec);
                lemma_spread_compose(start.sector@, before.sector@, a, b);
                lemma_exposed_by_chain(
                    start.sector@,
                    before.sector@,
                    mid.sector@,
                    spread(start.sector@, a),
                    spread(before.sector@, b),
                );
                assert(listed_set(exposed_sectors@, x + 1) =~= a.union(b)) by {
                    assert forall|j: usize|
                        listed_set(exposed_sectors@, x + 1).contains(j) <==> a.union(b).contains(
                            j,
                        ) by {
                        if listed_before(exposed_sectors@, x + 1, j as int) {
                            let q = choose|q: int|
                                0 <= q < x + 1 && q < exposed_sectors@.len()
                                    && #[trigger] exposed_sectors@[q] == j as int;
                            if q < x {
                                assert(listed_before(exposed_sectors@, x as int, j as int));
                            }
                        }
                        if listed_before(exposed_sectors@, x as int, j as int) {
                            let q = choose|q: int|
                                0 <= q < x && q < exposed_sectors@.len()
                                    && #[trigger] exposed_sectors@[q] == j as int;
                            assert(exposed_sectors@[q] == j as int);
                        }
                        if j == ind_sec {
                            assert(exposed_sectors@[x as int] == j as int);
                        }
                    }
                }
                assert(exposed_by(
                    start.sector@,
                    self.sector@,
                    spread(start.sector@, listed_set(exposed_sectors@, x + 1)),
                )) by {
                    assert forall|j: int| 0 <= j < start.sector@.len() implies (
                    #[trigger] self.sector@[j]).exposed() == mid.sector@[j].exposed()
                        && self.sector@[j].shield_begin() == mid.sector@[j].shield_begin()
                        && self.sector@[j].shield_end() == mid.sector@[j].shield_end() by {
                        if j != ind_sec {
                            assert(self.sector@[j] == mid.sector@[j]);
                        }
                    }
                }
                lemma_unburned_after_burn(before.sector@, mid.sector@, ind_sec as int);
                assert forall|j: int| 0 <= j < mid.sector@.len() implies (
                #[trigger] self.sector@[j]).burned == mid.sector@[j].burned by {
                    if j != ind_sec {
                        assert(self.sector@[j] == mid.sector@[j]);
                    }
                }
                lemma_unburned_same(mid.sector@, self.sector@);
                assert forall|j: int|
                    listed_before(exposed_sectors@, x + 1, j) <==> listed_before(
                        exposed_sectors@,
                        x as int,
                        j,
                    ) || j == ind_sec by {
                    if listed_before(exposed_sectors@, x + 1, j) {
                        let q = choose|q: int|
                            0 <= q < x + 1 && q < exposed_sectors@.len()
                                && #[trigger] exposed_sectors@[q] == j;
                        if q < x {
                            assert(listed_before(exposed_sectors@, x as int, j));
                        }
                    }
                    if listed_before(exposed_sectors@, x as int, j) {
                        let q = choose|q: int|
                            0 <= q < x && q < exposed_sectors@.len()
                                && #[trigger] exposed_sectors@[q] == j;
                        assert(exposed_sectors@[q] == j);
                    }
                    if j == ind_sec {
                        assert(exposed_sectors@[x as int] == j);
                    }
                }
                assert forall|j: int| 0 <= j < start.sector@.len() implies {
                    let lit = listed_before(exposed_sectors@, x + 1, j);
                    &&& (#[trigger] self.sector@[j]).prime_arc == start.sector@[j].prime_arc
                    &&& self.sector@[j].burned == (start.sector@[j].burned || lit)
                    &&& self.sector@[j].time == if lit {
                        BurnTime::Time(v_time)
                    } else {
                        start.sector@[j].time
                    }
                    &&& self.sector@[j].shield_begin().subset_of(start.sector@[j].shield_begin())
                    &&& self.sector@[j].shield_end().subset_of(start.sector@[j].shield_end())
                    &&& lit ==> self.sector@[j].shield_begin().is_empty()
                        && self.sector@[j].shield_end().is_empty()
                    &&& !lit && start.sector@[j].exposed() ==> self.sector@[j].shield_begin()
                        == start.sector@[j].shield_begin() && self.sector@[j].shield_end()
                        == start.sector@[j].shield_end()
                } by {
                    assert(sector_after_burn(before.sector@[j], mid.sector@[j], j == ind_sec));
                    if j != ind_sec {
                        assert(self.sector@[j] == mid.sector@[j]);
                        if listed_before(exposed_sectors@, x as int, j) {
                            assert(before.sector@[j].exposed());
                        }
                    }
                }
                assert forall|s: int|
                    #![trigger start.sector@[s]]
                    #![trigger self.sector@[s]]
                    0 <= s < start.sector@.len() implies start.sector@[s].arc
                    == self.sector@[s].arc by {
                    assert(sector_after_burn(before.sector@[s], mid.sector@[s], s == ind_sec));
                    if s != ind_sec {
                        assert(self.sector@[s] == mid.sector@[s]);
                    }
                }
            }
            x = x + 1;
        }
        proof {
            assert(start.sector.len() == start.sector@.len());
            assert(listed_set(exposed_sectors@, x as int) =~= lit_sectors(start.sector@)) by {
                assert forall|j: usize|
                    listed_set(exposed_sectors@, x as int).contains(j) <==> lit_sectors(
                        start.sector@,
                    ).contains(j) by {
                    if listed_before(exposed_sectors@, x as int, j as int) {
                        let q = choose|q: int|
                            0 <= q < x && q < exposed_sectors@.len()
                                && #[trigger] exposed_sectors@[q] == j as int;
                        assert(exposed_sectors@.contains(j));
                    }
                    if lit_sectors(start.sector@).contains(j) {
                        assert(exposed_sectors@.contains(j));
                        let q = choose|q: int|
                            0 <= q < exposed_sectors@.len() && exposed_sectors@[q] == j;
                        assert(exposed_sectors@[q] == j as int);
                    }
                }
            }
            assert forall|j: int| 0 <= j < start.sector@.len() implies (listed_before(
                exposed_sectors@,
                x as int,
                j,
            ) <==> start.sector@[j].exposed() && !start.sector@[j].burned) by {
                if listed_before(exposed_sectors@, x as int, j) {
                    let q = choose|q: int|
                        0 <= q < x && q < exposed_sectors@.len() && #[trigger] exposed_sectors@[q]
                            == j;
                    assert(exposed_sectors@.contains(j as usize));
                }
                if start.sector@[j].exposed() && !start.sector@[j].burned {
                    assert(exposed_sectors@.contains(j as usize));
                    let q = choose|q: int|
                        0 <= q < exposed_sectors@.len() && exposed_sectors@[q] == j as usize;
                    assert(exposed_sectors@[q] == j);
                }
            }
        }
    }

    /// Among the sectors in `unburned`, the first one with the earliest
    /// time.
    pub fn choose_sector(&self, unburned: &Vec<usize>) -> (r: usize)
        requires
            unburned@.len() > 0,
            forall|q: int| 0 <= q < unburned@.len()
                ==> (#[trigger] unburned@[q]) < self.sector@.len(),
        ensures
            exists|p: int|
                0 <= p < unburned@.len() && #[trigger] unburned@[p] == r && forall|q: int|
                    0 <= q < p ==> !self.sector@[(#[trigger] unburned@[q]) as int].time.le(
                        self.sector@[r as int].time,
                    ),
            forall|q: int|
                0 <= q < unburned@.len() ==> self.sector@[r as int].time.le(
                    self.sector@[(#[trigger] unburned@[q]) as int].time,
                ),
    {
        let mut best: usize = unburned[0];
        let ghost mut p: int = 0;
        let mut x: usize = 1;
        while x < unburned.len()
            invariant
                1 <= x <= unburned@.len(),
                forall|q: int|
                    0 <= q < unburned@.len() ==> (#[trigger] unburned@[q]) < self.sector@.len(),
                0 <= p < x,
                unburned@[p] == best,
                forall|q: int|
                    0 <= q < p ==> !self.sector@[(#[trigger] unburned@[q]) as int].time.le(
                        self.sector@[best as int].time,
                    ),
                forall|q: int|
                    0 <= q < x ==> self.sector@[best as int].time.le(
                        self.sector@[(#[trigger] unburned@[q]) as int].time,
                    ),
            decreases unburned@.len() - x,
        {
            let cand: usize = unburned[x];
            let ghost old_best = best;
            if !self.sector[best].time().inf_eq(self.sector[cand].time()) {
                proof {
                    assert forall|q: int| 0 <= q < x implies !self.sector@[(
                    #[trigger] unburned@[q]) as int].time.le(self.sector@[cand as int].time) by {
                        assert(self.sector@[old_best as int].time.le(
                            self.sector@[unburned@[q] as int].time,
                        ));
                    }
                    assert forall|q: int| 0 <= q < x + 1 implies self.sector@[cand as int].time.le(
                        self.sector@[(#[trigger] unburned@[q]) as int].time,
                    ) by {
                        if q < x {
                            assert(self.sector@[old_best as int].time.le(
                                self.sector@[unburned@[q] as int].time,
                            ));
                        }
                    }
                    p = x as int;
                }
                best = cand;
            }
            x = x + 1;
        }
        best
    }
}


/// What a turn at time `v_time` does to the marks and times of a node: the
/// sector it waited for is burned, and so is every sector that was exposed
/// then. A sector keeps its prime arc; it keeps its time too, unless it was
/// burned as an exposed one, which gives it the time `v_time`. The sector that
/// the node waited for keeps its time. One sector less is unburned if the node
/// waited for an unburned sector; and if the node waited for none and all its
/// sectors were exposed and unburned, all are burned now.
pub open spec fn turn_marks(before: Vertex, after: Vertex, v_time: u128) -> bool {
    &&& same_structure(before, after)
    &&& after.time == before.time
    &&& after.burned == before.burned
    &&& after.prime_sector == before.prime_sector
    &&& forall|j: int|
        0 <= j < before.sector@.len() ==> {
            &&& (#[trigger] after.sector@[j]).prime_arc == before.sector@[j].prime_arc
            &&& before.sector@[j].burned ==> after.sector@[j].burned
            &&& after.sector@[j].time == before.sector@[j].time || (after.sector@[j].burned
                && !before.sector@[j].burned && after.sector@[j].time == BurnTime::Time(v_time))
            &&& after.sector@[j].burned && !before.sector@[j].burned ==> before.prime_sector
                == Some(j as usize) || after.sector@[j].time == BurnTime::Time(v_time)
        }
    &&& before.prime_sector matches Some(p) ==> after.sector@[p as int].burned
        && after.sector@[p as int].time == before.sector@[p as int].time
    &&& primed(before) ==> unburned_sectors(after) + 1 <= unburned_sectors(before)
    &&& unburned_sectors(after) <= unburned_sectors(before)
    &&& before.prime_sector is None && (forall|j: int|
        0 <= j < before.sector@.len() ==> (#[trigger] before.sector@[j]).exposed()
            && !before.sector@[j].burned) ==> forall|j: int|
        0 <= j < before.sector@.len() ==> (#[trigger] after.sector@[j]).burned
}

/// Which sectors a turn at time `v_time` burns, and what it does to the
/// shields: the sector that the node waited for burns, and with it the
/// sectors of the turn; these get the time `v_time`. Nothing shields a sector
/// that burned in the turn, a sector that was exposed before keeps its
/// shields, and exposure has spread from all the sectors that burned in the
/// turn.
pub open spec fn turn_exposure(before: Vertex, after: Vertex, v_time: u128) -> bool {
    &&& forall|j: int|
        0 <= j < before.sector@.len() ==> (#[trigger] after.sector@[j]).burned == (
        before.sector@[j].burned || prime_set(before).contains(j as usize) || turn_set(
            before,
        ).contains(j as usize)) && after.sector@[j].time == if turn_set(before).contains(
            j as usize,
        ) {
            BurnTime::Time(v_time)
        } else {
            before.sector@[j].time
        }
    &&& forall|j: int|
        0 <= j < before.sector@.len() ==> {
            let burns = prime_set(before).contains(j as usize) || turn_set(before).contains(
                j as usize,
            );
            &&& burns ==> (#[trigger] after.sector@[j]).shield_begin().is_empty()
                && after.sector@[j].shield_end().is_empty()
            &&& !burns && before.sector@[j].exposed() ==> after.sector@[j].shield_begin()
                == before.sector@[j].shield_begin() && after.sector@[j].shield_end()
                == before.sector@[j].shield_end()
        }
    &&& exposed_by(
        before.sector@,
        after.sector@,
        spread(before.sector@, prime_set(before).union(turn_set(before))),
    )
}

/// What is left of a node when its turn has come at time `v_time`: the
/// sector it waited for is burned, and so is every sector that is exposed
/// then, at the time `v_time`; and exposure has spread from them.
pub open spec fn ignited(before: Vertex, after: Vertex, v_time: u128) -> bool {
    turn_marks(before, after, v_time) && turn_exposure(before, after, v_time)
}

/// The sector that the node waits for, as a set.
pub open spec fn prime_set(v: Vertex) -> Set<usize> {
    match v.prime_sector {
        Some(p) => Set::<usize>::empty().insert(p),
        None => Set::<usize>::empty(),
    }
}

/// The sectors that burn as exposed ones when the node's turn comes: those
/// that are not burned, and are not the sector that the node waits for, and
/// are exposed or become so when that sector burns.
pub open spec fn turn_set(v: Vertex) -> Set<usize> {
    Set::new(
        |j: usize|
            j < v.sector@.len() && !v.sector@[j as int].burned && !prime_set(v).contains(j) && (
            v.sector@[j as int].exposed() || spread(v.sector@, prime_set(v)).contains(j)),
    )
}

impl Vertex {
    /// The node's turn has come at time `v_time`: burns the sector that the
    /// node waited for, and then every sector that is exposed.
    pub fn ignite(&mut self, v_time: u128)
        requires
            old(self).prime_sector matches Some(p) ==> p < old(self).sector@.len(),
        ensures
            ignited(*old(self), *final(self), v_time),
    {
        let ghost start = *self;
        match self.prime_sector {
            Some(prime_sector) => {
                self.burn_sector(prime_sector);
                proof {
                    lemma_unburned_after_burn(start.sector@, self.sector@, prime_sector as int);
                    assert(sector_after_burn(
                        start.sector@[prime_sector as int],
                        self.sector@[prime_sector as int],
                        true,
                    ));
                }
            },
            None => {},
        }
        let ghost mid = *self;
        proof {
            assert forall|j: int| 0 <= j < start.sector@.len() implies (
            #[trigger] mid.sector@[j]).prime_arc == start.sector@[j].prime_arc
                && mid.sector@[j].time == start.sector@[j].time && mid.sector@[j].arc
                == start.sector@[j].arc && (start.sector@[j].burned ==> mid.sector@[j].burned) by {
                if start.prime_sector is Some {
                    assert(sector_after_burn(
                        start.sector@[j],
                        mid.sector@[j],
                        j == start.prime_sector->0,
                    ));
                }
            }
        }
        self.burn_exposed(v_time);
        proof {
            assert forall|j: int| 0 <= j < start.sector@.len() implies {
                &&& (#[trigger] self.sector@[j]).prime_arc == start.sector@[j].prime_arc
                &&& start.sector@[j].burned ==> self.sector@[j].burned
                &&& self.sector@[j].time == start.sector@[j].time || (self.sector@[j].burned
                    && !start.sector@[j].burned && self.sector@[j].time == BurnTime::Time(v_time))
                &&& self.sector@[j].burned && !start.sector@[j].burned ==> start.prime_sector
                    == Some(j as usize) || self.sector@[j].time == BurnTime::Time(v_time)
            } by {
                assert(start.sector.len() == start.sector@.len());
                if start.prime_sector is Some {
                    assert(sector_after_burn(
                        start.sector@[j],
                        mid.sector@[j],
                        j == start.prime_sector->0,
                    ));
                } else {
                    assert(mid.sector@[j] == start.sector@[j]);
                }
                let a = mid.sector@[j];
                assert(a.prime_arc == start.sector@[j].prime_arc);
                let b = self.sector@[j];
                assert(b.prime_arc == a.prime_arc);
            }
            assert forall|s: int|
                #![trigger start.sector@[s]]
                #![trigger self.sector@[s]]
                0 <= s < start.sector@.len() implies start.sector@[s].arc
                == self.sector@[s].arc by {
                assert(mid.sector@[s].arc == start.sector@[s].arc);
                assert(mid.sector@[s].arc == self.sector@[s].arc);
            }
            if start.prime_sector is Some {
                let p = start.prime_sector->0 as int;
                assert(mid.sector@[p].burned);
                assert(self.sector@[p].time == mid.sector@[p].time);
            }
            if start.prime_sector is None && (forall|j: int|
                0 <= j < start.sector@.len() ==> (#[trigger] start.sector@[j]).exposed()
                    && !start.sector@[j].burned) {
                assert forall|j: int| 0 <= j < start.sector@.len() implies (
                #[trigger] self.sector@[j]).burned by {
                    assert(start.sector@[j].exposed() && !start.sector@[j].burned);
                }
            }
            // exposure has spread from the prime sector, and then from the exposed ones
            let s0 = start.sector@;
            let sm = mid.sector@;
            let a = prime_set(start);
            let b = lit_sectors(sm);
            assert(start.sector.len() == s0.len());
            if start.prime_sector is None {
                assert(mid == start);
                lemma_spread_nothing(s0);
            }
            assert(exposed_by(s0, sm, spread(s0, a)));
            assert(b =~= turn_set(start)) by {
                assert forall|j: usize| b.contains(j) <==> turn_set(start).contains(j) by {
                    if j < s0.len() {
                        if start.prime_sector is Some {
                            assert(sector_after_burn(
                                s0[j as int],
                                sm[j as int],
                                j == start.prime_sector->0,
                            ));
                        }
                    }
                }
            }
            lemma_spread_compose(s0, sm, a, b);
            lemma_exposed_by_chain(s0, sm, self.sector@, spread(s0, a), spread(sm, b));
            assert forall|j: int| 0 <= j < s0.len() implies (#[trigger] self.sector@[j]).burned == (
            s0[j].burned || a.contains(j as usize) || turn_set(start).contains(j as usize))
                && self.sector@[j].time == if turn_set(start).contains(j as usize) {
                BurnTime::Time(v_time)
            } else {
                s0[j].time
            } by {
                assert(b.contains(j as usize) == (sm[j].exposed() && !sm[j].burned));
                if start.prime_sector is Some {
                    assert(sector_after_burn(s0[j], sm[j], j == start.prime_sector->0));
                }
            }
            assert forall|j: int| 0 <= j < s0.len() implies {
                let burns = a.contains(j as usize) || turn_set(start).contains(j as usize);
                &&& burns ==> (#[trigger] self.sector@[j]).shield_begin().is_empty()
                    && self.sector@[j].shield_end().is_empty()
                &&& !burns && s0[j].exposed() ==> self.sector@[j].shield_begin()
                    == s0[j].shield_begin() && self.sector@[j].shield_end() == s0[j].shield_end()
            } by {
                assert(b.contains(j as usize) == (sm[j].exposed() && !sm[j].burned));
                if start.prime_sector is Some {
                    assert(sector_after_burn(s0[j], sm[j], j == start.prime_sector->0));
                }
                let t = self.sector@[j];
                assert(t.prime_arc == sm[j].prime_arc);
            }
        }
    }
}

} // verus!
