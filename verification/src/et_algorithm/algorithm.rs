//! The burning: the fire starts at the nodes with a known radius and eats
//! its way through the burn graph, node by node in the order of their times.

use vstd::prelude::*;
use super::burntime::BurnTime;
use super::front::{
    ignited, lemma_weight_after_arrival, listed_before, node_reached, node_weight,
    node_weight_fn, primed, reached, same_structure, sector_reached, turn_marks,
    unburned_sectors,
};
use super::graph::{ETGraph, all_ready, is_burn_graph, node_ready, untouched};
use super::vertex::{Vertex, lab};
use crate::error::EtError;
use crate::geometry::{DISTANCE_LIMIT, distance, norm};
use crate::sequences::{
    is_first_position, lemma_sum_by_all, lemma_sum_by_pointwise, lemma_sum_by_update, sum_by,
};
use crate::skeleton::erosion_path::{ErosionPath, is_path_edge, is_path_vertex};
use crate::skeleton::properties::{
    NameMap, Property, PropertyType, SCALAR_LIMIT, color_channel, colored, column_ready,
    is_column_max, is_column_min, ramp, scalar_at,
};
use crate::skeleton::skeleton::Skeleton;

verus! {

broadcast use vstd::array::group_array_axioms;

/// No time of the burning exceeds `time_limit(k)` once `k` nodes are burned:
/// a radius is below 2^31, and each burned node adds one distance at most.
pub open spec fn time_limit(k: nat) -> nat {
    0x8000_0000 + k * 0x2_0000_0000
}

/// Some node with a known radius has a radius of `t` at most.
pub open spec fn above_seed(verts: Seq<Vertex>, t: u128) -> bool {
    exists|s: int| 0 <= s < verts.len() && (#[trigger] verts[s]).rad >= 0 && verts[s].rad <= t
}

/// The time of sector `s` of node `i` is that of a fire that came from a
/// burned neighbour: the sector's prime arc points at a neighbour `w` that is
/// burned, and the sector's time is the time of `w` and the distance from `w`
/// to the node.
pub open spec fn arrival_ok(verts: Seq<Vertex>, i: int, s: int) -> bool {
    let sec = verts[i].sector@[s];
    &&& sec.prime_arc is Some
    &&& sec.prime_arc->0 < sec.arc@.len()
    &&& sec.arc@[sec.prime_arc->0 as int] < verts[i].neigh@.len()
    &&& {
        let w = verts[i].neigh@[sec.arc@[sec.prime_arc->0 as int] as int] as int;
        &&& w < verts.len()
        &&& verts[w].burned
        &&& verts[w].time is Time
        &&& sec.time is Time
        &&& sec.time->0 == verts[w].time->0 + distance(verts[w].pos, verts[i].pos)
    }
}

/// Weight of a node in the count of the nodes that are not burned.
pub open spec fn unburned_node(v: Vertex) -> nat {
    if v.burned {
        0
    } else {
        1
    }
}

/// `unburned_node` as a value.
pub open spec fn unburned_node_fn() -> spec_fn(Vertex) -> nat {
    |v: Vertex| unburned_node(v)
}

/// Weight of a flag in the count of the queue.
pub open spec fn queued(b: bool) -> nat {
    if b {
        1
    } else {
        0
    }
}

/// `queued` as a value.
pub open spec fn queued_fn() -> spec_fn(bool) -> nat {
    |b: bool| queued(b)
}

/// What holds of node `i` while the graph burns, with `k` nodes burned and
/// the queue `q`.
///
/// A node that waits for a sector has that sector's time, and the time is
/// that of a fire from a burned neighbour; so is the time of every sector
/// that is not burned and has a time. A node with a time is burned or queued,
/// a queued node has a time and is not burned, and no sector of a node that
/// neither is burned nor queued has a time before it burns. A burned node has
/// a time. A burned sector has a time, and all sectors
/// of a burned node are burned. A node with a known radius waits for no
/// sector, has its radius for its time or none, and its sectors get no time
/// before they burn. Any other node with a time waits for a sector. No time
/// is above the limit for `k` burned nodes, and each is at least the radius of
/// some node with a known radius.
pub open spec fn node_inv(verts: Seq<Vertex>, q: Seq<bool>, k: nat, i: int) -> bool {
    let v = verts[i];
    &&& v.prime_sector is Some ==> v.prime_sector->0 < v.sector@.len()
        && v.sector@[v.prime_sector->0 as int].time == v.time && v.time is Time && arrival_ok(
        verts,
        i,
        v.prime_sector->0 as int,
    )
    &&& forall|s: int|
        0 <= s < v.sector@.len() && !(#[trigger] v.sector@[s]).burned && v.sector@[s].time is Time
            ==> arrival_ok(verts, i, s)
    &&& !v.burned && v.time is Time ==> q[i]
    &&& q[i] ==> !v.burned && v.time is Time
    &&& !v.burned && !q[i] ==> forall|s: int|
        0 <= s < v.sector@.len() && !(#[trigger] v.sector@[s]).burned ==> v.sector@[s].time
            == BurnTime::Infinity
    &&& v.burned ==> v.time is Time
    &&& v.is_seed() ==> v.prime_sector is None && (v.time == BurnTime::Time(v.rad as u128) || v.time
        == BurnTime::Infinity) && forall|s: int|
        0 <= s < v.sector@.len() && !(#[trigger] v.sector@[s]).burned ==> v.sector@[s].time
            == BurnTime::Infinity
    &&& !v.is_seed() && v.time is Time ==> v.prime_sector is Some
    &&& forall|s: int|
        0 <= s < v.sector@.len() && (#[trigger] v.sector@[s]).burned ==> v.sector@[s].time is Time
    &&& v.burned ==> forall|s: int| 0 <= s < v.sector@.len() ==> (#[trigger] v.sector@[s]).burned
    &&& v.time is Time ==> v.time->0 <= time_limit(k) && above_seed(verts, v.time->0)
    &&& forall|s: int|
        0 <= s < v.sector@.len() && (#[trigger] v.sector@[s]).time is Time ==> v.sector@[s].time->0
            <= time_limit(k) && above_seed(verts, v.sector@[s].time->0)
}

/// All sectors of the node are exposed.
pub open spec fn all_exposed(v: Vertex) -> bool {
    forall|s: int| 0 <= s < v.sector@.len() ==> (#[trigger] v.sector@[s]).exposed()
}

/// A node with a known radius, all of whose sectors were exposed when the
/// fire started, is burned at the time of its radius, or waits in the queue as
/// it was.
pub open spec fn seed_inv(init: Seq<Vertex>, verts: Seq<Vertex>, q: Seq<bool>, i: int) -> bool {
    init[i].is_seed() && all_exposed(init[i]) ==> (verts[i].burned && verts[i].time
        == BurnTime::Time(init[i].rad as u128)) || (verts[i] == init[i] && q[i])
}

/// The node as the fire finds it when it starts: not burned, waiting for no
/// sector, with no burned sector, and with its radius for its time if the
/// radius is known.
pub open spec fn started(v: Vertex) -> bool {
    &&& !v.burned
    &&& v.prime_sector is None
    &&& forall|s: int| 0 <= s < v.sector@.len() ==> !(#[trigger] v.sector@[s]).burned
    &&& v.is_seed() ==> v.time == BurnTime::Time(v.rad as u128)
}

/// `order` lists the burned nodes, each once, and a node that the fire
/// reached from another stands after that one.
pub open spec fn order_inv(verts: Seq<Vertex>, order: Seq<usize>) -> bool {
    &&& order.no_duplicates()
    &&& forall|k: int|
        0 <= k < order.len() ==> (#[trigger] order[k]) < verts.len()
            && verts[order[k] as int].burned
    &&& forall|i: int|
        0 <= i < verts.len() && (#[trigger] verts[i]).burned ==> order.contains(i as usize)
    &&& forall|k: int|
        0 <= k < order.len() && verts[(#[trigger] order[k]) as int].predecessor() is Some
            ==> listed_before(order, k, verts[order[k] as int].predecessor()->0 as int)
    &&& order.len() + sum_by(verts, unburned_node_fn()) == verts.len()
}

/// What holds while the graph burns. `init` is the graph when the fire
/// started, `verts` the graph now, `q` the queue, `order` the burned nodes in
/// the order in which they burned.
pub open spec fn burning(
    init: Seq<Vertex>,
    verts: Seq<Vertex>,
    q: Seq<bool>,
    order: Seq<usize>,
) -> bool {
    &&& verts.len() == init.len()
    &&& q.len() == init.len()
    &&& forall|i: int| 0 <= i < verts.len() ==> started(#[trigger] init[i])
    &&& forall|i: int| 0 <= i < verts.len() ==> same_structure(init[i], #[trigger] verts[i])
    &&& forall|i: int| 0 <= i < verts.len() ==> #[trigger] node_ready(verts, i)
    &&& forall|i: int| 0 <= i < verts.len() ==> #[trigger] node_inv(verts, q, order.len(), i)
    &&& forall|i: int| 0 <= i < verts.len() ==> #[trigger] seed_inv(init, verts, q, i)
    &&& order_inv(verts, order)
}

/// Every sector of node `u` with a link edge at the neighbour at place `k`
/// has a time.
pub open spec fn attached_lit(u: Vertex, k: int) -> bool {
    forall|q: int|
        0 <= q < u.edge_sector@[k]@.len() ==> (#[trigger] lab(u.edge_sector@, k, q)) is Some
            && u.sector@[lab(u.edge_sector@, k, q)->0 as int].time is Time
}

/// The fire of node `v` has reached its neighbour at place `p`: unless that
/// neighbour has a known radius, each of its sectors with a link edge at `v`
/// has a time.
pub open spec fn covered(verts: Seq<Vertex>, v: int, p: int) -> bool {
    let u = verts[v].neigh@[p] as int;
    !verts[u].is_seed() ==> forall|k: int|
        0 <= k < verts[u].neigh@.len() && is_first_position(
            verts[u].neigh@,
            v as usize,
            Some(k as usize),
        ) ==> #[trigger] attached_lit(verts[u], k)
}

/// Whether the fire of node `v` is asked to have reached its neighbour at
/// place `p`: the node is burned; but of node `except` only the neighbours
/// before place `upto` are asked for.
pub open spec fn asked(verts: Seq<Vertex>, except: int, upto: int, v: int, p: int) -> bool {
    0 <= v < verts.len() && verts[v].burned && 0 <= p < verts[v].neigh@.len() && (v != except || p
        < upto)
}

/// The fire of every burned node has reached all its neighbours; but of
/// node `except` only those before place `upto`.
pub open spec fn coverage(verts: Seq<Vertex>, except: int, upto: int) -> bool {
    forall|v: int, p: int| asked(verts, except, upto, v, p) ==> #[trigger] covered(verts, v, p)
}

/// The fire has reached what it had reached before, as long as no sector
/// loses its time and nothing more is asked for.
pub proof fn lemma_coverage_step(
    v1: Seq<Vertex>,
    v2: Seq<Vertex>,
    e1: int,
    u1: int,
    e2: int,
    u2: int,
)
    requires
        coverage(v1, e1, u1),
        v1.len() == v2.len(),
        forall|i: int| 0 <= i < v1.len() ==> #[trigger] node_ready(v1, i),
        forall|i: int| 0 <= i < v1.len() ==> same_structure(#[trigger] v1[i], v2[i]),
        forall|i: int, s: int|
            0 <= i < v1.len() && 0 <= s < v1[i].sector@.len()
                && (#[trigger] v1[i].sector@[s]).time is Time
                ==> v2[i].sector@[s].time is Time,
        forall|v: int, p: int| #[trigger] asked(v2, e2, u2, v, p) ==> asked(v1, e1, u1, v, p),
    ensures
        coverage(v2, e2, u2),
{
    assert forall|v: int, p: int| asked(v2, e2, u2, v, p) implies #[trigger] covered(
        v2,
        v,
        p,
    ) by {
        assert(asked(v1, e1, u1, v, p));
        assert(same_structure(v1[v], v2[v]));
        assert(covered(v1, v, p));
        assert(node_ready(v1, v));
        let u = v1[v].neigh@[p] as int;
        assert(u < v1.len());
        assert(same_structure(v1[u], v2[u]));
        if !v2[u].is_seed() {
            assert forall|k: int|
                0 <= k < v2[u].neigh@.len() && is_first_position(
                    v2[u].neigh@,
                    v as usize,
                    Some(k as usize),
                ) implies #[trigger] attached_lit(v2[u], k) by {
                assert(attached_lit(v1[u], k));
                assert forall|q: int| 0 <= q < v2[u].edge_sector@[k]@.len() implies (
                #[trigger] lab(v2[u].edge_sector@, k, q)) is Some && v2[u].sector@[lab(
                    v2[u].edge_sector@,
                    k,
                    q,
                )->0 as int].time is Time by {
                    let t = lab(v1[u].edge_sector@, k, q)->0 as int;
                    assert(node_ready(v1, u));
                    assert(v1[u].label_usable(k, q));
                    assert(v1[u].sector@[t].time is Time);
                }
            }
        }
    }
}

/// The limit grows with the number of burned nodes.
pub proof fn lemma_time_limit(k1: nat, k2: nat)
    requires
        k1 <= k2,
    ensures
        time_limit(k1) <= time_limit(k2),
        k1 < k2 ==> time_limit(k1) + 0x2_0000_0000 <= time_limit(k2),
        k2 <= usize::MAX ==> time_limit(k2) < 0x10_0000_0000_0000_0000_0000_0000,
{
    assert(k1 * 0x2_0000_0000 <= k2 * 0x2_0000_0000) by (nonlinear_arith)
        requires
            k1 <= k2,
    ;
    if k1 < k2 {
        assert((k1 + 1) * 0x2_0000_0000 <= k2 * 0x2_0000_0000) by (nonlinear_arith)
            requires
                k1 + 1 <= k2,
        ;
        assert((k1 + 1) * 0x2_0000_0000 == k1 * 0x2_0000_0000 + 0x2_0000_0000) by (nonlinear_arith);
    }
    if k2 <= usize::MAX {
        assert(usize::MAX <= 0xffff_ffff_ffff_ffff);
        assert(k2 * 0x2_0000_0000 <= 0xffff_ffff_ffff_ffff * 0x2_0000_0000) by (nonlinear_arith)
            requires
                k2 <= 0xffff_ffff_ffff_ffff,
        ;
    }
}

/// Nodes with the same structure are ready together.
pub proof fn lemma_ready_frame(v1: Seq<Vertex>, v2: Seq<Vertex>, i: int)
    requires
        v1.len() == v2.len(),
        0 <= i < v1.len(),
        forall|j: int| 0 <= j < v1.len() ==> same_structure(#[trigger] v1[j], v2[j]),
        node_ready(v1, i),
    ensures
        node_ready(v2, i),
{
    let a = v1[i];
    let b = v2[i];
    assert(same_structure(a, b));
    assert forall|k: int, q: int|
        0 <= k < b.edge_sector@.len() && 0 <= q < b.edge_sector@[k]@.len()
            implies #[trigger] b.label_usable(
        k,
        q,
    ) by {
        assert(a.label_usable(k, q));
        let t = a.edge_sector@[k]@[q]->0;
        assert(a.sector@[t as int].arc == b.sector@[t as int].arc);
    }
    assert forall|s: int, x: int|
        0 <= s < b.sector@.len() && 0 <= x < b.sector@[s].arc@.len() implies (
    #[trigger] b.sector@[s].arc@[x]) < b.neigh@.len() by {
        assert(a.sector@[s].arc == b.sector@[s].arc);
        assert(a.sector@[s].arc@[x] < a.neigh@.len());
    }
    assert forall|p: int| 0 <= p < b.neigh@.len() implies (#[trigger] b.neigh@[p]) < v2.len()
        && v2[b.neigh@[p] as int].neigh@.contains(i as usize) by {
        let u = a.neigh@[p] as int;
        assert(u < v1.len());
        assert(same_structure(v1[u], v2[u]));
    }
}

/// What holds of a node goes on holding while the node stays as it is, in
/// the queue or out of it, the burned nodes stay as they are, no radius
/// changes, and no burned node is taken back.
pub proof fn lemma_node_inv_frame(
    v1: Seq<Vertex>,
    q1: Seq<bool>,
    k1: nat,
    v2: Seq<Vertex>,
    q2: Seq<bool>,
    k2: nat,
    i: int,
)
    requires
        v1.len() == v2.len(),
        q1.len() == v1.len(),
        q2.len() == v1.len(),
        0 <= i < v1.len(),
        node_inv(v1, q1, k1, i),
        v2[i] == v1[i],
        q1[i] == q2[i],
        k1 <= k2,
        forall|w: int| 0 <= w < v1.len() && (#[trigger] v1[w]).burned ==> v2[w] == v1[w],
        forall|w: int| 0 <= w < v1.len() ==> (#[trigger] v2[w]).rad == v1[w].rad,
    ensures
        node_inv(v2, q2, k2, i),
{
    let v = v1[i];
    lemma_time_limit(k1, k2);
    assert forall|s: int| 0 <= s < v.sector@.len() && arrival_ok(v1, i, s) implies arrival_ok(
        v2,
        i,
        s,
    ) by {
        let sec = v.sector@[s];
        let w = v.neigh@[sec.arc@[sec.prime_arc->0 as int] as int] as int;
        assert(v1[w].burned);
        assert(v2[w] == v1[w]);
    }
    assert forall|t: u128| above_seed(v1, t) implies above_seed(v2, t) by {
        let s = choose|s: int| 0 <= s < v1.len() && (#[trigger] v1[s]).rad >= 0 && v1[s].rad <= t;
        assert(v2[s].rad == v1[s].rad);
    }
    assert forall|s: int|
        0 <= s < v.sector@.len() && !(#[trigger] v.sector@[s]).burned
            && v.sector@[s].time is Time implies arrival_ok(
        v2,
        i,
        s,
    ) by {
        assert(arrival_ok(v1, i, s));
    }
    assert forall|s: int|
        0 <= s < v.sector@.len() && (#[trigger] v.sector@[s]).time is Time
            implies v.sector@[s].time->0
        <= time_limit(k2) && above_seed(v2, v.sector@[s].time->0) by {
        assert(above_seed(v1, v.sector@[s].time->0));
    }
}


/// Nodes with the same structure as a node have the same structure as each
/// other.
pub proof fn lemma_same_structure_chain(a: Vertex, b: Vertex, c: Vertex)
    requires
        same_structure(a, b),
        same_structure(b, c),
    ensures
        same_structure(a, c),
{
    assert forall|s: int|
        #![trigger a.sector@[s]]
        #![trigger c.sector@[s]]
        0 <= s < a.sector@.len() implies a.sector@[s].arc == c.sector@[s].arc by {
        assert(a.sector@[s].arc == b.sector@[s].arc);
        assert(b.sector@[s].arc == c.sector@[s].arc);
    }
}

/// A node has the same structure as itself.
pub proof fn lemma_same_structure_self(a: Vertex)
    ensures
        same_structure(a, a),
{
}

/// The step of the burning that lets the fire of the burned node `v` reach
/// its neighbour `u` keeps what holds while the graph burns.
pub proof fn lemma_reach(
    init: Seq<Vertex>,
    s0: Seq<Vertex>,
    q0: Seq<bool>,
    order: Seq<usize>,
    s1: Seq<Vertex>,
    q1: Seq<bool>,
    v: int,
    u: int,
    k: int,
    h: u128,
    took: bool,
)
    requires
        burning(init, s0, q0, order),
        0 <= v < s0.len(),
        0 <= u < s0.len(),
        s1 == s0.update(u, s1[u]),
        node_reached(s0[u], s1[u], k, h, took),
        q1 == if took {
            q0.update(u, true)
        } else {
            q0
        },
        !s0[u].burned,
        !s0[u].is_seed(),
        s0[v].burned,
        s0[v].time is Time,
        h == s0[v].time->0 + distance(s0[v].pos, s0[u].pos),
        is_first_position(s0[u].neigh@, v as usize, Some(k as usize)),
        0 <= k <= usize::MAX,
        v <= usize::MAX,
        h <= time_limit(order.len()),
    ensures
        burning(init, s1, q1, order),
        s1[u].time.le(s0[u].time),
        attached_lit(s1[u], k),
        forall|i: int, s: int|
            0 <= i < s0.len() && 0 <= s < s0[i].sector@.len()
                && (#[trigger] s0[i].sector@[s]).time is Time
                ==> s1[i].sector@[s].time is Time,
{
    let a = s0[u];
    let b = s1[u];
    let n = s0.len() as int;
    let kk = order.len();
    assert(node_inv(s0, q0, kk, u));
    assert(node_inv(s0, q0, kk, v));
    assert forall|i: int| 0 <= i < n implies same_structure(#[trigger] s0[i], s1[i]) by {
        if i != u {
            lemma_same_structure_self(s0[i]);
        }
    }
    assert forall|i: int| 0 <= i < n implies same_structure(init[i], #[trigger] s1[i]) by {
        assert(same_structure(init[i], s0[i]));
        assert(same_structure(s0[i], s1[i]));
        lemma_same_structure_chain(init[i], s0[i], s1[i]);
    }
    assert forall|i: int| 0 <= i < n implies #[trigger] node_ready(s1, i) by {
        assert(node_ready(s0, i));
        lemma_ready_frame(s0, s1, i);
    }
    assert forall|w: int| 0 <= w < n && (#[trigger] s0[w]).burned implies s1[w] == s0[w] by {}
    assert forall|w: int| 0 <= w < n implies (#[trigger] s1[w]).rad == s0[w].rad by {
        assert(same_structure(s0[w], s1[w]));
    }
    // the sectors of `u`
    assert forall|j: int| 0 <= j < a.sector@.len() && reached(a, k, h, j) implies arrival_ok(
        s1,
        u,
        j,
    ) by {
        assert(sector_reached(a.sector@[j], b.sector@[j], k as usize, h));
        let sec = b.sector@[j];
        let pa = sec.prime_arc->0 as int;
        assert(sec.arc == a.sector@[j].arc);
        assert(sec.arc@[pa] == k as usize);
        assert(b.neigh == a.neigh);
        assert(a.neigh@[k] == v as usize);
        assert(v != u);
        assert(s1[v] == s0[v]);
        assert(b.pos == a.pos);
        assert(sec.time == BurnTime::Time(h));
    }
    assert forall|j: int|
        0 <= j < a.sector@.len() && !reached(a, k, h, j) && arrival_ok(
            s0,
            u,
            j,
        ) implies arrival_ok(s1, u, j) by {
        assert(b.sector@[j] == a.sector@[j]);
        let sec = a.sector@[j];
        let w = a.neigh@[sec.arc@[sec.prime_arc->0 as int] as int] as int;
        assert(s0[w].burned);
        assert(s1[w] == s0[w]);
    }
    assert(above_seed(s0, s0[v].time->0));
    assert(above_seed(s1, h)) by {
        let sd = choose|sd: int|
            0 <= sd < s0.len() && (#[trigger] s0[sd]).rad >= 0 && s0[sd].rad <= s0[v].time->0;
        assert(s1[sd].rad == s0[sd].rad);
    }
    assert forall|t: u128| above_seed(s0, t) implies above_seed(s1, t) by {
        let sd = choose|sd: int| 0 <= sd < s0.len() && (#[trigger] s0[sd]).rad >= 0
            && s0[sd].rad <= t;
        assert(s1[sd].rad == s0[sd].rad);
    }
    assert forall|i: int, s: int|
        0 <= i < s0.len() && 0 <= s < s0[i].sector@.len()
            && (#[trigger] s0[i].sector@[s]).time is Time implies s1[i].sector@[s].time is Time by {
        if i == u {
            if reached(a, k, h, s) {
                assert(sector_reached(a.sector@[s], b.sector@[s], k as usize, h));
            } else {
                assert(b.sector@[s] == a.sector@[s]);
            }
        }
    }
    assert(attached_lit(b, k)) by {
        assert(node_ready(s0, u));
        assert forall|x: int| 0 <= x < b.edge_sector@[k]@.len() implies (#[trigger] lab(
            b.edge_sector@,
            k,
            x,
        )) is Some && b.sector@[lab(b.edge_sector@, k, x)->0 as int].time is Time by {
            assert(a.label_usable(k, x));
            let t = lab(a.edge_sector@, k, x)->0 as int;
            assert(a.edge_sector@[k]@[x] == Some(t as usize));
            assert(a.edge_sector@[k]@.contains(Some(t as usize)));
            if reached(a, k, h, t) {
                assert(sector_reached(a.sector@[t], b.sector@[t], k as usize, h));
            } else {
                assert(b.sector@[t] == a.sector@[t]);
                if !a.sector@[t].burned {
                    assert(!BurnTime::Time(h).le(a.sector@[t].time));
                }
            }
        }
    }
    assert(node_inv(s1, q1, kk, u)) by {
        assert forall|j: int| 0 <= j < b.sector@.len()
            && (#[trigger] b.sector@[j]).burned implies b.sector@[j].time is Time by {
            if reached(a, k, h, j) {
                assert(sector_reached(a.sector@[j], b.sector@[j], k as usize, h));
            } else {
                assert(b.sector@[j] == a.sector@[j]);
            }
        }
        if b.prime_sector is Some {
            let p = b.prime_sector->0 as int;
            if took {
                assert(reached(a, k, h, p));
                assert(sector_reached(a.sector@[p], b.sector@[p], k as usize, h));
            } else {
                if reached(a, k, h, p) {
                    assert(BurnTime::Time(h).le(a.time));
                    assert(false);
                }
                assert(b.sector@[p] == a.sector@[p]);
                assert(arrival_ok(s0, u, p));
            }
        }
        assert forall|j: int|
            0 <= j < b.sector@.len() && !(#[trigger] b.sector@[j]).burned
                && b.sector@[j].time is Time implies arrival_ok(s1, u, j) by {
            if !reached(a, k, h, j) {
                assert(b.sector@[j] == a.sector@[j]);
                assert(arrival_ok(s0, u, j));
            }
        }
        assert forall|j: int|
            0 <= j < b.sector@.len() && (#[trigger] b.sector@[j]).time is Time
                implies b.sector@[j].time->0
            <= time_limit(kk) && above_seed(s1, b.sector@[j].time->0) by {
            if reached(a, k, h, j) {
                assert(sector_reached(a.sector@[j], b.sector@[j], k as usize, h));
            } else {
                assert(b.sector@[j] == a.sector@[j]);
                assert(above_seed(s0, a.sector@[j].time->0));
            }
        }
        if b.time is Time {
            if !took {
                assert(above_seed(s0, a.time->0));
            }
        }
    }
    assert forall|i: int| 0 <= i < n implies #[trigger] node_inv(s1, q1, kk, i) by {
        if i != u {
            assert(node_inv(s0, q0, kk, i));
            lemma_node_inv_frame(s0, q0, kk, s1, q1, kk, i);
        }
    }
    assert forall|i: int| 0 <= i < n implies #[trigger] seed_inv(init, s1, q1, i) by {
        assert(seed_inv(init, s0, q0, i));
        assert(same_structure(init[i], s0[i]));
    }
    assert(order_inv(s1, order)) by {
        assert forall|x: int|
            0 <= x < order.len()
                && s1[(#[trigger] order[x]) as int].predecessor() is Some implies listed_before(
            order,
            x,
            s1[order[x] as int].predecessor()->0 as int,
        ) by {
            assert(s0[order[x] as int].burned);
        }
        assert forall|j: int| 0 <= j < n && j != u implies unburned_node_fn()(#[trigger] s0[j])
            == unburned_node_fn()(s1[j]) by {}
        lemma_sum_by_pointwise(s0, s1, unburned_node_fn(), u);
        assert forall|i: int| 0 <= i < n && (#[trigger] s1[i]).burned implies order.contains(
            i as usize,
        ) by {
            assert(s0[i].burned);
        }
    }
}

/// Starts the fire: every node with a known radius gets the radius for its
/// time and goes into the queue. Returns the queue, one flag for each node.
pub fn seed(verts: &mut Vec<Vertex>) -> (q: Vec<bool>)
    requires
        forall|i: int| 0 <= i < old(verts)@.len() ==> untouched(#[trigger] old(verts)@[i]),
        forall|i: int| 0 <= i < old(verts)@.len() ==> #[trigger] node_ready(old(verts)@, i),
    ensures
        final(verts)@.len() == old(verts)@.len(),
        q@.len() == old(verts)@.len(),
        seeded(old(verts)@, final(verts)@, q@),
        burning(final(verts)@, final(verts)@, q@, Seq::<usize>::empty()),
        burning_state(final(verts)@, q@),
{
    let mut q: Vec<bool> = Vec::new();
    let n: usize = verts.len();
    let mut i: usize = 0;
    while i < n
        invariant
            i <= n,
            n == verts@.len(),
            n == old(verts)@.len(),
            q@.len() == i,
            forall|i2: int|
                0 <= i2 < i ==> q@[i2] == old(verts)@[i2].is_seed() && #[trigger] verts@[i2]
                    == if old(verts)@[i2].is_seed() {
                    Vertex { time: BurnTime::Time(old(verts)@[i2].rad as u128), ..old(verts)@[i2] }
                } else {
                    old(verts)@[i2]
                },
            forall|i2: int| i <= i2 < n ==> verts@[i2] == old(verts)@[i2],
        decreases n - i,
    {
        let rad: i32 = verts[i].rad();
        if rad >= 0 {
            verts[i].set_time(rad as u128);
            q.push(true);
        } else {
            q.push(false);
        }
        i = i + 1;
    }
    proof {
        let v0 = old(verts)@;
        let v1 = verts@;
        let order = Seq::<usize>::empty();
        assert forall|i2: int| 0 <= i2 < n implies same_structure(#[trigger] v0[i2], v1[i2]) by {
            lemma_same_structure_self(v0[i2]);
        }
        assert forall|i2: int| 0 <= i2 < n implies same_structure(v1[i2], #[trigger] v1[i2]) by {
            lemma_same_structure_self(v1[i2]);
        }
        assert forall|i2: int| 0 <= i2 < n implies #[trigger] node_ready(v1, i2) by {
            lemma_ready_frame(v0, v1, i2);
        }
        assert forall|i2: int| 0 <= i2 < n implies started(#[trigger] v1[i2]) by {
            assert(untouched(v0[i2]));
        }
        assert forall|i2: int| 0 <= i2 < n implies #[trigger] node_inv(v1, q@, 0, i2) by {
            assert(untouched(v0[i2]));
            let v = v1[i2];
            if v.is_seed() {
                assert(v1[i2].rad >= 0 && v1[i2].rad <= v.time->0);
                assert(above_seed(v1, v.time->0));
            }
            assert forall|s: int| 0 <= s < v.sector@.len() implies (#[trigger] v.sector@[s]).time
                == BurnTime::Infinity by {
                assert(v.sector@[s] == v0[i2].sector@[s]);
            }
        }
        assert forall|i2: int| 0 <= i2 < n implies #[trigger] seed_inv(v1, v1, q@, i2) by {}
        assert forall|i2: int| 0 <= i2 < n implies unburned_node_fn()(#[trigger] v1[i2]) == 1 by {
            assert(untouched(v0[i2]));
        }
        lemma_sum_by_all(v1, unburned_node_fn(), 1);
        assert(order_inv(v1, order)) by {
            assert forall|i2: int| 0 <= i2 < n implies !(#[trigger] v1[i2]).burned by {
                assert(untouched(v0[i2]));
            }
        }
        assert forall|v: int, p: int| asked(v1, -1, 0, v, p)
            implies #[trigger] covered(v1, v, p) by {
            assert(untouched(v0[v]));
        }
        assert(burning(v1, v1, q@, order));
    }
    q
}

/// The queued node whose turn is next: the one with the earliest time, and
/// among several of these the one with the lowest index.
pub fn extract_min(verts: &Vec<Vertex>, q: &Vec<bool>) -> (r: Option<usize>)
    requires
        q@.len() == verts@.len(),
    ensures
        match r {
            Some(v) => is_next(verts@, q@, v as int),
            None => forall|i: int| 0 <= i < verts@.len() ==> !#[trigger] q@[i],
        },
{
    let mut best: Option<usize> = None;
    let n: usize = verts.len();
    let mut i: usize = 0;
    while i < n
        invariant
            i <= n,
            n == verts@.len(),
            q@.len() == n,
            match best {
                Some(v) => v < i && q@[v as int] && (forall|i2: int|
                    0 <= i2 < i && #[trigger] q@[i2] ==> verts@[v as int].time.le(verts@[i2].time))
                    && (forall|i2: int|
                    0 <= i2 < v && #[trigger] q@[i2]
                        ==> !verts@[i2].time.le(verts@[v as int].time)),
                None => forall|i2: int| 0 <= i2 < i ==> !#[trigger] q@[i2],
            },
        decreases n - i,
    {
        if q[i] {
            match best {
                Some(v) => {
                    if !verts[v].time().inf_eq(verts[i].time()) {
                        proof {
                            assert forall|i2: int| 0 <= i2 < i && #[trigger] q@[i2]
                                implies !verts@[i2].time.le(
                                verts@[i as int].time,
                            ) by {
                                assert(verts@[v as int].time.le(verts@[i2].time));
                            }
                            assert forall|i2: int|
                                0 <= i2 < i + 1 && #[trigger] q@[i2]
                                    implies verts@[i as int].time.le(
                                verts@[i2].time,
                            ) by {
                                if i2 < i {
                                    assert(verts@[v as int].time.le(verts@[i2].time));
                                }
                            }
                        }
                        best = Some(i);
                    }
                },
                None => {
                    best = Some(i);
                },
            }
        }
        i = i + 1;
    }
    best
}


/// What the fire of the node `v`, burned at time `t`, does to its neighbour
/// at place `p`: a neighbour that is burned or has a known radius stays as it
/// is; at any other the fire arrives after the distance between the two, and
/// the neighbour is queued if it takes the time for its own.
pub open spec fn reached_to(
    a: Seq<Vertex>,
    qa: Seq<bool>,
    b: Seq<Vertex>,
    qb: Seq<bool>,
    v: int,
    p: int,
    t: u128,
) -> bool {
    let u = a[v].neigh@[p] as int;
    if a[u].burned || a[u].is_seed() {
        b == a && qb == qa
    } else {
        exists|k: int, took: bool|
            0 <= k <= usize::MAX && is_first_position(a[u].neigh@, v as usize, Some(k as usize))
                && #[trigger] node_reached(
                a[u],
                b[u],
                k,
                (t + distance(a[v].pos, a[u].pos)) as u128,
                took,
            ) && b == a.update(u, b[u]) && qb == if took {
                qa.update(u, true)
            } else {
                qa
            }
    }
}

/// What the fire of the node `v`, burned at time `t`, does to its first
/// `upto` neighbours, one after the other.
pub open spec fn relaxed(
    a: Seq<Vertex>,
    qa: Seq<bool>,
    b: Seq<Vertex>,
    qb: Seq<bool>,
    v: int,
    t: u128,
    upto: int,
) -> bool
    decreases upto,
{
    if upto <= 0 {
        b == a && qb == qa
    } else {
        exists|m: Seq<Vertex>, qm: Seq<bool>|
            relaxed(a, qa, m, qm, v, t, upto - 1) && #[trigger] reached_to(
                m,
                qm,
                b,
                qb,
                v,
                upto - 1,
                t,
            )
    }
}

/// Sector `star` is the one for which the node goes on waiting: the first
/// of its unburned sectors with the earliest time.
pub open spec fn is_choice(v: Vertex, star: int) -> bool {
    &&& 0 <= star < v.sector@.len()
    &&& !v.sector@[star].burned
    &&& forall|j: int|
        0 <= j < v.sector@.len() && !(#[trigger] v.sector@[j]).burned ==> v.sector@[star].time.le(
            v.sector@[j].time,
        )
    &&& forall|j: int|
        0 <= j < star && !(#[trigger] v.sector@[j]).burned ==> !v.sector@[j].time.le(
            v.sector@[star].time,
        )
}

/// The node `after` is the node `mid` that goes on waiting for its sector
/// `star`: where the sector has a time, the node takes it and waits for the
/// sector; where it has none, the node has no time and waits for nothing.
pub open spec fn waits_for(mid: Vertex, after: Vertex, star: int) -> bool {
    after == match mid.sector@[star].time {
        BurnTime::Time(t) => Vertex {
            prime_sector: Some(star as usize),
            time: BurnTime::Time(t),
            ..mid
        },
        BurnTime::Infinity => Vertex { prime_sector: None, time: BurnTime::Infinity, ..mid },
    }
}

/// All sectors of the node are burned.
pub open spec fn all_burned(v: Vertex) -> bool {
    forall|j: int| 0 <= j < v.sector@.len() ==> (#[trigger] v.sector@[j]).burned
}

/// What the turn of the queued node `v` makes of the graph `a` with the
/// queue `qa`. The node leaves the queue. A node without a time, or one that
/// is burned, stays as it is. Otherwise the sector that it waited for burns,
/// and so do its exposed sectors. If that leaves no sector, the node is burned
/// and its fire reaches its neighbours, one after the other; else it goes on
/// waiting, for the first of its unburned sectors with the earliest time, and
/// stays in the queue if that sector has a time.
pub open spec fn turned(
    a: Seq<Vertex>,
    qa: Seq<bool>,
    b: Seq<Vertex>,
    qb: Seq<bool>,
    v: int,
) -> bool {
    let q1 = qa.update(v, false);
    if a[v].time is Infinity || a[v].burned {
        b == a && qb == q1
    } else {
        exists|mid: Vertex| #[trigger]
            ignited(a[v], mid, a[v].time->0) && if all_burned(mid) {
                relaxed(
                    a.update(v, Vertex { burned: true, ..mid }),
                    q1,
                    b,
                    qb,
                    v,
                    a[v].time->0,
                    a[v].neigh@.len() as int,
                )
            } else {
                exists|star: int| #[trigger]
                    is_choice(mid, star) && b == a.update(v, b[v]) && waits_for(mid, b[v], star)
                        && qb == q1.update(v, mid.sector@[star].time is Time)
            }
    }
}

/// The measure of the burning, first part: the weights of all nodes.
pub open spec fn graph_weight(verts: Seq<Vertex>) -> nat {
    sum_by(verts, node_weight_fn())
}

/// The measure of the burning, second part: the length of the queue.
pub open spec fn queue_count(q: Seq<bool>) -> nat {
    sum_by(q, queued_fn())
}

/// Lets the fire of the burned node `v` reach its neighbour `u`, unless `u`
/// is burned or has a known radius.
fn reach(
    verts: &mut Vec<Vertex>,
    q: &mut Vec<bool>,
    v: usize,
    p: usize,
    v_time: u128,
    Ghost(init): Ghost<Seq<Vertex>>,
    Ghost(order): Ghost<Seq<usize>>,
) -> (u: usize)
    requires
        burning(init, old(verts)@, old(q)@, order),
        coverage(old(verts)@, v as int, p as int),
        v < old(verts)@.len(),
        p < old(verts)@[v as int].neigh@.len(),
        old(verts)@[v as int].burned,
        old(verts)@[v as int].time == BurnTime::Time(v_time),
        v_time + DISTANCE_LIMIT <= time_limit(order.len()),
        order.len() <= usize::MAX,
    ensures
        u == old(verts)@[v as int].neigh@[p as int],
        u < old(verts)@.len(),
        burning(init, final(verts)@, final(q)@, order),
        coverage(final(verts)@, v as int, p + 1),
        reached_to(old(verts)@, old(q)@, final(verts)@, final(q)@, v as int, p as int, v_time),
        final(verts)@.len() == old(verts)@.len(),
        final(q)@.len() == old(q)@.len(),
        forall|j: int|
            0 <= j < old(verts)@.len() && j != u ==> #[trigger] final(verts)@[j] == old(verts)@[j],
        final(verts)@[u as int].time.le(old(verts)@[u as int].time),
        old(verts)@[u as int].burned ==> final(verts)@[u as int] == old(verts)@[u as int],
        graph_weight(final(verts)@) <= graph_weight(old(verts)@),
        forall|j: int| 0 <= j < old(q)@.len() && old(q)@[j] ==> #[trigger] final(q)@[j],
{
    let ghost s0 = verts@;
    let ghost q0 = q@;
    proof {
        assert(node_ready(s0, v as int));
        assert(s0[v as int].neigh@[p as int] < s0.len());
    }
    let u: usize = verts[v].neigh[p];
    proof {
        assert(node_ready(s0, u as int));
        assert(s0[s0[v as int].neigh@[p as int] as int].neigh@.contains(v));
        assert(node_inv(s0, q0, order.len(), u as int));
        assert(s0[u as int].neigh.len() == s0[u as int].neigh@.len());
    }
    if verts[u].is_burned() || verts[u].rad() >= 0 {
        proof {
            // a burned neighbour has all its sectors burned, and they have times
            let uu = s0[u as int];
            if !uu.is_seed() {
                assert forall|k: int|
                    0 <= k < uu.neigh@.len() && is_first_position(
                        uu.neigh@,
                        v,
                        Some(k as usize),
                    ) implies #[trigger] attached_lit(uu, k) by {
                    assert forall|x: int| 0 <= x < uu.edge_sector@[k]@.len() implies (
                    #[trigger] lab(uu.edge_sector@, k, x)) is Some && uu.sector@[lab(
                        uu.edge_sector@,
                        k,
                        x,
                    )->0 as int].time is Time by {
                        assert(uu.label_usable(k, x));
                        let t = lab(uu.edge_sector@, k, x)->0 as int;
                        assert(uu.sector@[t].burned);
                    }
                }
            }
            assert(covered(s0, v as int, p as int));
            assert forall|v2: int, place2: int| asked(s0, v as int, p + 1, v2, place2)
                implies #[trigger] covered(
                s0,
                v2,
                place2,
            ) by {
                if !(v2 == v && place2 == p) {
                    assert(asked(s0, v as int, p as int, v2, place2));
                }
            }
        }
        return u;
    }
    let num_neigh_v: usize = match verts[u].get_num_neigh(v) {
        Some(k) => k,
        None => {
            assert(false);
            return u;
        },
    };
    let arc_norm: u64 = norm(verts[v].pos(), verts[u].pos());
    proof {
        lemma_time_limit(order.len(), order.len());
    }
    let h: u128 = arc_norm as u128 + v_time;
    proof {
        let uu = s0[u as int];
        assert(uu.usable());
        assert forall|x: int|
            0 <= x < uu.edge_sector@[num_neigh_v as int]@.len() implies #[trigger] uu.label_usable(
            num_neigh_v as int,
            x,
        ) by {}
    }
    let took: bool = verts[u].relax_from(num_neigh_v, h);
    if took {
        q[u] = true;
    }
    proof {
        let s1 = verts@;
        let q1 = q@;
        assert(s1 =~= s0.update(u as int, s1[u as int]));
        assert(q1 =~= if took {
            q0.update(u as int, true)
        } else {
            q0
        });
        lemma_reach(init, s0, q0, order, s1, q1, v as int, u as int, num_neigh_v as int, h, took);
        assert(h == (v_time + distance(s0[v as int].pos, s0[u as int].pos)) as u128);
        assert(node_reached(s0[u as int], s1[u as int], num_neigh_v as int, h, took));
        lemma_weight_after_arrival(s0[u as int], s1[u as int], num_neigh_v as int, h, took);
        assert forall|j: int| 0 <= j < s0.len() && j != u implies node_weight_fn()(#[trigger] s0[j])
            == node_weight_fn()(s1[j]) by {}
        lemma_sum_by_pointwise(s0, s1, node_weight_fn(), u as int);
        assert forall|i: int| 0 <= i < s0.len() implies same_structure(#[trigger] s0[i], s1[i]) by {
            if i != u {
                lemma_same_structure_self(s0[i]);
            }
        }
        assert forall|v2: int, place2: int| #[trigger]
            asked(s1, v as int, p as int, v2, place2) implies asked(s0, v as int, p as int, v2, place2) by {
            assert(same_structure(s0[v2], s1[v2]));
        }
        lemma_coverage_step(s0, s1, v as int, p as int, v as int, p as int);
        assert(covered(s1, v as int, p as int)) by {
            assert(s1[v as int] == s0[v as int]);
            assert forall|k: int|
                0 <= k < s1[u as int].neigh@.len() && is_first_position(
                    s1[u as int].neigh@,
                    v,
                    Some(k as usize),
                ) implies #[trigger] attached_lit(s1[u as int], k) by {
                assert(k == num_neigh_v);
            }
        }
        assert forall|v2: int, place2: int| asked(s1, v as int, p + 1, v2, place2)
            implies #[trigger] covered(
            s1,
            v2,
            place2,
        ) by {
            if !(v2 == v && place2 == p) {
                assert(asked(s1, v as int, p as int, v2, place2));
            }
        }
    }
    u
}

/// Lets the fire of the node `v`, which has just burned at time `v_time`,
/// reach all its neighbours.
fn relax_neighbors(
    verts: &mut Vec<Vertex>,
    q: &mut Vec<bool>,
    v: usize,
    v_time: u128,
    Ghost(init): Ghost<Seq<Vertex>>,
    Ghost(order): Ghost<Seq<usize>>,
)
    requires
        burning(init, old(verts)@, old(q)@, order),
        coverage(old(verts)@, v as int, 0),
        v < old(verts)@.len(),
        old(verts)@[v as int].burned,
        old(verts)@[v as int].time == BurnTime::Time(v_time),
        v_time + DISTANCE_LIMIT <= time_limit(order.len()),
        order.len() <= usize::MAX,
    ensures
        burning(init, final(verts)@, final(q)@, order),
        coverage(final(verts)@, -1, 0),
        relaxed(
            old(verts)@,
            old(q)@,
            final(verts)@,
            final(q)@,
            v as int,
            v_time,
            old(verts)@[v as int].neigh@.len() as int,
        ),
        final(verts)@.len() == old(verts)@.len(),
        final(q)@.len() == old(q)@.len(),
        forall|j: int|
            0 <= j < old(verts)@.len()
                ==> (#[trigger] final(verts)@[j]).time.le(old(verts)@[j].time),
        forall|j: int|
            0 <= j < old(verts)@.len() && old(verts)@[j].burned ==> #[trigger] final(verts)@[j]
                == old(verts)@[j],
        graph_weight(final(verts)@) <= graph_weight(old(verts)@),
        forall|j: int| 0 <= j < old(q)@.len() && old(q)@[j] ==> #[trigger] final(q)@[j],
{
    let n_neigh: usize = verts[v].neigh.len();
    let mut i: usize = 0;
    while i < n_neigh
        invariant
            i <= n_neigh,
            burning(init, verts@, q@, order),
            coverage(verts@, v as int, i as int),
            relaxed(old(verts)@, old(q)@, verts@, q@, v as int, v_time, i as int),
            verts@.len() == old(verts)@.len(),
            q@.len() == old(q)@.len(),
            v < verts@.len(),
            verts@[v as int] == old(verts)@[v as int],
            n_neigh == verts@[v as int].neigh@.len(),
            old(verts)@[v as int].burned,
            old(verts)@[v as int].time == BurnTime::Time(v_time),
            v_time + DISTANCE_LIMIT <= time_limit(order.len()),
            order.len() <= usize::MAX,
            forall|j: int|
                0 <= j < verts@.len() ==> (#[trigger] verts@[j]).time.le(old(verts)@[j].time),
            forall|j: int|
                0 <= j < verts@.len() && old(verts)@[j].burned ==> #[trigger] verts@[j]
                    == old(verts)@[j],
            graph_weight(verts@) <= graph_weight(old(verts)@),
            forall|j: int| 0 <= j < q@.len() && old(q)@[j] ==> #[trigger] q@[j],
        decreases n_neigh - i,
    {
        let ghost before = verts@;
        let ghost qb = q@;
        let u: usize = reach(verts, q, v, i, v_time, Ghost(init), Ghost(order));
        proof {
            assert(relaxed(old(verts)@, old(q)@, before, qb, v as int, v_time, (i + 1) - 1));
            assert(reached_to(before, qb, verts@, q@, v as int, (i + 1) - 1, v_time));
            assert(relaxed(old(verts)@, old(q)@, verts@, q@, v as int, v_time, i + 1));
            assert forall|j: int| 0 <= j < verts@.len() implies (#[trigger] verts@[j]).time.le(
                old(verts)@[j].time,
            ) by {
                if j != u {
                    assert(verts@[j] == before[j]);
                }
                assert(before[j].time.le(old(verts)@[j].time));
                super::burntime::lemma_burntime_order(
                    verts@[j].time,
                    before[j].time,
                    old(verts)@[j].time,
                );
            }
            assert forall|j: int|
                0 <= j < verts@.len() && old(verts)@[j].burned implies #[trigger] verts@[j]
                    == old(verts)@[j] by {
                assert(before[j] == old(verts)@[j]);
                if j != u {
                    assert(verts@[j] == before[j]);
                }
            }
            assert forall|j: int| 0 <= j < q@.len() && old(q)@[j] implies #[trigger] q@[j] by {
                assert(qb[j]);
            }
        }
        i = i + 1;
    }
    proof {
        assert forall|v2: int, place2: int| asked(verts@, -1, 0, v2, place2) implies #[trigger] covered(
            verts@,
            v2,
            place2,
        ) by {
            assert(asked(verts@, v as int, n_neigh as int, v2, place2));
        }
    }
}

/// A node whose turn came without a time, or after it had burned, leaves
/// the queue and nothing else changes.
pub proof fn lemma_dropped(
    init: Seq<Vertex>,
    s0: Seq<Vertex>,
    q0: Seq<bool>,
    order: Seq<usize>,
    v: int,
)
    requires
        burning(init, s0, q0, order),
        0 <= v < s0.len(),
        q0[v],
        s0[v].time is Infinity || s0[v].burned,
    ensures
        burning(init, s0, q0.update(v, false), order),
        queue_count(q0.update(v, false)) + 1 == queue_count(q0),
{
    let q1 = q0.update(v, false);
    let n = s0.len() as int;
    assert forall|i: int| 0 <= i < n implies #[trigger] node_inv(s0, q1, order.len(), i) by {
        assert(node_inv(s0, q0, order.len(), i));
    }
    assert forall|i: int| 0 <= i < n implies #[trigger] seed_inv(init, s0, q1, i) by {
        assert(seed_inv(init, s0, q0, i));
        assert(started(init[i]));
    }
    lemma_sum_by_update(q0, queued_fn(), v, false);
}

/// The node `v` has burned: `mid` is what its turn made of it, with all its
/// sectors burned, and `s4` has it marked as burned. What holds while the
/// graph burns goes on holding, with `v` as the last burned node.
pub proof fn lemma_burned(
    init: Seq<Vertex>,
    s0: Seq<Vertex>,
    q0: Seq<bool>,
    order: Seq<usize>,
    s4: Seq<Vertex>,
    v: int,
    v_time: u128,
    mid: Vertex,
)
    requires
        burning(init, s0, q0, order),
        0 <= v < s0.len(),
        v <= usize::MAX,
        q0[v],
        !s0[v].burned,
        s0[v].time == BurnTime::Time(v_time),
        turn_marks(s0[v], mid, v_time),
        forall|j: int| 0 <= j < mid.sector@.len() ==> (#[trigger] mid.sector@[j]).burned,
        s4 == s0.update(v, Vertex { burned: true, ..mid }),
        coverage(s0, -1, 0),
    ensures
        burning(init, s4, q0.update(v, false), order.push(v as usize)),
        coverage(s4, v, 0),
        v_time + DISTANCE_LIMIT <= time_limit(order.len() + 1),
        order.len() + 1 <= s0.len(),
        graph_weight(s4) < graph_weight(s0),
{
    let q1 = q0.update(v, false);
    let order1 = order.push(v as usize);
    let n = s0.len() as int;
    let a = s0[v];
    let b = s4[v];
    let kk = order.len();
    assert(node_inv(s0, q0, kk, v));
    lemma_time_limit(kk, kk + 1);
    assert(same_structure(a, b)) by {
        assert forall|s: int|
            #![trigger a.sector@[s]]
            #![trigger b.sector@[s]]
            0 <= s < a.sector@.len() implies a.sector@[s].arc == b.sector@[s].arc by {
            assert(a.sector@[s].arc == mid.sector@[s].arc);
        }
    }
    assert forall|i: int| 0 <= i < n implies same_structure(#[trigger] s0[i], s4[i]) by {
        if i != v {
            lemma_same_structure_self(s0[i]);
        }
    }
    assert forall|i: int| 0 <= i < n implies same_structure(init[i], #[trigger] s4[i]) by {
        assert(same_structure(init[i], s0[i]));
        assert(same_structure(s0[i], s4[i]));
        lemma_same_structure_chain(init[i], s0[i], s4[i]);
    }
    assert forall|i: int| 0 <= i < n implies #[trigger] node_ready(s4, i) by {
        assert(node_ready(s0, i));
        lemma_ready_frame(s0, s4, i);
    }
    assert forall|w: int| 0 <= w < n && (#[trigger] s0[w]).burned implies s4[w] == s0[w] by {}
    assert forall|w: int| 0 <= w < n implies (#[trigger] s4[w]).rad == s0[w].rad by {
        assert(same_structure(s0[w], s4[w]));
    }
    assert forall|t: u128| above_seed(s0, t) implies above_seed(s4, t) by {
        let sd = choose|sd: int| 0 <= sd < s0.len() && (#[trigger] s0[sd]).rad >= 0
            && s0[sd].rad <= t;
        assert(s4[sd].rad == s0[sd].rad);
    }
    assert forall|j: int| 0 <= j < b.sector@.len() implies (#[trigger] b.sector@[j]).burned
        && b.sector@[j].time is Time by {
        assert(mid.sector@[j].burned);
        assert(a.sector.len() == a.sector@.len());
        if a.sector@[j].burned {
            assert(a.sector@[j].time is Time);
        } else if a.prime_sector == Some(j as usize) {
            assert(a.prime_sector->0 as int == j);
            assert(mid.sector@[j].time == a.sector@[j].time);
        }
    }
    assert forall|i: int, s: int|
        0 <= i < n && 0 <= s < s0[i].sector@.len()
            && (#[trigger] s0[i].sector@[s]).time is Time implies s4[i].sector@[s].time is Time by {
        if i == v {
            assert(mid.sector@[s].time == a.sector@[s].time || mid.sector@[s].time
                == BurnTime::Time(v_time));
        }
    }
    assert forall|v2: int, place2: int| #[trigger] asked(s4, v, 0, v2, place2) implies asked(
        s0,
        -1,
        0,
        v2,
        place2,
    ) by {
        assert(same_structure(s0[v2], s4[v2]));
    }
    lemma_coverage_step(s0, s4, -1, 0, v, 0);
    assert(node_inv(s4, q1, kk + 1, v)) by {
        if b.prime_sector is Some {
            let p = b.prime_sector->0 as int;
            assert(arrival_ok(s0, v, p));
            assert(b.sector@[p].prime_arc == a.sector@[p].prime_arc);
            assert(b.sector@[p].arc == a.sector@[p].arc);
            let sec = a.sector@[p];
            let w = a.neigh@[sec.arc@[sec.prime_arc->0 as int] as int] as int;
            assert(s0[w].burned);
            assert(s4[w] == s0[w]);
            assert(arrival_ok(s4, v, p));
        }
        assert(above_seed(s0, v_time));
        assert forall|j: int|
            0 <= j < b.sector@.len() && (#[trigger] b.sector@[j]).time is Time
                implies b.sector@[j].time->0
            <= time_limit(kk + 1) && above_seed(s4, b.sector@[j].time->0) by {
            assert(mid.sector@[j].time == a.sector@[j].time || mid.sector@[j].time
                == BurnTime::Time(v_time));
            if mid.sector@[j].time == a.sector@[j].time {
                assert(above_seed(s0, a.sector@[j].time->0));
            }
        }
    }
    assert forall|i: int| 0 <= i < n implies #[trigger] node_inv(s4, q1, kk + 1, i) by {
        if i != v {
            assert(node_inv(s0, q0, kk, i));
            lemma_node_inv_frame(s0, q0, kk, s4, q1, kk + 1, i);
        }
    }
    assert forall|i: int| 0 <= i < n implies #[trigger] seed_inv(init, s4, q1, i) by {
        assert(seed_inv(init, s0, q0, i));
        assert(same_structure(init[i], s0[i]));
        assert(started(init[i]));
    }
    assert(order_inv(s4, order1)) by {
        assert(!order.contains(v as usize)) by {
            if order.contains(v as usize) {
                let x = choose|x: int| 0 <= x < order.len() && order[x] == v as usize;
                assert(s0[order[x] as int].burned);
            }
        }
        assert forall|x: int, y: int|
            0 <= x < order1.len() && 0 <= y < order1.len() && x != y implies order1[x]
            != order1[y] by {
            if x < order.len() && y < order.len() {
                assert(order[x] != order[y]);
            } else if x < order.len() {
                assert(order.contains(order[x]));
            } else {
                assert(order.contains(order[y]));
            }
        }
        assert forall|x: int| 0 <= x < order1.len() implies (#[trigger] order1[x]) < s4.len()
            && s4[order1[x] as int].burned by {
            if x < order.len() {
                assert(order[x] < s0.len() && s0[order[x] as int].burned);
            }
        }
        assert forall|i: int| 0 <= i < n && (#[trigger] s4[i]).burned implies order1.contains(
            i as usize,
        ) by {
            if i == v {
                assert(order1[order.len() as int] == v as usize);
            } else {
                assert(s0[i].burned);
                let x = choose|x: int| 0 <= x < order.len() && order[x] == i as usize;
                assert(order1[x] == i as usize);
            }
        }
        assert forall|x: int|
            0 <= x < order1.len()
                && s4[(#[trigger] order1[x]) as int].predecessor() is Some implies listed_before(
            order1,
            x,
            s4[order1[x] as int].predecessor()->0 as int,
        ) by {
            if x < order.len() {
                assert(s0[order[x] as int].burned);
                let w = s0[order[x] as int].predecessor()->0 as int;
                assert(listed_before(order, x, w));
                let y = choose|y: int| 0 <= y < x && y < order.len() && #[trigger] order[y] == w;
                assert(order1[y] == w);
            } else {
                let p = b.prime_sector->0 as int;
                assert(arrival_ok(s4, v, p));
                let w = b.predecessor()->0 as int;
                assert(s0[w].burned);
                assert(order.contains(w as usize));
                let y = choose|y: int| 0 <= y < order.len() && order[y] == w as usize;
                assert(order1[y] == w);
            }
        }
        assert forall|j: int| 0 <= j < n && j != v implies unburned_node_fn()(#[trigger] s0[j])
            == unburned_node_fn()(s4[j]) by {}
        lemma_sum_by_pointwise(s0, s4, unburned_node_fn(), v);
    }
    assert forall|j: int| 0 <= j < n && j != v implies node_weight_fn()(#[trigger] s0[j])
        == node_weight_fn()(s4[j]) by {}
    lemma_sum_by_pointwise(s0, s4, node_weight_fn(), v);
    assert(node_weight(b) == 0);
    assert(node_weight(a) >= 1);
}

/// The node `v` goes on waiting: `mid` is what its turn made of it, and
/// `star` is the first of its unburned sectors with the earliest time. Where
/// that sector has a time, the node takes it, waits for the sector and stays
/// in the queue; where it has none, the node has no time, waits for nothing
/// and leaves the queue. What holds while the graph burns goes on holding, and
/// the measure of the burning has gone down.
pub proof fn lemma_waiting(
    init: Seq<Vertex>,
    s0: Seq<Vertex>,
    q0: Seq<bool>,
    order: Seq<usize>,
    s4: Seq<Vertex>,
    v: int,
    v_time: u128,
    mid: Vertex,
    star: int,
)
    requires
        burning(init, s0, q0, order),
        0 <= v < s0.len(),
        q0[v],
        !s0[v].burned,
        s0[v].time == BurnTime::Time(v_time),
        turn_marks(s0[v], mid, v_time),
        0 <= star < mid.sector@.len(),
        star <= usize::MAX,
        !mid.sector@[star].burned,
        forall|j: int|
            0 <= j < mid.sector@.len() && !(#[trigger] mid.sector@[j]).burned
                ==> mid.sector@[star].time.le(mid.sector@[j].time),
        s4 == s0.update(
            v,
            match mid.sector@[star].time {
                BurnTime::Time(t) => Vertex {
                    prime_sector: Some(star as usize),
                    time: BurnTime::Time(t),
                    ..mid
                },
                BurnTime::Infinity => Vertex {
                    prime_sector: None,
                    time: BurnTime::Infinity,
                    ..mid
                },
            },
        ),
        coverage(s0, -1, 0),
    ensures
        burning(init, s4, q0.update(v, mid.sector@[star].time is Time), order),
        coverage(s4, -1, 0),
        graph_weight(s4) < graph_weight(s0) || (graph_weight(s4) <= graph_weight(s0)
            && queue_count(q0.update(v, mid.sector@[star].time is Time)) < queue_count(q0)),
{
    let stays = mid.sector@[star].time is Time;
    let q1 = q0.update(v, stays);
    let n = s0.len() as int;
    let a = s0[v];
    let b = s4[v];
    let kk = order.len();
    assert(node_inv(s0, q0, kk, v));
    assert(seed_inv(init, s0, q0, v));
    assert(started(init[v]));
    assert(same_structure(init[v], a));
    assert(b.sector == mid.sector);
    assert(same_structure(a, b)) by {
        assert forall|s: int|
            #![trigger a.sector@[s]]
            #![trigger b.sector@[s]]
            0 <= s < a.sector@.len() implies a.sector@[s].arc == b.sector@[s].arc by {
            assert(a.sector@[s].arc == mid.sector@[s].arc);
        }
    }
    assert forall|i: int| 0 <= i < n implies same_structure(#[trigger] s0[i], s4[i]) by {
        if i != v {
            lemma_same_structure_self(s0[i]);
        }
    }
    assert forall|i: int| 0 <= i < n implies same_structure(init[i], #[trigger] s4[i]) by {
        assert(same_structure(init[i], s0[i]));
        assert(same_structure(s0[i], s4[i]));
        lemma_same_structure_chain(init[i], s0[i], s4[i]);
    }
    assert forall|i: int| 0 <= i < n implies #[trigger] node_ready(s4, i) by {
        assert(node_ready(s0, i));
        lemma_ready_frame(s0, s4, i);
    }
    assert forall|w: int| 0 <= w < n && (#[trigger] s0[w]).burned implies s4[w] == s0[w] by {}
    assert forall|w: int| 0 <= w < n implies (#[trigger] s4[w]).rad == s0[w].rad by {
        assert(same_structure(s0[w], s4[w]));
    }
    assert forall|t: u128| above_seed(s0, t) implies above_seed(s4, t) by {
        let sd = choose|sd: int| 0 <= sd < s0.len() && (#[trigger] s0[sd]).rad >= 0
            && s0[sd].rad <= t;
        assert(s4[sd].rad == s0[sd].rad);
    }
    // a sector of `v` that is not burned is as it was
    assert forall|j: int|
        0 <= j < b.sector@.len() && !(#[trigger] b.sector@[j]).burned implies b.sector@[j].time
        == a.sector@[j].time && b.sector@[j].prime_arc == a.sector@[j].prime_arc
        && b.sector@[j].arc == a.sector@[j].arc && !a.sector@[j].burned by {
        assert(mid.sector@[j].prime_arc == a.sector@[j].prime_arc);
    }
    assert forall|j: int|
        0 <= j < b.sector@.len() && !(#[trigger] b.sector@[j]).burned
            && b.sector@[j].time is Time implies arrival_ok(s4, v, j) by {
        assert(arrival_ok(s0, v, j));
        let sec = a.sector@[j];
        let w = a.neigh@[sec.arc@[sec.prime_arc->0 as int] as int] as int;
        assert(s0[w].burned);
        assert(s4[w] == s0[w]);
    }
    // a node whose sectors were all exposed at the start cannot be here
    if init[v].is_seed() && all_exposed(init[v]) {
        assert(a == init[v]);
        assert forall|j: int| 0 <= j < a.sector@.len() implies (#[trigger] a.sector@[j]).exposed()
            && !a.sector@[j].burned by {}
        assert(mid.sector@[star].burned);
    }
    assert forall|j: int| 0 <= j < b.sector@.len() && (#[trigger] b.sector@[j]).burned
        implies b.sector@[j].time is Time by {
        assert(a.sector.len() == a.sector@.len());
        if a.sector@[j].burned {
            assert(a.sector@[j].time is Time);
            assert(mid.sector@[j].time == a.sector@[j].time || mid.sector@[j].time
                == BurnTime::Time(v_time));
        } else if a.prime_sector == Some(j as usize) {
            assert(a.prime_sector->0 as int == j);
            assert(mid.sector@[j].time == a.sector@[j].time);
        }
    }
    assert forall|i: int, s: int|
        0 <= i < n && 0 <= s < s0[i].sector@.len()
            && (#[trigger] s0[i].sector@[s]).time is Time implies s4[i].sector@[s].time is Time by {
        if i == v {
            assert(mid.sector@[s].time == a.sector@[s].time || mid.sector@[s].time
                == BurnTime::Time(v_time));
        }
    }
    assert forall|v2: int, place2: int| #[trigger] asked(s4, -1, 0, v2, place2) implies asked(
        s0,
        -1,
        0,
        v2,
        place2,
    ) by {
        assert(same_structure(s0[v2], s4[v2]));
    }
    lemma_coverage_step(s0, s4, -1, 0, -1, 0);
    assert(node_inv(s4, q1, kk, v)) by {
        assert(!b.sector@[star].burned);
        if a.is_seed() {
            assert(a.sector@[star].time == BurnTime::Infinity);
        }
        assert(above_seed(s0, v_time));
        assert forall|j: int|
            0 <= j < b.sector@.len() && (#[trigger] b.sector@[j]).time is Time
                implies b.sector@[j].time->0
            <= time_limit(kk) && above_seed(s4, b.sector@[j].time->0) by {
            assert(mid.sector@[j].time == a.sector@[j].time || mid.sector@[j].time
                == BurnTime::Time(v_time));
            if mid.sector@[j].time == a.sector@[j].time {
                assert(above_seed(s0, a.sector@[j].time->0));
            }
        }
        if stays {
            assert(above_seed(s0, a.sector@[star].time->0));
        }
        if a.is_seed() {
            assert forall|j: int| 0 <= j < b.sector@.len()
                && !(#[trigger] b.sector@[j]).burned implies b.sector@[j].time
                == BurnTime::Infinity by {
                assert(!a.sector@[j].burned);
            }
        }
    }
    assert forall|i: int| 0 <= i < n implies #[trigger] node_inv(s4, q1, kk, i) by {
        if i != v {
            assert(node_inv(s0, q0, kk, i));
            lemma_node_inv_frame(s0, q0, kk, s4, q1, kk, i);
        }
    }
    assert forall|i: int| 0 <= i < n implies #[trigger] seed_inv(init, s4, q1, i) by {
        assert(seed_inv(init, s0, q0, i));
    }
    assert(order_inv(s4, order)) by {
        assert forall|x: int|
            0 <= x < order.len()
                && s4[(#[trigger] order[x]) as int].predecessor() is Some implies listed_before(
            order,
            x,
            s4[order[x] as int].predecessor()->0 as int,
        ) by {
            assert(s0[order[x] as int].burned);
        }
        assert forall|j: int| 0 <= j < n && j != v implies unburned_node_fn()(#[trigger] s0[j])
            == unburned_node_fn()(s4[j]) by {}
        lemma_sum_by_pointwise(s0, s4, unburned_node_fn(), v);
        assert forall|i: int| 0 <= i < n && (#[trigger] s4[i]).burned implies order.contains(
            i as usize,
        ) by {
            assert(s0[i].burned);
        }
    }
    // the measure
    assert forall|j: int| 0 <= j < n && j != v implies node_weight_fn()(#[trigger] s0[j])
        == node_weight_fn()(s4[j]) by {}
    lemma_sum_by_pointwise(s0, s4, node_weight_fn(), v);
    assert(unburned_sectors(b) == unburned_sectors(mid));
    lemma_sum_by_update(q0, queued_fn(), v, stays);
    if stays {
        assert(primed(b));
    } else {
        assert(!primed(b));
    }
}

/// The turn of the queued node `v`. A node without a time, or one that is
/// burned, only leaves the queue. Otherwise the sector that it waited for
/// burns, and so do its exposed sectors. If that leaves no sector, the node is
/// burned and its fire reaches its neighbours; else it goes on waiting, for
/// its earliest sector. Returns the burned nodes in the order of their
/// burning.
fn settle(
    verts: &mut Vec<Vertex>,
    q: &mut Vec<bool>,
    v: usize,
    Ghost(init): Ghost<Seq<Vertex>>,
    Ghost(order): Ghost<Seq<usize>>,
) -> (r: Ghost<Seq<usize>>)
    requires
        burning(init, old(verts)@, old(q)@, order),
        coverage(old(verts)@, -1, 0),
        v < old(verts)@.len(),
        old(q)@[v as int],
    ensures
        burning(init, final(verts)@, final(q)@, r@),
        coverage(final(verts)@, -1, 0),
        turned(old(verts)@, old(q)@, final(verts)@, final(q)@, v as int),
        graph_weight(final(verts)@) < graph_weight(old(verts)@) || (graph_weight(final(verts)@)
            <= graph_weight(old(verts)@) && queue_count(final(q)@) < queue_count(old(q)@)),
        forall|j: int|
            0 <= j < old(verts)@.len() && j != v ==> (#[trigger] final(verts)@[j]).time.le(
                old(verts)@[j].time,
            ),
        forall|j: int|
            0 <= j < old(verts)@.len() && old(verts)@[j].burned ==> #[trigger] final(verts)@[j]
                == old(verts)@[j],
{
    let ghost s0 = verts@;
    let ghost q0 = q@;
    q[v] = false;
    assert(q@ =~= q0.update(v as int, false));
    let v_time: u128 = match *verts[v].time() {
        BurnTime::Time(t) => t,
        BurnTime::Infinity => {
            proof {
                lemma_dropped(init, s0, q0, order, v as int);
                assert forall|j: int| 0 <= j < s0.len() implies (#[trigger] verts@[j]).time.le(
                    s0[j].time,
                ) by {
                    super::burntime::lemma_burntime_order(s0[j].time, s0[j].time, s0[j].time);
                }
            }
            return Ghost(order);
        },
    };
    if verts[v].is_burned() {
        proof {
            lemma_dropped(init, s0, q0, order, v as int);
            assert forall|j: int| 0 <= j < s0.len() implies (#[trigger] verts@[j]).time.le(
                s0[j].time,
            ) by {
                super::burntime::lemma_burntime_order(s0[j].time, s0[j].time, s0[j].time);
            }
        }
        return Ghost(order);
    }
    proof {
        assert(node_inv(s0, q0, order.len(), v as int));
    }
    verts[v].ignite(v_time);
    let ghost mid = verts@[v as int];
    let unburned_sectors: Vec<usize> = verts[v].get_unburned_sectors();
    if unburned_sectors.len() == 0 {
        verts[v].burn();
        let ghost s4 = verts@;
        let ghost order1 = order.push(v);
        proof {
            assert forall|j: int| 0 <= j < mid.sector@.len() implies (
            #[trigger] mid.sector@[j]).burned by {
                assert(mid.sector.len() == mid.sector@.len());
                if !mid.sector@[j].burned {
                    assert(unburned_sectors@.contains(j as usize));
                }
            }
            assert(s4 =~= s0.update(v as int, Vertex { burned: true, ..mid }));
            lemma_burned(init, s0, q0, order, s4, v as int, v_time, mid);
            assert(verts.len() == verts@.len());
        }
        let ghost q1 = q@;
        relax_neighbors(verts, q, v, v_time, Ghost(init), Ghost(order1));
        proof {
            assert(all_burned(mid));
            assert(s4[v as int].neigh@ == s0[v as int].neigh@);
            assert(ignited(s0[v as int], mid, v_time));
            assert(s0[v as int].time->0 == v_time);
            assert(q1 == q0.update(v as int, false));
            assert(relaxed(
                s0.update(v as int, Vertex { burned: true, ..mid }),
                q0.update(v as int, false),
                verts@,
                q@,
                v as int,
                s0[v as int].time->0,
                s0[v as int].neigh@.len() as int,
            ));
            assert(turned(s0, q0, verts@, q@, v as int));
            assert forall|j: int| 0 <= j < s0.len() && j != v
                implies (#[trigger] verts@[j]).time.le(
                s0[j].time,
            ) by {
                assert(s4[j] == s0[j]);
            }
            assert forall|j: int| 0 <= j < s0.len() && s0[j].burned implies #[trigger] verts@[j]
                == s0[j] by {
                assert(s4[j] == s0[j]);
            }
        }
        Ghost(order1)
    } else {
        proof {
            assert forall|x: int| 0 <= x < unburned_sectors@.len() implies (
            #[trigger] unburned_sectors@[x]) < mid.sector@.len() by {
                assert(unburned_sectors@.contains(unburned_sectors@[x]));
            }
        }
        let sec_min: usize = verts[v].choose_sector(&unburned_sectors);
        proof {
            assert(unburned_sectors@.contains(sec_min));
            assert forall|j: int|
                0 <= j < mid.sector@.len() && !(#[trigger] mid.sector@[j]).burned
                    implies mid.sector@[sec_min as int].time.le(
                mid.sector@[j].time,
            ) by {
                assert(mid.sector.len() == mid.sector@.len());
                assert(unburned_sectors@.contains(j as usize));
                let x = choose|x: int|
                    0 <= x < unburned_sectors@.len() && unburned_sectors@[x] == j as usize;
                assert(mid.sector@[sec_min as int].time.le(
                    mid.sector@[unburned_sectors@[x] as int].time,
                ));
            }
        }
        match *verts[v].sector[sec_min].time() {
            BurnTime::Time(t) => {
                verts[v].set_prime_sector(sec_min);
                verts[v].set_time(t);
                q[v] = true;
            },
            BurnTime::Infinity => {
                verts[v].reset_prime_sector();
                verts[v].reset_time();
            },
        }
        proof {
            let s4 = verts@;
            let stays = mid.sector@[sec_min as int].time is Time;
            assert(q@ =~= q0.update(v as int, stays));
            assert(s4 =~= s0.update(
                v as int,
                match mid.sector@[sec_min as int].time {
                    BurnTime::Time(t) => Vertex {
                        prime_sector: Some(sec_min),
                        time: BurnTime::Time(t),
                        ..mid
                    },
                    BurnTime::Infinity => Vertex {
                        prime_sector: None,
                        time: BurnTime::Infinity,
                        ..mid
                    },
                },
            ));
            lemma_waiting(init, s0, q0, order, s4, v as int, v_time, mid, sec_min as int);
            assert(is_choice(mid, sec_min as int)) by {
                assert forall|j: int|
                    0 <= j < sec_min && !(#[trigger] mid.sector@[j]).burned
                        implies !mid.sector@[j].time.le(
                    mid.sector@[sec_min as int].time,
                ) by {
                    assert(mid.sector.len() == mid.sector@.len());
                    assert(unburned_sectors@.contains(j as usize));
                    let x = choose|x: int|
                        0 <= x < unburned_sectors@.len() && unburned_sectors@[x] == j as usize;
                    let pz = choose|pz: int|
                        0 <= pz < unburned_sectors@.len() && #[trigger] unburned_sectors@[pz]
                            == sec_min && forall|y: int|
                            0 <= y < pz
                                ==> !mid.sector@[(#[trigger] unburned_sectors@[y]) as int].time.le(
                                mid.sector@[sec_min as int].time,
                            );
                    if x >= pz {
                        if x > pz {
                            assert(unburned_sectors@[pz] < unburned_sectors@[x]);
                        }
                    } else {
                        assert(!mid.sector@[unburned_sectors@[x] as int].time.le(
                            mid.sector@[sec_min as int].time,
                        ));
                    }
                }
            }
            assert(!all_burned(mid));
            assert(waits_for(mid, s4[v as int], sec_min as int));
            assert(ignited(s0[v as int], mid, v_time));
            assert(s0[v as int].time->0 == v_time);
            assert(s4 == s0.update(v as int, s4[v as int]));
            assert(q@ == q0.update(v as int, false).update(v as int, stays)) by {
                assert(q@ =~= q0.update(v as int, false).update(v as int, stays));
            }
            assert(turned(s0, q0, verts@, q@, v as int));
            assert forall|j: int| 0 <= j < s0.len() && j != v
                implies (#[trigger] verts@[j]).time.le(
                s0[j].time,
            ) by {
                super::burntime::lemma_burntime_order(s0[j].time, s0[j].time, s0[j].time);
            }
        }
        Ghost(order)
    }
}


/// The graph `verts` with the queue `q` is a state of the burning: it came
/// from some graph at the start of the fire by turns of queued nodes.
pub open spec fn burning_state(verts: Seq<Vertex>, q: Seq<bool>) -> bool {
    &&& coverage(verts, -1, 0)
    &&& exists|init: Seq<Vertex>, order: Seq<usize>| #[trigger] burning(init, verts, q, order)
}

/// One step of the burning: the turn of the queued node `v`. A node without
/// a time, or one that is burned, only leaves the queue. Otherwise the sector
/// that it waited for burns, and so do its exposed sectors. If that leaves no
/// sector, the node is burned and its fire reaches its neighbours; else it goes
/// on waiting, for its earliest sector.
///
/// The time of any other node can only go down, a burned node stays as it
/// is, and the measure of the burning goes down.
pub fn turn(verts: &mut Vec<Vertex>, q: &mut Vec<bool>, v: usize)
    requires
        burning_state(old(verts)@, old(q)@),
        v < old(verts)@.len(),
        old(q)@[v as int],
    ensures
        burning_state(final(verts)@, final(q)@),
        turned(old(verts)@, old(q)@, final(verts)@, final(q)@, v as int),
        final(verts)@.len() == old(verts)@.len(),
        forall|j: int|
            0 <= j < old(verts)@.len() && j != v ==> (#[trigger] final(verts)@[j]).time.le(
                old(verts)@[j].time,
            ),
        forall|j: int|
            0 <= j < old(verts)@.len() && old(verts)@[j].burned ==> #[trigger] final(verts)@[j]
                == old(verts)@[j],
        graph_weight(final(verts)@) < graph_weight(old(verts)@) || (graph_weight(final(verts)@)
            <= graph_weight(old(verts)@) && queue_count(final(q)@) < queue_count(old(q)@)),
{
    let ghost (init, order) = choose|init: Seq<Vertex>, order: Seq<usize>| #[trigger]
        burning(init, verts@, q@, order);
    let r = settle(verts, q, v, Ghost(init), Ghost(order));
    proof {
        assert(burning(init, verts@, q@, r@));
    }
}

/// `order` lists the burned nodes, each once, and a node that the fire
/// reached from another stands after that one: followed back from any node,
/// the way of the fire never comes round, and ends at a node that the fire
/// reached from nowhere.
pub open spec fn burn_order(verts: Seq<Vertex>, order: Seq<usize>) -> bool {
    &&& order.no_duplicates()
    &&& forall|k: int|
        0 <= k < order.len() ==> (#[trigger] order[k]) < verts.len()
            && verts[order[k] as int].burned
    &&& forall|i: int|
        0 <= i < verts.len() && (#[trigger] verts[i]).burned ==> order.contains(i as usize)
    &&& forall|k: int|
        0 <= k < order.len() && verts[(#[trigger] order[k]) as int].predecessor() is Some
            ==> listed_before(order, k, verts[order[k] as int].predecessor()->0 as int)
}

/// What holds of node `i` when the fire has gone out.
///
/// The node is burned exactly if it has a time. A time is the radius of some
/// node with a known radius at least, and the node's own radius if that is
/// known. All sectors of a burned node are burned; of another node exactly
/// those that have a time. A node that the fire reached from a neighbour got its time from
/// there: the neighbour is burned, and the node's time is the neighbour's time
/// and the distance between the two. A node with a time that the fire reached
/// from nowhere has a known radius.
pub open spec fn settled(verts: Seq<Vertex>, i: int) -> bool {
    let v = verts[i];
    &&& v.burned == (v.time is Time)
    &&& v.prime_in_range()
    &&& v.time is Time ==> v.time->0 <= time_limit(verts.len()) && above_seed(verts, v.time->0)
    &&& v.is_seed() ==> v.time == BurnTime::Time(v.rad as u128) || v.time == BurnTime::Infinity
    &&& forall|s: int|
        0 <= s < v.sector@.len() ==> (#[trigger] v.sector@[s]).burned == (v.burned
            || v.sector@[s].time is Time)
    &&& match v.predecessor() {
        Some(w) => w < verts.len() && verts[w as int].burned && v.burned && v.time->0
            == verts[w as int].time->0 + distance(verts[w as int].pos, v.pos),
        None => v.time is Time ==> v.is_seed(),
    }
}

/// The queued node `v` is the one whose turn is next: it has the earliest
/// time in the queue, and the lowest index among the queued nodes with that
/// time.
pub open spec fn is_next(verts: Seq<Vertex>, q: Seq<bool>, v: int) -> bool {
    &&& 0 <= v < verts.len()
    &&& q[v]
    &&& forall|i: int| 0 <= i < verts.len() && #[trigger] q[i] ==> verts[v].time.le(verts[i].time)
    &&& forall|i: int| 0 <= i < v && #[trigger] q[i] ==> !verts[i].time.le(verts[v].time)
}

/// The graph `s` with the queue `q` is the graph `before` at the start of
/// the fire: every node with a known radius has the radius for its time and is
/// queued, and nothing else has changed.
pub open spec fn seeded(before: Seq<Vertex>, s: Seq<Vertex>, q: Seq<bool>) -> bool {
    &&& s.len() == before.len()
    &&& q.len() == before.len()
    &&& forall|i: int|
        0 <= i < before.len() ==> q[i] == before[i].is_seed() && #[trigger] s[i]
            == if before[i].is_seed() {
            Vertex { time: BurnTime::Time(before[i].rad as u128), ..before[i] }
        } else {
            before[i]
        }
}

/// The state `b` comes from the state `a` by the turn of the node whose
/// turn was next.
pub open spec fn is_step(a: (Seq<Vertex>, Seq<bool>), b: (Seq<Vertex>, Seq<bool>)) -> bool {
    exists|v: int| is_next(a.0, a.1, v) && #[trigger] turned(a.0, a.1, b.0, b.1, v)
}

/// `run` is a run of the burning: each of its states comes from the one
/// before by the turn of the node whose turn was next.
pub open spec fn is_run(run: Seq<(Seq<Vertex>, Seq<bool>)>) -> bool {
    forall|t: int| 0 <= t < run.len() - 1 ==> #[trigger] is_step(run[t], run[t + 1])
}

/// The graph `after` is what a run of the burning makes of the graph
/// `before`: the run starts with the graph at the start of the fire and ends,
/// with an empty queue, in `after`.
pub open spec fn burned_by_run(before: Seq<Vertex>, after: Seq<Vertex>) -> bool {
    exists|run: Seq<(Seq<Vertex>, Seq<bool>)>|
        run.len() >= 1 && seeded(before, run[0].0, run[0].1) && #[trigger] is_run(run)
            && run[run.len() - 1].0 == after && forall|i: int|
            0 <= i < run[run.len() - 1].1.len() ==> !#[trigger] run[run.len() - 1].1[i]
}

/// What the burning makes of a graph: what a run of the burning makes of
/// it. The structure of the graph stays. Every node is settled. A node with a
/// known radius, all of whose sectors were exposed before, is burned at the
/// time of its radius. The burned nodes can be put in an order of burning. And
/// the fire of every burned node has reached all its neighbours.
pub open spec fn burned_out(before: Seq<Vertex>, after: Seq<Vertex>) -> bool {
    &&& after.len() == before.len()
    &&& forall|i: int| 0 <= i < after.len() ==> same_structure(before[i], #[trigger] after[i])
    &&& forall|i: int| 0 <= i < after.len() ==> #[trigger] settled(after, i)
    &&& forall|i: int|
        0 <= i < after.len() && (#[trigger] before[i]).is_seed() && all_exposed(before[i])
            ==> after[i].burned && after[i].time == BurnTime::Time(before[i].rad as u128)
    &&& exists|order: Seq<usize>| #[trigger] burn_order(after, order)
    &&& coverage(after, -1, 0)
    &&& burned_by_run(before, after)
}

/// When the queue is empty, every node is settled and the order of burning
/// is complete.
pub proof fn lemma_finished(init: Seq<Vertex>, verts: Seq<Vertex>, q: Seq<bool>, order: Seq<usize>)
    requires
        burning(init, verts, q, order),
        forall|i: int| 0 <= i < q.len() ==> !#[trigger] q[i],
    ensures
        forall|i: int| 0 <= i < verts.len() ==> #[trigger] settled(verts, i),
        forall|i: int|
            0 <= i < verts.len() && (#[trigger] init[i]).is_seed() && all_exposed(init[i])
                ==> verts[i].burned && verts[i].time == BurnTime::Time(init[i].rad as u128),
        burn_order(verts, order),
{
    let n = verts.len() as int;
    let kk = order.len();
    assert forall|i: int| 0 <= i < n implies #[trigger] settled(verts, i) by {
        assert(node_inv(verts, q, kk, i));
        assert(node_ready(verts, i));
        assert(!q[i]);
        let v = verts[i];
        lemma_time_limit(kk, n as nat);
        if v.prime_sector is Some {
            let p = v.prime_sector->0 as int;
            assert(arrival_ok(verts, i, p));
        }
    }
    assert forall|i: int|
        0 <= i < n && (#[trigger] init[i]).is_seed() && all_exposed(
            init[i],
        ) implies verts[i].burned && verts[i].time == BurnTime::Time(init[i].rad as u128) by {
        assert(seed_inv(init, verts, q, i));
        assert(!q[i]);
    }
}

impl<'a> ETGraph<'a> {
    /// Nothing of the graph is touched by the fire.
    pub open spec fn fresh(&self) -> bool {
        forall|i: int| 0 <= i < self.vert@.len() ==> untouched(#[trigger] self.vert@[i])
    }

    /// Burns the graph. The fire starts at the nodes with a known radius, at
    /// the time of the radius. Then the queued node with the earliest time has
    /// its turn, again and again, until the queue is empty.
    pub fn burn(&mut self)
        requires
            old(self).fresh(),
            old(self).ready(),
        ensures
            final(self).skel == old(self).skel,
            burned_out(old(self).vert@, final(self).vert@),
    {
        let mut q: Vec<bool> = seed(&mut self.vert);
        let ghost init = self.vert@;
        let ghost mut order: Seq<usize> = Seq::empty();
        let ghost mut run: Seq<(Seq<Vertex>, Seq<bool>)> = seq![(self.vert@, q@)];

        loop
            invariant
                self.skel == old(self).skel,
                burning(init, self.vert@, q@, order),
                coverage(self.vert@, -1, 0),
                run.len() >= 1,
                seeded(old(self).vert@, run[0].0, run[0].1),
                is_run(run),
                run[run.len() - 1] == (self.vert@, q@),
            ensures
                forall|i: int| 0 <= i < q@.len() ==> !#[trigger] q@[i],
            decreases graph_weight(self.vert@), queue_count(q@),
        {
            match extract_min(&self.vert, &q) {
                None => {
                    break ;
                },
                Some(v) => {
                    let ghost before_run = run;
                    let r = settle(&mut self.vert, &mut q, v, Ghost(init), Ghost(order));
                    proof {
                        order = r@;
                        run = run.push((self.vert@, q@));
                        let last = before_run.len() - 1;
                        assert forall|t: int| 0 <= t < run.len() - 1 implies #[trigger] is_step(
                            run[t],
                            run[t + 1],
                        ) by {
                            if t < last {
                                assert(run[t] == before_run[t]);
                                assert(run[t + 1] == before_run[t + 1]);
                                assert(is_step(before_run[t], before_run[t + 1]));
                            } else {
                                assert(run[t] == before_run[last]);
                                assert(turned(
                                    run[t].0,
                                    run[t].1,
                                    run[t + 1].0,
                                    run[t + 1].1,
                                    v as int,
                                ));
                            }
                        }
                    }
                },
            }
        }
        proof {
            let before = old(self).vert@;
            let after = self.vert@;
            lemma_finished(init, after, q@, order);
            assert forall|i: int| 0 <= i < after.len() implies same_structure(
                before[i],
                #[trigger] after[i],
            ) by {
                assert(same_structure(init[i], after[i]));
                lemma_same_structure_self(before[i]);
                lemma_same_structure_chain(before[i], init[i], after[i]);
            }
            assert forall|i: int|
                0 <= i < after.len() && (#[trigger] before[i]).is_seed() && all_exposed(
                    before[i],
                ) implies after[i].burned && after[i].time == BurnTime::Time(
                before[i].rad as u128,
            ) by {
                assert(init[i].is_seed());
                assert forall|s: int| 0 <= s < init[i].sector@.len() implies (
                #[trigger] init[i].sector@[s]).exposed() by {
                    assert(before[i].sector@[s].exposed());
                }
            }
            assert(burn_order(after, order));
            assert(is_run(run));
            assert(burned_by_run(before, after));
        }
    }
}


/// `t` is the latest time of any node; 0 where no node has a time.
pub open spec fn is_latest(verts: Seq<Vertex>, t: u128) -> bool {
    &&& forall|i: int|
        0 <= i < verts.len() && (#[trigger] verts[i]).time is Time ==> verts[i].time->0 <= t
    &&& (exists|i: int| 0 <= i < verts.len() && (#[trigger] verts[i]).time == BurnTime::Time(t))
        || (t == 0 && forall|i: int|
        0 <= i < verts.len() ==> (#[trigger] verts[i]).time is Infinity)
}

/// `t` is the earliest time of any node; 0 where no node has a time.
pub open spec fn is_earliest(verts: Seq<Vertex>, t: u128) -> bool {
    &&& forall|i: int|
        0 <= i < verts.len() && (#[trigger] verts[i]).time is Time ==> t <= verts[i].time->0
    &&& (exists|i: int| 0 <= i < verts.len() && (#[trigger] verts[i]).time == BurnTime::Time(t))
        || (t == 0 && forall|i: int|
        0 <= i < verts.len() ==> (#[trigger] verts[i]).time is Infinity)
}

/// The colour of a node on the way of the fire, between the earliest time
/// `lo` and the latest time `hi`: red, green, blue.
pub open spec fn time_color(v: Vertex, lo: u128, hi: u128) -> Seq<u8> {
    match v.time {
        BurnTime::Time(t) => seq![ramp(t - lo, hi - lo) as u8, 0u8, ramp(hi - t, hi - lo) as u8],
        BurnTime::Infinity => seq![0u8, 0u8, 0u8],
    }
}

/// The time under which a node is shown: its own, or `t_max` where it has
/// none.
pub open spec fn shown_time(v: Vertex, t_max: u128) -> u128 {
    match v.time {
        BurnTime::Time(t) => t,
        BurnTime::Infinity => t_max,
    }
}

/// The arcs of the erosion path among the first `n` nodes: for each node
/// that the fire reached from a neighbour, in the order of the nodes, the node
/// and that neighbour.
pub open spec fn prime_arcs(verts: Seq<Vertex>, n: int) -> Seq<(usize, usize)>
    decreases n,
{
    if n <= 0 {
        Seq::empty()
    } else {
        match verts[n - 1].predecessor() {
            Some(w) => prime_arcs(verts, n - 1).push(((n - 1) as usize, w)),
            None => prime_arcs(verts, n - 1),
        }
    }
}

/// The erosion thickness of a node: its time less its radius, where it has
/// a time.
pub open spec fn thickness(v: Vertex) -> Option<int> {
    match v.time {
        BurnTime::Time(t) => Some(t - v.rad),
        BurnTime::Infinity => None,
    }
}

/// `top` is the greatest erosion thickness among the first `n` nodes, and
/// 0 where none is above 0.
pub open spec fn is_top_thickness(verts: Seq<Vertex>, n: int, top: int) -> bool {
    &&& forall|i: int|
        0 <= i < n && thickness(#[trigger] verts[i]) is Some ==> thickness(verts[i])->0 <= top
    &&& top == 0 || exists|i: int| 0 <= i < n && thickness(#[trigger] verts[i]) == Some(top)
    &&& top >= 0
}

/// The erosion thickness under which a node is shown: its own, or `top`
/// where it has none.
pub open spec fn shown_thickness(v: Vertex, top: int) -> int {
    match thickness(v) {
        Some(e) => e,
        None => top,
    }
}

/// No time of a node is above the limit for the number of nodes.
pub open spec fn times_bounded(verts: Seq<Vertex>) -> bool {
    forall|i: int|
        0 <= i < verts.len() && (#[trigger] verts[i]).time is Time ==> verts[i].time->0
            <= time_limit(verts.len())
}

impl<'a> ETGraph<'a> {
    /// The latest time of any node; 0 where no node has a time.
    pub fn latest_time(&self) -> (t: u128)
        ensures
            is_latest(self.vert@, t),
    {
        let mut bt_max: u128 = 0;
        let mut i: usize = 0;
        let ghost mut at: int = -1;
        while i < self.vert.len()
            invariant
                i <= self.vert@.len(),
                -1 <= at < i,
                forall|i2: int|
                    0 <= i2 < i && (#[trigger] self.vert@[i2]).time is Time
                        ==> self.vert@[i2].time->0 <= bt_max,
                at >= 0 ==> self.vert@[at].time == BurnTime::Time(bt_max),
                at < 0 ==> bt_max == 0 && forall|i2: int|
                    0 <= i2 < i ==> (#[trigger] self.vert@[i2]).time is Infinity,
            decreases self.vert@.len() - i,
        {
            match *self.vert[i].time() {
                BurnTime::Time(bt) => {
                    if bt > bt_max {
                        bt_max = bt;
                        proof {
                            at = i as int;
                        }
                    } else {
                        proof {
                            if at < 0 {
                                at = i as int;
                            }
                        }
                    }
                },
                BurnTime::Infinity => {},
            }
            i = i + 1;
        }
        bt_max
    }

    /// The earliest time of any node; 0 where no node has a time.
    pub fn earliest_time(&self) -> (t: u128)
        ensures
            is_earliest(self.vert@, t),
    {
        let mut bt_min: u128 = 0;
        let mut found: bool = false;
        let mut i: usize = 0;
        let ghost mut at: int = -1;
        while i < self.vert.len()
            invariant
                i <= self.vert@.len(),
                -1 <= at < i,
                found == (at >= 0),
                forall|i2: int|
                    0 <= i2 < i && (#[trigger] self.vert@[i2]).time is Time ==> bt_min
                        <= self.vert@[i2].time->0,
                at >= 0 ==> self.vert@[at].time == BurnTime::Time(bt_min),
                at < 0 ==> bt_min == 0 && forall|i2: int|
                    0 <= i2 < i ==> (#[trigger] self.vert@[i2]).time is Infinity,
            decreases self.vert@.len() - i,
        {
            match *self.vert[i].time() {
                BurnTime::Time(bt) => {
                    if !found || bt < bt_min {
                        bt_min = bt;
                        found = true;
                        proof {
                            at = i as int;
                        }
                    }
                },
                BurnTime::Infinity => {},
            }
            i = i + 1;
        }
        bt_min
    }

    /// The colour of every node on the way of the fire: from blue for the
    /// earliest time to red for the latest, and black for a node without a
    /// time.
    pub fn time_colors(&self) -> (colors: Vec<[u8; 3]>)
        requires
            times_bounded(self.vert@),
        ensures
            colors@.len() == self.vert@.len(),
            exists|lo: u128, hi: u128|
                is_earliest(self.vert@, lo) && is_latest(self.vert@, hi) && forall|i: int|
                    0 <= i < self.vert@.len() ==> #[trigger] colors@[i]@ == time_color(
                        self.vert@[i],
                        lo,
                        hi,
                    ),
    {
        proof {
            assert(self.vert.len() == self.vert@.len());
            lemma_time_limit(self.vert@.len(), self.vert@.len());
        }
        let t_min: u128 = self.earliest_time();
        let t_max: u128 = self.latest_time();
        proof {
            if exists|w: int|
                0 <= w < self.vert@.len() && (#[trigger] self.vert@[w]).time
                    == BurnTime::Time(t_max) {
                let w = choose|w: int|
                    0 <= w < self.vert@.len() && (#[trigger] self.vert@[w]).time == BurnTime::Time(
                        t_max,
                    );
                assert(t_min <= self.vert@[w].time->0);
            } else {
                if exists|w: int|
                    0 <= w < self.vert@.len() && (#[trigger] self.vert@[w]).time == BurnTime::Time(
                        t_min,
                    ) {
                    let w = choose|w: int|
                        0 <= w < self.vert@.len() && (#[trigger] self.vert@[w]).time
                            == BurnTime::Time(t_min);
                    assert(self.vert@[w].time is Infinity);
                }
            }
            assert(t_min <= t_max);
        }
        let spread: u128 = t_max - t_min;
        let mut colors: Vec<[u8; 3]> = Vec::new();
        let mut i: usize = 0;
        while i < self.vert.len()
            invariant
                i <= self.vert@.len(),
                colors@.len() == i,
                t_min <= t_max,
                spread == t_max - t_min,
                t_max <= time_limit(self.vert@.len()),
                time_limit(self.vert@.len()) < 0x10_0000_0000_0000_0000_0000_0000,
                is_earliest(self.vert@, t_min),
                is_latest(self.vert@, t_max),
                forall|i2: int|
                    0 <= i2 < i ==> #[trigger] colors@[i2]@ == time_color(
                        self.vert@[i2],
                        t_min,
                        t_max,
                    ),
            decreases self.vert@.len() - i,
        {
            match *self.vert[i].time() {
                BurnTime::Time(vt) => {
                    let r: u8 = color_channel(vt - t_min, spread);
                    let b: u8 = color_channel(t_max - vt, spread);
                    colors.push([r, 0, b]);
                    assert(colors@[i as int]@ =~= time_color(self.vert@[i as int], t_min, t_max));
                },
                BurnTime::Infinity => {
                    colors.push([0, 0, 0]);
                    assert(colors@[i as int]@ =~= time_color(self.vert@[i as int], t_min, t_max));
                },
            }
            i = i + 1;
        }
        colors
    }

    /// The arcs of the erosion path: for each node that the fire reached
    /// from a neighbour, in the order of the nodes, the node and that
    /// neighbour.
    pub fn prime_arc_list(&self) -> (arcs: Vec<[usize; 2]>)
        requires
            forall|i: int| 0 <= i < self.vert@.len()
                ==> (#[trigger] self.vert@[i]).prime_in_range(),
        ensures
            arcs@.len() == prime_arcs(self.vert@, self.vert@.len() as int).len(),
            forall|e: int|
                0 <= e < arcs@.len() ==> (#[trigger] arcs@[e])[0] == prime_arcs(
                    self.vert@,
                    self.vert@.len() as int,
                )[e].0 && arcs@[e][1] == prime_arcs(self.vert@, self.vert@.len() as int)[e].1,
    {
        let mut arcs: Vec<[usize; 2]> = Vec::new();
        let mut i: usize = 0;
        while i < self.vert.len()
            invariant
                i <= self.vert@.len(),
                forall|i2: int|
                    0 <= i2 < self.vert@.len() ==> (#[trigger] self.vert@[i2]).prime_in_range(),
                arcs@.len() == prime_arcs(self.vert@, i as int).len(),
                forall|e: int|
                    0 <= e < arcs@.len() ==> (#[trigger] arcs@[e])[0] == prime_arcs(
                        self.vert@,
                        i as int,
                    )[e].0 && arcs@[e][1] == prime_arcs(self.vert@, i as int)[e].1,
            decreases self.vert@.len() - i,
        {
            assert(self.vert@[i as int].prime_in_range());
            match self.vert[i].prime_neighbor() {
                Some(ind_prime) => {
                    arcs.push([i, ind_prime]);
                },
                None => {},
            }
            i = i + 1;
        }
        arcs
    }

    /// The erosion thickness of each of the first `count` nodes; a node
    /// without a time is given the greatest thickness among them.
    pub fn thickness_values(&self, count: usize) -> (r: Vec<i128>)
        requires
            count <= self.vert@.len(),
            times_bounded(self.vert@),
        ensures
            r@.len() == count,
            exists|top: int| #[trigger]
                is_top_thickness(self.vert@, count as int, top) && forall|i: int|
                    0 <= i < count ==> #[trigger] r@[i] == shown_thickness(self.vert@[i], top),
            forall|i: int|
                0 <= i < count ==> -SCALAR_LIMIT < #[trigger] r@[i] < SCALAR_LIMIT,
    {
        proof {
            assert(self.vert.len() == self.vert@.len());
            lemma_time_limit(self.vert@.len(), self.vert@.len());
        }
        let mut et_max: i128 = 0;
        let mut i: usize = 0;
        while i < count
            invariant
                i <= count,
                count <= self.vert@.len(),
                times_bounded(self.vert@),
                time_limit(self.vert@.len()) < 0x10_0000_0000_0000_0000_0000_0000,
                is_top_thickness(self.vert@, i as int, et_max as int),
                0 <= et_max < SCALAR_LIMIT,
            decreases count - i,
        {
            let ghost old_top = et_max;
            match self.vert[i].erosion_thickness() {
                super::vertex::ErosionThickness::ET(et) => {
                    if et > et_max {
                        et_max = et;
                    }
                },
                super::vertex::ErosionThickness::Infinity => {},
            }
            proof {
                if et_max != old_top {
                    assert(thickness(self.vert@[i as int]) == Some(et_max as int));
                } else if old_top != 0 {
                    let w = choose|w: int|
                        0 <= w < i && thickness(#[trigger] self.vert@[w]) == Some(old_top as int);
                }
            }
            i = i + 1;
        }
        let mut et_values: Vec<i128> = Vec::new();
        let mut i: usize = 0;
        while i < count
            invariant
                i <= count,
                count <= self.vert@.len(),
                times_bounded(self.vert@),
                time_limit(self.vert@.len()) < 0x10_0000_0000_0000_0000_0000_0000,
                0 <= et_max < SCALAR_LIMIT,
                et_values@.len() == i,
                forall|i2: int|
                    0 <= i2 < i ==> #[trigger] et_values@[i2] == shown_thickness(
                        self.vert@[i2],
                        et_max as int,
                    ),
                forall|i2: int| 0 <= i2 < i
                    ==> -SCALAR_LIMIT < #[trigger] et_values@[i2] < SCALAR_LIMIT,
            decreases count - i,
        {
            match self.vert[i].erosion_thickness() {
                super::vertex::ErosionThickness::ET(et) => {
                    et_values.push(et);
                },
                super::vertex::ErosionThickness::Infinity => {
                    et_values.push(et_max);
                },
            }
            i = i + 1;
        }
        et_values
    }

    /// The erosion path of the graph, without colours: a vertex for each
    /// node, at the node's place and with the time under which it is shown, and
    /// the arcs as edges.
    pub fn erosion_path(&self) -> (p: ErosionPath)
        requires
            forall|i: int| 0 <= i < self.vert@.len()
                ==> (#[trigger] self.vert@[i]).prime_in_range(),
            times_bounded(self.vert@),
        ensures
            path_drawn(self.vert@, p),
    {
        proof {
            assert(self.vert.len() == self.vert@.len());
            lemma_time_limit(self.vert@.len(), self.vert@.len());
        }
        let mut erosion_path: ErosionPath = ErosionPath::new();
        let bt_max: u128 = self.latest_time();
        proof {
            if bt_max != 0 {
                let w = choose|w: int|
                    0 <= w < self.vert@.len() && (#[trigger] self.vert@[w]).time == BurnTime::Time(
                        bt_max,
                    );
            }
        }
        let mut i: usize = 0;
        while i < self.vert.len()
            invariant
                i <= self.vert@.len(),
                erosion_path.wf(),
                erosion_path.typed(),
                erosion_path.edge_properties@.len() == 0,
                erosion_path.vertex_properties@.len() == i,
                times_bounded(self.vert@),
                time_limit(self.vert@.len()) < 0x10_0000_0000_0000_0000_0000_0000,
                bt_max <= time_limit(self.vert@.len()),
                forall|i2: int|
                    0 <= i2 < i ==> is_path_vertex(
                        #[trigger] erosion_path.vertex_properties@[i2],
                        self.vert@[i2].pos,
                        shown_time(self.vert@[i2], bt_max) as i128,
                    ),
            decreases self.vert@.len() - i,
        {
            let bt: u128 = match *self.vert[i].time() {
                BurnTime::Time(bt) => bt,
                BurnTime::Infinity => bt_max,
            };
            let ghost before = erosion_path.vertex_properties@;
            erosion_path.add_vertex(self.vert[i].pos(), bt as i128);
            proof {
                assert forall|i2: int| 0 <= i2 < i + 1 implies is_path_vertex(
                    #[trigger] erosion_path.vertex_properties@[i2],
                    self.vert@[i2].pos,
                    shown_time(self.vert@[i2], bt_max) as i128,
                ) by {
                    if i2 < i {
                        assert(erosion_path.vertex_properties@[i2] == before[i2]);
                    }
                }
            }
            i = i + 1;
        }
        let prime_arcs_list: Vec<[usize; 2]> = self.prime_arc_list();
        let ghost arcs = prime_arcs(self.vert@, self.vert@.len() as int);
        let mut e: usize = 0;
        while e < prime_arcs_list.len()
            invariant
                e <= prime_arcs_list@.len(),
                erosion_path.wf(),
                erosion_path.typed(),
                erosion_path.edge_properties@.len() == e,
                erosion_path.vertex_properties@.len() == self.vert@.len(),
                arcs == prime_arcs(self.vert@, self.vert@.len() as int),
                prime_arcs_list@.len() == arcs.len(),
                forall|e2: int|
                    0 <= e2 < arcs.len() ==> (#[trigger] prime_arcs_list@[e2])[0] == arcs[e2].0
                        && prime_arcs_list@[e2][1] == arcs[e2].1,
                forall|i2: int|
                    0 <= i2 < self.vert@.len() ==> is_path_vertex(
                        #[trigger] erosion_path.vertex_properties@[i2],
                        self.vert@[i2].pos,
                        shown_time(self.vert@[i2], bt_max) as i128,
                    ),
                forall|e2: int|
                    0 <= e2 < e ==> is_path_edge(
                        #[trigger] erosion_path.edge_properties@[e2],
                        arcs[e2].0,
                        arcs[e2].1,
                    ),
            decreases prime_arcs_list@.len() - e,
        {
            let ghost before = erosion_path.edge_properties@;
            erosion_path.add_edge(prime_arcs_list[e]);
            proof {
                assert forall|e2: int| 0 <= e2 < e + 1 implies is_path_edge(
                    #[trigger] erosion_path.edge_properties@[e2],
                    arcs[e2].0,
                    arcs[e2].1,
                ) by {
                    if e2 < e {
                        assert(erosion_path.edge_properties@[e2] == before[e2]);
                    }
                }
            }
            e = e + 1;
        }
        proof {
            assert(path_drawn_with(self.vert@, erosion_path, bt_max));
        }
        erosion_path
    }
}

/// `p` is the erosion path of the nodes `verts`, without colours, with
/// `t_max` as the time of the nodes that have none.
pub open spec fn path_drawn_with(verts: Seq<Vertex>, p: ErosionPath, t_max: u128) -> bool {
    &&& p.wf()
    &&& p.typed()
    &&& is_latest(verts, t_max)
    &&& p.vertex_properties@.len() == verts.len()
    &&& forall|i: int|
        0 <= i < verts.len() ==> is_path_vertex(
            #[trigger] p.vertex_properties@[i],
            verts[i].pos,
            shown_time(verts[i], t_max) as i128,
        )
    &&& p.edge_properties@.len() == prime_arcs(verts, verts.len() as int).len()
    &&& forall|e: int|
        0 <= e < p.edge_properties@.len() ==> is_path_edge(
            #[trigger] p.edge_properties@[e],
            prime_arcs(verts, verts.len() as int)[e].0,
            prime_arcs(verts, verts.len() as int)[e].1,
        )
}

/// `p` is the erosion path of the nodes `verts`, without colours: a vertex
/// for each node, at its place and with its time, or with the latest time of
/// all where it has none; and an edge for each arc, from the node to the
/// neighbour from which the fire reached it.
pub open spec fn path_drawn(verts: Seq<Vertex>, p: ErosionPath) -> bool {
    exists|t_max: u128| #[trigger] path_drawn_with(verts, p, t_max)
}


/// The properties `after` are the properties `before` with the colours that
/// show the scalar `key`: blue for the least value, red for the greatest.
pub open spec fn painted(
    before: Seq<NameMap<Property>>,
    after: Seq<NameMap<Property>>,
    key: Seq<char>,
) -> bool {
    &&& after.len() == before.len()
    &&& exists|lo: int, hi: int|
        is_column_min(before, key, before.len() as int, lo) && is_column_max(
            before,
            key,
            before.len() as int,
            hi,
        ) && forall|i: int|
            0 <= i < before.len() ==> colored(
                before[i],
                #[trigger] after[i],
                scalar_at(before, key, i),
                lo,
                hi,
            )
}

/// `path` shows the nodes `verts`: it is their erosion path `plain` with
/// the colours of the burn times.
pub open spec fn path_shown(verts: Seq<Vertex>, plain: ErosionPath, path: ErosionPath) -> bool {
    &&& path_drawn(verts, plain)
    &&& path.wf()
    &&& path.edge_property_types == plain.edge_property_types
    &&& path.edge_properties == plain.edge_properties
    &&& painted(plain.vertex_properties@, path.vertex_properties@, "burntime"@)
    &&& path.vertex_property_types.has("red"@) && path.vertex_property_types.value("red"@)
        == PropertyType::UChar
    &&& path.vertex_property_types.has("green"@) && path.vertex_property_types.value("green"@)
        == PropertyType::UChar
    &&& path.vertex_property_types.has("blue"@) && path.vertex_property_types.value("blue"@)
        == PropertyType::UChar
    &&& forall|key: Seq<char>|
        key != "red"@ && key != "green"@ && key != "blue"@ ==> path.vertex_property_types.has(key)
            == plain.vertex_property_types.has(key) && (plain.vertex_property_types.has(key)
            ==> path.vertex_property_types.value(key) == plain.vertex_property_types.value(key))
}

/// The properties `mid` are the properties `before` with the erosion
/// thickness of the nodes `verts`: vertex `i` holds the thickness of node `i`
/// under the name `erosion_thickness`, or the greatest thickness of all where
/// the node has none.
pub open spec fn thickness_entered(
    verts: Seq<Vertex>,
    before: Seq<NameMap<Property>>,
    mid: Seq<NameMap<Property>>,
) -> bool {
    &&& mid.len() == before.len()
    &&& before.len() <= verts.len()
    &&& exists|top: int| #[trigger]
        is_top_thickness(verts, before.len() as int, top) && forall|i: int|
            0 <= i < before.len() ==> {
                &&& (#[trigger] mid[i]).has("erosion_thickness"@)
                &&& mid[i].value("erosion_thickness"@) == Property::Scalar(
                    shown_thickness(verts[i], top) as i128,
                )
                &&& forall|key: Seq<char>|
                    key != "erosion_thickness"@ ==> mid[i].has(key) == before[i].has(key) && (
                    before[i].has(key) ==> mid[i].value(key) == before[i].value(key))
            }
}

/// What the computation leaves behind. `built` are the nodes of the burn
/// graph of the skeleton `before`, and they hang together; `verts` is what the
/// burning made of them. `path` shows the nodes, and the skeleton `after` is
/// the skeleton `before` with the erosion thickness of its vertices and the
/// colours that show it.
pub open spec fn computed(
    before: Skeleton,
    after: Skeleton,
    path: ErosionPath,
    built: Seq<Vertex>,
    verts: Seq<Vertex>,
    dist_max: u64,
    subdiv_max: usize,
) -> bool {
    &&& is_burn_graph(&before, built, dist_max, subdiv_max)
    &&& all_ready(built)
    &&& burned_out(built, verts)
    &&& exists|plain: ErosionPath| #[trigger] path_shown(verts, plain, path)
    &&& exists|mid: Seq<NameMap<Property>>| #[trigger]
        thickness_entered(verts, before.vertex_properties@, mid) && painted(
            mid,
            after.vertex_properties@,
            "erosion_thickness"@,
        )
    &&& after.vertex_property_types.has("erosion_thickness"@)
        && after.vertex_property_types.value("erosion_thickness"@) == PropertyType::Scalar
}

/// The properties `mid` are the properties `before` with the scalars
/// `values` under the name `erosion_thickness`.
pub open spec fn values_entered(
    values: Seq<i128>,
    before: Seq<NameMap<Property>>,
    mid: Seq<NameMap<Property>>,
) -> bool {
    &&& mid.len() == before.len()
    &&& values.len() == before.len()
    &&& forall|i: int|
        0 <= i < before.len() ==> {
            &&& (#[trigger] mid[i]).has("erosion_thickness"@)
            &&& mid[i].value("erosion_thickness"@) == Property::Scalar(values[i])
            &&& forall|key: Seq<char>|
                key != "erosion_thickness"@ ==> mid[i].has(key) == before[i].has(key) && (
                before[i].has(key) ==> mid[i].value(key) == before[i].value(key))
        }
}

/// Enters the erosion thickness `values[i]` of every vertex `i` into the
/// skeleton, with the colours that show it.
pub fn enter_thickness(skeleton: &mut Skeleton, values: &Vec<i128>)
    requires
        old(skeleton).wf(),
        old(skeleton).vertex_coords@.len() > 0,
        values@.len() == old(skeleton).vertex_coords@.len(),
        forall|i: int| 0 <= i < values@.len()
            ==> -SCALAR_LIMIT < #[trigger] values@[i] < SCALAR_LIMIT,
    ensures
        final(skeleton).wf(),
        final(skeleton).vertex_coords == old(skeleton).vertex_coords,
        final(skeleton).vertex_radius == old(skeleton).vertex_radius,
        final(skeleton).edges == old(skeleton).edges,
        final(skeleton).face_vertices == old(skeleton).face_vertices,
        final(skeleton).face_edges == old(skeleton).face_edges,
        final(skeleton).vertex_to_edges == old(skeleton).vertex_to_edges,
        final(skeleton).edge_to_faces == old(skeleton).edge_to_faces,
        final(skeleton).vertex_property_types.has("erosion_thickness"@),
        final(skeleton).vertex_property_types.value("erosion_thickness"@) == PropertyType::Scalar,
        exists|mid: Seq<NameMap<Property>>| #[trigger]
            values_entered(values@, old(skeleton).vertex_properties@, mid) && painted(
                mid,
                final(skeleton).vertex_properties@,
                "erosion_thickness"@,
            ),
{
    let ghost before = *skeleton;
    match skeleton.set_property_f32("erosion_thickness", values) {
        Ok(_) => {},
        Err(_) => {
            assert(false);
        },
    }
    let ghost mid = skeleton.vertex_properties@;
    proof {
        assert(values_entered(values@, before.vertex_properties@, mid));
        assert(column_ready(mid, "erosion_thickness"@)) by {
            assert forall|i: int| 0 <= i < mid.len() implies (#[trigger] mid[i]).wf() && mid[i].has(
                "erosion_thickness"@,
            ) && mid[i].value("erosion_thickness"@) is Scalar && -SCALAR_LIMIT < scalar_at(
                mid,
                "erosion_thickness"@,
                i,
            ) < SCALAR_LIMIT by {
                assert(mid[i].value("erosion_thickness"@) == Property::Scalar(values@[i]));
            }
        }
    }
    match skeleton.set_vertex_color_from_property_f32("erosion_thickness") {
        Ok(_) => {},
        Err(_) => {
            assert(false);
        },
    }
    proof {
        reveal_strlit("erosion_thickness");
        reveal_strlit("red");
        reveal_strlit("green");
        reveal_strlit("blue");
        assert("erosion_thickness"@.len() == 17);
        assert("red"@.len() == 3 && "green"@.len() == 5 && "blue"@.len() == 4);
        assert("erosion_thickness"@ != "red"@ && "erosion_thickness"@ != "green"@
            && "erosion_thickness"@ != "blue"@);
        assert(painted(mid, skeleton.vertex_properties@, "erosion_thickness"@));
    }
}

impl<'a> ETGraph<'a> {
    /// The erosion path of the graph, with the colours that show the burn
    /// times.
    pub fn shown_path(&self) -> (path: ErosionPath)
        requires
            self.vert@.len() > 0,
            forall|i: int| 0 <= i < self.vert@.len()
                ==> (#[trigger] self.vert@[i]).prime_in_range(),
            times_bounded(self.vert@),
        ensures
            exists|plain: ErosionPath| #[trigger] path_shown(self.vert@, plain, path),
    {
        let mut erosion_path: ErosionPath = self.erosion_path();
        let ghost plain = erosion_path;
        let ghost verts = self.vert@;
        proof {
            assert(self.vert.len() == verts.len());
            lemma_time_limit(verts.len(), verts.len());
            let t_max = choose|t_max: u128| #[trigger] path_drawn_with(verts, plain, t_max);
            if t_max != 0 {
                let w = choose|w: int|
                    0 <= w < verts.len() && (#[trigger] verts[w]).time == BurnTime::Time(t_max);
            }
            assert(column_ready(plain.vertex_properties@, "burntime"@)) by {
                assert forall|i: int| 0 <= i < plain.vertex_properties@.len() implies (
                #[trigger] plain.vertex_properties@[i]).wf() && plain.vertex_properties@[i].has(
                    "burntime"@,
                ) && plain.vertex_properties@[i].value("burntime"@) is Scalar && -SCALAR_LIMIT
                    < scalar_at(plain.vertex_properties@, "burntime"@, i) < SCALAR_LIMIT by {
                    assert(is_path_vertex(
                        plain.vertex_properties@[i],
                        verts[i].pos,
                        shown_time(verts[i], t_max) as i128,
                    ));
                }
            }
        }
        match erosion_path.set_vertex_color_from_property_f32("burntime") {
            Ok(_) => {},
            Err(_) => {
                assert(false);
            },
        }
        proof {
            assert(path_shown(verts, plain, erosion_path));
        }
        erosion_path
    }
}

/// Computes the erosion thickness of a skeleton. Builds the burn graph of
/// the skeleton, with `dist_max` as the longest piece of an edge and
/// `subdiv_max` as the most pieces of one edge, and burns it. Enters the
/// erosion thickness of every vertex into the skeleton, with the colours that
/// show it, and returns the erosion path with the colours that show the burn
/// times.
///
/// Fails with `InternalInvariant`, and leaves the skeleton as it is, where
/// the nodes of the burn graph do not hang together as the burning needs it.
pub fn erosion_thickness_computation(
    skeleton: &mut Skeleton,
    dist_max: u64,
    subdiv_max: usize,
) -> (r: Result<ErosionPath, EtError>)
    requires
        old(skeleton).wf(),
        old(skeleton).vertex_coords@.len() > 0,
    ensures
        final(skeleton).wf(),
        final(skeleton).vertex_coords == old(skeleton).vertex_coords,
        final(skeleton).vertex_radius == old(skeleton).vertex_radius,
        final(skeleton).edges == old(skeleton).edges,
        final(skeleton).face_vertices == old(skeleton).face_vertices,
        final(skeleton).face_edges == old(skeleton).face_edges,
        final(skeleton).vertex_to_edges == old(skeleton).vertex_to_edges,
        final(skeleton).edge_to_faces == old(skeleton).edge_to_faces,
        match r {
            Ok(path) => exists|built: Seq<Vertex>, verts: Seq<Vertex>| #[trigger]
                computed(*old(skeleton), *final(skeleton), path, built, verts, dist_max, subdiv_max),
            Err(e) => e == EtError::InternalInvariant && final(skeleton).vertex_properties
                == old(skeleton).vertex_properties && final(skeleton).vertex_property_types
                == old(skeleton).vertex_property_types && exists|built: Seq<Vertex>| #[trigger]
                is_burn_graph(&*old(skeleton), built, dist_max, subdiv_max) && !all_ready(built),
        },
{
    let ghost before = *skeleton;
    let mut et_graph = ETGraph::new(skeleton, dist_max, subdiv_max);
    let ghost built = et_graph.vert@;
    if !et_graph.check_neighbors() {
        return Err(EtError::InternalInvariant);
    }
    et_graph.burn();
    let ghost verts = et_graph.vert@;
    proof {
        assert(et_graph.vert.len() == verts.len());
        assert forall|i: int| 0 <= i < verts.len()
            implies (#[trigger] verts[i]).prime_in_range() by {
            assert(settled(verts, i));
        }
        assert forall|i: int|
            0 <= i < verts.len() && (#[trigger] verts[i]).time is Time implies verts[i].time->0
            <= time_limit(verts.len()) by {
            assert(settled(verts, i));
        }
    }
    let erosion_path: ErosionPath = et_graph.shown_path();
    let n_skel: usize = et_graph.skel.get_vertices().len();
    let et_values: Vec<i128> = et_graph.thickness_values(n_skel);
    enter_thickness(skeleton, &et_values);
    proof {
        lemma_computed(
            before,
            *skeleton,
            erosion_path,
            built,
            verts,
            et_values@,
            dist_max,
            subdiv_max,
        );
    }
    let ghost path = erosion_path;
    let r: Result<ErosionPath, EtError> = Ok(erosion_path);
    assert(r->Ok_0 == path);
    assert(computed(*old(skeleton), *skeleton, r->Ok_0, built, verts, dist_max, subdiv_max));
    r
}

/// Puts together what the steps of the computation have shown.
pub proof fn lemma_computed(
    before: Skeleton,
    after: Skeleton,
    path: ErosionPath,
    built: Seq<Vertex>,
    verts: Seq<Vertex>,
    values: Seq<i128>,
    dist_max: u64,
    subdiv_max: usize,
)
    requires
        is_burn_graph(&before, built, dist_max, subdiv_max),
        all_ready(built),
        burned_out(built, verts),
        exists|plain: ErosionPath| #[trigger] path_shown(verts, plain, path),
        values.len() == before.vertex_properties@.len(),
        values.len() <= verts.len(),
        exists|top: int| #[trigger]
            is_top_thickness(verts, values.len() as int, top) && forall|i: int|
                0 <= i < values.len() ==> #[trigger] values[i] == shown_thickness(verts[i], top),
        exists|mid: Seq<NameMap<Property>>| #[trigger]
            values_entered(values, before.vertex_properties@, mid) && painted(
                mid,
                after.vertex_properties@,
                "erosion_thickness"@,
            ),
        after.vertex_property_types.has("erosion_thickness"@),
        after.vertex_property_types.value("erosion_thickness"@) == PropertyType::Scalar,
    ensures
        computed(before, after, path, built, verts, dist_max, subdiv_max),
{
    let mid = choose|mid: Seq<NameMap<Property>>| #[trigger]
        values_entered(values, before.vertex_properties@, mid) && painted(
            mid,
            after.vertex_properties@,
            "erosion_thickness"@,
        );
    let top = choose|top: int| #[trigger]
        is_top_thickness(verts, values.len() as int, top) && forall|i: int|
            0 <= i < values.len() ==> #[trigger] values[i] == shown_thickness(verts[i], top);
    let bp = before.vertex_properties@;
    assert(is_top_thickness(verts, bp.len() as int, top) && forall|i: int|
        0 <= i < bp.len() ==> {
            &&& (#[trigger] mid[i]).has("erosion_thickness"@)
            &&& mid[i].value("erosion_thickness"@) == Property::Scalar(
                shown_thickness(verts[i], top) as i128,
            )
            &&& forall|key: Seq<char>|
                key != "erosion_thickness"@ ==> mid[i].has(key) == bp[i].has(key) && (bp[i].has(key)
                    ==> mid[i].value(key) == bp[i].value(key))
        }) by {
        assert forall|i: int| 0 <= i < bp.len() implies {
            &&& (#[trigger] mid[i]).has("erosion_thickness"@)
            &&& mid[i].value("erosion_thickness"@) == Property::Scalar(
                shown_thickness(verts[i], top) as i128,
            )
            &&& forall|key: Seq<char>|
                key != "erosion_thickness"@ ==> mid[i].has(key) == bp[i].has(key) && (bp[i].has(key)
                    ==> mid[i].value(key) == bp[i].value(key))
        } by {
            assert(values[i] == shown_thickness(verts[i], top));
        }
    }
    assert(thickness_entered(verts, bp, mid));
}


/// After the burning a node with a known radius, all of whose sectors were
/// exposed before, has its radius for its time; and every time of a node is at
/// least the radius of some node with a known radius.
pub proof fn lemma_seed_times(before: Seq<Vertex>, after: Seq<Vertex>, i: int)
    requires
        burned_out(before, after),
        0 <= i < after.len(),
    ensures
        before[i].is_seed() && all_exposed(before[i]) ==> after[i].time == BurnTime::Time(
            after[i].rad as u128,
        ),
        after[i].time is Time ==> above_seed(after, after[i].time->0),
{
    assert(settled(after, i));
    assert(same_structure(before[i], after[i]));
}

/// After the burning the time of a node that the fire reached from a
/// neighbour is the time of that neighbour and the distance between the two.
pub proof fn lemma_arc_times(before: Seq<Vertex>, after: Seq<Vertex>, i: int)
    requires
        burned_out(before, after),
        0 <= i < after.len(),
        after[i].predecessor() is Some,
    ensures
        after[i].predecessor()->0 < after.len(),
        after[i].time is Time,
        after[after[i].predecessor()->0 as int].time is Time,
        after[i].time->0 == after[after[i].predecessor()->0 as int].time->0 + distance(
            after[after[i].predecessor()->0 as int].pos,
            after[i].pos,
        ),
{
    assert(settled(after, i));
    let w = after[i].predecessor()->0 as int;
    assert(settled(after, w));
}

/// `walk` follows the fire back: each of its nodes was reached from the
/// next.
pub open spec fn is_way_back(verts: Seq<Vertex>, walk: Seq<usize>) -> bool {
    &&& walk.len() >= 1
    &&& forall|t: int| 0 <= t < walk.len() ==> (#[trigger] walk[t]) < verts.len()
    &&& forall|t: int|
        0 <= t < walk.len() - 1 ==> verts[(#[trigger] walk[t]) as int].predecessor() == Some(
            walk[t + 1],
        )
}

/// The place of a burned node in the order of burning.
pub open spec fn rank(order: Seq<usize>, i: usize) -> int {
    choose|k: int| 0 <= k < order.len() && order[k] == i
}

/// After the burning the arcs from each node to the node from which the
/// fire reached it form a forest whose roots have a known radius: a way back
/// never comes to a node twice, and a node with a time that the fire reached
/// from nowhere has a known radius.
pub proof fn lemma_forest(before: Seq<Vertex>, after: Seq<Vertex>, walk: Seq<usize>)
    requires
        burned_out(before, after),
        is_way_back(after, walk),
    ensures
        walk.no_duplicates(),
        after[walk.last() as int].time is Time && after[walk.last() as int].predecessor() is None
            ==> after[walk.last() as int].is_seed(),
{
    let order = choose|order: Seq<usize>| #[trigger] burn_order(after, order);
    assert(settled(after, walk.last() as int));
    if walk.len() >= 2 {
        lemma_way_back_ranks(after, order, walk, walk.len() - 1);
        assert forall|x: int, y: int| 0 <= x < walk.len() && 0 <= y < walk.len()
            && x != y implies walk[x]
            != walk[y] by {
            if x < y {
                lemma_way_back_ranks(after, order, walk, y);
                lemma_way_back_ranks(after, order, walk, x);
                lemma_rank_falls(after, order, walk, x, y);
            } else {
                lemma_way_back_ranks(after, order, walk, x);
                lemma_way_back_ranks(after, order, walk, y);
                lemma_rank_falls(after, order, walk, y, x);
            }
        }
    }
}

/// Every node on a way back of two nodes or more is burned.
pub proof fn lemma_way_back_ranks(verts: Seq<Vertex>, order: Seq<usize>, walk: Seq<usize>, t: int)
    requires
        burn_order(verts, order),
        forall|i: int| 0 <= i < verts.len() ==> #[trigger] settled(verts, i),
        is_way_back(verts, walk),
        walk.len() >= 2,
        0 <= t < walk.len(),
    ensures
        verts[walk[t] as int].burned,
        order.contains(walk[t]),
        0 <= rank(order, walk[t]) < order.len(),
        order[rank(order, walk[t])] == walk[t],
{
    if t < walk.len() - 1 {
        assert(settled(verts, walk[t] as int));
        assert(verts[walk[t] as int].predecessor() == Some(walk[t + 1]));
    } else {
        assert(settled(verts, walk[t - 1] as int));
        assert(verts[walk[t - 1] as int].predecessor() == Some(walk[t]));
    }
    assert(order.contains(walk[t] as int as usize));
}

/// Along a way back the place in the order of burning falls.
pub proof fn lemma_rank_falls(
    verts: Seq<Vertex>,
    order: Seq<usize>,
    walk: Seq<usize>,
    x: int,
    y: int,
)
    requires
        burn_order(verts, order),
        forall|i: int| 0 <= i < verts.len() ==> #[trigger] settled(verts, i),
        is_way_back(verts, walk),
        walk.len() >= 2,
        0 <= x < y < walk.len(),
    ensures
        rank(order, walk[y]) < rank(order, walk[x]),
    decreases y - x,
{
    lemma_way_back_ranks(verts, order, walk, x);
    lemma_way_back_ranks(verts, order, walk, x + 1);
    let k = rank(order, walk[x]);
    assert(verts[order[k] as int].predecessor() == Some(walk[x + 1]));
    assert(listed_before(order, k, walk[x + 1] as int));
    let k2 = choose|k2: int| 0 <= k2 < k && k2 < order.len() && #[trigger] order[k2] == walk[x + 1];
    let r = rank(order, walk[x + 1]);
    if r != k2 {
        assert(order[r] != order[k2]);
    }
    if x + 1 < y {
        lemma_rank_falls(verts, order, walk, x + 1, y);
    }
}

/// After the burning no erosion thickness is below zero.
pub proof fn lemma_thickness_not_negative(before: Seq<Vertex>, after: Seq<Vertex>, i: int)
    requires
        burned_out(before, after),
        0 <= i < after.len(),
    ensures
        thickness(after[i]) is Some ==> thickness(after[i])->0 >= 0,
{
    assert(settled(after, i));
}

} // verus!
