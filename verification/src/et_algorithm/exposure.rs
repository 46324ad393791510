//! How exposure spreads among the sectors of a node: a sector that becomes
//! exposed stops shielding the others, which may expose some of them in turn.

use vstd::prelude::*;
use super::sector::Sector;

verus! {

/// Whether the sector becomes exposed once the sectors in `e` stop
/// shielding: it is not exposed, and all that shields one of its ends is in
/// `e`.
pub open spec fn opens(s: Sector, e: Set<usize>) -> bool {
    !s.exposed() && (s.shield_begin().subset_of(e) || s.shield_end().subset_of(e))
}

/// The set `e` holds the sectors `seeds` and every sector that becomes
/// exposed once the sectors in `e` stop shielding.
pub open spec fn closed_under(sectors: Seq<Sector>, seeds: Set<usize>, e: Set<usize>) -> bool {
    &&& seeds.subset_of(e)
    &&& forall|j: int|
        0 <= j < sectors.len() && opens(#[trigger] sectors[j], e) ==> e.contains(j as usize)
}

/// The sectors to which exposure spreads from the sectors `seeds`: the
/// least set that holds `seeds` and every sector that becomes exposed once the
/// sectors in the set stop shielding.
pub open spec fn spread(sectors: Seq<Sector>, seeds: Set<usize>) -> Set<usize> {
    Set::new(
        |x: usize| forall|e: Set<usize>| #[trigger] closed_under(sectors, seeds, e)
            ==> e.contains(x),
    )
}

/// `spread` is closed.
pub proof fn lemma_spread_closed(sectors: Seq<Sector>, seeds: Set<usize>)
    ensures
        closed_under(sectors, seeds, spread(sectors, seeds)),
{
    let l = spread(sectors, seeds);
    assert forall|x: usize| seeds.contains(x) implies l.contains(x) by {
        assert forall|e: Set<usize>| #[trigger] closed_under(sectors, seeds, e) implies e.contains(
            x,
        ) by {}
    }
    assert forall|j: int| 0 <= j < sectors.len() && opens(#[trigger] sectors[j], l)
        implies l.contains(
        j as usize,
    ) by {
        assert forall|e: Set<usize>| #[trigger] closed_under(sectors, seeds, e) implies e.contains(
            j as usize,
        ) by {
            assert forall|x: usize| l.contains(x) implies e.contains(x) by {}
            assert(opens(sectors[j], e));
        }
    }
}

/// `spread` lies in every closed set.
pub proof fn lemma_spread_least(sectors: Seq<Sector>, seeds: Set<usize>, e: Set<usize>)
    requires
        closed_under(sectors, seeds, e),
    ensures
        spread(sectors, seeds).subset_of(e),
{
}

/// The sectors `after` are the sectors `before` once the sectors in `l`
/// have stopped shielding: a sector is exposed if it was or if it is in `l`,
/// and a sector that is still not exposed is shielded by what shielded it
/// before, less `l`.
pub open spec fn exposed_by(before: Seq<Sector>, after: Seq<Sector>, l: Set<usize>) -> bool {
    &&& after.len() == before.len()
    &&& forall|j: int|
        0 <= j < before.len() ==> (#[trigger] after[j]).exposed() == (before[j].exposed()
            || l.contains(j as usize))
    &&& forall|j: int|
        0 <= j < before.len() && !(#[trigger] after[j]).exposed() ==> after[j].shield_begin()
            == before[j].shield_begin().difference(l) && after[j].shield_end()
            == before[j].shield_end().difference(l)
}

/// Exposure that spreads from `a`, and then from `b`, has spread from both.
pub proof fn lemma_spread_compose(
    s0: Seq<Sector>,
    s1: Seq<Sector>,
    a: Set<usize>,
    b: Set<usize>,
)
    requires
        exposed_by(s0, s1, spread(s0, a)),
    ensures
        spread(s0, a.union(b)) == spread(s0, a).union(spread(s1, b)),
{
    let e1 = spread(s0, a);
    let e2 = spread(s1, b);
    let both = spread(s0, a.union(b));
    let joined = e1.union(e2);
    lemma_spread_closed(s0, a);
    lemma_spread_closed(s1, b);
    lemma_spread_closed(s0, a.union(b));
    // the union is closed for both seeds on the first state
    assert(closed_under(s0, a.union(b), joined)) by {
        assert forall|j: int| 0 <= j < s0.len() && opens(#[trigger] s0[j], joined)
            implies joined.contains(
            j as usize,
        ) by {
            if !e1.contains(j as usize) {
                assert(!s1[j].exposed());
                if s0[j].shield_begin().subset_of(joined) {
                    assert forall|x: usize| s1[j].shield_begin().contains(x) implies e2.contains(
                        x,
                    ) by {
                        assert(s0[j].shield_begin().contains(x));
                    }
                } else {
                    assert forall|x: usize| s1[j].shield_end().contains(x) implies e2.contains(
                        x,
                    ) by {
                        assert(s0[j].shield_end().contains(x));
                    }
                }
                assert(opens(s1[j], e2));
            }
        }
    }
    lemma_spread_least(s0, a.union(b), joined);
    // what spreads from both seeds is closed for each seed on its state
    assert(closed_under(s0, a, both));
    lemma_spread_least(s0, a, both);
    assert(closed_under(s1, b, both)) by {
        assert forall|j: int| 0 <= j < s1.len() && opens(#[trigger] s1[j], both)
            implies both.contains(
            j as usize,
        ) by {
            assert(!s0[j].exposed());
            if s1[j].shield_begin().subset_of(both) {
                assert forall|x: usize| s0[j].shield_begin().contains(x) implies both.contains(
                    x,
                ) by {
                    if !e1.contains(x) {
                        assert(s1[j].shield_begin().contains(x));
                    }
                }
            } else {
                assert forall|x: usize| s0[j].shield_end().contains(x) implies both.contains(
                    x,
                ) by {
                    if !e1.contains(x) {
                        assert(s1[j].shield_end().contains(x));
                    }
                }
            }
            assert(opens(s0[j], both));
        }
    }
    lemma_spread_least(s1, b, both);
    assert(both =~= joined);
}

/// Two rounds of stopped shielding are one round with both sets.
pub proof fn lemma_exposed_by_chain(
    s0: Seq<Sector>,
    s1: Seq<Sector>,
    s2: Seq<Sector>,
    l1: Set<usize>,
    l2: Set<usize>,
)
    requires
        exposed_by(s0, s1, l1),
        exposed_by(s1, s2, l2),
    ensures
        exposed_by(s0, s2, l1.union(l2)),
{
    assert forall|j: int| 0 <= j < s0.len() && !(#[trigger] s2[j]).exposed()
        implies s2[j].shield_begin()
        == s0[j].shield_begin().difference(l1.union(l2)) && s2[j].shield_end()
        == s0[j].shield_end().difference(l1.union(l2)) by {
        assert(!s1[j].exposed());
        assert(s2[j].shield_begin() =~= s0[j].shield_begin().difference(l1.union(l2)));
        assert(s2[j].shield_end() =~= s0[j].shield_end().difference(l1.union(l2)));
    }
}

} // verus!
