//! Arrival time of the fire.

use vstd::prelude::*;

verus! {

/// When the fire reaches a place: at a known time, or never so far.
#[derive(Clone, Copy, Debug, PartialEq, Eq, Structural)]
pub enum BurnTime {
    Infinity,
    Time(u128),
}

impl BurnTime {
    /// Whether `self` is no later than `b2`; `Infinity` is later than every
    /// time and no later than itself.
    pub open spec fn le(self, b2: BurnTime) -> bool {
        match (self, b2) {
            (BurnTime::Infinity, BurnTime::Infinity) => true,
            (BurnTime::Infinity, BurnTime::Time(_)) => false,
            (BurnTime::Time(_), BurnTime::Infinity) => true,
            (BurnTime::Time(t1), BurnTime::Time(t2)) => t1 <= t2,
        }
    }

    /// Whether `self` is no later than `b2`.
    pub fn inf_eq(&self, b2: &BurnTime) -> (r: bool)
        ensures
            r == self.le(*b2),
    {
        match (self, b2) {
            (BurnTime::Infinity, BurnTime::Infinity) => true,
            (BurnTime::Infinity, BurnTime::Time(_)) => false,
            (BurnTime::Time(_), BurnTime::Infinity) => true,
            (BurnTime::Time(f1), BurnTime::Time(f2)) => *f1 <= *f2,
        }
    }
}

/// `le` orders the burn times: any two compare, and it is transitive.
pub proof fn lemma_burntime_order(a: BurnTime, b: BurnTime, c: BurnTime)
    ensures
        a.le(a),
        a.le(b) || b.le(a),
        a.le(b) && b.le(c) ==> a.le(c),
        a.le(b) && b.le(a) ==> a == b,
{
}

} // verus!
