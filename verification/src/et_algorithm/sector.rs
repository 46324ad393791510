//! One sector of a node: a connected piece of the link graph around it.

use vstd::prelude::*;
use std::collections::HashSet;
use super::burntime::BurnTime;
use crate::sequences::{first_position, is_first_position};

verus! {

broadcast use vstd::std_specs::hash::group_hash_axioms;

/// A sector of a node. Its `arc` lists positions in the node's neighbour
/// list, in the order in which the sector is walked. The two sets hold, for
/// the first and the last position of the arc, the sectors that still shield
/// that end from the fire.
#[derive(Clone)]
pub struct Sector {
    pub arc: Vec<usize>,
    pub burned: bool,
    pub prime_arc: Option<usize>,
    pub time: BurnTime,
    pub sec_neigh_unexposed: [HashSet<usize>; 2],
}

impl Sector {
    /// The sectors that shield the first end of the arc.
    pub open spec fn shield_begin(&self) -> Set<usize> {
        self.sec_neigh_unexposed[0]@
    }

    /// The sectors that shield the last end of the arc.
    pub open spec fn shield_end(&self) -> Set<usize> {
        self.sec_neigh_unexposed[1]@
    }

    /// A sector is exposed when nothing shields one of its ends.
    pub open spec fn exposed(&self) -> bool {
        self.shield_begin().is_empty() || self.shield_end().is_empty()
    }

    /// A fresh sector: not burned, reached by nothing, with no arrival time.
    pub fn new(arc: Vec<usize>, beg_sec: HashSet<usize>, end_sec: HashSet<usize>) -> (s: Sector)
        ensures
            s.arc == arc,
            !s.burned,
            s.prime_arc is None,
            s.time == BurnTime::Infinity,
            s.shield_begin() == beg_sec@,
            s.shield_end() == end_sec@,
    {
        Sector {
            arc,
            burned: false,
            prime_arc: None,
            time: BurnTime::Infinity,
            sec_neigh_unexposed: [beg_sec, end_sec],
        }
    }

    /// Whether nothing shields one of the two ends of the sector.
    pub fn is_exposed(&self) -> (b: bool)
        ensures
            b == self.exposed(),
    {
        self.sec_neigh_unexposed[0].is_empty() || self.sec_neigh_unexposed[1].is_empty()
    }

    /// Whether the sector is burned.
    pub fn is_burned(&self) -> (b: bool)
        ensures
            b == self.burned,
    {
        self.burned
    }

    /// When the fire reached the sector.
    pub fn time(&self) -> (t: &BurnTime)
        ensures
            *t == self.time,
    {
        &self.time
    }

    /// The places of the neighbours through which the sector runs.
    pub fn arc(&self) -> (a: &Vec<usize>)
        ensures
            *a == self.arc,
    {
        &self.arc
    }

    /// Sets the place in the arc from which the fire reached the sector.
    pub fn set_prime_arc(&mut self, prime_arc: usize)
        ensures
            final(self).prime_arc == Some(prime_arc),
            final(self).arc == old(self).arc,
            final(self).burned == old(self).burned,
            final(self).time == old(self).time,
            final(self).sec_neigh_unexposed == old(self).sec_neigh_unexposed,
    {
        self.prime_arc = Some(prime_arc)
    }

    /// The place in the arc from which the fire reached the sector.
    pub fn prime_arc(&self) -> (p: &Option<usize>)
        ensures
            *p == self.prime_arc,
    {
        &self.prime_arc
    }

    /// First place in the arc that holds `num_neigh`.
    pub fn get_arc(&self, num_neigh: usize) -> (pos: Option<usize>)
        ensures
            is_first_position(self.arc@, num_neigh, pos),
    {
        first_position(&self.arc, num_neigh)
    }

    /// Sets the time at which the fire reached the sector.
    pub fn set_time(&mut self, time: u128)
        ensures
            final(self).time == BurnTime::Time(time),
            final(self).arc == old(self).arc,
            final(self).burned == old(self).burned,
            final(self).prime_arc == old(self).prime_arc,
            final(self).sec_neigh_unexposed == old(self).sec_neigh_unexposed,
    {
        self.time = BurnTime::Time(time)
    }

    /// The sectors that shield the first and the last end of the arc.
    pub fn get_sec_unexposed(&self) -> (u: &[HashSet<usize>; 2])
        ensures
            *u == self.sec_neigh_unexposed,
    {
        &self.sec_neigh_unexposed
    }

    /// Burns the sector: from now on nothing shields it.
    pub fn burn(&mut self)
        ensures
            final(self).burned,
            final(self).shield_begin() == Set::<usize>::empty(),
            final(self).shield_end() == Set::<usize>::empty(),
            final(self).exposed(),
            final(self).arc == old(self).arc,
            final(self).prime_arc == old(self).prime_arc,
            final(self).time == old(self).time,
    {
        self.burned = true;
        self.sec_neigh_unexposed[0].clear();
        self.sec_neigh_unexposed[1].clear();
    }

    /// Sector `ind_exp` no longer shields either end.
    pub fn expose_neigh(&mut self, ind_exp: usize)
        ensures
            final(self).shield_begin() == old(self).shield_begin().remove(ind_exp),
            final(self).shield_end() == old(self).shield_end().remove(ind_exp),
            final(self).arc == old(self).arc,
            final(self).burned == old(self).burned,
            final(self).prime_arc == old(self).prime_arc,
            final(self).time == old(self).time,
    {
        self.sec_neigh_unexposed[0].remove(&ind_exp);
        self.sec_neigh_unexposed[1].remove(&ind_exp);
    }
}

} // verus!
