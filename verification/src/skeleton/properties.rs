//! Named properties of vertices and edges, and the colour ramp that shows a
//! scalar property.

use vstd::prelude::*;
use crate::error::EtError;

verus! {

/// The kind of a property.
#[derive(Clone, Copy, Debug, PartialEq, Eq, Structural)]
pub enum PropertyType {
    /// A length or a time, in the unit of the skeleton.
    Scalar,
    /// The index of a vertex.
    Index,
    /// One channel of a colour.
    UChar,
}

/// The value of a property.
#[derive(Clone, Copy, Debug, PartialEq, Eq, Structural)]
pub enum Property {
    Scalar(i128),
    Index(usize),
    UChar(u8),
}

/// No scalar that is shown as a colour may reach this limit, on either side
/// of zero.
pub const SCALAR_LIMIT: i128 = 0x1000_0000_0000_0000_0000_0000_0000;

/// Values by name. No name is held twice.
pub struct NameMap<V> {
    pub names: Vec<String>,
    pub values: Vec<V>,
}

impl<V> NameMap<V> {
    /// Every name has its value, and no two names are the same.
    pub open spec fn wf(&self) -> bool {
        &&& self.names@.len() == self.values@.len()
        &&& forall|i: int, j: int|
            0 <= i < j < self.names@.len() ==> (#[trigger] self.names@[i])@ != (
            #[trigger] self.names@[j])@
    }

    /// Whether the name `key` is held at place `i`.
    pub open spec fn at(&self, key: Seq<char>, i: int) -> bool {
        0 <= i < self.names@.len() && self.names@[i]@ == key
    }

    /// Whether the name `key` is held.
    pub open spec fn has(&self, key: Seq<char>) -> bool {
        exists|i: int| #[trigger] self.at(key, i)
    }

    /// The value held for the name `key`.
    pub open spec fn value(&self, key: Seq<char>) -> V {
        self.values@[choose|i: int| #[trigger] self.at(key, i)]
    }

    /// A name that is held at a place has the value at that place.
    pub proof fn lemma_value_at(&self, key: Seq<char>, i: int)
        requires
            self.wf(),
            self.at(key, i),
        ensures
            self.has(key),
            self.value(key) == self.values@[i],
    {
        let j = choose|j: int| #[trigger] self.at(key, j);
        if i < j {
            assert(self.names@[i]@ != self.names@[j]@);
        }
        if j < i {
            assert(self.names@[j]@ != self.names@[i]@);
        }
    }

    /// The map without names.
    pub fn new() -> (m: NameMap<V>)
        ensures
            m.wf(),
            m.names@.len() == 0,
            forall|key: Seq<char>| !m.has(key),
    {
        let m = NameMap { names: Vec::new(), values: Vec::new() };
        assert forall|key: Seq<char>| !m.has(key) by {
            if m.has(key) {
                let i = choose|i: int| #[trigger] m.at(key, i);
            }
        }
        m
    }

    /// The place at which `name` is held.
    pub fn find(&self, name: &str) -> (r: Option<usize>)
        requires
            self.wf(),
        ensures
            match r {
                Some(i) => self.at(name@, i as int),
                None => !self.has(name@),
            },
    {
        let key: String = name.to_owned();
        let mut i: usize = 0;
        while i < self.names.len()
            invariant
                i <= self.names@.len(),
                key@ == name@,
                forall|j: int| 0 <= j < i ==> !#[trigger] self.at(name@, j),
            decreases self.names@.len() - i,
        {
            if self.names[i] == key {
                return Some(i);
            }
            i = i + 1;
        }
        proof {
            if self.has(name@) {
                let j = choose|j: int| #[trigger] self.at(name@, j);
                assert(!self.at(name@, j));
            }
        }
        None
    }

    /// Whether `name` is held.
    pub fn contains_key(&self, name: &str) -> (b: bool)
        requires
            self.wf(),
        ensures
            b == self.has(name@),
    {
        self.find(name).is_some()
    }

    /// The value held for `name`.
    pub fn get(&self, name: &str) -> (r: Option<&V>)
        requires
            self.wf(),
        ensures
            match r {
                Some(v) => self.has(name@) && *v == self.value(name@),
                None => !self.has(name@),
            },
    {
        match self.find(name) {
            Some(i) => {
                proof {
                    self.lemma_value_at(name@, i as int);
                }
                Some(&self.values[i])
            },
            None => None,
        }
    }

    /// Holds `value` for `name` from now on, in place of what was held for
    /// it before.
    pub fn insert(&mut self, name: &str, value: V)
        requires
            old(self).wf(),
        ensures
            final(self).wf(),
            final(self).has(name@),
            final(self).value(name@) == value,
            forall|key: Seq<char>| key != name@ ==> (final(self).has(key) == old(self).has(key)),
            forall|key: Seq<char>|
                key != name@ && old(self).has(key) ==> final(self).value(key) == old(self).value(
                    key,
                ),
    {
        match self.find(name) {
            Some(i) => {
                self.values[i] = value;
                proof {
                    assert(self.at(name@, i as int));
                    self.lemma_value_at(name@, i as int);
                    assert forall|key: Seq<char>| key != name@ implies (self.has(key)
                        == old(self).has(key)) by {
                        if self.has(key) {
                            let j = choose|j: int| #[trigger] self.at(key, j);
                            assert(old(self).at(key, j));
                        }
                        if old(self).has(key) {
                            let j = choose|j: int| #[trigger] old(self).at(key, j);
                            assert(self.at(key, j));
                        }
                    }
                    assert forall|key: Seq<char>| key != name@ && old(self).has(key)
                        implies self.value(
                        key,
                    ) == old(self).value(key) by {
                        let j = choose|j: int| #[trigger] old(self).at(key, j);
                        assert(self.at(key, j));
                        self.lemma_value_at(key, j);
                        old(self).lemma_value_at(key, j);
                    }
                }
            },
            None => {
                let key: String = name.to_owned();
                self.names.push(key);
                self.values.push(value);
                proof {
                    let n = old(self).names@.len() as int;
                    assert forall|i: int, j: int| 0 <= i < j < self.names@.len() implies (
                    #[trigger] self.names@[i])@ != (#[trigger] self.names@[j])@ by {
                        if j == n {
                            assert(!old(self).at(name@, i));
                        } else {
                            assert(old(self).names@[i]@ != old(self).names@[j]@);
                        }
                    }
                    assert(self.at(name@, n));
                    self.lemma_value_at(name@, n);
                    assert forall|key: Seq<char>| key != name@ implies (self.has(key)
                        == old(self).has(key)) by {
                        if self.has(key) {
                            let j = choose|j: int| #[trigger] self.at(key, j);
                            assert(old(self).at(key, j));
                        }
                        if old(self).has(key) {
                            let j = choose|j: int| #[trigger] old(self).at(key, j);
                            assert(self.at(key, j));
                        }
                    }
                    assert forall|key: Seq<char>| key != name@ && old(self).has(key)
                        implies self.value(
                        key,
                    ) == old(self).value(key) by {
                        let j = choose|j: int| #[trigger] old(self).at(key, j);
                        assert(self.at(key, j));
                        self.lemma_value_at(key, j);
                        old(self).lemma_value_at(key, j);
                    }
                }
            },
        }
    }
}

/// One channel of the colour ramp: 255 times `num` out of `den`, rounded to
/// the nearest whole number, and 0 where `den` is 0.
pub open spec fn ramp(num: int, den: int) -> int {
    if den <= 0 {
        0
    } else {
        (510 * num + den) / (2 * den)
    }
}

/// The ramp stays within a colour channel.
pub proof fn lemma_ramp_range(num: int, den: int)
    requires
        0 <= num <= den,
    ensures
        0 <= ramp(num, den) <= 255,
        den > 0 ==> ramp(0, den) == 0,
        den > 0 ==> ramp(den, den) == 255,
{
    if den > 0 {
        assert(0 <= 510 * num + den <= 511 * den) by (nonlinear_arith)
            requires
                0 <= num <= den,
        ;
        assert((510 * num + den) / (2 * den) <= 255 && (510 * num + den) / (2 * den) >= 0)
            by (nonlinear_arith)
            requires
                0 <= 510 * num + den <= 511 * den,
                den > 0,
        ;
        assert((510 * 0 + den) / (2 * den) == 0) by (nonlinear_arith)
            requires
                den > 0,
        ;
        assert((510 * den + den) / (2 * den) == 255) by (nonlinear_arith)
            requires
                den > 0,
        ;
    }
}

/// Computes `ramp`.
pub fn color_channel(num: u128, den: u128) -> (c: u8)
    requires
        num <= den,
        den <= 2 * SCALAR_LIMIT,
    ensures
        c == ramp(num as int, den as int),
{
    proof {
        lemma_ramp_range(num as int, den as int);
    }
    if den == 0 {
        0
    } else {
        ((510 * num + den) / (2 * den)) as u8
    }
}

/// The scalar that vertex `i` holds for the name `key`.
pub open spec fn scalar_at(props: Seq<NameMap<Property>>, key: Seq<char>, i: int) -> int {
    props[i].value(key)->Scalar_0 as int
}

/// Every vertex holds a scalar for the name `key`, within the limit.
pub open spec fn column_ready(props: Seq<NameMap<Property>>, key: Seq<char>) -> bool {
    forall|i: int|
        0 <= i < props.len() ==> (#[trigger] props[i]).wf() && props[i].has(key) && props[i].value(
            key,
        ) is Scalar && -SCALAR_LIMIT < scalar_at(props, key, i) < SCALAR_LIMIT
}

/// `m` is the least scalar that the first `n` vertices hold for `key`.
pub open spec fn is_column_min(props: Seq<NameMap<Property>>, key: Seq<char>, n: int, m: int) -> bool {
    &&& exists|i: int| 0 <= i < n && #[trigger] scalar_at(props, key, i) == m
    &&& forall|i: int| 0 <= i < n ==> m <= #[trigger] scalar_at(props, key, i)
}

/// `m` is the greatest scalar that the first `n` vertices hold for `key`.
pub open spec fn is_column_max(props: Seq<NameMap<Property>>, key: Seq<char>, n: int, m: int) -> bool {
    &&& exists|i: int| 0 <= i < n && #[trigger] scalar_at(props, key, i) == m
    &&& forall|i: int| 0 <= i < n ==> m >= #[trigger] scalar_at(props, key, i)
}

/// Vertex `after` is vertex `before` with the colour that shows the scalar
/// `p` between `lo` and `hi`: red grows and blue falls from `lo` to `hi`, and
/// there is no green. All other properties stay.
pub open spec fn colored(
    before: NameMap<Property>,
    after: NameMap<Property>,
    p: int,
    lo: int,
    hi: int,
) -> bool {
    &&& after.wf()
    &&& after.has("red"@) && after.value("red"@) == Property::UChar(ramp(p - lo, hi - lo) as u8)
    &&& after.has("green"@) && after.value("green"@) == Property::UChar(0)
    &&& after.has("blue"@) && after.value("blue"@) == Property::UChar(ramp(hi - p, hi - lo) as u8)
    &&& forall|key: Seq<char>|
        key != "red"@ && key != "green"@ && key != "blue"@ ==> after.has(key) == before.has(key)
            && (before.has(key) ==> after.value(key) == before.value(key))
}

/// The three colour names differ.
pub proof fn lemma_color_names()
    ensures
        "red"@ != "green"@,
        "red"@ != "blue"@,
        "green"@ != "blue"@,
{
    reveal_strlit("red");
    reveal_strlit("green");
    reveal_strlit("blue");
    assert("red"@.len() == 3);
    assert("green"@.len() == 5);
    assert("blue"@.len() == 4);
}

/// Gives every vertex the colour that shows its scalar property `prop_name`
/// between the least and the greatest value of that property: from blue for
/// the least to red for the greatest. Where all values are the same, every
/// vertex gets black. The three channels are entered in `types` as colour
/// channels.
///
/// Fails with `InputMissing` where `types` does not know the name, and with
/// `InputMalformed` where it knows it as something other than a scalar.
pub fn color_vertices(
    types: &mut NameMap<PropertyType>,
    props: &mut Vec<NameMap<Property>>,
    prop_name: &str,
) -> (r: Result<(), EtError>)
    requires
        old(types).wf(),
        old(types).has(prop_name@) && old(types).value(prop_name@) == PropertyType::Scalar
            ==> old(props)@.len() > 0 && column_ready(old(props)@, prop_name@),
    ensures
        final(types).wf(),
        final(props)@.len() == old(props)@.len(),
        match r {
            Ok(_) => {
                &&& old(types).has(prop_name@) && old(types).value(prop_name@)
                    == PropertyType::Scalar
                &&& final(types).has("red"@) && final(types).value("red"@) == PropertyType::UChar
                &&& final(types).has("green"@) && final(types).value("green"@)
                    == PropertyType::UChar
                &&& final(types).has("blue"@) && final(types).value("blue"@) == PropertyType::UChar
                &&& forall|key: Seq<char>|
                    key != "red"@ && key != "green"@ && key != "blue"@ ==> final(types).has(key)
                        == old(types).has(key) && (old(types).has(key) ==> final(types).value(key)
                        == old(types).value(key))
                &&& exists|lo: int, hi: int|
                    is_column_min(old(props)@, prop_name@, old(props)@.len() as int, lo)
                        && is_column_max(old(props)@, prop_name@, old(props)@.len() as int, hi)
                        && forall|i: int|
                        0 <= i < old(props)@.len() ==> colored(
                            old(props)@[i],
                            #[trigger] final(props)@[i],
                            scalar_at(old(props)@, prop_name@, i),
                            lo,
                            hi,
                        )
            },
            Err(e) => {
                &&& *final(types) == *old(types)
                &&& *final(props) == *old(props)
                &&& e == if old(types).has(prop_name@) {
                    EtError::InputMalformed
                } else {
                    EtError::InputMissing
                }
                &&& !(old(types).has(prop_name@) && old(types).value(prop_name@)
                    == PropertyType::Scalar)
            },
        },
{
    match types.get(prop_name) {
        None => {
            return Err(EtError::InputMissing);
        },
        Some(t) => {
            match t {
                PropertyType::Scalar => {},
                _ => {
                    return Err(EtError::InputMalformed);
                },
            }
        },
    }
    let n: usize = props.len();
    let ghost start = props@;
    let first: i128 = match props[0].get(prop_name) {
        Some(Property::Scalar(x)) => *x,
        _ => {
            assert(false);
            0
        },
    };
    let mut min_p: i128 = first;
    let mut max_p: i128 = first;
    let mut i: usize = 1;
    while i < n
        invariant
            1 <= i <= n,
            n == props@.len(),
            props@ == start,
            column_ready(start, prop_name@),
            is_column_min(start, prop_name@, i as int, min_p as int),
            is_column_max(start, prop_name@, i as int, max_p as int),
        decreases n - i,
    {
        let v_cur: i128 = match props[i].get(prop_name) {
            Some(Property::Scalar(x)) => *x,
            _ => {
                assert(false);
                0
            },
        };
        proof {
            assert(scalar_at(start, prop_name@, i as int) == v_cur);
            let wmin = choose|w: int| 0 <= w < i && #[trigger] scalar_at(start, prop_name@, w)
                == min_p;
            let wmax = choose|w: int| 0 <= w < i && #[trigger] scalar_at(start, prop_name@, w)
                == max_p;
        }
        if !(min_p < v_cur) {
            min_p = v_cur;
        }
        if !(max_p > v_cur) {
            max_p = v_cur;
        }
        i = i + 1;
    }
    proof {
        lemma_color_names();
    }
    types.insert("red", PropertyType::UChar);
    types.insert("green", PropertyType::UChar);
    types.insert("blue", PropertyType::UChar);
    let ghost lo = min_p as int;
    let ghost hi = max_p as int;
    let spread: u128 = (max_p - min_p) as u128;
    let mut i: usize = 0;
    while i < n
        invariant
            i <= n,
            n == props@.len(),
            n == start.len(),
            lo == min_p,
            hi == max_p,
            spread == hi - lo,
            column_ready(start, prop_name@),
            is_column_min(start, prop_name@, n as int, lo),
            is_column_max(start, prop_name@, n as int, hi),
            forall|i2: int| i <= i2 < n ==> props@[i2] == start[i2],
            forall|i2: int|
                0 <= i2 < i ==> colored(
                    start[i2],
                    #[trigger] props@[i2],
                    scalar_at(start, prop_name@, i2),
                    lo,
                    hi,
                ),
        decreases n - i,
    {
        assert(props@[i as int] == start[i as int]);
        assert(start[i as int].wf() && start[i as int].has(prop_name@));
        let p_cur: i128 = match props[i].get(prop_name) {
            Some(Property::Scalar(x)) => *x,
            _ => {
                assert(false);
                0
            },
        };
        proof {
            assert(scalar_at(start, prop_name@, i as int) == p_cur);
            lemma_ramp_range(p_cur - lo, hi - lo);
            lemma_ramp_range(hi - p_cur, hi - lo);
            lemma_color_names();
        }
        let r: u8 = color_channel((p_cur - min_p) as u128, spread);
        let g: u8 = 0;
        let b: u8 = color_channel((max_p - p_cur) as u128, spread);
        let ghost before = props@;
        props[i].insert("red", Property::UChar(r));
        props[i].insert("green", Property::UChar(g));
        props[i].insert("blue", Property::UChar(b));
        proof {
            assert forall|i2: int| 0 <= i2 < i + 1 implies colored(
                start[i2],
                #[trigger] props@[i2],
                scalar_at(start, prop_name@, i2),
                lo,
                hi,
            ) by {
                if i2 < i {
                    assert(props@[i2] == before[i2]);
                }
            }
        }
        i = i + 1;
    }
    Ok(())
}

} // verus!
