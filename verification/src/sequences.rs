//! Small facts and routines on sequences of indices that the rest of the
//! library shares.

use vstd::prelude::*;

verus! {

/// `pos` is the first place of `x` in `s`, or `None` where `x` does not occur.
pub open spec fn is_first_position(s: Seq<usize>, x: usize, pos: Option<usize>) -> bool {
    match pos {
        Some(i) => i < s.len() && s[i as int] == x && forall|j: int| 0 <= j < i ==> s[j] != x,
        None => !s.contains(x),
    }
}

/// First place of `x` in `v`.
pub fn first_position(v: &Vec<usize>, x: usize) -> (pos: Option<usize>)
    ensures
        is_first_position(v@, x, pos),
{
    let mut i: usize = 0;
    while i < v.len()
        invariant
            i <= v@.len(),
            forall|j: int| 0 <= j < i ==> v@[j] != x,
        decreases v@.len() - i,
    {
        if v[i] == x {
            return Some(i);
        }
        i = i + 1;
    }
    None
}

/// Each entry is smaller than the next.
pub open spec fn strictly_increasing(s: Seq<usize>) -> bool {
    forall|i: int, j: int| 0 <= i < j < s.len() ==> s[i] < s[j]
}

/// Puts `x` into a strictly increasing vector, at its place, unless it is
/// there already.
pub fn insert_sorted(v: &mut Vec<usize>, x: usize)
    requires
        strictly_increasing(old(v)@),
    ensures
        strictly_increasing(final(v)@),
        forall|y: usize| final(v)@.contains(y) <==> (old(v)@.contains(y) || y == x),
        final(v)@.len() == old(v)@.len() + (if old(v)@.contains(x) { 0int } else { 1int }),
{
    let mut p: usize = 0;
    while p < v.len() && v[p] < x
        invariant
            p <= v@.len(),
            v@ == old(v)@,
            forall|j: int| 0 <= j < p ==> v@[j] < x,
        decreases v@.len() - p,
    {
        p = p + 1;
    }
    if p < v.len() && v[p] == x {
        assert(v@.contains(x));
        return ;
    }
    proof {
        assert(!v@.contains(x)) by {
            if v@.contains(x) {
                let k = choose|k: int| 0 <= k < v@.len() && v@[k] == x;
                if k > p {
                    assert(v@[p as int] < v@[k]);
                }
            }
        }
    }
    let ghost before = v@;
    v.insert(p, x);
    proof {
        let after = v@;
        assert(after == before.insert(p as int, x));
        assert forall|i: int, j: int| 0 <= i < j < after.len() implies after[i] < after[j] by {
            if j < p {
                assert(after[i] == before[i] && after[j] == before[j]);
            } else if j == p {
                assert(after[i] == before[i]);
            } else if i < p {
                assert(after[i] == before[i] && after[j] == before[j - 1]);
            } else if i == p {
                assert(after[j] == before[j - 1]);
                assert(p <= j - 1);
                if p < j - 1 {
                    assert(before[p as int] < before[j - 1]);
                }
            } else {
                assert(after[i] == before[i - 1] && after[j] == before[j - 1]);
            }
        }
        assert forall|y: usize| after.contains(y) <==> (before.contains(y) || y == x) by {
            if after.contains(y) {
                let k = choose|k: int| 0 <= k < after.len() && after[k] == y;
                if k < p {
                    assert(before[k] == y);
                } else if k > p {
                    assert(before[k - 1] == y);
                }
            }
            if before.contains(y) {
                let k = choose|k: int| 0 <= k < before.len() && before[k] == y;
                if k < p {
                    assert(after[k] == y);
                } else {
                    assert(after[k + 1] == y);
                }
            }
            if y == x {
                assert(after[p as int] == x);
            }
        }
    }
}

/// The entries of `v` in increasing order, each once.
pub fn sort_dedup(v: &Vec<usize>) -> (r: Vec<usize>)
    ensures
        strictly_increasing(r@),
        forall|y: usize| r@.contains(y) <==> v@.contains(y),
        r@.len() <= v@.len(),
{
    let mut r: Vec<usize> = Vec::new();
    let mut i: usize = 0;
    while i < v.len()
        invariant
            i <= v@.len(),
            strictly_increasing(r@),
            r@.len() <= i,
            forall|y: usize| r@.contains(y) <==> v@.take(i as int).contains(y),
        decreases v@.len() - i,
    {
        insert_sorted(&mut r, v[i]);
        proof {
            let t0 = v@.take(i as int);
            let t1 = v@.take(i + 1);
            assert forall|y: usize| r@.contains(y) <==> t1.contains(y) by {
                if t1.contains(y) {
                    let k = choose|k: int| 0 <= k < t1.len() && t1[k] == y;
                    if k < i {
                        assert(t0[k] == y);
                    }
                }
                if t0.contains(y) {
                    let k = choose|k: int| 0 <= k < t0.len() && t0[k] == y;
                    assert(t1[k] == y);
                }
                if y == v@[i as int] {
                    assert(t1[i as int] == y);
                }
            }
        }
        i = i + 1;
    }
    assert(v@.take(v@.len() as int) == v@);
    r
}

/// Sum of `f` over the entries of `s`.
pub open spec fn sum_by<T>(s: Seq<T>, f: spec_fn(T) -> nat) -> nat
    decreases s.len(),
{
    if s.len() == 0 {
        0
    } else {
        sum_by(s.drop_last(), f) + f(s.last())
    }
}

/// Changing one entry changes the sum by the difference of that entry's
/// terms.
pub proof fn lemma_sum_by_update<T>(s: Seq<T>, f: spec_fn(T) -> nat, i: int, x: T)
    requires
        0 <= i < s.len(),
    ensures
        sum_by(s.update(i, x), f) + f(s[i]) == sum_by(s, f) + f(x),
    decreases s.len(),
{
    let u = s.update(i, x);
    if i == s.len() - 1 {
        assert(u.drop_last() == s.drop_last());
    } else {
        lemma_sum_by_update(s.drop_last(), f, i, x);
        assert(u.drop_last() == s.drop_last().update(i, x));
    }
}

/// How often `x` occurs in `s`.
pub open spec fn occurrences<T>(s: Seq<T>, x: T) -> nat
    decreases s.len(),
{
    if s.len() == 0 {
        0
    } else {
        occurrences(s.drop_last(), x) + if s.last() == x {
            1nat
        } else {
            0nat
        }
    }
}

/// A value occurs at least once exactly where the sequence contains it.
pub proof fn lemma_occurrences_contains<T>(s: Seq<T>, x: T)
    ensures
        occurrences(s, x) > 0 <==> s.contains(x),
    decreases s.len(),
{
    if s.len() > 0 {
        lemma_occurrences_contains(s.drop_last(), x);
        if s.contains(x) {
            let k = choose|k: int| 0 <= k < s.len() && s[k] == x;
            if k < s.len() - 1 {
                assert(s.drop_last()[k] == x);
            }
        }
        if s.drop_last().contains(x) {
            let k = choose|k: int| 0 <= k < s.drop_last().len() && s.drop_last()[k] == x;
            assert(s[k] == x);
        }
        if s.last() == x {
            assert(s[s.len() - 1] == x);
        }
    }
}

/// Two sequences of one length whose terms agree everywhere but at place
/// `i` have sums that differ by the difference of the terms at `i`.
pub proof fn lemma_sum_by_pointwise<T>(s1: Seq<T>, s2: Seq<T>, f: spec_fn(T) -> nat, i: int)
    requires
        s1.len() == s2.len(),
        forall|j: int| 0 <= j < s1.len() && j != i ==> f(#[trigger] s1[j]) == f(s2[j]),
    ensures
        0 <= i < s1.len() ==> sum_by(s2, f) + f(s1[i]) == sum_by(s1, f) + f(s2[i]),
        !(0 <= i < s1.len()) ==> sum_by(s2, f) == sum_by(s1, f),
    decreases s1.len(),
{
    if s1.len() > 0 {
        let n = s1.len() - 1;
        assert forall|j: int| 0 <= j < n && j != i implies f(#[trigger] s1.drop_last()[j]) == f(
            s2.drop_last()[j],
        ) by {
            assert(s1.drop_last()[j] == s1[j]);
            assert(s2.drop_last()[j] == s2[j]);
        }
        if i == n {
            lemma_sum_by_pointwise(s1.drop_last(), s2.drop_last(), f, -1);
        } else {
            lemma_sum_by_pointwise(s1.drop_last(), s2.drop_last(), f, i);
            assert(f(s1[n]) == f(s2[n]));
            if 0 <= i < n {
                assert(s1.drop_last()[i] == s1[i]);
                assert(s2.drop_last()[i] == s2[i]);
            }
        }
    }
}

/// Where every term is `c`, the sum is `c` times the length.
pub proof fn lemma_sum_by_all<T>(s: Seq<T>, f: spec_fn(T) -> nat, c: nat)
    requires
        forall|i: int| 0 <= i < s.len() ==> f(#[trigger] s[i]) == c,
    ensures
        sum_by(s, f) == c * s.len(),
    decreases s.len(),
{
    if s.len() > 0 {
        assert forall|i: int| 0 <= i < s.drop_last().len() implies f(#[trigger] s.drop_last()[i])
            == c by {
            assert(s.drop_last()[i] == s[i]);
        }
        lemma_sum_by_all(s.drop_last(), f, c);
        assert(f(s[s.len() - 1]) == c);
        assert(c * s.len() == c * (s.len() - 1) + c) by (nonlinear_arith);
    } else {
        assert(c * s.len() == 0) by (nonlinear_arith)
            requires
                s.len() == 0,
        ;
    }
}

} // verus!
