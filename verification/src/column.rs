//! Sparse columns over Z/2Z: strictly increasing lists of row indices.
//!
//! A column stands for the set of rows holding a 1. Adding two columns over
//! Z/2Z is the symmetric difference of these sets.
use vstd::prelude::*;

verus! {

/// Whether a sequence of row indices is strictly increasing.
pub open spec fn strictly_sorted(s: Seq<usize>) -> bool {
    forall|i: int, j: int| 0 <= i < j < s.len() ==> s[i] < s[j]
}

/// Symmetric difference of two sets of rows: addition over Z/2Z.
pub open spec fn sym_diff(a: Set<usize>, b: Set<usize>) -> Set<usize> {
    a.difference(b).union(b.difference(a))
}

/// The strictly increasing listing of the symmetric difference of two
/// strictly increasing columns, built from the largest row down.
pub open spec fn sorted_xor(a: Seq<usize>, b: Seq<usize>) -> Seq<usize>
    decreases a.len() + b.len(),
{
    if a.len() == 0 {
        b
    } else if b.len() == 0 {
        a
    } else if a.last() < b.last() {
        sorted_xor(a, b.drop_last()).push(b.last())
    } else if b.last() < a.last() {
        sorted_xor(a.drop_last(), b).push(a.last())
    } else {
        sorted_xor(a.drop_last(), b.drop_last())
    }
}

/// The largest row of a strictly increasing column bounds all of its rows,
/// and removing it leaves a strictly increasing column of smaller rows.
pub proof fn lemma_sorted_last(s: Seq<usize>)
    requires
        strictly_sorted(s),
        s.len() > 0,
    ensures
        strictly_sorted(s.drop_last()),
        forall|i: int| 0 <= i < s.len() ==> s[i] <= s.last(),
        forall|x: usize| s.drop_last().contains(x) ==> x < s.last(),
        forall|x: usize| s.contains(x) <==> (s.drop_last().contains(x) || x == s.last()),
        s =~= s.drop_last().push(s.last()),
{
    assert forall|x: usize| s.contains(x) implies (s.drop_last().contains(x) || x == s.last()) by {
        let i = choose|i: int| 0 <= i < s.len() && s[i] == x;
        if i < s.len() - 1 {
            assert(s.drop_last()[i] == x);
        }
    }
    assert forall|x: usize| s.drop_last().contains(x) implies s.contains(x) && x < s.last() by {
        let i = choose|i: int| 0 <= i < s.drop_last().len() && s.drop_last()[i] == x;
        assert(s[i] == x);
    }
    if s.len() > 0 {
        assert(s.contains(s.last())) by {
            assert(s[s.len() - 1] == s.last());
        }
    }
}

/// Pushing a row adds exactly that row to the column's rows.
pub proof fn lemma_push_contains(s: Seq<usize>, v: usize)
    ensures
        forall|x: usize| #[trigger] s.push(v).contains(x) <==> (s.contains(x) || x == v),
{
    assert forall|x: usize| #[trigger] s.push(v).contains(x) <==> (s.contains(x) || x == v) by {
        if s.push(v).contains(x) {
            let k = choose|k: int| 0 <= k < s.push(v).len() && s.push(v)[k] == x;
            if k < s.len() {
                assert(s[k] == x);
            }
        }
        if s.contains(x) {
            let k = choose|k: int| 0 <= k < s.len() && s[k] == x;
            assert(s.push(v)[k] == x);
        }
        if x == v {
            assert(s.push(v)[s.len() as int] == x);
        }
    }
}

/// `sorted_xor` lists exactly the rows lying in one column but not the other.
pub proof fn lemma_sorted_xor(a: Seq<usize>, b: Seq<usize>)
    requires
        strictly_sorted(a),
        strictly_sorted(b),
    ensures
        strictly_sorted(sorted_xor(a, b)),
        forall|x: usize| #[trigger]
            sorted_xor(a, b).contains(x) <==> (a.contains(x) != b.contains(x)),
        sorted_xor(a, b).to_set() == sym_diff(a.to_set(), b.to_set()),
    decreases a.len() + b.len(),
{
    let r = sorted_xor(a, b);
    if a.len() == 0 {
    } else if b.len() == 0 {
    } else if a.last() < b.last() {
        lemma_sorted_last(a);
        lemma_sorted_last(b);
        lemma_sorted_xor(a, b.drop_last());
        let r0 = sorted_xor(a, b.drop_last());
        assert(r == r0.push(b.last()));
        assert forall|x: usize| r0.contains(x) implies x < b.last() by {}
        assert forall|i: int, j: int| 0 <= i < j < r.len() implies r[i] < r[j] by {
            if j < r.len() - 1 {
                assert(r[i] == r0[i] && r[j] == r0[j]);
            } else {
                assert(r0.contains(r0[i]));
            }
        }
        assert forall|x: usize| r.contains(x) <==> (r0.contains(x) || x == b.last()) by {
            if r.contains(x) {
                let i = choose|i: int| 0 <= i < r.len() && r[i] == x;
                if i < r0.len() {
                    assert(r0[i] == x);
                }
            }
            if r0.contains(x) {
                let i = choose|i: int| 0 <= i < r0.len() && r0[i] == x;
                assert(r[i] == x);
            }
            if x == b.last() {
                assert(r[r.len() - 1] == x);
            }
        }
        assert(!a.contains(b.last()));
    } else if b.last() < a.last() {
        lemma_sorted_last(a);
        lemma_sorted_last(b);
        lemma_sorted_xor(a.drop_last(), b);
        let r0 = sorted_xor(a.drop_last(), b);
        assert(r == r0.push(a.last()));
        assert forall|x: usize| r0.contains(x) implies x < a.last() by {}
        assert forall|i: int, j: int| 0 <= i < j < r.len() implies r[i] < r[j] by {
            if j < r.len() - 1 {
                assert(r[i] == r0[i] && r[j] == r0[j]);
            } else {
                assert(r0.contains(r0[i]));
            }
        }
        assert forall|x: usize| r.contains(x) <==> (r0.contains(x) || x == a.last()) by {
            if r.contains(x) {
                let i = choose|i: int| 0 <= i < r.len() && r[i] == x;
                if i < r0.len() {
                    assert(r0[i] == x);
                }
            }
            if r0.contains(x) {
                let i = choose|i: int| 0 <= i < r0.len() && r0[i] == x;
                assert(r[i] == x);
            }
            if x == a.last() {
                assert(r[r.len() - 1] == x);
            }
        }
        assert(!b.contains(a.last()));
    } else {
        lemma_sorted_last(a);
        lemma_sorted_last(b);
        lemma_sorted_xor(a.drop_last(), b.drop_last());
    }
    assert(r.to_set() =~= sym_diff(a.to_set(), b.to_set()));
}

/// Two strictly increasing columns with the same rows are equal.
pub proof fn lemma_sorted_unique(a: Seq<usize>, b: Seq<usize>)
    requires
        strictly_sorted(a),
        strictly_sorted(b),
        forall|x: usize| a.contains(x) <==> b.contains(x),
    ensures
        a == b,
    decreases a.len(),
{
    if a.len() == 0 {
        if b.len() > 0 {
            assert(b.contains(b[0]));
        }
        assert(a =~= b);
    } else {
        assert(a.contains(a.last())) by {
            assert(a[a.len() - 1] == a.last());
        }
        assert(b.len() > 0);
        assert(b.contains(b.last())) by {
            assert(b[b.len() - 1] == b.last());
        }
        lemma_sorted_last(a);
        lemma_sorted_last(b);
        assert(a.last() == b.last());
        assert forall|x: usize| a.drop_last().contains(x) <==> b.drop_last().contains(x) by {
            if a.drop_last().contains(x) {
                assert(a.contains(x) && x < a.last());
                assert(b.contains(x));
            }
            if b.drop_last().contains(x) {
                assert(b.contains(x) && x < b.last());
                assert(a.contains(x));
            }
        }
        lemma_sorted_unique(a.drop_last(), b.drop_last());
    }
}

/// Adding columns over Z/2Z is commutative.
pub proof fn xor_commutes(a: Seq<usize>, b: Seq<usize>)
    requires
        strictly_sorted(a),
        strictly_sorted(b),
    ensures
        sorted_xor(a, b) == sorted_xor(b, a),
{
    lemma_sorted_xor(a, b);
    lemma_sorted_xor(b, a);
    lemma_sorted_unique(sorted_xor(a, b), sorted_xor(b, a));
}

/// Adding the same column twice over Z/2Z gives back the column it was added to.
pub proof fn xor_twice_restores(a: Seq<usize>, b: Seq<usize>)
    requires
        strictly_sorted(a),
        strictly_sorted(b),
    ensures
        sorted_xor(sorted_xor(a, b), b) == a,
{
    lemma_sorted_xor(a, b);
    lemma_sorted_xor(sorted_xor(a, b), b);
    lemma_sorted_unique(sorted_xor(sorted_xor(a, b), b), a);
}

} // verus!
