//! Ranks of boundary operators over Z/2Z and the Betti numbers.
//!
//! A selection of columns is a mask over the column indices; its sum over
//! Z/2Z holds the rows held by an odd number of selected columns. A set of
//! columns is independent when every non-empty sub-selection has a non-zero
//! sum, and the rank of the boundary operator ∂ₖ is the size of a largest
//! independent set of columns of dimension k. The reduction exhibits it:
//! the rank is the number of non-zero reduced columns of dimension k, and
//! βₖ = nₖ − rank ∂ₖ − rank ∂ₖ₊₁.
use vstd::prelude::*;

use crate::column::{strictly_sorted, sym_diff};
use vstd::relations::injective_on;

use crate::betti::cols_in_dim;
use crate::boundary::{
    boundary_squared_zero, dim_of, face_rows, faces_first_gives_upper_triangular, faces_precede,
    upper_triangular, MatrixModel,
};
use crate::chain::{boundary_of_boundary_vanishes, simplicial_complex};
use crate::pairing::{
    deaths_are_one_dimension_up, graded, lemma_faces_graded, lemma_input_in_reduced_span,
    pivots_index_zero_columns,
};
use crate::reduction::{
    all_sorted, indices_below, is_unpaired, lemma_owner_map, lemma_reduced_columns, owner_map,
    reduces_to, reduction_keeps_upper_triangular, reduction_of, xor_of, ReductionModel,
};

verus! {

/// Number of selected columns holding row `x`.
pub open spec fn holders(cols: Seq<Seq<usize>>, sel: Seq<bool>, x: usize) -> nat
    decreases sel.len(),
{
    if sel.len() == 0 {
        0
    } else {
        holders(cols, sel.drop_last(), x) + if sel.last() && cols[sel.len() - 1].contains(x) {
            1nat
        } else {
            0nat
        }
    }
}

/// The sum over Z/2Z of the selected columns: the rows held by an odd
/// number of them.
pub open spec fn sum_sel(cols: Seq<Seq<usize>>, sel: Seq<bool>) -> Set<usize> {
    Set::new(|x: usize| holders(cols, sel, x) % 2 == 1)
}

/// Number of selected columns.
pub open spec fn sel_size(sel: Seq<bool>) -> nat
    decreases sel.len(),
{
    if sel.len() == 0 {
        0
    } else {
        sel_size(sel.drop_last()) + if sel.last() {
            1nat
        } else {
            0nat
        }
    }
}

/// `b` selects only columns that `a` selects.
pub open spec fn sub_sel(b: Seq<bool>, a: Seq<bool>) -> bool {
    &&& b.len() == a.len()
    &&& forall|j: int| 0 <= j < b.len() && #[trigger] b[j] ==> a[j]
}

/// The columns selected by exactly one of `a` and `b`.
pub open spec fn xor_sel(a: Seq<bool>, b: Seq<bool>) -> Seq<bool> {
    Seq::new(a.len(), |j: int| a[j] != b[j])
}

/// The columns selected by both `a` and `b`.
pub open spec fn and_sel(a: Seq<bool>, b: Seq<bool>) -> Seq<bool> {
    Seq::new(a.len(), |j: int| a[j] && b[j])
}

/// The empty selection of `n` columns.
pub open spec fn no_sel(n: nat) -> Seq<bool> {
    Seq::new(n, |j: int| false)
}

/// The selections contained in `a`.
pub open spec fn subs(a: Seq<bool>) -> Set<Seq<bool>> {
    Set::new(|b: Seq<bool>| sub_sel(b, a))
}

/// The independent selections: every non-empty sub-selection has a non-zero
/// sum.
pub open spec fn independent(cols: Seq<Seq<usize>>, a: Seq<bool>) -> bool {
    forall|b: Seq<bool>| #[trigger] sub_sel(b, a) && sel_size(b) > 0 ==> sum_sel(cols, b) != Set::<usize>::empty()
}

/// 2 to the power `n`.
pub open spec fn pow2n(n: nat) -> nat
    decreases n,
{
    if n == 0 {
        1
    } else {
        2 * pow2n((n - 1) as nat)
    }
}

/// Counting over two selections at once: the holders of their exclusive
/// union plus twice the holders of their common part.
proof fn lemma_holders_xor(cols: Seq<Seq<usize>>, a: Seq<bool>, b: Seq<bool>, x: usize)
    requires
        a.len() == b.len(),
    ensures
        holders(cols, xor_sel(a, b), x) + 2 * holders(cols, and_sel(a, b), x) == holders(cols, a, x)
            + holders(cols, b, x),
    decreases a.len(),
{
    if a.len() > 0 {
        lemma_holders_xor(cols, a.drop_last(), b.drop_last(), x);
        assert(xor_sel(a, b).drop_last() =~= xor_sel(a.drop_last(), b.drop_last()));
        assert(and_sel(a, b).drop_last() =~= and_sel(a.drop_last(), b.drop_last()));
    }
}

/// Summing is linear: the sum of the exclusive union is the symmetric
/// difference of the sums.
pub proof fn lemma_sum_xor(cols: Seq<Seq<usize>>, a: Seq<bool>, b: Seq<bool>)
    requires
        a.len() == b.len(),
    ensures
        sum_sel(cols, xor_sel(a, b)) == sym_diff(sum_sel(cols, a), sum_sel(cols, b)),
{
    assert forall|x: usize| sum_sel(cols, xor_sel(a, b)).contains(x) == sym_diff(
        sum_sel(cols, a),
        sum_sel(cols, b),
    ).contains(x) by {
        lemma_holders_xor(cols, a, b, x);
    }
    assert(sum_sel(cols, xor_sel(a, b)) =~= sym_diff(sum_sel(cols, a), sum_sel(cols, b)));
}

/// Selecting nothing gives the zero sum.
pub proof fn lemma_sum_none(cols: Seq<Seq<usize>>, n: nat)
    ensures
        sum_sel(cols, no_sel(n)) == Set::<usize>::empty(),
{
    assert forall|x: usize| holders(cols, no_sel(n), x) == 0 by {
        lemma_holders_none(cols, n, x);
    }
    assert(sum_sel(cols, no_sel(n)) =~= Set::<usize>::empty());
}

proof fn lemma_holders_none(cols: Seq<Seq<usize>>, n: nat, x: usize)
    ensures
        holders(cols, no_sel(n), x) == 0,
    decreases n,
{
    if n > 0 {
        assert(no_sel(n).drop_last() =~= no_sel((n - 1) as nat));
        lemma_holders_none(cols, (n - 1) as nat, x);
    }
}

/// A selection of size zero selects nothing.
proof fn lemma_size_zero(a: Seq<bool>)
    ensures
        sel_size(a) == 0 <==> a == no_sel(a.len()),
    decreases a.len(),
{
    if a.len() > 0 {
        lemma_size_zero(a.drop_last());
        if a == no_sel(a.len()) {
            assert(a.drop_last() =~= no_sel((a.len() - 1) as nat));
        }
        if sel_size(a) == 0 {
            assert(a =~= no_sel(a.len())) by {
                assert(a.drop_last() == no_sel((a.len() - 1) as nat));
                assert forall|j: int| 0 <= j < a.len() implies a[j] == false by {
                    if j < a.len() - 1 {
                        assert(a.drop_last()[j] == a[j]);
                    }
                }
            }
        }
    } else {
        assert(a =~= no_sel(0));
    }
}

/// Two different sub-selections of an independent selection have different
/// sums.
proof fn lemma_independent_injective(cols: Seq<Seq<usize>>, a: Seq<bool>, b1: Seq<bool>, b2: Seq<bool>)
    requires
        independent(cols, a),
        sub_sel(b1, a),
        sub_sel(b2, a),
        sum_sel(cols, b1) == sum_sel(cols, b2),
    ensures
        b1 == b2,
{
    let c = xor_sel(b1, b2);
    lemma_sum_xor(cols, b1, b2);
    assert(sym_diff(sum_sel(cols, b1), sum_sel(cols, b2)) =~= Set::<usize>::empty());
    assert(sub_sel(c, a));
    if sel_size(c) > 0 {
        assert(sum_sel(cols, c) != Set::<usize>::empty());
    }
    lemma_size_zero(c);
    assert forall|j: int| 0 <= j < b1.len() implies b1[j] == b2[j] by {
        assert(c[j] == no_sel(c.len())[j]);
    }
    assert(b1 =~= b2);
}

/// Pushing the same flag onto two selections keeps them apart.
proof fn lemma_push_injective(flag: bool, s: Set<Seq<bool>>)
    ensures
        vstd::relations::injective_on(|b: Seq<bool>| b.push(flag), s),
{
    assert forall|b1: Seq<bool>, b2: Seq<bool>|
        s.contains(b1) && s.contains(b2) && #[trigger] b1.push(flag) == #[trigger] b2.push(flag) implies b1
        == b2 by {
        assert(b1.push(flag).drop_last() =~= b1);
        assert(b2.push(flag).drop_last() =~= b2);
    }
}

/// A selection has `2^size` sub-selections.
pub proof fn lemma_subs_count(a: Seq<bool>)
    ensures
        subs(a).finite(),
        subs(a).len() == pow2n(sel_size(a)),
    decreases a.len(),
{
    broadcast use vstd::set::group_set_axioms;

    if a.len() == 0 {
        assert(subs(a) =~= set![Seq::<bool>::empty()]) by {
            assert forall|b: Seq<bool>| subs(a).contains(b) implies b == Seq::<bool>::empty() by {
                assert(b =~= Seq::<bool>::empty());
            }
        }
    } else {
        let a0 = a.drop_last();
        lemma_subs_count(a0);
        let s0 = subs(a0);
        let fa = |b: Seq<bool>| b.push(false);
        let ft = |b: Seq<bool>| b.push(true);
        lemma_push_injective(false, s0);
        lemma_push_injective(true, s0);
        vstd::set_lib::lemma_map_size(s0, s0.map(fa), fa);
        vstd::set_lib::lemma_map_size(s0, s0.map(ft), ft);
        assert forall|b: Seq<bool>| #[trigger] subs(a).contains(b) <==> (s0.map(fa).contains(b) || (a.last()
            && s0.map(ft).contains(b))) by {
            if subs(a).contains(b) {
                let b0 = b.drop_last();
                assert(b =~= b0.push(b.last()));
                assert(sub_sel(b0, a0)) by {
                    assert forall|j: int| 0 <= j < b0.len() && #[trigger] b0[j] implies a0[j] by {
                        assert(b[j] == b0[j]);
                    }
                }
                assert(s0.contains(b0));
                if b.last() {
                    assert(b[b.len() - 1]);
                    assert(ft(b0) == b);
                } else {
                    assert(fa(b0) == b);
                }
            }
            if s0.map(fa).contains(b) {
                let b0 = choose|b0: Seq<bool>| s0.contains(b0) && fa(b0) == b;
                assert forall|j: int| 0 <= j < b.len() && #[trigger] b[j] implies a[j] by {
                    if j < b0.len() {
                        assert(b[j] == b0[j]);
                        assert(a[j] == a0[j]);
                    }
                }
            }
            if a.last() && s0.map(ft).contains(b) {
                let b0 = choose|b0: Seq<bool>| s0.contains(b0) && ft(b0) == b;
                assert forall|j: int| 0 <= j < b.len() && #[trigger] b[j] implies a[j] by {
                    if j < b0.len() {
                        assert(b[j] == b0[j]);
                        assert(a[j] == a0[j]);
                    }
                }
            }
        }
        assert(s0.map(fa).disjoint(s0.map(ft))) by {
            assert forall|b: Seq<bool>| s0.map(fa).contains(b) implies !s0.map(ft).contains(b) by {
                let b0 = choose|b0: Seq<bool>| s0.contains(b0) && fa(b0) == b;
                if s0.map(ft).contains(b) {
                    let b1 = choose|b1: Seq<bool>| s0.contains(b1) && ft(b1) == b;
                    assert(b[b.len() - 1] == false);
                    assert(b[b.len() - 1] == true);
                }
            }
        }
        if a.last() {
            assert(subs(a) =~= s0.map(fa) + s0.map(ft));
            vstd::set_lib::lemma_set_disjoint_lens(s0.map(fa), s0.map(ft));
        } else {
            assert(subs(a) =~= s0.map(fa));
        }
    }
}

/// 2^x is strictly increasing.
proof fn lemma_pow2_increases(x: nat, y: nat)
    requires
        x < y,
    ensures
        pow2n(x) < pow2n(y),
    decreases y,
{
    if y > x + 1 {
        lemma_pow2_increases(x, (y - 1) as nat);
    }
    lemma_pow2_positive(x);
}

proof fn lemma_pow2_positive(x: nat)
    ensures
        pow2n(x) >= 1,
    decreases x,
{
    if x > 0 {
        lemma_pow2_positive((x - 1) as nat);
    }
}

/// The dimension bound over Z/2Z: an independent selection `a` of the
/// columns `d`, each selected column a sum of columns of `r` selected by
/// `m`, selects at most as many columns as `m`.
pub proof fn lemma_independent_in_span(
    d: Seq<Seq<usize>>,
    r: Seq<Seq<usize>>,
    a: Seq<bool>,
    m: Seq<bool>,
)
    requires
        independent(d, a),
        forall|b: Seq<bool>| #[trigger] sub_sel(b, a) ==> exists|c: Seq<bool>|
            sub_sel(c, m) && sum_sel(r, c) == sum_sel(d, b),
    ensures
        sel_size(a) <= sel_size(m),
{
    let sa = subs(a);
    let sm = subs(m);
    let f = |b: Seq<bool>| sum_sel(d, b);
    let g = |c: Seq<bool>| sum_sel(r, c);
    lemma_subs_count(a);
    lemma_subs_count(m);
    assert(vstd::relations::injective_on(f, sa)) by {
        assert forall|b1: Seq<bool>, b2: Seq<bool>|
            sa.contains(b1) && sa.contains(b2) && #[trigger] f(b1) == #[trigger] f(b2) implies b1 == b2 by {
            lemma_independent_injective(d, a, b1, b2);
        }
    }
    vstd::set_lib::lemma_map_size(sa, sa.map(f), f);
    vstd::set_lib::lemma_map_size_bound(sm, sm.map(g), g);
    assert(sa.map(f).subset_of(sm.map(g))) by {
        assert forall|v: Set<usize>| sa.map(f).contains(v) implies sm.map(g).contains(v) by {
            let b = choose|b: Seq<bool>| sa.contains(b) && f(b) == v;
            assert(sub_sel(b, a));
            let c = choose|c: Seq<bool>| sub_sel(c, m) && sum_sel(r, c) == sum_sel(d, b);
            assert(sm.contains(c) && g(c) == v);
        }
    }
    vstd::set_lib::lemma_len_subset(sa.map(f), sm.map(g));
    if sel_size(a) > sel_size(m) {
        lemma_pow2_increases(sel_size(m), sel_size(a));
    }
}


/// The selection of column `j` alone, out of `n`.
pub open spec fn single(n: nat, j: int) -> Seq<bool> {
    Seq::new(n, |i: int| i == j)
}

proof fn lemma_holders_single(cols: Seq<Seq<usize>>, n: nat, j: int, x: usize)
    ensures
        holders(cols, single(n, j), x) == if 0 <= j < n && cols[j].contains(x) {
            1nat
        } else {
            0nat
        },
    decreases n,
{
    if n > 0 {
        assert(single(n, j).drop_last() =~= single((n - 1) as nat, j));
        lemma_holders_single(cols, (n - 1) as nat, j, x);
    }
}

/// Selecting one column sums to that column.
pub proof fn lemma_sum_single(cols: Seq<Seq<usize>>, j: int)
    requires
        0 <= j < cols.len(),
    ensures
        sum_sel(cols, single(cols.len(), j)) == cols[j].to_set(),
{
    assert forall|x: usize| sum_sel(cols, single(cols.len(), j)).contains(x) == cols[j].to_set().contains(x) by {
        lemma_holders_single(cols, cols.len(), j, x);
    }
    assert(sum_sel(cols, single(cols.len(), j)) =~= cols[j].to_set());
}

/// The selection of the indices listed an odd number of times.
pub open spec fn pmask(n: nat, idx: Seq<int>) -> Seq<bool>
    decreases idx.len(),
{
    if idx.len() == 0 {
        no_sel(n)
    } else {
        xor_sel(pmask(n, idx.drop_last()), single(n, idx.last()))
    }
}

/// Summing an index list is summing the selection of the indices it lists
/// an odd number of times.
pub proof fn lemma_bridge(cols: Seq<Seq<usize>>, idx: Seq<int>)
    requires
        indices_below(idx, cols.len() as int),
    ensures
        pmask(cols.len(), idx).len() == cols.len(),
        xor_of(cols, idx) == sum_sel(cols, pmask(cols.len(), idx)),
    decreases idx.len(),
{
    let n = cols.len();
    if idx.len() == 0 {
        lemma_sum_none(cols, n);
    } else {
        let i0 = idx.drop_last();
        assert forall|t: int| 0 <= t < i0.len() implies 0 <= #[trigger] i0[t] < n by {
            assert(i0[t] == idx[t]);
        }
        lemma_bridge(cols, i0);
        let v = idx.last();
        assert(0 <= v < n) by {
            assert(idx[idx.len() - 1] == v);
        }
        lemma_sum_xor(cols, pmask(n, i0), single(n, v));
        lemma_sum_single(cols, v);
    }
}

/// Indices all below `l` select nothing at `l` or above.
proof fn lemma_pmask_below(n: nat, idx: Seq<int>, l: int)
    requires
        0 <= l,
        indices_below(idx, l),
    ensures
        pmask(n, idx).len() == n,
        forall|i: int| l <= i < n ==> !#[trigger] pmask(n, idx)[i],
    decreases idx.len(),
{
    if idx.len() > 0 {
        let i0 = idx.drop_last();
        assert forall|t: int| 0 <= t < i0.len() implies 0 <= #[trigger] i0[t] < l by {
            assert(i0[t] == idx[t]);
        }
        lemma_pmask_below(n, i0, l);
        assert(idx.last() < l) by {
            assert(idx[idx.len() - 1] == idx.last());
        }
        assert forall|i: int| l <= i < n implies !#[trigger] pmask(n, idx)[i] by {
            assert(!pmask(n, i0)[i]);
            assert(!single(n, idx.last())[i]);
        }
    } else {
        assert forall|i: int| l <= i < n implies !#[trigger] pmask(n, idx)[i] by {
            assert(!no_sel(n)[i]);
        }
    }
}

/// A row of a sum lies in some selected column.
pub proof fn lemma_support(cols: Seq<Seq<usize>>, sel: Seq<bool>, x: usize)
    requires
        holders(cols, sel, x) > 0,
    ensures
        exists|j: int| 0 <= j < sel.len() && sel[j] && #[trigger] cols[j].contains(x),
    decreases sel.len(),
{
    let s0 = sel.drop_last();
    if holders(cols, s0, x) > 0 {
        lemma_support(cols, s0, x);
        let j = choose|j: int| 0 <= j < s0.len() && s0[j] && #[trigger] cols[j].contains(x);
        assert(sel[j] == s0[j]);
    } else {
        assert(sel[sel.len() - 1] && cols[sel.len() - 1].contains(x));
    }
}

/// The expansion of input column `j` in reduced columns: `j` itself and
/// reduced columns before it.
pub open spec fn expansion(d: Seq<Seq<usize>>, j: int) -> Seq<bool> {
    let ks = choose|ks: Seq<int>|
        indices_below(ks, j) && d[j].to_set() == xor_of(reduction_of(d), ks.push(j));
    pmask(d.len(), ks.push(j))
}

/// Input column `j` is the sum of the reduced columns its expansion
/// selects; the expansion selects `j` and nothing after it.
pub proof fn lemma_expansion(d: Seq<Seq<usize>>, j: int)
    requires
        0 <= j < d.len(),
        d.len() <= usize::MAX,
        all_sorted(d),
    ensures
        expansion(d, j).len() == d.len(),
        d[j].to_set() == sum_sel(reduction_of(d), expansion(d, j)),
        expansion(d, j)[j],
        forall|i: int| j < i < d.len() ==> !#[trigger] expansion(d, j)[i],
{
    let r = reduction_of(d);
    crate::reduction::lemma_reduced_columns(d, d.len());
    let ks0 = lemma_input_in_reduced_span(d, j);
    assert(indices_below(ks0, j) && d[j].to_set() == xor_of(r, ks0.push(j)));
    let ks = choose|ks: Seq<int>| indices_below(ks, j) && d[j].to_set() == xor_of(reduction_of(d), ks.push(j));
    let e = ks.push(j);
    assert(indices_below(e, r.len() as int)) by {
        assert forall|t: int| 0 <= t < e.len() implies 0 <= #[trigger] e[t] < r.len() by {
            if t < ks.len() {
                assert(e[t] == ks[t]);
            }
        }
    }
    lemma_bridge(r, e);
    lemma_pmask_below(d.len(), ks, j);
    assert(e.drop_last() =~= ks);
    assert(e.last() == j);
}


/// The columns `b` selects among the first `l`.
pub open spec fn trunc(b: Seq<bool>, l: int) -> Seq<bool> {
    Seq::new(b.len(), |j: int| j < l && b[j])
}

/// The sum of the expansions of the columns `b` selects among the first `l`.
pub open spec fn acc(d: Seq<Seq<usize>>, b: Seq<bool>, l: nat) -> Seq<bool>
    decreases l,
{
    if l == 0 {
        no_sel(d.len())
    } else if b[l - 1] {
        xor_sel(acc(d, b, (l - 1) as nat), expansion(d, l - 1))
    } else {
        acc(d, b, (l - 1) as nat)
    }
}

/// A sum of input columns is the sum of reduced columns that the
/// accumulated expansions select, none of them at or after `l`.
pub proof fn lemma_compose(d: Seq<Seq<usize>>, b: Seq<bool>, l: nat)
    requires
        b.len() == d.len(),
        l <= d.len(),
        d.len() <= usize::MAX,
        all_sorted(d),
    ensures
        acc(d, b, l).len() == d.len(),
        sum_sel(d, trunc(b, l as int)) == sum_sel(reduction_of(d), acc(d, b, l)),
        forall|i: int| l <= i < d.len() ==> !#[trigger] acc(d, b, l)[i],
    decreases l,
{
    let n = d.len();
    let r = reduction_of(d);
    lemma_reduced_columns(d, n);
    if l == 0 {
        assert(trunc(b, 0) =~= no_sel(n));
        lemma_sum_none(d, n);
        lemma_sum_none(r, n);
    } else {
        let l0 = (l - 1) as nat;
        lemma_compose(d, b, l0);
        if b[l0 as int] {
            lemma_expansion(d, l0 as int);
            assert(trunc(b, l as int) =~= xor_sel(trunc(b, l0 as int), single(n, l0 as int)));
            lemma_sum_xor(d, trunc(b, l0 as int), single(n, l0 as int));
            lemma_sum_single(d, l0 as int);
            lemma_sum_xor(r, acc(d, b, l0), expansion(d, l0 as int));
            assert forall|i: int| l <= i < d.len() implies !#[trigger] acc(d, b, l)[i] by {
                assert(!acc(d, b, l0)[i]);
                assert(!expansion(d, l0 as int)[i]);
            }
        } else {
            assert(trunc(b, l as int) =~= trunc(b, l0 as int));
        }
    }
}

/// The non-zero columns of dimension `k`.
pub open spec fn nonzero_of_dim(cols: Seq<Seq<usize>>, dims: Seq<usize>, k: int) -> Seq<bool> {
    Seq::new(cols.len(), |i: int| dims[i] == k && cols[i].len() > 0)
}

/// The columns of dimension `k`.
pub open spec fn of_dim(n: nat, dims: Seq<usize>, k: int) -> Seq<bool> {
    Seq::new(n, |i: int| dims[i] == k)
}

/// When a sum's rows are all one dimension below `k`, and each column holds
/// only rows one dimension below its own, the sum is the sum of the
/// selected non-zero columns of dimension `k`.
pub proof fn lemma_restrict(cols: Seq<Seq<usize>>, dims: Seq<usize>, k: int, c: Seq<bool>)
    requires
        c.len() == cols.len(),
        forall|i: int, x: usize| 0 <= i < cols.len() && #[trigger] cols[i].contains(x) ==> dims[x as int] + 1
            == dims[i],
        forall|x: usize| #[trigger] sum_sel(cols, c).contains(x) ==> dims[x as int] + 1 == k,
    ensures
        sum_sel(cols, and_sel(c, nonzero_of_dim(cols, dims, k))) == sum_sel(cols, c),
{
    let n = cols.len();
    let z = nonzero_of_dim(cols, dims, k);
    let c1 = and_sel(c, z);
    let c2 = Seq::new(n, |i: int| c[i] && !z[i]);
    assert(c =~= xor_sel(c1, c2));
    lemma_sum_xor(cols, c1, c2);
    assert forall|x: usize| !sum_sel(cols, c2).contains(x) by {
        if sum_sel(cols, c2).contains(x) {
            lemma_support(cols, c2, x);
            let i = choose|i: int| 0 <= i < c2.len() && c2[i] && #[trigger] cols[i].contains(x);
            assert(cols[i].len() > 0);
            assert(dims[i] != k);
            if sum_sel(cols, c1).contains(x) {
                lemma_support(cols, c1, x);
                let i1 = choose|i1: int| 0 <= i1 < c1.len() && c1[i1] && #[trigger] cols[i1].contains(x);
                assert(dims[i1] == k);
            } else {
                assert(sum_sel(cols, c).contains(x));
            }
        }
    }
    assert(sum_sel(cols, c1) =~= sum_sel(cols, c));
}

/// The last selected column.
proof fn lemma_top_selected(b: Seq<bool>) -> (t: int)
    requires
        sel_size(b) > 0,
    ensures
        0 <= t < b.len(),
        b[t],
        forall|i: int| t < i < b.len() ==> !#[trigger] b[i],
    decreases b.len(),
{
    if b.last() {
        b.len() - 1
    } else {
        let b0 = b.drop_last();
        let t = lemma_top_selected(b0);
        assert(b[t] == b0[t]);
        assert forall|i: int| t < i < b.len() implies !#[trigger] b[i] by {
            if i < b.len() - 1 {
                assert(b[i] == b0[i]);
            }
        }
        t
    }
}

/// Among the selected non-zero columns of the first `l`, one whose pivot is
/// largest.
proof fn lemma_best(cols: Seq<Seq<usize>>, c: Seq<bool>, l: int) -> (i: int)
    requires
        0 <= l <= c.len(),
        exists|j: int| 0 <= j < l && c[j] && #[trigger] cols[j].len() > 0,
    ensures
        0 <= i < l,
        c[i],
        cols[i].len() > 0,
        forall|j: int| 0 <= j < l && c[j] && #[trigger] cols[j].len() > 0 ==> cols[j].last() <= cols[i].last(),
    decreases l,
{
    if exists|j: int| 0 <= j < l - 1 && c[j] && #[trigger] cols[j].len() > 0 {
        let i0 = lemma_best(cols, c, l - 1);
        if c[l - 1] && cols[l - 1].len() > 0 && cols[l - 1].last() > cols[i0].last() {
            l - 1
        } else {
            i0
        }
    } else {
        l - 1
    }
}

/// When only column `i` among the selected ones holds row `p`, exactly one
/// selected column holds it.
proof fn lemma_one_holder(cols: Seq<Seq<usize>>, c: Seq<bool>, i: int, p: usize, l: int)
    requires
        0 <= l <= c.len(),
        0 <= i < c.len(),
        c[i],
        cols[i].contains(p),
        forall|j: int| 0 <= j < c.len() && j != i && c[j] ==> !#[trigger] cols[j].contains(p),
    ensures
        holders(cols, c.take(l), p) == if i < l {
            1nat
        } else {
            0nat
        },
    decreases l,
{
    if l > 0 {
        assert(c.take(l).drop_last() =~= c.take(l - 1));
        lemma_one_holder(cols, c, i, p, l - 1);
        assert(c.take(l)[l - 1] == c[l - 1]);
    } else {
        assert(c.take(0) =~= Seq::<bool>::empty());
    }
}

/// A selection of strictly increasing columns with distinct pivots that
/// holds a non-zero column has a non-zero sum.
pub proof fn lemma_nonzero_sum(cols: Seq<Seq<usize>>, c: Seq<bool>, t: int)
    requires
        c.len() == cols.len(),
        0 <= t < c.len(),
        c[t],
        cols[t].len() > 0,
        all_sorted(cols),
        forall|k1: int, k2: int|
            0 <= k1 < cols.len() && 0 <= k2 < cols.len() && k1 != k2 && cols[k1].len() > 0 && cols[k2].len() > 0
                ==> #[trigger] cols[k1].last() != #[trigger] cols[k2].last(),
    ensures
        sum_sel(cols, c) != Set::<usize>::empty(),
{
    let i = lemma_best(cols, c, c.len() as int);
    let p = cols[i].last();
    assert(cols[i].contains(p)) by {
        assert(cols[i][cols[i].len() - 1] == p);
    }
    assert forall|j: int| 0 <= j < c.len() && j != i && c[j] implies !#[trigger] cols[j].contains(p) by {
        if cols[j].contains(p) {
            assert(strictly_sorted(cols[j]));
            crate::column::lemma_sorted_last(cols[j]);
            let q = choose|q: int| 0 <= q < cols[j].len() && cols[j][q] == p;
            assert(cols[j][q] <= cols[j].last());
            assert(cols[j].last() <= p);
            assert(cols[j].last() != cols[i].last());
        }
    }
    lemma_one_holder(cols, c, i, p, c.len() as int);
    assert(c.take(c.len() as int) =~= c);
    assert(sum_sel(cols, c).contains(p));
}


/// `rk` is the rank of the boundary operator on the columns of dimension
/// `k`: the size of a largest independent set of columns of dimension `k`.
pub open spec fn is_rank(cols: Seq<Seq<usize>>, dims: Seq<usize>, k: int, rk: nat) -> bool {
    &&& exists|a: Seq<bool>|
        #[trigger] sub_sel(a, of_dim(cols.len(), dims, k)) && independent(cols, a) && sel_size(a) == rk
    &&& forall|a: Seq<bool>|
        #[trigger] sub_sel(a, of_dim(cols.len(), dims, k)) && independent(cols, a) ==> sel_size(a) <= rk
}

/// Non-zero reduced columns have distinct pivots, in either order.
proof fn lemma_distinct_pivots(d: Seq<Seq<usize>>)
    requires
        d.len() <= usize::MAX,
        all_sorted(d),
    ensures
        all_sorted(reduction_of(d)),
        reduction_of(d).len() == d.len(),
        forall|k1: int, k2: int|
            0 <= k1 < d.len() && 0 <= k2 < d.len() && k1 != k2 && reduction_of(d)[k1].len() > 0
                && reduction_of(d)[k2].len() > 0 ==> #[trigger] reduction_of(d)[k1].last()
                != #[trigger] reduction_of(d)[k2].last(),
{
    lemma_reduced_columns(d, d.len());
    let r = reduction_of(d);
    assert forall|k1: int, k2: int|
        0 <= k1 < d.len() && 0 <= k2 < d.len() && k1 != k2 && r[k1].len() > 0 && r[k2].len() > 0 implies #[trigger] r[k1].last()
        != #[trigger] r[k2].last() by {
        if k1 < k2 {
            assert(r[k1].last() != r[k2].last());
        } else {
            assert(r[k2].last() != r[k1].last());
        }
    }
}

/// For a matrix whose columns hold only rows one dimension down, the rank of
/// the columns of dimension `k` is the number of non-zero reduced columns of
/// dimension `k`.
pub proof fn rank_is_reduced_pivot_count(d: Seq<Seq<usize>>, dims: Seq<usize>, k: int)
    requires
        d.len() <= usize::MAX,
        all_sorted(d),
        graded(d, dims),
    ensures
        is_rank(d, dims, k, sel_size(nonzero_of_dim(reduction_of(d), dims, k))),
{
    let n = d.len();
    let r = reduction_of(d);
    let z = nonzero_of_dim(r, dims, k);
    lemma_distinct_pivots(d);
    deaths_are_one_dimension_up(d, dims);
    // The non-zero reduced columns of dimension k, read as input columns,
    // are independent.
    assert(sub_sel(z, of_dim(n, dims, k)));
    assert forall|b: Seq<bool>| #[trigger] sub_sel(b, z) && sel_size(b) > 0 implies sum_sel(d, b) != Set::<usize>::empty() by {
        let t = lemma_top_selected(b);
        assert(trunc(b, t + 1) =~= b);
        lemma_compose(d, b, (t + 1) as nat);
        lemma_compose(d, b, t as nat);
        lemma_expansion(d, t);
        let c = acc(d, b, (t + 1) as nat);
        assert(c == xor_sel(acc(d, b, t as nat), expansion(d, t)));
        assert(!acc(d, b, t as nat)[t]);
        assert(c[t]);
        assert(r[t].len() > 0);
        lemma_nonzero_sum(r, c, t);
    }
    assert(independent(d, z));
    // Every independent set of columns of dimension k lies in the span of
    // those reduced columns.
    assert forall|a: Seq<bool>| #[trigger] sub_sel(a, of_dim(n, dims, k)) && independent(d, a) implies sel_size(a)
        <= sel_size(z) by {
        assert forall|b: Seq<bool>| #[trigger] sub_sel(b, a) implies exists|c: Seq<bool>|
            sub_sel(c, z) && sum_sel(r, c) == sum_sel(d, b) by {
            assert(trunc(b, n as int) =~= b);
            lemma_compose(d, b, n as nat);
            let c0 = acc(d, b, n as nat);
            assert forall|x: usize| #[trigger] sum_sel(r, c0).contains(x) implies dims[x as int] + 1 == k by {
                assert(sum_sel(d, b).contains(x));
                lemma_support(d, b, x);
                let j = choose|j: int| 0 <= j < b.len() && b[j] && #[trigger] d[j].contains(x);
                assert(a[j]);
                assert(of_dim(n, dims, k)[j]);
            }
            lemma_restrict(r, dims, k, c0);
            let c = and_sel(c0, z);
            assert(sub_sel(c, z));
        }
        lemma_independent_in_span(d, r, a, z);
    }
}


/// The indices a selection selects.
pub open spec fn mask_set(mask: Seq<bool>) -> Set<usize> {
    Set::new(|j: usize| j < mask.len() && mask[j as int])
}

/// A selection selects as many indices as its size.
proof fn lemma_mask_set(mask: Seq<bool>)
    requires
        mask.len() <= usize::MAX,
    ensures
        mask_set(mask).finite(),
        mask_set(mask).len() == sel_size(mask),
    decreases mask.len(),
{
    broadcast use vstd::set::group_set_axioms;

    if mask.len() == 0 {
        assert(mask_set(mask) =~= Set::<usize>::empty());
    } else {
        let m0 = mask.drop_last();
        lemma_mask_set(m0);
        let last = (mask.len() - 1) as usize;
        if mask.last() {
            assert(mask_set(mask) =~= mask_set(m0).insert(last)) by {
                assert forall|j: usize| mask_set(mask).contains(j) == mask_set(m0).insert(last).contains(j) by {
                    if j < m0.len() {
                        assert(mask[j as int] == m0[j as int]);
                    }
                }
            }
        } else {
            assert(mask_set(mask) =~= mask_set(m0)) by {
                assert forall|j: usize| mask_set(mask).contains(j) == mask_set(m0).contains(j) by {
                    if j < m0.len() {
                        assert(mask[j as int] == m0[j as int]);
                    }
                }
            }
        }
    }
}

/// The columns of one dimension among strictly increasing columns are
/// listed once each.
proof fn lemma_cols_in_dim_set(u: Seq<usize>, dims: Seq<usize>, k: usize)
    requires
        strictly_sorted(u),
    ensures
        cols_in_dim(u, dims, k).no_duplicates(),
        forall|x: usize| #[trigger]
            cols_in_dim(u, dims, k).contains(x) <==> (u.contains(x) && dims[x as int] == k),
    decreases u.len(),
{
    if u.len() > 0 {
        let u0 = u.drop_last();
        assert forall|a: int, b: int| 0 <= a < b < u0.len() implies u0[a] < u0[b] by {
            assert(u0[a] == u[a] && u0[b] == u[b]);
        }
        lemma_cols_in_dim_set(u0, dims, k);
        crate::column::lemma_sorted_last(u);
        let rest = cols_in_dim(u0, dims, k);
        if dims[u.last() as int] == k {
            crate::column::lemma_push_contains(rest, u.last());
            assert(!rest.contains(u.last()));
            assert forall|a: int, b: int|
                0 <= a < rest.push(u.last()).len() && 0 <= b < rest.push(u.last()).len() && a != b implies rest.push(
                u.last(),
            )[a] != rest.push(u.last())[b] by {
                if a < rest.len() && b < rest.len() {
                } else if a < rest.len() {
                    assert(rest.contains(rest[a]));
                } else if b < rest.len() {
                    assert(rest.contains(rest[b]));
                }
            }
        }
    }
}

/// βₖ = nₖ − rank ∂ₖ − rank ∂ₖ₊₁: for the boundary matrix of a simplicial
/// complex whose faces are listed before their cofaces, the rank of the
/// columns of dimension k (the size of a largest independent set of them
/// over Z/2Z) is the number of non-zero reduced columns of dimension k, and
/// the Betti number βₖ (the unpaired columns of dimension k) is the number
/// nₖ of k-simplices less the ranks of ∂ₖ and ∂ₖ₊₁.
pub proof fn betti_is_rank_formula(ss: Seq<Seq<usize>>, m: MatrixModel, r: ReductionModel, k: usize)
    requires
        ss.len() <= usize::MAX,
        forall|i: int| 0 <= i < ss.len() ==> (#[trigger] ss[i]).len() <= usize::MAX,
        simplicial_complex(ss),
        faces_precede(ss),
        m.wf(),
        m.columns.len() == ss.len(),
        forall|i: int| 0 <= i < ss.len() ==> (#[trigger] m.columns[i]).to_set() == face_rows(ss, i),
        m.simplex_dims == Seq::new(ss.len(), |i: int| dim_of(ss[i])),
        reduces_to(m, r),
    ensures
        is_rank(
            m.columns,
            m.simplex_dims,
            k as int,
            sel_size(nonzero_of_dim(r.matrix.columns, m.simplex_dims, k as int)),
        ),
        is_rank(
            m.columns,
            m.simplex_dims,
            k + 1,
            sel_size(nonzero_of_dim(r.matrix.columns, m.simplex_dims, k + 1)),
        ),
        cols_in_dim(r.unpaired, r.matrix.simplex_dims, k).len() == sel_size(
            of_dim(ss.len(), m.simplex_dims, k as int),
        ) - sel_size(nonzero_of_dim(r.matrix.columns, m.simplex_dims, k as int)) - sel_size(
            nonzero_of_dim(r.matrix.columns, m.simplex_dims, k + 1),
        ),
{
    broadcast use vstd::set::group_set_axioms, vstd::seq_lib::seq_to_set_is_finite;

    let d = m.columns;
    let n = d.len();
    let dims = m.simplex_dims;
    let rc = r.matrix.columns;
    assert(all_sorted(d));
    lemma_faces_graded(ss, d);
    faces_first_gives_upper_triangular(ss, d);
    boundary_of_boundary_vanishes(ss, d);
    rank_is_reduced_pivot_count(d, dims, k as int);
    rank_is_reduced_pivot_count(d, dims, k + 1);
    pivots_index_zero_columns(d);
    reduction_keeps_upper_triangular(d);
    deaths_are_one_dimension_up(d, dims);
    lemma_distinct_pivots(d);
    lemma_owner_map(rc);
    let own = owner_map(rc);
    let zk = nonzero_of_dim(rc, dims, k as int);
    let zk1 = nonzero_of_dim(rc, dims, k + 1);
    let ok = of_dim(n, dims, k as int);
    lemma_mask_set(zk);
    lemma_mask_set(zk1);
    lemma_mask_set(ok);
    let all_k = mask_set(ok);
    let deaths_k = mask_set(zk);
    let deaths_k1 = mask_set(zk1);
    let births_k = Set::new(|j: usize| j < n && dims[j as int] == k && own.contains_key(j));
    let unp_k = Set::new(|j: usize| j < n && dims[j as int] == k && is_unpaired(rc, j));
    // The Betti number counts the unpaired columns of dimension k.
    let bk = cols_in_dim(r.unpaired, dims, k);
    lemma_cols_in_dim_set(r.unpaired, dims, k);
    bk.unique_seq_to_set();
    assert(bk.to_set() =~= unp_k) by {
        assert forall|j: usize| bk.to_set().contains(j) == unp_k.contains(j) by {
            assert(bk.contains(j) <==> (r.unpaired.contains(j) && dims[j as int] == k));
            assert(r.unpaired.contains(j) <==> is_unpaired(rc, j));
        }
    }
    // Births of dimension k match deaths of dimension k + 1.
    let f = |j: usize| own[j];
    assert(births_k.subset_of(all_k));
    vstd::set_lib::lemma_set_subset_finite(all_k, births_k);
    assert(injective_on(f, births_k)) by {
        assert forall|j1: usize, j2: usize|
            births_k.contains(j1) && births_k.contains(j2) && #[trigger] f(j1) == #[trigger] f(j2) implies j1
            == j2 by {
            assert(rc[own[j1] as int].last() == j1);
            assert(rc[own[j2] as int].last() == j2);
        }
    }
    assert(births_k.map(f) =~= deaths_k1) by {
        assert forall|i: usize| births_k.map(f).contains(i) <==> deaths_k1.contains(i) by {
            if births_k.map(f).contains(i) {
                let j = choose|j: usize| births_k.contains(j) && f(j) == i;
                let c = rc[i as int];
                assert(c.len() > 0 && c.last() == j);
                assert(c.contains(j)) by {
                    assert(c[c.len() - 1] == j);
                }
                assert(dims[j as int] + 1 == dims[i as int]);
                assert(zk1[i as int]);
            }
            if deaths_k1.contains(i) {
                assert(zk1[i as int]);
                let c = rc[i as int];
                let j = c.last();
                assert(c.contains(j)) by {
                    assert(c[c.len() - 1] == j);
                }
                assert(j < i);
                assert(dims[j as int] + 1 == dims[i as int]);
                assert(own.contains_key(j));
                let i2 = own[j];
                assert(rc[i2 as int].len() > 0 && rc[i2 as int].last() == j);
                if i2 != i {
                    assert(rc[i2 as int].last() != rc[i as int].last());
                }
                assert(births_k.contains(j) && f(j) == i);
            }
        }
    }
    vstd::set_lib::lemma_map_size(births_k, deaths_k1, f);
    // The columns of dimension k are the deaths, births and unpaired ones.
    assert(deaths_k.disjoint(births_k)) by {
        assert forall|j: usize| deaths_k.contains(j) implies !births_k.contains(j) by {
            assert(zk[j as int]);
            if own.contains_key(j) {
                assert(owner_map(reduction_of(d)).contains_key((j as int) as usize));
            }
        }
    }
    assert((deaths_k + births_k).disjoint(unp_k));
    assert(deaths_k + births_k + unp_k =~= all_k) by {
        assert forall|j: usize| all_k.contains(j) == (deaths_k + births_k + unp_k).contains(j) by {
            if all_k.contains(j) {
                assert(ok[j as int]);
                if !zk[j as int] && !own.contains_key(j) {
                    assert(is_unpaired(rc, j));
                }
            }
            if deaths_k.contains(j) {
                assert(zk[j as int]);
            }
        }
    }
    assert(unp_k.subset_of(all_k));
    vstd::set_lib::lemma_set_subset_finite(all_k, unp_k);
    vstd::set_lib::lemma_set_disjoint_lens(deaths_k, births_k);
    vstd::set_lib::lemma_set_disjoint_lens(deaths_k + births_k, unp_k);
}


/// (−1)ᵗ.
pub open spec fn sign(t: nat) -> int {
    if t % 2 == 0 {
        1
    } else {
        -1
    }
}

/// Σₖ≤t (−1)ᵏ βₖ, with βₖ the number of unpaired columns of dimension k.
pub open spec fn betti_alt_sum(unpaired: Seq<usize>, dims: Seq<usize>, t: nat) -> int
    decreases t,
{
    let b = cols_in_dim(unpaired, dims, t as usize).len() as int;
    if t == 0 {
        b
    } else {
        betti_alt_sum(unpaired, dims, (t - 1) as nat) + sign(t) * b
    }
}

/// Σₖ≤t (−1)ᵏ nₖ, with nₖ the number of the `n` simplices of dimension k.
pub open spec fn simplex_alt_sum(n: nat, dims: Seq<usize>, t: nat) -> int
    decreases t,
{
    let c = sel_size(of_dim(n, dims, t as int)) as int;
    if t == 0 {
        c
    } else {
        simplex_alt_sum(n, dims, (t - 1) as nat) + sign(t) * c
    }
}

/// A selection with nothing selected has size zero.
proof fn lemma_nothing_selected(a: Seq<bool>)
    requires
        forall|j: int| 0 <= j < a.len() ==> !#[trigger] a[j],
    ensures
        sel_size(a) == 0,
{
    assert(a =~= no_sel(a.len()));
    lemma_size_zero(a);
}

/// The Euler characteristic: for the boundary matrix of a simplicial
/// complex whose faces are listed before their cofaces, the alternating sum
/// of the Betti numbers equals the alternating sum of the numbers of
/// simplices of each dimension, Σₖ (−1)ᵏ βₖ = Σₖ (−1)ᵏ nₖ, over the
/// dimensions 0 to `top` for any `top` at least the largest simplex
/// dimension.
pub proof fn euler_characteristic(ss: Seq<Seq<usize>>, m: MatrixModel, r: ReductionModel, top: usize)
    requires
        ss.len() <= usize::MAX,
        forall|i: int| 0 <= i < ss.len() ==> (#[trigger] ss[i]).len() <= usize::MAX,
        simplicial_complex(ss),
        faces_precede(ss),
        m.wf(),
        m.columns.len() == ss.len(),
        forall|i: int| 0 <= i < ss.len() ==> (#[trigger] m.columns[i]).to_set() == face_rows(ss, i),
        m.simplex_dims == Seq::new(ss.len(), |i: int| dim_of(ss[i])),
        reduces_to(m, r),
        top < usize::MAX,
        forall|i: int| 0 <= i < ss.len() ==> #[trigger] m.simplex_dims[i] <= top,
    ensures
        betti_alt_sum(r.unpaired, r.matrix.simplex_dims, top as nat) == simplex_alt_sum(
            ss.len(),
            m.simplex_dims,
            top as nat,
        ),
{
    let d = m.columns;
    let dims = m.simplex_dims;
    let rc = r.matrix.columns;
    assert(all_sorted(d));
    lemma_faces_graded(ss, d);
    deaths_are_one_dimension_up(d, dims);
    lemma_distinct_pivots(d);
    // No reduced column of dimension 0 is non-zero, nor any of dimension
    // above `top`.
    assert forall|j: int| 0 <= j < rc.len() implies !#[trigger] nonzero_of_dim(rc, dims, 0)[j] by {
        if rc[j].len() > 0 {
            assert(rc[j].contains(rc[j][0]));
        }
    }
    lemma_nothing_selected(nonzero_of_dim(rc, dims, 0));
    assert forall|j: int| 0 <= j < rc.len() implies !#[trigger] nonzero_of_dim(rc, dims, top + 1)[j] by {
        assert(dims[j] <= top);
    }
    lemma_nothing_selected(nonzero_of_dim(rc, dims, top + 1));
    lemma_euler_prefix(ss, m, r, top, top as nat);
}

/// Up to dimension `t`, the alternating sums differ by the last rank:
/// Σₖ≤t (−1)ᵏ βₖ = Σₖ≤t (−1)ᵏ nₖ − (−1)ᵗ rank ∂ₜ₊₁.
proof fn lemma_euler_prefix(ss: Seq<Seq<usize>>, m: MatrixModel, r: ReductionModel, top: usize, t: nat)
    requires
        ss.len() <= usize::MAX,
        forall|i: int| 0 <= i < ss.len() ==> (#[trigger] ss[i]).len() <= usize::MAX,
        simplicial_complex(ss),
        faces_precede(ss),
        m.wf(),
        m.columns.len() == ss.len(),
        forall|i: int| 0 <= i < ss.len() ==> (#[trigger] m.columns[i]).to_set() == face_rows(ss, i),
        m.simplex_dims == Seq::new(ss.len(), |i: int| dim_of(ss[i])),
        reduces_to(m, r),
        top < usize::MAX,
        t <= top,
        sel_size(nonzero_of_dim(r.matrix.columns, m.simplex_dims, 0)) == 0,
    ensures
        betti_alt_sum(r.unpaired, r.matrix.simplex_dims, t) == simplex_alt_sum(ss.len(), m.simplex_dims, t)
            - sign(t) * sel_size(nonzero_of_dim(r.matrix.columns, m.simplex_dims, (t + 1) as int)),
    decreases t,
{
    let dims = m.simplex_dims;
    let rc = r.matrix.columns;
    betti_is_rank_formula(ss, m, r, t as usize);
    let b = cols_in_dim(r.unpaired, r.matrix.simplex_dims, t as usize).len() as int;
    let c = sel_size(of_dim(ss.len(), dims, t as int)) as int;
    let z0 = sel_size(nonzero_of_dim(rc, dims, t as int)) as int;
    let z1 = sel_size(nonzero_of_dim(rc, dims, (t + 1) as int)) as int;
    assert(b == c - z0 - z1);
    if t > 0 {
        lemma_euler_prefix(ss, m, r, top, (t - 1) as nat);
        if t % 2 == 0 {
            assert(sign(t) == 1 && sign((t - 1) as nat) == -1);
        } else {
            assert(sign(t) == -1 && sign((t - 1) as nat) == 1);
        }
    }
}

} // verus!
