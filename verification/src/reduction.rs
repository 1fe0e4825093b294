//! Column reduction of boundary matrices over Z/2Z.
//!
//! Columns are processed left to right. While the pivot (largest row) of
//! column j is already the pivot of an earlier reduced column k, column k is
//! added (XOR) into column j. The column then either vanishes or keeps a pivot
//! that no earlier column has, which is recorded in the pivot map
//! `pivot row → column`.
use std::collections::HashMap;

use vstd::prelude::*;

use crate::barcode::Barcode;
use crate::betti::{betti_sum, cols_in_dim, max_dim_prefix, BettiNumbers};
use crate::boundary::{upper_triangular, BoundaryMatrix, MatrixModel};
use crate::column::{
    lemma_push_contains, lemma_sorted_last, lemma_sorted_xor, sorted_xor, strictly_sorted, sym_diff,
};

verus! {

/// For a list of reduced columns, the map from each pivot row to the column
/// holding it.
pub open spec fn owner_map(done: Seq<Seq<usize>>) -> Map<usize, usize>
    decreases done.len(),
{
    if done.len() == 0 {
        Map::empty()
    } else {
        let o = owner_map(done.drop_last());
        let c = done.last();
        if c.len() > 0 {
            o.insert(c.last(), (done.len() - 1) as usize)
        } else {
            o
        }
    }
}

/// One more than the pivot of a column, or 0 for the zero column.
pub open spec fn pivot_measure(c: Seq<usize>) -> nat {
    if c.len() == 0 {
        0
    } else {
        c.last() as nat + 1
    }
}

/// Adding two strictly increasing columns with the same pivot gives a column
/// whose rows all lie below that pivot.
pub proof fn lemma_xor_lowers_pivot(a: Seq<usize>, b: Seq<usize>)
    requires
        strictly_sorted(a),
        strictly_sorted(b),
        a.len() > 0,
        b.len() > 0,
        a.last() == b.last(),
    ensures
        forall|x: usize| sorted_xor(a, b).contains(x) ==> x < a.last(),
        pivot_measure(sorted_xor(a, b)) < pivot_measure(a),
{
    lemma_sorted_xor(a, b);
    lemma_sorted_last(a);
    lemma_sorted_last(b);
    let r = sorted_xor(a, b);
    assert forall|x: usize| r.contains(x) implies x < a.last() by {
        if a.contains(x) {
            let i = choose|i: int| 0 <= i < a.len() && a[i] == x;
            assert(x <= a.last());
        }
        if b.contains(x) {
            let i = choose|i: int| 0 <= i < b.len() && b[i] == x;
            assert(x <= b.last());
        }
    }
    if r.len() > 0 {
        assert(r.contains(r.last())) by {
            assert(r[r.len() - 1] == r.last());
        }
    }
}

/// Whether the earlier reduced columns `done` hold a column whose pivot is
/// the pivot of `c`, so that adding it cancels that pivot.
pub open spec fn pivot_clash(c: Seq<usize>, done: Seq<Seq<usize>>) -> bool {
    let own = owner_map(done);
    &&& c.len() > 0
    &&& own.contains_key(c.last())
    &&& own[c.last()] < done.len()
    &&& done[own[c.last()] as int].len() > 0
    &&& done[own[c.last()] as int].last() == c.last()
    &&& strictly_sorted(c)
    &&& strictly_sorted(done[own[c.last()] as int])
}

/// Reduce column `c` against the earlier reduced columns `done`: while its
/// pivot is the pivot of an earlier column, add that column into it.
pub open spec fn eliminate(c: Seq<usize>, done: Seq<Seq<usize>>) -> Seq<usize>
    decreases pivot_measure(c),
{
    if pivot_clash(c, done) {
        let k = owner_map(done)[c.last()];
        proof {
            lemma_xor_lowers_pivot(c, done[k as int]);
        }
        eliminate(sorted_xor(c, done[k as int]), done)
    } else {
        c
    }
}

/// The first `j` columns of the reduction of the columns `d`, each reduced
/// against the reduced columns before it.
pub open spec fn reduced_columns(d: Seq<Seq<usize>>, j: nat) -> Seq<Seq<usize>>
    decreases j,
{
    if j == 0 {
        Seq::empty()
    } else {
        let prev = reduced_columns(d, (j - 1) as nat);
        prev.push(eliminate(d[j - 1], prev))
    }
}

/// The reduction of all columns of `d`.
pub open spec fn reduction_of(d: Seq<Seq<usize>>) -> Seq<Seq<usize>> {
    reduced_columns(d, d.len())
}

/// `(row, col)` is a persistence pair of the reduced columns `r`: column
/// `col` is not zero and its pivot is `row`.
pub open spec fn is_pair(r: Seq<Seq<usize>>, x: (usize, usize)) -> bool {
    &&& x.1 < r.len()
    &&& r[x.1 as int].len() > 0
    &&& r[x.1 as int].last() == x.0
}

/// Column `j` of the reduced columns `r` is unpaired: it is zero and its
/// index is the pivot of no column.
pub open spec fn is_unpaired(r: Seq<Seq<usize>>, j: usize) -> bool {
    &&& j < r.len()
    &&& r[j as int].len() == 0
    &&& !owner_map(r).contains_key(j)
}

/// Every column is strictly increasing.
pub open spec fn all_sorted(cols: Seq<Seq<usize>>) -> bool {
    forall|k: int| 0 <= k < cols.len() ==> strictly_sorted(#[trigger] cols[k])
}

/// The pivot map sends each pivot row to a column holding that pivot, and
/// every non-zero column's pivot is in the map.
pub proof fn lemma_owner_map(done: Seq<Seq<usize>>)
    requires
        done.len() <= usize::MAX,
    ensures
        forall|p: usize| #[trigger]
            owner_map(done).contains_key(p) ==> {
                &&& owner_map(done)[p] < done.len()
                &&& done[owner_map(done)[p] as int].len() > 0
                &&& done[owner_map(done)[p] as int].last() == p
            },
        forall|k: int|
            0 <= k < done.len() && #[trigger] done[k].len() > 0 ==> owner_map(done).contains_key(
                done[k].last(),
            ),
    decreases done.len(),
{
    if done.len() > 0 {
        let prev = done.drop_last();
        lemma_owner_map(prev);
        let o = owner_map(prev);
        let c = done.last();
        let n = done.len() - 1;
        assert forall|p: usize| #[trigger] owner_map(done).contains_key(p) implies {
            &&& owner_map(done)[p] < done.len()
            &&& done[owner_map(done)[p] as int].len() > 0
            &&& done[owner_map(done)[p] as int].last() == p
        } by {
            if c.len() > 0 && p == c.last() {
                assert(owner_map(done)[p] == n);
            } else {
                assert(o.contains_key(p));
                assert(owner_map(done)[p] == o[p]);
                assert(done[o[p] as int] == prev[o[p] as int]);
            }
        }
        assert forall|k: int|
            0 <= k < done.len() && #[trigger] done[k].len() > 0 implies owner_map(done).contains_key(
            done[k].last()) by {
            if k < n {
                assert(done[k] == prev[k]);
                assert(o.contains_key(prev[k].last()));
            }
        }
    }
}

/// The reduction of a strictly increasing column is strictly increasing, and
/// its pivot, if any, is the pivot of no earlier column.
pub proof fn lemma_eliminate(c: Seq<usize>, done: Seq<Seq<usize>>)
    requires
        done.len() <= usize::MAX,
        strictly_sorted(c),
        all_sorted(done),
    ensures
        strictly_sorted(eliminate(c, done)),
        eliminate(c, done).len() > 0 ==> !owner_map(done).contains_key(eliminate(c, done).last()),
    decreases pivot_measure(c),
{
    lemma_owner_map(done);
    if pivot_clash(c, done) {
        let k = owner_map(done)[c.last()];
        lemma_xor_lowers_pivot(c, done[k as int]);
        lemma_sorted_xor(c, done[k as int]);
        lemma_eliminate(sorted_xor(c, done[k as int]), done);
    } else {
        if c.len() > 0 && owner_map(done).contains_key(c.last()) {
            let k = owner_map(done)[c.last()];
            assert(strictly_sorted(done[k as int]));
        }
    }
}

/// The reduced columns are strictly increasing and no two non-zero reduced
/// columns share a pivot.
pub proof fn lemma_reduced_columns(d: Seq<Seq<usize>>, j: nat)
    requires
        j <= d.len(),
        d.len() <= usize::MAX,
        all_sorted(d),
    ensures
        reduced_columns(d, j).len() == j,
        all_sorted(reduced_columns(d, j)),
        forall|k1: int, k2: int|
            0 <= k1 < k2 < j && reduced_columns(d, j)[k1].len() > 0 && reduced_columns(d, j)[k2].len() > 0
                ==> #[trigger] reduced_columns(d, j)[k1].last() != #[trigger] reduced_columns(d, j)[k2].last(),
    decreases j,
{
    if j > 0 {
        let prev = reduced_columns(d, (j - 1) as nat);
        lemma_reduced_columns(d, (j - 1) as nat);
        assert(strictly_sorted(d[j - 1]));
        lemma_eliminate(d[j - 1], prev);
        lemma_owner_map(prev);
        let r = reduced_columns(d, j);
        assert(r == prev.push(eliminate(d[j - 1], prev)));
        assert forall|k: int| 0 <= k < r.len() implies strictly_sorted(#[trigger] r[k]) by {
            if k < prev.len() {
                assert(r[k] == prev[k]);
            }
        }
        assert forall|k1: int, k2: int|
            0 <= k1 < k2 < j && r[k1].len() > 0 && r[k2].len() > 0
                implies #[trigger] r[k1].last() != #[trigger] r[k2].last() by {
            assert(r[k1] == prev[k1]);
            if k2 < j - 1 {
                assert(r[k2] == prev[k2]);
            } else {
                assert(owner_map(prev).contains_key(prev[k1].last()));
            }
        }
    }
}

/// The sum over Z/2Z of the columns of `cols` listed in `idx` (an index
/// listed twice cancels).
pub open spec fn xor_of(cols: Seq<Seq<usize>>, idx: Seq<int>) -> Set<usize>
    decreases idx.len(),
{
    if idx.len() == 0 {
        Set::empty()
    } else {
        sym_diff(xor_of(cols, idx.drop_last()), cols[idx.last()].to_set())
    }
}

/// Every index listed lies in `0..j`.
pub open spec fn indices_below(idx: Seq<int>, j: int) -> bool {
    forall|i: int| 0 <= i < idx.len() ==> 0 <= #[trigger] idx[i] < j
}

/// Summing the columns of two index lists one after the other.
pub proof fn lemma_xor_of_concat(cols: Seq<Seq<usize>>, a: Seq<int>, b: Seq<int>)
    ensures
        xor_of(cols, a + b) == sym_diff(xor_of(cols, a), xor_of(cols, b)),
    decreases b.len(),
{
    if b.len() == 0 {
        assert(a + b =~= a);
        assert(sym_diff(xor_of(cols, a), Set::empty()) =~= xor_of(cols, a));
    } else {
        lemma_xor_of_concat(cols, a, b.drop_last());
        assert((a + b).drop_last() =~= a + b.drop_last());
        assert((a + b).last() == b.last());
        let x = xor_of(cols, a);
        let y = xor_of(cols, b.drop_last());
        let z = cols[b.last()].to_set();
        assert(sym_diff(sym_diff(x, y), z) =~= sym_diff(x, sym_diff(y, z)));
    }
}

/// Reducing a column adds to it a sum of earlier reduced columns.
pub proof fn lemma_eliminate_combination(c: Seq<usize>, done: Seq<Seq<usize>>) -> (ks: Seq<int>)
    requires
        done.len() <= usize::MAX,
        strictly_sorted(c),
        all_sorted(done),
    ensures
        indices_below(ks, done.len() as int),
        eliminate(c, done).to_set() == sym_diff(c.to_set(), xor_of(done, ks)),
    decreases pivot_measure(c),
{
    lemma_owner_map(done);
    if pivot_clash(c, done) {
        let k = owner_map(done)[c.last()] as int;
        let c2 = sorted_xor(c, done[k]);
        lemma_xor_lowers_pivot(c, done[k]);
        lemma_sorted_xor(c, done[k]);
        let rest = lemma_eliminate_combination(c2, done);
        let ks = seq![k] + rest;
        lemma_xor_of_concat(done, seq![k], rest);
        assert(seq![k].drop_last() =~= Seq::<int>::empty());
        assert(seq![k].last() == k);
        assert(xor_of(done, Seq::<int>::empty()) == Set::<usize>::empty());
        assert(xor_of(done, seq![k]) =~= done[k].to_set());
        assert(sym_diff(sym_diff(c.to_set(), done[k].to_set()), xor_of(done, rest)) =~= sym_diff(
            c.to_set(),
            sym_diff(done[k].to_set(), xor_of(done, rest)),
        ));
        assert forall|i: int| 0 <= i < ks.len() implies 0 <= #[trigger] ks[i] < done.len() by {
            if i > 0 {
                assert(ks[i] == rest[i - 1]);
            }
        }
        ks
    } else {
        let ks = Seq::<int>::empty();
        assert(sym_diff(c.to_set(), Set::empty()) =~= c.to_set());
        ks
    }
}

/// Reducing more columns leaves the earlier reduced columns as they were.
pub proof fn lemma_reduced_prefix(d: Seq<Seq<usize>>, j: nat, m: nat)
    requires
        j <= m,
    ensures
        reduced_columns(d, m).len() == m,
        reduced_columns(d, m).take(j as int) == reduced_columns(d, j),
    decreases m,
{
    if m > 0 {
        lemma_reduced_prefix(d, (j as int - if j == m { 1int } else { 0int }) as nat, (m - 1) as nat);
        if j < m {
            lemma_reduced_prefix(d, j, (m - 1) as nat);
            assert(reduced_columns(d, m).take(j as int) =~= reduced_columns(d, (m - 1) as nat).take(j as int));
        } else {
            lemma_reduced_prefix(d, (m - 1) as nat, (m - 1) as nat);
            assert(reduced_columns(d, (m - 1) as nat).take((m - 1) as int) =~= reduced_columns(d, (m - 1) as nat));
            assert(reduced_columns(d, m).take(j as int) =~= reduced_columns(d, m));
        }
    } else {
        assert(reduced_columns(d, m).take(j as int) =~= reduced_columns(d, j));
    }
}

/// Reduced column `j` is column `j` of the input plus a sum of earlier input
/// columns.
pub proof fn lemma_column_combination(d: Seq<Seq<usize>>, j: int) -> (idx: Seq<int>)
    requires
        0 <= j < d.len(),
        d.len() <= usize::MAX,
        all_sorted(d),
    ensures
        indices_below(idx, j),
        reduced_columns(d, (j + 1) as nat)[j].to_set() == sym_diff(d[j].to_set(), xor_of(d, idx)),
    decreases j + 1, 0int,
{
    let done = reduced_columns(d, j as nat);
    lemma_reduced_columns(d, j as nat);
    assert(strictly_sorted(d[j]));
    let ks = lemma_eliminate_combination(d[j], done);
    let idx = lemma_expand_combination(d, ks, j);
    assert(reduced_columns(d, (j + 1) as nat)[j] == eliminate(d[j], done));
    assert(sym_diff(d[j].to_set(), xor_of(done, ks)) == sym_diff(d[j].to_set(), xor_of(d, idx)));
    idx
}

/// A sum of reduced columns before `j` is a sum of input columns before `j`.
pub proof fn lemma_expand_combination(d: Seq<Seq<usize>>, ks: Seq<int>, j: int) -> (idx: Seq<int>)
    requires
        0 <= j < d.len(),
        d.len() <= usize::MAX,
        all_sorted(d),
        indices_below(ks, j),
    ensures
        indices_below(idx, j),
        xor_of(reduced_columns(d, j as nat), ks) == xor_of(d, idx),
    decreases j, ks.len(),
{
    if ks.len() == 0 {
        Seq::<int>::empty()
    } else {
        let k = ks.last();
        assert(0 <= ks[ks.len() - 1] < j);
        let lk = lemma_column_combination(d, k);
        assert(indices_below(ks.drop_last(), j)) by {
            assert forall|i: int| 0 <= i < ks.drop_last().len() implies 0 <= #[trigger] ks.drop_last()[i] < j by {
                assert(ks.drop_last()[i] == ks[i]);
            }
        }
        let rest = lemma_expand_combination(d, ks.drop_last(), j);
        let idx = rest + seq![k] + lk;
        lemma_reduced_prefix(d, (k + 1) as nat, j as nat);
        assert(reduced_columns(d, j as nat)[k] == reduced_columns(d, (k + 1) as nat)[k]) by {
            assert(reduced_columns(d, j as nat).take(k + 1)[k] == reduced_columns(d, j as nat)[k]);
        }
        lemma_xor_of_concat(d, seq![k], lk);
        assert(seq![k].drop_last() =~= Seq::<int>::empty());
        assert(seq![k].last() == k);
        assert(xor_of(d, Seq::<int>::empty()) == Set::<usize>::empty());
        assert(xor_of(d, seq![k]) =~= d[k].to_set());
        lemma_xor_of_concat(d, rest, seq![k] + lk);
        assert(rest + seq![k] + lk =~= rest + (seq![k] + lk));
        assert forall|i: int| 0 <= i < idx.len() implies 0 <= #[trigger] idx[i] < j by {
            if i < rest.len() {
                assert(idx[i] == rest[i]);
            } else if i == rest.len() {
                assert(idx[i] == k);
            } else {
                assert(idx[i] == lk[i - rest.len() - 1]);
            }
        }
        idx
    }
}

/// Over Z/2Z the reduction only adds earlier columns: each reduced column `j`
/// is input column `j` plus a sum of input columns before `j` (R = D·V with V
/// upper unitriangular).
pub proof fn reduction_adds_only_earlier_columns(d: Seq<Seq<usize>>, j: int)
    requires
        0 <= j < d.len(),
        d.len() <= usize::MAX,
        all_sorted(d),
    ensures
        exists|idx: Seq<int>|
            indices_below(idx, j) && reduction_of(d)[j].to_set() == sym_diff(
                d[j].to_set(),
                #[trigger] xor_of(d, idx),
            ),
{
    let idx = lemma_column_combination(d, j);
    lemma_reduced_prefix(d, (j + 1) as nat, d.len());
    assert(reduction_of(d)[j] == reduced_columns(d, (j + 1) as nat)[j]) by {
        assert(reduction_of(d).take(j + 1)[j] == reduction_of(d)[j]);
    }
}

/// In a reduced matrix no two non-zero columns share a pivot.
pub proof fn reduction_pivots_are_distinct(d: Seq<Seq<usize>>)
    requires
        d.len() <= usize::MAX,
        all_sorted(d),
    ensures
        forall|k1: int, k2: int|
            0 <= k1 < d.len() && 0 <= k2 < d.len() && k1 != k2 && reduction_of(d)[k1].len() > 0
                && reduction_of(d)[k2].len() > 0 ==> #[trigger] reduction_of(d)[k1].last()
                != #[trigger] reduction_of(d)[k2].last(),
{
    lemma_reduced_columns(d, d.len());
}

/// The pivot map and the persistence pairs describe the same pairing: the
/// map sends `row` to `col` exactly when `(row, col)` is a pair.
pub proof fn pivot_map_matches_pairs(d: Seq<Seq<usize>>)
    requires
        d.len() <= usize::MAX,
        all_sorted(d),
    ensures
        forall|x: (usize, usize)| #[trigger]
            is_pair(reduction_of(d), x) <==> (owner_map(reduction_of(d)).contains_key(x.0)
                && owner_map(reduction_of(d))[x.0] == x.1),
{
    let r = reduction_of(d);
    lemma_reduced_columns(d, d.len());
    lemma_owner_map(r);
    assert forall|x: (usize, usize)| #[trigger]
        is_pair(r, x) <==> (owner_map(r).contains_key(x.0) && owner_map(r)[x.0] == x.1) by {
        if is_pair(r, x) {
            assert(owner_map(r).contains_key(r[x.1 as int].last()));
            let k = owner_map(r)[x.0];
            if k != x.1 {
                if k < x.1 {
                    assert(r[k as int].last() != r[x.1 as int].last());
                } else {
                    assert(r[x.1 as int].last() != r[k as int].last());
                }
            }
        }
    }
}

/// Reducing a column keeps its rows below `j` when the column and all earlier
/// reduced columns have rows below `j`.
pub proof fn lemma_eliminate_below(c: Seq<usize>, done: Seq<Seq<usize>>, j: int)
    requires
        done.len() <= usize::MAX,
        strictly_sorted(c),
        all_sorted(done),
        forall|x: usize| #[trigger] c.contains(x) ==> x < j,
        forall|k: int, x: usize| 0 <= k < done.len() && #[trigger] done[k].contains(x) ==> x < j,
    ensures
        forall|x: usize| #[trigger] eliminate(c, done).contains(x) ==> x < j,
    decreases pivot_measure(c),
{
    lemma_owner_map(done);
    if pivot_clash(c, done) {
        let k = owner_map(done)[c.last()] as int;
        lemma_xor_lowers_pivot(c, done[k]);
        lemma_sorted_xor(c, done[k]);
        let c2 = sorted_xor(c, done[k]);
        assert forall|x: usize| #[trigger] c2.contains(x) implies x < j by {
            if done[k].contains(x) {
            }
        }
        lemma_eliminate_below(c2, done, j);
        assert(eliminate(c, done) == eliminate(c2, done));
    } else {
        assert(eliminate(c, done) == c);
    }
}

/// Reduction keeps a matrix upper triangular, so every persistence pair
/// `(birth, death)` has `birth < death`.
pub proof fn reduction_keeps_upper_triangular(d: Seq<Seq<usize>>)
    requires
        d.len() <= usize::MAX,
        all_sorted(d),
        upper_triangular(d),
    ensures
        upper_triangular(reduction_of(d)),
        forall|x: (usize, usize)| #[trigger] is_pair(reduction_of(d), x) ==> x.0 < x.1,
{
    lemma_upper_triangular_prefix(d, d.len());
    let r = reduction_of(d);
    lemma_reduced_columns(d, d.len());
    assert forall|x: (usize, usize)| #[trigger] is_pair(r, x) implies x.0 < x.1 by {
        let c = r[x.1 as int];
        assert(c.contains(c.last())) by {
            assert(c[c.len() - 1] == c.last());
        }
    }
}

/// The first `j` reduced columns of an upper triangular matrix are upper
/// triangular.
pub proof fn lemma_upper_triangular_prefix(d: Seq<Seq<usize>>, j: nat)
    requires
        j <= d.len(),
        d.len() <= usize::MAX,
        all_sorted(d),
        upper_triangular(d),
    ensures
        upper_triangular(reduced_columns(d, j)),
    decreases j,
{
    if j > 0 {
        let prev = reduced_columns(d, (j - 1) as nat);
        lemma_upper_triangular_prefix(d, (j - 1) as nat);
        lemma_reduced_columns(d, (j - 1) as nat);
        let r = reduced_columns(d, j);
        assert forall|k: int, x: usize| 0 <= k < prev.len() && #[trigger] prev[k].contains(x) implies x < j - 1 by {
            assert(x < k);
        }
        assert(strictly_sorted(d[j - 1]));
        let dj = d[j - 1];
        assert forall|x: usize| #[trigger] dj.contains(x) implies x < j - 1 by {}
        lemma_eliminate_below(d[j - 1], prev, j - 1);
        assert forall|k: int, x: usize| 0 <= k < r.len() && #[trigger] r[k].contains(x) implies x < k by {
            if k < j - 1 {
                assert(r[k] == prev[k]);
            }
        }
    }
}

/// What a reduction holds: the reduced matrix, the pivot map, the persistence
/// pairs `(birth, death)` and the unpaired columns.
pub struct ReductionModel {
    pub matrix: MatrixModel,
    pub pivots: Map<usize, usize>,
    pub pairs: Seq<(usize, usize)>,
    pub unpaired: Seq<usize>,
}

/// The result of reducing a boundary matrix.
#[derive(Debug, Clone)]
pub struct ReducedMatrix {
    reduced: BoundaryMatrix,
    pivots: HashMap<usize, usize>,
    pairs: Vec<(usize, usize)>,
    unpaired: Vec<usize>,
}

impl View for ReducedMatrix {
    type V = ReductionModel;

    closed spec fn view(&self) -> ReductionModel {
        ReductionModel {
            matrix: self.reduced@,
            pivots: self.pivots@,
            pairs: self.pairs@,
            unpaired: self.unpaired@,
        }
    }
}

impl ReducedMatrix {
    /// Get a reference to the reduced boundary matrix.
    pub fn reduced_matrix(&self) -> (r: &BoundaryMatrix)
        ensures
            r@ == self@.matrix,
    {
        &self.reduced
    }

    /// Get the pivot map (row → column).
    pub fn pivots(&self) -> (r: &HashMap<usize, usize>)
        ensures
            r@ == self@.pivots,
    {
        &self.pivots
    }

    /// Get the persistence pairs (birth_col, death_col).
    pub fn pairs(&self) -> (r: &[(usize, usize)])
        ensures
            r@ == self@.pairs,
    {
        self.pairs.as_slice()
    }

    /// Get unpaired column indices (infinite bars).
    pub fn unpaired(&self) -> (r: &[usize])
        ensures
            r@ == self@.unpaired,
    {
        self.unpaired.as_slice()
    }

    /// Extract the barcode from this reduced matrix.
    pub fn barcode(&self) -> (b: Barcode)
        requires
            forall|i: int|
                0 <= i < self@.pairs.len() ==> (#[trigger] self@.pairs[i]).0
                    < self@.matrix.simplex_dims.len(),
            forall|i: int|
                0 <= i < self@.unpaired.len() ==> #[trigger] self@.unpaired[i]
                    < self@.matrix.simplex_dims.len(),
        ensures
            b@.finite == self@.pairs.map_values(
                |p: (usize, usize)| (p.0, p.1, self@.matrix.simplex_dims[p.0 as int]),
            ),
            b@.infinite == self@.unpaired.map_values(
                |u: usize| (u, self@.matrix.simplex_dims[u as int]),
            ),
    {
        Barcode::from_reduced(self)
    }

    /// Compute Betti numbers from this reduced matrix.
    pub fn betti_numbers(&self) -> (b: BettiNumbers)
        requires
            self@.matrix.columns.len() <= self@.matrix.simplex_dims.len(),
            forall|i: int|
                0 <= i < self@.unpaired.len() ==> #[trigger] self@.unpaired[i]
                    < self@.matrix.columns.len(),
        ensures
            b@.wf(),
            forall|k: usize| #[trigger]
                b@.at(k) == cols_in_dim(self@.unpaired, self@.matrix.simplex_dims, k).len(),
            betti_sum(b@, b@.max_dim as nat) == self@.unpaired.len(),
            b@.max_dim == max_dim_prefix(self@.matrix.simplex_dims, self@.matrix.columns.len()),
    {
        BettiNumbers::from_reduced(self)
    }
}

/// Whether a list of pairs is strictly increasing in its first component.
pub open spec fn sorted_by_birth(s: Seq<(usize, usize)>) -> bool {
    forall|i: int, j: int| 0 <= i < j < s.len() ==> s[i].0 < s[j].0
}

/// What `reduce` promises of its result `r` for the matrix `m`.
pub open spec fn reduces_to(m: MatrixModel, r: ReductionModel) -> bool {
    &&& r.matrix.columns == reduction_of(m.columns)
    &&& r.matrix.num_rows == m.num_rows
    &&& r.matrix.simplex_dims == m.simplex_dims
    &&& r.pivots == owner_map(r.matrix.columns)
    &&& sorted_by_birth(r.pairs)
    &&& forall|x: (usize, usize)| #[trigger] r.pairs.contains(x) <==> is_pair(r.matrix.columns, x)
    &&& strictly_sorted(r.unpaired)
    &&& forall|j: usize| #[trigger] r.unpaired.contains(j) <==> is_unpaired(r.matrix.columns, j)
}

/// Two lists strictly increasing in the first component with the same
/// elements are equal.
proof fn lemma_by_birth_unique(a: Seq<(usize, usize)>, b: Seq<(usize, usize)>)
    requires
        sorted_by_birth(a),
        sorted_by_birth(b),
        forall|x: (usize, usize)| a.contains(x) <==> b.contains(x),
    ensures
        a == b,
    decreases a.len(),
{
    if a.len() == 0 {
        if b.len() > 0 {
            assert(b.contains(b[0]));
        }
        assert(a =~= b);
    } else {
        assert(a.contains(a[a.len() - 1]));
        assert(b.len() > 0);
        assert(b.contains(b[b.len() - 1]));
        let i = choose|i: int| 0 <= i < b.len() && b[i] == a[a.len() - 1];
        let k = choose|k: int| 0 <= k < a.len() && a[k] == b[b.len() - 1];
        if i < b.len() - 1 {
            assert(b[i].0 < b[b.len() - 1].0);
            if k < a.len() - 1 {
                assert(a[k].0 < a[a.len() - 1].0);
            }
            assert(false);
        }
        let a0 = a.drop_last();
        let b0 = b.drop_last();
        assert forall|i: int, j: int| 0 <= i < j < a0.len() implies a0[i].0 < a0[j].0 by {
            assert(a0[i] == a[i] && a0[j] == a[j]);
        }
        assert forall|i: int, j: int| 0 <= i < j < b0.len() implies b0[i].0 < b0[j].0 by {
            assert(b0[i] == b[i] && b0[j] == b[j]);
        }
        assert forall|x: (usize, usize)| a0.contains(x) <==> b0.contains(x) by {
            if a0.contains(x) {
                let p = choose|p: int| 0 <= p < a0.len() && a0[p] == x;
                assert(a[p] == x);
                assert(a.contains(x));
                let q = choose|q: int| 0 <= q < b.len() && b[q] == x;
                assert(x.0 < a[a.len() - 1].0);
                assert(q < b.len() - 1);
                assert(b0[q] == x);
            }
            if b0.contains(x) {
                let p = choose|p: int| 0 <= p < b0.len() && b0[p] == x;
                assert(b[p] == x);
                assert(b.contains(x));
                let q = choose|q: int| 0 <= q < a.len() && a[q] == x;
                assert(x.0 < b[b.len() - 1].0);
                assert(q < a.len() - 1);
                assert(a0[q] == x);
            }
        }
        lemma_by_birth_unique(a0, b0);
        assert(a =~= a0.push(a[a.len() - 1]));
        assert(b =~= b0.push(b[b.len() - 1]));
    }
}

/// Reduction is deterministic: the result that `reduce` promises for a
/// matrix is unique, so reducing the same matrix twice gives equal results.
pub proof fn reduction_is_unique(m: MatrixModel, r1: ReductionModel, r2: ReductionModel)
    requires
        reduces_to(m, r1),
        reduces_to(m, r2),
    ensures
        r1 == r2,
{
    lemma_by_birth_unique(r1.pairs, r2.pairs);
    assert forall|j: usize| r1.unpaired.contains(j) <==> r2.unpaired.contains(j) by {
        assert(r1.unpaired.contains(j) <==> is_unpaired(r1.matrix.columns, j));
        assert(r2.unpaired.contains(j) <==> is_unpaired(r2.matrix.columns, j));
    }
    crate::column::lemma_sorted_unique(r1.unpaired, r2.unpaired);
    assert(r1.matrix == r2.matrix);
}

/// Insert a pair into a list kept strictly increasing in the first component.
fn insert_by_birth(v: &mut Vec<(usize, usize)>, x: (usize, usize))
    requires
        sorted_by_birth(old(v)@),
        forall|i: int| 0 <= i < old(v)@.len() ==> old(v)@[i].0 != x.0,
    ensures
        sorted_by_birth(final(v)@),
        final(v)@.len() == old(v)@.len() + 1,
        forall|y: (usize, usize)| #[trigger]
            final(v)@.contains(y) <==> (old(v)@.contains(y) || y == x),
{
    let mut pos: usize = 0;
    while pos < v.len() && v[pos].0 < x.0
        invariant
            pos <= v.len(),
            v@ == old(v)@,
            forall|i: int| 0 <= i < pos ==> v@[i].0 < x.0,
        decreases v.len() - pos,
    {
        pos += 1;
    }
    let ghost s = v@;
    v.insert(pos, x);
    assert(v@ =~= s.subrange(0, pos as int).push(x) + s.subrange(pos as int, s.len() as int));
    assert forall|i: int, j: int| 0 <= i < j < v@.len() implies v@[i].0 < v@[j].0 by {
        if j < pos {
        } else if j == pos {
        } else if i < pos {
            assert(v@[j] == s[j - 1]);
            assert(s[j - 1].0 != x.0);
            if pos < s.len() {
                assert(s[pos as int].0 >= x.0);
                assert(s[pos as int].0 <= s[j - 1].0);
            }
        } else if i == pos {
            assert(v@[j] == s[j - 1]);
            assert(s[j - 1].0 != x.0);
            assert(s[pos as int].0 >= x.0);
            assert(s[pos as int].0 <= s[j - 1].0);
        } else {
            assert(v@[i] == s[i - 1] && v@[j] == s[j - 1]);
        }
    }
    assert forall|y: (usize, usize)| #[trigger] v@.contains(y) <==> (s.contains(y) || y == x) by {
        if v@.contains(y) {
            let k = choose|k: int| 0 <= k < v@.len() && v@[k] == y;
            if k < pos {
                assert(s[k] == y);
            } else if k > pos {
                assert(s[k - 1] == y);
            }
        }
        if s.contains(y) {
            let k = choose|k: int| 0 <= k < s.len() && s[k] == y;
            if k < pos {
                assert(v@[k] == y);
            } else {
                assert(v@[k + 1] == y);
            }
        }
        if y == x {
            assert(v@[pos as int] == y);
        }
    }
}

impl BoundaryMatrix {
    /// Reduce this boundary matrix by left-to-right column reduction over
    /// Z/2Z.
    ///
    /// The reduced columns are `reduction_of` the matrix's columns; the pivot
    /// map sends each pivot row to its column; the pairs are the
    /// `(pivot row, column)` of the non-zero reduced columns in increasing
    /// pivot order; the unpaired columns are, in increasing order, the zero
    /// reduced columns whose index is the pivot of no column.
    pub fn reduce(&self) -> (res: ReducedMatrix)
        requires
            self.wf(),
        ensures
            res@.matrix.columns == reduction_of(self@.columns),
            res@.matrix.num_rows == self@.num_rows,
            res@.matrix.simplex_dims == self@.simplex_dims,
            res@.matrix.wf(),
            res@.pivots == owner_map(res@.matrix.columns),
            sorted_by_birth(res@.pairs),
            forall|x: (usize, usize)| #[trigger]
                res@.pairs.contains(x) <==> is_pair(res@.matrix.columns, x),
            strictly_sorted(res@.unpaired),
            forall|j: usize| #[trigger]
                res@.unpaired.contains(j) <==> is_unpaired(res@.matrix.columns, j),
            reduces_to(self@, res@),
    {
        let ghost d = self@.columns;
        let mut r = self.clone_matrix();
        let mut pivots: HashMap<usize, usize> = HashMap::new();
        let num_cols = r.num_cols();
        let mut j: usize = 0;
        while j < num_cols
            invariant
                r.wf(),
                j <= num_cols,
                num_cols == d.len(),
                all_sorted(d),
                r@.columns.len() == d.len(),
                r@.num_rows == self@.num_rows,
                r@.simplex_dims == self@.simplex_dims,
                r@.columns.take(j as int) == reduced_columns(d, j as nat),
                forall|k: int| j <= k < d.len() ==> #[trigger] r@.columns[k] == d[k],
                pivots@ == owner_map(reduced_columns(d, j as nat)),
            decreases num_cols - j,
        {
            let ghost done = reduced_columns(d, j as nat);
            proof {
                lemma_reduced_columns(d, j as nat);
                lemma_owner_map(done);
            }
            loop
                invariant
                    r.wf(),
                    j < num_cols,
                    num_cols == d.len(),
                    all_sorted(d),
                    all_sorted(done),
                    done.len() == j,
                    r@.columns.len() == d.len(),
                    r@.num_rows == self@.num_rows,
                    r@.simplex_dims == self@.simplex_dims,
                    r@.columns.take(j as int) == done,
                    forall|k: int| j < k < d.len() ==> #[trigger] r@.columns[k] == d[k],
                    pivots@ == owner_map(done),
                    eliminate(r@.columns[j as int], done) == eliminate(d[j as int], done),
                ensures
                    r.wf(),
                    r@.columns.len() == d.len(),
                    r@.num_rows == self@.num_rows,
                    r@.simplex_dims == self@.simplex_dims,
                    r@.columns.take(j as int) == done,
                    forall|k: int| j < k < d.len() ==> #[trigger] r@.columns[k] == d[k],
                    pivots@ == owner_map(done),
                    r@.columns[j as int] == eliminate(d[j as int], done),
                decreases pivot_measure(r@.columns[j as int]),
            {
                let ghost cur = r@.columns[j as int];
                proof {
                    lemma_owner_map(done);
                }
                assert(r@.wf());
                assert(strictly_sorted(cur));
                match r.pivot(j) {
                    None => {
                        assert(!pivot_clash(cur, done));
                        break;
                    },
                    Some(p) => {
                        match pivots.get(&p) {
                            None => {
                                assert(!pivot_clash(cur, done));
                                break;
                            },
                            Some(kr) => {
                                let k = *kr;
                                assert(owner_map(done).contains_key(p));
                                assert(owner_map(done)[p] == k);
                                assert(k < j);
                                assert(r@.columns[k as int] == done[k as int]) by {
                                    assert(r@.columns.take(j as int)[k as int] == r@.columns[k as int]);
                                }
                                assert(pivot_clash(cur, done));
                                proof {
                                    lemma_xor_lowers_pivot(cur, done[k as int]);
                                }
                                r.add_columns(j, k);
                                assert(r@.columns.take(j as int) =~= done);
                            },
                        }
                    },
                }
            }
            let ghost c = r@.columns[j as int];
            proof {
                assert(done.push(c) == reduced_columns(d, (j + 1) as nat));
            }
            match r.pivot(j) {
                Some(p) => {
                    pivots.insert(p, j);
                },
                None => {},
            }
            proof {
                let nd = done.push(c);
                assert(nd.drop_last() =~= done);
                assert(pivots@ == owner_map(nd));
                assert(r@.columns.take(j + 1) =~= nd);
            }
            j += 1;
        }
        let ghost rc = r@.columns;
        proof {
            assert(rc.take(num_cols as int) =~= rc);
            lemma_reduced_columns(d, d.len());
            lemma_owner_map(rc);
        }
        // Persistence pairs: each non-zero column with its pivot, by pivot.
        let mut pairs: Vec<(usize, usize)> = Vec::new();
        let mut c: usize = 0;
        while c < num_cols
            invariant
                c <= num_cols,
                num_cols == rc.len(),
                r@.columns == rc,
                sorted_by_birth(pairs@),
                forall|x: (usize, usize)| #[trigger]
                    pairs@.contains(x) <==> (is_pair(rc, x) && x.1 < c),
                forall|k1: int, k2: int|
                    0 <= k1 < k2 < rc.len() && rc[k1].len() > 0 && rc[k2].len() > 0
                        ==> #[trigger] rc[k1].last() != #[trigger] rc[k2].last(),
            decreases num_cols - c,
        {
            match r.pivot(c) {
                Some(p) => {
                    assert forall|i: int| 0 <= i < pairs@.len() implies pairs@[i].0 != p by {
                        assert(pairs@.contains(pairs@[i]));
                        let k = pairs@[i].1;
                        assert(rc[k as int].last() != rc[c as int].last());
                    }
                    insert_by_birth(&mut pairs, (p, c));
                },
                None => {},
            }
            c += 1;
        }
        // Unpaired columns: zero columns whose index is no pivot.
        let mut unpaired: Vec<usize> = Vec::new();
        let mut u: usize = 0;
        while u < num_cols
            invariant
                u <= num_cols,
                num_cols == rc.len(),
                r@.columns == rc,
                pivots@ == owner_map(rc),
                strictly_sorted(unpaired@),
                forall|k: int| 0 <= k < unpaired@.len() ==> unpaired@[k] < u,
                forall|x: usize| #[trigger]
                    unpaired@.contains(x) <==> (is_unpaired(rc, x) && x < u),
            decreases num_cols - u,
        {
            let is_birth = pivots.contains_key(&u);
            if !is_birth && r.is_zero_column(u) {
                let ghost old_unpaired = unpaired@;
                unpaired.push(u);
                proof {
                    lemma_push_contains(old_unpaired, u);
                }
            }
            u += 1;
        }
        ReducedMatrix { reduced: r, pivots, pairs, unpaired }
    }
}

/// Reduction of boundary matrices.
pub trait MatrixReduction {
    /// Whether this value can be reduced.
    spec fn reducible(&self) -> bool;

    /// Reduce the boundary matrix and return the result.
    fn reduce(&self) -> ReducedMatrix
        requires
            self.reducible(),
    ;
}

impl MatrixReduction for BoundaryMatrix {
    open spec fn reducible(&self) -> bool {
        self.wf()
    }

    fn reduce(&self) -> (res: ReducedMatrix)
        ensures
            reduces_to(self@, res@),
            res@.matrix.wf(),
    {
        BoundaryMatrix::reduce(self)
    }
}

} // verus!
