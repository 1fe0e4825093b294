//! The pairing of a reduced boundary matrix.
//!
//! Read a column as a chain: the simplices of its rows. When the input is a
//! boundary matrix (the boundary of a boundary vanishes, and faces come
//! before their cofaces), every reduced column is a cycle, and the pivot row
//! of every non-zero reduced column indexes a column that reduced to zero: a
//! class dies only after a simplex created it. When each column holds only
//! faces one dimension down, a class of dimension k dies at a simplex of
//! dimension k + 1.
use vstd::prelude::*;

use vstd::relations::injective_on;
use vstd::set_lib::FiniteRange;

use crate::boundary::{
    boundary_squared_zero, boundary_vanishes_at, dim_of, face_rows, faces_first_gives_upper_triangular,
    faces_holding, faces_precede, last_position, upper_triangular, MatrixModel,
};
use crate::chain::{boundary_of_boundary_vanishes, simplicial_complex};
use crate::column::{lemma_sorted_last, lemma_sorted_xor, sorted_xor, strictly_sorted, sym_diff};
use crate::reduction::{
    all_sorted, eliminate, indices_below, lemma_eliminate_combination, lemma_owner_map,
    lemma_reduced_columns, lemma_reduced_prefix, lemma_xor_lowers_pivot, lemma_xor_of_concat,
    is_pair, is_unpaired, owner_map, pivot_clash, pivot_measure, reduced_columns, reduces_to,
    reduction_keeps_upper_triangular, reduction_of, xor_of, ReductionModel,
};

verus! {

/// The rows of a column read as column indices.
pub open spec fn as_indices(s: Seq<usize>) -> Seq<int> {
    s.map_values(|v: usize| v as int)
}

/// The boundary of the chain whose simplices are the rows of `s`: the sum
/// over Z/2Z of the columns `d[row]`.
pub open spec fn chain_boundary(d: Seq<Seq<usize>>, s: Seq<usize>) -> Set<usize> {
    xor_of(d, as_indices(s))
}

/// Adding a simplex to a chain adds its boundary.
proof fn lemma_chain_boundary_push(d: Seq<Seq<usize>>, s: Seq<usize>, v: usize)
    ensures
        chain_boundary(d, s.push(v)) == sym_diff(chain_boundary(d, s), d[v as int].to_set()),
{
    let t = as_indices(s.push(v));
    assert(t =~= as_indices(s).push(v as int));
    assert(t.drop_last() =~= as_indices(s));
    assert(t.last() == v as int);
}

/// The empty chain has an empty boundary.
proof fn lemma_chain_boundary_empty(d: Seq<Seq<usize>>, s: Seq<usize>)
    requires
        s.len() == 0,
    ensures
        chain_boundary(d, s) == Set::<usize>::empty(),
{
    assert(as_indices(s) =~= Seq::<int>::empty());
}

/// A row lies in the boundary of a chain exactly when an odd number of the
/// chain's simplices hold it.
proof fn lemma_holding_parity(d: Seq<Seq<usize>>, c: Seq<usize>, x: usize)
    ensures
        chain_boundary(d, c).contains(x) <==> faces_holding(c, d, x) % 2 == 1,
    decreases c.len(),
{
    if c.len() > 0 {
        lemma_holding_parity(d, c.drop_last(), x);
        assert(c =~= c.drop_last().push(c.last()));
        lemma_chain_boundary_push(d, c.drop_last(), c.last());
    } else {
        lemma_chain_boundary_empty(d, c);
    }
}

/// A column whose boundary of the boundary vanishes is a cycle.
proof fn lemma_cycle_of_vanishing(d: Seq<Seq<usize>>, j: int)
    requires
        boundary_vanishes_at(d, j),
    ensures
        chain_boundary(d, d[j]) == Set::<usize>::empty(),
{
    assert forall|x: usize| !chain_boundary(d, d[j]).contains(x) by {
        lemma_holding_parity(d, d[j], x);
        assert(faces_holding(d[j], d, x) % 2 == 0);
    }
    assert(chain_boundary(d, d[j]) =~= Set::<usize>::empty());
}

/// Taking boundaries is linear over Z/2Z: the boundary of a sum of two
/// chains is the sum of their boundaries.
proof fn lemma_boundary_of_xor(d: Seq<Seq<usize>>, a: Seq<usize>, b: Seq<usize>)
    ensures
        chain_boundary(d, sorted_xor(a, b)) == sym_diff(chain_boundary(d, a), chain_boundary(d, b)),
    decreases a.len() + b.len(),
{
    if a.len() == 0 {
        lemma_chain_boundary_empty(d, a);
        assert(sym_diff(Set::<usize>::empty(), chain_boundary(d, b)) =~= chain_boundary(d, b));
    } else if b.len() == 0 {
        lemma_chain_boundary_empty(d, b);
        assert(sym_diff(chain_boundary(d, a), Set::<usize>::empty()) =~= chain_boundary(d, a));
    } else if a.last() < b.last() {
        let b0 = b.drop_last();
        lemma_boundary_of_xor(d, a, b0);
        assert(b =~= b0.push(b.last()));
        lemma_chain_boundary_push(d, b0, b.last());
        lemma_chain_boundary_push(d, sorted_xor(a, b0), b.last());
        let x = chain_boundary(d, a);
        let y = chain_boundary(d, b0);
        let z = d[b.last() as int].to_set();
        assert(sym_diff(sym_diff(x, y), z) =~= sym_diff(x, sym_diff(y, z)));
    } else if b.last() < a.last() {
        let a0 = a.drop_last();
        lemma_boundary_of_xor(d, a0, b);
        assert(a =~= a0.push(a.last()));
        lemma_chain_boundary_push(d, a0, a.last());
        lemma_chain_boundary_push(d, sorted_xor(a0, b), a.last());
        let x = chain_boundary(d, a0);
        let y = chain_boundary(d, b);
        let z = d[a.last() as int].to_set();
        assert(sym_diff(sym_diff(x, y), z) =~= sym_diff(sym_diff(x, z), y));
    } else {
        let a0 = a.drop_last();
        let b0 = b.drop_last();
        lemma_boundary_of_xor(d, a0, b0);
        assert(a =~= a0.push(a.last()));
        assert(b =~= b0.push(b.last()));
        lemma_chain_boundary_push(d, a0, a.last());
        lemma_chain_boundary_push(d, b0, b.last());
        let x = chain_boundary(d, a0);
        let y = chain_boundary(d, b0);
        let z = d[a.last() as int].to_set();
        assert(sym_diff(x, y) =~= sym_diff(sym_diff(x, z), sym_diff(y, z)));
    }
}

/// Reducing a cycle against earlier cycles gives a cycle.
proof fn lemma_eliminate_cycle(d: Seq<Seq<usize>>, c: Seq<usize>, done: Seq<Seq<usize>>)
    requires
        done.len() <= usize::MAX,
        strictly_sorted(c),
        all_sorted(done),
        chain_boundary(d, c) == Set::<usize>::empty(),
        forall|k: int| 0 <= k < done.len() ==> chain_boundary(d, #[trigger] done[k]) == Set::<usize>::empty(),
    ensures
        chain_boundary(d, eliminate(c, done)) == Set::<usize>::empty(),
    decreases pivot_measure(c),
{
    lemma_owner_map(done);
    if pivot_clash(c, done) {
        let k = owner_map(done)[c.last()] as int;
        lemma_xor_lowers_pivot(c, done[k]);
        lemma_sorted_xor(c, done[k]);
        lemma_boundary_of_xor(d, c, done[k]);
        assert(chain_boundary(d, done[k]) == Set::<usize>::empty());
        assert(sym_diff(Set::<usize>::empty(), Set::<usize>::empty()) =~= Set::<usize>::empty());
        lemma_eliminate_cycle(d, sorted_xor(c, done[k]), done);
    }
}

/// When every input column is a cycle, so is every reduced column.
proof fn lemma_reduced_cycles(d: Seq<Seq<usize>>, j: nat)
    requires
        j <= d.len(),
        d.len() <= usize::MAX,
        all_sorted(d),
        forall|k: int| 0 <= k < d.len() ==> chain_boundary(d, #[trigger] d[k]) == Set::<usize>::empty(),
    ensures
        forall|k: int|
            0 <= k < j ==> chain_boundary(d, #[trigger] reduced_columns(d, j)[k]) == Set::<usize>::empty(),
    decreases j,
{
    if j > 0 {
        let prev = reduced_columns(d, (j - 1) as nat);
        lemma_reduced_cycles(d, (j - 1) as nat);
        lemma_reduced_columns(d, (j - 1) as nat);
        assert(strictly_sorted(d[j - 1]));
        assert(chain_boundary(d, d[j - 1]) == Set::<usize>::empty());
        lemma_eliminate_cycle(d, d[j - 1], prev);
        let r = reduced_columns(d, j);
        assert forall|k: int| 0 <= k < j implies chain_boundary(d, #[trigger] r[k]) == Set::<usize>::empty() by {
            if k < j - 1 {
                assert(r[k] == prev[k]);
            }
        }
    }
}

/// Summing over an index list depends only on the listed columns' rows.
proof fn lemma_xor_of_same_columns(c1: Seq<Seq<usize>>, c2: Seq<Seq<usize>>, idx: Seq<int>)
    requires
        forall|i: int| 0 <= i < idx.len() ==> #[trigger] c1[idx[i]].to_set() == c2[idx[i]].to_set(),
    ensures
        xor_of(c1, idx) == xor_of(c2, idx),
    decreases idx.len(),
{
    if idx.len() > 0 {
        lemma_xor_of_same_columns(c1, c2, idx.drop_last());
        assert(c1[idx.last()].to_set() == c2[idx[idx.len() - 1]].to_set());
    }
}

/// Summing the single column `i`.
proof fn lemma_xor_of_single(r: Seq<Seq<usize>>, i: int)
    ensures
        xor_of(r, seq![i]) == r[i].to_set(),
{
    assert(seq![i].drop_last() =~= Seq::<int>::empty());
    assert(seq![i].last() == i);
    assert(xor_of(r, Seq::<int>::empty()) == Set::<usize>::empty());
    assert(sym_diff(Set::<usize>::empty(), r[i].to_set()) =~= r[i].to_set());
}

/// Reduced column `row` is input column `row` plus a sum of reduced columns
/// before it; so input column `row` is a sum of reduced columns up to `row`.
pub proof fn lemma_input_in_reduced_span(d: Seq<Seq<usize>>, row: int) -> (ks: Seq<int>)
    requires
        0 <= row < d.len(),
        d.len() <= usize::MAX,
        all_sorted(d),
    ensures
        indices_below(ks, row),
        reduction_of(d)[row].to_set() == sym_diff(d[row].to_set(), xor_of(reduction_of(d), ks)),
        d[row].to_set() == xor_of(reduction_of(d), ks.push(row)),
{
    let done = reduced_columns(d, row as nat);
    let r = reduction_of(d);
    lemma_reduced_columns(d, row as nat);
    assert(strictly_sorted(d[row]));
    let ks = lemma_eliminate_combination(d[row], done);
    lemma_reduced_prefix(d, (row + 1) as nat, d.len());
    lemma_reduced_prefix(d, row as nat, d.len());
    assert(r[row] == eliminate(d[row], done)) by {
        assert(r.take(row + 1)[row] == r[row]);
    }
    assert forall|i: int| 0 <= i < ks.len() implies #[trigger] done[ks[i]].to_set() == r[ks[i]].to_set() by {
        assert(r.take(row)[ks[i]] == r[ks[i]]);
    }
    lemma_xor_of_same_columns(done, r, ks);
    let e = ks.push(row);
    assert(e.drop_last() =~= ks);
    assert(e.last() == row);
    let x = xor_of(r, ks);
    assert(sym_diff(x, sym_diff(d[row].to_set(), x)) =~= d[row].to_set());
    ks
}

/// The boundary of a chain of simplices before `j` is a sum of reduced
/// columns before `j`.
proof fn lemma_chain_in_reduced_span(d: Seq<Seq<usize>>, p: Seq<usize>, j: int) -> (e: Seq<int>)
    requires
        0 <= j <= d.len(),
        d.len() <= usize::MAX,
        all_sorted(d),
        forall|t: int| 0 <= t < p.len() ==> #[trigger] p[t] < j,
    ensures
        indices_below(e, j),
        chain_boundary(d, p) == xor_of(reduction_of(d), e),
    decreases p.len(),
{
    let r = reduction_of(d);
    if p.len() == 0 {
        lemma_chain_boundary_empty(d, p);
        Seq::<int>::empty()
    } else {
        let q = p.drop_last();
        let v = p.last();
        assert forall|t: int| 0 <= t < q.len() implies #[trigger] q[t] < j by {
            assert(q[t] == p[t]);
        }
        let e1 = lemma_chain_in_reduced_span(d, q, j);
        assert(p =~= q.push(v));
        lemma_chain_boundary_push(d, q, v);
        assert(v < j) by {
            assert(p[p.len() - 1] < j);
        }
        let ks = lemma_input_in_reduced_span(d, v as int);
        let e2 = ks.push(v as int);
        lemma_xor_of_concat(r, e1, e2);
        let e = e1 + e2;
        assert forall|i: int| 0 <= i < e.len() implies 0 <= #[trigger] e[i] < j by {
            if i < e1.len() {
                assert(e[i] == e1[i]);
            } else {
                assert(e[i] == e2[i - e1.len()]);
                if i - e1.len() < ks.len() {
                    assert(e2[i - e1.len()] == ks[i - e1.len()]);
                }
            }
        }
        e
    }
}

/// Any sum of columns equals a sum over a list without repeats: an index
/// listed twice cancels.
proof fn lemma_normalize(r: Seq<Seq<usize>>, idx: Seq<int>, j: int) -> (n: Seq<int>)
    requires
        indices_below(idx, j),
    ensures
        indices_below(n, j),
        n.no_duplicates(),
        xor_of(r, n) == xor_of(r, idx),
    decreases idx.len(),
{
    if idx.len() == 0 {
        idx
    } else {
        let p = idx.drop_last();
        let i = idx.last();
        assert forall|t: int| 0 <= t < p.len() implies 0 <= #[trigger] p[t] < j by {
            assert(p[t] == idx[t]);
        }
        assert(0 <= i < j) by {
            assert(idx[idx.len() - 1] == i);
        }
        let n0 = lemma_normalize(r, p, j);
        if n0.contains(i) {
            let pos = choose|pos: int| 0 <= pos < n0.len() && n0[pos] == i;
            let a = n0.take(pos);
            let b = n0.skip(pos + 1);
            assert(n0 =~= a + seq![i] + b);
            lemma_xor_of_concat(r, a + seq![i], b);
            lemma_xor_of_concat(r, a, seq![i]);
            lemma_xor_of_concat(r, a, b);
            lemma_xor_of_single(r, i);
            let xa = xor_of(r, a);
            let xb = xor_of(r, b);
            let ri = r[i].to_set();
            assert(sym_diff(xa, xb) =~= sym_diff(sym_diff(sym_diff(xa, ri), xb), ri));
            let n1 = a + b;
            assert forall|s: int, t: int| 0 <= s < n1.len() && 0 <= t < n1.len() && s != t implies n1[s] != n1[t] by {
                let s2 = if s < pos { s } else { s + 1 };
                let t2 = if t < pos { t } else { t + 1 };
                assert(n1[s] == n0[s2]);
                assert(n1[t] == n0[t2]);
            }
            assert forall|t: int| 0 <= t < n1.len() implies 0 <= #[trigger] n1[t] < j by {
                let t2 = if t < pos { t } else { t + 1 };
                assert(n1[t] == n0[t2]);
            }
            n1
        } else {
            let n1 = n0.push(i);
            assert(n1.drop_last() =~= n0);
            assert(n1.last() == i);
            assert forall|s: int, t: int| 0 <= s < n1.len() && 0 <= t < n1.len() && s != t implies n1[s] != n1[t] by {
                if s < n0.len() && t < n0.len() {
                    assert(n1[s] == n0[s] && n1[t] == n0[t]);
                } else if s < n0.len() {
                    assert(n1[s] == n0[s]);
                    assert(n0.contains(n0[s]));
                } else if t < n0.len() {
                    assert(n1[t] == n0[t]);
                    assert(n0.contains(n0[t]));
                }
            }
            n1
        }
    }
}

/// Every row of a sum of columns is a row of one of the summed columns.
proof fn lemma_xor_support(r: Seq<Seq<usize>>, idx: Seq<int>, x: usize)
    requires
        xor_of(r, idx).contains(x),
    ensures
        exists|t: int| 0 <= t < idx.len() && #[trigger] r[idx[t]].contains(x),
    decreases idx.len(),
{
    if idx.len() > 0 {
        let p = idx.drop_last();
        if xor_of(r, p).contains(x) {
            lemma_xor_support(r, p, x);
            let t = choose|t: int| 0 <= t < p.len() && #[trigger] r[p[t]].contains(x);
            assert(idx[t] == p[t]);
        } else {
            assert(r[idx.last()].to_set().contains(x));
            assert(r[idx[idx.len() - 1]].contains(x));
        }
    }
}

/// Among the listed columns that are not zero, one whose pivot is largest.
proof fn lemma_top_pivot(r: Seq<Seq<usize>>, idx: Seq<int>) -> (m: int)
    requires
        exists|t: int| 0 <= t < idx.len() && #[trigger] r[idx[t]].len() > 0,
    ensures
        0 <= m < idx.len(),
        r[idx[m]].len() > 0,
        forall|t: int|
            0 <= t < idx.len() && #[trigger] r[idx[t]].len() > 0 ==> r[idx[t]].last() <= r[idx[m]].last(),
    decreases idx.len(),
{
    let p = idx.drop_last();
    let last = idx.len() - 1;
    if exists|t: int| 0 <= t < p.len() && #[trigger] r[p[t]].len() > 0 {
        let m0 = lemma_top_pivot(r, p);
        assert(idx[m0] == p[m0]);
        assert forall|t: int| 0 <= t < last && #[trigger] r[idx[t]].len() > 0 implies r[idx[t]].last() <= r[idx[m0]].last() by {
            assert(idx[t] == p[t]);
        }
        if r[idx[last]].len() > 0 && r[idx[last]].last() > r[idx[m0]].last() {
            last
        } else {
            m0
        }
    } else {
        assert forall|t: int| 0 <= t < last implies r[idx[t]].len() == 0 by {
            assert(idx[t] == p[t]);
            if r[p[t]].len() > 0 {
                assert(exists|t: int| 0 <= t < p.len() && #[trigger] r[p[t]].len() > 0);
            }
        }
        last
    }
}

/// A row of a non-zero strictly increasing column is at most its pivot.
proof fn lemma_row_below_pivot(c: Seq<usize>, y: usize)
    requires
        strictly_sorted(c),
        c.contains(y),
    ensures
        c.len() > 0,
        y <= c.last(),
{
    let i = choose|i: int| 0 <= i < c.len() && c[i] == y;
    lemma_sorted_last(c);
}

/// The pivot row of non-zero reduced column `k` indexes a zero reduced
/// column, when the input is a boundary matrix.
proof fn lemma_birth_is_cycle(d: Seq<Seq<usize>>, k: int)
    requires
        d.len() <= usize::MAX,
        all_sorted(d),
        upper_triangular(d),
        boundary_squared_zero(d),
        0 <= k < d.len(),
        reduction_of(d)[k].len() > 0,
    ensures
        reduction_of(d)[reduction_of(d)[k].last() as int].len() == 0,
{
    let r = reduction_of(d);
    let n = d.len();
    lemma_reduced_columns(d, n);
    reduction_keeps_upper_triangular(d);
    assert forall|i: int| 0 <= i < n implies chain_boundary(d, #[trigger] d[i]) == Set::<usize>::empty() by {
        assert(boundary_vanishes_at(d, i));
        lemma_cycle_of_vanishing(d, i);
    }
    lemma_reduced_cycles(d, n);
    let c = r[k];
    let jj = c.last();
    let j = jj as int;
    assert(c.contains(jj)) by {
        assert(c[c.len() - 1] == jj);
    }
    assert(j < k);
    assert(strictly_sorted(c));
    lemma_sorted_last(c);
    let p = c.drop_last();
    lemma_chain_boundary_push(d, p, jj);
    assert(chain_boundary(d, c) == Set::<usize>::empty());
    assert(d[j].to_set() =~= chain_boundary(d, p)) by {
        assert forall|x: usize| d[j].to_set().contains(x) == chain_boundary(d, p).contains(x) by {
            assert(!sym_diff(chain_boundary(d, p), d[j].to_set()).contains(x));
        }
    }
    assert forall|t: int| 0 <= t < p.len() implies #[trigger] p[t] < j by {
        assert(p.contains(p[t]));
    }
    let e = lemma_chain_in_reduced_span(d, p, j);
    let ks = lemma_input_in_reduced_span(d, j);
    lemma_xor_of_concat(r, e, ks);
    let all = e + ks;
    assert forall|i: int| 0 <= i < all.len() implies 0 <= #[trigger] all[i] < j by {
        if i < e.len() {
            assert(all[i] == e[i]);
        } else {
            assert(all[i] == ks[i - e.len()]);
        }
    }
    assert(r[j].to_set() == xor_of(r, all));
    let nn = lemma_normalize(r, all, j);
    if r[j].len() > 0 {
        let top = r[j].last();
        assert(r[j].contains(top)) by {
            assert(r[j][r[j].len() - 1] == top);
        }
        assert(xor_of(r, nn).contains(top));
        lemma_xor_support(r, nn, top);
        let t0 = choose|t: int| 0 <= t < nn.len() && #[trigger] r[nn[t]].contains(top);
        assert(r[nn[t0]].len() > 0);
        let m = lemma_top_pivot(r, nn);
        let mi = nn[m];
        let big = r[mi].last();
        assert(0 <= mi < j);
        let a = nn.take(m);
        let b = nn.skip(m + 1);
        assert(nn =~= a + seq![mi] + b);
        lemma_xor_of_concat(r, a + seq![mi], b);
        lemma_xor_of_concat(r, a, seq![mi]);
        lemma_xor_of_single(r, mi);
        assert forall|y: usize| xor_of(r, a).contains(y) implies y < big by {
            lemma_xor_support(r, a, y);
            let t = choose|t: int| 0 <= t < a.len() && #[trigger] r[a[t]].contains(y);
            let ii = a[t];
            assert(nn[t] == ii);
            assert(strictly_sorted(r[ii]));
            lemma_row_below_pivot(r[ii], y);
            assert(r[nn[t]].len() > 0);
            assert(r[ii].last() <= big);
            assert(ii != mi);
            if ii < mi {
                assert(r[ii].last() != r[mi].last());
            } else {
                assert(r[mi].last() != r[ii].last());
            }
        }
        assert forall|y: usize| xor_of(r, b).contains(y) implies y < big by {
            lemma_xor_support(r, b, y);
            let t = choose|t: int| 0 <= t < b.len() && #[trigger] r[b[t]].contains(y);
            let ii = b[t];
            assert(nn[m + 1 + t] == ii);
            assert(strictly_sorted(r[ii]));
            lemma_row_below_pivot(r[ii], y);
            assert(r[nn[m + 1 + t]].len() > 0);
            assert(r[ii].last() <= big);
            assert(ii != mi);
            if ii < mi {
                assert(r[ii].last() != r[mi].last());
            } else {
                assert(r[mi].last() != r[ii].last());
            }
        }
        assert(strictly_sorted(r[mi]));
        assert(r[mi].contains(big)) by {
            assert(r[mi][r[mi].len() - 1] == big);
        }
        assert(xor_of(r, nn).contains(big));
        assert(r[j].contains(big));
        assert(strictly_sorted(r[j]));
        lemma_row_below_pivot(r[j], big);
        if top > big {
            assert(!r[mi].to_set().contains(top)) by {
                if r[mi].contains(top) {
                    lemma_row_below_pivot(r[mi], top);
                }
            }
            assert(false);
        }
        assert(top == big);
        assert(r[mi].last() != r[j].last());
        assert(false);
    }
}

/// In the reduction of a boundary matrix whose faces come before their
/// cofaces and whose boundary of a boundary vanishes, the pivot row of every
/// non-zero reduced column indexes a column that reduced to zero: a class
/// dies only after a simplex created it. So no column is both the death of a
/// pair and the birth of another, and each column is exactly one of a
/// birth, a death, or unpaired.
pub proof fn pivots_index_zero_columns(d: Seq<Seq<usize>>)
    requires
        d.len() <= usize::MAX,
        all_sorted(d),
        upper_triangular(d),
        boundary_squared_zero(d),
    ensures
        forall|k: int|
            0 <= k < d.len() && #[trigger] reduction_of(d)[k].len() > 0 ==> reduction_of(
                d,
            )[reduction_of(d)[k].last() as int].len() == 0,
        forall|j: int|
            0 <= j < d.len() && #[trigger] owner_map(reduction_of(d)).contains_key(j as usize)
                ==> reduction_of(d)[j].len() == 0,
{
    assert forall|k: int| 0 <= k < d.len() && #[trigger] reduction_of(d)[k].len() > 0 implies reduction_of(
        d,
    )[reduction_of(d)[k].last() as int].len() == 0 by {
        lemma_birth_is_cycle(d, k);
    }
    let r = reduction_of(d);
    lemma_reduced_columns(d, d.len());
    lemma_owner_map(r);
    assert forall|j: int| 0 <= j < d.len() && #[trigger] owner_map(r).contains_key(j as usize) implies r[j].len() == 0 by {
        let k = owner_map(r)[j as usize] as int;
        assert(r[k].len() > 0 && r[k].last() == j as usize);
        lemma_birth_is_cycle(d, k);
    }
}


/// Each persistence pair uses two columns, its birth and its death, and
/// every other column is unpaired: for a boundary matrix whose faces come
/// before their cofaces, twice the number of pairs plus the number of
/// unpaired columns is the number of columns.
pub proof fn pairs_and_unpaired_cover_columns(m: MatrixModel, r: ReductionModel)
    requires
        m.wf(),
        m.columns.len() <= usize::MAX,
        upper_triangular(m.columns),
        boundary_squared_zero(m.columns),
        reduces_to(m, r),
    ensures
        2 * r.pairs.len() + r.unpaired.len() == m.columns.len(),
{
    broadcast use vstd::set::group_set_axioms, vstd::seq_lib::seq_to_set_is_finite;

    let d = m.columns;
    let n = d.len();
    let rc = r.matrix.columns;
    assert(all_sorted(d));
    pivots_index_zero_columns(d);
    reduction_keeps_upper_triangular(d);
    lemma_reduced_columns(d, n);
    lemma_owner_map(rc);
    let own = owner_map(rc);
    let nu = n as usize;
    let all = Set::<usize>::range(0, nu);
    <usize as FiniteRange>::range_properties(0, nu);
    let deaths = Set::new(|k: usize| k < n && rc[k as int].len() > 0);
    let births = Set::new(|j: usize| j < n && own.contains_key(j));
    let ps = r.pairs.to_set();
    let us = r.unpaired.to_set();
    assert(r.pairs.no_duplicates()) by {
        assert forall|i: int, j: int|
            0 <= i < r.pairs.len() && 0 <= j < r.pairs.len() && i != j implies r.pairs[i] != r.pairs[j] by {
            if i < j {
                assert(r.pairs[i].0 < r.pairs[j].0);
            } else {
                assert(r.pairs[j].0 < r.pairs[i].0);
            }
        }
    }
    r.pairs.unique_seq_to_set();
    assert(r.unpaired.no_duplicates()) by {
        assert forall|i: int, j: int|
            0 <= i < r.unpaired.len() && 0 <= j < r.unpaired.len() && i != j implies r.unpaired[i]
            != r.unpaired[j] by {
            if i < j {
                assert(r.unpaired[i] < r.unpaired[j]);
            } else {
                assert(r.unpaired[j] < r.unpaired[i]);
            }
        }
    }
    r.unpaired.unique_seq_to_set();
    // The deaths are the second components of the pairs.
    let fd = |x: (usize, usize)| x.1;
    assert(injective_on(fd, ps)) by {
        assert forall|x1: (usize, usize), x2: (usize, usize)|
            ps.contains(x1) && ps.contains(x2) && #[trigger] fd(x1) == #[trigger] fd(x2) implies x1 == x2 by {
            assert(r.pairs.contains(x1) && r.pairs.contains(x2));
            assert(is_pair(rc, x1) && is_pair(rc, x2));
        }
    }
    assert(ps.map(fd) =~= deaths) by {
        assert forall|k: usize| ps.map(fd).contains(k) <==> deaths.contains(k) by {
            if deaths.contains(k) {
                let x = (rc[k as int].last(), k);
                assert(is_pair(rc, x));
                assert(r.pairs.contains(x));
                assert(ps.contains(x) && fd(x) == k);
            }
            if ps.map(fd).contains(k) {
                let x = choose|x: (usize, usize)| ps.contains(x) && fd(x) == k;
                assert(r.pairs.contains(x));
                assert(is_pair(rc, x));
            }
        }
    }
    vstd::set_lib::lemma_map_size(ps, deaths, fd);
    // The births are the first components of the pairs.
    let fb = |x: (usize, usize)| x.0;
    assert(injective_on(fb, ps)) by {
        assert forall|x1: (usize, usize), x2: (usize, usize)|
            ps.contains(x1) && ps.contains(x2) && #[trigger] fb(x1) == #[trigger] fb(x2) implies x1 == x2 by {
            assert(r.pairs.contains(x1) && r.pairs.contains(x2));
            assert(is_pair(rc, x1) && is_pair(rc, x2));
            let k1 = x1.1 as int;
            let k2 = x2.1 as int;
            if k1 < k2 {
                assert(rc[k1].last() != rc[k2].last());
            } else if k2 < k1 {
                assert(rc[k2].last() != rc[k1].last());
            }
        }
    }
    assert(ps.map(fb) =~= births) by {
        assert forall|j: usize| ps.map(fb).contains(j) <==> births.contains(j) by {
            if births.contains(j) {
                let k = own[j];
                let x = (j, k);
                assert(is_pair(rc, x));
                assert(r.pairs.contains(x));
                assert(ps.contains(x) && fb(x) == j);
            }
            if ps.map(fb).contains(j) {
                let x = choose|x: (usize, usize)| ps.contains(x) && fb(x) == j;
                assert(r.pairs.contains(x));
                assert(is_pair(rc, x));
                let c = rc[x.1 as int];
                assert(c.contains(c.last())) by {
                    assert(c[c.len() - 1] == c.last());
                }
                assert(c.len() > 0 && c.last() == x.0);
            }
        }
    }
    vstd::set_lib::lemma_map_size(ps, births, fb);
    // The three kinds of columns partition the columns.
    assert(deaths.subset_of(all));
    assert(births.subset_of(all));
    vstd::set_lib::lemma_set_subset_finite(all, deaths);
    vstd::set_lib::lemma_set_subset_finite(all, births);
    assert(deaths.disjoint(births)) by {
        assert forall|j: usize| deaths.contains(j) implies !births.contains(j) by {
            if own.contains_key(j) {
                assert(owner_map(reduction_of(d)).contains_key((j as int) as usize));
            }
        }
    }
    assert((deaths + births).disjoint(us)) by {
        assert forall|j: usize| us.contains(j) implies !(deaths + births).contains(j) by {
            assert(r.unpaired.contains(j));
            assert(is_unpaired(rc, j));
        }
    }
    assert(deaths + births + us =~= all) by {
        assert forall|j: usize| all.contains(j) implies (deaths + births + us).contains(j) by {
            if !deaths.contains(j) && !births.contains(j) {
                assert(is_unpaired(rc, j));
                assert(r.unpaired.contains(j));
            }
        }
        assert forall|j: usize| us.contains(j) implies all.contains(j) by {
            assert(r.unpaired.contains(j));
            assert(is_unpaired(rc, j));
        }
    }
    vstd::set_lib::lemma_set_disjoint_lens(deaths, births);
    vstd::set_lib::lemma_set_disjoint_lens(deaths + births, us);
}


/// Each column holds only simplices one dimension down: every row `x` of
/// column `j` has `dims[x] + 1 == dims[j]`.
pub open spec fn graded(cols: Seq<Seq<usize>>, dims: Seq<usize>) -> bool {
    forall|j: int, x: usize|
        0 <= j < cols.len() && #[trigger] cols[j].contains(x) ==> dims[x as int] + 1 == dims[j]
}

/// Reducing a column whose rows are one dimension below `dims[j]` against
/// graded columns keeps its rows there.
proof fn lemma_eliminate_graded(c: Seq<usize>, done: Seq<Seq<usize>>, dims: Seq<usize>, j: int)
    requires
        done.len() <= usize::MAX,
        strictly_sorted(c),
        all_sorted(done),
        graded(done, dims),
        forall|x: usize| #[trigger] c.contains(x) ==> dims[x as int] + 1 == dims[j],
    ensures
        forall|x: usize| #[trigger] eliminate(c, done).contains(x) ==> dims[x as int] + 1 == dims[j],
    decreases pivot_measure(c),
{
    lemma_owner_map(done);
    if pivot_clash(c, done) {
        let k = owner_map(done)[c.last()] as int;
        let ck = done[k];
        lemma_xor_lowers_pivot(c, ck);
        lemma_sorted_xor(c, ck);
        assert(c.contains(c.last())) by {
            assert(c[c.len() - 1] == c.last());
        }
        assert(ck.contains(ck.last())) by {
            assert(ck[ck.len() - 1] == ck.last());
        }
        assert(dims[k] == dims[j]);
        let c2 = sorted_xor(c, ck);
        assert forall|x: usize| #[trigger] c2.contains(x) implies dims[x as int] + 1 == dims[j] by {
            if ck.contains(x) {
                assert(dims[x as int] + 1 == dims[k]);
            }
        }
        lemma_eliminate_graded(c2, done, dims, j);
        assert(eliminate(c, done) == eliminate(c2, done));
    } else {
        assert(eliminate(c, done) == c);
    }
}

/// The first `j` reduced columns of a graded matrix are graded.
proof fn lemma_reduced_graded(d: Seq<Seq<usize>>, dims: Seq<usize>, j: nat)
    requires
        j <= d.len(),
        d.len() <= usize::MAX,
        all_sorted(d),
        graded(d, dims),
    ensures
        graded(reduced_columns(d, j), dims),
    decreases j,
{
    if j > 0 {
        let prev = reduced_columns(d, (j - 1) as nat);
        lemma_reduced_graded(d, dims, (j - 1) as nat);
        lemma_reduced_columns(d, (j - 1) as nat);
        assert(strictly_sorted(d[j - 1]));
        assert forall|x: usize| #[trigger] d[j - 1].contains(x) implies dims[x as int] + 1 == dims[j - 1] by {}
        lemma_eliminate_graded(d[j - 1], prev, dims, j - 1);
        let r = reduced_columns(d, j);
        assert forall|k: int, x: usize| 0 <= k < r.len() && #[trigger] r[k].contains(x) implies dims[x as int]
            + 1 == dims[k] by {
            if k < j - 1 {
                assert(r[k] == prev[k]);
            }
        }
    }
}

/// A k-dimensional class is killed by a (k+1)-simplex: in the reduction of
/// a matrix whose columns hold only simplices one dimension down, every
/// reduced column does too, and each pair's death is one dimension above
/// its birth.
pub proof fn deaths_are_one_dimension_up(d: Seq<Seq<usize>>, dims: Seq<usize>)
    requires
        d.len() <= usize::MAX,
        all_sorted(d),
        graded(d, dims),
    ensures
        graded(reduction_of(d), dims),
        forall|x: (usize, usize)| #[trigger]
            is_pair(reduction_of(d), x) ==> dims[x.1 as int] == dims[x.0 as int] + 1,
{
    lemma_reduced_graded(d, dims, d.len());
    let r = reduction_of(d);
    assert forall|x: (usize, usize)| #[trigger] is_pair(r, x) implies dims[x.1 as int] == dims[x.0 as int] + 1 by {
        let c = r[x.1 as int];
        assert(c.contains(c.last())) by {
            assert(c[c.len() - 1] == c.last());
        }
    }
}

/// The boundary matrix of a list of simplices is graded by the simplices'
/// dimensions: each face has one vertex fewer.
pub proof fn lemma_faces_graded(ss: Seq<Seq<usize>>, cols: Seq<Seq<usize>>)
    requires
        cols.len() == ss.len(),
        forall|i: int| 0 <= i < ss.len() ==> (#[trigger] ss[i]).len() <= usize::MAX,
        forall|i: int| 0 <= i < ss.len() ==> (#[trigger] cols[i]).to_set() == face_rows(ss, i),
    ensures
        graded(cols, Seq::new(ss.len(), |i: int| dim_of(ss[i]))),
{
    let dims = Seq::new(ss.len(), |i: int| dim_of(ss[i]));
    assert forall|j: int, x: usize| 0 <= j < cols.len() && #[trigger] cols[j].contains(x) implies dims[x as int]
        + 1 == dims[j] by {
        assert(cols[j].to_set().contains(x));
        assert(face_rows(ss, j).contains(x));
        assert(ss[j].len() > 1);
        let k = choose|k: int| 0 <= k < ss[j].len() && last_position(ss, ss[j].remove(k), x as int);
        assert(0 <= x < ss.len());
        assert(ss[x as int] == ss[j].remove(k));
        assert(ss[x as int].len() == ss[j].len() - 1);
        assert(ss[j].len() <= usize::MAX);
    }
}

/// For the boundary matrix of a simplicial complex whose faces are listed
/// before their cofaces (a filtration), every persistence pair `(b, d)` has
/// `b < d` and a birth simplex `b` whose column reduced to zero, and each
/// simplex is exactly one of a birth, a death or unpaired: twice the number
/// of pairs plus the number of unpaired simplices is the number of simplices.
pub proof fn filtration_pairing(ss: Seq<Seq<usize>>, m: MatrixModel, r: ReductionModel)
    requires
        ss.len() <= usize::MAX,
        forall|i: int| 0 <= i < ss.len() ==> (#[trigger] ss[i]).len() <= usize::MAX,
        simplicial_complex(ss),
        faces_precede(ss),
        m.wf(),
        m.columns.len() == ss.len(),
        forall|i: int| 0 <= i < ss.len() ==> (#[trigger] m.columns[i]).to_set() == face_rows(ss, i),
        m.simplex_dims == Seq::new(ss.len(), |i: int| dim_of(ss[i])),
        reduces_to(m, r),
    ensures
        forall|x: (usize, usize)| #[trigger]
            r.pairs.contains(x) ==> x.0 < x.1 && r.matrix.columns[x.0 as int].len() == 0
                && r.matrix.simplex_dims[x.1 as int] == r.matrix.simplex_dims[x.0 as int] + 1,
        2 * r.pairs.len() + r.unpaired.len() == ss.len(),
{
    let d = m.columns;
    boundary_of_boundary_vanishes(ss, d);
    faces_first_gives_upper_triangular(ss, d);
    assert(all_sorted(d));
    reduction_keeps_upper_triangular(d);
    pivots_index_zero_columns(d);
    lemma_reduced_columns(d, d.len());
    lemma_faces_graded(ss, d);
    deaths_are_one_dimension_up(d, m.simplex_dims);
    assert forall|x: (usize, usize)| #[trigger]
        r.pairs.contains(x) implies x.0 < x.1 && r.matrix.columns[x.0 as int].len() == 0
            && r.matrix.simplex_dims[x.1 as int] == r.matrix.simplex_dims[x.0 as int] + 1 by {
        let rd = reduction_of(d);
        assert(is_pair(rd, x));
        let k = x.1 as int;
        assert(0 <= k < d.len() && rd[k].len() > 0);
        assert(rd[rd[k].last() as int].len() == 0);
        assert(rd[k].last() == x.0);
    }
    pairs_and_unpaired_cover_columns(m, r);
}

} // verus!
