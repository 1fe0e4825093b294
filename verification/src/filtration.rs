//! Filtrations: nested sequences of simplicial complexes K₀ ⊂ K₁ ⊂ … ⊂ Kₙ.
//!
//! A filtration lists simplices in the order they enter, each with its
//! filtration value. The value type is a parameter: the builders for point
//! clouds and weighted graphs use real numbers, which the combinatorial
//! logic here only carries along.
use vstd::prelude::*;

use crate::betti::max_dim_prefix;
use crate::boundary::{dim_of, face_rows, faces_in_range, BoundaryMatrix};
use crate::column::strictly_sorted;

verus! {

/// What a filtration holds: the simplices in filtration order, their values,
/// and their dimensions.
pub struct FiltrationModel<V> {
    pub simplices: Seq<Seq<usize>>,
    pub values: Seq<V>,
    pub dims: Seq<usize>,
}

impl<V> FiltrationModel<V> {
    /// The recorded dimensions are those of the simplices.
    pub open spec fn wf(self) -> bool {
        &&& self.dims.len() == self.simplices.len()
        &&& forall|i: int| 0 <= i < self.dims.len() ==> #[trigger] self.dims[i] == dim_of(self.simplices[i])
    }
}

/// Number of zeros among the first `n` dimensions.
pub open spec fn count_zero_dims(dims: Seq<usize>, n: nat) -> nat
    decreases n,
{
    if n == 0 {
        0
    } else {
        count_zero_dims(dims, (n - 1) as nat) + if dims[n - 1] == 0 {
            1nat
        } else {
            0nat
        }
    }
}

/// A filtration of simplicial complexes: simplices in the order they enter,
/// each with a filtration value of type `V`.
#[derive(Debug, Clone, PartialEq)]
pub struct Filtration<V> {
    simplices: Vec<Vec<usize>>,
    values: Vec<V>,
    dims: Vec<usize>,
}

impl<V> View for Filtration<V> {
    type V = FiltrationModel<V>;

    closed spec fn view(&self) -> FiltrationModel<V> {
        FiltrationModel {
            simplices: self.simplices@.map_values(|s: Vec<usize>| s@),
            values: self.values@,
            dims: self.dims@,
        }
    }
}

impl<V> Filtration<V> {
    /// Create an empty filtration.
    pub fn new() -> (f: Self)
        ensures
            f@.wf(),
            f@.simplices.len() == 0,
            f@.values.len() == 0,
    {
        Filtration { simplices: Vec::new(), values: Vec::new(), dims: Vec::new() }
    }

    /// Create a filtration from simplices already in filtration order (faces
    /// before cofaces) and their values.
    pub fn from_sorted(simplices: Vec<Vec<usize>>, values: Vec<V>) -> (f: Self)
        ensures
            f@.wf(),
            f@.simplices == simplices@.map_values(|s: Vec<usize>| s@),
            f@.values == values@,
    {
        let mut dims: Vec<usize> = Vec::new();
        let mut i: usize = 0;
        while i < simplices.len()
            invariant
                i <= simplices@.len(),
                dims@.len() == i,
                forall|k: int| 0 <= k < i ==> #[trigger] dims@[k] == dim_of(simplices@[k]@),
            decreases simplices.len() - i,
        {
            let len = simplices[i].len();
            dims.push(if len == 0 { 0 } else { len - 1 });
            i += 1;
        }
        let f = Filtration { simplices, values, dims };
        assert forall|k: int| 0 <= k < f@.dims.len() implies #[trigger] f@.dims[k] == dim_of(f@.simplices[k]) by {
            assert(f@.simplices[k] == f.simplices@[k]@);
        }
        f
    }

    /// Add a simplex entering at the given value.
    pub fn add(&mut self, simplex: Vec<usize>, value: V)
        requires
            old(self)@.wf(),
        ensures
            final(self)@.wf(),
            final(self)@.simplices == old(self)@.simplices.push(simplex@),
            final(self)@.values == old(self)@.values.push(value),
    {
        let len = simplex.len();
        let dim = if len == 0 { 0 } else { len - 1 };
        let ghost s = simplex@;
        self.simplices.push(simplex);
        self.values.push(value);
        self.dims.push(dim);
        assert(self@.simplices =~= old(self)@.simplices.push(s));
        assert forall|k: int| 0 <= k < self@.dims.len() implies #[trigger] self@.dims[k] == dim_of(self@.simplices[k]) by {
            if k < old(self)@.dims.len() {
                assert(self@.dims[k] == old(self)@.dims[k]);
                assert(self@.simplices[k] == old(self)@.simplices[k]);
            }
        }
    }

    /// Number of simplices in the filtration.
    pub fn len(&self) -> (n: usize)
        ensures
            n == self@.simplices.len(),
    {
        self.simplices.len()
    }

    /// Check if the filtration is empty.
    pub fn is_empty(&self) -> (r: bool)
        ensures
            r == (self@.simplices.len() == 0),
    {
        self.simplices.len() == 0
    }

    /// Get the simplex at index i.
    pub fn simplex(&self, i: usize) -> (r: &[usize])
        requires
            i < self@.simplices.len(),
        ensures
            r@ == self@.simplices[i as int],
    {
        self.simplices[i].as_slice()
    }

    /// Get the dimension of simplex i.
    pub fn dim(&self, i: usize) -> (r: usize)
        requires
            i < self@.dims.len(),
        ensures
            r == self@.dims[i as int],
    {
        self.dims[i]
    }

    /// Get all simplices.
    pub fn simplices(&self) -> (r: &[Vec<usize>])
        ensures
            r@.map_values(|s: Vec<usize>| s@) == self@.simplices,
    {
        self.simplices.as_slice()
    }

    /// Get all filtration values.
    pub fn values(&self) -> (r: &[V])
        ensures
            r@ == self@.values,
    {
        self.values.as_slice()
    }

    /// Build the boundary matrix of this filtration: column j is the
    /// boundary of the j-th simplex, and the simplex dimensions are those of
    /// the filtration.
    pub fn boundary_matrix(&self) -> (m: BoundaryMatrix)
        requires
            self@.wf(),
        ensures
            m.wf(),
            m@.num_rows == self@.simplices.len(),
            m@.columns.len() == self@.simplices.len(),
            forall|j: int|
                0 <= j < self@.simplices.len() ==> (#[trigger] m@.columns[j]).to_set() == face_rows(
                    self@.simplices,
                    j,
                ),
            forall|j: int| 0 <= j < self@.simplices.len() ==> #[trigger] faces_in_range(m@.columns, j),
            m@.simplex_dims == self@.dims,
    {
        let sl = self.simplices.as_slice();
        let mut bm = BoundaryMatrix::from_simplices(sl);
        assert(sl@ == self.simplices@);
        let ghost cols = bm@.columns;
        let mut i: usize = 0;
        while i < self.dims.len()
            invariant
                i <= self.dims@.len(),
                self@.wf(),
                bm.wf(),
                bm@.columns == cols,
                bm@.num_rows == self@.simplices.len(),
                bm@.simplex_dims.len() == self@.simplices.len(),
                forall|k: int| 0 <= k < i ==> #[trigger] bm@.simplex_dims[k] == self.dims@[k],
            decreases self.dims.len() - i,
        {
            bm.set_simplex_dim(i, self.dims[i]);
            i += 1;
        }
        assert(bm@.simplex_dims =~= self@.dims);
        bm
    }

    /// Get the number of vertices (0-simplices).
    pub fn num_vertices(&self) -> (n: usize)
        ensures
            n == count_zero_dims(self@.dims, self@.dims.len()),
    {
        let mut count: usize = 0;
        let mut i: usize = 0;
        while i < self.dims.len()
            invariant
                i <= self.dims@.len(),
                count == count_zero_dims(self@.dims, i as nat),
                count <= i,
            decreases self.dims.len() - i,
        {
            if self.dims[i] == 0 {
                count += 1;
            }
            i += 1;
        }
        count
    }

    /// Get the maximum dimension of any simplex (0 when empty).
    pub fn max_dim(&self) -> (m: usize)
        ensures
            m == max_dim_prefix(self@.dims, self@.dims.len()),
    {
        let mut m: usize = 0;
        let mut i: usize = 0;
        while i < self.dims.len()
            invariant
                i <= self.dims@.len(),
                m == max_dim_prefix(self@.dims, i as nat),
            decreases self.dims.len() - i,
        {
            if self.dims[i] > m {
                m = self.dims[i];
            }
            i += 1;
        }
        m
    }
}

impl<V: Copy> Filtration<V> {
    /// Get the filtration value of simplex i.
    pub fn value(&self, i: usize) -> (r: V)
        requires
            i < self@.values.len(),
        ensures
            r == self@.values[i as int],
    {
        self.values[i]
    }
}

/// Whether the list holds an edge joining `a` and `b`, in either direction.
pub open spec fn edge_present(edges: Seq<(usize, usize)>, a: usize, b: usize) -> bool {
    exists|e: int|
        0 <= e < edges.len() && ((#[trigger] edges[e]).0 == a && edges[e].1 == b || edges[e].0 == b
            && edges[e].1 == a)
}

/// `t` is a triangle of the flag complex of the graph on `n` vertices: three
/// increasing vertices below `n`, pairwise joined by edges.
pub open spec fn flag_triangle(n: usize, edges: Seq<(usize, usize)>, t: (usize, usize, usize)) -> bool {
    &&& t.0 < t.1
    &&& t.1 < t.2
    &&& t.2 < n
    &&& edge_present(edges, t.0, t.1)
    &&& edge_present(edges, t.0, t.2)
    &&& edge_present(edges, t.1, t.2)
}

/// Lexicographic order on vertex triples.
pub open spec fn lex_less(a: (usize, usize, usize), b: (usize, usize, usize)) -> bool {
    a.0 < b.0 || (a.0 == b.0 && (a.1 < b.1 || (a.1 == b.1 && a.2 < b.2)))
}

/// The last position `i` of `combo` with `combo[i] < n - k + i` (k the
/// length), that is, the position advanced to obtain the next combination;
/// -1 when there is none.
pub open spec fn movable_position(combo: Seq<usize>, n: usize, i: int) -> int
    decreases i,
{
    if i <= 0 {
        -1
    } else if combo[i - 1] < n - combo.len() + (i - 1) {
        i - 1
    } else {
        movable_position(combo, n, i - 1)
    }
}

/// A combination: a strictly increasing list of indices below `n`.
pub open spec fn is_combination(combo: Seq<usize>, n: usize) -> bool {
    &&& strictly_sorted(combo)
    &&& forall|i: int| 0 <= i < combo.len() ==> #[trigger] combo[i] < n
}

/// `s` is `c` advanced at its movable position `p`: the entries before `p`
/// are kept, entry `p` grows by one, and the entries after it follow
/// consecutively.
pub open spec fn advance_at_movable(c: Seq<usize>, n: usize, s: Seq<usize>) -> bool {
    let p = movable_position(c, n, c.len() as int);
    &&& s.len() == c.len()
    &&& forall|q: int| 0 <= q < p ==> #[trigger] s[q] == c[q]
    &&& forall|q: int| p <= q < c.len() ==> #[trigger] s[q] == c[p] + 1 + (q - p)
}

/// The position found by `movable_position` is movable, and the positions
/// after it are not.
pub proof fn lemma_movable_position(combo: Seq<usize>, n: usize, i: int)
    requires
        0 <= i <= combo.len(),
    ensures
        -1 <= movable_position(combo, n, i) < i,
        movable_position(combo, n, i) >= 0 ==> combo[movable_position(combo, n, i)] < n - combo.len()
            + movable_position(combo, n, i),
        forall|q: int|
            movable_position(combo, n, i) < q < i ==> !(#[trigger] combo[q] < n - combo.len() + q),
    decreases i,
{
    if i > 0 {
        lemma_movable_position(combo, n, i - 1);
    }
}

/// Advance to the next combination in lexicographic order: the last position
/// that can still grow is increased by one and the positions after it follow
/// consecutively. Returns false, leaving the list unchanged, when there is
/// none.
pub fn next_combination(combo: &mut [usize], n: usize) -> (advanced: bool)
    requires
        old(combo)@.len() <= n,
    ensures
        advanced == (movable_position(old(combo)@, n, old(combo)@.len() as int) >= 0),
        !advanced ==> final(combo)@ == old(combo)@,
        advanced ==> advance_at_movable(old(combo)@, n, final(combo)@),
        is_combination(old(combo)@, n) ==> is_combination(final(combo)@, n),
{
    let ghost c = combo@;
    let k = combo.len();
    proof {
        lemma_movable_position(c, n, k as int);
    }
    let mut i = k;
    while i > 0
        invariant
            i <= k,
            k == c.len(),
            k <= n,
            combo@ == c,
            c == old(combo)@,
            movable_position(c, n, k as int) == movable_position(c, n, i as int),
        decreases i,
    {
        i -= 1;
        if combo[i] < n - k + i {
            let ghost p = i as int;
            assert(movable_position(c, n, (i + 1) as int) == p);
            assert(movable_position(c, n, k as int) == p);
            let v = combo[i] + 1;
            combo[i] = v;
            let mut j = i + 1;
            while j < k
                invariant
                    p < j <= k,
                    k == c.len(),
                    k <= n,
                    p == i,
                    c == old(combo)@,
                    movable_position(c, n, k as int) == p,
                    c[p] < n - k + p,
                    v == c[p] + 1,
                    combo@.len() == k,
                    forall|q: int| 0 <= q < p ==> #[trigger] combo@[q] == c[q],
                    forall|q: int| p <= q < j ==> #[trigger] combo@[q] == c[p] + 1 + (q - p),
                decreases k - j,
            {
                let w = combo[j - 1] + 1;
                combo[j] = w;
                j += 1;
            }
            proof {
                if is_combination(c, n) {
                    assert forall|a: int, b: int| 0 <= a < b < combo@.len() implies combo@[a] < combo@[b] by {
                        if b < p {
                        } else if a < p {
                            assert(c[a] < c[p]);
                        }
                    }
                    assert forall|q: int| 0 <= q < combo@.len() implies #[trigger] combo@[q] < n by {
                        if q < p {
                            assert(combo@[q] == c[q]);
                        }
                    }
                }
            }
            return true;
        }
    }
    false
}

/// The vertex lists held by a list of vectors.
pub open spec fn vertex_lists(s: Seq<Vec<usize>>) -> Seq<Seq<usize>> {
    s.map_values(|c: Vec<usize>| c@)
}

/// `a` comes before `b` in lexicographic order: at the first position where
/// they differ, `a` holds the smaller vertex.
pub open spec fn seq_lex_less(a: Seq<usize>, b: Seq<usize>) -> bool {
    exists|i: int|
        0 <= i < a.len() && i < b.len() && #[trigger] a[i] < #[trigger] b[i] && (forall|q: int|
            0 <= q < i ==> a[q] == b[q])
}

/// `c` is a simplex with `len` vertices of the clique complex of `close`:
/// strictly increasing vertices below `close.len()`, each two of them close
/// (`close[u][v]` for u listed before v).
pub open spec fn close_clique(close: Seq<Vec<bool>>, c: Seq<usize>, len: nat) -> bool {
    &&& c.len() == len
    &&& strictly_sorted(c)
    &&& forall|i: int| 0 <= i < c.len() ==> #[trigger] c[i] < close.len()
    &&& forall|a: int, b: int| 0 <= a < b < c.len() ==> close[c[a] as int]@[c[b] as int]
}

/// Extending two lists of equal length in order keeps them in order.
proof fn lemma_lex_push(a: Seq<usize>, b: Seq<usize>, v: usize, w: usize)
    requires
        a.len() == b.len(),
        seq_lex_less(a, b),
    ensures
        seq_lex_less(a.push(v), b.push(w)),
{
    let i = choose|i: int|
        0 <= i < a.len() && i < b.len() && #[trigger] a[i] < #[trigger] b[i] && (forall|q: int|
            0 <= q < i ==> a[q] == b[q]);
    assert(a.push(v)[i] == a[i] && b.push(w)[i] == b[i]);
    assert forall|q: int| 0 <= q < i implies a.push(v)[q] == b.push(w)[q] by {
        assert(a.push(v)[q] == a[q] && b.push(w)[q] == b[q]);
    }
}

/// Extending one list by a smaller and by a larger vertex puts them in order.
proof fn lemma_lex_last(a: Seq<usize>, v: usize, w: usize)
    requires
        v < w,
    ensures
        seq_lex_less(a.push(v), a.push(w)),
{
    let i = a.len() as int;
    assert(a.push(v)[i] == v && a.push(w)[i] == w);
    assert forall|q: int| 0 <= q < i implies a.push(v)[q] == a.push(w)[q] by {
        assert(a.push(v)[q] == a[q] && a.push(w)[q] == a[q]);
    }
}

/// Extending a clique by a later vertex close to all of its vertices gives
/// a clique; every clique of two or more vertices arises so from the clique
/// of its first vertices.
proof fn lemma_clique_push(close: Seq<Vec<bool>>, t: Seq<usize>, v: usize)
    requires
        t.len() > 0,
    ensures
        close_clique(close, t.push(v), t.len() + 1) <==> (close_clique(close, t, t.len()) && t.last()
            < v && v < close.len() && forall|a: int| 0 <= a < t.len() ==> #[trigger] close[t[a] as int]@[v as int]),
{
    let x = t.push(v);
    if close_clique(close, x, t.len() + 1) {
        assert forall|a: int, b: int| 0 <= a < b < t.len() implies t[a] < t[b] by {
            assert(x[a] == t[a] && x[b] == t[b]);
        }
        assert forall|i: int| 0 <= i < t.len() implies #[trigger] t[i] < close.len() by {
            assert(x[i] == t[i]);
        }
        assert forall|a: int, b: int| 0 <= a < b < t.len() implies close[t[a] as int]@[t[b] as int] by {
            assert(x[a] == t[a] && x[b] == t[b]);
        }
        assert(x[t.len() - 1] == t.last() && x[t.len() as int] == v);
        assert(x[t.len() as int] < close.len());
        assert forall|a: int| 0 <= a < t.len() implies #[trigger] close[t[a] as int]@[v as int] by {
            assert(x[a] == t[a]);
        }
    }
    if close_clique(close, t, t.len()) && t.last() < v && v < close.len() && forall|a: int|
        0 <= a < t.len() ==> #[trigger] close[t[a] as int]@[v as int] {
        assert forall|a: int, b: int| 0 <= a < b < x.len() implies x[a] < x[b] by {
            if b < t.len() {
                assert(x[a] == t[a] && x[b] == t[b]);
            } else {
                assert(x[a] == t[a]);
                if a < t.len() - 1 {
                    assert(t[a] < t[t.len() - 1]);
                }
            }
        }
        assert forall|i: int| 0 <= i < x.len() implies #[trigger] x[i] < close.len() by {
            if i < t.len() {
                assert(x[i] == t[i]);
            }
        }
        assert forall|a: int, b: int| 0 <= a < b < x.len() implies close[x[a] as int]@[x[b] as int] by {
            assert(x[a] == t[a]);
            if b < t.len() {
                assert(x[b] == t[b]);
            }
        }
    }
}

/// Whether vertex `v` is close to every vertex of `t`.
fn close_to_all(close: &[Vec<bool>], t: &Vec<usize>, v: usize) -> (r: bool)
    requires
        v < close@.len(),
        forall|i: int| 0 <= i < close@.len() ==> (#[trigger] close@[i])@.len() == close@.len(),
        forall|i: int| 0 <= i < t@.len() ==> #[trigger] t@[i] < close@.len(),
    ensures
        r == forall|a: int| 0 <= a < t@.len() ==> #[trigger] close@[t@[a] as int]@[v as int],
{
    let mut a: usize = 0;
    while a < t.len()
        invariant
            a <= t@.len(),
            v < close@.len(),
            forall|i: int| 0 <= i < close@.len() ==> (#[trigger] close@[i])@.len() == close@.len(),
            forall|i: int| 0 <= i < t@.len() ==> #[trigger] t@[i] < close@.len(),
            forall|q: int| 0 <= q < a ==> #[trigger] close@[t@[q] as int]@[v as int],
        decreases t.len() - a,
    {
        let u = t[a];
        assert(u < close@.len());
        if !close[u][v] {
            return false;
        }
        a += 1;
    }
    true
}

/// The `dim`-simplices of the clique complex of `close`: every strictly
/// increasing list of `dim + 1` vertices below `close.len()` whose vertices
/// are pairwise close, in lexicographic order. Built level by level, each
/// clique extended by the later vertices close to all of its vertices.
pub fn clique_simplices(close: &[Vec<bool>], dim: usize) -> (r: Vec<Vec<usize>>)
    requires
        dim < close@.len(),
        forall|i: int| 0 <= i < close@.len() ==> (#[trigger] close@[i])@.len() == close@.len(),
    ensures
        forall|t: Seq<usize>| #[trigger]
            vertex_lists(r@).contains(t) <==> close_clique(close@, t, (dim + 1) as nat),
        forall|a: int, b: int| 0 <= a < b < r@.len() ==> seq_lex_less(r@[a]@, r@[b]@),
{
    let n = close.len();
    let ghost cl = close@;
    let mut level: Vec<Vec<usize>> = Vec::new();
    let mut v: usize = 0;
    while v < n
        invariant
            v <= n,
            n == cl.len(),
            level@.len() == v,
            forall|q: int| 0 <= q < v ==> (#[trigger] level@[q])@ == seq![q as usize],
        decreases n - v,
    {
        level.push(vec![v]);
        v += 1;
    }
    proof {
        let lv = vertex_lists(level@);
        assert forall|t: Seq<usize>| #[trigger] lv.contains(t) <==> close_clique(cl, t, 1) by {
            if lv.contains(t) {
                let q = choose|q: int| 0 <= q < lv.len() && lv[q] == t;
                assert(t == seq![q as usize]);
            }
            if close_clique(cl, t, 1) {
                let q = t[0] as int;
                assert(t =~= seq![q as usize]);
                assert(lv[q] == t);
            }
        }
        assert forall|a: int, b: int| 0 <= a < b < level@.len() implies seq_lex_less(level@[a]@, level@[b]@) by {
            assert(level@[a]@[0] < level@[b]@[0]);
        }
    }
    let mut m: usize = 0;
    while m < dim
        invariant
            m <= dim,
            dim < n,
            n == cl.len(),
            cl == close@,
            forall|i: int| 0 <= i < cl.len() ==> (#[trigger] cl[i])@.len() == cl.len(),
            forall|t: Seq<usize>| #[trigger]
                vertex_lists(level@).contains(t) <==> close_clique(cl, t, (m + 1) as nat),
            forall|a: int, b: int| 0 <= a < b < level@.len() ==> seq_lex_less(level@[a]@, level@[b]@),
        decreases dim - m,
    {
        let ghost lv = vertex_lists(level@);
        proof {
            assert forall|q: int| 0 <= q < level@.len() implies close_clique(cl, #[trigger] level@[q]@, (m + 1) as nat) by {
                assert(lv[q] == level@[q]@);
                assert(lv.contains(lv[q]));
            }
        }
        let mut next: Vec<Vec<usize>> = Vec::new();
        let ghost mut origin: Seq<(int, usize)> = Seq::empty();
        let mut i: usize = 0;
        while i < level.len()
            invariant
                i <= level@.len(),
                dim < n,
                m < dim,
                n == cl.len(),
                cl == close@,
                forall|k: int| 0 <= k < cl.len() ==> (#[trigger] cl[k])@.len() == cl.len(),
                lv == vertex_lists(level@),
                forall|q: int| 0 <= q < level@.len() ==> close_clique(cl, #[trigger] level@[q]@, (m + 1) as nat),
                forall|a: int, b: int| 0 <= a < b < level@.len() ==> seq_lex_less(level@[a]@, level@[b]@),
                origin.len() == next@.len(),
                forall|a: int| 0 <= a < next@.len() ==> {
                    &&& 0 <= (#[trigger] origin[a]).0 < i
                    &&& next@[a]@ == level@[origin[a].0]@.push(origin[a].1)
                },
                forall|a: int, b: int|
                    0 <= a < b < next@.len() ==> (origin[a].0 < origin[b].0 || (origin[a].0 == origin[b].0
                        && origin[a].1 < origin[b].1)),
                forall|x: Seq<usize>| #[trigger]
                    vertex_lists(next@).contains(x) <==> (close_clique(cl, x, (m + 2) as nat)
                        && exists|q: int| 0 <= q < i && #[trigger] level@[q]@ == x.drop_last()),
            decreases level.len() - i,
        {
            let t = &level[i];
            let ghost tv = t@;
            assert(close_clique(cl, tv, (m + 1) as nat));
            assert(tv.len() > 0);
            let last = t[t.len() - 1];
            assert(last < n) by {
                assert(tv[tv.len() - 1] < cl.len());
            }
            let mut w: usize = last + 1;
            while w < n
                invariant
                    i < level@.len(),
                    last < w <= n,
                    n == cl.len(),
                    cl == close@,
                    tv == level@[i as int]@,
                    tv.len() == m + 1,
                    last == tv.last(),
                    close_clique(cl, tv, (m + 1) as nat),
                    forall|k: int| 0 <= k < cl.len() ==> (#[trigger] cl[k])@.len() == cl.len(),
                    lv == vertex_lists(level@),
                    forall|q: int| 0 <= q < level@.len() ==> close_clique(cl, #[trigger] level@[q]@, (m + 1) as nat),
                    forall|a: int, b: int| 0 <= a < b < level@.len() ==> seq_lex_less(level@[a]@, level@[b]@),
                    origin.len() == next@.len(),
                    forall|a: int| 0 <= a < next@.len() ==> {
                        &&& 0 <= (#[trigger] origin[a]).0 <= i
                        &&& next@[a]@ == level@[origin[a].0]@.push(origin[a].1)
                        &&& origin[a].0 == i ==> origin[a].1 < w
                    },
                    forall|a: int, b: int|
                        0 <= a < b < next@.len() ==> (origin[a].0 < origin[b].0 || (origin[a].0
                            == origin[b].0 && origin[a].1 < origin[b].1)),
                    forall|x: Seq<usize>| #[trigger]
                        vertex_lists(next@).contains(x) <==> (close_clique(cl, x, (m + 2) as nat)
                            && exists|q: int|
                            0 <= q <= i && #[trigger] level@[q]@ == x.drop_last() && (q == i ==> x.last() < w)),
                decreases n - w,
            {
                let t = &level[i];
                proof {
                    assert forall|k: int| 0 <= k < t@.len() implies #[trigger] t@[k] < close@.len() by {
                        assert(tv[k] < cl.len());
                    }
                }
                let ok = close_to_all(close, t, w);
                let ghost old_next = vertex_lists(next@);
                proof {
                    lemma_clique_push(cl, tv, w);
                }
                if ok {
                    let mut ext = t.clone();
                    assert(ext@ == tv) by {
                        assert(ext@ =~= tv);
                    }
                    ext.push(w);
                    let ghost x = tv.push(w);
                    proof {
                        assert(ext@ == x);
                        assert forall|a: int| 0 <= a < next@.len() implies (origin[a].0 < i as int || (origin[a].0
                            == i as int && origin[a].1 < w)) by {}
                    }
                    next.push(ext);
                    proof {
                        origin = origin.push((i as int, w));
                        let nv = vertex_lists(next@);
                        assert(nv =~= old_next.push(x));
                        assert(x.drop_last() =~= tv);
                        assert(x.last() == w);
                        assert forall|y: Seq<usize>| #[trigger] nv.contains(y) <==> (close_clique(cl, y, (m + 2) as nat)
                            && exists|q: int|
                            0 <= q <= i && #[trigger] level@[q]@ == y.drop_last() && (q == i ==> y.last() < w + 1)) by {
                            if nv.contains(y) {
                                let k = choose|k: int| 0 <= k < nv.len() && nv[k] == y;
                                if k < old_next.len() {
                                    assert(old_next[k] == y);
                                    assert(old_next.contains(y));
                                } else {
                                    assert(y == x);
                                    assert(level@[i as int]@ == y.drop_last());
                                }
                            }
                            if close_clique(cl, y, (m + 2) as nat) && exists|q: int|
                                0 <= q <= i && #[trigger] level@[q]@ == y.drop_last() && (q == i ==> y.last() < w + 1) {
                                let q = choose|q: int|
                                    0 <= q <= i && #[trigger] level@[q]@ == y.drop_last() && (q == i ==> y.last() < w + 1);
                                if q == i && y.last() == w {
                                    assert(y =~= y.drop_last().push(y.last()));
                                    assert(y == x);
                                    assert(nv[nv.len() - 1] == y);
                                } else {
                                    assert(old_next.contains(y));
                                    let k = choose|k: int| 0 <= k < old_next.len() && old_next[k] == y;
                                    assert(nv[k] == y);
                                }
                            }
                        }
                    }
                } else {
                    proof {
                        assert forall|y: Seq<usize>| #[trigger] old_next.contains(y) <==> (close_clique(cl, y, (m + 2) as nat)
                            && exists|q: int|
                            0 <= q <= i && #[trigger] level@[q]@ == y.drop_last() && (q == i ==> y.last() < w + 1)) by {
                            if close_clique(cl, y, (m + 2) as nat) && exists|q: int|
                                0 <= q <= i && #[trigger] level@[q]@ == y.drop_last() && (q == i ==> y.last() < w + 1) {
                                let q = choose|q: int|
                                    0 <= q <= i && #[trigger] level@[q]@ == y.drop_last() && (q == i ==> y.last() < w + 1);
                                if q == i && y.last() == w {
                                    assert(y =~= tv.push(w));
                                    assert(false);
                                }
                            }
                        }
                    }
                }
                w += 1;
            }
            proof {
                let nv = vertex_lists(next@);
                assert forall|x: Seq<usize>| #[trigger] nv.contains(x) <==> (close_clique(cl, x, (m + 2) as nat)
                    && exists|q: int| 0 <= q < i + 1 && #[trigger] level@[q]@ == x.drop_last()) by {
                    if close_clique(cl, x, (m + 2) as nat) && exists|q: int| 0 <= q < i + 1 && #[trigger] level@[q]@ == x.drop_last() {
                        let q = choose|q: int| 0 <= q < i + 1 && #[trigger] level@[q]@ == x.drop_last();
                        assert(x.last() < n) by {
                            assert(x[x.len() - 1] < cl.len());
                        }
                        assert(0 <= q <= i && level@[q]@ == x.drop_last() && (q == i ==> x.last() < w));
                    }
                }
            }
            i += 1;
        }
        proof {
            let nv = vertex_lists(next@);
            assert forall|x: Seq<usize>| #[trigger] nv.contains(x) <==> close_clique(cl, x, (m + 2) as nat) by {
                if close_clique(cl, x, (m + 2) as nat) {
                    let t = x.drop_last();
                    assert(x =~= t.push(x.last()));
                    lemma_clique_push(cl, t, x.last());
                    assert(lv.contains(t));
                    let q = choose|q: int| 0 <= q < lv.len() && lv[q] == t;
                    assert(level@[q]@ == x.drop_last());
                }
            }
            assert forall|a: int, b: int| 0 <= a < b < next@.len() implies seq_lex_less(next@[a]@, next@[b]@) by {
                let (qa, wa) = origin[a];
                let (qb, wb) = origin[b];
                if qa < qb {
                    lemma_lex_push(level@[qa]@, level@[qb]@, wa, wb);
                } else {
                    lemma_lex_last(level@[qa]@, wa, wb);
                }
            }
        }
        level = next;
        m += 1;
    }
    level
}

/// Entries of a strictly increasing list grow by at least one per position.
proof fn lemma_spread(x: Seq<usize>, a: int, b: int)
    requires
        strictly_sorted(x),
        0 <= a <= b < x.len(),
    ensures
        x[a] + (b - a) <= x[b],
    decreases b - a,
{
    if a < b {
        lemma_spread(x, a, b - 1);
        assert(x[b - 1] < x[b]);
    }
}

/// Entry `q` of a combination of `k` indices below `n` is at most
/// `n - k + q`.
proof fn lemma_combination_bound(x: Seq<usize>, n: usize, q: int)
    requires
        is_combination(x, n),
        0 <= q < x.len(),
    ensures
        x[q] <= n - x.len() + q,
{
    lemma_spread(x, q, x.len() - 1);
    assert(x[x.len() - 1] < n);
}

/// `next_combination` steps through the combinations of `k` indices below
/// `n` in lexicographic order: when a position can grow, the advanced list
/// comes after `c` with no combination strictly between them; when none
/// can, no combination comes after `c`.
pub proof fn next_combination_is_lex_successor(c: Seq<usize>, n: usize, s: Seq<usize>, t: Seq<usize>)
    requires
        is_combination(c, n),
        c.len() <= n,
        is_combination(t, n),
        t.len() == c.len(),
    ensures
        movable_position(c, n, c.len() as int) >= 0 && advance_at_movable(c, n, s) ==> seq_lex_less(c, s)
            && !(seq_lex_less(c, t) && seq_lex_less(t, s)),
        movable_position(c, n, c.len() as int) < 0 ==> !seq_lex_less(c, t),
{
    let k = c.len() as int;
    let p = movable_position(c, n, k);
    lemma_movable_position(c, n, k);
    if p >= 0 && advance_at_movable(c, n, s) {
        assert(c[p] < s[p]);
        assert forall|q: int| 0 <= q < p implies c[q] == s[q] by {
            assert(s[q] == c[q]);
        }
        assert(seq_lex_less(c, s));
        if seq_lex_less(c, t) && seq_lex_less(t, s) {
            let i = choose|i: int|
                0 <= i < c.len() && i < t.len() && #[trigger] c[i] < #[trigger] t[i] && (forall|q: int|
                    0 <= q < i ==> c[q] == t[q]);
            let j = choose|j: int|
                0 <= j < t.len() && j < s.len() && #[trigger] t[j] < #[trigger] s[j] && (forall|q: int|
                    0 <= q < j ==> t[q] == s[q]);
            if i > p {
                lemma_combination_bound(t, n, i);
                assert(!(c[i] < n - k + i));
            } else if i < p {
                assert(s[i] == c[i]);
                if j < i {
                    assert(c[j] == t[j] && s[j] == c[j]);
                } else if j > i {
                    assert(t[i] == s[i]);
                }
            } else {
                if j < p {
                    assert(c[j] == t[j] && s[j] == c[j]);
                } else if j > p {
                    assert(t[p] == s[p]);
                    lemma_spread(t, p, j);
                    assert(s[j] == c[p] + 1 + (j - p));
                }
            }
        }
    }
    if p < 0 && seq_lex_less(c, t) {
        let i = choose|i: int|
            0 <= i < c.len() && i < t.len() && #[trigger] c[i] < #[trigger] t[i] && (forall|q: int|
                0 <= q < i ==> c[q] == t[q]);
        assert(!(c[i] < n - k + i));
        lemma_combination_bound(t, n, i);
    }
}

/// `f` is a face of `s`: `s` with one vertex removed.
pub open spec fn is_face(f: Seq<usize>, s: Seq<usize>) -> bool {
    exists|k: int| 0 <= k < s.len() && f == s.remove(k)
}

/// Every face of a listed simplex that the list holds is listed before it:
/// whenever the vertex list at `h` is the vertex list at `i` with one vertex
/// removed, `h < i`.
pub open spec fn faces_listed_first<V>(s: Seq<(Vec<usize>, V)>) -> bool {
    forall|i: int, h: int|
        0 <= i < s.len() && 0 <= h < s.len() && #[trigger] is_face(s[h].0@, s[i].0@) ==> h < i
}

/// No simplex of the list is a face of the simplex at `p`.
pub open spec fn ready<V>(s: Seq<(Vec<usize>, V)>, p: int) -> bool {
    forall|q: int| 0 <= q < s.len() ==> !#[trigger] is_face(s[q].0@, s[p].0@)
}

/// A face has one vertex fewer.
proof fn lemma_face_shorter(f: Seq<usize>, s: Seq<usize>)
    ensures
        is_face(f, s) ==> f.len() + 1 == s.len(),
{
}

/// A simplex with fewest vertices has no face in the list, so some simplex
/// of a non-empty list is ready.
proof fn lemma_ready_exists<V>(s: Seq<(Vec<usize>, V)>)
    requires
        s.len() > 0,
    ensures
        exists|p: int| 0 <= p < s.len() && ready(s, p),
{
    let m = lemma_fewest_vertices(s);
    assert forall|q: int| 0 <= q < s.len() implies !#[trigger] is_face(s[q].0@, s[m].0@) by {
        lemma_face_shorter(s[q].0@, s[m].0@);
    }
    assert(ready(s, m));
}

/// A position holding a simplex with fewest vertices.
proof fn lemma_fewest_vertices<V>(s: Seq<(Vec<usize>, V)>) -> (m: int)
    requires
        s.len() > 0,
    ensures
        0 <= m < s.len(),
        forall|q: int| 0 <= q < s.len() ==> s[m].0@.len() <= #[trigger] s[q].0@.len(),
    decreases s.len(),
{
    if s.len() == 1 {
        0
    } else {
        let m0 = lemma_fewest_vertices(s.drop_last());
        assert(s.drop_last()[m0] == s[m0]);
        assert forall|q: int| 0 <= q < s.len() - 1 implies s[m0].0@.len() <= #[trigger] s[q].0@.len() by {
            assert(s.drop_last()[q] == s[q]);
        }
        if s[s.len() - 1].0@.len() < s[m0].0@.len() {
            s.len() - 1
        } else {
            m0
        }
    }
}

/// Whether `f` is `s` with vertex `k` removed.
fn equals_without(f: &Vec<usize>, s: &Vec<usize>, k: usize) -> (r: bool)
    requires
        k < s@.len(),
        f@.len() + 1 == s@.len(),
    ensures
        r == (f@ == s@.remove(k as int)),
{
    let mut i: usize = 0;
    while i < f.len()
        invariant
            k < s@.len(),
            f@.len() + 1 == s@.len(),
            i <= f@.len(),
            forall|j: int| 0 <= j < i ==> f@[j] == s@.remove(k as int)[j],
        decreases f.len() - i,
    {
        let t = if i < k { i } else { i + 1 };
        assert(s@.remove(k as int)[i as int] == s@[t as int]);
        if f[i] != s[t] {
            return false;
        }
        i += 1;
    }
    assert(f@ =~= s@.remove(k as int));
    true
}

/// Whether `f` is a face of `s`.
fn face_of(f: &Vec<usize>, s: &Vec<usize>) -> (r: bool)
    ensures
        r == is_face(f@, s@),
{
    if s.len() == 0 || f.len() != s.len() - 1 {
        return false;
    }
    let mut k: usize = 0;
    while k < s.len()
        invariant
            k <= s@.len(),
            f@.len() + 1 == s@.len(),
            forall|kk: int| 0 <= kk < k ==> f@ != s@.remove(kk),
        decreases s.len() - k,
    {
        if equals_without(f, s, k) {
            return true;
        }
        k += 1;
    }
    false
}

/// Whether no simplex of the list is a face of the simplex at `p`.
fn is_ready<V>(s: &Vec<(Vec<usize>, V)>, p: usize) -> (r: bool)
    requires
        p < s@.len(),
    ensures
        r == ready(s@, p as int),
{
    let mut q: usize = 0;
    while q < s.len()
        invariant
            p < s@.len(),
            q <= s@.len(),
            forall|qq: int| 0 <= qq < q ==> !#[trigger] is_face(s@[qq].0@, s@[p as int].0@),
        decreases s.len() - q,
    {
        if face_of(&s[q].0, &s[p].0) {
            return false;
        }
        q += 1;
    }
    true
}

/// The first position whose simplex has no face in the list.
fn first_ready<V>(s: &Vec<(Vec<usize>, V)>) -> (p: usize)
    requires
        exists|p: int| 0 <= p < s@.len() && ready(s@, p),
    ensures
        p < s@.len(),
        ready(s@, p as int),
        forall|p2: int| 0 <= p2 < p ==> !ready(s@, p2),
{
    let mut p: usize = 0;
    while p < s.len()
        invariant
            p <= s@.len(),
            exists|p: int| 0 <= p < s@.len() && ready(s@, p),
            forall|p2: int| 0 <= p2 < p ==> !ready(s@, p2),
        decreases s.len() - p,
    {
        if is_ready(s, p) {
            return p;
        }
        p += 1;
    }
    proof {
        let w = choose|w: int| 0 <= w < s@.len() && ready(s@, w);
        assert(!ready(s@, w));
    }
    0
}

/// Builder for filtrations of point clouds and weighted graphs.
pub struct FiltrationBuilder {
    max_dim: usize,
}

impl View for FiltrationBuilder {
    type V = usize;

    closed spec fn view(&self) -> usize {
        self.max_dim
    }
}

impl FiltrationBuilder {
    /// Create a new filtration builder with no limit on simplex dimension.
    pub fn new() -> (b: Self)
        ensures
            b@ == usize::MAX,
    {
        FiltrationBuilder { max_dim: usize::MAX }
    }

    /// Set the maximum simplex dimension.
    pub fn max_dim(self, d: usize) -> (b: Self)
        ensures
            b@ == d,
    {
        let mut s = self;
        s.max_dim = d;
        s
    }

    /// Whether flag filtrations include triangles (2-simplices).
    pub fn includes_triangles(&self) -> (r: bool)
        ensures
            r == (self@ >= 2 || self@ == usize::MAX),
    {
        self.max_dim >= 2 || self.max_dim == usize::MAX
    }

    /// Reorder simplices so that every face comes before its cofaces.
    ///
    /// Each step moves to the output the earliest remaining simplex none of
    /// whose faces remains, so a list that already has its faces first comes
    /// back unchanged, and any list comes back as a permutation of itself
    /// with every face that it lists ahead of each of its cofaces.
    pub fn ensure_face_order<V>(&self, simplices: Vec<(Vec<usize>, V)>) -> (r: Vec<(Vec<usize>, V)>)
        ensures
            r@.to_multiset() == simplices@.to_multiset(),
            faces_listed_first(r@),
            faces_listed_first(simplices@) ==> r@ == simplices@,
    {
        broadcast use vstd::seq_lib::group_to_multiset_ensures;

        let ghost input = simplices@;
        let mut remaining = simplices;
        let mut result: Vec<(Vec<usize>, V)> = Vec::new();
        assert(result@ + remaining@ =~= input);
        while remaining.len() > 0
            invariant
                result@.to_multiset().add(remaining@.to_multiset()) == input.to_multiset(),
                faces_listed_first(result@),
                forall|i: int, q: int|
                    0 <= i < result@.len() && 0 <= q < remaining@.len() ==> !#[trigger] is_face(
                        remaining@[q].0@,
                        result@[i].0@,
                    ),
                faces_listed_first(input) ==> result@ + remaining@ == input,
            decreases remaining.len(),
        {
            proof {
                lemma_ready_exists(remaining@);
                if faces_listed_first(input) {
                    assert forall|q: int| 0 <= q < remaining@.len() implies !#[trigger] is_face(
                        remaining@[q].0@,
                        remaining@[0].0@,
                    ) by {
                        lemma_face_shorter(remaining@[q].0@, remaining@[0].0@);
                        let a = result@.len() + q;
                        let b = result@.len() as int;
                        assert(input[a] == remaining@[q]);
                        assert(input[b] == remaining@[0]);
                    }
                    assert(ready(remaining@, 0));
                }
            }
            let ghost old_rem = remaining@;
            let ghost old_res = result@;
            let p = first_ready(&remaining);
            let x = remaining.remove(p);
            proof {
                assert(x == old_rem[p as int]);
                assert(remaining@ == old_rem.remove(p as int));
            }
            result.push(x);
            proof {
                assert(result@ == old_res.push(x));
                vstd::seq_lib::to_multiset_build(old_res, x);
                vstd::seq_lib::to_multiset_remove(old_rem, p as int);
                assert(result@.to_multiset() =~= old_res.to_multiset().insert(x));
                assert(remaining@.to_multiset() =~= old_rem.to_multiset().remove(x));
                vstd::seq_lib::to_multiset_contains(old_rem, x);
                assert(old_rem.contains(x)) by {
                    assert(old_rem[p as int] == x);
                }
                assert(old_rem.to_multiset().count(x) > 0);
                assert(result@.to_multiset().add(remaining@.to_multiset()) =~= old_res.to_multiset().add(
                    old_rem.to_multiset(),
                ));
                assert forall|i: int, h: int|
                    0 <= i < result@.len() && 0 <= h < result@.len() && #[trigger] is_face(
                        result@[h].0@,
                        result@[i].0@,
                    ) implies h < i by {
                    lemma_face_shorter(result@[h].0@, result@[i].0@);
                    if i < old_res.len() && h == old_res.len() {
                        assert(old_rem[p as int] == result@[h]);
                    }
                }
                assert forall|i: int, q: int|
                    0 <= i < result@.len() && 0 <= q < remaining@.len() implies !#[trigger] is_face(
                    remaining@[q].0@,
                    result@[i].0@,
                ) by {
                    let q2 = if q < p { q } else { q + 1 };
                    assert(remaining@[q] == old_rem[q2]);
                }
                if faces_listed_first(input) {
                    assert(p == 0);
                    assert(result@ + remaining@ =~= old_res + old_rem);
                }
            }
        }
        assert(remaining@.to_multiset() =~= vstd::multiset::Multiset::empty());
        assert(result@.to_multiset().add(vstd::multiset::Multiset::empty()) =~= result@.to_multiset());
        assert(result@ + remaining@ =~= result@);
        result
    }

    /// The triangles of the flag complex of a graph on `n_vertices` vertices:
    /// the triples `i < j < k` pairwise joined by edges (in either
    /// direction), in lexicographic order; none when triangles are excluded.
    pub fn flag_triangles(&self, n_vertices: usize, edges: &[(usize, usize)]) -> (tris: Vec<(usize, usize, usize)>)
        ensures
            !(self@ >= 2 || self@ == usize::MAX) ==> tris@.len() == 0,
            (self@ >= 2 || self@ == usize::MAX) ==> forall|t: (usize, usize, usize)| #[trigger]
                tris@.contains(t) <==> flag_triangle(n_vertices, edges@, t),
            forall|a: int, b: int| 0 <= a < b < tris@.len() ==> lex_less(tris@[a], tris@[b]),
    {
        let mut tris: Vec<(usize, usize, usize)> = Vec::new();
        if !self.includes_triangles() {
            return tris;
        }
        // Neighbours of each vertex below n_vertices.
        let mut adj: Vec<Vec<usize>> = Vec::new();
        let mut v: usize = 0;
        while v < n_vertices
            invariant
                v <= n_vertices,
                adj@.len() == v,
                forall|q: int| 0 <= q < v ==> (#[trigger] adj@[q])@.len() == 0,
            decreases n_vertices - v,
        {
            adj.push(Vec::new());
            v += 1;
        }
        let mut e: usize = 0;
        while e < edges.len()
            invariant
                e <= edges@.len(),
                adj@.len() == n_vertices,
                forall|a: int, b: usize|
                    0 <= a < n_vertices ==> (#[trigger] adj@[a]@.contains(b) <==> edge_present(
                        edges@.take(e as int),
                        a as usize,
                        b,
                    )),
            decreases edges.len() - e,
        {
            let (x, y) = edges[e];
            let ghost old_adj = adj@;
            let ghost te = edges@.take(e as int);
            assert(edges@.take(e + 1) =~= te.push(edges@[e as int]));
            if x < n_vertices {
                let mut row = adj[x].clone();
                row.push(y);
                adj.set(x, row);
            }
            if y < n_vertices {
                let mut row = adj[y].clone();
                row.push(x);
                adj.set(y, row);
            }
            assert forall|a: int, b: usize| 0 <= a < n_vertices implies (#[trigger] adj@[a]@.contains(b) <==> edge_present(
                edges@.take(e + 1),
                a as usize,
                b,
            )) by {
                let t1 = edges@.take(e + 1);
                if edge_present(t1, a as usize, b) {
                    let w = choose|w: int| 0 <= w < t1.len() && ((#[trigger] t1[w]).0 == a as usize && t1[w].1 == b || t1[w].0 == b && t1[w].1 == a as usize);
                    if w < e {
                        assert(te[w] == t1[w]);
                        assert(edge_present(te, a as usize, b));
                    }
                }
                if edge_present(te, a as usize, b) {
                    let w = choose|w: int| 0 <= w < te.len() && ((#[trigger] te[w]).0 == a as usize && te[w].1 == b || te[w].0 == b && te[w].1 == a as usize);
                    assert(t1[w] == te[w]);
                }
                lemma_adj_step(old_adj[a]@, adj@[a]@, a as usize, b, x, y);
                if (x == a as usize && y == b) || (y == a as usize && x == b) {
                    assert(t1[e as int] == (x, y));
                }
            }
            e += 1;
        }
        assert(edges@.take(edges@.len() as int) =~= edges@);
        let ghost gone = edges@;
        let n = n_vertices;
        let mut i: usize = 0;
        while i < n
            invariant
                i <= n,
                n == n_vertices,
                adj@.len() == n,
                forall|a: int, b: usize| 0 <= a < n ==> (#[trigger] adj@[a]@.contains(b) <==> edge_present(gone, a as usize, b)),
                forall|t: (usize, usize, usize)| #[trigger] tris@.contains(t) <==> (flag_triangle(n, gone, t) && t.0 < i),
                forall|a: int, b: int| 0 <= a < b < tris@.len() ==> lex_less(tris@[a], tris@[b]),
                forall|a: int| 0 <= a < tris@.len() ==> (#[trigger] tris@[a]).0 < i,
            decreases n - i,
        {
            let mut j: usize = i + 1;
            while j < n
                invariant
                    i < n,
                    i + 1 <= j <= n,
                    n == n_vertices,
                    adj@.len() == n,
                    forall|a: int, b: usize| 0 <= a < n ==> (#[trigger] adj@[a]@.contains(b) <==> edge_present(gone, a as usize, b)),
                    forall|t: (usize, usize, usize)| #[trigger] tris@.contains(t) <==> (flag_triangle(n, gone, t) && (t.0 < i || (t.0 == i && t.1 < j))),
                    forall|a: int, b: int| 0 <= a < b < tris@.len() ==> lex_less(tris@[a], tris@[b]),
                    forall|a: int| 0 <= a < tris@.len() ==> (#[trigger] tris@[a]).0 < i || (tris@[a].0 == i && tris@[a].1 < j),
                decreases n - j,
            {
                if contains_vertex(&adj[i], j) {
                    let mut k: usize = j + 1;
                    while k < n
                        invariant
                            i < j,
                            j < n,
                            j + 1 <= k <= n,
                            n == n_vertices,
                            adj@.len() == n,
                            edge_present(gone, i, j),
                            forall|a: int, b: usize| 0 <= a < n ==> (#[trigger] adj@[a]@.contains(b) <==> edge_present(gone, a as usize, b)),
                            forall|t: (usize, usize, usize)| #[trigger] tris@.contains(t) <==> (flag_triangle(n, gone, t) && (t.0 < i || (t.0 == i && t.1 < j) || (t.0 == i && t.1 == j && t.2 < k))),
                            forall|a: int, b: int| 0 <= a < b < tris@.len() ==> lex_less(tris@[a], tris@[b]),
                            forall|a: int| 0 <= a < tris@.len() ==> (#[trigger] tris@[a]).0 < i || (tris@[a].0 == i && tris@[a].1 < j) || (tris@[a].0 == i && tris@[a].1 == j && tris@[a].2 < k),
                        decreases n - k,
                    {
                        if contains_vertex(&adj[i], k) && contains_vertex(&adj[j], k) {
                            let ghost old_tris = tris@;
                            tris.push((i, j, k));
                            proof {
                                assert forall|t: (usize, usize, usize)| #[trigger] tris@.contains(t) <==> (old_tris.contains(t) || t == (i, j, k)) by {
                                    if tris@.contains(t) {
                                        let q = choose|q: int| 0 <= q < tris@.len() && tris@[q] == t;
                                        if q < old_tris.len() {
                                            assert(old_tris[q] == t);
                                        }
                                    }
                                    if old_tris.contains(t) {
                                        let q = choose|q: int| 0 <= q < old_tris.len() && old_tris[q] == t;
                                        assert(tris@[q] == t);
                                    }
                                    if t == (i, j, k) {
                                        assert(tris@[old_tris.len() as int] == t);
                                    }
                                }
                            }
                        }
                        k += 1;
                    }
                } else {
                    assert forall|t: (usize, usize, usize)| t.0 == i && t.1 == j implies !flag_triangle(n, gone, t) by {}
                }
                j += 1;
            }
            i += 1;
        }
        tris
    }
}

/// Adding an edge's endpoints to neighbour lists adds exactly that edge.
proof fn lemma_adj_step(before: Seq<usize>, after: Seq<usize>, a: usize, b: usize, x: usize, y: usize)
    requires
        (a == x && a == y) ==> after == before.push(y).push(x),
        (a == x && a != y) ==> after == before.push(y),
        (a != x && a == y) ==> after == before.push(x),
        (a != x && a != y) ==> after == before,
    ensures
        after.contains(b) <==> (before.contains(b) || (a == x && b == y) || (a == y && b == x)),
{
    crate::column::lemma_push_contains(before, y);
    crate::column::lemma_push_contains(before, x);
    crate::column::lemma_push_contains(before.push(y), x);
}

/// Whether a neighbour list holds vertex `v`.
fn contains_vertex(row: &Vec<usize>, v: usize) -> (r: bool)
    ensures
        r == row@.contains(v),
{
    let mut i: usize = 0;
    while i < row.len()
        invariant
            i <= row@.len(),
            forall|q: int| 0 <= q < i ==> row@[q] != v,
        decreases row.len() - i,
    {
        if row[i] == v {
            return true;
        }
        i += 1;
    }
    false
}

impl<V> Default for Filtration<V> {
    fn default() -> (f: Self)
        ensures
            f@.wf(),
            f@.simplices.len() == 0,
            f@.values.len() == 0,
    {
        Self::new()
    }
}

impl Default for FiltrationBuilder {
    fn default() -> (b: Self)
        ensures
            b@ == usize::MAX,
    {
        Self::new()
    }
}

} // verus!
