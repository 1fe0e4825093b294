//! Persistence barcodes.
//!
//! A barcode is a collection of half-open intervals [birth, death), each the
//! lifetime of a homology class across a filtration; infinite bars
//! [birth, ∞) are classes that never die. Bars are indexed by filtration step
//! and carry the dimension of the class.
use std::collections::HashMap;

use vstd::prelude::*;

use crate::reduction::ReducedMatrix;

verus! {

/// What a barcode holds: finite bars `(birth, death, dimension)` and infinite
/// bars `(birth, dimension)`, in the order they were added.
pub struct BarcodeModel {
    pub finite: Seq<(usize, usize, usize)>,
    pub infinite: Seq<(usize, usize)>,
}

/// The finite bars of dimension `dim`, as `(birth, death)`, in order.
pub open spec fn finite_in_dim(f: Seq<(usize, usize, usize)>, dim: usize) -> Seq<(usize, usize)>
    decreases f.len(),
{
    if f.len() == 0 {
        Seq::empty()
    } else {
        let rest = finite_in_dim(f.drop_last(), dim);
        if f.last().2 == dim {
            rest.push((f.last().0, f.last().1))
        } else {
            rest
        }
    }
}

/// The births of the infinite bars of dimension `dim`, in order.
pub open spec fn infinite_in_dim(g: Seq<(usize, usize)>, dim: usize) -> Seq<usize>
    decreases g.len(),
{
    if g.len() == 0 {
        Seq::empty()
    } else {
        let rest = infinite_in_dim(g.drop_last(), dim);
        if g.last().1 == dim {
            rest.push(g.last().0)
        } else {
            rest
        }
    }
}

/// Number of finite bars of dimension `dim`.
pub open spec fn count_finite(f: Seq<(usize, usize, usize)>, dim: usize) -> nat {
    finite_in_dim(f, dim).len()
}

/// Number of infinite bars of dimension `dim`.
pub open spec fn count_infinite(g: Seq<(usize, usize)>, dim: usize) -> nat {
    infinite_in_dim(g, dim).len()
}

/// A persistence barcode: collection of intervals [birth, death).
#[derive(Debug, Clone, PartialEq)]
pub struct Barcode {
    finite: Vec<(usize, usize, usize)>,
    infinite: Vec<(usize, usize)>,
}

impl View for Barcode {
    type V = BarcodeModel;

    closed spec fn view(&self) -> BarcodeModel {
        BarcodeModel { finite: self.finite@, infinite: self.infinite@ }
    }
}

impl Barcode {
    /// Create an empty barcode.
    pub fn new() -> (b: Self)
        ensures
            b@.finite == Seq::<(usize, usize, usize)>::empty(),
            b@.infinite == Seq::<(usize, usize)>::empty(),
    {
        Barcode { finite: Vec::new(), infinite: Vec::new() }
    }

    /// Create a barcode from a reduced matrix: one finite bar
    /// `(birth, death, dim(birth))` per persistence pair and one infinite bar
    /// `(col, dim(col))` per unpaired column, in the reduction's order.
    pub fn from_reduced(reduced: &ReducedMatrix) -> (b: Self)
        requires
            forall|i: int|
                0 <= i < reduced@.pairs.len() ==> (#[trigger] reduced@.pairs[i]).0
                    < reduced@.matrix.simplex_dims.len(),
            forall|i: int|
                0 <= i < reduced@.unpaired.len() ==> #[trigger] reduced@.unpaired[i]
                    < reduced@.matrix.simplex_dims.len(),
        ensures
            b@.finite == reduced@.pairs.map_values(
                |p: (usize, usize)| (p.0, p.1, reduced@.matrix.simplex_dims[p.0 as int]),
            ),
            b@.infinite == reduced@.unpaired.map_values(
                |u: usize| (u, reduced@.matrix.simplex_dims[u as int]),
            ),
    {
        let mut barcode = Self::new();
        let pairs = reduced.pairs();
        let unpaired = reduced.unpaired();
        let m = reduced.reduced_matrix();
        let ghost dims = reduced@.matrix.simplex_dims;
        let mut i: usize = 0;
        while i < pairs.len()
            invariant
                i <= pairs@.len(),
                pairs@ == reduced@.pairs,
                m@ == reduced@.matrix,
                dims == m@.simplex_dims,
                forall|k: int| 0 <= k < pairs@.len() ==> (#[trigger] pairs@[k]).0 < dims.len(),
                barcode@.infinite == Seq::<(usize, usize)>::empty(),
                barcode@.finite == pairs@.take(i as int).map_values(
                    |p: (usize, usize)| (p.0, p.1, dims[p.0 as int]),
                ),
            decreases pairs.len() - i,
        {
            let (birth, death) = pairs[i];
            let dim = m.simplex_dim(birth);
            barcode.add_finite(birth, death, dim);
            assert(pairs@.take(i + 1) =~= pairs@.take(i as int).push(pairs@[i as int]));
            assert(barcode@.finite =~= pairs@.take(i + 1).map_values(
                |p: (usize, usize)| (p.0, p.1, dims[p.0 as int]),
            ));
            i += 1;
        }
        assert(pairs@.take(pairs@.len() as int) =~= pairs@);
        let mut k: usize = 0;
        while k < unpaired.len()
            invariant
                k <= unpaired@.len(),
                unpaired@ == reduced@.unpaired,
                m@ == reduced@.matrix,
                dims == m@.simplex_dims,
                forall|q: int| 0 <= q < unpaired@.len() ==> #[trigger] unpaired@[q] < dims.len(),
                barcode@.finite == reduced@.pairs.map_values(
                    |p: (usize, usize)| (p.0, p.1, dims[p.0 as int]),
                ),
                barcode@.infinite == unpaired@.take(k as int).map_values(
                    |u: usize| (u, dims[u as int]),
                ),
            decreases unpaired.len() - k,
        {
            let birth = unpaired[k];
            let dim = m.simplex_dim(birth);
            barcode.add_infinite(birth, dim);
            assert(unpaired@.take(k + 1) =~= unpaired@.take(k as int).push(unpaired@[k as int]));
            assert(barcode@.infinite =~= unpaired@.take(k + 1).map_values(
                |u: usize| (u, dims[u as int]),
            ));
            k += 1;
        }
        assert(unpaired@.take(unpaired@.len() as int) =~= unpaired@);
        barcode
    }

    /// Add a finite bar [birth, death) in the given dimension.
    pub fn add_finite(&mut self, birth: usize, death: usize, dim: usize)
        ensures
            final(self)@.finite == old(self)@.finite.push((birth, death, dim)),
            final(self)@.infinite == old(self)@.infinite,
    {
        self.finite.push((birth, death, dim));
    }

    /// Add an infinite bar [birth, ∞) in the given dimension.
    pub fn add_infinite(&mut self, birth: usize, dim: usize)
        ensures
            final(self)@.finite == old(self)@.finite,
            final(self)@.infinite == old(self)@.infinite.push((birth, dim)),
    {
        self.infinite.push((birth, dim));
    }

    /// Total number of bars (finite + infinite).
    pub fn len(&self) -> (n: usize)
        requires
            self@.finite.len() + self@.infinite.len() <= usize::MAX,
        ensures
            n == self@.finite.len() + self@.infinite.len(),
    {
        self.finite.len() + self.infinite.len()
    }

    /// Check if the barcode is empty.
    pub fn is_empty(&self) -> (r: bool)
        requires
            self@.finite.len() + self@.infinite.len() <= usize::MAX,
        ensures
            r == (self@.finite.len() == 0 && self@.infinite.len() == 0),
    {
        self.len() == 0
    }

    /// Get finite bars as a slice of (birth, death, dimension).
    pub fn finite_bars(&self) -> (r: &[(usize, usize, usize)])
        ensures
            r@ == self@.finite,
    {
        self.finite.as_slice()
    }

    /// Get infinite bars as a slice of (birth, dimension).
    pub fn infinite_bars(&self) -> (r: &[(usize, usize)])
        ensures
            r@ == self@.infinite,
    {
        self.infinite.as_slice()
    }

    /// Get the bars of one dimension: the finite ones as (birth, death) and
    /// the births of the infinite ones, each in the barcode's order.
    pub fn bars_in_dimension(&self, dim: usize) -> (r: (Vec<(usize, usize)>, Vec<usize>))
        ensures
            r.0@ == finite_in_dim(self@.finite, dim),
            r.1@ == infinite_in_dim(self@.infinite, dim),
            r.0@ == self@.finite.filter(finite_bar_of_dim(dim)).map_values(
                |x: (usize, usize, usize)| (x.0, x.1),
            ),
            r.1@ == self@.infinite.filter(infinite_bar_of_dim(dim)).map_values(
                |x: (usize, usize)| x.0,
            ),
    {
        proof {
            bars_in_dim_are_filter(self@.finite, self@.infinite, dim);
        }
        let mut finite: Vec<(usize, usize)> = Vec::new();
        let mut i: usize = 0;
        while i < self.finite.len()
            invariant
                i <= self.finite@.len(),
                finite@ == finite_in_dim(self.finite@.take(i as int), dim),
            decreases self.finite.len() - i,
        {
            let (b, e, d) = self.finite[i];
            assert(self.finite@.take(i + 1).drop_last() =~= self.finite@.take(i as int));
            if d == dim {
                finite.push((b, e));
            }
            i += 1;
        }
        assert(self.finite@.take(self.finite@.len() as int) =~= self.finite@);
        let mut infinite: Vec<usize> = Vec::new();
        let mut k: usize = 0;
        while k < self.infinite.len()
            invariant
                k <= self.infinite@.len(),
                infinite@ == infinite_in_dim(self.infinite@.take(k as int), dim),
            decreases self.infinite.len() - k,
        {
            let (b, d) = self.infinite[k];
            assert(self.infinite@.take(k + 1).drop_last() =~= self.infinite@.take(k as int));
            if d == dim {
                infinite.push(b);
            }
            k += 1;
        }
        assert(self.infinite@.take(self.infinite@.len() as int) =~= self.infinite@);
        (finite, infinite)
    }

    /// Group bars by dimension: the map sends each dimension holding a bar to
    /// its (finite, infinite) bar counts.
    pub fn dimension_counts(&self) -> (counts: HashMap<usize, (usize, usize)>)
        ensures
            forall|d: usize| #[trigger]
                counts@.contains_key(d) <==> (count_finite(self@.finite, d) > 0 || count_infinite(
                    self@.infinite,
                    d,
                ) > 0),
            forall|d: usize| #[trigger]
                counts@.contains_key(d) ==> counts@[d].0 == count_finite(self@.finite, d)
                    && counts@[d].1 == count_infinite(self@.infinite, d),
            forall|d: usize| #[trigger]
                counts@.contains_key(d) ==> counts@[d].0 == self@.finite.filter(
                    finite_bar_of_dim(d),
                ).len() && counts@[d].1 == self@.infinite.filter(infinite_bar_of_dim(d)).len(),
    {
        let ghost f = self.finite@;
        let ghost g = self.infinite@;
        let mut counts: HashMap<usize, (usize, usize)> = HashMap::new();
        let mut i: usize = 0;
        while i < self.finite.len()
            invariant
                i <= f.len(),
                f == self.finite@,
                forall|d: usize| #[trigger]
                    counts@.contains_key(d) <==> count_finite(f.take(i as int), d) > 0,
                forall|d: usize| #[trigger]
                    counts@.contains_key(d) ==> counts@[d] == (
                        count_finite(f.take(i as int), d) as usize,
                        0usize,
                    ),
                forall|d: usize| #[trigger] count_finite(f.take(i as int), d) <= i,
            decreases self.finite.len() - i,
        {
            let (_, _, dim) = self.finite[i];
            let ghost t = f.take(i as int);
            assert(f.take(i + 1).drop_last() =~= t);
            assert(forall|d: usize| #[trigger] count_finite(f.take(i + 1), d) == count_finite(t, d) + if d == dim { 1nat } else { 0nat });
            match counts.get(&dim) {
                Some(c) => {
                    let (a, b) = *c;
                    counts.insert(dim, (a + 1, b));
                },
                None => {
                    counts.insert(dim, (1, 0));
                },
            }
            i += 1;
        }
        assert(f.take(f.len() as int) =~= f);
        let mut k: usize = 0;
        while k < self.infinite.len()
            invariant
                k <= g.len(),
                g == self.infinite@,
                forall|d: usize| #[trigger]
                    counts@.contains_key(d) <==> (count_finite(f, d) > 0 || count_infinite(
                        g.take(k as int),
                        d,
                    ) > 0),
                forall|d: usize| #[trigger]
                    counts@.contains_key(d) ==> counts@[d] == (
                        count_finite(f, d) as usize,
                        count_infinite(g.take(k as int), d) as usize,
                    ),
                forall|d: usize| #[trigger] count_infinite(g.take(k as int), d) <= k,
            decreases self.infinite.len() - k,
        {
            let (_, dim) = self.infinite[k];
            let ghost t = g.take(k as int);
            assert(g.take(k + 1).drop_last() =~= t);
            assert(forall|d: usize| #[trigger] count_infinite(g.take(k + 1), d) == count_infinite(t, d) + if d == dim { 1nat } else { 0nat });
            match counts.get(&dim) {
                Some(c) => {
                    let (a, b) = *c;
                    counts.insert(dim, (a, b + 1));
                },
                None => {
                    counts.insert(dim, (0, 1));
                },
            }
            k += 1;
        }
        assert(g.take(g.len() as int) =~= g);
        proof {
            assert forall|d: usize| #[trigger] counts@.contains_key(d) implies counts@[d].0 == f.filter(
                finite_bar_of_dim(d),
            ).len() && counts@[d].1 == g.filter(infinite_bar_of_dim(d)).len() by {
                bars_in_dim_are_filter(f, g, d);
                assert(count_finite(f, d) <= f.len());
                assert(count_infinite(g, d) <= g.len());
                assert(counts@[d].0 == count_finite(f, d));
                assert(counts@[d].1 == count_infinite(g, d));
            }
        }
        counts
    }
}

/// Whether a finite bar (birth, death, dimension) has dimension `dim`.
pub open spec fn finite_bar_of_dim(dim: usize) -> spec_fn((usize, usize, usize)) -> bool {
    |x: (usize, usize, usize)| x.2 == dim
}

/// Whether an infinite bar (birth, dimension) has dimension `dim`.
pub open spec fn infinite_bar_of_dim(dim: usize) -> spec_fn((usize, usize)) -> bool {
    |x: (usize, usize)| x.1 == dim
}

/// The finite bars of dimension `dim` are exactly the finite bars whose
/// dimension is `dim`, each kept with its multiplicity and in order, as
/// (birth, death); likewise the births of the infinite bars.
pub proof fn bars_in_dim_are_filter(f: Seq<(usize, usize, usize)>, g: Seq<(usize, usize)>, dim: usize)
    ensures
        finite_in_dim(f, dim) == f.filter(finite_bar_of_dim(dim)).map_values(
            |x: (usize, usize, usize)| (x.0, x.1),
        ),
        infinite_in_dim(g, dim) == g.filter(infinite_bar_of_dim(dim)).map_values(
            |x: (usize, usize)| x.0,
        ),
        count_finite(f, dim) == f.filter(finite_bar_of_dim(dim)).len(),
        count_infinite(g, dim) == g.filter(infinite_bar_of_dim(dim)).len(),
{
    lemma_finite_filter(f, dim);
    lemma_infinite_filter(g, dim);
}

proof fn lemma_finite_filter(f: Seq<(usize, usize, usize)>, dim: usize)
    ensures
        finite_in_dim(f, dim) == f.filter(finite_bar_of_dim(dim)).map_values(
            |x: (usize, usize, usize)| (x.0, x.1),
        ),
    decreases f.len(),
{
    reveal(Seq::filter);
    let h = f.filter(finite_bar_of_dim(dim));
    if f.len() > 0 {
        lemma_finite_filter(f.drop_last(), dim);
        let h0 = f.drop_last().filter(finite_bar_of_dim(dim));
        if f.last().2 == dim {
            assert(h == h0.push(f.last()));
            assert(h.map_values(|x: (usize, usize, usize)| (x.0, x.1)) =~= h0.map_values(
                |x: (usize, usize, usize)| (x.0, x.1),
            ).push((f.last().0, f.last().1)));
        } else {
            assert(h == h0);
        }
    } else {
        assert(h.map_values(|x: (usize, usize, usize)| (x.0, x.1)) =~= Seq::<(usize, usize)>::empty());
    }
}

proof fn lemma_infinite_filter(g: Seq<(usize, usize)>, dim: usize)
    ensures
        infinite_in_dim(g, dim) == g.filter(infinite_bar_of_dim(dim)).map_values(|x: (usize, usize)| x.0),
    decreases g.len(),
{
    reveal(Seq::filter);
    let h = g.filter(infinite_bar_of_dim(dim));
    if g.len() > 0 {
        lemma_infinite_filter(g.drop_last(), dim);
        let h0 = g.drop_last().filter(infinite_bar_of_dim(dim));
        if g.last().1 == dim {
            assert(h == h0.push(g.last()));
            assert(h.map_values(|x: (usize, usize)| x.0) =~= h0.map_values(|x: (usize, usize)| x.0).push(
                g.last().0,
            ));
        } else {
            assert(h == h0);
        }
    } else {
        assert(h.map_values(|x: (usize, usize)| x.0) =~= Seq::<usize>::empty());
    }
}

impl Default for Barcode {
    fn default() -> (b: Self)
        ensures
            b@.finite == Seq::<(usize, usize, usize)>::empty(),
            b@.infinite == Seq::<(usize, usize)>::empty(),
    {
        Self::new()
    }
}

} // verus!
