//! Betti numbers and persistent Betti numbers.
//!
//! βₖ counts the k-dimensional holes: the classes of dimension k born in the
//! filtration and never killed, that is, the unpaired columns of dimension k
//! of the reduced boundary matrix. At a filtration step ε, the persistent
//! Betti number βₖ(ε) counts the classes of dimension k born at or before ε
//! and not yet dead.
use std::collections::HashMap;

use vstd::prelude::*;

use crate::barcode::count_infinite;
use crate::barcode::infinite_in_dim;
use crate::reduction::{ReducedMatrix, ReductionModel};

verus! {

/// The largest of the first `n` simplex dimensions, or 0 when `n` is 0.
pub open spec fn max_dim_prefix(dims: Seq<usize>, n: nat) -> usize
    decreases n,
{
    if n == 0 {
        0
    } else {
        let m = max_dim_prefix(dims, (n - 1) as nat);
        if dims[n - 1] > m {
            dims[n - 1]
        } else {
            m
        }
    }
}

/// The columns among `cols` whose simplex has dimension `dim`, in order.
pub open spec fn cols_in_dim(cols: Seq<usize>, dims: Seq<usize>, dim: usize) -> Seq<usize>
    decreases cols.len(),
{
    if cols.len() == 0 {
        Seq::empty()
    } else {
        let rest = cols_in_dim(cols.drop_last(), dims, dim);
        if dims[cols.last() as int] == dim {
            rest.push(cols.last())
        } else {
            rest
        }
    }
}

/// The births of the pairs whose birth simplex has dimension `dim`, in order.
pub open spec fn pair_births_in_dim(pairs: Seq<(usize, usize)>, dims: Seq<usize>, dim: usize) -> Seq<
    usize,
>
    decreases pairs.len(),
{
    if pairs.len() == 0 {
        Seq::empty()
    } else {
        let rest = pair_births_in_dim(pairs.drop_last(), dims, dim);
        if dims[pairs.last().0 as int] == dim {
            rest.push(pairs.last().0)
        } else {
            rest
        }
    }
}

/// The deaths of the pairs whose birth simplex has dimension `dim`, in order.
pub open spec fn pair_deaths_in_dim(pairs: Seq<(usize, usize)>, dims: Seq<usize>, dim: usize) -> Seq<
    usize,
>
    decreases pairs.len(),
{
    if pairs.len() == 0 {
        Seq::empty()
    } else {
        let rest = pair_deaths_in_dim(pairs.drop_last(), dims, dim);
        if dims[pairs.last().0 as int] == dim {
            rest.push(pairs.last().1)
        } else {
            rest
        }
    }
}

/// Number of pairs `(b, d)` of dimension `dim` alive at step `t`: `b ≤ t < d`.
pub open spec fn live_pairs(pairs: Seq<(usize, usize)>, dims: Seq<usize>, dim: usize, t: usize) -> nat
    decreases pairs.len(),
{
    if pairs.len() == 0 {
        0
    } else {
        let p = pairs.last();
        live_pairs(pairs.drop_last(), dims, dim, t) + if dims[p.0 as int] == dim && p.0 <= t && p.1
            > t {
            1nat
        } else {
            0nat
        }
    }
}

/// Number of unpaired columns of dimension `dim` born at or before step `t`.
pub open spec fn live_unpaired(unpaired: Seq<usize>, dims: Seq<usize>, dim: usize, t: usize) -> nat
    decreases unpaired.len(),
{
    if unpaired.len() == 0 {
        0
    } else {
        let u = unpaired.last();
        live_unpaired(unpaired.drop_last(), dims, dim, t) + if dims[u as int] == dim && u <= t {
            1nat
        } else {
            0nat
        }
    }
}

/// Number of elements of `s` that are at most `t`.
pub open spec fn count_le(s: Seq<usize>, t: int) -> nat
    decreases s.len(),
{
    if s.len() == 0 {
        0
    } else {
        count_le(s.drop_last(), t) + if s.last() <= t {
            1nat
        } else {
            0nat
        }
    }
}

/// Number of elements of `s` equal to `t`.
pub open spec fn count_eq(s: Seq<usize>, t: int) -> nat
    decreases s.len(),
{
    if s.len() == 0 {
        0
    } else {
        count_eq(s.drop_last(), t) + if s.last() == t {
            1nat
        } else {
            0nat
        }
    }
}

/// The births of all classes of dimension `dim`: the births of its pairs, then
/// its unpaired columns.
pub open spec fn births_in_dim(
    pairs: Seq<(usize, usize)>,
    unpaired: Seq<usize>,
    dims: Seq<usize>,
    dim: usize,
) -> Seq<usize> {
    pair_births_in_dim(pairs, dims, dim) + cols_in_dim(unpaired, dims, dim)
}

/// Counting elements up to `t` splits into those up to `t - 1` and those
/// equal to `t`; neither count exceeds the length.
pub proof fn lemma_count_le_step(s: Seq<usize>, t: int)
    ensures
        count_le(s, t) == count_le(s, t - 1) + count_eq(s, t),
        count_le(s, t) <= s.len(),
        count_eq(s, t) <= s.len(),
    decreases s.len(),
{
    if s.len() > 0 {
        lemma_count_le_step(s.drop_last(), t);
    }
}

/// No element of a list of indices is at most -1.
pub proof fn lemma_count_le_below_zero(s: Seq<usize>)
    ensures
        count_le(s, -1) == 0,
    decreases s.len(),
{
    if s.len() > 0 {
        lemma_count_le_below_zero(s.drop_last());
    }
}

/// What Betti numbers hold: the map from each dimension k with a non-zero
/// Betti number to βₖ, and the largest simplex dimension of the complex.
pub struct BettiModel {
    pub betti: Map<usize, usize>,
    pub max_dim: usize,
}

impl BettiModel {
    /// βₖ, 0 for dimensions without features.
    pub open spec fn at(self, k: usize) -> nat {
        if self.betti.contains_key(k) {
            self.betti[k] as nat
        } else {
            0
        }
    }

    /// Every recorded dimension is at most the maximum dimension and has a
    /// positive count, and the counts add up to at most `usize::MAX`.
    pub open spec fn wf(self) -> bool {
        &&& forall|k: usize| #[trigger] self.betti.contains_key(k) ==> k <= self.max_dim && self.betti[k] > 0
        &&& betti_sum(self, self.max_dim as nat) <= usize::MAX
    }
}

/// Σ over the dimensions k ≤ t of βₖ.
pub open spec fn betti_sum(b: BettiModel, t: nat) -> nat
    decreases t,
{
    if t == 0 {
        b.at(0)
    } else {
        betti_sum(b, (t - 1) as nat) + b.at(t as usize)
    }
}

/// The largest dimension k ≤ t with βₖ > 0, or 0 when there is none.
pub open spec fn top_dim(b: BettiModel, t: nat) -> usize
    decreases t,
{
    if b.at(t as usize) > 0 || t == 0 {
        t as usize
    } else {
        top_dim(b, (t - 1) as nat)
    }
}

/// The sums grow with `t`.
proof fn lemma_betti_sum_grows(b: BettiModel, s: nat, t: nat)
    requires
        s <= t,
    ensures
        betti_sum(b, s) <= betti_sum(b, t),
    decreases t,
{
    if s < t {
        lemma_betti_sum_grows(b, s, (t - 1) as nat);
    }
}

/// Counting the columns of each dimension up to `t`.
pub open spec fn dim_counts_sum(u: Seq<usize>, dims: Seq<usize>, t: nat) -> nat
    decreases t,
{
    let c = cols_in_dim(u, dims, t as usize).len();
    if t == 0 {
        c
    } else {
        dim_counts_sum(u, dims, (t - 1) as nat) + c
    }
}

/// One more column adds one to the counts of the dimensions up to `t` that
/// hold its dimension.
proof fn lemma_dim_counts_push(u: Seq<usize>, dims: Seq<usize>, x: usize, t: nat)
    requires
        t <= usize::MAX,
    ensures
        dim_counts_sum(u.push(x), dims, t) == dim_counts_sum(u, dims, t) + if dims[x as int] <= t {
            1nat
        } else {
            0nat
        },
    decreases t,
{
    assert(u.push(x).drop_last() =~= u);
    if t > 0 {
        lemma_dim_counts_push(u, dims, x, (t - 1) as nat);
    }
}

/// When every column's dimension is at most `t`, the counts of the
/// dimensions up to `t` add up to the number of columns.
proof fn lemma_dim_counts_all(u: Seq<usize>, dims: Seq<usize>, t: nat)
    requires
        t <= usize::MAX,
        forall|i: int| 0 <= i < u.len() ==> dims[#[trigger] u[i] as int] <= t,
    ensures
        dim_counts_sum(u, dims, t) == u.len(),
    decreases u.len(),
{
    if u.len() == 0 {
        lemma_dim_counts_empty(u, dims, t);
    } else {
        let u0 = u.drop_last();
        assert forall|i: int| 0 <= i < u0.len() implies dims[#[trigger] u0[i] as int] <= t by {
            assert(u0[i] == u[i]);
        }
        lemma_dim_counts_all(u0, dims, t);
        assert(u =~= u0.push(u.last()));
        lemma_dim_counts_push(u0, dims, u.last(), t);
        assert(dims[u[u.len() - 1] as int] <= t);
    }
}

proof fn lemma_dim_counts_empty(u: Seq<usize>, dims: Seq<usize>, t: nat)
    requires
        u.len() == 0,
    ensures
        dim_counts_sum(u, dims, t) == 0,
    decreases t,
{
    if t > 0 {
        lemma_dim_counts_empty(u, dims, (t - 1) as nat);
    }
}

/// A listed column of a dimension has that dimension and is one of the
/// given columns; there are at most as many as columns.
proof fn lemma_cols_in_dim_members(u: Seq<usize>, dims: Seq<usize>, k: usize)
    ensures
        cols_in_dim(u, dims, k).len() <= u.len(),
        cols_in_dim(u, dims, k).len() > 0 ==> exists|i: int| 0 <= i < u.len() && dims[#[trigger] u[i] as int] == k,
    decreases u.len(),
{
    if u.len() > 0 {
        lemma_cols_in_dim_members(u.drop_last(), dims, k);
        if cols_in_dim(u.drop_last(), dims, k).len() > 0 {
            let i = choose|i: int| 0 <= i < u.drop_last().len() && dims[#[trigger] u.drop_last()[i] as int] == k;
            assert(u[i] == u.drop_last()[i]);
        }
        if dims[u.last() as int] == k {
            assert(dims[u[u.len() - 1] as int] == k);
        }
    }
}

/// Each of the first `n` dimensions is at most their maximum.
proof fn lemma_max_dim_prefix(dims: Seq<usize>, n: nat, j: int)
    requires
        0 <= j < n,
    ensures
        dims[j] <= max_dim_prefix(dims, n),
    decreases n,
{
    if j < n - 1 {
        lemma_max_dim_prefix(dims, (n - 1) as nat, j);
    }
}

/// When βₖ counts the columns of dimension k, the sums of the Betti numbers
/// and of the counts agree.
proof fn lemma_betti_sum_counts(b: BettiModel, u: Seq<usize>, dims: Seq<usize>, t: nat)
    requires
        t <= usize::MAX,
        forall|k: usize| #[trigger] b.at(k) == cols_in_dim(u, dims, k).len(),
    ensures
        betti_sum(b, t) == dim_counts_sum(u, dims, t),
    decreases t,
{
    if t > 0 {
        lemma_betti_sum_counts(b, u, dims, (t - 1) as nat);
    }
    assert(b.at(t as usize) == cols_in_dim(u, dims, t as usize).len());
}

/// Betti numbers for each homology dimension.
#[derive(Debug, Clone, PartialEq)]
pub struct BettiNumbers {
    betti: HashMap<usize, usize>,
    max_dim: usize,
}

impl View for BettiNumbers {
    type V = BettiModel;

    closed spec fn view(&self) -> BettiModel {
        BettiModel { betti: self.betti@, max_dim: self.max_dim }
    }
}

impl BettiNumbers {
    /// Create empty Betti numbers.
    pub fn new() -> (b: Self)
        ensures
            b@.wf(),
            b@.betti == Map::<usize, usize>::empty(),
            b@.max_dim == 0,
    {
        let b = BettiNumbers { betti: HashMap::new(), max_dim: 0 };
        assert(betti_sum(b@, 0) == 0);
        b
    }

    /// Compute Betti numbers from a reduced boundary matrix: βₖ is the number
    /// of unpaired columns of dimension k, and the maximum dimension is the
    /// largest dimension of the simplices of the columns.
    pub fn from_reduced(reduced: &ReducedMatrix) -> (b: Self)
        requires
            reduced@.matrix.columns.len() <= reduced@.matrix.simplex_dims.len(),
            forall|i: int|
                0 <= i < reduced@.unpaired.len() ==> #[trigger] reduced@.unpaired[i]
                    < reduced@.matrix.columns.len(),
        ensures
            b@.wf(),
            forall|k: usize| #[trigger]
                b@.at(k) == cols_in_dim(reduced@.unpaired, reduced@.matrix.simplex_dims, k).len(),
            betti_sum(b@, b@.max_dim as nat) == reduced@.unpaired.len(),
            b@.max_dim == max_dim_prefix(
                reduced@.matrix.simplex_dims,
                reduced@.matrix.columns.len(),
            ),
    {
        let boundary = reduced.reduced_matrix();
        let ghost dims = boundary@.simplex_dims;
        let n = boundary.num_cols();
        let mut max_dim: usize = 0;
        let mut j: usize = 0;
        while j < n
            invariant
                j <= n,
                n == boundary@.columns.len(),
                n <= dims.len(),
                dims == boundary@.simplex_dims,
                max_dim == max_dim_prefix(dims, j as nat),
            decreases n - j,
        {
            let d = boundary.simplex_dim(j);
            if d > max_dim {
                max_dim = d;
            }
            j += 1;
        }
        let unpaired = reduced.unpaired();
        let ghost u = unpaired@;
        let mut betti: HashMap<usize, usize> = HashMap::new();
        let mut i: usize = 0;
        while i < unpaired.len()
            invariant
                i <= u.len(),
                u == unpaired@,
                u == reduced@.unpaired,
                dims == boundary@.simplex_dims,
                n == boundary@.columns.len(),
                n <= dims.len(),
                forall|q: int| 0 <= q < u.len() ==> #[trigger] u[q] < n,
                forall|k: usize| #[trigger]
                    betti@.contains_key(k) <==> cols_in_dim(u.take(i as int), dims, k).len() > 0,
                forall|k: usize| #[trigger]
                    betti@.contains_key(k) ==> betti@[k] == cols_in_dim(u.take(i as int), dims, k).len(),
            decreases u.len() - i,
        {
            let col = unpaired[i];
            let dim = boundary.simplex_dim(col);
            let ghost t = u.take(i as int);
            assert(u.take(i + 1).drop_last() =~= t);
            assert(u.take(i + 1).last() == col);
            proof {
                lemma_cols_in_dim_members(t, dims, dim);
            }
            let c: usize = match betti.get(&dim) {
                Some(c) => *c,
                None => 0,
            };
            betti.insert(dim, c + 1);
            i += 1;
        }
        assert(u.take(u.len() as int) =~= u);
        let b = BettiNumbers { betti, max_dim };
        proof {
            assert forall|k: usize| #[trigger] b@.at(k) == cols_in_dim(u, dims, k).len() by {}
            assert forall|q: int| 0 <= q < u.len() implies dims[#[trigger] u[q] as int] <= max_dim by {
                lemma_max_dim_prefix(dims, n as nat, u[q] as int);
            }
            lemma_dim_counts_all(u, dims, max_dim as nat);
            lemma_betti_sum_counts(b@, u, dims, max_dim as nat);
            assert forall|k: usize| #[trigger] b@.betti.contains_key(k) implies k <= b@.max_dim && b@.betti[k] > 0 by {
                lemma_cols_in_dim_members(u, dims, k);
                let q = choose|q: int| 0 <= q < u.len() && dims[#[trigger] u[q] as int] == k;
                lemma_max_dim_prefix(dims, n as nat, u[q] as int);
            }
        }
        b
    }

    /// Get βₖ (Betti number in dimension k). Returns 0 if no features in
    /// dimension k.
    pub fn at(&self, k: usize) -> (r: usize)
        requires
            self@.wf(),
        ensures
            r == self@.at(k),
    {
        match self.betti.get(&k) {
            Some(c) => *c,
            None => 0,
        }
    }

    /// Get the total Betti number: the sum of βₖ over all dimensions, that is
    /// over the dimensions up to the maximum dimension.
    pub fn total(&self) -> (r: usize)
        requires
            self@.wf(),
        ensures
            r == betti_sum(self@, self@.max_dim as nat),
    {
        let mut sum: usize = self.at(0);
        let mut k: usize = 0;
        proof {
            lemma_betti_sum_grows(self@, 0, self@.max_dim as nat);
        }
        while k < self.max_dim
            invariant
                self@.wf(),
                k <= self@.max_dim,
                sum == betti_sum(self@, k as nat),
            decreases self@.max_dim - k,
        {
            proof {
                lemma_betti_sum_grows(self@, (k + 1) as nat, self@.max_dim as nat);
            }
            k += 1;
            sum = sum + self.at(k);
        }
        sum
    }

    /// Get the maximum dimension with a non-zero Betti number (0 if none).
    pub fn max_dimension(&self) -> (r: usize)
        requires
            self@.wf(),
        ensures
            r == top_dim(self@, self@.max_dim as nat),
            r == 0 || self@.at(r) > 0,
            forall|j: usize| r < j ==> #[trigger] self@.at(j) == 0,
    {
        proof {
            max_dimension_is_last_nonzero(self@);
        }
        let mut k: usize = self.max_dim;
        while k > 0 && self.at(k) == 0
            invariant
                self@.wf(),
                k <= self@.max_dim,
                top_dim(self@, k as nat) == top_dim(self@, self@.max_dim as nat),
            decreases k,
        {
            k -= 1;
        }
        k
    }

    /// Get all Betti numbers as a vector indexed by dimension, from 0 to the
    /// maximum dimension.
    pub fn to_vec(&self) -> (v: Vec<usize>)
        requires
            self@.wf(),
            self@.max_dim < usize::MAX,
        ensures
            v@.len() == self@.max_dim + 1,
            forall|k: int| 0 <= k <= self@.max_dim ==> #[trigger] v@[k] == self@.at(k as usize),
    {
        let mut v: Vec<usize> = Vec::new();
        let mut k: usize = 0;
        while k <= self.max_dim
            invariant
                k <= self.max_dim + 1,
                self.max_dim < usize::MAX,
                self@.wf(),
                v@.len() == k,
                forall|q: int| 0 <= q < k ==> #[trigger] v@[q] == self@.at(q as usize),
            decreases self.max_dim + 1 - k,
        {
            v.push(self.at(k));
            k += 1;
        }
        v
    }

    /// Compute the Betti curve of dimension `dim`: entry `s + 1` is the
    /// number of classes of that dimension born at or before step `s` minus
    /// those dead at or before step `s`; entry 0 is 0.
    pub fn betti_curve(reduced: &ReducedMatrix, dim: usize) -> (curve: Vec<usize>)
        requires
            reduced@.matrix.columns.len() < usize::MAX,
            forall|i: int|
                0 <= i < reduced@.pairs.len() ==> (#[trigger] reduced@.pairs[i]).0
                    < reduced@.matrix.simplex_dims.len(),
            forall|i: int|
                0 <= i < reduced@.unpaired.len() ==> #[trigger] reduced@.unpaired[i]
                    < reduced@.matrix.simplex_dims.len(),
            forall|s: int|
                0 <= s < reduced@.matrix.columns.len() ==> #[trigger] count_le(
                    pair_deaths_in_dim(reduced@.pairs, reduced@.matrix.simplex_dims, dim),
                    s,
                ) <= count_le(
                    births_in_dim(
                        reduced@.pairs,
                        reduced@.unpaired,
                        reduced@.matrix.simplex_dims,
                        dim,
                    ),
                    s,
                ),
        ensures
            curve@.len() == reduced@.matrix.columns.len() + 1,
            curve@[0] == 0,
            forall|s: int|
                0 <= s < reduced@.matrix.columns.len() ==> #[trigger] curve@[s + 1] == count_le(
                    births_in_dim(
                        reduced@.pairs,
                        reduced@.unpaired,
                        reduced@.matrix.simplex_dims,
                        dim,
                    ),
                    s,
                ) - count_le(
                    pair_deaths_in_dim(reduced@.pairs, reduced@.matrix.simplex_dims, dim),
                    s,
                ),
    {
        let boundary = reduced.reduced_matrix();
        let ghost dims = boundary@.simplex_dims;
        let n = boundary.num_cols();
        let pairs = reduced.pairs();
        let unpaired = reduced.unpaired();
        let mut births: Vec<usize> = Vec::new();
        let mut deaths: Vec<usize> = Vec::new();
        let mut i: usize = 0;
        while i < pairs.len()
            invariant
                i <= pairs@.len(),
                pairs@ == reduced@.pairs,
                dims == boundary@.simplex_dims,
                forall|q: int| 0 <= q < pairs@.len() ==> (#[trigger] pairs@[q]).0 < dims.len(),
                births@ == pair_births_in_dim(pairs@.take(i as int), dims, dim),
                deaths@ == pair_deaths_in_dim(pairs@.take(i as int), dims, dim),
            decreases pairs.len() - i,
        {
            let (birth, death) = pairs[i];
            assert(pairs@.take(i + 1).drop_last() =~= pairs@.take(i as int));
            if boundary.simplex_dim(birth) == dim {
                births.push(birth);
                deaths.push(death);
            }
            i += 1;
        }
        assert(pairs@.take(pairs@.len() as int) =~= pairs@);
        let ghost pb = births@;
        let mut k: usize = 0;
        while k < unpaired.len()
            invariant
                k <= unpaired@.len(),
                unpaired@ == reduced@.unpaired,
                dims == boundary@.simplex_dims,
                forall|q: int| 0 <= q < unpaired@.len() ==> #[trigger] unpaired@[q] < dims.len(),
                births@ == pb + cols_in_dim(unpaired@.take(k as int), dims, dim),
            decreases unpaired.len() - k,
        {
            let col = unpaired[k];
            assert(unpaired@.take(k + 1).drop_last() =~= unpaired@.take(k as int));
            if boundary.simplex_dim(col) == dim {
                births.push(col);
            }
            assert(births@ =~= pb + cols_in_dim(unpaired@.take(k + 1), dims, dim));
            k += 1;
        }
        assert(unpaired@.take(unpaired@.len() as int) =~= unpaired@);
        let ghost bs = births@;
        let ghost ds = deaths@;
        assert(bs == births_in_dim(reduced@.pairs, reduced@.unpaired, dims, dim));
        let mut curve: Vec<usize> = Vec::new();
        let mut z: usize = 0;
        while z <= n
            invariant
                z <= n + 1,
                n < usize::MAX,
                curve@.len() == z,
                forall|q: int| 0 <= q < z ==> #[trigger] curve@[q] == 0,
            decreases n + 1 - z,
        {
            curve.push(0);
            z += 1;
        }
        proof {
            lemma_count_le_below_zero(bs);
            lemma_count_le_below_zero(ds);
        }
        let mut current: usize = 0;
        let mut step: usize = 0;
        while step < n
            invariant
                step <= n,
                n < usize::MAX,
                n == reduced@.matrix.columns.len(),
                curve@.len() == n + 1,
                curve@[0] == 0,
                births@ == bs,
                deaths@ == ds,
                bs == births_in_dim(reduced@.pairs, reduced@.unpaired, dims, dim),
                ds == pair_deaths_in_dim(reduced@.pairs, dims, dim),
                dims == reduced@.matrix.simplex_dims,
                forall|s: int| 0 <= s < n ==> #[trigger] count_le(ds, s) <= count_le(bs, s),
                current == count_le(bs, step - 1) - count_le(ds, step - 1),
                count_le(ds, step - 1) <= count_le(bs, step - 1),
                forall|s: int|
                    0 <= s < step ==> #[trigger] curve@[s + 1] == count_le(bs, s) - count_le(ds, s),
            decreases n - step,
        {
            let mut nb: usize = 0;
            let mut q: usize = 0;
            while q < births.len()
                invariant
                    q <= births@.len(),
                    nb == count_eq(births@.take(q as int), step as int),
                    nb <= q,
                decreases births.len() - q,
            {
                assert(births@.take(q + 1).drop_last() =~= births@.take(q as int));
                if births[q] == step {
                    nb += 1;
                }
                q += 1;
            }
            assert(births@.take(births@.len() as int) =~= births@);
            let mut nd: usize = 0;
            let mut q2: usize = 0;
            while q2 < deaths.len()
                invariant
                    q2 <= deaths@.len(),
                    nd == count_eq(deaths@.take(q2 as int), step as int),
                    nd <= q2,
                decreases deaths.len() - q2,
            {
                assert(deaths@.take(q2 + 1).drop_last() =~= deaths@.take(q2 as int));
                if deaths[q2] == step {
                    nd += 1;
                }
                q2 += 1;
            }
            assert(deaths@.take(deaths@.len() as int) =~= deaths@);
            proof {
                lemma_count_le_step(bs, step as int);
                lemma_count_le_step(ds, step as int);
                assert(count_le(ds, step as int) <= count_le(bs, step as int));
            }
            current = current + nb;
            current = current - nd;
            curve.set(step + 1, current);
            step += 1;
        }
        curve
    }

    /// Compute the persistent Betti number of dimension `dim` at filtration
    /// step `threshold`: the unpaired columns of that dimension at or before
    /// the step, plus the pairs of that dimension born at or before it and
    /// dying after it.
    pub fn persistent_betti(reduced: &ReducedMatrix, dim: usize, threshold: usize) -> (count: usize)
        requires
            forall|i: int|
                0 <= i < reduced@.pairs.len() ==> (#[trigger] reduced@.pairs[i]).0
                    < reduced@.matrix.simplex_dims.len(),
            forall|i: int|
                0 <= i < reduced@.unpaired.len() ==> #[trigger] reduced@.unpaired[i]
                    < reduced@.matrix.simplex_dims.len(),
            live_unpaired(reduced@.unpaired, reduced@.matrix.simplex_dims, dim, threshold)
                + live_pairs(reduced@.pairs, reduced@.matrix.simplex_dims, dim, threshold)
                <= usize::MAX,
        ensures
            count == live_unpaired(reduced@.unpaired, reduced@.matrix.simplex_dims, dim, threshold)
                + live_pairs(reduced@.pairs, reduced@.matrix.simplex_dims, dim, threshold),
            count == reduced@.unpaired.filter(
                |x: usize| reduced@.matrix.simplex_dims[x as int] == dim && x <= threshold,
            ).len() + reduced@.pairs.filter(
                |x: (usize, usize)|
                    reduced@.matrix.simplex_dims[x.0 as int] == dim && x.0 <= threshold && threshold < x.1,
            ).len(),
    {
        proof {
            live_unpaired_is_filter(reduced@.unpaired, reduced@.matrix.simplex_dims, dim, threshold);
            live_pairs_is_filter(reduced@.pairs, reduced@.matrix.simplex_dims, dim, threshold);
        }
        let boundary = reduced.reduced_matrix();
        let ghost dims = boundary@.simplex_dims;
        let unpaired = reduced.unpaired();
        let pairs = reduced.pairs();
        let ghost lu = live_unpaired(unpaired@, dims, dim, threshold);
        let ghost lp = live_pairs(pairs@, dims, dim, threshold);
        let mut count: usize = 0;
        let mut i: usize = 0;
        while i < unpaired.len()
            invariant
                i <= unpaired@.len(),
                unpaired@ == reduced@.unpaired,
                dims == boundary@.simplex_dims,
                dims == reduced@.matrix.simplex_dims,
                forall|q: int| 0 <= q < unpaired@.len() ==> #[trigger] unpaired@[q] < dims.len(),
                lu == live_unpaired(unpaired@, dims, dim, threshold),
                lu + lp <= usize::MAX,
                count == live_unpaired(unpaired@.take(i as int), dims, dim, threshold),
            decreases unpaired.len() - i,
        {
            let col = unpaired[i];
            assert(unpaired@.take(i + 1).drop_last() =~= unpaired@.take(i as int));
            proof {
                lemma_live_unpaired_prefix(unpaired@, dims, dim, threshold, i + 1);
            }
            if boundary.simplex_dim(col) == dim && col <= threshold {
                count += 1;
            }
            i += 1;
        }
        assert(unpaired@.take(unpaired@.len() as int) =~= unpaired@);
        let mut k: usize = 0;
        while k < pairs.len()
            invariant
                k <= pairs@.len(),
                pairs@ == reduced@.pairs,
                dims == boundary@.simplex_dims,
                forall|q: int| 0 <= q < pairs@.len() ==> (#[trigger] pairs@[q]).0 < dims.len(),
                lp == live_pairs(pairs@, dims, dim, threshold),
                lu + lp <= usize::MAX,
                count == lu + live_pairs(pairs@.take(k as int), dims, dim, threshold),
            decreases pairs.len() - k,
        {
            let (birth, death) = pairs[k];
            assert(pairs@.take(k + 1).drop_last() =~= pairs@.take(k as int));
            proof {
                lemma_live_pairs_prefix(pairs@, dims, dim, threshold, k + 1);
            }
            if boundary.simplex_dim(birth) == dim && birth <= threshold && death > threshold {
                count += 1;
            }
            k += 1;
        }
        assert(pairs@.take(pairs@.len() as int) =~= pairs@);
        count
    }
}

/// Counting over a prefix never exceeds counting over the whole list.
pub proof fn lemma_live_unpaired_prefix(u: Seq<usize>, dims: Seq<usize>, dim: usize, t: usize, i: int)
    requires
        0 <= i <= u.len(),
    ensures
        live_unpaired(u.take(i), dims, dim, t) <= live_unpaired(u, dims, dim, t),
    decreases u.len(),
{
    if i < u.len() {
        assert(u.drop_last().take(i) =~= u.take(i));
        lemma_live_unpaired_prefix(u.drop_last(), dims, dim, t, i);
    } else {
        assert(u.take(i) =~= u);
    }
}

/// Counting over a prefix never exceeds counting over the whole list.
pub proof fn lemma_live_pairs_prefix(p: Seq<(usize, usize)>, dims: Seq<usize>, dim: usize, t: usize, i: int)
    requires
        0 <= i <= p.len(),
    ensures
        live_pairs(p.take(i), dims, dim, t) <= live_pairs(p, dims, dim, t),
    decreases p.len(),
{
    if i < p.len() {
        assert(p.drop_last().take(i) =~= p.take(i));
        lemma_live_pairs_prefix(p.drop_last(), dims, dim, t, i);
    } else {
        assert(p.take(i) =~= p);
    }
}

/// The Betti number βₖ of a reduction is the number of infinite bars of
/// dimension k in its barcode.
pub proof fn betti_counts_infinite_bars(r: ReductionModel, k: usize)
    ensures
        cols_in_dim(r.unpaired, r.matrix.simplex_dims, k).len() == count_infinite(
            r.unpaired.map_values(|u: usize| (u, r.matrix.simplex_dims[u as int])),
            k,
        ),
{
    lemma_cols_in_dim_bars(r.unpaired, r.matrix.simplex_dims, k);
}

/// Counting unpaired columns of a dimension agrees with counting the infinite
/// bars they give.
pub proof fn lemma_cols_in_dim_bars(u: Seq<usize>, dims: Seq<usize>, k: usize)
    ensures
        cols_in_dim(u, dims, k) == infinite_in_dim(u.map_values(|x: usize| (x, dims[x as int])), k),
    decreases u.len(),
{
    if u.len() > 0 {
        lemma_cols_in_dim_bars(u.drop_last(), dims, k);
        let g = u.map_values(|x: usize| (x, dims[x as int]));
        assert(g.drop_last() =~= u.drop_last().map_values(|x: usize| (x, dims[x as int])));
        assert(g.last() == (u.last(), dims[u.last() as int]));
    }
}

/// Past every index of a reduction, the persistent Betti number of dimension
/// k is the Betti number βₖ: every finite class has died, and every infinite
/// class has been born.
pub proof fn persistent_betti_at_end_is_betti(r: ReductionModel, k: usize, t: usize)
    requires
        forall|i: int| 0 <= i < r.unpaired.len() ==> #[trigger] r.unpaired[i] <= t,
        forall|i: int| 0 <= i < r.pairs.len() ==> (#[trigger] r.pairs[i]).1 <= t,
    ensures
        live_unpaired(r.unpaired, r.matrix.simplex_dims, k, t) + live_pairs(
            r.pairs,
            r.matrix.simplex_dims,
            k,
            t,
        ) == cols_in_dim(r.unpaired, r.matrix.simplex_dims, k).len(),
{
    lemma_live_unpaired_all(r.unpaired, r.matrix.simplex_dims, k, t);
    lemma_live_pairs_none(r.pairs, r.matrix.simplex_dims, k, t);
}

/// When every unpaired column is at most `t`, all of a dimension's unpaired
/// columns are alive at `t`.
pub proof fn lemma_live_unpaired_all(u: Seq<usize>, dims: Seq<usize>, k: usize, t: usize)
    requires
        forall|i: int| 0 <= i < u.len() ==> #[trigger] u[i] <= t,
    ensures
        live_unpaired(u, dims, k, t) == cols_in_dim(u, dims, k).len(),
    decreases u.len(),
{
    if u.len() > 0 {
        assert forall|i: int| 0 <= i < u.drop_last().len() implies #[trigger] u.drop_last()[i] <= t by {
            assert(u.drop_last()[i] == u[i]);
        }
        lemma_live_unpaired_all(u.drop_last(), dims, k, t);
        assert(u.last() <= t) by {
            assert(u[u.len() - 1] <= t);
        }
    }
}

/// When every pair dies at or before `t`, no pair is alive at `t`.
pub proof fn lemma_live_pairs_none(p: Seq<(usize, usize)>, dims: Seq<usize>, k: usize, t: usize)
    requires
        forall|i: int| 0 <= i < p.len() ==> (#[trigger] p[i]).1 <= t,
    ensures
        live_pairs(p, dims, k, t) == 0,
    decreases p.len(),
{
    if p.len() > 0 {
        assert forall|i: int| 0 <= i < p.drop_last().len() implies (#[trigger] p.drop_last()[i]).1 <= t by {
            assert(p.drop_last()[i] == p[i]);
        }
        lemma_live_pairs_none(p.drop_last(), dims, k, t);
        assert(p.last().1 <= t) by {
            assert(p[p.len() - 1].1 <= t);
        }
    }
}

/// Counting elements at most `t` over a concatenation.
pub proof fn lemma_count_le_concat(a: Seq<usize>, b: Seq<usize>, t: int)
    ensures
        count_le(a + b, t) == count_le(a, t) + count_le(b, t),
    decreases b.len(),
{
    if b.len() == 0 {
        assert(a + b =~= a);
    } else {
        lemma_count_le_concat(a, b.drop_last(), t);
        assert((a + b).drop_last() =~= a + b.drop_last());
        assert((a + b).last() == b.last());
    }
}

/// The deaths of a dimension's pairs, counted up to `t`, never outnumber
/// their births when each pair is born before it dies.
pub proof fn lemma_deaths_follow_births(p: Seq<(usize, usize)>, dims: Seq<usize>, k: usize, t: int)
    requires
        forall|i: int| 0 <= i < p.len() ==> (#[trigger] p[i]).0 < p[i].1,
    ensures
        count_le(pair_deaths_in_dim(p, dims, k), t) <= count_le(pair_births_in_dim(p, dims, k), t),
        pair_deaths_in_dim(p, dims, k).len() == pair_births_in_dim(p, dims, k).len(),
    decreases p.len(),
{
    if p.len() > 0 {
        assert forall|i: int| 0 <= i < p.drop_last().len() implies (#[trigger] p.drop_last()[i]).0
            < p.drop_last()[i].1 by {
            assert(p.drop_last()[i] == p[i]);
        }
        lemma_deaths_follow_births(p.drop_last(), dims, k, t);
        assert(p.last().0 < p.last().1) by {
            assert(p[p.len() - 1].0 < p[p.len() - 1].1);
        }
        let pd = pair_deaths_in_dim(p.drop_last(), dims, k);
        let pb = pair_births_in_dim(p.drop_last(), dims, k);
        if dims[p.last().0 as int] == k {
            assert(pd.push(p.last().1).drop_last() =~= pd);
            assert(pb.push(p.last().0).drop_last() =~= pb);
        }
    }
}

/// When every pair of a reduction is born before it dies (as for the
/// reduction of a boundary matrix whose faces precede their cofaces), the
/// Betti curve is defined at every step: up to any step, the deaths of a
/// dimension never outnumber its births.
pub proof fn betti_curve_births_cover_deaths(r: ReductionModel, k: usize, s: int)
    requires
        forall|i: int| 0 <= i < r.pairs.len() ==> (#[trigger] r.pairs[i]).0 < r.pairs[i].1,
    ensures
        count_le(pair_deaths_in_dim(r.pairs, r.matrix.simplex_dims, k), s) <= count_le(
            births_in_dim(r.pairs, r.unpaired, r.matrix.simplex_dims, k),
            s,
        ),
{
    let dims = r.matrix.simplex_dims;
    lemma_deaths_follow_births(r.pairs, dims, k, s);
    lemma_count_le_concat(pair_births_in_dim(r.pairs, dims, k), cols_in_dim(r.unpaired, dims, k), s);
}

/// Counting elements at most `t` counts everything when all are at most `t`.
pub proof fn lemma_count_le_all(s: Seq<usize>, t: int)
    requires
        forall|i: int| 0 <= i < s.len() ==> #[trigger] s[i] <= t,
    ensures
        count_le(s, t) == s.len(),
    decreases s.len(),
{
    if s.len() > 0 {
        assert forall|i: int| 0 <= i < s.drop_last().len() implies #[trigger] s.drop_last()[i] <= t by {
            assert(s.drop_last()[i] == s[i]);
        }
        lemma_count_le_all(s.drop_last(), t);
        assert(s.last() <= t) by {
            assert(s[s.len() - 1] <= t);
        }
    }
}

/// Every death listed for a dimension is the death of some pair.
pub proof fn lemma_pair_deaths_bounded(p: Seq<(usize, usize)>, dims: Seq<usize>, k: usize, t: int)
    requires
        forall|i: int| 0 <= i < p.len() ==> (#[trigger] p[i]).1 <= t,
    ensures
        forall|i: int| 0 <= i < pair_deaths_in_dim(p, dims, k).len() ==> #[trigger] pair_deaths_in_dim(p, dims, k)[i] <= t,
    decreases p.len(),
{
    if p.len() > 0 {
        assert forall|i: int| 0 <= i < p.drop_last().len() implies (#[trigger] p.drop_last()[i]).1 <= t by {
            assert(p.drop_last()[i] == p[i]);
        }
        lemma_pair_deaths_bounded(p.drop_last(), dims, k, t);
        assert(p.last().1 <= t) by {
            assert(p[p.len() - 1].1 <= t);
        }
        let rest = pair_deaths_in_dim(p.drop_last(), dims, k);
        if dims[p.last().0 as int] == k {
            assert forall|i: int| 0 <= i < rest.push(p.last().1).len() implies #[trigger] rest.push(p.last().1)[i] <= t by {
                if i < rest.len() {
                    assert(rest.push(p.last().1)[i] == rest[i]);
                }
            }
        }
    }
}

/// Every birth listed for a dimension is the birth of some pair.
pub proof fn lemma_pair_births_bounded(p: Seq<(usize, usize)>, dims: Seq<usize>, k: usize, t: int)
    requires
        forall|i: int| 0 <= i < p.len() ==> (#[trigger] p[i]).0 <= t,
    ensures
        forall|i: int| 0 <= i < pair_births_in_dim(p, dims, k).len() ==> #[trigger] pair_births_in_dim(p, dims, k)[i] <= t,
    decreases p.len(),
{
    if p.len() > 0 {
        assert forall|i: int| 0 <= i < p.drop_last().len() implies (#[trigger] p.drop_last()[i]).0 <= t by {
            assert(p.drop_last()[i] == p[i]);
        }
        lemma_pair_births_bounded(p.drop_last(), dims, k, t);
        assert(p.last().0 <= t) by {
            assert(p[p.len() - 1].0 <= t);
        }
        let rest = pair_births_in_dim(p.drop_last(), dims, k);
        if dims[p.last().0 as int] == k {
            assert forall|i: int| 0 <= i < rest.push(p.last().0).len() implies #[trigger] rest.push(p.last().0)[i] <= t by {
                if i < rest.len() {
                    assert(rest.push(p.last().0)[i] == rest[i]);
                }
            }
        }
    }
}

/// Every listed column of a dimension is one of the given columns.
pub proof fn lemma_cols_in_dim_bounded(u: Seq<usize>, dims: Seq<usize>, k: usize, t: int)
    requires
        forall|i: int| 0 <= i < u.len() ==> #[trigger] u[i] <= t,
    ensures
        forall|i: int| 0 <= i < cols_in_dim(u, dims, k).len() ==> #[trigger] cols_in_dim(u, dims, k)[i] <= t,
    decreases u.len(),
{
    if u.len() > 0 {
        assert forall|i: int| 0 <= i < u.drop_last().len() implies #[trigger] u.drop_last()[i] <= t by {
            assert(u.drop_last()[i] == u[i]);
        }
        lemma_cols_in_dim_bounded(u.drop_last(), dims, k, t);
        assert(u.last() <= t) by {
            assert(u[u.len() - 1] <= t);
        }
        let rest = cols_in_dim(u.drop_last(), dims, k);
        if dims[u.last() as int] == k {
            assert forall|i: int| 0 <= i < rest.push(u.last()).len() implies #[trigger] rest.push(u.last())[i] <= t by {
                if i < rest.len() {
                    assert(rest.push(u.last())[i] == rest[i]);
                }
            }
        }
    }
}

/// When every index of a reduction lies before step `t`, the Betti curve's
/// value after step `t` is the Betti number βₖ.
pub proof fn betti_curve_ends_at_betti(r: ReductionModel, k: usize, t: int)
    requires
        forall|i: int| 0 <= i < r.unpaired.len() ==> #[trigger] r.unpaired[i] <= t,
        forall|i: int| 0 <= i < r.pairs.len() ==> (#[trigger] r.pairs[i]).0 <= t && r.pairs[i].1 <= t,
    ensures
        count_le(births_in_dim(r.pairs, r.unpaired, r.matrix.simplex_dims, k), t) - count_le(
            pair_deaths_in_dim(r.pairs, r.matrix.simplex_dims, k),
            t,
        ) == cols_in_dim(r.unpaired, r.matrix.simplex_dims, k).len(),
{
    let dims = r.matrix.simplex_dims;
    let pb = pair_births_in_dim(r.pairs, dims, k);
    let pd = pair_deaths_in_dim(r.pairs, dims, k);
    let cu = cols_in_dim(r.unpaired, dims, k);
    lemma_pair_births_bounded(r.pairs, dims, k, t);
    lemma_pair_deaths_bounded(r.pairs, dims, k, t);
    lemma_cols_in_dim_bounded(r.unpaired, dims, k, t);
    lemma_count_le_concat(pb, cu, t);
    lemma_count_le_all(pb, t);
    lemma_count_le_all(pd, t);
    lemma_count_le_all(cu, t);
    lemma_pairs_same_count(r.pairs, dims, k);
}

/// A dimension lists as many pair deaths as pair births.
pub proof fn lemma_pairs_same_count(p: Seq<(usize, usize)>, dims: Seq<usize>, k: usize)
    ensures
        pair_deaths_in_dim(p, dims, k).len() == pair_births_in_dim(p, dims, k).len(),
    decreases p.len(),
{
    if p.len() > 0 {
        lemma_pairs_same_count(p.drop_last(), dims, k);
    }
}

/// Counting a dimension's unpaired columns up to `t` counts those alive at `t`.
pub proof fn lemma_live_unpaired_count(u: Seq<usize>, dims: Seq<usize>, k: usize, t: usize)
    ensures
        count_le(cols_in_dim(u, dims, k), t as int) == live_unpaired(u, dims, k, t),
    decreases u.len(),
{
    if u.len() > 0 {
        lemma_live_unpaired_count(u.drop_last(), dims, k, t);
        let rest = cols_in_dim(u.drop_last(), dims, k);
        if dims[u.last() as int] == k {
            assert(rest.push(u.last()).drop_last() =~= rest);
        }
    }
}

/// For pairs each born before it dies, the births of a dimension up to `t`
/// are its deaths up to `t` plus its pairs alive at `t`.
pub proof fn lemma_live_pairs_count(p: Seq<(usize, usize)>, dims: Seq<usize>, k: usize, t: usize)
    requires
        forall|i: int| 0 <= i < p.len() ==> (#[trigger] p[i]).0 < p[i].1,
    ensures
        count_le(pair_births_in_dim(p, dims, k), t as int) == count_le(
            pair_deaths_in_dim(p, dims, k),
            t as int,
        ) + live_pairs(p, dims, k, t),
    decreases p.len(),
{
    if p.len() > 0 {
        assert forall|i: int| 0 <= i < p.drop_last().len() implies (#[trigger] p.drop_last()[i]).0
            < p.drop_last()[i].1 by {
            assert(p.drop_last()[i] == p[i]);
        }
        lemma_live_pairs_count(p.drop_last(), dims, k, t);
        assert(p.last().0 < p.last().1) by {
            assert(p[p.len() - 1].0 < p[p.len() - 1].1);
        }
        let pb = pair_births_in_dim(p.drop_last(), dims, k);
        let pd = pair_deaths_in_dim(p.drop_last(), dims, k);
        if dims[p.last().0 as int] == k {
            assert(pb.push(p.last().0).drop_last() =~= pb);
            assert(pd.push(p.last().1).drop_last() =~= pd);
        }
    }
}

/// The Betti curve after step `t` is the persistent Betti number at `t`:
/// when every pair of a reduction is born before it dies, the classes of a
/// dimension born by step `t` minus those dead by step `t` are exactly those
/// alive at `t`.
pub proof fn betti_curve_is_persistent_betti(r: ReductionModel, k: usize, t: usize)
    requires
        forall|i: int| 0 <= i < r.pairs.len() ==> (#[trigger] r.pairs[i]).0 < r.pairs[i].1,
    ensures
        count_le(births_in_dim(r.pairs, r.unpaired, r.matrix.simplex_dims, k), t as int) - count_le(
            pair_deaths_in_dim(r.pairs, r.matrix.simplex_dims, k),
            t as int,
        ) == live_unpaired(r.unpaired, r.matrix.simplex_dims, k, t) + live_pairs(
            r.pairs,
            r.matrix.simplex_dims,
            k,
            t,
        ),
{
    let dims = r.matrix.simplex_dims;
    lemma_count_le_concat(pair_births_in_dim(r.pairs, dims, k), cols_in_dim(r.unpaired, dims, k), t as int);
    lemma_live_unpaired_count(r.unpaired, dims, k, t);
    lemma_live_pairs_count(r.pairs, dims, k, t);
}

/// The largest dimension with a non-zero Betti number: the dimension that
/// `max_dimension` gives is 0 or has βₖ > 0, and every dimension above it has
/// β = 0.
pub proof fn max_dimension_is_last_nonzero(b: BettiModel)
    requires
        b.wf(),
    ensures
        top_dim(b, b.max_dim as nat) <= b.max_dim,
        top_dim(b, b.max_dim as nat) == 0 || b.at(top_dim(b, b.max_dim as nat)) > 0,
        forall|j: usize| top_dim(b, b.max_dim as nat) < j ==> #[trigger] b.at(j) == 0,
{
    lemma_top_dim(b, b.max_dim as nat);
    assert forall|j: usize| top_dim(b, b.max_dim as nat) < j implies #[trigger] b.at(j) == 0 by {
        if j > b.max_dim {
            assert(!b.betti.contains_key(j));
        }
    }
}

proof fn lemma_top_dim(b: BettiModel, t: nat)
    requires
        t <= usize::MAX,
    ensures
        top_dim(b, t) <= t,
        top_dim(b, t) == 0 || b.at(top_dim(b, t)) > 0,
        forall|j: usize| top_dim(b, t) < j <= t ==> #[trigger] b.at(j) == 0,
    decreases t,
{
    if !(b.at(t as usize) > 0 || t == 0) {
        lemma_top_dim(b, (t - 1) as nat);
    }
}

/// The unpaired columns of dimension k are exactly the unpaired columns
/// whose simplex has dimension k, in order.
pub proof fn cols_in_dim_is_filter(u: Seq<usize>, dims: Seq<usize>, k: usize)
    ensures
        cols_in_dim(u, dims, k) == u.filter(|x: usize| dims[x as int] == k),
    decreases u.len(),
{
    reveal(Seq::filter);
    if u.len() > 0 {
        cols_in_dim_is_filter(u.drop_last(), dims, k);
    }
}

/// The births and the deaths listed for dimension k are those of exactly
/// the pairs whose birth simplex has dimension k, in order.
pub proof fn pairs_in_dim_are_filter(p: Seq<(usize, usize)>, dims: Seq<usize>, k: usize)
    ensures
        pair_births_in_dim(p, dims, k) == p.filter(|x: (usize, usize)| dims[x.0 as int] == k).map_values(
            |x: (usize, usize)| x.0,
        ),
        pair_deaths_in_dim(p, dims, k) == p.filter(|x: (usize, usize)| dims[x.0 as int] == k).map_values(
            |x: (usize, usize)| x.1,
        ),
    decreases p.len(),
{
    reveal(Seq::filter);
    let f = p.filter(|x: (usize, usize)| dims[x.0 as int] == k);
    if p.len() > 0 {
        pairs_in_dim_are_filter(p.drop_last(), dims, k);
        let f0 = p.drop_last().filter(|x: (usize, usize)| dims[x.0 as int] == k);
        if dims[p.last().0 as int] == k {
            assert(f == f0.push(p.last()));
            assert(f.map_values(|x: (usize, usize)| x.0) =~= f0.map_values(|x: (usize, usize)| x.0).push(
                p.last().0,
            ));
            assert(f.map_values(|x: (usize, usize)| x.1) =~= f0.map_values(|x: (usize, usize)| x.1).push(
                p.last().1,
            ));
        } else {
            assert(f == f0);
        }
    } else {
        assert(f.map_values(|x: (usize, usize)| x.0) =~= Seq::<usize>::empty());
        assert(f.map_values(|x: (usize, usize)| x.1) =~= Seq::<usize>::empty());
    }
}

/// The pairs counted alive at step t in dimension k are exactly the pairs
/// whose birth simplex has dimension k, born at or before t and dying after
/// t.
pub proof fn live_pairs_is_filter(p: Seq<(usize, usize)>, dims: Seq<usize>, k: usize, t: usize)
    ensures
        live_pairs(p, dims, k, t) == p.filter(
            |x: (usize, usize)| dims[x.0 as int] == k && x.0 <= t && t < x.1,
        ).len(),
    decreases p.len(),
{
    reveal(Seq::filter);
    if p.len() > 0 {
        live_pairs_is_filter(p.drop_last(), dims, k, t);
    }
}

/// The unpaired columns counted alive at step t in dimension k are exactly
/// those whose simplex has dimension k and that are at most t.
pub proof fn live_unpaired_is_filter(u: Seq<usize>, dims: Seq<usize>, k: usize, t: usize)
    ensures
        live_unpaired(u, dims, k, t) == u.filter(|x: usize| dims[x as int] == k && x <= t).len(),
    decreases u.len(),
{
    reveal(Seq::filter);
    if u.len() > 0 {
        live_unpaired_is_filter(u.drop_last(), dims, k, t);
    }
}

/// Counting up to t counts the elements that are at most t.
pub proof fn count_le_is_filter(s: Seq<usize>, t: int)
    ensures
        count_le(s, t) == s.filter(|x: usize| x <= t).len(),
    decreases s.len(),
{
    reveal(Seq::filter);
    if s.len() > 0 {
        count_le_is_filter(s.drop_last(), t);
    }
}

/// The maximum of the first `n` dimensions bounds each of them and is one
/// of them (0 when `n` is 0).
pub proof fn max_dim_prefix_is_maximum(dims: Seq<usize>, n: nat)
    requires
        n <= dims.len(),
    ensures
        forall|j: int| 0 <= j < n ==> #[trigger] dims[j] <= max_dim_prefix(dims, n),
        n == 0 ==> max_dim_prefix(dims, n) == 0,
        n > 0 ==> exists|j: int| 0 <= j < n && #[trigger] dims[j] == max_dim_prefix(dims, n),
    decreases n,
{
    if n > 0 {
        max_dim_prefix_is_maximum(dims, (n - 1) as nat);
        if n > 1 && dims[n - 1] <= max_dim_prefix(dims, (n - 1) as nat) {
            let j = choose|j: int| 0 <= j < n - 1 && #[trigger] dims[j] == max_dim_prefix(dims, (n - 1) as nat);
            assert(dims[j] == max_dim_prefix(dims, n));
        } else {
            assert(dims[n - 1] == max_dim_prefix(dims, n));
        }
    }
}

impl Default for BettiNumbers {
    fn default() -> (b: Self)
        ensures
            b@.wf(),
            b@.betti == Map::<usize, usize>::empty(),
            b@.max_dim == 0,
    {
        Self::new()
    }
}

} // verus!
