//! Persistence diagrams: multisets of points (birth, death) in the plane,
//! one per topological feature, each with the feature's dimension.
//!
//! The coordinates are a type parameter: the diagrams of real-valued
//! filtrations use real numbers, which this module only carries along.
use vstd::prelude::*;

verus! {

/// The (birth, death) points of dimension `dim`, in order.
pub open spec fn points_of_dim<V>(pts: Seq<(V, V, usize)>, dim: usize) -> Seq<(V, V)>
    decreases pts.len(),
{
    if pts.len() == 0 {
        Seq::empty()
    } else {
        let rest = points_of_dim(pts.drop_last(), dim);
        if pts.last().2 == dim {
            rest.push((pts.last().0, pts.last().1))
        } else {
            rest
        }
    }
}

/// A persistence diagram: a multiset of (birth, death, dimension) points,
/// kept in the order they were added.
#[derive(Debug, Clone, PartialEq)]
pub struct PersistenceDiagram<V> {
    points: Vec<(V, V, usize)>,
}

impl<V> View for PersistenceDiagram<V> {
    type V = Seq<(V, V, usize)>;

    closed spec fn view(&self) -> Seq<(V, V, usize)> {
        self.points@
    }
}

impl<V> PersistenceDiagram<V> {
    /// Create an empty persistence diagram.
    pub fn new() -> (d: Self)
        ensures
            d@ == Seq::<(V, V, usize)>::empty(),
    {
        PersistenceDiagram { points: Vec::new() }
    }

    /// Add a point to the diagram.
    pub fn add_point(&mut self, birth: V, death: V, dim: usize)
        ensures
            final(self)@ == old(self)@.push((birth, death, dim)),
    {
        self.points.push((birth, death, dim));
    }

    /// All points, in the order they were added.
    pub fn points(&self) -> (r: &[(V, V, usize)])
        ensures
            r@ == self@,
    {
        self.points.as_slice()
    }

    /// Number of points in the diagram.
    pub fn len(&self) -> (n: usize)
        ensures
            n == self@.len(),
    {
        self.points.len()
    }

    /// Whether the diagram has no point.
    pub fn is_empty(&self) -> (r: bool)
        ensures
            r == (self@.len() == 0),
    {
        self.points.len() == 0
    }
}

impl<V: Copy> PersistenceDiagram<V> {
    /// The (birth, death) points of one dimension, in order.
    pub fn points_in_dimension(&self, dim: usize) -> (r: Vec<(V, V)>)
        ensures
            r@ == points_of_dim(self@, dim),
    {
        let mut r: Vec<(V, V)> = Vec::new();
        let mut i: usize = 0;
        while i < self.points.len()
            invariant
                i <= self.points@.len(),
                r@ == points_of_dim(self.points@.take(i as int), dim),
            decreases self.points.len() - i,
        {
            let (b, e, d) = self.points[i];
            assert(self.points@.take(i + 1).drop_last() =~= self.points@.take(i as int));
            if d == dim {
                r.push((b, e));
            }
            i += 1;
        }
        assert(self.points@.take(self.points@.len() as int) =~= self.points@);
        r
    }
}

impl<V> Default for PersistenceDiagram<V> {
    fn default() -> (d: Self)
        ensures
            d@ == Seq::<(V, V, usize)>::empty(),
    {
        Self::new()
    }
}

} // verus!
