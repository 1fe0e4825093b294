//! Boundary matrices over Z/2Z.
//!
//! The boundary of a simplex σ = [v₀, …, vₙ] over Z/2Z is the sum of its
//! faces [v₀, …, v̂ᵢ, …, vₙ]. A boundary matrix stores, column by column, the
//! rows holding a 1, each column as a strictly increasing list of row indices.
use vstd::prelude::*;

use crate::column::{
    lemma_push_contains, lemma_sorted_unique, lemma_sorted_xor, sorted_xor, strictly_sorted, sym_diff,
};

verus! {

/// What a boundary matrix holds: its columns (each the strictly increasing
/// list of rows holding a 1), its number of rows, and the dimension recorded
/// for each simplex.
pub struct MatrixModel {
    pub columns: Seq<Seq<usize>>,
    pub num_rows: usize,
    pub simplex_dims: Seq<usize>,
}

impl MatrixModel {
    /// Every column is strictly increasing, and there is one recorded
    /// dimension per row.
    pub open spec fn wf(self) -> bool {
        &&& forall|j: int| 0 <= j < self.columns.len() ==> strictly_sorted(#[trigger] self.columns[j])
        &&& self.simplex_dims.len() == self.num_rows
    }

    /// The pivot (largest row) of column `j`, if the column is not zero.
    pub open spec fn low(self, j: int) -> Option<usize> {
        if self.columns[j].len() == 0 {
            None
        } else {
            Some(self.columns[j].last())
        }
    }
}

/// A sparse boundary matrix over Z/2Z.
///
/// Each column is a strictly increasing `Vec<usize>` of the row indices
/// holding a 1. All arithmetic is mod 2 (XOR).
#[derive(Debug, Clone, PartialEq)]
pub struct BoundaryMatrix {
    columns: Vec<Vec<usize>>,
    num_rows: usize,
    simplex_dims: Vec<usize>,
}

impl View for BoundaryMatrix {
    type V = MatrixModel;

    closed spec fn view(&self) -> MatrixModel {
        MatrixModel {
            columns: self.columns@.map_values(|c: Vec<usize>| c@),
            num_rows: self.num_rows,
            simplex_dims: self.simplex_dims@,
        }
    }
}

/// A fresh copy of a column.
fn copy_column(c: &Vec<usize>) -> (r: Vec<usize>)
    ensures
        r@ == c@,
{
    let mut r: Vec<usize> = Vec::new();
    let mut i: usize = 0;
    while i < c.len()
        invariant
            i <= c.len(),
            r@ == c@.take(i as int),
        decreases c.len() - i,
    {
        r.push(c[i]);
        i += 1;
        assert(r@ =~= c@.take(i as int));
    }
    assert(c@.take(c.len() as int) =~= c@);
    r
}


/// The dimension of a simplex given by its vertex list: one less than its
/// number of vertices, and 0 for the empty list.
pub open spec fn dim_of(s: Seq<usize>) -> usize {
    if s.len() == 0 {
        0
    } else {
        (s.len() - 1) as usize
    }
}

/// `r` is the last position at which `t` occurs in the list of simplices.
pub open spec fn last_position(ss: Seq<Seq<usize>>, t: Seq<usize>, r: int) -> bool {
    &&& 0 <= r < ss.len()
    &&& ss[r] == t
    &&& forall|i: int| r < i < ss.len() ==> ss[i] != t
}

/// The rows of the boundary column of simplex `j`: for each face of the
/// simplex (one vertex removed), the last position of that face in the list,
/// where it occurs. Vertices (and the empty simplex) have no boundary.
pub open spec fn face_rows(ss: Seq<Seq<usize>>, j: int) -> Set<usize> {
    if ss[j].len() <= 1 {
        Set::empty()
    } else {
        Set::new(
            |r: usize|
                exists|k: int| 0 <= k < ss[j].len() && last_position(ss, ss[j].remove(k), r as int),
        )
    }
}

/// The number of rows `f` of column `col` whose own column `cols[f]` holds
/// row `x`: the coefficient of `x` in the boundary of the boundary, over Z.
pub open spec fn faces_holding(col: Seq<usize>, cols: Seq<Seq<usize>>, x: usize) -> nat
    decreases col.len(),
{
    if col.len() == 0 {
        0
    } else {
        faces_holding(col.drop_last(), cols, x) + if cols[col.last() as int].contains(x) {
            1nat
        } else {
            0nat
        }
    }
}

/// The boundary of the boundary of column `j` vanishes over Z/2Z.
pub open spec fn boundary_vanishes_at(cols: Seq<Seq<usize>>, j: int) -> bool {
    forall|x: usize| #[trigger] faces_holding(cols[j], cols, x) % 2 == 0
}

/// The chain complex property ∂² = 0 for every column.
pub open spec fn boundary_squared_zero(cols: Seq<Seq<usize>>) -> bool {
    forall|j: int| 0 <= j < cols.len() ==> #[trigger] boundary_vanishes_at(cols, j)
}

/// Every row of column `j` is the index of a column.
pub open spec fn faces_in_range(cols: Seq<Seq<usize>>, j: int) -> bool {
    forall|k: int| 0 <= k < cols[j].len() ==> #[trigger] cols[j][k] < cols.len()
}

/// Every row of every column lies above the diagonal: column `j` holds only
/// rows below `j`, as for a boundary matrix whose faces come before their
/// cofaces.
pub open spec fn upper_triangular(cols: Seq<Seq<usize>>) -> bool {
    forall|j: int, x: usize| 0 <= j < cols.len() && #[trigger] cols[j].contains(x) ==> x < j
}

/// Every occurrence of a face of a simplex comes before that simplex in the
/// list: faces precede their cofaces.
pub open spec fn faces_precede(ss: Seq<Seq<usize>>) -> bool {
    forall|j: int, k: int, i: int|
        0 <= j < ss.len() && 1 < ss[j].len() && 0 <= k < ss[j].len() && 0 <= i < ss.len()
            && #[trigger] ss[i] == #[trigger] ss[j].remove(k) ==> i < j
}

/// When faces precede their cofaces, the boundary matrix built from the
/// simplices is upper triangular: column `j` holds only rows below `j`.
pub proof fn faces_first_gives_upper_triangular(ss: Seq<Seq<usize>>, cols: Seq<Seq<usize>>)
    requires
        cols.len() == ss.len(),
        forall|j: int| 0 <= j < ss.len() ==> (#[trigger] cols[j]).to_set() == face_rows(ss, j),
        faces_precede(ss),
    ensures
        upper_triangular(cols),
{
    assert forall|j: int, x: usize| 0 <= j < cols.len() && #[trigger] cols[j].contains(x) implies x < j by {
        assert(cols[j].to_set().contains(x));
        assert(face_rows(ss, j).contains(x));
        let k = choose|k: int| 0 <= k < ss[j].len() && last_position(ss, ss[j].remove(k), x as int);
        assert(ss[x as int] == ss[j].remove(k));
    }
}

/// Whether two vertex lists are equal.
fn same_simplex(a: &[usize], b: &[usize]) -> (r: bool)
    ensures
        r == (a@ == b@),
{
    if a.len() != b.len() {
        return false;
    }
    let mut i: usize = 0;
    while i < a.len()
        invariant
            i <= a.len(),
            a@.len() == b@.len(),
            forall|k: int| 0 <= k < i ==> a@[k] == b@[k],
        decreases a.len() - i,
    {
        if a[i] != b[i] {
            return false;
        }
        i += 1;
    }
    assert(a@ =~= b@);
    true
}

/// The last position of `face` in the list of simplices, if it occurs.
fn find_last(simplices: &[Vec<usize>], face: &Vec<usize>) -> (r: Option<usize>)
    ensures
        match r {
            Some(i) => last_position(simplices@.map_values(|v: Vec<usize>| v@), face@, i as int),
            None => forall|i: int| 0 <= i < simplices@.len() ==> (#[trigger] simplices@[i])@ != face@,
        },
{
    let ghost ss = simplices@.map_values(|v: Vec<usize>| v@);
    let mut i: usize = simplices.len();
    while i > 0
        invariant
            i <= simplices@.len(),
            ss == simplices@.map_values(|v: Vec<usize>| v@),
            forall|k: int| i <= k < simplices@.len() ==> (#[trigger] simplices@[k])@ != face@,
        decreases i,
    {
        i -= 1;
        if same_simplex(simplices[i].as_slice(), face.as_slice()) {
            assert forall|k: int| i < k < ss.len() implies ss[k] != face@ by {
                assert(ss[k] == simplices@[k]@);
            }
            return Some(i);
        }
    }
    None
}

/// Add a row to a strictly increasing column, keeping it strictly increasing
/// and without repeats.
fn insert_row(col: &mut Vec<usize>, x: usize)
    requires
        strictly_sorted(old(col)@),
    ensures
        strictly_sorted(final(col)@),
        forall|y: usize| #[trigger] final(col)@.contains(y) <==> (old(col)@.contains(y) || y == x),
{
    let mut pos: usize = 0;
    while pos < col.len() && col[pos] < x
        invariant
            pos <= col.len(),
            col@ == old(col)@,
            forall|i: int| 0 <= i < pos ==> col@[i] < x,
        decreases col.len() - pos,
    {
        pos += 1;
    }
    if pos < col.len() && col[pos] == x {
        return;
    }
    let ghost s = col@;
    col.insert(pos, x);
    assert(col@ =~= s.subrange(0, pos as int).push(x) + s.subrange(pos as int, s.len() as int));
    assert forall|i: int, j: int| 0 <= i < j < col@.len() implies col@[i] < col@[j] by {
        if j < pos {
        } else if j == pos {
        } else if i < pos {
            assert(col@[j] == s[j - 1]);
            assert(s[pos as int] > x);
        } else if i == pos {
            assert(col@[j] == s[j - 1]);
            assert(s[pos as int] > x);
        } else {
            assert(col@[i] == s[i - 1] && col@[j] == s[j - 1]);
        }
    }
    assert forall|y: usize| #[trigger] col@.contains(y) <==> (s.contains(y) || y == x) by {
        if col@.contains(y) {
            let k = choose|k: int| 0 <= k < col@.len() && col@[k] == y;
            if k < pos {
                assert(s[k] == y);
            } else if k > pos {
                assert(s[k - 1] == y);
            }
        }
        if s.contains(y) {
            let k = choose|k: int| 0 <= k < s.len() && s[k] == y;
            if k < pos {
                assert(col@[k] == y);
            } else {
                assert(col@[k + 1] == y);
            }
        }
        if y == x {
            assert(col@[pos as int] == y);
        }
    }
}

/// Flip the membership of `y` in a list without repeats (XOR of one row).
fn toggle(v: &mut Vec<usize>, y: usize)
    requires
        old(v)@.no_duplicates(),
    ensures
        final(v)@.no_duplicates(),
        forall|x: usize| #[trigger] final(v)@.contains(x) <==> (old(v)@.contains(x) != (x == y)),
{
    let ghost s = v@;
    let mut i: usize = 0;
    while i < v.len()
        invariant
            i <= v.len(),
            v@ == s,
            s == old(v)@,
            s.no_duplicates(),
            forall|k: int| 0 <= k < i ==> v@[k] != y,
        decreases v.len() - i,
    {
        if v[i] == y {
            v.remove(i);
            assert(v@ == s.remove(i as int));
            assert forall|k: int| 0 <= k < v@.len() implies #[trigger] v@[k] == (if k < i { s[k] } else { s[k + 1] }) by {}
            assert forall|a: int, b: int| 0 <= a < v@.len() && 0 <= b < v@.len() && a != b implies v@[a] != v@[b] by {
                let a2 = if a < i { a } else { a + 1 };
                let b2 = if b < i { b } else { b + 1 };
                assert(v@[a] == s[a2] && v@[b] == s[b2]);
            }
            assert forall|x: usize| #[trigger] v@.contains(x) <==> (s.contains(x) != (x == y)) by {
                if v@.contains(x) {
                    let k = choose|k: int| 0 <= k < v@.len() && v@[k] == x;
                    if k < i {
                        assert(s[k] == x);
                        assert(k != i);
                    } else {
                        assert(s[k + 1] == x);
                    }
                    assert(x != y);
                }
                if x == y {
                    assert(s[i as int] == y);
                }
                if s.contains(x) && x != y {
                    let k = choose|k: int| 0 <= k < s.len() && s[k] == x;
                    if k < i {
                        assert(v@[k] == x);
                    } else {
                        assert(v@[k - 1] == x);
                    }
                }
            }
            return;
        }
        i += 1;
    }
    v.push(y);
    proof {
        lemma_push_contains(s, y);
    }
}

/// Compute the boundary of a single simplex over Z/2Z.
///
/// Given simplex σ = [v₀, v₁, ..., vₙ], returns its (n-1)-faces
/// as a list of simplices (each with one vertex removed).
pub fn simplex_boundary(simplex: &[usize]) -> (faces: Vec<Vec<usize>>)
    ensures
        simplex@.len() <= 1 ==> faces@.len() == 0,
        simplex@.len() > 1 ==> faces@.len() == simplex@.len(),
        simplex@.len() > 1 ==> forall|k: int|
            0 <= k < simplex@.len() ==> (#[trigger] faces@[k])@ == simplex@.remove(k),
{
    let mut faces: Vec<Vec<usize>> = Vec::new();
    if simplex.len() <= 1 {
        return faces;
    }
    let mut skip: usize = 0;
    while skip < simplex.len()
        invariant
            skip <= simplex@.len(),
            faces@.len() == skip,
            forall|k: int| 0 <= k < skip ==> (#[trigger] faces@[k])@ == simplex@.remove(k),
        decreases simplex.len() - skip,
    {
        let mut face: Vec<usize> = Vec::new();
        let mut i: usize = 0;
        while i < simplex.len()
            invariant
                i <= simplex@.len(),
                skip < simplex@.len(),
                face@ == (if i <= skip {
                    simplex@.take(i as int)
                } else {
                    simplex@.remove(skip as int).take(i - 1)
                }),
            decreases simplex.len() - i,
        {
            if i != skip {
                face.push(simplex[i]);
            }
            i += 1;
            assert(face@ =~= (if i <= skip {
                simplex@.take(i as int)
            } else {
                simplex@.remove(skip as int).take(i - 1)
            }));
        }
        assert(face@ =~= simplex@.remove(skip as int));
        faces.push(face);
        skip += 1;
    }
    faces
}

impl BoundaryMatrix {
    /// Every column is strictly increasing, and there is one recorded
    /// dimension per row.
    pub open spec fn wf(&self) -> bool {
        self@.wf()
    }

    /// Create a zero boundary matrix with `num_rows` rows and `num_cols`
    /// columns; every simplex dimension is 0.
    pub fn new(num_rows: usize, num_cols: usize) -> (m: Self)
        ensures
            m.wf(),
            m@.columns == Seq::new(num_cols as nat, |j: int| Seq::<usize>::empty()),
            m@.num_rows == num_rows,
            m@.simplex_dims == Seq::new(num_rows as nat, |i: int| 0usize),
    {
        let mut columns: Vec<Vec<usize>> = Vec::new();
        let mut j: usize = 0;
        while j < num_cols
            invariant
                j <= num_cols,
                columns@.len() == j,
                forall|k: int| 0 <= k < j ==> (#[trigger] columns@[k])@ == Seq::<usize>::empty(),
            decreases num_cols - j,
        {
            columns.push(Vec::new());
            j += 1;
        }
        let mut simplex_dims: Vec<usize> = Vec::new();
        let mut i: usize = 0;
        while i < num_rows
            invariant
                i <= num_rows,
                simplex_dims@ == Seq::new(i as nat, |k: int| 0usize),
            decreases num_rows - i,
        {
            simplex_dims.push(0);
            i += 1;
            assert(simplex_dims@ =~= Seq::new(i as nat, |k: int| 0usize));
        }
        let m = BoundaryMatrix { columns, num_rows, simplex_dims };
        assert(m@.columns =~= Seq::new(num_cols as nat, |j: int| Seq::<usize>::empty()));
        m
    }


    /// Create a boundary matrix from a list of simplices.
    ///
    /// Each simplex is a list of vertex indices; column `j` holds, for each
    /// face of simplex `j` (one vertex removed), the last position at which
    /// that face occurs in the list. Vertices have an empty boundary. There are
    /// as many rows as simplices, and simplex `i` has dimension
    /// `len(simplex i) - 1` (0 for the empty list).
    pub fn from_simplices(simplices: &[Vec<usize>]) -> (m: Self)
        ensures
            m.wf(),
            m@.num_rows == simplices@.len(),
            m@.columns.len() == simplices@.len(),
            forall|j: int|
                0 <= j < simplices@.len() ==> (#[trigger] m@.columns[j]).to_set() == face_rows(
                    simplices@.map_values(|v: Vec<usize>| v@),
                    j,
                ),
            m@.simplex_dims == Seq::new(
                simplices@.len(),
                |i: int| dim_of(simplices@[i]@),
            ),
            forall|j: int| 0 <= j < simplices@.len() ==> #[trigger] faces_in_range(m@.columns, j),
    {
        let ghost ss = simplices@.map_values(|v: Vec<usize>| v@);
        let n = simplices.len();
        let mut simplex_dims: Vec<usize> = Vec::new();
        let mut i: usize = 0;
        while i < n
            invariant
                i <= n,
                n == simplices@.len(),
                simplex_dims@ == Seq::new(i as nat, |k: int| dim_of(simplices@[k]@)),
            decreases n - i,
        {
            let len = simplices[i].len();
            let d = if len == 0 { 0 } else { len - 1 };
            simplex_dims.push(d);
            i += 1;
            assert(simplex_dims@ =~= Seq::new(i as nat, |k: int| dim_of(simplices@[k]@)));
        }
        let mut columns: Vec<Vec<usize>> = Vec::new();
        let mut j: usize = 0;
        while j < n
            invariant
                j <= n,
                n == simplices@.len(),
                ss == simplices@.map_values(|v: Vec<usize>| v@),
                columns@.len() == j,
                forall|c: int| 0 <= c < j ==> strictly_sorted(#[trigger] columns@[c]@),
                forall|c: int| 0 <= c < j ==> (#[trigger] columns@[c])@.to_set() == face_rows(ss, c),
            decreases n - j,
        {
            let mut col: Vec<usize> = Vec::new();
            let s = &simplices[j];
            assert(s@ == ss[j as int]);
            if s.len() > 1 {
                let faces = simplex_boundary(s.as_slice());
                let mut k: usize = 0;
                while k < faces.len()
                    invariant
                        k <= faces@.len(),
                        faces@.len() == s@.len(),
                        s@.len() > 1,
                        s@ == ss[j as int],
                        ss == simplices@.map_values(|v: Vec<usize>| v@),
                        forall|q: int| 0 <= q < s@.len() ==> (#[trigger] faces@[q])@ == s@.remove(q),
                        strictly_sorted(col@),
                        forall|x: usize| #[trigger] col@.contains(x) <==> exists|q: int|
                            0 <= q < k && last_position(ss, s@.remove(q), x as int),
                    decreases faces.len() - k,
                {
                    let ghost old_col = col@;
                    match find_last(simplices, &faces[k]) {
                        Some(r) => {
                            insert_row(&mut col, r);
                            assert forall|x: usize| #[trigger] col@.contains(x) <==> exists|q: int|
                                0 <= q < k + 1 && last_position(ss, s@.remove(q), x as int) by {
                                if col@.contains(x) && x != r {
                                    assert(old_col.contains(x));
                                }
                                if exists|q: int| 0 <= q < k + 1 && last_position(ss, s@.remove(q), x as int) {
                                    let q = choose|q: int| 0 <= q < k + 1 && last_position(ss, s@.remove(q), x as int);
                                    if q == k {
                                        assert(x == r);
                                    }
                                }
                            }
                        },
                        None => {
                            assert forall|x: usize| #[trigger] col@.contains(x) <==> exists|q: int|
                                0 <= q < k + 1 && last_position(ss, s@.remove(q), x as int) by {
                                if exists|q: int| 0 <= q < k + 1 && last_position(ss, s@.remove(q), x as int) {
                                    let q = choose|q: int| 0 <= q < k + 1 && last_position(ss, s@.remove(q), x as int);
                                    if q == k {
                                        assert(simplices@[x as int]@ == ss[x as int]);
                                    }
                                }
                            }
                        },
                    }
                    k += 1;
                }
                assert(col@.to_set() =~= face_rows(ss, j as int));
            } else {
                assert(col@.to_set() =~= face_rows(ss, j as int));
            }
            columns.push(col);
            j += 1;
        }
        let m = BoundaryMatrix { columns, num_rows: n, simplex_dims };
        assert forall|c: int| 0 <= c < m@.columns.len() implies strictly_sorted(#[trigger] m@.columns[c]) by {
            assert(m@.columns[c] == m.columns@[c]@);
        }
        assert forall|j: int| 0 <= j < simplices@.len() implies #[trigger] faces_in_range(m@.columns, j) by {
            assert forall|k: int| 0 <= k < m@.columns[j].len() implies #[trigger] m@.columns[j][k] < m@.columns.len() by {
                let x = m@.columns[j][k];
                assert(m@.columns[j].contains(x));
                assert(m@.columns[j].to_set().contains(x));
                assert(face_rows(ss, j).contains(x));
            }
        }
        m
    }

    /// Get the number of rows.
    pub fn num_rows(&self) -> (r: usize)
        ensures
            r == self@.num_rows,
    {
        self.num_rows
    }

    /// Get the number of columns.
    pub fn num_cols(&self) -> (r: usize)
        ensures
            r == self@.columns.len(),
    {
        self.columns.len()
    }

    /// Get column `j`: the strictly increasing rows holding a 1.
    pub fn column(&self, j: usize) -> (r: &[usize])
        requires
            j < self@.columns.len(),
        ensures
            r@ == self@.columns[j as int],
    {
        self.columns[j].as_slice()
    }

    /// Set column `j` to the given strictly increasing list of rows.
    pub fn set_column(&mut self, j: usize, rows: Vec<usize>)
        requires
            old(self).wf(),
            j < old(self)@.columns.len(),
            strictly_sorted(rows@),
        ensures
            final(self).wf(),
            final(self)@.columns == old(self)@.columns.update(j as int, rows@),
            final(self)@.num_rows == old(self)@.num_rows,
            final(self)@.simplex_dims == old(self)@.simplex_dims,
    {
        self.columns.set(j, rows);
        assert(self@.columns =~= old(self)@.columns.update(j as int, rows@));
    }

    /// Add (XOR) column `src` into column `dst` over Z/2Z: column `dst`
    /// becomes the symmetric difference of the two columns.
    pub fn add_columns(&mut self, dst: usize, src: usize)
        requires
            old(self).wf(),
            dst < old(self)@.columns.len(),
            src < old(self)@.columns.len(),
        ensures
            final(self).wf(),
            final(self)@.columns.len() == old(self)@.columns.len(),
            final(self)@.columns[dst as int].to_set() == sym_diff(
                old(self)@.columns[dst as int].to_set(),
                old(self)@.columns[src as int].to_set(),
            ),
            final(self)@.columns == old(self)@.columns.update(
                dst as int,
                sorted_xor(old(self)@.columns[dst as int], old(self)@.columns[src as int]),
            ),
            final(self)@.num_rows == old(self)@.num_rows,
            final(self)@.simplex_dims == old(self)@.simplex_dims,
    {
        let ghost sa = self@.columns[src as int];
        let ghost sb = self@.columns[dst as int];
        let mut result: Vec<usize> = Vec::new();
        let a = &self.columns[src];
        let b = &self.columns[dst];
        assert(a@ == sa && b@ == sb);
        let mut i: usize = 0;
        let mut j: usize = 0;
        while i < a.len() && j < b.len()
            invariant
                a@ == sa,
                b@ == sb,
                strictly_sorted(sa),
                strictly_sorted(sb),
                i <= a.len(),
                j <= b.len(),
                strictly_sorted(result@),
                forall|x: usize|
                    result@.contains(x) <==> (sa.take(i as int).contains(x) != sb.take(
                        j as int,
                    ).contains(x)),
                forall|k: int| 0 <= k < result@.len() && i < a.len() ==> result@[k] < sa[i as int],
                forall|k: int| 0 <= k < result@.len() && j < b.len() ==> result@[k] < sb[j as int],
                forall|k: int| 0 <= k < i && j < b.len() ==> sa[k] < sb[j as int],
                forall|k: int| 0 <= k < j && i < a.len() ==> sb[k] < sa[i as int],
            decreases a.len() + b.len() - i - j,
        {
            let ghost old_result = result@;
            let ghost ta = sa.take(i as int);
            let ghost tb = sb.take(j as int);
            assert(sa.take(i + 1) =~= ta.push(sa[i as int]));
            assert(sb.take(j + 1) =~= tb.push(sb[j as int]));
            if a[i] < b[j] {
                result.push(a[i]);
                proof { lemma_push_contains(ta, sa[i as int]); }
                assert(!tb.contains(sa[i as int]));
                proof { lemma_push_contains(old_result, sa[i as int]); }
                i += 1;
            } else if a[i] > b[j] {
                result.push(b[j]);
                proof { lemma_push_contains(tb, sb[j as int]); }
                assert(!ta.contains(sb[j as int]));
                proof { lemma_push_contains(old_result, sb[j as int]); }
                j += 1;
            } else {
                proof { lemma_push_contains(ta, sa[i as int]); }
                proof { lemma_push_contains(tb, sb[j as int]); }
                assert(!tb.contains(sa[i as int]));
                assert(!ta.contains(sb[j as int]));
                i += 1;
                j += 1;
            }
        }
        while i < a.len()
            invariant
                a@ == sa,
                b@ == sb,
                strictly_sorted(sa),
                strictly_sorted(sb),
                i <= a.len(),
                j <= b.len(),
                i == a.len() || j == b.len(),
                strictly_sorted(result@),
                forall|x: usize|
                    result@.contains(x) <==> (sa.take(i as int).contains(x) != sb.take(
                        j as int,
                    ).contains(x)),
                forall|k: int| 0 <= k < result@.len() && i < a.len() ==> result@[k] < sa[i as int],
                forall|k: int| 0 <= k < result@.len() && j < b.len() ==> result@[k] < sb[j as int],
                forall|k: int| 0 <= k < j && i < a.len() ==> sb[k] < sa[i as int],
                forall|k: int| 0 <= k < i && j < b.len() ==> sa[k] < sb[j as int],
            decreases a.len() - i,
        {
            let ghost old_result = result@;
            let ghost ta = sa.take(i as int);
            let ghost tb = sb.take(j as int);
            assert(sa.take(i + 1) =~= ta.push(sa[i as int]));
            result.push(a[i]);
            proof { lemma_push_contains(ta, sa[i as int]); }
            assert(!tb.contains(sa[i as int]));
            proof { lemma_push_contains(old_result, sa[i as int]); }
            i += 1;
        }
        while j < b.len()
            invariant
                a@ == sa,
                b@ == sb,
                strictly_sorted(sa),
                strictly_sorted(sb),
                i == a.len(),
                j <= b.len(),
                strictly_sorted(result@),
                forall|x: usize|
                    result@.contains(x) <==> (sa.take(i as int).contains(x) != sb.take(
                        j as int,
                    ).contains(x)),
                forall|k: int| 0 <= k < result@.len() && j < b.len() ==> result@[k] < sb[j as int],
                forall|k: int| 0 <= k < i && j < b.len() ==> sa[k] < sb[j as int],
            decreases b.len() - j,
        {
            let ghost old_result = result@;
            let ghost ta = sa.take(i as int);
            let ghost tb = sb.take(j as int);
            assert(sb.take(j + 1) =~= tb.push(sb[j as int]));
            result.push(b[j]);
            proof { lemma_push_contains(tb, sb[j as int]); }
            assert(!ta.contains(sb[j as int]));
            proof { lemma_push_contains(old_result, sb[j as int]); }
            j += 1;
        }
        proof {
            assert(sa.take(sa.len() as int) =~= sa);
            assert(sb.take(sb.len() as int) =~= sb);
            lemma_sorted_xor(sb, sa);
            lemma_sorted_unique(result@, sorted_xor(sb, sa));
            assert(result@.to_set() =~= sym_diff(sb.to_set(), sa.to_set()));
        }
        self.columns.set(dst, result);
        assert(self@.columns =~= old(self)@.columns.update(dst as int, sorted_xor(sb, sa)));
    }

    /// Get the pivot (largest row index) of column `j`, if any.
    pub fn pivot(&self, j: usize) -> (r: Option<usize>)
        requires
            j < self@.columns.len(),
        ensures
            r == self@.low(j as int),
    {
        let c = &self.columns[j];
        if c.len() == 0 {
            None
        } else {
            Some(c[c.len() - 1])
        }
    }

    /// Check if column `j` is zero (empty).
    pub fn is_zero_column(&self, j: usize) -> (r: bool)
        requires
            j < self@.columns.len(),
        ensures
            r == (self@.columns[j as int].len() == 0),
    {
        self.columns[j].len() == 0
    }

    /// Get the dimension of simplex at index `i`.
    pub fn simplex_dim(&self, i: usize) -> (r: usize)
        requires
            i < self@.simplex_dims.len(),
        ensures
            r == self@.simplex_dims[i as int],
    {
        self.simplex_dims[i]
    }

    /// Set the dimension of simplex at index `i`.
    pub fn set_simplex_dim(&mut self, i: usize, dim: usize)
        requires
            i < old(self)@.simplex_dims.len(),
        ensures
            final(self)@.columns == old(self)@.columns,
            final(self)@.num_rows == old(self)@.num_rows,
            final(self)@.simplex_dims == old(self)@.simplex_dims.update(i as int, dim),
    {
        self.simplex_dims.set(i, dim);
    }


    /// Verify the chain complex property ∂² = 0: for every column j, the
    /// boundary of the boundary of column j vanishes over Z/2Z. Columns are
    /// checked in order; a column whose rows are all column indices is needed
    /// only when every earlier column passed.
    pub fn verify_chain_complex(&self) -> (ok: bool)
        requires
            self.wf(),
            forall|j: int|
                0 <= j < self@.columns.len() && (forall|i: int|
                    0 <= i < j ==> boundary_vanishes_at(self@.columns, i)) ==> #[trigger] faces_in_range(
                    self@.columns,
                    j,
                ),
        ensures
            ok == boundary_squared_zero(self@.columns),
    {
        let ghost cols = self@.columns;
        let mut j: usize = 0;
        while j < self.columns.len()
            invariant
                j <= cols.len(),
                cols == self@.columns,
                self.wf(),
                forall|i: int| 0 <= i < j ==> boundary_vanishes_at(cols, i),
                forall|j: int|
                    0 <= j < cols.len() && (forall|i: int|
                        0 <= i < j ==> boundary_vanishes_at(cols, i)) ==> #[trigger] faces_in_range(
                        cols,
                        j,
                    ),
            decreases self.columns.len() - j,
        {
            assert(faces_in_range(cols, j as int));
            let col = &self.columns[j];
            assert(col@ == cols[j as int]);
            let mut bob: Vec<usize> = Vec::new();
            let mut p: usize = 0;
            while p < col.len()
                invariant
                    p <= col@.len(),
                    col@ == cols[j as int],
                    cols == self@.columns,
                    self.wf(),
                    faces_in_range(cols, j as int),
                    bob@.no_duplicates(),
                    forall|x: usize| #[trigger] bob@.contains(x) <==> faces_holding(col@.take(p as int), cols, x) % 2 == 1,
                decreases col.len() - p,
            {
                let f = col[p];
                let fc = &self.columns[f];
                assert(fc@ == cols[f as int]);
                assert(strictly_sorted(fc@));
                let mut q: usize = 0;
                while q < fc.len()
                    invariant
                        q <= fc@.len(),
                        fc@ == cols[f as int],
                        strictly_sorted(fc@),
                        bob@.no_duplicates(),
                        forall|x: usize| #[trigger] bob@.contains(x) <==> (faces_holding(col@.take(p as int), cols, x) + if fc@.take(q as int).contains(x) { 1nat } else { 0nat }) % 2 == 1,
                    decreases fc.len() - q,
                {
                    let y = fc[q];
                    let ghost tq = fc@.take(q as int);
                    assert(fc@.take(q + 1) =~= tq.push(y));
                    proof {
                        lemma_push_contains(tq, y);
                    }
                    assert(!tq.contains(y));
                    toggle(&mut bob, y);
                    q += 1;
                }
                proof {
                    assert(fc@.take(fc@.len() as int) =~= fc@);
                    let tp1 = col@.take(p + 1);
                    assert(tp1.drop_last() =~= col@.take(p as int));
                    assert(tp1.last() == f);
                    assert forall|x: usize| #[trigger] bob@.contains(x) <==> faces_holding(tp1, cols, x) % 2 == 1 by {
                        assert(faces_holding(tp1, cols, x) == faces_holding(col@.take(p as int), cols, x) + if fc@.contains(x) { 1nat } else { 0nat });
                    }
                }
                p += 1;
            }
            proof {
                assert(col@.take(col@.len() as int) =~= col@);
            }
            if bob.len() != 0 {
                proof {
                    let x = bob@[0];
                    assert(bob@.contains(x));
                    assert(!boundary_vanishes_at(cols, j as int));
                }
                return false;
            }
            proof {
                assert forall|x: usize| #[trigger] faces_holding(cols[j as int], cols, x) % 2 == 0 by {
                    if faces_holding(cols[j as int], cols, x) % 2 == 1 {
                        assert(bob@.contains(x));
                    }
                }
            }
            j += 1;
        }
        true
    }

    /// Get all column data as a slice.
    pub fn columns(&self) -> (r: &[Vec<usize>])
        ensures
            r@.len() == self@.columns.len(),
            forall|j: int| 0 <= j < r@.len() ==> (#[trigger] r@[j])@ == self@.columns[j],
    {
        self.columns.as_slice()
    }

    /// Create a deep copy of this boundary matrix.
    pub fn clone_matrix(&self) -> (m: Self)
        ensures
            m@ == self@,
    {
        let mut columns: Vec<Vec<usize>> = Vec::new();
        let mut j: usize = 0;
        while j < self.columns.len()
            invariant
                j <= self.columns.len(),
                columns@.len() == j,
                forall|k: int| 0 <= k < j ==> (#[trigger] columns@[k])@ == self.columns@[k]@,
            decreases self.columns.len() - j,
        {
            columns.push(copy_column(&self.columns[j]));
            j += 1;
        }
        let simplex_dims = copy_column(&self.simplex_dims);
        let m = BoundaryMatrix { columns, num_rows: self.num_rows, simplex_dims };
        assert(m@.columns =~= self@.columns);
        m
    }
}

} // verus!
