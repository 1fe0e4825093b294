//! The chain complex property ∂² = 0 for boundary matrices built from
//! simplicial complexes.
//!
//! For a simplex σ, each (n-2)-face of σ lies in the boundary of exactly two
//! (n-1)-faces of σ, so over Z/2Z the boundary of the boundary vanishes.
use vstd::prelude::*;

use crate::boundary::{boundary_squared_zero, boundary_vanishes_at, face_rows, faces_holding, last_position};
use crate::column::{lemma_sorted_last, lemma_sorted_unique, strictly_sorted};

verus! {

/// The rows `f` of column `col`, in order, whose own column `cols[f]` holds
/// row `x`.
pub open spec fn holding(col: Seq<usize>, cols: Seq<Seq<usize>>, x: usize) -> Seq<usize>
    decreases col.len(),
{
    if col.len() == 0 {
        Seq::empty()
    } else {
        let rest = holding(col.drop_last(), cols, x);
        if cols[col.last() as int].contains(x) {
            rest.push(col.last())
        } else {
            rest
        }
    }
}

/// A list of simplices forming a simplicial complex: each simplex is a
/// strictly increasing vertex list, no simplex is listed twice, and every
/// face (one vertex removed) of a simplex with at least two vertices is
/// listed.
pub open spec fn simplicial_complex(ss: Seq<Seq<usize>>) -> bool {
    &&& forall|i: int| 0 <= i < ss.len() ==> strictly_sorted(#[trigger] ss[i])
    &&& forall|i: int, i2: int| 0 <= i < ss.len() && 0 <= i2 < ss.len() && i != i2 ==> #[trigger] ss[i] != #[trigger] ss[i2]
    &&& forall|j: int, k: int|
        0 <= j < ss.len() && 1 < ss[j].len() && 0 <= k < ss[j].len() ==> exists|i: int|
            0 <= i < ss.len() && #[trigger] ss[i] == #[trigger] ss[j].remove(k)
}

/// The rows holding `x` are the rows of the column that hold it, strictly
/// increasing, and their number is the count of the boundary of the boundary.
pub proof fn lemma_holding(col: Seq<usize>, cols: Seq<Seq<usize>>, x: usize)
    requires
        strictly_sorted(col),
    ensures
        faces_holding(col, cols, x) == holding(col, cols, x).len(),
        strictly_sorted(holding(col, cols, x)),
        forall|f: usize| #[trigger]
            holding(col, cols, x).contains(f) <==> (col.contains(f) && cols[f as int].contains(x)),
    decreases col.len(),
{
    if col.len() > 0 {
        lemma_sorted_last(col);
        lemma_holding(col.drop_last(), cols, x);
        let rest = holding(col.drop_last(), cols, x);
        let l = col.last();
        if cols[l as int].contains(x) {
            let h = rest.push(l);
            assert forall|i: int, j: int| 0 <= i < j < h.len() implies h[i] < h[j] by {
                if j < rest.len() {
                    assert(h[i] == rest[i] && h[j] == rest[j]);
                } else {
                    assert(h[i] == rest[i]);
                    assert(rest.contains(rest[i]));
                }
            }
            assert forall|f: usize| #[trigger] h.contains(f) <==> (rest.contains(f) || f == l) by {
                if h.contains(f) {
                    let i = choose|i: int| 0 <= i < h.len() && h[i] == f;
                    if i < rest.len() {
                        assert(rest[i] == f);
                    }
                }
                if rest.contains(f) {
                    let i = choose|i: int| 0 <= i < rest.len() && rest[i] == f;
                    assert(h[i] == f);
                }
                if f == l {
                    assert(h[rest.len() as int] == f);
                }
            }
        }
    }
}

/// Removing one vertex from a strictly increasing vertex list leaves a
/// strictly increasing list of the other vertices.
pub proof fn lemma_remove_vertex(s: Seq<usize>, k: int)
    requires
        strictly_sorted(s),
        0 <= k < s.len(),
    ensures
        strictly_sorted(s.remove(k)),
        s.remove(k).len() == s.len() - 1,
        forall|y: usize| #[trigger] s.remove(k).contains(y) <==> (s.contains(y) && y != s[k]),
{
    let r = s.remove(k);
    assert forall|i: int| 0 <= i < r.len() implies #[trigger] r[i] == (if i < k { s[i] } else { s[i + 1] }) by {}
    assert forall|i: int, j: int| 0 <= i < j < r.len() implies r[i] < r[j] by {
        let i2 = if i < k { i } else { i + 1 };
        let j2 = if j < k { j } else { j + 1 };
        assert(r[i] == s[i2] && r[j] == s[j2]);
    }
    assert forall|y: usize| #[trigger] r.contains(y) <==> (s.contains(y) && y != s[k]) by {
        if r.contains(y) {
            let i = choose|i: int| 0 <= i < r.len() && r[i] == y;
            let i2 = if i < k { i } else { i + 1 };
            assert(s[i2] == y);
            assert(i2 != k);
        }
        if s.contains(y) && y != s[k] {
            let i = choose|i: int| 0 <= i < s.len() && s[i] == y;
            if i < k {
                assert(r[i] == y);
            } else {
                assert(i != k);
                assert(r[i - 1] == y);
            }
        }
    }
}

/// In a list without repeats, being the last position of a simplex is being
/// its position.
pub proof fn lemma_position(ss: Seq<Seq<usize>>, t: Seq<usize>, f: int)
    requires
        simplicial_complex(ss),
    ensures
        last_position(ss, t, f) <==> (0 <= f < ss.len() && ss[f] == t),
{
    if 0 <= f < ss.len() && ss[f] == t {
        assert forall|i: int| f < i < ss.len() implies ss[i] != t by {
            assert(ss[i] != ss[f]);
        }
    }
}

/// Row `f` lies in the boundary column of simplex `j` exactly when simplex
/// `f` is a face of simplex `j`.
pub proof fn lemma_face_row(ss: Seq<Seq<usize>>, j: int, f: usize)
    requires
        simplicial_complex(ss),
        0 <= j < ss.len(),
    ensures
        face_rows(ss, j).contains(f) <==> (ss[j].len() > 1 && f < ss.len() && exists|k: int|
            0 <= k < ss[j].len() && ss[f as int] == #[trigger] ss[j].remove(k)),
{
    if ss[j].len() > 1 {
        if face_rows(ss, j).contains(f) {
            let k = choose|k: int| 0 <= k < ss[j].len() && last_position(ss, ss[j].remove(k), f as int);
            assert(ss[f as int] == ss[j].remove(k));
        }
        if f < ss.len() && exists|k: int| 0 <= k < ss[j].len() && ss[f as int] == #[trigger] ss[j].remove(k) {
            let k = choose|k: int| 0 <= k < ss[j].len() && ss[f as int] == #[trigger] ss[j].remove(k);
            lemma_position(ss, ss[j].remove(k), f as int);
        }
    }
}

/// The facts about a boundary matrix built from a simplicial complex that the
/// counting below relies on.
pub open spec fn built_from(ss: Seq<Seq<usize>>, cols: Seq<Seq<usize>>) -> bool {
    &&& ss.len() <= usize::MAX
    &&& cols.len() == ss.len()
    &&& forall|i: int| 0 <= i < ss.len() ==> strictly_sorted(#[trigger] cols[i])
    &&& forall|i: int| 0 <= i < ss.len() ==> (#[trigger] cols[i]).to_set() == face_rows(ss, i)
    &&& simplicial_complex(ss)
}

/// Row `y` lies in column `i` exactly when it is one of its face rows.
proof fn lemma_col_member(ss: Seq<Seq<usize>>, cols: Seq<Seq<usize>>, i: int, y: usize)
    requires
        built_from(ss, cols),
        0 <= i < ss.len(),
    ensures
        cols[i].contains(y) == face_rows(ss, i).contains(y),
{
    assert(cols[i].to_set().contains(y) == cols[i].contains(y));
}

/// Two distinct positions of a strictly increasing list hold distinct
/// vertices.
proof fn lemma_vertex_position(s: Seq<usize>, k: int, k2: int)
    requires
        strictly_sorted(s),
        0 <= k < s.len(),
        0 <= k2 < s.len(),
        s[k] == s[k2],
    ensures
        k == k2,
{
}

/// If row `f` of column `j` holds row `x`, then simplex `f` is simplex `j`
/// with one vertex removed and simplex `x` is simplex `f` with one more
/// vertex removed.
proof fn lemma_holder(ss: Seq<Seq<usize>>, cols: Seq<Seq<usize>>, j: int, x: usize, f: usize) -> (kl: (int, int))
    requires
        built_from(ss, cols),
        0 <= j < ss.len(),
        cols[j].contains(f),
        cols[f as int].contains(x),
    ensures
        f < ss.len(),
        ss[j].len() > 2,
        x < ss.len(),
        0 <= kl.0 < ss[j].len(),
        0 <= kl.1 < ss[j].len() - 1,
        ss[f as int] == ss[j].remove(kl.0),
        ss[x as int] == ss[j].remove(kl.0).remove(kl.1),
{
    lemma_col_member(ss, cols, j, f);
    lemma_face_row(ss, j, f);
    let k = choose|k: int| 0 <= k < ss[j].len() && ss[f as int] == #[trigger] ss[j].remove(k);
    lemma_col_member(ss, cols, f as int, x);
    lemma_face_row(ss, f as int, x);
    let g = ss[f as int];
    let l = choose|l: int| 0 <= l < g.len() && ss[x as int] == #[trigger] g.remove(l);
    assert(strictly_sorted(ss[j]));
    lemma_remove_vertex(ss[j], k);
    (k, l)
}

/// Removing two vertices from a strictly increasing list determines which
/// two were removed.
proof fn lemma_two_removals(s: Seq<usize>, k: int, l: int, k2: int, l2: int)
    requires
        strictly_sorted(s),
        0 <= k < s.len(),
        0 <= l < s.len() - 1,
        0 <= k2 < s.len(),
        0 <= l2 < s.len() - 1,
        s.remove(k).remove(l) == s.remove(k2).remove(l2),
    ensures
        s[k2] == s[k] || s[k2] == s.remove(k)[l],
{
    lemma_remove_vertex(s, k);
    lemma_remove_vertex(s.remove(k), l);
    lemma_remove_vertex(s, k2);
    lemma_remove_vertex(s.remove(k2), l2);
    let p = s[k2];
    assert(s.contains(p)) by {
        assert(s[k2] == p);
    }
    if p != s[k] && p != s.remove(k)[l] {
        assert(s.remove(k).remove(l).contains(p));
        assert(!s.remove(k2).contains(p));
    }
}

/// A face `f` of simplex `j` having simplex `x` as a face holds `x`.
proof fn lemma_face_holds(ss: Seq<Seq<usize>>, cols: Seq<Seq<usize>>, j: int, x: usize, k: int, l: int, f: int)
    requires
        built_from(ss, cols),
        0 <= j < ss.len(),
        x < ss.len(),
        0 <= f < ss.len(),
        ss[j].len() > 2,
        0 <= k < ss[j].len(),
        0 <= l < ss[j].len() - 1,
        ss[f] == ss[j].remove(k),
        ss[x as int] == ss[f].remove(l),
    ensures
        cols[j].contains(f as usize),
        cols[f].contains(x),
{
    lemma_face_row(ss, j, f as usize);
    lemma_face_row(ss, f, x);
    lemma_col_member(ss, cols, j, f as usize);
    lemma_col_member(ss, cols, f, x);
    assert(ss[(f as usize) as int] == ss[j].remove(k));
    assert(ss[j].remove(k).len() == ss[j].len() - 1);
}

/// A boundary row of `j` holding `x` is one of the two faces of `j` that
/// contain simplex `x`.
proof fn lemma_only_two(
    ss: Seq<Seq<usize>>,
    cols: Seq<Seq<usize>>,
    j: int,
    x: usize,
    k0: int,
    l0: int,
    kb: int,
    fa: int,
    fb: int,
    f: usize,
)
    requires
        built_from(ss, cols),
        0 <= j < ss.len(),
        0 <= k0 < ss[j].len(),
        0 <= l0 < ss[j].len() - 1,
        0 <= kb < ss[j].len(),
        ss[j][kb] == ss[j].remove(k0)[l0],
        ss[x as int] == ss[j].remove(k0).remove(l0),
        0 <= fa < ss.len(),
        0 <= fb < ss.len(),
        ss[fa] == ss[j].remove(k0),
        ss[fb] == ss[j].remove(kb),
        cols[j].contains(f),
        cols[f as int].contains(x),
    ensures
        f == fa || f == fb,
{
    let s = ss[j];
    assert(strictly_sorted(s));
    let kl = lemma_holder(ss, cols, j, x, f);
    lemma_two_removals(s, k0, l0, kl.0, kl.1);
    if s[kl.0] == s[k0] {
        lemma_vertex_position(s, kl.0, k0);
        if f as int != fa {
            assert(ss[f as int] != ss[fa]);
        }
    } else {
        lemma_vertex_position(s, kl.0, kb);
        if f as int != fb {
            assert(ss[f as int] != ss[fb]);
        }
    }
}

/// When simplex `x` is simplex `j` with two vertices removed, exactly two
/// boundary rows of `j` hold `x`.
proof fn lemma_two_holders(ss: Seq<Seq<usize>>, cols: Seq<Seq<usize>>, j: int, x: usize, k0: int, l0: int)
    requires
        built_from(ss, cols),
        0 <= j < ss.len(),
        x < ss.len(),
        ss[j].len() > 2,
        0 <= k0 < ss[j].len(),
        0 <= l0 < ss[j].len() - 1,
        ss[x as int] == ss[j].remove(k0).remove(l0),
    ensures
        faces_holding(cols[j], cols, x) == 2,
{
    let s = ss[j];
    assert(strictly_sorted(s));
    assert(strictly_sorted(cols[j]));
    lemma_holding(cols[j], cols, x);
    let h = holding(cols[j], cols, x);
    let u = s.remove(k0);
    lemma_remove_vertex(s, k0);
    lemma_remove_vertex(u, l0);
    let a = s[k0];
    let b = u[l0];
    assert(u.contains(b)) by {
        assert(u[l0] == b);
    }
    let kb = choose|i: int| 0 <= i < s.len() && s[i] == b;
    assert(kb != k0);
    let w = s.remove(kb);
    lemma_remove_vertex(s, kb);
    let fa = choose|i: int| 0 <= i < ss.len() && ss[i] == s.remove(k0);
    let fb = choose|i: int| 0 <= i < ss.len() && ss[i] == s.remove(kb);
    assert(fa != fb) by {
        assert(!w.contains(b));
    }
    let t = ss[x as int];
    assert(w.contains(a)) by {
        assert(s.contains(a)) by {
            assert(s[k0] == a);
        }
    }
    let la = choose|i: int| 0 <= i < w.len() && w[i] == a;
    lemma_remove_vertex(w, la);
    assert forall|y: usize| w.remove(la).contains(y) <==> t.contains(y) by {}
    lemma_sorted_unique(w.remove(la), t);
    lemma_face_holds(ss, cols, j, x, k0, l0, fa);
    lemma_face_holds(ss, cols, j, x, kb, la, fb);
    assert(h.contains(fa as usize) && h.contains(fb as usize));
    assert forall|f: usize| #[trigger] h.contains(f) implies f == fa || f == fb by {
        lemma_only_two(ss, cols, j, x, k0, l0, kb, fa, fb, f);
    }
    let lo = if fa < fb { fa as usize } else { fb as usize };
    let hi = if fa < fb { fb as usize } else { fa as usize };
    let two = seq![lo, hi];
    assert forall|f: usize| two.contains(f) <==> h.contains(f) by {
        if h.contains(f) {
            if f == lo {
                assert(two[0] == f);
            } else {
                assert(two[1] == f);
            }
        }
    }
    lemma_sorted_unique(two, h);
}

/// When simplex `x` is not simplex `j` with two vertices removed, no boundary
/// row of `j` holds `x`.
proof fn lemma_no_holders(ss: Seq<Seq<usize>>, cols: Seq<Seq<usize>>, j: int, x: usize)
    requires
        built_from(ss, cols),
        0 <= j < ss.len(),
        !(x < ss.len() && ss[j].len() > 2 && exists|k: int, l: int|
            0 <= k < ss[j].len() && 0 <= l < ss[j].len() - 1 && #[trigger] ss[x as int]
                == #[trigger] ss[j].remove(k).remove(l)),
    ensures
        faces_holding(cols[j], cols, x) == 0,
{
    assert(strictly_sorted(cols[j]));
    lemma_holding(cols[j], cols, x);
    let h = holding(cols[j], cols, x);
    assert forall|f: usize| !h.contains(f) by {
        if h.contains(f) {
            let kl = lemma_holder(ss, cols, j, x, f);
        }
    }
    lemma_sorted_unique(h, Seq::<usize>::empty());
}

/// The boundary of the boundary of one simplex vanishes over Z/2Z.
pub proof fn lemma_boundary_vanishes_at(ss: Seq<Seq<usize>>, cols: Seq<Seq<usize>>, j: int)
    requires
        built_from(ss, cols),
        0 <= j < ss.len(),
    ensures
        boundary_vanishes_at(cols, j),
{
    assert forall|x: usize| #[trigger] faces_holding(cols[j], cols, x) % 2 == 0 by {
        if x < ss.len() && ss[j].len() > 2 && exists|k: int, l: int|
            0 <= k < ss[j].len() && 0 <= l < ss[j].len() - 1 && #[trigger] ss[x as int]
                == #[trigger] ss[j].remove(k).remove(l) {
            let (k0, l0) = choose|k: int, l: int|
                0 <= k < ss[j].len() && 0 <= l < ss[j].len() - 1 && #[trigger] ss[x as int]
                    == #[trigger] ss[j].remove(k).remove(l);
            lemma_two_holders(ss, cols, j, x, k0, l0);
        } else {
            lemma_no_holders(ss, cols, j, x);
        }
    }
}

/// ∂² = 0: for the boundary matrix built from a simplicial complex (strictly
/// increasing vertex lists, none repeated, every face listed), the boundary
/// of the boundary of every column vanishes over Z/2Z.
pub proof fn boundary_of_boundary_vanishes(ss: Seq<Seq<usize>>, cols: Seq<Seq<usize>>)
    requires
        ss.len() <= usize::MAX,
        cols.len() == ss.len(),
        forall|i: int| 0 <= i < ss.len() ==> strictly_sorted(#[trigger] cols[i]),
        forall|i: int| 0 <= i < ss.len() ==> (#[trigger] cols[i]).to_set() == face_rows(ss, i),
        simplicial_complex(ss),
    ensures
        boundary_squared_zero(cols),
{
    assert forall|j: int| 0 <= j < cols.len() implies #[trigger] boundary_vanishes_at(cols, j) by {
        lemma_boundary_vanishes_at(ss, cols, j);
    }
}

} // verus!
