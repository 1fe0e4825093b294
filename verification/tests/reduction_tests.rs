use homology_engine::boundary::BoundaryMatrix;
use homology_engine::reduction::MatrixReduction;

#[test]
fn test_reduce_single_edge() {
    let simplices: Vec<Vec<usize>> = vec![vec![0], vec![1], vec![0, 1]];
    let boundary = BoundaryMatrix::from_simplices(&simplices);
    let reduced = boundary.reduce();
    assert_eq!(reduced.pairs().len(), 1);
    assert_eq!(reduced.unpaired().len(), 1);
}

#[test]
fn test_reduce_triangle() {
    let simplices: Vec<Vec<usize>> =
        vec![vec![0], vec![1], vec![2], vec![0, 1], vec![0, 2], vec![1, 2]];
    let boundary = BoundaryMatrix::from_simplices(&simplices);
    let reduced = boundary.reduce();
    assert_eq!(reduced.unpaired().len(), 2);
}

#[test]
fn test_reduce_triangle_filled() {
    let simplices: Vec<Vec<usize>> = vec![
        vec![0],
        vec![1],
        vec![2],
        vec![0, 1],
        vec![0, 2],
        vec![1, 2],
        vec![0, 1, 2],
    ];
    let boundary = BoundaryMatrix::from_simplices(&simplices);
    let reduced = boundary.reduce();
    assert!(!reduced.pairs().is_empty());
}

#[test]
fn test_reduce_empty_matrix() {
    let m = BoundaryMatrix::new(0, 0);
    let reduced = m.reduce();
    assert!(reduced.pairs().is_empty());
    assert!(reduced.unpaired().is_empty());
}

#[test]
fn test_reduce_single_vertex() {
    let simplices: Vec<Vec<usize>> = vec![vec![0]];
    let boundary = BoundaryMatrix::from_simplices(&simplices);
    let reduced = boundary.reduce();
    assert_eq!(reduced.unpaired().len(), 1);
    assert_eq!(reduced.pairs().len(), 0);
}

#[test]
fn test_reduce_is_idempotent() {
    let simplices: Vec<Vec<usize>> =
        vec![vec![0], vec![1], vec![2], vec![0, 1], vec![0, 2], vec![1, 2]];
    let boundary = BoundaryMatrix::from_simplices(&simplices);
    let reduced1 = boundary.reduce();
    let reduced2 = boundary.reduce();
    assert_eq!(reduced1.pairs().len(), reduced2.pairs().len());
    assert_eq!(reduced1.unpaired().len(), reduced2.unpaired().len());
}

#[test]
fn test_reduce_tetrahedron() {
    let simplices: Vec<Vec<usize>> = vec![
        vec![0],
        vec![1],
        vec![2],
        vec![3],
        vec![0, 1],
        vec![0, 2],
        vec![0, 3],
        vec![1, 2],
        vec![1, 3],
        vec![2, 3],
        vec![0, 1, 2],
        vec![0, 1, 3],
        vec![0, 2, 3],
        vec![1, 2, 3],
        vec![0, 1, 2, 3],
    ];
    let boundary = BoundaryMatrix::from_simplices(&simplices);
    let reduced = boundary.reduce();
    assert!(reduced.unpaired().len() >= 1);
}

#[test]
fn test_pivot_tracking() {
    let simplices: Vec<Vec<usize>> = vec![vec![0], vec![1], vec![0, 1]];
    let boundary = BoundaryMatrix::from_simplices(&simplices);
    let reduced = boundary.reduce();
    let pivot_rows: std::collections::HashSet<usize> =
        reduced.pivots().keys().copied().collect();
    assert_eq!(pivot_rows.len(), reduced.pivots().len());
}

// Own tests.

#[test]
fn hollow_triangle_pairs_and_reduced_columns() {
    let simplices: Vec<Vec<usize>> =
        vec![vec![0], vec![1], vec![2], vec![0, 1], vec![0, 2], vec![1, 2]];
    let reduced = BoundaryMatrix::from_simplices(&simplices).reduce();
    // Edge 3 kills vertex 1, edge 4 kills vertex 2; edge 5 reduces to zero.
    assert_eq!(reduced.pairs(), &[(1, 3), (2, 4)]);
    assert_eq!(reduced.unpaired(), &[0, 5]);
    let r = reduced.reduced_matrix();
    assert_eq!(r.column(3), &[0, 1]);
    assert_eq!(r.column(4), &[0, 2]);
    assert!(r.is_zero_column(5));
    assert_eq!(reduced.pivots().get(&1), Some(&3));
    assert_eq!(reduced.pivots().get(&2), Some(&4));
    assert_eq!(reduced.pivots().len(), 2);
}

#[test]
fn filled_triangle_kills_the_loop() {
    let simplices: Vec<Vec<usize>> = vec![
        vec![0],
        vec![1],
        vec![2],
        vec![0, 1],
        vec![0, 2],
        vec![1, 2],
        vec![0, 1, 2],
    ];
    let reduced = BoundaryMatrix::from_simplices(&simplices).reduce();
    assert_eq!(reduced.pairs(), &[(1, 3), (2, 4), (5, 6)]);
    assert_eq!(reduced.unpaired(), &[0]);
}

#[test]
fn pairs_come_sorted_by_birth() {
    // Column 0 has pivot 3, column 1 has pivot 1.
    let mut m = BoundaryMatrix::new(4, 2);
    m.set_column(0, vec![0, 3]);
    m.set_column(1, vec![1]);
    let reduced = m.reduce();
    assert_eq!(reduced.pairs(), &[(1, 1), (3, 0)]);
    assert!(reduced.unpaired().is_empty());
}

#[test]
fn trait_reduction_matches_inherent() {
    let simplices: Vec<Vec<usize>> = vec![vec![0], vec![1], vec![0, 1]];
    let boundary = BoundaryMatrix::from_simplices(&simplices);
    let a = MatrixReduction::reduce(&boundary);
    let b = boundary.reduce();
    assert_eq!(a.pairs(), b.pairs());
    assert_eq!(a.unpaired(), b.unpaired());
}

#[test]
fn reduced_columns_keep_distinct_pivots() {
    let simplices: Vec<Vec<usize>> = vec![
        vec![0],
        vec![1],
        vec![2],
        vec![3],
        vec![0, 1],
        vec![0, 2],
        vec![0, 3],
        vec![1, 2],
        vec![1, 3],
        vec![2, 3],
        vec![0, 1, 2],
        vec![0, 1, 3],
        vec![0, 2, 3],
        vec![1, 2, 3],
        vec![0, 1, 2, 3],
    ];
    let reduced = BoundaryMatrix::from_simplices(&simplices).reduce();
    let r = reduced.reduced_matrix();
    let mut seen = std::collections::HashSet::new();
    for j in 0..r.num_cols() {
        if let Some(p) = r.pivot(j) {
            assert!(seen.insert(p));
            assert!(p < j);
        }
    }
    // One component survives; everything else is paired.
    assert_eq!(reduced.unpaired(), &[0]);
    assert_eq!(reduced.pairs().len(), 7);
}

#[test]
fn every_simplex_is_a_birth_a_death_or_unpaired() {
    let simplices: Vec<Vec<usize>> = vec![
        vec![0],
        vec![1],
        vec![2],
        vec![3],
        vec![0, 1],
        vec![1, 2],
        vec![0, 2],
        vec![2, 3],
        vec![0, 1, 2],
        vec![1, 3],
    ];
    let reduced = BoundaryMatrix::from_simplices(&simplices).reduce();
    let pairs = reduced.pairs();
    let unpaired = reduced.unpaired();
    assert_eq!(2 * pairs.len() + unpaired.len(), simplices.len());
    let r = reduced.reduced_matrix();
    for &(b, d) in pairs {
        assert!(b < d);
        // The birth simplex's column reduced to zero: it created a cycle.
        assert!(r.is_zero_column(b));
        assert!(!r.is_zero_column(d));
        // A class of dimension k dies at a simplex of dimension k + 1.
        assert_eq!(r.simplex_dim(d), r.simplex_dim(b) + 1);
    }
    assert_eq!(pairs, &[(1, 4), (2, 5), (3, 7), (6, 8)]);
    // Vertex 0 and the loop closed by edge [1, 3].
    assert_eq!(unpaired, &[0, 9]);
}

#[test]
fn reducing_twice_gives_the_same_result() {
    let mut m = BoundaryMatrix::new(5, 4);
    m.set_column(1, vec![0]);
    m.set_column(2, vec![1]);
    m.set_column(3, vec![0, 1]);
    let a = m.reduce();
    let b = m.reduce();
    assert_eq!(a.pairs(), b.pairs());
    assert_eq!(a.unpaired(), b.unpaired());
    assert_eq!(a.pivots(), b.pivots());
    assert_eq!(a.reduced_matrix(), b.reduced_matrix());
    assert!(a.reduced_matrix().is_zero_column(3));
    assert_eq!(a.pairs(), &[(0, 1), (1, 2)]);
    assert_eq!(a.unpaired(), &[3]);
}

#[test]
fn reduced_column_is_input_column_plus_earlier_ones() {
    let simplices: Vec<Vec<usize>> =
        vec![vec![0], vec![1], vec![2], vec![0, 1], vec![0, 2], vec![1, 2]];
    let boundary = BoundaryMatrix::from_simplices(&simplices);
    let reduced = boundary.reduce();
    // Column 4 stays D4, and column 5 is D5 + D4 + D3 over Z/2Z.
    let mut m = boundary.clone_matrix();
    m.add_columns(5, 4);
    m.add_columns(5, 3);
    assert_eq!(m.column(4), reduced.reduced_matrix().column(4));
    assert_eq!(m.column(5), reduced.reduced_matrix().column(5));
    assert!(m.is_zero_column(5));
}
