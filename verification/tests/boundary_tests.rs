use homology_engine::boundary::{simplex_boundary, BoundaryMatrix};

#[test]
fn test_empty_matrix() {
    let m = BoundaryMatrix::new(3, 2);
    assert_eq!(m.num_rows(), 3);
    assert_eq!(m.num_cols(), 2);
    assert!(m.is_zero_column(0));
    assert!(m.is_zero_column(1));
    assert_eq!(m.pivot(0), None);
}

#[test]
fn test_single_edge_boundary() {
    // Two vertices [0], [1] and one edge [0,1]
    let simplices: Vec<Vec<usize>> = vec![vec![0], vec![1], vec![0, 1]];
    let m = BoundaryMatrix::from_simplices(&simplices);
    assert!(m.is_zero_column(0));
    assert!(m.is_zero_column(1));
    assert_eq!(m.column(2), &[0, 1]);
    assert!(m.verify_chain_complex());
}

#[test]
fn test_triangle_boundary() {
    let simplices: Vec<Vec<usize>> = vec![
        vec![0],
        vec![1],
        vec![2],
        vec![0, 1],
        vec![0, 2],
        vec![1, 2],
        vec![0, 1, 2],
    ];
    let m = BoundaryMatrix::from_simplices(&simplices);
    assert_eq!(m.column(6), &[3, 4, 5]);
    assert!(m.verify_chain_complex());
}

#[test]
fn test_simplex_boundary_function() {
    let edge = vec![0, 1];
    let faces = simplex_boundary(&edge);
    assert_eq!(faces, vec![vec![1], vec![0]]);

    let triangle = vec![0, 1, 2];
    let faces = simplex_boundary(&triangle);
    assert_eq!(faces.len(), 3);
}

#[test]
fn test_add_columns_xor() {
    let mut m = BoundaryMatrix::new(4, 2);
    m.set_column(0, vec![0, 2, 3]);
    m.set_column(1, vec![1, 2, 4]);
    m.add_columns(0, 1);
    assert_eq!(m.column(0), &[0, 1, 3, 4]);
}

#[test]
fn test_add_columns_cancel() {
    let mut m = BoundaryMatrix::new(3, 2);
    m.set_column(0, vec![1, 2]);
    m.set_column(1, vec![1, 2]);
    m.add_columns(0, 1);
    assert!(m.is_zero_column(0));
}

#[test]
fn test_chain_complex_tetrahedron() {
    let simplices: Vec<Vec<usize>> = vec![
        vec![0],
        vec![1],
        vec![2],
        vec![3],
        vec![0, 1],
        vec![0, 2],
        vec![0, 3],
        vec![1, 2],
        vec![1, 3],
        vec![2, 3],
        vec![0, 1, 2],
        vec![0, 1, 3],
        vec![0, 2, 3],
        vec![1, 2, 3],
        vec![0, 1, 2, 3],
    ];
    let m = BoundaryMatrix::from_simplices(&simplices);
    assert!(m.verify_chain_complex());
    assert_eq!(m.column(14), &[10, 11, 12, 13]);
}

#[test]
fn test_pivot() {
    let mut m = BoundaryMatrix::new(5, 1);
    assert_eq!(m.pivot(0), None);
    m.set_column(0, vec![1, 3, 4]);
    assert_eq!(m.pivot(0), Some(4));
}

#[test]
fn test_set_and_get_column() {
    let mut m = BoundaryMatrix::new(5, 3);
    m.set_column(1, vec![0, 2, 4]);
    assert_eq!(m.column(1), &[0, 2, 4]);
}

// Own tests.

#[test]
fn add_columns_twice_restores_column() {
    let mut m = BoundaryMatrix::new(6, 2);
    m.set_column(0, vec![0, 2, 5]);
    m.set_column(1, vec![2, 3]);
    m.add_columns(0, 1);
    assert_eq!(m.column(0), &[0, 3, 5]);
    m.add_columns(0, 1);
    assert_eq!(m.column(0), &[0, 2, 5]);
    assert_eq!(m.column(1), &[2, 3]);
}

#[test]
fn add_column_into_itself_clears_it() {
    let mut m = BoundaryMatrix::new(4, 1);
    m.set_column(0, vec![1, 3]);
    m.add_columns(0, 0);
    assert!(m.is_zero_column(0));
}

#[test]
fn from_simplices_records_dimensions() {
    let simplices: Vec<Vec<usize>> = vec![vec![], vec![0], vec![0, 1], vec![0, 1, 2]];
    let m = BoundaryMatrix::from_simplices(&simplices);
    assert_eq!(m.simplex_dim(0), 0);
    assert_eq!(m.simplex_dim(1), 0);
    assert_eq!(m.simplex_dim(2), 1);
    assert_eq!(m.simplex_dim(3), 2);
    assert_eq!(m.num_rows(), 4);
}

#[test]
fn from_simplices_uses_last_position_of_a_face() {
    // The vertex [0] is listed twice; the edge's boundary points at the later one.
    let simplices: Vec<Vec<usize>> = vec![vec![0], vec![1], vec![0], vec![0, 1]];
    let m = BoundaryMatrix::from_simplices(&simplices);
    assert_eq!(m.column(3), &[1, 2]);
}

#[test]
fn from_simplices_skips_missing_faces() {
    // The edge [1,2] has no listed face [2].
    let simplices: Vec<Vec<usize>> = vec![vec![1], vec![1, 2]];
    let m = BoundaryMatrix::from_simplices(&simplices);
    assert_eq!(m.column(1), &[0]);
}

#[test]
fn chain_complex_fails_for_non_boundary() {
    // Column 2 holds rows 0 and 1, whose columns hold row 0 each: they cancel.
    // Column 3 holds row 2 only, whose column holds rows 0 and 1: not zero.
    let mut m = BoundaryMatrix::new(4, 4);
    m.set_column(0, vec![]);
    m.set_column(1, vec![]);
    m.set_column(2, vec![0, 1]);
    m.set_column(3, vec![2]);
    assert!(!m.verify_chain_complex());
}

#[test]
fn clone_matrix_copies_everything() {
    let simplices: Vec<Vec<usize>> = vec![vec![0], vec![1], vec![0, 1]];
    let m = BoundaryMatrix::from_simplices(&simplices);
    let c = m.clone_matrix();
    assert_eq!(c, m);
    assert_eq!(c.columns().len(), 3);
    assert_eq!(c.columns()[2], vec![0, 1]);
}

#[test]
fn set_simplex_dim_changes_one_dimension() {
    let mut m = BoundaryMatrix::new(3, 3);
    m.set_simplex_dim(1, 7);
    assert_eq!(m.simplex_dim(0), 0);
    assert_eq!(m.simplex_dim(1), 7);
}

#[test]
fn simplex_boundary_of_vertex_is_empty() {
    assert!(simplex_boundary(&[5]).is_empty());
    assert!(simplex_boundary(&[]).is_empty());
    assert_eq!(simplex_boundary(&[3, 5, 9]), vec![vec![5, 9], vec![3, 9], vec![3, 5]]);
}

#[test]
fn adding_columns_commutes() {
    let mut a = BoundaryMatrix::new(6, 2);
    a.set_column(0, vec![0, 2, 5]);
    a.set_column(1, vec![1, 2, 4]);
    let mut b = a.clone_matrix();
    a.add_columns(0, 1);
    b.add_columns(1, 0);
    assert_eq!(a.column(0), b.column(1));
    assert_eq!(a.column(0), &[0, 1, 4, 5]);
}

#[test]
fn faces_first_gives_rows_above_the_diagonal() {
    let simplices: Vec<Vec<usize>> = vec![
        vec![0],
        vec![1],
        vec![2],
        vec![0, 1],
        vec![1, 2],
        vec![0, 2],
        vec![0, 1, 2],
    ];
    let m = BoundaryMatrix::from_simplices(&simplices);
    for j in 0..m.num_cols() {
        for &row in m.column(j) {
            assert!(row < j);
        }
    }
}
