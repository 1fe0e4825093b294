use homology_engine::filtration::{clique_simplices, next_combination, Filtration, FiltrationBuilder};

#[test]
fn test_empty_filtration() {
    let f = Filtration::<f64>::new();
    assert!(f.is_empty());
    assert_eq!(f.len(), 0);
}

#[test]
fn test_simple_filtration() {
    let mut f = Filtration::new();
    f.add(vec![0], 0.0);
    f.add(vec![1], 0.0);
    f.add(vec![0, 1], 1.0);
    assert_eq!(f.len(), 3);
    assert_eq!(f.dim(0), 0);
    assert_eq!(f.dim(2), 1);
}

// Own tests.

#[test]
fn filtration_boundary_matrix_and_counts() {
    let f = Filtration::from_sorted(
        vec![vec![0], vec![1], vec![2], vec![0, 1], vec![1, 2], vec![0, 2], vec![0, 1, 2]],
        vec![0.0, 0.0, 0.0, 1.0, 1.0, 1.5, 1.5],
    );
    assert_eq!(f.num_vertices(), 3);
    assert_eq!(f.max_dim(), 2);
    assert_eq!(f.value(5), 1.5);
    assert_eq!(f.simplex(6), &[0, 1, 2]);
    let bm = f.boundary_matrix();
    assert!(bm.verify_chain_complex());
    assert_eq!(bm.column(6), &[3, 4, 5]);
    assert_eq!(bm.simplex_dim(6), 2);
    let betti = bm.reduce().betti_numbers();
    assert_eq!(betti.at(0), 1);
    assert_eq!(betti.at(1), 0);
}

#[test]
fn next_combination_enumerates_in_order() {
    let mut combo = vec![0, 1];
    let mut seen = vec![combo.clone()];
    while next_combination(&mut combo, 4) {
        seen.push(combo.clone());
    }
    assert_eq!(
        seen,
        vec![vec![0, 1], vec![0, 2], vec![0, 3], vec![1, 2], vec![1, 3], vec![2, 3]]
    );
    // The last combination is left unchanged.
    assert_eq!(combo, vec![2, 3]);
}

#[test]
fn builder_limits_triangles() {
    let b = FiltrationBuilder::new();
    assert!(b.includes_triangles());
    let edges = vec![(0, 1), (2, 1), (0, 2), (2, 3)];
    assert_eq!(b.flag_triangles(4, &edges), vec![(0, 1, 2)]);
    let b1 = FiltrationBuilder::new().max_dim(1);
    assert!(!b1.includes_triangles());
    assert!(b1.flag_triangles(4, &edges).is_empty());
    let b2 = FiltrationBuilder::default().max_dim(2);
    assert!(b2.includes_triangles());
}

#[test]
fn flag_triangles_of_complete_graph() {
    let b = FiltrationBuilder::new();
    let edges = vec![(0, 1), (0, 2), (0, 3), (1, 2), (1, 3), (2, 3), (3, 9)];
    assert_eq!(
        b.flag_triangles(4, &edges),
        vec![(0, 1, 2), (0, 1, 3), (0, 2, 3), (1, 2, 3)]
    );
}

#[test]
fn ensure_face_order_keeps_order() {
    let b = FiltrationBuilder::new();
    let list = vec![(vec![0], 0.0), (vec![1], 0.0), (vec![0, 1], 2.0)];
    assert_eq!(b.ensure_face_order(list.clone()), list);
}

fn closeness(n: usize, pairs: &[(usize, usize)]) -> Vec<Vec<bool>> {
    let mut close = vec![vec![false; n]; n];
    for &(i, j) in pairs {
        close[i][j] = true;
    }
    close
}

#[test]
fn clique_simplices_lists_pairwise_close_vertices() {
    let close = closeness(4, &[(0, 1), (1, 2), (0, 2), (2, 3)]);
    assert_eq!(clique_simplices(&close, 0), vec![vec![0], vec![1], vec![2], vec![3]]);
    assert_eq!(
        clique_simplices(&close, 1),
        vec![vec![0, 1], vec![0, 2], vec![1, 2], vec![2, 3]]
    );
    assert_eq!(clique_simplices(&close, 2), vec![vec![0, 1, 2]]);
    assert!(clique_simplices(&close, 3).is_empty());
}

#[test]
fn clique_simplices_reads_pairs_in_increasing_order() {
    // Only close[u][v] with u < v counts.
    let close = closeness(3, &[(1, 0), (2, 1), (0, 2)]);
    assert_eq!(clique_simplices(&close, 1), vec![vec![0, 2]]);
    let complete = closeness(4, &[(0, 1), (0, 2), (0, 3), (1, 2), (1, 3), (2, 3)]);
    assert_eq!(
        clique_simplices(&complete, 2),
        vec![vec![0, 1, 2], vec![0, 1, 3], vec![0, 2, 3], vec![1, 2, 3]]
    );
    assert_eq!(clique_simplices(&complete, 3), vec![vec![0, 1, 2, 3]]);
}

#[test]
fn next_combination_steps_to_the_lexicographic_successor() {
    let mut combo = vec![0, 3, 4];
    assert!(next_combination(&mut combo, 5));
    assert_eq!(combo, vec![1, 2, 3]);
    let mut last = vec![2, 3, 4];
    assert!(!next_combination(&mut last, 5));
    assert_eq!(last, vec![2, 3, 4]);
}

#[test]
fn ensure_face_order_moves_faces_ahead() {
    let b = FiltrationBuilder::new();
    let list: Vec<(Vec<usize>, u64)> = vec![(vec![0, 1], 1), (vec![0], 0), (vec![1], 0)];
    assert_eq!(
        b.ensure_face_order(list),
        vec![(vec![0], 0), (vec![1], 0), (vec![0, 1], 1)]
    );
    let tri: Vec<(Vec<usize>, u64)> = vec![
        (vec![0, 1, 2], 5),
        (vec![0], 0),
        (vec![0, 1], 2),
        (vec![1], 0),
        (vec![1, 2], 3),
        (vec![2], 0),
        (vec![0, 2], 4),
    ];
    assert_eq!(
        b.ensure_face_order(tri),
        vec![
            (vec![0], 0),
            (vec![1], 0),
            (vec![0, 1], 2),
            (vec![2], 0),
            (vec![1, 2], 3),
            (vec![0, 2], 4),
            (vec![0, 1, 2], 5),
        ]
    );
}
