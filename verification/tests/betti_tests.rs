use homology_engine::betti::BettiNumbers;
use homology_engine::boundary::BoundaryMatrix;
use homology_engine::reduction::ReducedMatrix;

fn make_reduced(simplices: &[Vec<usize>]) -> ReducedMatrix {
    let b = BoundaryMatrix::from_simplices(simplices);
    b.reduce()
}

#[test]
fn test_single_vertex() {
    let r = make_reduced(&[vec![0]]);
    let betti = BettiNumbers::from_reduced(&r);
    assert_eq!(betti.at(0), 1);
    assert_eq!(betti.at(1), 0);
}

#[test]
fn test_single_edge() {
    let r = make_reduced(&[vec![0], vec![1], vec![0, 1]]);
    let betti = BettiNumbers::from_reduced(&r);
    assert_eq!(betti.at(0), 1);
    assert_eq!(betti.at(1), 0);
}

#[test]
fn test_triangle_hollow() {
    let r = make_reduced(&[vec![0], vec![1], vec![2], vec![0, 1], vec![0, 2], vec![1, 2]]);
    let betti = BettiNumbers::from_reduced(&r);
    assert_eq!(betti.at(0), 1);
    assert_eq!(betti.at(1), 1);
}

#[test]
fn test_triangle_filled() {
    let r = make_reduced(&[
        vec![0],
        vec![1],
        vec![2],
        vec![0, 1],
        vec![0, 2],
        vec![1, 2],
        vec![0, 1, 2],
    ]);
    let betti = BettiNumbers::from_reduced(&r);
    assert_eq!(betti.at(0), 1);
    assert_eq!(betti.at(1), 0);
}

#[test]
fn test_two_disconnected_vertices() {
    let r = make_reduced(&[vec![0], vec![1]]);
    let betti = BettiNumbers::from_reduced(&r);
    assert_eq!(betti.at(0), 2);
}

#[test]
fn test_empty_complex() {
    let r = BoundaryMatrix::new(0, 0).reduce();
    let betti = BettiNumbers::from_reduced(&r);
    assert_eq!(betti.total(), 0);
}

#[test]
fn test_betti_curve() {
    let r = make_reduced(&[vec![0], vec![1], vec![0, 1]]);
    let curve = BettiNumbers::betti_curve(&r, 0);
    assert!(!curve.is_empty());
}

#[test]
fn test_persistent_betti() {
    let r = make_reduced(&[vec![0], vec![1], vec![2], vec![0, 1], vec![0, 2], vec![1, 2]]);
    assert_eq!(BettiNumbers::persistent_betti(&r, 0, 0), 1);
    assert_eq!(BettiNumbers::persistent_betti(&r, 0, 5), 1);
    assert_eq!(BettiNumbers::persistent_betti(&r, 1, 5), 1);
}

#[test]
fn test_to_vec() {
    let r = make_reduced(&[vec![0], vec![1], vec![2], vec![0, 1], vec![0, 2], vec![1, 2]]);
    let betti = BettiNumbers::from_reduced(&r);
    let v = betti.to_vec();
    assert_eq!(v[0], 1);
    assert_eq!(v[1], 1);
}

// Own tests.

#[test]
fn betti_curve_tracks_components() {
    let r = make_reduced(&[vec![0], vec![1], vec![0, 1]]);
    // Step 0: one vertex; step 1: two; step 2: the edge merges them.
    assert_eq!(BettiNumbers::betti_curve(&r, 0), vec![0, 1, 2, 1]);
    assert_eq!(BettiNumbers::betti_curve(&r, 1), vec![0, 0, 0, 0]);
}

#[test]
fn betti_curve_ends_at_betti_number() {
    let r = make_reduced(&[vec![0], vec![1], vec![2], vec![0, 1], vec![0, 2], vec![1, 2]]);
    let betti = r.betti_numbers();
    let c0 = BettiNumbers::betti_curve(&r, 0);
    let c1 = BettiNumbers::betti_curve(&r, 1);
    assert_eq!(c0, vec![0, 1, 2, 3, 2, 1, 1]);
    assert_eq!(c1, vec![0, 0, 0, 0, 0, 0, 1]);
    assert_eq!(*c0.last().unwrap(), betti.at(0));
    assert_eq!(*c1.last().unwrap(), betti.at(1));
}

#[test]
fn persistent_betti_counts_live_classes() {
    let r = make_reduced(&[vec![0], vec![1], vec![2], vec![0, 1], vec![0, 2], vec![1, 2]]);
    assert_eq!(BettiNumbers::persistent_betti(&r, 0, 1), 2);
    assert_eq!(BettiNumbers::persistent_betti(&r, 0, 2), 3);
    assert_eq!(BettiNumbers::persistent_betti(&r, 0, 3), 2);
    assert_eq!(BettiNumbers::persistent_betti(&r, 1, 4), 0);
}

#[test]
fn betti_totals_and_dimensions() {
    let r = make_reduced(&[vec![0], vec![1], vec![2], vec![0, 1], vec![0, 2], vec![1, 2]]);
    let betti = BettiNumbers::from_reduced(&r);
    assert_eq!(betti.total(), 2);
    assert_eq!(betti.total(), r.unpaired().len());
    assert_eq!(betti.max_dimension(), 1);
    assert_eq!(betti.to_vec(), vec![1, 1]);
    assert_eq!(betti.at(7), 0);
    let bc = r.barcode();
    for k in 0..3 {
        assert_eq!(betti.at(k), bc.bars_in_dimension(k).1.len());
    }
}

#[test]
fn empty_betti_numbers() {
    let b = BettiNumbers::new();
    assert_eq!(b.total(), 0);
    assert_eq!(b.max_dimension(), 0);
    assert_eq!(b.to_vec(), vec![0]);
    assert_eq!(BettiNumbers::default(), b);
}

#[test]
fn tetrahedron_surface_has_a_void() {
    // The boundary of a tetrahedron: a hollow sphere.
    let r = make_reduced(&[
        vec![0],
        vec![1],
        vec![2],
        vec![3],
        vec![0, 1],
        vec![0, 2],
        vec![0, 3],
        vec![1, 2],
        vec![1, 3],
        vec![2, 3],
        vec![0, 1, 2],
        vec![0, 1, 3],
        vec![0, 2, 3],
        vec![1, 2, 3],
    ]);
    let betti = r.betti_numbers();
    assert_eq!(betti.to_vec(), vec![1, 0, 1]);
}

// The rank over Z/2Z of the boundary columns of dimension k, by trying every
// subset of those columns (rows as bits).
fn brute_rank(m: &BoundaryMatrix, k: usize) -> usize {
    let cols: Vec<u64> = (0..m.num_cols())
        .filter(|&j| m.simplex_dim(j) == k)
        .map(|j| m.column(j).iter().fold(0u64, |acc, &r| acc | (1u64 << r)))
        .collect();
    let n = cols.len();
    let mut best = 0;
    for set in 0u32..(1u32 << n) {
        let members: Vec<u64> = (0..n).filter(|&i| set & (1 << i) != 0).map(|i| cols[i]).collect();
        let size = members.len();
        let independent = (1u32..(1u32 << size)).all(|sub| {
            (0..size).filter(|&i| sub & (1 << i) != 0).fold(0u64, |acc, i| acc ^ members[i]) != 0
        });
        if independent && size > best {
            best = size;
        }
    }
    best
}

#[test]
fn betti_numbers_are_simplices_minus_ranks() {
    let simplices: Vec<Vec<usize>> = vec![
        vec![0],
        vec![1],
        vec![2],
        vec![3],
        vec![0, 1],
        vec![1, 2],
        vec![0, 2],
        vec![2, 3],
        vec![1, 3],
        vec![0, 1, 2],
    ];
    let m = BoundaryMatrix::from_simplices(&simplices);
    let r = m.reduce();
    let betti = r.betti_numbers();
    let red = r.reduced_matrix();
    for k in 0..3usize {
        let n_k = (0..m.num_cols()).filter(|&j| m.simplex_dim(j) == k).count();
        let pivots = |d: usize| {
            (0..red.num_cols()).filter(|&j| red.simplex_dim(j) == d && !red.is_zero_column(j)).count()
        };
        assert_eq!(brute_rank(&m, k), pivots(k));
        assert_eq!(brute_rank(&m, k + 1), pivots(k + 1));
        assert_eq!(betti.at(k), n_k - brute_rank(&m, k) - brute_rank(&m, k + 1));
    }
    assert_eq!(betti.to_vec(), vec![1, 1, 0]);
}

#[test]
fn euler_characteristic_of_a_hollow_tetrahedron() {
    let simplices: Vec<Vec<usize>> = vec![
        vec![0],
        vec![1],
        vec![2],
        vec![3],
        vec![0, 1],
        vec![0, 2],
        vec![0, 3],
        vec![1, 2],
        vec![1, 3],
        vec![2, 3],
        vec![0, 1, 2],
        vec![0, 1, 3],
        vec![0, 2, 3],
        vec![1, 2, 3],
    ];
    let m = BoundaryMatrix::from_simplices(&simplices);
    let betti = m.reduce().betti_numbers();
    let mut chi_betti: i64 = 0;
    let mut chi_simplices: i64 = 0;
    for k in 0..3usize {
        let sign = if k % 2 == 0 { 1 } else { -1 };
        chi_betti += sign * betti.at(k) as i64;
        chi_simplices += sign * (0..m.num_cols()).filter(|&j| m.simplex_dim(j) == k).count() as i64;
    }
    assert_eq!(chi_betti, 2);
    assert_eq!(chi_simplices, 2);
}

#[test]
fn betti_curve_entries_are_persistent_betti_numbers() {
    let r = make_reduced(&[
        vec![0],
        vec![1],
        vec![2],
        vec![0, 1],
        vec![1, 2],
        vec![0, 2],
        vec![0, 1, 2],
    ]);
    let n = r.reduced_matrix().num_cols();
    for dim in 0..3 {
        let curve = BettiNumbers::betti_curve(&r, dim);
        assert_eq!(curve.len(), n + 1);
        assert_eq!(curve[0], 0);
        for t in 0..n {
            assert_eq!(curve[t + 1], BettiNumbers::persistent_betti(&r, dim, t));
        }
    }
}
