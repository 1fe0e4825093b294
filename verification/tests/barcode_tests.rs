use homology_engine::barcode::Barcode;
use homology_engine::boundary::BoundaryMatrix;

#[test]
fn test_bars_in_dimension() {
    let mut bc = Barcode::new();
    bc.add_finite(0, 3, 0);
    bc.add_finite(1, 4, 1);
    bc.add_infinite(0, 0);
    bc.add_infinite(2, 1);

    let (f0, i0) = bc.bars_in_dimension(0);
    assert_eq!(f0.len(), 1);
    assert_eq!(i0.len(), 1);

    let (f1, i1) = bc.bars_in_dimension(1);
    assert_eq!(f1.len(), 1);
    assert_eq!(i1.len(), 1);
}

#[test]
fn test_dimension_counts() {
    let mut bc = Barcode::new();
    bc.add_finite(0, 3, 0);
    bc.add_finite(1, 4, 0);
    bc.add_finite(2, 5, 1);
    bc.add_infinite(0, 0);

    let counts = bc.dimension_counts();
    assert_eq!(counts.get(&0), Some(&(2, 1)));
    assert_eq!(counts.get(&1), Some(&(1, 0)));
}

#[test]
fn test_from_reduced() {
    let simplices: Vec<Vec<usize>> = vec![vec![0], vec![1], vec![0, 1]];
    let boundary = BoundaryMatrix::from_simplices(&simplices);
    let reduced = boundary.reduce();
    let bc = Barcode::from_reduced(&reduced);
    assert_eq!(bc.len(), 2);
}

// Own tests.

#[test]
fn empty_barcode_has_no_bars() {
    let bc = Barcode::new();
    assert!(bc.is_empty());
    assert_eq!(bc.len(), 0);
    assert_eq!(Barcode::default(), bc);
    assert!(bc.dimension_counts().is_empty());
}

#[test]
fn bars_in_dimension_keep_order_and_values() {
    let mut bc = Barcode::new();
    bc.add_finite(0, 3, 0);
    bc.add_finite(2, 7, 1);
    bc.add_finite(1, 5, 0);
    bc.add_infinite(4, 1);
    bc.add_infinite(0, 0);
    let (f0, i0) = bc.bars_in_dimension(0);
    assert_eq!(f0, vec![(0, 3), (1, 5)]);
    assert_eq!(i0, vec![0]);
    let (f2, i2) = bc.bars_in_dimension(2);
    assert!(f2.is_empty() && i2.is_empty());
    assert_eq!(bc.finite_bars(), &[(0, 3, 0), (2, 7, 1), (1, 5, 0)]);
    assert_eq!(bc.infinite_bars(), &[(4, 1), (0, 0)]);
}

#[test]
fn barcode_of_hollow_triangle() {
    let simplices: Vec<Vec<usize>> =
        vec![vec![0], vec![1], vec![2], vec![0, 1], vec![0, 2], vec![1, 2]];
    let reduced = BoundaryMatrix::from_simplices(&simplices).reduce();
    let bc = reduced.barcode();
    assert_eq!(bc.finite_bars(), &[(1, 3, 0), (2, 4, 0)]);
    // Vertex 0 never dies (a component); edge 5 closes a loop.
    assert_eq!(bc.infinite_bars(), &[(0, 0), (5, 1)]);
    let counts = bc.dimension_counts();
    assert_eq!(counts.get(&0), Some(&(2, 1)));
    assert_eq!(counts.get(&1), Some(&(0, 1)));
    assert_eq!(counts.len(), 2);
}
