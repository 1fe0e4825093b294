use homology_engine::diagram::PersistenceDiagram;

#[test]
fn test_add_points() {
    let mut d = PersistenceDiagram::new();
    d.add_point(0.0, 3.0, 0);
    d.add_point(1.0, 5.0, 1);
    assert_eq!(d.len(), 2);
    assert_eq!(d.points_in_dimension(0), vec![(0.0, 3.0)]);
    assert_eq!(d.points_in_dimension(1), vec![(1.0, 5.0)]);
}

// Own tests.

#[test]
fn empty_diagram_has_no_points() {
    let d: PersistenceDiagram<f64> = PersistenceDiagram::new();
    assert!(d.is_empty());
    assert_eq!(d.len(), 0);
    assert!(d.points().is_empty());
    assert_eq!(PersistenceDiagram::<f64>::default(), d);
}

#[test]
fn points_keep_their_order_per_dimension() {
    let mut d = PersistenceDiagram::new();
    d.add_point(2, 9, 1);
    d.add_point(0, 4, 0);
    d.add_point(1, 3, 1);
    d.add_point(5, 6, 0);
    assert_eq!(d.points(), &[(2, 9, 1), (0, 4, 0), (1, 3, 1), (5, 6, 0)]);
    assert_eq!(d.points_in_dimension(1), vec![(2, 9), (1, 3)]);
    assert_eq!(d.points_in_dimension(0), vec![(0, 4), (5, 6)]);
    assert!(d.points_in_dimension(2).is_empty());
    assert!(!d.is_empty());
}
