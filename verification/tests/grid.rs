use cp_library::grid::{neighbors4, neighbors8};

#[test]
fn test_neighbors4() {
    let h = 3;
    let w = 3;

    // Center
    let n = neighbors4(1, 1, h, w);
    assert_eq!(n.len(), 4);
    assert!(n.contains(&(0, 1)));
    assert!(n.contains(&(2, 1)));
    assert!(n.contains(&(1, 0)));
    assert!(n.contains(&(1, 2)));

    // Top-left
    let n = neighbors4(0, 0, h, w);
    assert_eq!(n.len(), 2);
    assert!(n.contains(&(0, 1)));
    assert!(n.contains(&(1, 0)));

    // Bottom-right
    let n = neighbors4(2, 2, h, w);
    assert_eq!(n.len(), 2);
    assert!(n.contains(&(2, 1)));
    assert!(n.contains(&(1, 2)));
}

#[test]
fn test_neighbors8() {
    let h = 3;
    let w = 3;

    // Center
    let n = neighbors8(1, 1, h, w);
    assert_eq!(n.len(), 8);
    assert!(n.contains(&(0, 0)));
    assert!(n.contains(&(0, 1)));
    assert!(n.contains(&(0, 2)));
    assert!(n.contains(&(1, 0)));
    assert!(n.contains(&(1, 2)));
    assert!(n.contains(&(2, 0)));
    assert!(n.contains(&(2, 1)));
    assert!(n.contains(&(2, 2)));

    // Top-left
    let n = neighbors8(0, 0, h, w);
    assert_eq!(n.len(), 3);
    assert!(n.contains(&(0, 1)));
    assert!(n.contains(&(1, 0)));
    assert!(n.contains(&(1, 1)));

    // Bottom-right
    let n = neighbors8(2, 2, h, w);
    assert_eq!(n.len(), 3);
    assert!(n.contains(&(1, 1)));
    assert!(n.contains(&(1, 2)));
    assert!(n.contains(&(2, 1)));
}

#[test]
fn neighbor_order_is_fixed() {
    assert_eq!(neighbors4(0, 0, 3, 3), vec![(0, 1), (1, 0)]);
    assert_eq!(neighbors4(1, 1, 3, 3), vec![(1, 2), (1, 0), (2, 1), (0, 1)]);
    assert_eq!(
        neighbors8(1, 1, 2, 2),
        vec![(0, 0), (0, 1), (1, 0)]
    );
    assert!(neighbors4(0, 0, 1, 1).is_empty());
}
