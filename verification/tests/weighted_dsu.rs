use cp_library::data_structure::weighted_dsu::WeightedDsu;

#[test]
fn test_weighted_dsu() {
    let mut dsu = WeightedDsu::<i32>::new(5);
    dsu.merge(0, 1, 2); // weight(1) = weight(0) + 2
    dsu.merge(1, 2, 3); // weight(2) = weight(1) + 3 -> weight(0) + 5
    dsu.merge(3, 4, 10); // weight(4) = weight(3) + 10

    assert_eq!(dsu.diff(0, 2), Some(5)); // w(2) - w(0) = 5
    assert_eq!(dsu.diff(0, 1), Some(2));
    assert_eq!(dsu.diff(1, 2), Some(3));
    assert_eq!(dsu.diff(1, 0), Some(-2));

    assert_eq!(dsu.same(0, 2), true);
    assert_eq!(dsu.same(0, 3), false);
    assert_eq!(dsu.diff(0, 3), None);

    dsu.merge(2, 4, 5); // weight(4) = weight(2) + 5 -> weight(0) + 10

    assert_eq!(dsu.diff(0, 4), Some(10));
    assert_eq!(dsu.diff(0, 3), Some(0));
    assert_eq!(dsu.size(0), 5);
}

#[test]
fn dsu_readme_example_i64() {
    let mut dsu = WeightedDsu::<i64>::new(4);
    assert!(dsu.merge(0, 1, 2));
    assert!(dsu.merge(1, 2, 3));
    assert_eq!(dsu.diff(0, 2), Some(5));
    assert_eq!(dsu.diff(2, 0), Some(-5));
    assert!(dsu.same(0, 2));
    assert_eq!(dsu.size(0), 3);
    assert_eq!(dsu.diff(0, 3), None);
}

#[test]
fn dsu_merge_of_same_set_changes_nothing() {
    let mut dsu = WeightedDsu::<i64>::new(3);
    assert!(dsu.merge(0, 1, 4));
    assert!(!dsu.merge(1, 0, 100));
    assert_eq!(dsu.diff(0, 1), Some(4));
    assert_eq!(dsu.size(2), 1);
    assert_eq!(dsu.find(2), 2);
    assert_eq!(dsu.weight(2), 0);
    // the root of {0, 1} has weight zero
    let r = dsu.find(1);
    assert_eq!(dsu.weight(r), 0);
}

#[test]
fn dsu_weights_wrap_around() {
    let mut dsu = WeightedDsu::<i32>::new(2);
    assert!(dsu.merge(0, 1, i32::MAX));
    assert_eq!(dsu.diff(1, 0), Some(i32::MIN + 1));
}

#[test]
fn dsu_differences_compose_along_a_chain() {
    let mut dsu = WeightedDsu::<i64>::new(5);
    assert!(dsu.merge(0, 1, 7));
    assert!(dsu.merge(3, 1, -2));
    assert!(dsu.merge(4, 3, 10));
    let a = dsu.diff(0, 3).unwrap();
    let b = dsu.diff(3, 4).unwrap();
    assert_eq!(dsu.diff(0, 4), Some(a + b));
    assert_eq!(dsu.diff(4, 0), Some(-(a + b)));
    assert_eq!(dsu.size(4), 4);
}

#[test]
fn dsu_new_sets_are_singletons() {
    let mut dsu = WeightedDsu::<i64>::new(4);
    for x in 0..4 {
        assert_eq!(dsu.size(x), 1);
        assert_eq!(dsu.find(x), x);
        assert_eq!(dsu.weight(x), 0);
        for y in 0..4 {
            assert_eq!(dsu.same(x, y), x == y);
        }
    }
}

#[test]
fn dsu_root_is_its_own_root_with_zero_weight() {
    let mut dsu = WeightedDsu::<i32>::new(6);
    dsu.merge(0, 1, 4);
    dsu.merge(2, 1, -3);
    dsu.merge(5, 2, 7);
    for x in 0..6 {
        let r = dsu.find(x);
        assert_eq!(dsu.find(r), r);
        assert!(dsu.same(x, r));
        assert_eq!(dsu.weight(r), 0);
        assert_eq!(dsu.diff(r, x), Some(dsu.weight(x)));
    }
    assert_eq!(dsu.size(5), 4);
    assert_eq!(dsu.size(3), 1);
    assert_eq!(dsu.size(4), 1);
}
