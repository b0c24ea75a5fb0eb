use cp_library::data_structure::lazy_reversible_rbst::LazyReversibleRbst;
use cp_library::data_structure::monoid_actions::{
    Affine, Concatenation, RangeAddRangeSum, RangeAffineRangeSum, Text,
};

fn next(seed: &mut u64) -> u64 {
    *seed = seed.wrapping_add(0x9e37_79b9_7f4a_7c15);
    let mut value = *seed;
    value = (value ^ (value >> 30)).wrapping_mul(0xbf58_476d_1ce4_e5b9);
    value = (value ^ (value >> 27)).wrapping_mul(0x94d0_49bb_1331_11eb);
    value ^ (value >> 31)
}

#[test]
fn range_add_sum_and_sequence_operations() {
    let mut tree: LazyReversibleRbst<RangeAddRangeSum> = LazyReversibleRbst::from_vec((1..=5).collect());

    assert_eq!(tree.len(), 5);
    assert!(!tree.is_empty());
    assert_eq!(tree.fold(0, 5), 15);
    assert_eq!(tree.fold(2, 2), 0);

    tree.apply(1, 4, 10);
    assert_eq!(tree.all_prod(), 45);
    assert_eq!(tree.prod(1, 4), 39);

    tree.reverse(1, 5);
    assert_eq!(tree.to_vec(), vec![1, 5, 14, 13, 12]);
    assert_eq!(tree.get(2), Some(&14));
    assert!(tree.set(2, -4));
    assert!(!tree.set(20, 0));
    assert_eq!(tree.remove(3), Some(13));
    assert_eq!(tree.remove(20), None);

    tree.push_front(9);
    tree.push_back(8);
    tree.insert(2, 7);
    assert_eq!(tree.to_vec(), vec![9, 1, 7, 5, -4, 12, 8]);

    tree.reverse_all();
    assert_eq!(tree.into_vec(), vec![8, 12, -4, 5, 7, 1, 9]);
}

#[test]
fn composes_affine_actions_in_chronological_order() {
    let mut tree: LazyReversibleRbst<RangeAffineRangeSum> = vec![1, 2, 3, 4].into();

    tree.apply(
        0,
        4,
        Affine {
            multiplier: 2,
            constant: 3,
        },
    );
    tree.apply(
        0,
        4,
        Affine {
            multiplier: 5,
            constant: 7,
        },
    );
    assert_eq!(tree.all_prod(), 188);

    tree.apply(
        1,
        4,
        Affine {
            multiplier: 3,
            constant: -2,
        },
    );
    tree.reverse(1, 4);

    assert_eq!(tree.to_vec(), vec![32, 184, 154, 124]);
    assert_eq!(tree.fold(1, 4), 462);
}

#[test]
fn reversal_preserves_non_commutative_products() {
    let values: Vec<Text> = ["a", "bc", "D", "ef", "G"].into_iter().map(Text::from_str).collect();
    let mut tree: LazyReversibleRbst<Concatenation> = LazyReversibleRbst::from_vec(values);

    assert_eq!(tree.all_prod().as_string(), "abcDefG");
    tree.reverse(1, 4);
    assert_eq!(tree.all_prod().as_string(), "aefDbcG");
    assert_eq!(tree.fold(1, 4).as_string(), "efDbc");

    tree.apply(1, 4, true);
    assert_eq!(tree.all_prod().as_string(), "aEFdBCG");
    tree.reverse_all();
    assert_eq!(tree.all_prod().as_string(), "GBCdEFa");
    let texts: Vec<String> = tree.to_vec().iter().map(Text::as_string).collect();
    assert_eq!(texts, vec!["G", "BC", "d", "EF", "a"]);
}

#[test]
fn split_and_append_keep_pending_operations() {
    let mut tree: LazyReversibleRbst<RangeAffineRangeSum> = LazyReversibleRbst::from_vec((0..8).collect());
    tree.apply(
        0,
        8,
        Affine {
            multiplier: 2,
            constant: 1,
        },
    );
    tree.reverse(1, 7);

    let mut suffix = tree.split_off(3);
    assert_eq!(tree.all_prod(), 25);
    assert_eq!(suffix.all_prod(), 39);

    let len = tree.len();
    tree.apply(
        0,
        len,
        Affine {
            multiplier: -1,
            constant: 0,
        },
    );
    let len = suffix.len();
    suffix.apply(
        0,
        len,
        Affine {
            multiplier: 1,
            constant: 10,
        },
    );
    tree.append(&mut suffix);

    assert!(suffix.is_empty());
    assert_eq!(
        tree.clone().into_vec(),
        vec![-1, -13, -11, 19, 17, 15, 13, 25]
    );

    let mut whole = tree.split_off(0);
    assert!(tree.is_empty());
    tree.append(&mut whole);
    assert!(whole.is_empty());
    let len = tree.len();
    let empty = tree.split_off(len);
    assert!(empty.is_empty());
    assert_eq!(tree.into_vec(), vec![-1, -13, -11, 19, 17, 15, 13, 25]);
}

#[test]
fn random_operations_match_vec_without_eagerly_pushing_lazy_tags() {
    let mut tree = LazyReversibleRbst::<RangeAddRangeSum>::with_seed(7);
    let mut expected = Vec::<i64>::new();
    let mut seed = 1;

    for step in 0..5000 {
        match next(&mut seed) % 8 {
            0 => {
                let index = next(&mut seed) as usize % (expected.len() + 1);
                let value = next(&mut seed) as i64 % 1000 - 500;
                tree.insert(index, value);
                expected.insert(index, value);
            }
            1 if !expected.is_empty() => {
                let index = next(&mut seed) as usize % expected.len();
                assert_eq!(tree.remove(index), Some(expected.remove(index)));
            }
            2 => {
                let left = next(&mut seed) as usize % (expected.len() + 1);
                let right = left + next(&mut seed) as usize % (expected.len() - left + 1);
                let addition = next(&mut seed) as i64 % 41 - 20;
                tree.apply(left, right, addition);
                for value in &mut expected[left..right] {
                    *value += addition;
                }
            }
            3 => {
                let left = next(&mut seed) as usize % (expected.len() + 1);
                let right = left + next(&mut seed) as usize % (expected.len() - left + 1);
                tree.reverse(left, right);
                expected[left..right].reverse();
            }
            4 => {
                let left = next(&mut seed) as usize % (expected.len() + 1);
                let right = left + next(&mut seed) as usize % (expected.len() - left + 1);
                assert_eq!(tree.fold(left, right), expected[left..right].iter().sum());
            }
            5 if !expected.is_empty() => {
                let index = next(&mut seed) as usize % expected.len();
                assert_eq!(tree.get(index), Some(&expected[index]));
            }
            6 if !expected.is_empty() => {
                let index = next(&mut seed) as usize % expected.len();
                let value = next(&mut seed) as i64 % 1000 - 500;
                assert!(tree.set(index, value));
                expected[index] = value;
            }
            7 => {
                let index = next(&mut seed) as usize % (expected.len() + 1);
                let mut suffix = tree.split_off(index);
                let suffix_expected = expected.split_off(index);

                if next(&mut seed) & 1 == 0 {
                    tree.append(&mut suffix);
                    expected.extend(suffix_expected);
                } else {
                    suffix.append(&mut tree);
                    let mut rotated = suffix_expected;
                    rotated.append(&mut expected);
                    tree = suffix;
                    expected = rotated;
                }
            }
            _ => {
                let value = next(&mut seed) as i64 % 1000 - 500;
                tree.push_back(value);
                expected.push(value);
            }
        }

        assert_eq!(tree.len(), expected.len());
        if step % 17 == 0 {
            assert_eq!(tree.all_prod(), expected.iter().sum());
        }
        if step % 113 == 0 {
            assert_eq!(tree.clone().into_vec(), expected);
        }
    }

    assert_eq!(tree.to_vec(), expected);
}

#[test]
fn clear_resets_the_sequence() {
    let mut tree: LazyReversibleRbst<RangeAddRangeSum> = LazyReversibleRbst::from_vec((0..10).collect());
    tree.apply(0, 10, 5);
    tree.reverse_all();
    tree.clear();

    assert!(tree.is_empty());
    assert_eq!(tree.len(), 0);
    assert_eq!(tree.all_prod(), 0);
    assert_eq!(tree.fold(0, 0), 0);
    assert_eq!(tree.get(0), None);
    assert_eq!(tree.remove(0), None);
}

#[test]
fn rbst_seeded_construction_and_default() {
    let mut tree = LazyReversibleRbst::<RangeAddRangeSum>::from_iter_with_seed(vec![3, 1, 4, 1, 5], 42);
    assert_eq!(tree.to_vec(), vec![3, 1, 4, 1, 5]);
    assert_eq!(tree.fold(1, 4), 6);
    let empty: LazyReversibleRbst<RangeAddRangeSum> = LazyReversibleRbst::default();
    assert!(empty.is_empty());
    let mut other = LazyReversibleRbst::<RangeAddRangeSum>::new();
    other.push_back(2);
    tree.append(&mut other);
    assert_eq!(tree.into_vec(), vec![3, 1, 4, 1, 5, 2]);
}

#[test]
fn rbst_reverse_twice_and_split_append_restore() {
    let mut tree: LazyReversibleRbst<RangeAddRangeSum> = LazyReversibleRbst::from_vec((0..9).collect());
    tree.reverse(2, 7);
    assert_eq!(tree.to_vec(), vec![0, 1, 6, 5, 4, 3, 2, 7, 8]);
    tree.reverse(2, 7);
    assert_eq!(tree.to_vec(), (0..9).collect::<Vec<i64>>());
    let mut suffix = tree.split_off(4);
    assert_eq!(suffix.to_vec(), vec![4, 5, 6, 7, 8]);
    tree.append(&mut suffix);
    assert_eq!(tree.to_vec(), (0..9).collect::<Vec<i64>>());
    assert_eq!(tree.fold(3, 3), 0);
    tree.apply(3, 3, 100);
    assert_eq!(tree.all_prod(), 36);
}

#[test]
fn range_sums_wrap_around() {
    let mut tree: LazyReversibleRbst<RangeAddRangeSum> = LazyReversibleRbst::from_vec(vec![i64::MAX, 1]);
    assert_eq!(tree.all_prod(), i64::MIN);
    tree.apply(0, 2, 1);
    assert_eq!(tree.to_vec(), vec![i64::MIN, 2]);
}

#[test]
fn rbst_from_vec_keeps_order() {
    let mut tree: LazyReversibleRbst<RangeAddRangeSum> = vec![9, 8, 7].into();
    assert_eq!(tree.to_vec(), vec![9, 8, 7]);
    assert_eq!(tree.fold(0, 3), 24);
}
