use cp_library::data_structure::implicit_treap::ImplicitTreap;

fn next(seed: &mut u64) -> u64 {
    *seed = seed.wrapping_add(0x9e37_79b9_7f4a_7c15);
    let mut value = *seed;
    value = (value ^ (value >> 30)).wrapping_mul(0xbf58_476d_1ce4_e5b9);
    value = (value ^ (value >> 27)).wrapping_mul(0x94d0_49bb_1331_11eb);
    value ^ (value >> 31)
}

#[test]
fn test_insert_remove_get_set() {
    let mut treap = ImplicitTreap::new();
    assert!(treap.is_empty());

    treap.push_back(1);
    treap.push_back(3);
    treap.insert(1, 2);
    treap.push_front(0);

    assert_eq!(treap.len(), 4);
    assert_eq!(treap.to_vec(), vec![0, 1, 2, 3]);
    assert_eq!(treap.get(2), Some(&2));
    assert!(treap.set(2, 20));
    assert_eq!(treap.to_vec(), vec![0, 1, 20, 3]);
    assert_eq!(treap.remove(2), Some(20));
    assert_eq!(treap.remove(100), None);
    assert_eq!(treap.into_vec(), vec![0, 1, 3]);
}

#[test]
fn test_reverse_ranges() {
    let mut treap: ImplicitTreap<i32> = ImplicitTreap::from_vec((0..8).collect());

    treap.reverse(2, 7);
    assert_eq!(treap.to_vec(), vec![0, 1, 6, 5, 4, 3, 2, 7]);

    treap.reverse(0, 8);
    assert_eq!(treap.to_vec(), vec![7, 2, 3, 4, 5, 6, 1, 0]);

    treap.reverse(3, 3);
    assert_eq!(treap.to_vec(), vec![7, 2, 3, 4, 5, 6, 1, 0]);
}

#[test]
fn test_random_operations_against_vec() {
    let mut treap = ImplicitTreap::new();
    let mut vec = Vec::new();
    let mut seed = 1;

    for _ in 0..1000 {
        match next(&mut seed) % 5 {
            0 => {
                let index = if vec.is_empty() {
                    0
                } else {
                    next(&mut seed) as usize % (vec.len() + 1)
                };
                let value = next(&mut seed) as i32 % 1000;
                treap.insert(index, value);
                vec.insert(index, value);
            }
            1 if !vec.is_empty() => {
                let index = next(&mut seed) as usize % vec.len();
                assert_eq!(treap.remove(index), Some(vec.remove(index)));
            }
            2 if !vec.is_empty() => {
                let left = next(&mut seed) as usize % (vec.len() + 1);
                let right = left + next(&mut seed) as usize % (vec.len() - left + 1);
                treap.reverse(left, right);
                vec[left..right].reverse();
            }
            3 if !vec.is_empty() => {
                let index = next(&mut seed) as usize % vec.len();
                assert_eq!(treap.get(index), Some(&vec[index]));
            }
            4 if !vec.is_empty() => {
                let index = next(&mut seed) as usize % vec.len();
                let value = next(&mut seed) as i32 % 1000;
                assert!(treap.set(index, value));
                vec[index] = value;
            }
            _ => {
                let value = next(&mut seed) as i32 % 1000;
                treap.push_back(value);
                vec.push(value);
            }
        }

        assert_eq!(treap.to_vec(), vec);
        assert_eq!(treap.len(), vec.len());
    }
}

#[test]
fn treap_get_mut_writes_through() {
    let mut treap = ImplicitTreap::from_vec(vec![5, 6, 7]);
    treap.reverse(0, 3);
    if let Some(x) = treap.get_mut(0) {
        *x = 70;
    }
    assert_eq!(treap.get_mut(3), None);
    assert_eq!(treap.into_vec(), vec![70, 6, 5]);
}

#[test]
fn treap_reverse_twice_restores() {
    let mut treap = ImplicitTreap::from_vec(vec![1, 2, 3, 4, 5]);
    treap.reverse(1, 4);
    assert_eq!(treap.to_vec(), vec![1, 4, 3, 2, 5]);
    treap.reverse(1, 4);
    assert_eq!(treap.to_vec(), vec![1, 2, 3, 4, 5]);
}

#[test]
fn treap_insert_then_remove_restores() {
    let mut treap = ImplicitTreap::from_vec(vec![1, 2, 3]);
    treap.insert(1, 9);
    assert_eq!(treap.get(1), Some(&9));
    assert_eq!(treap.remove(1), Some(9));
    assert_eq!(treap.to_vec(), vec![1, 2, 3]);
    assert!(!treap.set(3, 0));
    treap.clear();
    assert!(treap.is_empty());
    let d: ImplicitTreap<u8> = ImplicitTreap::default();
    assert_eq!(d.len(), 0);
}

#[test]
fn treap_from_vec_keeps_order() {
    let treap: ImplicitTreap<i32> = vec![3, 1, 4, 1, 5].into();
    assert_eq!(treap.into_vec(), vec![3, 1, 4, 1, 5]);
    let empty: ImplicitTreap<i32> = Vec::new().into();
    assert_eq!(empty.len(), 0);
}
