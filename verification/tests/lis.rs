use cp_library::lis;

#[test]
fn test_lis_simple() {
    let seq = vec![1, 3, 5, 2, 4, 6];
    assert_eq!(lis(&seq), 4);
}

#[test]
fn test_lis_empty() {
    let seq: Vec<i32> = vec![];
    assert_eq!(lis(&seq), 0);
}

#[test]
fn test_lis_sorted() {
    let seq = vec![1, 2, 3, 4, 5];
    assert_eq!(lis(&seq), 5);
}

#[test]
fn test_lis_reverse_sorted() {
    let seq = vec![5, 4, 3, 2, 1];
    assert_eq!(lis(&seq), 1);
}

#[test]
fn test_lis_with_duplicates() {
    let seq = vec![1, 2, 2, 3];
    assert_eq!(lis(&seq), 3);
}

#[test]
fn lis_on_strings_and_constant_runs() {
    let words = vec!["b", "a", "c", "b", "d"];
    assert_eq!(lis(&words), 3);
    let same = vec![7u64; 10];
    assert_eq!(lis(&same), 1);
    let zigzag = vec![0i64, 10, 1, 11, 2, 12, 3, 13];
    assert_eq!(lis(&zigzag), 5);
}
