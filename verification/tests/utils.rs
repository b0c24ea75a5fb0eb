use cp_library::utils::{yes_no, yes_no_custom};

#[test]
fn test_yes_no() {
    assert_eq!(yes_no(true), "Yes");
    assert_eq!(yes_no(false), "No");
}

#[test]
fn test_yes_no_custom() {
    assert_eq!(yes_no_custom(true, "YES", "NO"), "YES");
    assert_eq!(yes_no_custom(false, "Possible", "Impossible"), "Impossible");
}

#[test]
fn test_yes_no_macro() {
    println!("{}", yes_no(true));
    println!("{}", yes_no(false));
}

#[test]
fn test_yes_no_custom_macro() {
    println!("{}", yes_no_custom(true, "YES", "NO"));
    println!("{}", yes_no_custom(false, "Possible", "Impossible"));
}
