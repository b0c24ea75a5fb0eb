use cp_library::math::base_conversion::{convert_base, convert_base_text};

#[test]
fn test_convert_base() {
    assert_eq!(convert_base("10", 10, 2).unwrap(), "1010");
    assert_eq!(convert_base("255", 10, 16).unwrap(), "ff");
    assert_eq!(convert_base("ff", 16, 10).unwrap(), "255");
    assert_eq!(convert_base(255, 10, 16).unwrap(), "ff");
    assert_eq!(convert_base(-10, 10, 2).unwrap(), "-1010");
    assert_eq!(convert_base("-ff", 16, 10).unwrap(), "-255");
    assert_eq!(convert_base("0", 10, 2).unwrap(), "0");
    assert_eq!(convert_base("000", 10, 2).unwrap(), "0");
    assert_eq!(convert_base(0, 16, 2).unwrap(), "0");

    let large_num = "123456789012345678901234567890";
    assert_eq!(convert_base(large_num, 10, 10).unwrap(), large_num);
}

#[test]
fn convert_base_reports_each_error() {
    assert_eq!(convert_base("10", 1, 10), Err("Bases must be between 2 and 36"));
    assert_eq!(convert_base("10", 10, 37), Err("Bases must be between 2 and 36"));
    assert_eq!(convert_base("   ", 10, 2), Err("Empty input"));
    assert_eq!(convert_base("", 10, 2), Err("Empty input"));
    assert_eq!(convert_base("12z", 10, 2), Err("Invalid character for base n"));
    assert_eq!(convert_base("2", 2, 10), Err("Invalid character for base n"));
    assert_eq!(convert_base("+5", 10, 2), Err("Invalid character for base n"));
}

#[test]
fn convert_base_trims_and_normalizes() {
    assert_eq!(convert_base_text("  0042\n", 10, 10).unwrap(), "42");
    assert_eq!(convert_base_text("-0", 10, 2).unwrap(), "0");
    assert_eq!(convert_base_text("-", 10, 2).unwrap(), "0");
    assert_eq!(convert_base_text("FF", 16, 2).unwrap(), "11111111");
    assert_eq!(convert_base_text("zz", 36, 10).unwrap(), "1295");
    assert_eq!(convert_base_text("1295", 10, 36).unwrap(), "zz");
    assert_eq!(
        convert_base_text("18446744073709551616", 10, 16).unwrap(),
        "10000000000000000"
    );
}

#[test]
fn converting_back_gives_the_canonical_form() {
    let there = convert_base_text("-00ff", 16, 2).unwrap();
    assert_eq!(there, "-11111111");
    let back = convert_base_text(&there, 2, 16).unwrap();
    assert_eq!(back, convert_base_text("-00ff", 16, 16).unwrap());
    assert_eq!(back, "-ff");
    let zero = convert_base_text("-000", 7, 3).unwrap();
    assert_eq!(convert_base_text(&zero, 3, 7).unwrap(), "0");
}

#[test]
fn surrounding_white_space_is_exactly_unicode_white_space() {
    for code in 0u32..=0x10FFFF {
        if let Some(c) = char::from_u32(code) {
            let result = convert_base_text(&format!("{c}1"), 10, 10);
            let trimmed_away = result == Ok("1".to_string());
            assert_eq!(trimmed_away, c.is_whitespace() || c == '0', "U+{code:04X}");
            if c.is_whitespace() {
                assert_eq!(convert_base_text(&format!("7{c}"), 10, 10), Ok("7".to_string()));
            }
        }
    }
}
