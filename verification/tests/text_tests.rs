use idk::text::{chars_of, decimal, join2, join3, parse_numeral, same_text, string_of};

#[test]
fn chars_and_back() {
    assert_eq!(chars_of("héllo"), vec!['h', 'é', 'l', 'l', 'o']);
    assert_eq!(chars_of(""), Vec::<char>::new());
    assert_eq!(string_of(&vec!['a', 'b', 'c']), "abc");
    assert_eq!(string_of(&vec![]), "");
    assert_eq!(string_of(&chars_of("x = 1;")), "x = 1;");
}

#[test]
fn decimal_writes_base_ten() {
    assert_eq!(decimal(0), "0");
    assert_eq!(decimal(7), "7");
    assert_eq!(decimal(10), "10");
    assert_eq!(decimal(99), "99");
    assert_eq!(decimal(100), "100");
    assert_eq!(decimal(4294967295), "4294967295");
    assert_eq!(decimal(1234567890), "1234567890");
}

#[test]
fn parse_numeral_reads_what_fits() {
    assert_eq!(parse_numeral("0", 255), Some(0));
    assert_eq!(parse_numeral("255", 255), Some(255));
    assert_eq!(parse_numeral("256", 255), None);
    assert_eq!(parse_numeral("0042", 255), Some(42));
    assert_eq!(parse_numeral("4294967295", u32::MAX), Some(4294967295));
    assert_eq!(parse_numeral("4294967296", u32::MAX), None);
    assert_eq!(parse_numeral("99999999999999999999", u32::MAX), None);
}

#[test]
fn parse_numeral_rejects_what_is_no_numeral() {
    assert_eq!(parse_numeral("", 255), None);
    assert_eq!(parse_numeral("a", 255), None);
    assert_eq!(parse_numeral("1a", 255), None);
    assert_eq!(parse_numeral("-1", 255), None);
    assert_eq!(parse_numeral("+1", 255), None);
    assert_eq!(parse_numeral(" 1", 255), None);
    assert_eq!(parse_numeral("١", 255), None);
}

#[test]
fn decimal_and_parse_numeral_agree() {
    for n in [0usize, 1, 9, 10, 11, 99, 100, 101, 255, 256, 65535, 1000000] {
        assert_eq!(parse_numeral(decimal(n).as_str(), u32::MAX), Some(n as u32));
    }
}

#[test]
fn joins_concatenate() {
    assert_eq!(join2("ab", "cd"), "abcd");
    assert_eq!(join2("", ""), "");
    assert_eq!(join3("mov [", "x", "], eax"), "mov [x], eax");
}

#[test]
fn same_text_compares_texts() {
    assert!(same_text("int", "int"));
    assert!(!same_text("int", "arr"));
    assert!(!same_text("int", "in"));
    assert!(same_text("", ""));
}

#[test]
fn parse_numeral_agrees_with_the_standard_library_on_digits() {
    for n in 0..70000u32 {
        let text = n.to_string();
        assert_eq!(parse_numeral(&text, 255), text.parse::<u8>().ok().map(u32::from));
        assert_eq!(parse_numeral(&text, 65535), text.parse::<u16>().ok().map(u32::from));
        assert_eq!(parse_numeral(&text, u32::MAX), text.parse::<u32>().ok());
    }
    for text in ["4294967295", "4294967296", "04294967295", "42949672950", "18446744073709551616"] {
        assert_eq!(parse_numeral(text, u32::MAX), text.parse::<u32>().ok());
    }
}

#[test]
fn decimal_agrees_with_the_standard_library() {
    for n in (0..100000usize).chain([usize::MAX, usize::MAX - 1, 1 << 32, (1 << 32) - 1]) {
        assert_eq!(decimal(n), n.to_string());
    }
}
