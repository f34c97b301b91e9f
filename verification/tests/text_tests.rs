use anime4you::text::{find_char_from, find_sub_from, has_sub, is_number, is_range, parse_u32,
    rfind_char_before, str_eq, string_from_utf8};

#[test]
fn find_char_basic() {
    assert_eq!(find_char_from("key=value;", '=', 0), Some(3));
    assert_eq!(find_char_from("key=value;", ';', 4), Some(9));
    assert_eq!(find_char_from("key=value;", '#', 0), None);
    assert_eq!(find_char_from("a=b=c", '=', 2), Some(3));
}

#[test]
fn rfind_char_basic() {
    assert_eq!(rfind_char_before("a:b:c.", ':', 5), Some(3));
    assert_eq!(rfind_char_before("abc", ':', 3), None);
    assert_eq!(rfind_char_before("x.y", '.', 1), None);
}

#[test]
fn find_sub_basic() {
    assert_eq!(find_sub_from("hello world", "world", 0), Some(6));
    assert_eq!(find_sub_from("hello world", "world", 7), None);
    assert_eq!(find_sub_from("aaa", "aa", 0), Some(0));
    assert_eq!(find_sub_from("abc", "", 1), Some(1));
    assert!(has_sub("the quick fox", "quick"));
    assert!(!has_sub("the quick fox", "slow"));
}

#[test]
fn str_eq_basic() {
    assert!(str_eq("gersub", "gersub"));
    assert!(!str_eq("gersub", "gerdub"));
    assert!(!str_eq("a", "ab"));
    assert!(str_eq("", ""));
}

#[test]
fn parse_u32_accepts_decimal() {
    assert_eq!(parse_u32("0"), Some(0));
    assert_eq!(parse_u32("1234"), Some(1234));
    assert_eq!(parse_u32("+77"), Some(77));
    assert_eq!(parse_u32("4294967295"), Some(u32::MAX));
}

#[test]
fn parse_u32_rejects_other_shapes() {
    assert_eq!(parse_u32(""), None);
    assert_eq!(parse_u32("+"), None);
    assert_eq!(parse_u32("-1"), None);
    assert_eq!(parse_u32("12a"), None);
    assert_eq!(parse_u32("4294967296"), None);
    assert_eq!(parse_u32("999999999999999999999"), None);
}

#[test]
fn is_number_matches_parse() {
    assert!(is_number("42".to_string()).is_ok());
    assert!(is_number("abc".to_string()).is_err());
}

#[test]
fn is_range_accepts_one_or_two_numbers() {
    assert!(is_range("7".to_string()).is_ok());
    assert!(is_range("2,5".to_string()).is_ok());
    assert!(is_range("2,5,9".to_string()).is_err());
    assert!(is_range("2,".to_string()).is_err());
    assert!(is_range("a,5".to_string()).is_err());
}

#[test]
fn utf8_round_trip() {
    let v: Vec<u8> = "Katze ä".as_bytes().to_vec();
    let s = string_from_utf8(v).unwrap();
    assert_eq!(s, "Katze ä");
    assert_eq!(string_from_utf8(vec![0xff, 0xfe]), None);
}
