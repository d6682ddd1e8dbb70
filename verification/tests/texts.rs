use hl_md_latency_bench::content::{parse_bbo_content, same_content};
use hl_md_latency_bench::number::read_decimal;
use hl_md_latency_bench::search::{contains, find_bytes};
use hl_md_latency_bench::text::{
    contains_char, push_decimal, starts_with, strip_prefix, strip_suffix, trim, trim_trailing,
};

#[test]
fn the_same_number_has_one_form() {
    let same = |a: &str, b: &str| {
        let a = read_decimal(a.as_bytes()).unwrap();
        let b = read_decimal(b.as_bytes()).unwrap();
        assert_eq!(a.same_as(&b), a == b);
        a == b
    };
    assert!(same("70.0", "70"));
    assert!(same("0070.500", "70.5"));
    assert!(same("0.0", "00"));
    assert!(!same("70.1", "70"));
    assert!(!same("7", "70"));
    assert!(!same("0.7", "0.07"));
}

#[test]
fn other_texts_are_no_numbers() {
    for text in ["", ".", "1.", ".5", "-1", "1e5", "1.2.3", "x", " 1"] {
        assert!(read_decimal(text.as_bytes()).is_none(), "{text}");
    }
}

#[test]
fn contents_of_messages() {
    let both_empty = r#"{"channel":"bbo","data":{"coin":"ETH","time":1,"bbo":[null,null]}}"#;
    let key = parse_bbo_content(both_empty).unwrap();
    assert!(key.0.is_none() && key.1.is_none());

    let one_side = r#"{"channel":"bbo","data":{"coin":"ETH","time":1,"bbo":[null,{"px":"1","sz":"2","n":3}]}}"#;
    let node = r#"{"channel":"bbo","data":{"coin":"ETH","time":1,"ask":{"px":"1.00","sz":"2.0","n":3}}}"#;
    let a = parse_bbo_content(one_side).unwrap();
    let b = parse_bbo_content(node).unwrap();
    assert!(a.0.is_none());
    assert_eq!(a.1.as_ref().unwrap().n, 3);
    assert!(same_content(&a, &b));

    let not_bbo = r#"{"channel":"trades","data":{"coin":"ETH","time":1,"bbo":[null,null]}}"#;
    assert!(parse_bbo_content(not_bbo).is_none());
    let no_number = r#"{"channel":"bbo","data":{"coin":"ETH","time":1,"bid":{"px":"x","sz":"2","n":3}}}"#;
    assert!(parse_bbo_content(no_number).is_none());
}

#[test]
fn searching() {
    assert!(contains("abcabd", "abd"));
    assert!(!contains("abcab", "abd"));
    assert!(contains("x", ""));
    assert_eq!(find_bytes(b"aab", b"ab"), Some(1));
    assert_eq!(find_bytes(b"a", b"ab"), None);
}

#[test]
fn texts_are_cut_and_built() {
    assert_eq!(trim("\u{2003} a b\r\n"), "a b");
    assert_eq!(trim("  "), "");
    assert_eq!(trim_trailing("a//", '/'), "a");
    assert_eq!(trim_trailing("/", '/'), "");
    assert_eq!(strip_suffix("é.pro", ".pro"), Some("é"));
    assert_eq!(strip_suffix("pro", ".pro"), None);
    assert_eq!(strip_prefix("a:é", "a:"), Some("é"));
    assert_eq!(strip_prefix("a", "a:"), None);
    assert_eq!(strip_prefix("b:é", "a:"), None);
    assert!(starts_with("https://x", "https://"));
    assert!(!starts_with("http", "https://"));
    assert!(contains_char("a.b", '.'));
    assert!(!contains_char("ab", '.'));
    for n in [0, 9, 10, 1_000_000, u64::MAX] {
        let mut out = "n=".to_string();
        push_decimal(&mut out, n);
        assert_eq!(out, format!("n={n}"));
    }
}

#[test]
fn white_space_is_that_of_the_standard() {
    for code in 0..0x3100u32 {
        let c = char::from_u32(code).unwrap();
        let text = c.to_string();
        assert_eq!(trim(&text), text.trim(), "{code:x}");
    }
}
