use qidao_core::coords::{read_point, write_point};
use qidao_core::sgf_to_gtp;
use qidao_core::text::{decimal_text, parse_number, text_eq};
use qidao_core::values::{split_values, write_escaped};

#[test]
fn numbers_are_written_in_decimal() {
    assert_eq!(decimal_text(0), "0");
    assert_eq!(decimal_text(7), "7");
    assert_eq!(decimal_text(10), "10");
    assert_eq!(decimal_text(19), "19");
    assert_eq!(decimal_text(4294967295), "4294967295");
    assert_eq!(decimal_text(u64::MAX), "18446744073709551615");
}

#[test]
fn numbers_are_read_from_decimal() {
    assert_eq!(parse_number("0"), Some(0));
    assert_eq!(parse_number("19"), Some(19));
    assert_eq!(parse_number("+19"), Some(19));
    assert_eq!(parse_number("007"), Some(7));
    assert_eq!(parse_number("4294967295"), Some(4294967295));
    assert_eq!(parse_number("4294967296"), None);
    assert_eq!(parse_number("99999999999999999999999"), None);
    assert_eq!(parse_number(""), None);
    assert_eq!(parse_number("+"), None);
    assert_eq!(parse_number("-1"), None);
    assert_eq!(parse_number("19:19"), None);
    assert_eq!(parse_number(" 19"), None);
    assert_eq!(parse_number("1_000"), None);
    assert_eq!(parse_number("++1"), None);
}

#[test]
fn reading_numbers_agrees_with_the_standard_library() {
    for text in ["0", "19", "+19", "007", "4294967295", "4294967296", "", "+", "-1", "19:19", "a"] {
        assert_eq!(parse_number(text), text.parse::<u32>().ok());
    }
    for n in [0u32, 1, 9, 10, 99, 100, 12345, u32::MAX] {
        assert_eq!(decimal_text(n as u64), n.to_string());
        assert_eq!(parse_number(&n.to_string()), Some(n));
    }
}

#[test]
fn texts_compare_by_their_characters() {
    assert!(text_eq("", ""));
    assert!(text_eq("SZ", "SZ"));
    assert!(!text_eq("SZ", "SY"));
    assert!(!text_eq("SZ", "S"));
    assert!(!text_eq("é", "e"));
    assert!(text_eq("黒", "黒"));
}

#[test]
fn points_are_written_as_two_letters() {
    assert_eq!(write_point(0, 0), "aa");
    assert_eq!(write_point(15, 2), "pc");
    assert_eq!(write_point(18, 18), "ss");
    assert_eq!(write_point(25, 0), "za");
    assert_eq!(write_point(158, 26), "\u{ff}{");
    assert_eq!(write_point(55198, 0), "\u{d7ff}a");
    assert_eq!(read_point("\u{d7ff}a"), Some((55198, 0)));
}

#[test]
fn points_are_read_from_two_letters() {
    assert_eq!(read_point("aa"), Some((0, 0)));
    assert_eq!(read_point("pc"), Some((15, 2)));
    assert_eq!(read_point("ss"), Some((18, 18)));
    assert_eq!(read_point(""), None);
    assert_eq!(read_point("a"), None);
    assert_eq!(read_point("abc"), None);
    assert_eq!(read_point("Aa"), None);
    assert_eq!(read_point("a1"), None);
    for x in 0..26 {
        for y in 0..26 {
            assert_eq!(read_point(&write_point(x, y)), Some((x, y)));
        }
    }
}

#[test]
fn vertex_of_pc_on_nineteen_is_q17() {
    assert_eq!(sgf_to_gtp("pc", 19), "Q17");
}

#[test]
fn vertices_skip_the_letter_i() {
    assert_eq!(sgf_to_gtp("aa", 19), "A19");
    assert_eq!(sgf_to_gtp("ha", 19), "H19");
    assert_eq!(sgf_to_gtp("ia", 19), "J19");
    assert_eq!(sgf_to_gtp("ja", 19), "K19");
    assert_eq!(sgf_to_gtp("sa", 19), "T19");
    assert_eq!(sgf_to_gtp("as", 19), "A1");
    assert_eq!(sgf_to_gtp("ss", 19), "T1");
    assert_eq!(sgf_to_gtp("dd", 9), "D6");
    assert_eq!(sgf_to_gtp("ii", 9), "J1");
}

#[test]
fn values_that_name_no_point_of_the_board_pass() {
    assert_eq!(sgf_to_gtp("", 19), "pass");
    assert_eq!(sgf_to_gtp("a", 19), "pass");
    assert_eq!(sgf_to_gtp("abc", 19), "pass");
    assert_eq!(sgf_to_gtp("tt", 19), "pass");
    assert_eq!(sgf_to_gtp("at", 19), "pass");
    assert_eq!(sgf_to_gtp("ta", 19), "pass");
    assert_eq!(sgf_to_gtp("jj", 9), "pass");
    assert_eq!(sgf_to_gtp("AA", 19), "pass");
    assert_eq!(sgf_to_gtp("aa", 0), "pass");
}

#[test]
fn values_are_read_between_brackets() {
    assert_eq!(split_values("B[pc]", 1), vec!["pc"]);
    assert_eq!(split_values("AB[aa][bb][cc]", 2), vec!["aa", "bb", "cc"]);
    assert_eq!(split_values("B[]", 1), vec![""]);
    assert_eq!(split_values("KO", 2), Vec::<String>::new());
    assert_eq!(split_values("C[a\\]b]", 1), vec!["a]b"]);
    assert_eq!(split_values("C[a\\\\b]", 1), vec!["a\\b"]);
    assert_eq!(split_values("C[a[b]", 1), vec!["a[b"]);
    assert_eq!(split_values("C[a\\:b]", 1), vec!["a:b"]);
    assert_eq!(split_values("C[unfinished", 1), Vec::<String>::new());
    assert_eq!(split_values("C", 5), Vec::<String>::new());
    assert_eq!(split_values("SZ[19:19]", 2), vec!["19:19"]);
}

#[test]
fn values_are_written_with_escapes() {
    let cases = [
        ("", ""),
        ("plain", "plain"),
        ("a]b", "a\\]b"),
        ("a\\b", "a\\\\b"),
        ("a[b", "a[b"),
        ("\\]", "\\\\\\]"),
        ("]]", "\\]\\]"),
    ];
    for (value, written) in cases {
        let mut out = String::from("x");
        write_escaped(&mut out, value);
        assert_eq!(out, format!("x{}", written));
        assert_eq!(written, value.replace('\\', "\\\\").replace(']', "\\]"));
    }
}

#[test]
fn written_values_read_back() {
    for values in [
        vec![],
        vec![""],
        vec!["pc"],
        vec!["a]b", "c\\d", "[e]", "\\", "]"],
        vec!["line\nbreak", "tab\t", "黒 白"],
    ] {
        let mut text = String::from("ID");
        for value in &values {
            text.push('[');
            write_escaped(&mut text, value);
            text.push(']');
        }
        assert_eq!(split_values(&text, 2), values);
    }
}
