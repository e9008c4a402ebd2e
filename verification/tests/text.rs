use mtngin::text::{
    append_decimal, append_signed, chars_of, contains, count_occurrences, eq_ignore_ascii_case,
    is_before, is_whitespace, parse_int, parse_unsigned, same_text, trim,
};

#[test]
fn whitespace_is_that_of_the_standard_library() {
    for code in 0..=0x10ffff_u32 {
        if let Some(c) = char::from_u32(code) {
            assert_eq!(is_whitespace(c), c.is_whitespace(), "U+{:04X}", code);
        }
    }
}

#[test]
fn trimming_takes_whitespace_from_both_ends() {
    for text in [
        "",
        " ",
        "\t\r\n ",
        "a",
        "  a b  ",
        "\u{a0}x\u{3000}",
        "x\u{2009}y ",
        "\u{200b}kept\u{200b}",
        "é ",
    ] {
        assert_eq!(trim(text), text.trim());
    }
    assert_eq!(trim("  4 Shock\r"), "4 Shock");
}

#[test]
fn characters_come_in_order() {
    assert_eq!(chars_of("aé日"), vec!['a', 'é', '日']);
    assert_eq!(chars_of(""), Vec::<char>::new());
}

#[test]
fn texts_are_the_same_only_letter_for_letter() {
    assert!(same_text("Swamp", "Swamp"));
    assert!(!same_text("Swamp", "swamp"));
    assert!(!same_text("Swamp", "Swamps"));
}

#[test]
fn ascii_case_is_ignored_and_no_other() {
    assert!(eq_ignore_ascii_case("SideBoard", "sideboard"));
    assert!(eq_ignore_ascii_case("", ""));
    assert!(!eq_ignore_ascii_case("sideboards", "sideboard"));
    assert!(!eq_ignore_ascii_case("É", "é"));
    assert!(!eq_ignore_ascii_case("[", "{"));
    for (a, b) in [("yard", "YARD"), ("@", "`"), ("Z", "z"), ("ä", "Ä")] {
        assert_eq!(eq_ignore_ascii_case(a, b), a.eq_ignore_ascii_case(b));
    }
}

#[test]
fn parts_are_found_where_they_stand() {
    assert!(contains("basic land — swamp", "land"));
    assert!(contains("land", "land"));
    assert!(contains("anything", ""));
    assert!(contains("", ""));
    assert!(!contains("lan", "land"));
    assert!(!contains("l-and", "land"));
    assert!(contains("xlandx", "land"));
}

#[test]
fn occurrences_do_not_overlap() {
    assert_eq!(count_occurrences("{b}{b}{b}", "{b}"), 3);
    assert_eq!(count_occurrences("aaaa", "aa"), 2);
    assert_eq!(count_occurrences("aaa", "aa"), 1);
    assert_eq!(count_occurrences("", "aa"), 0);
    assert_eq!(count_occurrences("abab", "ba"), "abab".matches("ba").count());
}

#[test]
fn numbers_are_written_in_decimal() {
    for n in [0, 7, 9, 10, 99, 100, 12345, u64::MAX] {
        let mut text = "n=".to_string();
        append_decimal(&mut text, n);
        assert_eq!(text, format!("n={}", n));
    }
    for i in [0, 5, -5, 10, -10, i32::MAX, i32::MIN] {
        let mut text = String::new();
        append_signed(&mut text, i);
        assert_eq!(text, i.to_string());
    }
}

#[test]
fn written_numbers_read_back() {
    for n in [0, 1, 42, u32::MAX as u64, u64::MAX] {
        let mut text = String::new();
        append_decimal(&mut text, n);
        assert_eq!(parse_unsigned(&text, u64::MAX), Some(n));
    }
}

#[test]
fn integers_are_read_as_the_standard_library_reads_them() {
    for text in [
        "0",
        "7",
        "-7",
        "+7",
        "007",
        "",
        "-",
        "+",
        "+-1",
        "1 ",
        " 1",
        "*",
        "1+*",
        "2147483647",
        "2147483648",
        "-2147483648",
        "-2147483649",
        "99999999999999999999999999",
        "１",
    ] {
        assert_eq!(parse_int(text), text.parse::<i32>().ok(), "{:?}", text);
    }
    assert_eq!(parse_int("-3"), Some(-3));
}

#[test]
fn unsigned_numbers_are_bounded() {
    for text in ["0", "+0", "255", "256", "-0", "", "+", "18446744073709551615", "18446744073709551616"]
    {
        assert_eq!(parse_unsigned(text, u64::MAX), text.parse::<u64>().ok(), "{:?}", text);
        assert_eq!(
            parse_unsigned(text, 255),
            text.parse::<u8>().ok().map(|n| n as u64),
            "{:?}",
            text
        );
    }
}

#[test]
fn texts_are_ordered_like_strings() {
    let row = ["", "A", "Aa", "B", "a", "ab", "b", "é", "日", "日本", "\u{10000}", "\u{ffff}"];
    for a in row {
        for b in row {
            assert_eq!(is_before(a, b), a < b, "{:?} {:?}", a, b);
        }
    }
}
