use file_explorer::helper::{
    format_size_from_string, format_time, now, try_format_time, unix_time,
};
use file_explorer::number::{parse_signed, parse_unsigned};
use file_explorer::path::{extension_start, path_has_extension};
use file_explorer::text::{
    chars_of, push_chars, same_chars, slice_of, starts_with, string_of, tail_of, trim_bounds,
    words,
};

fn chars(text: &str) -> Vec<char> {
    text.chars().collect()
}

#[test]
fn sizes_with_units() {
    assert_eq!(format_size_from_string("1KB"), Some(1024));
    assert_eq!(format_size_from_string("10KB"), Some(10_240));
    assert_eq!(format_size_from_string("1MB"), Some(1_048_576));
    assert_eq!(format_size_from_string("3GB"), Some(3 * 1_073_741_824));
    assert_eq!(format_size_from_string("0GB"), Some(0));
    assert_eq!(format_size_from_string("007kb"), Some(7 * 1024));
    assert_eq!(format_size_from_string("2Mb"), Some(2 * 1_048_576));
    assert_eq!(format_size_from_string("2gB"), Some(2 * 1_073_741_824));
    assert_eq!(format_size_from_string("+5KB"), Some(5 * 1024));
}

#[test]
fn size_is_read_without_the_whitespace_around_it() {
    assert_eq!(format_size_from_string("  12MB\n"), Some(12 * 1_048_576));
    assert_eq!(format_size_from_string("\u{a0}1KB\u{2003}"), Some(1024));
}

#[test]
fn sizes_that_are_not_recognised() {
    for text in [
        "", " ", "K", "KB", "B", "5", "55", "5B", "5 B", "5K", "5 KB", "5TB", "5KiB", "1.00 KB",
        "1.5MB", "-1KB", "+KB", "++1KB", "5K B", "KB5", "0x10KB", "1_000KB", "\u{20ac}KB",
        "1\u{e9}", "5\u{212a}B",
    ] {
        assert_eq!(format_size_from_string(text), None, "{:?}", text);
    }
}

#[test]
fn plain_byte_sizes_and_fractions_are_not_read_back() {
    for text in ["0 B", "1023 B", "1.00 KB", "1.00 MB", "3.00 GB"] {
        assert_eq!(format_size_from_string(text), None, "{:?}", text);
    }
}

#[test]
fn size_that_does_not_fit_is_not_recognised() {
    assert_eq!(format_size_from_string("18446744073709551615KB"), None);
    assert_eq!(format_size_from_string("18446744073709551616KB"), None);
    assert_eq!(format_size_from_string("17179869184GB"), None);
    assert_eq!(format_size_from_string("17179869183GB"), Some(17_179_869_183 * 1_073_741_824));
    assert_eq!(format_size_from_string("18014398509481983KB"), Some(18_014_398_509_481_983 * 1024));
    assert_eq!(format_size_from_string("18014398509481984KB"), None);
}

#[test]
fn time_is_written_as_utc_date_and_time() {
    assert_eq!(format_time(0), "1970-01-01 00:00:00");
    assert_eq!(format_time(1_431_648_000), "2015-05-15 00:00:00");
    assert_eq!(format_time(951_782_399), "2000-02-28 23:59:59");
    assert_eq!(format_time(951_782_400), "2000-02-29 00:00:00");
    assert_eq!(try_format_time(1_700_000_000).as_deref(), Some("2023-11-14 22:13:20"));
}

#[test]
fn time_that_cannot_be_written() {
    assert_eq!(try_format_time(-1), None);
    assert_eq!(try_format_time(i64::MIN), None);
    assert_eq!(try_format_time(i64::MAX), None);
}

#[test]
fn unix_time_of_seconds_since_the_epoch() {
    assert_eq!(unix_time(Some(0)), 0);
    assert_eq!(unix_time(Some(1_700_000_000)), 1_700_000_000);
    assert_eq!(unix_time(Some(i64::MAX as u64)), i64::MAX);
    assert_eq!(unix_time(Some(i64::MAX as u64 + 1)), i64::MAX);
    assert_eq!(unix_time(Some(u64::MAX)), i64::MAX);
    assert_eq!(unix_time(None), -1);
}

#[test]
fn clock_gives_a_unix_time() {
    let first = now();
    assert!(first >= -1);
}

#[test]
fn unsigned_numbers() {
    assert_eq!(parse_unsigned(&chars("0")), Some(0));
    assert_eq!(parse_unsigned(&chars("42")), Some(42));
    assert_eq!(parse_unsigned(&chars("+42")), Some(42));
    assert_eq!(parse_unsigned(&chars("00042")), Some(42));
    assert_eq!(parse_unsigned(&chars("18446744073709551615")), Some(u64::MAX));
    assert_eq!(parse_unsigned(&chars("18446744073709551616")), None);
    assert_eq!(parse_unsigned(&chars("99999999999999999999999999")), None);
    for text in ["", "+", "-1", "-0", "1 ", " 1", "1a", "a", "1.0", "1_0", "++1", "\u{0661}"] {
        assert_eq!(parse_unsigned(&chars(text)), None, "{:?}", text);
        assert_eq!(text.parse::<u64>().ok(), None);
    }
}

#[test]
fn signed_numbers() {
    assert_eq!(parse_signed(&chars("0")), Some(0));
    assert_eq!(parse_signed(&chars("-0")), Some(0));
    assert_eq!(parse_signed(&chars("+0")), Some(0));
    assert_eq!(parse_signed(&chars("2024")), Some(2024));
    assert_eq!(parse_signed(&chars("-2024")), Some(-2024));
    assert_eq!(parse_signed(&chars("2147483647")), Some(i32::MAX));
    assert_eq!(parse_signed(&chars("-2147483648")), Some(i32::MIN));
    assert_eq!(parse_signed(&chars("2147483648")), None);
    assert_eq!(parse_signed(&chars("-2147483649")), None);
    assert_eq!(parse_signed(&chars("-99999999999999999999999999")), None);
    for text in ["", "+", "-", "--1", "+-1", "1-", "1 ", " 1", "1a", "a", "1.0"] {
        assert_eq!(parse_signed(&chars(text)), None, "{:?}", text);
        assert_eq!(text.parse::<i32>().ok(), None);
    }
}

#[test]
fn numbers_agree_with_the_standard_library() {
    for text in ["7", "+7", "0007", "123456789", "4294967296", "-5", "-2147483648", "+2147483647"] {
        assert_eq!(parse_unsigned(&chars(text)), text.parse::<u64>().ok(), "{:?}", text);
        assert_eq!(parse_signed(&chars(text)), text.parse::<i32>().ok(), "{:?}", text);
    }
}

#[test]
fn extension_is_the_text_after_the_last_dot_of_the_last_segment() {
    assert_eq!(extension_start(&chars("/a/b.txt")), Some(5));
    assert_eq!(extension_start(&chars("b.tar.gz")), Some(6));
    assert_eq!(extension_start(&chars("/a/b.")), Some(5));
    assert_eq!(extension_start(&chars(".profile")), Some(1));
    assert_eq!(extension_start(&chars("/a.d/b")), None);
    assert_eq!(extension_start(&chars("C:\\a.d\\b")), None);
    assert_eq!(extension_start(&chars("/a/b")), None);
    assert_eq!(extension_start(&chars("b")), None);
    assert_eq!(extension_start(&chars("")), None);
    assert_eq!(extension_start(&chars("/a/b.txt/")), None);
}

#[test]
fn extension_is_compared_without_regard_to_ascii_case() {
    assert!(path_has_extension(&chars("/a/b.txt"), &chars("txt")));
    assert!(path_has_extension(&chars("/a/b.TxT"), &chars("tXt")));
    assert!(path_has_extension(&chars("/a/b."), &chars("")));
    assert!(path_has_extension(&chars("x.a-z"), &chars("A-Z")));
    assert!(!path_has_extension(&chars("/a/b.txt"), &chars("tx")));
    assert!(!path_has_extension(&chars("/a/b.txt"), &chars("txtx")));
    assert!(!path_has_extension(&chars("/a/b.txt"), &chars(".txt")));
    assert!(!path_has_extension(&chars("/a/b"), &chars("")));
    assert!(!path_has_extension(&chars("x.@"), &chars("`")));
    assert!(!path_has_extension(&chars("x.["), &chars("{")));
    assert!(!path_has_extension(&chars("x.\u{e9}"), &chars("\u{c9}")));
    assert!(!path_has_extension(&chars("x.k"), &chars("\u{212a}")));
}

#[test]
fn string_and_characters_convert_both_ways() {
    assert_eq!(chars_of("h\u{e9}llo \u{1f600}"), chars("h\u{e9}llo \u{1f600}"));
    assert_eq!(chars_of(""), Vec::<char>::new());
    assert_eq!(string_of(&chars("h\u{e9}llo \u{1f600}")), "h\u{e9}llo \u{1f600}");
    assert_eq!(string_of(&[]), "");
    let mut text = String::from("ab");
    push_chars(&mut text, &chars("cd\u{e9}"));
    assert_eq!(text, "abcd\u{e9}");
    push_chars(&mut text, &[]);
    assert_eq!(text, "abcd\u{e9}");
}

#[test]
fn comparing_and_cutting_characters() {
    assert!(same_chars(&chars("abc"), &chars("abc")));
    assert!(same_chars(&[], &[]));
    assert!(!same_chars(&chars("abc"), &chars("abd")));
    assert!(!same_chars(&chars("abc"), &chars("ab")));
    assert!(starts_with(&chars("@ext:rs"), &chars("@ext:")));
    assert!(starts_with(&chars("@ext:"), &chars("@ext:")));
    assert!(starts_with(&chars("abc"), &[]));
    assert!(!starts_with(&chars("@ext"), &chars("@ext:")));
    assert!(!starts_with(&chars("@exT:rs"), &chars("@ext:")));
    assert_eq!(tail_of(&chars("@ext:rs"), 5), chars("rs"));
    assert_eq!(tail_of(&chars("abc"), 3), Vec::<char>::new());
    assert_eq!(slice_of(&chars("abcdef"), 2, 4), chars("cd"));
    assert_eq!(slice_of(&chars("abcdef"), 3, 3), Vec::<char>::new());
}

#[test]
fn words_are_the_runs_between_whitespace() {
    assert_eq!(words(&chars("  a bc\t\tdef\n")), vec![chars("a"), chars("bc"), chars("def")]);
    assert_eq!(words(&chars("one")), vec![chars("one")]);
    assert_eq!(words(&chars("")), Vec::<Vec<char>>::new());
    assert_eq!(words(&chars(" \u{2028} ")), Vec::<Vec<char>>::new());
    assert_eq!(words(&chars("x\u{85}y")), vec![chars("x"), chars("y")]);
    let text = "the  quick\u{a0}brown\r\nfox";
    let expected: Vec<Vec<char>> = text.split_whitespace().map(chars).collect();
    assert_eq!(words(&chars(text)), expected);
}

#[test]
fn trimming_finds_the_text_between_the_whitespace() {
    assert_eq!(trim_bounds(&chars("  ab c \n")), (2, 6));
    assert_eq!(trim_bounds(&chars("abc")), (0, 3));
    assert_eq!(trim_bounds(&chars("")), (0, 0));
    let (start, end) = trim_bounds(&chars(" \t "));
    assert_eq!(start, end);
}
