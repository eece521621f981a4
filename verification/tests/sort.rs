use dcx::sort::{trim_line, SortError};
use dcx::text::{chars_of, padded_decimal};
use dcx::{check_file_size, sort_lines};

fn lines(text: &str) -> Vec<String> {
    text.lines().map(str::to_owned).collect()
}

#[test]
fn sorts_trims_and_deduplicates_file() {
    let sorted = sort_lines(lines(" banana  \npear\n  apple\nbanana\n"), true, true);
    assert_eq!(sorted, ["apple", "banana", "pear"]);
}

#[test]
fn leaves_file_unchanged_when_it_exceeds_limit() {
    let input = "pear\napple\n";
    let error = check_file_size(input.len() as u64, 4).unwrap_err();
    assert!(error.message().contains("file too large"));
    assert_eq!(
        error.message(),
        "file too large to sort in memory: expected at most 4 bytes, got 11 bytes"
    );
}

#[test]
fn too_large_message_names_both_sizes() {
    let error = check_file_size(1001, 1000).unwrap_err();
    assert_eq!(
        error.message(),
        "file too large to sort in memory: expected at most 1000 bytes, got 1001 bytes"
    );
    match error {
        SortError::TooLarge { limit, actual } => {
            assert_eq!(limit, 1000);
            assert_eq!(actual, 1001);
        }
    }
}

#[test]
fn a_file_at_the_limit_may_be_sorted() {
    assert!(check_file_size(1000, 1000).is_ok());
    assert!(check_file_size(0, 0).is_ok());
}

#[test]
fn sorting_keeps_duplicates_without_uniq() {
    let sorted = sort_lines(lines("pear\napple\npear\n"), false, false);
    assert_eq!(sorted, ["apple", "pear", "pear"]);
}

#[test]
fn sorting_without_trimming_keeps_whitespace() {
    let sorted = sort_lines(lines(" b\na\n"), false, false);
    assert_eq!(sorted, [" b", "a"]);
}

#[test]
fn sorting_orders_by_code_point() {
    let sorted = sort_lines(
        vec!["b".into(), "B".into(), "é".into(), "a".into(), "ab".into(), "".into()],
        false,
        false,
    );
    assert_eq!(sorted, ["", "B", "a", "ab", "b", "é"]);
}

#[test]
fn sorting_a_sorted_file_changes_nothing() {
    let once = sort_lines(lines("c\na\nb\na\n"), false, false);
    let twice = sort_lines(once.clone(), false, false);
    assert_eq!(once, twice);
}

#[test]
fn trimming_removes_unicode_whitespace_at_both_ends() {
    assert_eq!(trim_line("\u{3000} a b\t\u{a0}"), "a b");
    assert_eq!(trim_line(" \t\r\n"), "");
    assert_eq!(trim_line(""), "");
    assert_eq!(trim_line("x"), "x");
}

#[test]
fn trimming_twice_changes_nothing() {
    for text in ["  a  ", "\u{2003}b", "c\u{85}", "   "] {
        let once = trim_line(text);
        assert_eq!(trim_line(&once), once);
    }
}

#[test]
fn decimal_padding() {
    assert_eq!(padded_decimal(7, 3), "  7");
    assert_eq!(padded_decimal(1234, 2), "1234");
    assert_eq!(padded_decimal(0, 0), "0");
}

#[test]
fn characters_of_a_string() {
    assert_eq!(chars_of("añb"), vec!['a', 'ñ', 'b']);
}
