use dcx::uniq::{format_count_line, LineCounter};
use dcx::uniq_any_order;

fn input_lines(text: &str) -> Vec<String> {
    text.lines().map(str::to_owned).collect()
}

fn written(lines: Vec<String>) -> String {
    let mut out = String::new();
    for line in lines {
        out.push_str(&line);
        out.push('\n');
    }
    out
}

#[test]
fn writes_unique_lines_in_first_seen_order() {
    let output = uniq_any_order(&input_lines("pear\napple\npear\n"), false);

    assert_eq!(written(output), "pear\napple\n");
}

#[test]
fn counts_unique_lines() {
    let output = uniq_any_order(&input_lines("pear\napple\npear\n"), true);

    let mut lines = written(output)
        .lines()
        .map(str::to_owned)
        .collect::<Vec<_>>();
    lines.sort();
    assert_eq!(lines, ["       1 apple", "       2 pear"]);
}

#[test]
fn counts_come_in_first_seen_order() {
    let output = uniq_any_order(&input_lines("b\na\nb\nc\na\nb\n"), true);
    assert_eq!(output, ["       3 b", "       2 a", "       1 c"]);
}

#[test]
fn empty_input_writes_nothing() {
    assert!(uniq_any_order(&Vec::new(), false).is_empty());
    assert!(uniq_any_order(&Vec::new(), true).is_empty());
}

#[test]
fn empty_lines_are_lines_too() {
    let output = uniq_any_order(&input_lines("\n\nx\n\n"), false);
    assert_eq!(output, ["", "x"]);
}

#[test]
fn count_line_right_aligns_in_eight_columns() {
    assert_eq!(format_count_line(2, "pear"), "       2 pear");
    assert_eq!(format_count_line(0, ""), "       0 ");
    assert_eq!(format_count_line(12345678, "x"), "12345678 x");
    assert_eq!(format_count_line(123456789, "wide"), "123456789 wide");
    assert_eq!(
        format_count_line(u64::MAX, "max"),
        "18446744073709551615 max"
    );
}

#[test]
fn counter_streams_first_occurrences() {
    let mut counter = LineCounter::new(false);
    let lines = input_lines("a\nb\na\nc\nb\n");
    let written: Vec<bool> = lines.iter().map(|l| counter.observe(l)).collect();
    assert_eq!(written, [true, true, false, true, false]);
    assert_eq!(counter.seen(), 5);
}

#[test]
fn counter_in_count_mode_writes_nothing_until_the_report() {
    let mut counter = LineCounter::new(true);
    for line in input_lines("a\nb\na\n") {
        assert!(!counter.observe(&line));
    }
    assert_eq!(counter.report(), ["       2 a", "       1 b"]);
}

#[test]
fn de_duplicating_twice_changes_nothing() {
    let once = uniq_any_order(&input_lines("z\ny\nz\nx\ny\n"), false);
    let twice = uniq_any_order(&once, false);
    assert_eq!(once, twice);
}

#[test]
fn counts_add_up_to_the_number_of_lines() {
    let input = input_lines("q\nw\nq\ne\nq\nw\n");
    let total: u64 = uniq_any_order(&input, true)
        .iter()
        .map(|l| l[..8].trim().parse::<u64>().unwrap())
        .sum();
    assert_eq!(total, input.len() as u64);
}

#[test]
fn many_distinct_lines_are_counted_apart() {
    let mut input = Vec::new();
    for round in 0..3 {
        for k in (0..200).rev() {
            input.push(format!("line {}", k * 7 % 200));
        }
        if round == 1 {
            input.push("é".to_owned());
            input.push("e".to_owned());
            input.push("line".to_owned());
        }
    }
    let output = uniq_any_order(&input, false);
    assert_eq!(output.len(), 203);
    assert_eq!(output[0], "line 193");
    assert_eq!(&output[200..], ["é", "e", "line"]);
    let counts = uniq_any_order(&input, true);
    assert_eq!(counts[0], "       3 line 193");
    assert_eq!(&counts[200..], ["       1 é", "       1 e", "       1 line"]);
}
