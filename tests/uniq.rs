use uniqr::uniq::{
    format_group, line_key, split_lines, uniq_lines, uniq_text, Config, Group, RunError, Tracker,
};

fn lines(items: &[&str]) -> Vec<String> {
    items.iter().map(|s| s.to_string()).collect()
}

#[test]
fn repeated_lines_collapse_without_counts() {
    let input = lines(&["a\n", "a\n", "b\n", "a\n"]);
    assert_eq!(uniq_lines(&input, false), "a\nb\na\n");
}

#[test]
fn repeated_lines_collapse_with_counts() {
    let input = lines(&["a\n", "a\n", "b\n", "a\n"]);
    assert_eq!(uniq_lines(&input, true), "   2 a\n   1 b\n   1 a\n");
}

#[test]
fn unterminated_line_keeps_no_terminator() {
    let input = lines(&["x"]);
    assert_eq!(uniq_lines(&input, true), "   1 x");
}

#[test]
fn empty_input_gives_empty_output() {
    let input: Vec<String> = Vec::new();
    assert_eq!(uniq_lines(&input, false), "");
    assert_eq!(uniq_lines(&input, true), "");
    assert!(Tracker::new().finish().is_none());
}

#[test]
fn terminators_do_not_split_groups() {
    let input = lines(&["a\n", "a\r\n", "a"]);
    assert_eq!(uniq_lines(&input, true), "   3 a\n");
    let input = lines(&["a \n", "a\n"]);
    assert_eq!(uniq_lines(&input, false), "a \na\n");
}

#[test]
fn counts_sum_to_number_of_lines() {
    let input = lines(&["p\n", "p\n", "q\n", "q\n", "q\n", "p\n", "r"]);
    let mut tracker = Tracker::new();
    let mut total: u64 = 0;
    let mut seen: Vec<Group> = Vec::new();
    for line in input.iter() {
        if let Some(g) = tracker.feed(line.clone()) {
            seen.push(g);
        }
    }
    if let Some(g) = tracker.finish() {
        seen.push(g);
    }
    for g in seen.iter() {
        total += g.count;
    }
    assert_eq!(total, 7);
    assert_eq!(seen.len(), 4);
    assert_eq!(seen[1].text, "q\n");
    assert_eq!(seen[1].count, 3);
}

#[test]
fn output_is_already_deduplicated() {
    let input = lines(&["a\n", "a\n", "b\n", "b\n", "a\n", "c\n", "c\n"]);
    let once = uniq_lines(&input, false);
    let again_input: Vec<String> = once.split_inclusive('\n').map(|s| s.to_string()).collect();
    assert_eq!(uniq_lines(&again_input, false), once);
    assert_eq!(once, "a\nb\na\nc\n");
}

#[test]
fn tracker_reports_groups_as_they_end() {
    let mut t = Tracker::new();
    assert!(t.feed("a\n".to_string()).is_none());
    assert_eq!(t.count(), 1);
    assert!(t.feed("a\n".to_string()).is_none());
    assert_eq!(t.count(), 2);
    let g = t.feed("b\n".to_string()).unwrap();
    assert_eq!(g.text, "a\n");
    assert_eq!(g.count, 2);
    assert_eq!(t.count(), 1);
    let g = t.finish().unwrap();
    assert_eq!(g.text, "b\n");
    assert_eq!(g.count, 1);
}

#[test]
fn format_group_exact_text() {
    assert_eq!(format_group(0, "a\n", true), "");
    assert_eq!(format_group(0, "a\n", false), "");
    assert_eq!(format_group(7, "a\n", false), "a\n");
    assert_eq!(format_group(42, "a\n", true), "  42 a\n");
    assert_eq!(format_group(9999, "z", true), "9999 z");
    assert_eq!(format_group(123456, "z\n", true), "123456 z\n");
    assert_eq!(format_group(u64::MAX, "", true), format!("{} ", u64::MAX));
}

#[test]
fn line_key_strips_one_terminator() {
    assert_eq!(line_key("abc\n"), "abc");
    assert_eq!(line_key("abc\r\n"), "abc");
    assert_eq!(line_key("abc"), "abc");
    assert_eq!(line_key("abc \n\n"), "abc \n");
    assert_eq!(line_key("\r"), "\r");
    assert_eq!(line_key(""), "");
}

#[test]
fn error_messages() {
    let e = RunError::Open { path: "nope.txt".to_string(), cause: "not found".to_string() };
    assert_eq!(e.message(), "nope.txt: not found");
    let e = RunError::Read { cause: "bad data".to_string() };
    assert_eq!(e.message(), "bad data");
    let e = RunError::Write { cause: "disk full".to_string() };
    assert_eq!(e.message(), "disk full");
}

#[test]
fn stdin_sentinel() {
    let c = Config { in_file: "-".to_string(), out_file: None, count: false };
    assert!(c.reads_stdin());
    let c = Config { in_file: "-x".to_string(), out_file: Some("o".to_string()), count: true };
    assert!(!c.reads_stdin());
}

#[test]
fn text_scenarios() {
    assert_eq!(uniq_text("a\na\nb\na\n", false), "a\nb\na\n");
    assert_eq!(uniq_text("a\na\nb\na\n", true), "   2 a\n   1 b\n   1 a\n");
    assert_eq!(uniq_text("x", true), "   1 x");
    assert_eq!(uniq_text("", false), "");
    assert_eq!(uniq_text("", true), "");
}

#[test]
fn text_output_is_a_fixed_point() {
    let once = uniq_text("k\nk\r\nm\nm\nk\nz", false);
    assert_eq!(once, "k\nm\nk\nz");
    assert_eq!(uniq_text(&once, false), once);
}

#[test]
fn split_lines_keeps_terminators() {
    assert_eq!(split_lines("a\nb\r\n\nc"), vec!["a\n", "b\r\n", "\n", "c"]);
    assert_eq!(split_lines("a\n"), vec!["a\n"]);
    assert!(split_lines("").is_empty());
}
