use logy::text::{join_lines, precedes, same_text, strip_line_end};

#[test]
fn precedes_is_the_order_of_str() {
    let samples = [
        "", "a", "ab", "b", "B", "a b", "2021-09-26 20:00:00.123", "2021-09-26 20:00:00.124",
        "z", "\u{e9}", "\u{4e2d}", "\u{1f600}", "ab\u{e9}", "ab\u{e8}",
    ];
    for a in samples.iter() {
        for b in samples.iter() {
            assert_eq!(precedes(a, b), a <= b, "{:?} against {:?}", a, b);
        }
    }
}

#[test]
fn precedes_holds_of_a_prefix_and_of_equal_texts() {
    assert!(precedes("", ""));
    assert!(precedes("", "x"));
    assert!(!precedes("x", ""));
    assert!(precedes("log", "log"));
    assert!(precedes("log", "logs"));
    assert!(!precedes("logs", "log"));
}

#[test]
fn precedes_compares_any_two_texts() {
    let samples = ["10:00 b", "10:00 a", "09:59 z", "10:00 a"];
    for a in samples.iter() {
        for b in samples.iter() {
            assert!(precedes(a, b) || precedes(b, a));
        }
    }
}

#[test]
fn same_text_tells_equal_from_different() {
    assert!(same_text("", ""));
    assert!(same_text("trace,1", "trace,1"));
    assert!(!same_text("trace,1", "trace,2"));
    assert!(!same_text("trace", "trace,1"));
    assert!(!same_text("trace,1", "trace"));
    assert!(same_text("\u{e9}\u{4e2d}", "\u{e9}\u{4e2d}"));
    assert!(!same_text("\u{e9}", "e"));
}

#[test]
fn join_lines_puts_a_break_between_lines() {
    assert_eq!(join_lines(&vec![]), "");
    assert_eq!(join_lines(&vec!["one".to_string()]), "one");
    assert_eq!(join_lines(&vec!["one".to_string(), "two".to_string()]), "one\ntwo");
    assert_eq!(
        join_lines(&vec!["one".to_string(), "".to_string(), "three".to_string()]),
        "one\n\nthree"
    );
    let lines = vec!["a".to_string(), "b".to_string(), "c".to_string()];
    assert_eq!(join_lines(&lines), lines.join("\n"));
}

#[test]
fn strip_line_end_takes_off_one_line_terminator() {
    assert_eq!(strip_line_end("a line\n"), "a line");
    assert_eq!(strip_line_end("a line\r\n"), "a line");
    assert_eq!(strip_line_end("a line"), "a line");
    assert_eq!(strip_line_end("\n"), "");
    assert_eq!(strip_line_end("\r\n"), "");
    assert_eq!(strip_line_end(""), "");
}

#[test]
fn strip_line_end_takes_off_nothing_else() {
    assert_eq!(strip_line_end("trailing blanks  \n"), "trailing blanks  ");
    assert_eq!(strip_line_end("tab\t\r\n"), "tab\t");
    assert_eq!(strip_line_end("two\n\n"), "two\n");
    assert_eq!(strip_line_end("two\r\n\r\n"), "two\r\n");
    assert_eq!(strip_line_end("lone return\r"), "lone return\r");
    assert_eq!(strip_line_end("\r"), "\r");
    assert_eq!(strip_line_end("inside\nline"), "inside\nline");
    assert_eq!(strip_line_end("  leading\n"), "  leading");
    assert_eq!(strip_line_end("caf\u{e9} \u{4e2d}\u{6587}\r\n"), "caf\u{e9} \u{4e2d}\u{6587}");
    assert_eq!(strip_line_end("\u{4e2d}\n"), "\u{4e2d}");
}
