use duplex_talk::grep::{
    decimal_string, highlight, layout_line, pprint, LineMatcher, LineScanner, MatchSpan, ScanAction,
};

const RED: &str = "\x1b[31m";
const RESET: &str = "\x1b[0m";

#[test]
fn decimal_numerals() {
    assert_eq!(decimal_string(0), "0");
    assert_eq!(decimal_string(7), "7");
    assert_eq!(decimal_string(1234), "1234");
    assert_eq!(decimal_string(u32::MAX), "4294967295");
}

#[test]
fn line_layout_pads_number_and_text() {
    assert_eq!(layout_line(7, "ab"), "     7: ab ");
    assert_eq!(layout_line(42, "hello\n"), "    42: hello\n");
    assert_eq!(layout_line(1234567, ""), "1234567:    ");
    assert_eq!(layout_line(3, "吃了没"), "     3: 吃了没");
    assert_eq!(layout_line(3, "吃"), "     3: 吃  ");
}

#[test]
fn matcher_refuses_bad_pattern() {
    assert!(LineMatcher::new("(").is_err());
    assert!(LineMatcher::new("a+").is_ok());
}

#[test]
fn matcher_finds_spans() {
    let m = LineMatcher::new("a+").unwrap();
    assert_eq!(
        m.find("xaayaaa\n"),
        vec![MatchSpan { start: 1, end: 3 }, MatchSpan { start: 4, end: 7 }]
    );
    assert!(m.find("xyz\n").is_empty());
    let m = LineMatcher::new("饱了").unwrap();
    assert_eq!(m.find("嗨！吃饱了"), vec![MatchSpan { start: 9, end: 15 }]);
}

#[test]
fn highlight_with_and_without_colour() {
    let spans = [MatchSpan { start: 1, end: 3 }, MatchSpan { start: 4, end: 7 }];
    colored::control::set_override(true);
    assert_eq!(
        highlight("xaayaaa\n", &spans),
        format!("x{RED}aa{RESET}y{RED}aaa{RESET}\n")
    );
    assert_eq!(
        pprint(12, "xaayaaa\n", &spans),
        format!("    12: x{RED}aa{RESET}y{RED}aaa{RESET}\n")
    );
    let m = LineMatcher::new("饱了").unwrap();
    assert_eq!(
        m.render(1, "嗨！吃饱了溜溜弯儿。"),
        Some(format!("     1: 嗨！吃{RED}饱了{RESET}溜溜弯儿。"))
    );
    colored::control::set_override(false);
    assert_eq!(highlight("xaayaaa\n", &spans), "xaayaaa\n");
    assert_eq!(pprint(12, "xaayaaa\n", &spans), "    12: xaayaaa\n");
    assert_eq!(highlight("abc", &[]), "abc");
    colored::control::unset_override();
}

#[test]
fn render_skips_lines_without_match() {
    let m = LineMatcher::new("zz").unwrap();
    assert_eq!(m.render(3, "abc\n"), None);
}

#[test]
fn scanner_numbers_lines_and_stops_at_end() {
    let m = LineMatcher::new("b").unwrap();
    let mut s = LineScanner::new();
    assert!(matches!(s.on_line(&m, "aaa\n"), ScanAction::Quiet));
    assert_eq!(s.count, 1);
    match s.on_line(&m, "abc\n") {
        ScanAction::Print(out) => {
            assert!(out.starts_with("     2: a"));
            assert!(out.ends_with("c\n"));
            assert!(out.contains('b'));
        }
        _ => panic!("expected a printed line"),
    }
    assert_eq!(s.count, 2);
    assert!(matches!(s.on_line(&m, ""), ScanAction::Stop));
    assert_eq!(s.count, 2);
}

#[test]
fn scanner_with_given_matches() {
    let mut s = LineScanner::new();
    assert!(matches!(s.on_line_matches("abc\n", &[]), ScanAction::Quiet));
    match s.on_line_matches("abc\n", &[MatchSpan { start: 3, end: 3 }]) {
        ScanAction::Print(out) => {
            assert!(out.starts_with("     2: abc"));
            assert!(out.ends_with("\n"));
        }
        _ => panic!("expected a printed line"),
    }
    assert!(matches!(s.on_line_matches("", &[]), ScanAction::Stop));
    assert_eq!(s.count, 2);
}

#[test]
fn render_matches_without_spans_is_none() {
    assert_eq!(duplex_talk::grep::render_matches(1, "abc", &[]), None);
}
