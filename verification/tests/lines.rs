use mihomosh::lines::{is_section_header, is_top_level_key, line_ranges};
use mihomosh::sections::find_top_level_section_range;
use mihomosh::text::{chars, same, size, strip_prefix, width};

#[test]
fn ranges_cover_the_text() {
    assert_eq!(line_ranges(""), vec![]);
    assert_eq!(line_ranges("\n"), vec![(0, 1)]);
    assert_eq!(line_ranges("a"), vec![(0, 1)]);
    assert_eq!(line_ranges("a\n\nbc\n"), vec![(0, 2), (2, 3), (3, 6)]);
    assert_eq!(line_ranges("é\r\n€x"), vec![(0, 4), (4, 8)]);
}

#[test]
fn lines_put_in_a_row_are_the_text() {
    let text = "a: 1\r\n\n  b\n\u{1f600}: ü\nlast";
    let mut joined = String::new();
    for (start, end) in line_ranges(text) {
        assert!(start < end);
        joined.push_str(&text[start..end]);
    }
    assert_eq!(joined, text);
}

#[test]
fn headers_end_with_a_colon() {
    assert!(is_section_header("rules:\n", "rules"));
    assert!(is_section_header("rules:", "rules"));
    assert!(is_section_header("rules: []\r\n", "rules"));
    assert!(is_section_header("rules:\t[]", "rules"));
    assert!(is_section_header("rules:# none", "rules"));
    assert!(is_section_header("rules:\n\r\n", "rules"));
    assert!(!is_section_header("rules:x", "rules"));
    assert!(!is_section_header("rules", "rules"));
    assert!(!is_section_header("rules :", "rules"));
    assert!(!is_section_header(" rules:", "rules"));
    assert!(!is_section_header("rules-set:", "rules"));
    assert!(!is_section_header("", "rules"));
    assert!(is_section_header(":", ""));
}

#[test]
fn entries_are_named_and_not_indented() {
    assert!(is_top_level_key("a:\n"));
    assert!(is_top_level_key("a: b: c"));
    assert!(is_top_level_key("\"a b\": 1"));
    assert!(is_top_level_key("a\u{a0}:"));
    assert!(!is_top_level_key(""));
    assert!(!is_top_level_key("\r\n"));
    assert!(!is_top_level_key(" a: 1"));
    assert!(!is_top_level_key("\ta: 1"));
    assert!(!is_top_level_key("# a: 1"));
    assert!(!is_top_level_key("- a: 1"));
    assert!(!is_top_level_key("a"));
    assert!(!is_top_level_key(": a"));
    assert!(!is_top_level_key("\u{2003}\u{a0}: a"));
}

#[test]
fn white_space_alone_is_no_name() {
    for number in 0..=0x10ffffu32 {
        if let Some(c) = char::from_u32(number) {
            let mut line = String::new();
            line.push('\u{b}');
            line.push(c);
            line.push(':');
            let expected = c != ':' && !c.is_whitespace();
            assert_eq!(is_top_level_key(&line), expected, "{number:x}");
        }
    }
}

#[test]
fn section_reaches_to_the_next_entry() {
    let text = "é: 1\nrules:\n  - a\n# note\n\nmode: rule\n";
    assert_eq!(
        find_top_level_section_range(text, "rules"),
        Some((6, 27))
    );
    assert_eq!(&text[6..27], "rules:\n  - a\n# note\n\n");
    assert_eq!(find_top_level_section_range(text, "mode"), Some((27, 38)));
    assert_eq!(find_top_level_section_range(text, "proxies"), None);
    assert_eq!(find_top_level_section_range("", "rules"), None);
}

#[test]
fn first_of_two_sections_is_found() {
    assert_eq!(
        find_top_level_section_range("rules: a\nrules: b\n", "rules"),
        Some((0, 9))
    );
}

#[test]
fn texts_are_measured_in_bytes() {
    assert_eq!(size("aé€\u{1f600}"), 10);
    assert_eq!(
        (width('a'), width('é'), width('€'), width('\u{1f600}')),
        (1, 2, 3, 4)
    );
    assert_eq!(chars("aé"), vec!['a', 'é']);
}

#[test]
fn prefixes_are_taken_off() {
    assert_eq!(strip_prefix("sha256:ab", "sha256:"), Some("ab"));
    assert_eq!(strip_prefix("éa", "é"), Some("a"));
    assert_eq!(strip_prefix("a", ""), Some("a"));
    assert_eq!(strip_prefix("a", "ab"), None);
    assert_eq!(strip_prefix("b", "a"), None);
    assert!(same("é", "é"));
    assert!(!same("é", "e"));
    assert!(!same("a", "aa"));
}
