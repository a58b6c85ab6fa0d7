use just_the_code::config::LangConfig;
use just_the_code::negative::NegativeRange;
use just_the_code::parse::handle_input;
use just_the_code::range::Range;
use just_the_code::ranges::Ranges;
use just_the_code::render::{append, make_placeholder, render};
use just_the_code::scanner::Scanner;
use just_the_code::token::{Match, TokenKind};

fn r(start: usize, end: usize) -> Range {
    Range::new(start, end)
}

fn m(start: usize, end: usize, kind: TokenKind) -> Match {
    Match {
        range: r(start, end),
        kind,
    }
}

fn scan(config: &LangConfig, lines: &[&str]) -> String {
    let lines: Vec<String> = lines.iter().map(|line| line.to_string()).collect();
    let mut output = Vec::new();
    handle_input(config.clone(), &lines, &mut output);
    String::from_utf8(output).expect("the output is text")
}

fn scan_twice(config: &LangConfig, lines: &[&str]) -> (String, String) {
    let once = scan(config, lines);
    let written: Vec<&str> = once.lines().collect();
    let twice = scan(config, &written);
    (once, twice)
}

fn c_like() -> LangConfig {
    LangConfig::default()
        .multiline_comment("/*", "*/")
        .line_comment("//")
        .string("\"")
        .string("'")
}

#[test]
fn a_new_scanner_has_nothing_open() {
    let scanner = Scanner::new();
    assert!(scanner.multiline_ids.is_empty());
    assert!(scanner.multiline_ranges.open_ranges.is_empty());
    assert!(scanner.multiline_ranges.closed_ranges.is_empty());
    assert!(scanner.current_string.is_none());
    assert!(scanner.string_ranges.open_ranges.is_empty());
    assert!(scanner.string_ranges.closed_ranges.is_empty());
}

#[test]
fn line_comment_covers_the_rest_of_the_line_and_the_line_break() {
    let mut scanner = Scanner::new();
    let mut line_range = r(0, 0);
    scanner.apply(false, &mut line_range, m(6, 8, TokenKind::LineComment), 14);
    assert_eq!(line_range, r(6, 15));
    scanner.apply(false, &mut line_range, m(9, 11, TokenKind::LineComment), 14);
    assert_eq!(line_range, r(6, 15));
    assert!(scanner.multiline_ranges.open_ranges.is_empty());
    assert!(scanner.string_ranges.open_ranges.is_empty());
}

#[test]
fn tokens_within_a_line_comment_are_inert() {
    let mut scanner = Scanner::new();
    let mut line_range = r(0, 0);
    scanner.apply(true, &mut line_range, m(2, 4, TokenKind::LineComment), 20);
    scanner.apply(true, &mut line_range, m(5, 7, TokenKind::MultiStart(0)), 20);
    scanner.apply(true, &mut line_range, m(8, 9, TokenKind::String(0)), 20);
    scanner.apply(true, &mut line_range, m(10, 12, TokenKind::MultiEnd(0)), 20);
    assert_eq!(line_range, r(2, 21));
    assert!(scanner.multiline_ids.is_empty());
    assert!(scanner.multiline_ranges.open_ranges.is_empty());
    assert!(scanner.multiline_ranges.closed_ranges.is_empty());
    assert!(scanner.current_string.is_none());
    assert!(scanner.string_ranges.open_ranges.is_empty());
}

#[test]
fn without_nesting_a_second_opener_is_ignored() {
    let mut scanner = Scanner::new();
    let mut line_range = r(0, 0);
    scanner.apply(false, &mut line_range, m(0, 2, TokenKind::MultiStart(0)), 20);
    scanner.apply(false, &mut line_range, m(3, 5, TokenKind::MultiStart(1)), 20);
    assert_eq!(scanner.multiline_ranges.open_ranges, vec![0]);
    assert!(scanner.multiline_ids.is_empty());
    scanner.apply(false, &mut line_range, m(6, 8, TokenKind::MultiEnd(1)), 20);
    assert!(scanner.multiline_ranges.open_ranges.is_empty());
    assert_eq!(scanner.multiline_ranges.closed_ranges, vec![r(0, 8)]);
    scanner.apply(false, &mut line_range, m(9, 11, TokenKind::MultiEnd(0)), 20);
    assert_eq!(scanner.multiline_ranges.closed_ranges, vec![r(0, 8)]);
}

#[test]
fn with_nesting_only_the_matching_closer_closes() {
    let mut scanner = Scanner::new();
    let mut line_range = r(0, 0);
    scanner.apply(true, &mut line_range, m(0, 2, TokenKind::MultiStart(0)), 30);
    scanner.apply(true, &mut line_range, m(3, 5, TokenKind::MultiStart(1)), 30);
    assert_eq!(scanner.multiline_ids, vec![0, 1]);
    assert_eq!(scanner.multiline_ranges.open_ranges, vec![0, 3]);

    scanner.apply(true, &mut line_range, m(6, 8, TokenKind::MultiEnd(0)), 30);
    assert_eq!(scanner.multiline_ids, vec![0, 1]);
    assert_eq!(scanner.multiline_ranges.open_ranges, vec![0, 3]);

    scanner.apply(true, &mut line_range, m(9, 11, TokenKind::MultiEnd(1)), 30);
    assert_eq!(scanner.multiline_ids, vec![0]);
    assert_eq!(scanner.multiline_ranges.open_ranges, vec![0]);
    assert_eq!(scanner.multiline_ranges.closed_ranges, vec![r(3, 11)]);

    scanner.apply(true, &mut line_range, m(12, 14, TokenKind::MultiEnd(0)), 30);
    assert!(scanner.multiline_ids.is_empty());
    assert_eq!(
        scanner.multiline_ranges.closed_ranges,
        vec![r(3, 11), r(0, 14)]
    );

    scanner.apply(true, &mut line_range, m(15, 17, TokenKind::MultiEnd(0)), 30);
    assert!(scanner.multiline_ids.is_empty());
    assert_eq!(
        scanner.multiline_ranges.closed_ranges,
        vec![r(3, 11), r(0, 14)]
    );
}

#[test]
fn a_string_is_closed_by_its_own_delimiter_only() {
    let mut scanner = Scanner::new();
    let mut line_range = r(0, 0);
    scanner.apply(false, &mut line_range, m(2, 3, TokenKind::String(1)), 30);
    assert_eq!(scanner.current_string, Some(1));
    assert_eq!(scanner.string_ranges.open_ranges, vec![2]);

    scanner.apply(false, &mut line_range, m(5, 6, TokenKind::String(0)), 30);
    assert_eq!(scanner.current_string, Some(1));
    assert_eq!(scanner.string_ranges.open_ranges, vec![2]);

    scanner.apply(false, &mut line_range, m(8, 9, TokenKind::String(1)), 30);
    assert_eq!(scanner.current_string, None);
    assert!(scanner.string_ranges.open_ranges.is_empty());
    assert_eq!(scanner.string_ranges.closed_ranges, vec![r(2, 9)]);
}

#[test]
fn comment_tokens_within_a_string_are_inert() {
    let mut scanner = Scanner::new();
    let mut line_range = r(0, 0);
    scanner.apply(true, &mut line_range, m(2, 3, TokenKind::String(0)), 30);
    scanner.apply(true, &mut line_range, m(4, 6, TokenKind::MultiStart(0)), 30);
    scanner.apply(true, &mut line_range, m(7, 9, TokenKind::LineComment), 30);
    scanner.apply(true, &mut line_range, m(10, 12, TokenKind::MultiEnd(0)), 30);
    assert_eq!(line_range, r(0, 0));
    assert!(scanner.multiline_ranges.open_ranges.is_empty());
    assert!(scanner.multiline_ranges.closed_ranges.is_empty());
}

#[test]
fn replay_reads_the_tokens_in_the_order_given() {
    let mut scanner = Scanner::new();
    let matches = vec![
        m(0, 2, TokenKind::MultiStart(0)),
        m(3, 5, TokenKind::LineComment),
        m(6, 8, TokenKind::MultiEnd(0)),
        m(14, 16, TokenKind::LineComment),
    ];
    let line_range = scanner.replay(false, &matches, 20);
    assert_eq!(line_range, r(14, 21));
    assert_eq!(scanner.multiline_ranges.closed_ranges, vec![r(0, 8)]);
}

#[test]
fn scan_line_carries_an_open_comment_into_the_next_line() {
    let config = c_like();
    let mut scanner = Scanner::new();
    assert_eq!(scanner.scan_line(&config, "hello /* world"), b"hello \n");
    assert_eq!(scanner.multiline_ranges.open_ranges, vec![0]);
    assert!(scanner.multiline_ranges.closed_ranges.is_empty());
    assert_eq!(scanner.scan_line(&config, "still a comment"), b"\n");
    assert_eq!(scanner.scan_line(&config, "*/newline"), b"newline\n");
    assert!(scanner.multiline_ranges.open_ranges.is_empty());
    assert!(scanner.multiline_ranges.closed_ranges.is_empty());
    assert_eq!(scanner.scan_line(&config, "plain"), b"plain\n");
}

#[test]
fn scan_line_carries_an_open_string_into_the_next_line() {
    let config = c_like();
    let mut scanner = Scanner::new();
    assert_eq!(
        scanner.scan_line(&config, "a = \"abc"),
        "a = \"…\"\n".as_bytes()
    );
    assert_eq!(scanner.current_string, Some(0));
    assert_eq!(scanner.string_ranges.open_ranges, vec![0]);
    assert_eq!(
        scanner.scan_line(&config, "def\" + 1"),
        "\"…\" + 1\n".as_bytes()
    );
    assert_eq!(scanner.current_string, None);
}

#[test]
fn scan_line_of_an_empty_line_is_a_line_break() {
    let config = c_like();
    let mut scanner = Scanner::new();
    assert_eq!(scanner.scan_line(&config, ""), b"\n");
    assert_eq!(scanner.scan_line(&config, "/*"), b"\n");
    assert_eq!(scanner.scan_line(&config, ""), b"\n");
    assert_eq!(scanner.multiline_ranges.open_ranges, vec![0]);
}

#[test]
fn the_placeholder_is_built_on_the_first_delimiter() {
    assert_eq!(
        make_placeholder(&LangConfig::default()),
        "\"…\"".as_bytes()
    );
    assert_eq!(
        make_placeholder(&LangConfig::default().string("'").string("\"")),
        "'…'".as_bytes()
    );
    assert_eq!(
        make_placeholder(&LangConfig::default().string("\"\"\"")),
        "\"\"\"…\"\"\"".as_bytes()
    );
    assert_eq!(
        make_placeholder(&LangConfig::default().string("«")),
        "«…«".as_bytes()
    );
}

#[test]
fn append_copies_the_bytes_asked_for() {
    let mut out = b"ab".to_vec();
    append(&mut out, b"012345", 2, 5);
    assert_eq!(out, b"ab234");
    append(&mut out, b"012345", 3, 3);
    assert_eq!(out, b"ab234");
    append(&mut out, b"012345", 0, 6);
    assert_eq!(out, b"ab234012345");
}

#[test]
fn render_writes_one_byte_behind_each_visible_interval() {
    let config = LangConfig::default();
    let negative = NegativeRange {
        ranges: vec![r(0, 2), r(6, 10)],
    };
    let out = render(&config, &negative, &Ranges::empty(), b"0123456789");
    assert_eq!(out, b"0126789\n");
}

#[test]
fn render_puts_placeholders_where_the_strings_start() {
    let config = LangConfig::default().string("'");
    let negative = NegativeRange {
        ranges: vec![r(0, 1), r(6, 10)],
    };
    let mut strings = Ranges::empty();
    strings.open(2);
    strings.close(6);
    let out = render(&config, &negative, &strings, b"0123456789");
    assert_eq!(out, "01'…'6789\n".as_bytes());

    let mut kept = LangConfig::default().string("'");
    kept.keep_strings = true;
    let out = render(&kept, &negative, &strings, b"0123456789");
    assert_eq!(out, b"016789\n");
}

#[test]
fn render_of_an_empty_line_is_a_line_break() {
    let config = LangConfig::default().string("'");
    let mut strings = Ranges::empty();
    strings.open(0);
    let out = render(&config, &NegativeRange::new(0), &strings, b"");
    assert_eq!(out, b"\n");
}

#[test]
fn handle_input_appends_to_the_output() {
    let mut output = b"kept".to_vec();
    handle_input(
        LangConfig::default().line_comment("#"),
        &vec!["a # b".to_string(), "c".to_string()],
        &mut output,
    );
    assert_eq!(output, b"kepta \nc\n");
    handle_input(LangConfig::default(), &Vec::new(), &mut output);
    assert_eq!(output, b"kepta \nc\n");
}

#[test]
fn an_empty_profile_copies_every_line() {
    let lines = ["// /* \" ' */", "", "héllo…", "\ttabs and  spaces ", "*/"];
    let expected = "// /* \" ' */\n\nhéllo…\n\ttabs and  spaces \n*/\n";
    assert_eq!(scan(&LangConfig::default(), &lines), expected);
    assert_eq!(
        scan(&LangConfig::default().nested_comments(true), &lines),
        expected
    );
    assert_eq!(
        scan(&LangConfig::default().blacklist("/").blacklist("\""), &lines),
        expected
    );
}

#[test]
fn kept_strings_stay_in_the_output() {
    let mut config = c_like();
    config.keep_strings = true;
    assert_eq!(
        scan(&config, &["let a = \"hello\"; // c"]),
        "let a = \"hello\"; \n"
    );
    assert_eq!(
        scan(&config, &["let a = \"// no\"; x"]),
        "let a = \"// no\"; x\n"
    );
    assert_eq!(
        scan(&config, &["a = \"/* b", "c */\" /* d */ e"]),
        "a = \"/* b\nc */\"  e\n"
    );
}

#[test]
fn the_offset_before_a_span_is_lost_where_the_visible_part_starts_there() {
    let config = c_like();
    assert_eq!(scan(&config, &["a/**/b"]), "b\n");
    assert_eq!(scan(&config, &["ab/**/c"]), "abc\n");
    assert_eq!(scan(&config, &["x// c"]), "\n");
    assert_eq!(scan(&config, &["\"a\"x\"b\""]), "\"…\"\"…\"\n");
    assert_eq!(scan(&config, &["\"a\"xy\"b\""]), "\"…\"xy\"…\"\n");
}

#[test]
fn a_token_that_starts_where_another_starts_comes_in_the_order_of_the_profile() {
    let config = LangConfig::default()
        .line_comment("--")
        .multiline_comment("--[[", "]]");
    assert_eq!(scan(&config, &["ab --[[ c ]] d"]), "ab  d\n");

    let config = LangConfig::default()
        .line_comment("#")
        .string("#");
    assert_eq!(scan(&config, &["ab # c # d"]), "ab #…# d\n");
}

#[test]
fn a_blacklisted_token_is_no_token() {
    let config = LangConfig::default()
        .line_comment("//")
        .blacklist("://");
    assert_eq!(
        scan(&config, &["see http://example.org // really"]),
        "see http://example.org \n"
    );
    let config = LangConfig::default().line_comment("//").blacklist("/");
    assert_eq!(scan(&config, &["a // b"]), "a // b\n");
}

#[test]
fn scanning_stripped_output_again_changes_nothing() {
    let config = c_like();
    let inputs: [&[&str]; 5] = [
        &["hello // world", "untouched"],
        &["hello /* world", "*/newline"],
        &["let a = \"hello\";", "let b = 'x', 'y';"],
        &["/* // */hello world // commented"],
        &["a = \"abc", "def\" + 1", "", "done"],
    ];
    for lines in inputs {
        let (once, twice) = scan_twice(&config, lines);
        assert_eq!(once, twice);
    }

    let mut kept = c_like();
    kept.keep_strings = true;
    let (once, twice) = scan_twice(&kept, &["let a = \"hello // world\"; // c", "/* x */y"]);
    assert_eq!(once, "let a = \"hello // world\"; \ny\n");
    assert_eq!(once, twice);
}

#[test]
fn taking_a_comment_out_can_join_the_halves_of_a_token() {
    let config = LangConfig::default().multiline_comment("<!--", "-->");
    let (once, twice) = scan_twice(&config, &["a<!<!-- x -->-- foo"]);
    assert_eq!(once, "a<!-- foo\n");
    assert_eq!(twice, "\n");
}

#[test]
fn tokens_of_different_kinds_may_share_bytes() {
    let config = LangConfig::default().multiline_comment("/*", "*/");
    assert_eq!(scan(&config, &["a//* x */* foo"]), "a/\n");
}

#[test]
fn next_line_keeps_what_is_open_and_forgets_what_is_closed() {
    let mut scanner = Scanner::new();
    let mut line_range = r(0, 0);
    scanner.apply(true, &mut line_range, m(0, 2, TokenKind::MultiStart(1)), 30);
    scanner.apply(true, &mut line_range, m(3, 5, TokenKind::MultiStart(0)), 30);
    scanner.apply(true, &mut line_range, m(6, 8, TokenKind::MultiEnd(0)), 30);
    scanner.next_line();
    assert_eq!(scanner.multiline_ids, vec![1]);
    assert_eq!(scanner.multiline_ranges.open_ranges, vec![0]);
    assert!(scanner.multiline_ranges.closed_ranges.is_empty());
    assert_eq!(scanner.current_string, None);
}

#[test]
fn tokens_that_are_not_ascii_are_found_at_their_bytes() {
    let config = LangConfig::default()
        .multiline_comment("⟦", "⟧")
        .string("«");
    assert_eq!(
        scan(&config, &["né ⟦ çà ⟧ ö «x« ü"]),
        "né  ö «…« ü\n"
    );
}

#[test]
fn an_empty_line_comment_token_hides_every_line() {
    let config = LangConfig::default().line_comment("");
    assert_eq!(scan(&config, &["abc", "", "é"]), "\n\n\n");
}
