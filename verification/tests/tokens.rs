use just_the_code::blacklist::{collect_blacklist_ranges, overlaps_one_of, retain_unlisted};
use just_the_code::config::LangConfig;
use just_the_code::range::Range;
use just_the_code::token::{find_matches, find_token, token_at, Match, TokenKind};

fn r(start: usize, end: usize) -> Range {
    Range::new(start, end)
}

fn m(start: usize, end: usize, kind: TokenKind) -> Match {
    Match {
        range: r(start, end),
        kind,
    }
}

fn ranges_of(line: &str, token: &str) -> Vec<Range> {
    let mut found = Vec::new();
    find_token(
        line.as_bytes(),
        token.as_bytes(),
        TokenKind::LineComment,
        &mut found,
    );
    found.iter().map(|m| m.range).collect()
}

fn strings(tokens: &[&str]) -> Vec<String> {
    tokens.iter().map(|t| t.to_string()).collect()
}

#[test]
fn token_at_compares_the_bytes() {
    assert!(token_at(b"hello", b"ll", 2));
    assert!(!token_at(b"hello", b"ll", 3));
    assert!(token_at(b"hello", b"hello", 0));
    assert!(!token_at(b"hello", b"hello!", 0));
    assert!(token_at(b"hello", b"o", 4));
    assert!(!token_at(b"hello", b"o", 5));
}

#[test]
fn the_empty_token_stands_where_a_character_begins() {
    let line = "aé".as_bytes();
    assert!(token_at(line, b"", 0));
    assert!(token_at(line, b"", 1));
    assert!(!token_at(line, b"", 2));
    assert!(token_at(line, b"", 3));
    assert!(token_at(b"", b"", 0));
}

#[test]
fn find_token_goes_from_left_to_right_without_overlap() {
    assert_eq!(ranges_of("aaaa", "aa"), vec![r(0, 2), r(2, 4)]);
    assert_eq!(ranges_of("aaaaa", "aa"), vec![r(0, 2), r(2, 4)]);
    assert_eq!(ranges_of("abcabc", "bc"), vec![r(1, 3), r(4, 6)]);
    assert_eq!(ranges_of("abcabc", "cb"), Vec::<Range>::new());
    assert_eq!(ranges_of("", "a"), Vec::<Range>::new());
    assert_eq!(ranges_of("ab", "abc"), Vec::<Range>::new());
    assert_eq!(ranges_of("abc", "abc"), vec![r(0, 3)]);
}

#[test]
fn find_token_agrees_with_the_standard_search() {
    let lines = ["", "a", "aXbXXc", "héllo, wörld…", "// /* */ //", "ééé"];
    let tokens = ["", "X", "XX", "é", "//", "/*", "l", "…", "éé"];
    for line in lines {
        for token in tokens {
            let expected: Vec<Range> = line
                .match_indices(token)
                .map(|(start, found)| r(start, start + found.len()))
                .collect();
            assert_eq!(ranges_of(line, token), expected);
        }
    }
}

#[test]
fn find_token_appends_to_what_was_found() {
    let mut found = vec![m(9, 9, TokenKind::String(4))];
    find_token(b"a-b-c", b"-", TokenKind::MultiEnd(2), &mut found);
    assert_eq!(
        found,
        vec![
            m(9, 9, TokenKind::String(4)),
            m(1, 2, TokenKind::MultiEnd(2)),
            m(3, 4, TokenKind::MultiEnd(2)),
        ]
    );
}

#[test]
fn find_matches_lists_pairs_then_strings_then_line_comments() {
    let config = LangConfig::default()
        .line_comment("//")
        .string("\"")
        .multiline_comment("/*", "*/")
        .multiline_comment("(-", "-)");
    let found = find_matches(&config, b"// \"a\" (- /* */ -)");
    assert_eq!(
        found,
        vec![
            m(10, 12, TokenKind::MultiStart(0)),
            m(13, 15, TokenKind::MultiEnd(0)),
            m(7, 9, TokenKind::MultiStart(1)),
            m(16, 18, TokenKind::MultiEnd(1)),
            m(3, 4, TokenKind::String(0)),
            m(5, 6, TokenKind::String(0)),
            m(0, 2, TokenKind::LineComment),
        ]
    );
}

#[test]
fn find_matches_of_an_empty_profile_is_empty() {
    assert!(find_matches(&LangConfig::default(), b"// /* \" */").is_empty());
    assert!(find_matches(&LangConfig::default().blacklist("/"), b"// /* \" */").is_empty());
}

#[test]
fn blacklist_ranges_come_in_order_of_their_starts() {
    let found = collect_blacklist_ranges("a\\'b\\\\c", &strings(&["\\'", "\\\\"]));
    assert_eq!(found, vec![r(1, 3), r(4, 6)]);
    let found = collect_blacklist_ranges("a\\\\b\\'c", &strings(&["\\'", "\\\\"]));
    assert_eq!(found, vec![r(1, 3), r(4, 6)]);
}

#[test]
fn blacklist_range_that_overlaps_an_accepted_one_is_dropped() {
    let found = collect_blacklist_ranges("\\\\'", &strings(&["\\\\", "\\'"]));
    assert_eq!(found, vec![r(0, 2)]);
    let found = collect_blacklist_ranges("\\\\\\'", &strings(&["\\\\", "\\'"]));
    assert_eq!(found, vec![r(0, 2), r(2, 4)]);
}

#[test]
fn blacklist_range_is_held_against_accepted_ranges_only() {
    let found = collect_blacklist_ranges("abcdefg", &strings(&["abc", "cde", "efg"]));
    assert_eq!(found, vec![r(0, 3), r(4, 7)]);
}

#[test]
fn blacklist_ranges_that_start_together_keep_the_first_listed() {
    let found = collect_blacklist_ranges("xabcx", &strings(&["ab", "abc"]));
    assert_eq!(found, vec![r(1, 3)]);
    let found = collect_blacklist_ranges("xabcx", &strings(&["abc", "ab"]));
    assert_eq!(found, vec![r(1, 4)]);
}

#[test]
fn blacklist_without_tokens_or_matches_is_empty() {
    assert!(collect_blacklist_ranges("abc", &[]).is_empty());
    assert!(collect_blacklist_ranges("abc", &strings(&["x"])).is_empty());
    assert!(collect_blacklist_ranges("", &strings(&["x"])).is_empty());
}

#[test]
fn overlaps_one_of_looks_at_every_range() {
    let others = vec![r(0, 2), r(5, 8)];
    assert!(overlaps_one_of(&r(7, 9), &others));
    assert!(overlaps_one_of(&r(1, 3), &others));
    assert!(!overlaps_one_of(&r(2, 5), &others));
    assert!(!overlaps_one_of(&r(6, 6), &others));
    assert!(!overlaps_one_of(&r(0, 9), &Vec::new()));
}

#[test]
fn retain_unlisted_drops_what_a_blacklist_range_overlaps() {
    let mut matches = vec![
        m(0, 1, TokenKind::String(0)),
        m(3, 4, TokenKind::String(0)),
        m(4, 6, TokenKind::LineComment),
        m(2, 3, TokenKind::String(1)),
    ];
    retain_unlisted(&mut matches, &vec![r(3, 5)]);
    assert_eq!(
        matches,
        vec![m(0, 1, TokenKind::String(0)), m(2, 3, TokenKind::String(1))]
    );
}
