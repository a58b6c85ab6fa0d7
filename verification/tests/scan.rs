use just_the_code::config::LangConfig;
use just_the_code::parse::handle_input;
use just_the_code::range::Range;
use std::io::BufRead;

fn split_lines(input: &str) -> Vec<String> {
    std::io::Cursor::new(input)
        .lines()
        .map(|line| line.expect("Couldn't read from input!"))
        .collect()
}

fn test_handle_input(config: LangConfig, input: &'static str, expected: &'static str) {
    let mut output: Vec<u8> = Vec::new();
    handle_input(config, &split_lines(input), &mut output);

    let output = String::from_utf8(output).expect("handle_input did not return valid UTF-8");
    assert_eq!(output, expected);
}

fn check_overlap([xmin, xsup]: [usize; 2], [ymin, ysup]: [usize; 2], positive: bool) {
    assert_eq!(
        Range::new(xmin, xsup).overlaps(&Range::new(ymin, ysup)),
        positive,
        "Range [{xmin}; {xsup}) should{} overlap with [{ymin}; {ysup})",
        if positive { "" } else { "n't" }
    );

    assert_eq!(
        Range::new(ymin, ysup).overlaps(&Range::new(xmin, xsup)),
        positive,
        "Range [{ymin}; {ysup}) should{} overlap with [{xmin}; {xsup})",
        if positive { "" } else { "n't" }
    );
}

#[test]
fn test_overlap() {
    check_overlap([0, 0], [0, 100], false);
    check_overlap([50, 50], [0, 100], false);
    check_overlap([100, 100], [0, 100], false);
    check_overlap([0, 1], [0, 1], true);
    check_overlap([0, 1], [1, 2], false);
    check_overlap([1, 2], [0, 1], false);
    check_overlap([5, 10], [9, 12], true);
    check_overlap([5, 10], [3, 6], true);
    check_overlap([5, 10], [10, 12], false);
    check_overlap([5, 10], [3, 5], false);
    check_overlap([5, 10], [4, 11], true);
    check_overlap([5, 10], [3, 12], true);
}

#[test]
fn test_noop() {
    test_handle_input(LangConfig::default(), "\n", "\n");

    test_handle_input(LangConfig::default(), "abc", "abc\n");
    test_handle_input(LangConfig::default().nested_comments(true), "abc", "abc\n");

    test_handle_input(LangConfig::default(), "abc\n", "abc\n");
    test_handle_input(
        LangConfig::default().nested_comments(true),
        "abc\n",
        "abc\n",
    );

    test_handle_input(LangConfig::default(), "abc\ndef", "abc\ndef\n");
    test_handle_input(
        LangConfig::default().nested_comments(true),
        "abc\ndef",
        "abc\ndef\n",
    );
}

#[test]
fn test_singleline() {
    let config = LangConfig::default().line_comment("//");

    test_handle_input(config.clone(), "hello // world", "hello \n");
    test_handle_input(
        config.clone(),
        "hello // world\nuntouched",
        "hello \nuntouched\n",
    );
    test_handle_input(config.clone(), "hello // world // hey", "hello \n");
    test_handle_input(config.clone(), "hello // world\n// hey", "hello \n\n");
}

#[test]
fn test_multiline() {
    let config = LangConfig::default().multiline_comment("/*", "*/");

    test_handle_input(config.clone(), "hello /* world", "hello \n");
    test_handle_input(config.clone(), "hello */ world", "hello */ world\n");
    test_handle_input(config.clone(), "hello /* world */", "hello \n");
    test_handle_input(
        config.clone(),
        "hello /* world */\na very long line with a lot of text",
        "hello \na very long line with a lot of text\n",
    );
    test_handle_input(
        config.clone(),
        "hello /* world\n*/newline",
        "hello \nnewline\n",
    );
    test_handle_input(
        config.clone(),
        "hello /* world */ included",
        "hello  included\n",
    );
}

#[test]
fn test_interactions() {
    let config = LangConfig::default()
        .multiline_comment("/*", "*/")
        .line_comment("//");

    // A multiline comment in a single-line comment should be ignored
    test_handle_input(
        config.clone(),
        "hello // /* world\nincluded",
        "hello \nincluded\n",
    );
    test_handle_input(
        config.clone(),
        "hello // /* world\nincluded */",
        "hello \nincluded */\n",
    );

    // A single-line comment in a multiline comment should be ignored
    test_handle_input(config.clone(), "/* // */hello world", "hello world\n");
    test_handle_input(
        config.clone(),
        "/* // */hello world // commented",
        "hello world \n",
    );

    // If a single-line comment is merged with a multiline comment, then the latter does not apply
    test_handle_input(config.clone(), "//* hello */\nworld", "\nworld\n");
    test_handle_input(config.clone(), "/*\n*//world", "\n/world\n");

    let alt_config = LangConfig::default()
        .multiline_comment("/-", "-/")
        .line_comment("--");

    // Equivalently, if a multi-line comment is merged with a single line comment, then the latter does not apply
    test_handle_input(alt_config.clone(), "/-- hello -/\nworld", "\nworld\n");
    test_handle_input(alt_config.clone(), "/-\n--/world", "\nworld\n");
}

#[test]
fn test_nested_comments() {
    let config = LangConfig::default()
        .multiline_comment("/*", "*/")
        .multiline_comment("(-", "-)")
        .nested_comments(true);

    test_handle_input(config.clone(), "/* /* abc */ def */hello", "hello\n");
    test_handle_input(config.clone(), "/* /* abc\n */ def\n*/hello", "\n\nhello\n");

    test_handle_input(config.clone(), "/* (- abc */ def -)hello", "\n");
    test_handle_input(config.clone(), "/* -) abc */ def", " def\n");
}

#[test]
fn test_string() {
    let config = LangConfig::default()
        .multiline_comment("/*", "*/")
        .line_comment("//")
        .string("\"")
        .string("'");

    test_handle_input(config.clone(), "let a = \"hello\";", "let a = \"…\";\n");
    test_handle_input(
        config.clone(),
        "let a = \"hello\";\na very long line with a lot of text",
        "let a = \"…\";\na very long line with a lot of text\n",
    );
    test_handle_input(
        config.clone(),
        "let a = \"hello // world\";",
        "let a = \"…\";\n",
    );
    test_handle_input(
        config.clone(),
        "let a = \"Jack'o'lantern\";",
        "let a = \"…\";\n",
    );
    test_handle_input(config.clone(), "let a = 'hello';", "let a = \"…\";\n");
    test_handle_input(
        config.clone(),
        "let a = 'hello', 'world';",
        "let a = \"…\", \"…\";\n",
    );

    test_handle_input(
        config.clone(),
        "let a = \"hello /* world \";",
        "let a = \"…\";\n",
    );
    test_handle_input(
        config.clone(),
        "let a = \"hello /* world \";\n*/ this is // normal",
        "let a = \"…\";\n*/ this is \n",
    );
}

#[test]
fn test_blacklist() {
    let config = LangConfig::default().string("'").blacklist("\\'");

    test_handle_input(config.clone(), "let a = '\\'';", "let a = '…';\n");
    test_handle_input(
        config.clone(),
        "let a = 'hello \\' world';",
        "let a = '…';\n",
    );

    let config = LangConfig::default()
        .string("'")
        .blacklist("\\\\")
        .blacklist("\\'");

    test_handle_input(config.clone(), "let a = '\\\\\\'';", "let a = '…';\n");
    test_handle_input(config.clone(), "let a = '\\\\';", "let a = '…';\n");
}
