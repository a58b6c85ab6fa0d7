use just_the_code::config::LangConfig;

fn owned(tokens: &[&str]) -> Vec<String> {
    tokens.iter().map(|t| t.to_string()).collect()
}

#[test]
fn the_default_profile_is_empty() {
    let config = LangConfig::default();
    assert!(config.extensions.is_empty());
    assert!(config.line_comments.is_empty());
    assert!(config.multiline_comments.is_empty());
    assert!(config.strings.is_empty());
    assert!(config.blacklist.is_empty());
    assert!(!config.nested_comments);
    assert!(!config.keep_strings);
}

#[test]
fn builders_add_tokens_at_the_end() {
    let config = LangConfig::default()
        .line_comment("//")
        .line_comment("#")
        .multiline_comment("/*", "*/")
        .multiline_comment("(-", "-)")
        .string("\"")
        .string("'")
        .blacklist("\\\\")
        .blacklist("\\'");
    assert_eq!(config.line_comments, owned(&["//", "#"]));
    assert_eq!(
        config.multiline_comments,
        vec![
            ("/*".to_string(), "*/".to_string()),
            ("(-".to_string(), "-)".to_string())
        ]
    );
    assert_eq!(config.strings, owned(&["\"", "'"]));
    assert_eq!(config.blacklist, owned(&["\\\\", "\\'"]));
    assert!(config.extensions.is_empty());
    assert!(!config.nested_comments);
    assert!(!config.keep_strings);
}

#[test]
fn builders_leave_the_other_fields_alone() {
    let mut config = LangConfig::default().string("\"");
    config.extensions = owned(&["rs"]);
    config.keep_strings = true;
    let config = config.nested_comments(true).line_comment("//").blacklist("x");
    assert_eq!(config.extensions, owned(&["rs"]));
    assert_eq!(config.strings, owned(&["\""]));
    assert!(config.nested_comments);
    assert!(config.keep_strings);
    let config = config.nested_comments(false);
    assert!(!config.nested_comments);
    assert_eq!(config.line_comments, owned(&["//"]));
}

#[test]
fn builders_take_tokens_that_are_not_ascii() {
    let config = LangConfig::default().string("«").multiline_comment("⟦", "⟧");
    assert_eq!(config.strings, owned(&["«"]));
    assert_eq!(
        config.multiline_comments,
        vec![("⟦".to_string(), "⟧".to_string())]
    );
}
