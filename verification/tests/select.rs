use indexmap::IndexMap;
use just_the_code::config::{Config, LangConfig, RuntimeConfig};
use just_the_code::select::{
    copy_config, extension, find_lang, get_lang_config, has_extension, input_source, InputSource,
};

fn lang(extensions: &[&str], line_comment: &str) -> LangConfig {
    let mut config = LangConfig::default().line_comment(line_comment);
    config.extensions = extensions.iter().map(|e| e.to_string()).collect();
    config
}

fn runtime(filename: Option<&str>, keep_strings: bool, remove_strings: bool) -> RuntimeConfig {
    RuntimeConfig {
        filename: filename.map(|name| name.to_string()),
        help: false,
        read: false,
        keep_strings,
        remove_strings,
    }
}

fn two_langs() -> Config {
    let mut langs = IndexMap::new();
    langs.insert("rust".to_string(), lang(&["rs"], "//"));
    langs.insert("python".to_string(), lang(&["py", "pyi"], "#"));
    Config {
        keep_strings: false,
        langs,
    }
}

#[test]
fn extension_is_what_follows_the_last_stop() {
    assert_eq!(extension("main.rs"), "rs");
    assert_eq!(extension("archive.tar.gz"), "gz");
    assert_eq!(extension("src/lib.RS"), "RS");
}

#[test]
fn extension_of_a_name_without_stop_is_the_name() {
    assert_eq!(extension("Makefile"), "Makefile");
}

#[test]
fn extension_does_not_count_a_final_stop() {
    assert_eq!(extension("main.rs."), "rs");
    assert_eq!(extension("main.."), "");
    assert_eq!(extension("."), "");
    assert_eq!(extension(".hidden"), "hidden");
}

#[test]
fn extension_counts_characters_not_bytes() {
    assert_eq!(extension("héllo.wörld"), "wörld");
    assert_eq!(extension("日本語.テキスト."), "テキスト");
}

#[test]
fn has_extension_compares_whole_extensions() {
    let python = lang(&["py", "pyi"], "#");
    assert!(has_extension(&python, &"py".to_string()));
    assert!(has_extension(&python, &"pyi".to_string()));
    assert!(!has_extension(&python, &"p".to_string()));
    assert!(!has_extension(&python, &"PY".to_string()));
    assert!(!has_extension(&LangConfig::default(), &"py".to_string()));
}

#[test]
fn find_lang_takes_the_last_profile_that_lists_the_extension() {
    let langs = vec![lang(&["h"], "//"), lang(&["h", "hpp"], "///"), lang(&["py"], "#")];
    let found = find_lang(langs, &"h".to_string(), true).expect("a profile lists h");
    assert_eq!(found.line_comments, vec!["///".to_string()]);
    assert!(found.keep_strings);
}

#[test]
fn find_lang_finds_nothing_for_an_unlisted_extension() {
    let langs = vec![lang(&["h"], "//"), lang(&["py"], "#")];
    assert!(find_lang(langs, &"rs".to_string(), false).is_none());
    assert!(find_lang(Vec::new(), &"rs".to_string(), false).is_none());
}

#[test]
fn copy_config_lets_the_command_line_decide() {
    let mut config = two_langs();
    let mut chosen = lang(&["rs"], "//");

    copy_config(&mut chosen, &config, &runtime(None, true, false));
    assert!(chosen.keep_strings);
    copy_config(&mut chosen, &config, &runtime(None, false, true));
    assert!(!chosen.keep_strings);
    copy_config(&mut chosen, &config, &runtime(None, true, true));
    assert!(chosen.keep_strings);

    copy_config(&mut chosen, &config, &runtime(None, false, false));
    assert!(!chosen.keep_strings);
    config.keep_strings = true;
    copy_config(&mut chosen, &config, &runtime(None, false, false));
    assert!(chosen.keep_strings);
    assert_eq!(chosen.line_comments, vec!["//".to_string()]);
    assert_eq!(chosen.extensions, vec!["rs".to_string()]);
}

#[test]
fn get_lang_config_matches_the_extension_in_lower_case() {
    let found = get_lang_config(two_langs(), &runtime(Some("Main.RS"), false, false))
        .expect("the rust profile lists rs");
    assert_eq!(found.line_comments, vec!["//".to_string()]);
    assert!(!found.keep_strings);

    let found = get_lang_config(two_langs(), &runtime(Some("stubs/os.PYI"), true, false))
        .expect("the python profile lists pyi");
    assert_eq!(found.line_comments, vec!["#".to_string()]);
    assert!(found.keep_strings);
}

#[test]
fn get_lang_config_prefers_the_profile_added_last() {
    let mut config = two_langs();
    config
        .langs
        .insert("rhai".to_string(), lang(&["rs", "rhai"], "///"));
    let found = get_lang_config(config, &runtime(Some("a.rs"), false, false))
        .expect("two profiles list rs");
    assert_eq!(found.line_comments, vec!["///".to_string()]);
}

#[test]
fn get_lang_config_without_a_match_is_none() {
    assert!(get_lang_config(two_langs(), &runtime(None, false, false)).is_none());
    assert!(get_lang_config(two_langs(), &runtime(Some("notes.txt"), false, false)).is_none());
    assert!(get_lang_config(two_langs(), &runtime(Some("rs.txt"), false, false)).is_none());
}

#[test]
fn get_lang_config_takes_keep_strings_from_the_configuration() {
    let mut config = two_langs();
    config.keep_strings = true;
    let found =
        get_lang_config(config, &runtime(Some("a.py"), false, false)).expect("python lists py");
    assert!(found.keep_strings);

    let mut config = two_langs();
    config.keep_strings = true;
    let found =
        get_lang_config(config, &runtime(Some("a.py"), false, true)).expect("python lists py");
    assert!(!found.keep_strings);
}

#[test]
fn merge_replaces_in_place_and_adds_last() {
    let mut other = IndexMap::new();
    other.insert("python".to_string(), lang(&["py"], "%"));
    other.insert("lua".to_string(), lang(&["lua"], "--"));
    let merged = two_langs().merge(Config {
        keep_strings: false,
        langs: other,
    });

    let names: Vec<&String> = merged.langs.keys().collect();
    assert_eq!(names, vec!["rust", "python", "lua"]);
    assert_eq!(merged.langs["rust"].line_comments, vec!["//".to_string()]);
    assert_eq!(merged.langs["python"].line_comments, vec!["%".to_string()]);
    assert_eq!(merged.langs["python"].extensions, vec!["py".to_string()]);
    assert_eq!(merged.langs["lua"].line_comments, vec!["--".to_string()]);
    assert!(!merged.keep_strings);
}

#[test]
fn merge_keeps_strings_if_either_side_does() {
    let empty = || Config {
        keep_strings: false,
        langs: IndexMap::new(),
    };
    let keeping = || Config {
        keep_strings: true,
        langs: IndexMap::new(),
    };
    assert!(!empty().merge(empty()).keep_strings);
    assert!(keeping().merge(empty()).keep_strings);
    assert!(empty().merge(keeping()).keep_strings);
    assert!(keeping().merge(keeping()).keep_strings);
    assert_eq!(two_langs().merge(empty()).langs.len(), 2);
    assert_eq!(empty().merge(two_langs()).langs.len(), 2);
}

#[test]
fn input_comes_from_the_file_named_or_else_from_stdin_if_asked() {
    let mut config = runtime(Some("a.rs"), false, false);
    assert_eq!(input_source(&config), InputSource::File);
    config.read = true;
    assert_eq!(input_source(&config), InputSource::File);

    let mut config = runtime(None, false, false);
    assert_eq!(input_source(&config), InputSource::Missing);
    config.read = true;
    assert_eq!(input_source(&config), InputSource::Stdin);
}

#[test]
fn extension_agrees_with_splitting_at_the_stops() {
    let names = [
        "a", ".", "..", "...", "a.", ".a", "a.b", "a..b", "a.b.", "a.b..", "a.b.c", "é.ü", "日本.語.",
        "no stop at all", ". ", " .",
    ];
    for name in names {
        assert_eq!(extension(name), name.split_terminator(".").last().unwrap());
    }
}
