//! The lexical profile of a language: which tokens start comments, which
//! delimit strings, and which must never be read as either.

use indexmap::IndexMap;
use vstd::prelude::*;
use vstd::utf8::encode_utf8;

verus! {

/// What a `LangConfig` says, with every token as the bytes the scanner
/// looks for.
pub struct Profile {
    /// File extensions of the language.
    pub extensions: Seq<Seq<char>>,
    /// Tokens that start a comment which runs to the end of the line.
    pub line_comments: Seq<Seq<u8>>,
    /// Opening and closing token of each kind of multi-line comment.
    pub multiline_comments: Seq<(Seq<u8>, Seq<u8>)>,
    /// Delimiters of string literals.
    pub strings: Seq<Seq<u8>>,
    /// Tokens inside which no other token is recognised.
    pub blacklist: Seq<Seq<u8>>,
    /// Whether multi-line comments nest.
    pub nested_comments: bool,
    /// Whether string literals stay in the output.
    pub keep_strings: bool,
}

/// The bytes of each string of a list, in order.
pub open spec fn bytes_of(tokens: Seq<String>) -> Seq<Seq<u8>> {
    tokens.map_values(|t: String| encode_utf8(t@))
}

/// The bytes of each pair of strings of a list, in order.
pub open spec fn byte_pairs_of(pairs: Seq<(String, String)>) -> Seq<(Seq<u8>, Seq<u8>)> {
    pairs.map_values(|p: (String, String)| (encode_utf8(p.0@), encode_utf8(p.1@)))
}

/// The lexical profile of one language.
#[derive(Clone, Debug)]
pub struct LangConfig {
    /// A list of extensions that the language will match against; case-insensitive.
    pub extensions: Vec<String>,
    /// What should count as the starter token for a line comment.
    /// The token itself as well as anything that follows it on that line will be ignored.
    pub line_comments: Vec<String>,
    /// Pairs of multi-line comment openers/closers.
    pub multiline_comments: Vec<(String, String)>,
    /// Pairs of string starters/enders.
    pub strings: Vec<String>,
    /// Tokens which should be excluded from participating in other tokens.
    pub blacklist: Vec<String>,
    /// Whether or not to keep track of how many multi-line comments were opened.
    pub nested_comments: bool,
    /// Whether or not to keep strings around.
    pub keep_strings: bool,
}

impl View for LangConfig {
    type V = Profile;

    open spec fn view(&self) -> Profile {
        Profile {
            extensions: self.extensions@.map_values(|e: String| e@),
            line_comments: bytes_of(self.line_comments@),
            multiline_comments: byte_pairs_of(self.multiline_comments@),
            strings: bytes_of(self.strings@),
            blacklist: bytes_of(self.blacklist@),
            nested_comments: self.nested_comments,
            keep_strings: self.keep_strings,
        }
    }
}

impl Profile {
    /// The profile without any token: nothing is a comment, nothing a string.
    pub open spec fn empty() -> Profile {
        Profile {
            extensions: Seq::empty(),
            line_comments: Seq::empty(),
            multiline_comments: Seq::empty(),
            strings: Seq::empty(),
            blacklist: Seq::empty(),
            nested_comments: false,
            keep_strings: false,
        }
    }
}

impl Default for LangConfig {
    fn default() -> (r: LangConfig)
        ensures
            r@ == Profile::empty(),
    {
        let r = LangConfig {
            extensions: Vec::new(),
            line_comments: Vec::new(),
            multiline_comments: Vec::new(),
            strings: Vec::new(),
            blacklist: Vec::new(),
            nested_comments: false,
            keep_strings: false,
        };
        assert(r@.extensions == Seq::<Seq<char>>::empty());
        assert(r@.line_comments == Seq::<Seq<u8>>::empty());
        assert(r@.multiline_comments == Seq::<(Seq<u8>, Seq<u8>)>::empty());
        assert(r@.strings == Seq::<Seq<u8>>::empty());
        assert(r@.blacklist == Seq::<Seq<u8>>::empty());
        r
    }
}

impl LangConfig {
    /// Adds a token that starts a line comment.
    pub fn line_comment(self, comment: &str) -> (r: LangConfig)
        ensures
            r@ == (Profile {
                line_comments: self@.line_comments.push(encode_utf8(comment@)),
                ..self@
            }),
    {
        let mut config = self;
        config.line_comments.push(comment.to_owned());
        assert(config@.line_comments == self@.line_comments.push(encode_utf8(comment@)));
        config
    }

    /// Adds a kind of multi-line comment, given by its opening and its
    /// closing token.
    pub fn multiline_comment(self, start: &str, end: &str) -> (r: LangConfig)
        ensures
            r@ == (Profile {
                multiline_comments: self@.multiline_comments.push(
                    (encode_utf8(start@), encode_utf8(end@)),
                ),
                ..self@
            }),
    {
        let mut config = self;
        config.multiline_comments.push((start.to_owned(), end.to_owned()));
        assert(config@.multiline_comments == self@.multiline_comments.push(
            (encode_utf8(start@), encode_utf8(end@)),
        ));
        config
    }

    /// Adds a string delimiter.
    pub fn string(self, delimiter: &str) -> (r: LangConfig)
        ensures
            r@ == (Profile { strings: self@.strings.push(encode_utf8(delimiter@)), ..self@ }),
    {
        let mut config = self;
        config.strings.push(delimiter.to_owned());
        assert(config@.strings == self@.strings.push(encode_utf8(delimiter@)));
        config
    }

    /// Adds a token inside which no other token is recognised.
    pub fn blacklist(self, token: &str) -> (r: LangConfig)
        ensures
            r@ == (Profile { blacklist: self@.blacklist.push(encode_utf8(token@)), ..self@ }),
    {
        let mut config = self;
        config.blacklist.push(token.to_owned());
        assert(config@.blacklist == self@.blacklist.push(encode_utf8(token@)));
        config
    }

    /// Says whether multi-line comments nest.
    pub fn nested_comments(self, nested: bool) -> (r: LangConfig)
        ensures
            r@ == (Profile { nested_comments: nested, ..self@ }),
    {
        let mut config = self;
        config.nested_comments = nested;
        config
    }
}

/// The map that keeps the profiles of a configuration under the names of
/// their languages, in the order in which the names were first put in.
#[verifier::external_type_specification]
#[verifier::external_body]
#[verifier::reject_recursive_types(K)]
#[verifier::reject_recursive_types(V)]
#[verifier::reject_recursive_types(S)]
pub struct ExIndexMap<K, V, S>(IndexMap<K, V, S>);

/// What a map of profiles holds: each language's name with its profile, in
/// the order of the map.
pub uninterp spec fn lang_entries(langs: IndexMap<String, LangConfig>) -> Seq<(Seq<char>, LangConfig)>;

/// The place of the first entry under the name `name`, or the number of
/// entries where there is none.
pub open spec fn position_of(entries: Seq<(Seq<char>, LangConfig)>, name: Seq<char>) -> int
    decreases entries.len(),
{
    if entries.len() == 0 || entries.first().0 == name {
        0
    } else {
        1 + position_of(entries.drop_first(), name)
    }
}

/// The entries after `lang` has been put in under `name`: an entry under
/// that name keeps its place and gets the new profile; a new name goes last.
pub open spec fn with_entry(entries: Seq<(Seq<char>, LangConfig)>, name: Seq<char>, lang: LangConfig) -> Seq<(Seq<char>, LangConfig)> {
    let at = position_of(entries, name);
    if at < entries.len() {
        entries.update(at, (name, lang))
    } else {
        entries.push((name, lang))
    }
}

/// The entries after those of `more` have been put in one after the other.
pub open spec fn with_entries(entries: Seq<(Seq<char>, LangConfig)>, more: Seq<(Seq<char>, LangConfig)>) -> Seq<(Seq<char>, LangConfig)>
    decreases more.len(),
{
    if more.len() == 0 {
        entries
    } else {
        with_entry(with_entries(entries, more.drop_last()), more.last().0, more.last().1)
    }
}

/// `IndexMap::extend` with the entries of another map: each entry of `more`
/// is inserted in order. The contract repeats what the map documents of
/// `insert`: under a name that the map has, the profile is replaced and the
/// entry keeps its place; a new name is added last.
#[verifier::external_body]
fn extend_langs(langs: &mut IndexMap<String, LangConfig>, more: IndexMap<String, LangConfig>)
    ensures
        lang_entries(*final(langs)) == with_entries(lang_entries(*old(langs)), lang_entries(more)),
{
    langs.extend(more.into_iter());
}

/// `IndexMap::into_values`: the profiles of the map, in the order of the map.
#[verifier::external_body]
pub(crate) fn into_lang_values(langs: IndexMap<String, LangConfig>) -> (values: Vec<LangConfig>)
    ensures
        values@ == lang_entries(langs).map_values(|e: (Seq<char>, LangConfig)| e.1),
{
    langs.into_values().collect()
}

/// A configuration: the profiles of the languages, and whether strings are
/// kept unless the command line says otherwise.
#[derive(Debug)]
pub struct Config {
    pub keep_strings: bool,
    pub langs: IndexMap<String, LangConfig>,
}

/// What a `Config` says.
pub struct Settings {
    pub keep_strings: bool,
    pub langs: Seq<(Seq<char>, LangConfig)>,
}

impl View for Config {
    type V = Settings;

    open spec fn view(&self) -> Settings {
        Settings { keep_strings: self.keep_strings, langs: lang_entries(self.langs) }
    }
}

impl Config {
    /// Merges self with other, where the language configs of `other.langs`
    /// override those in `self`. Strings are kept if either says so.
    pub fn merge(self, other: Config) -> (merged: Config)
        ensures
            merged@ == (Settings {
                keep_strings: self.keep_strings || other.keep_strings,
                langs: with_entries(self@.langs, other@.langs),
            }),
    {
        let mut langs = self.langs;
        extend_langs(&mut langs, other.langs);
        Config { keep_strings: self.keep_strings || other.keep_strings, langs }
    }
}

/// What the command line asks for.
#[derive(Clone, Debug)]
pub struct RuntimeConfig {
    /// The name of the file to scan; its extension selects the language.
    pub filename: Option<String>,
    pub help: bool,
    /// When set and no file is named, the text is read from the standard input.
    pub read: bool,
    /// When set, strings will be kept in the output, whatever the configuration says.
    pub keep_strings: bool,
    /// When set, strings will be removed from the output, whatever the configuration says.
    pub remove_strings: bool,
}

} // verus!
