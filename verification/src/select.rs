//! Choosing the profile for a file: by the extension of its name, with the
//! command line's say on whether strings are kept.

use vstd::prelude::*;
use vstd::string::*;
use crate::config::{into_lang_values, lang_entries, Config, LangConfig, RuntimeConfig};

verus! {

/// The name without a full stop at its end.
pub open spec fn without_final_stop(name: Seq<char>) -> Seq<char> {
    if name.len() > 0 && name.last() == '.' {
        name.drop_last()
    } else {
        name
    }
}

/// What stands behind the last full stop of `name`; all of `name` where it
/// has none.
pub open spec fn last_piece(name: Seq<char>) -> Seq<char>
    decreases name.len(),
{
    if name.len() == 0 || name.last() == '.' {
        Seq::empty()
    } else {
        last_piece(name.drop_last()).push(name.last())
    }
}

/// The extension of a file name: what stands behind its last full stop, a
/// full stop at the very end of the name not counted.
pub open spec fn extension_of(name: Seq<char>) -> Seq<char> {
    last_piece(without_final_stop(name))
}

/// The lower-case form of a text.
pub uninterp spec fn lowercase(text: Seq<char>) -> Seq<char>;

/// `str::to_lowercase`: the lower-case form of the text, as the standard
/// library defines it for every text.
#[verifier::external_body]
fn to_lowercase(text: &str) -> (lower: String)
    ensures
        lower@ == lowercase(text@),
{
    text.to_lowercase()
}

/// Whether strings are kept: the command line decides where it says
/// anything, keeping before removing; else the configuration does.
pub open spec fn keeps_strings(config_keeps: bool, runtime_config: RuntimeConfig) -> bool {
    if runtime_config.keep_strings {
        true
    } else if runtime_config.remove_strings {
        false
    } else {
        config_keeps
    }
}

/// The place of the last profile that lists the extension, or -1 where none
/// does.
pub open spec fn last_with_extension(langs: Seq<LangConfig>, extension: Seq<char>) -> int
    decreases langs.len(),
{
    if langs.len() == 0 {
        -1
    } else if langs.last()@.extensions.contains(extension) {
        langs.len() - 1
    } else {
        last_with_extension(langs.drop_last(), extension)
    }
}

/// The profile chosen among `langs` for an extension: the last one that
/// lists it, with `keep_strings` as given.
pub open spec fn chosen(langs: Seq<LangConfig>, extension: Seq<char>, keep_strings: bool) -> Option<LangConfig> {
    let at = last_with_extension(langs, extension);
    if at < 0 {
        None
    } else {
        Some(LangConfig { keep_strings, ..langs[at] })
    }
}

/// The profiles of a configuration, in its order.
pub open spec fn profiles_of(config: Config) -> Seq<LangConfig> {
    lang_entries(config.langs).map_values(|e: (Seq<char>, LangConfig)| e.1)
}

/// What stands behind the last full stop of a name is the end of the name
/// from the place `from` on, where a full stop stands just before that place
/// and none behind it.
pub proof fn lemma_last_piece(name: Seq<char>, from: int)
    requires
        0 <= from <= name.len(),
        forall|k: int| from <= k < name.len() ==> name[k] != '.',
        from > 0 ==> name[from - 1] == '.',
    ensures
        last_piece(name) == name.subrange(from, name.len() as int),
    decreases name.len(),
{
    if name.len() == from {
        assert(name.subrange(from, name.len() as int) =~= Seq::<char>::empty());
    } else {
        let init = name.drop_last();
        assert forall|k: int| from <= k < init.len() implies init[k] != '.' by {
            assert(init[k] == name[k]);
        }
        if from > 0 {
            assert(init[from - 1] == name[from - 1]);
        }
        lemma_last_piece(init, from);
        assert(init.subrange(from, init.len() as int).push(name.last()) =~= name.subrange(
            from,
            name.len() as int,
        ));
    }
}

/// The extension of a file name.
pub fn extension(filename: &str) -> (ext: &str)
    requires
        filename@.len() > 0,
    ensures
        ext@ == extension_of(filename@),
{
    let len = filename.unicode_len();
    let end: usize = if filename.get_char(len - 1) == '.' { len - 1 } else { len };
    let ghost name = filename@.subrange(0, end as int);
    assert(name =~= without_final_stop(filename@));
    let mut from: usize = end;
    while from > 0 && filename.get_char(from - 1) != '.'
        invariant
            from <= end <= filename@.len(),
            forall|k: int| from <= k < end ==> filename@[k] != '.',
        decreases from,
    {
        from -= 1;
    }
    proof {
        lemma_last_piece(name, from as int);
        assert(name.subrange(from as int, end as int) =~= filename@.subrange(
            from as int,
            end as int,
        ));
    }
    filename.substring_char(from, end)
}

/// Whether the profile lists the extension.
pub fn has_extension(lang: &LangConfig, extension: &String) -> (found: bool)
    ensures
        found == lang@.extensions.contains(extension@),
{
    let mut i: usize = 0;
    while i < lang.extensions.len()
        invariant
            i <= lang.extensions.len(),
            forall|k: int| 0 <= k < i ==> lang@.extensions[k] != extension@,
        decreases lang.extensions.len() - i,
    {
        if lang.extensions[i] == *extension {
            assert(lang@.extensions[i as int] == extension@);
            return true;
        }
        i += 1;
    }
    false
}

/// Chooses among the profiles the last one that lists the extension, and
/// sets in it whether strings are kept.
pub fn find_lang(langs: Vec<LangConfig>, extension: &String, keep_strings: bool) -> (found: Option<LangConfig>)
    ensures
        found == chosen(langs@, extension@, keep_strings),
{
    let mut rest = langs;
    loop
        invariant
            rest@.len() <= langs@.len(),
            rest@ == langs@.take(rest@.len() as int),
            last_with_extension(langs@, extension@) == last_with_extension(rest@, extension@),
        decreases rest@.len(),
    {
        let ghost before = rest@;
        match rest.pop() {
            None => {
                return None;
            },
            Some(lang) => {
                assert(rest@ =~= before.drop_last());
                assert(rest@ =~= langs@.take(rest@.len() as int));
                assert(lang == before.last());
                assert(langs@[before.len() - 1] == before.last());
                if has_extension(&lang, extension) {
                    let mut lang = lang;
                    lang.keep_strings = keep_strings;
                    return Some(lang);
                }
            },
        }
    }
}

/// Where the text to scan comes from.
#[derive(Clone, Copy, Debug, PartialEq, Eq, Structural)]
pub enum InputSource {
    /// The file named on the command line.
    File,
    /// The standard input.
    Stdin,
    /// Nowhere: no file is named and the standard input was not asked for.
    Missing,
}

/// Where the text to scan comes from: the file named on the command line
/// or, without one, the standard input if it was asked for.
pub fn input_source(runtime_config: &RuntimeConfig) -> (source: InputSource)
    ensures
        source == if runtime_config.filename is Some {
            InputSource::File
        } else if runtime_config.read {
            InputSource::Stdin
        } else {
            InputSource::Missing
        },
{
    if runtime_config.filename.is_some() {
        InputSource::File
    } else if runtime_config.read {
        InputSource::Stdin
    } else {
        InputSource::Missing
    }
}

/// Sets in the profile whether strings are kept: as the command line says
/// or, where it says nothing, as the configuration says.
pub fn copy_config(lang_config: &mut LangConfig, config: &Config, runtime_config: &RuntimeConfig)
    ensures
        *final(lang_config) == (LangConfig {
            keep_strings: keeps_strings(config.keep_strings, *runtime_config),
            ..*old(lang_config)
        }),
{
    if runtime_config.keep_strings {
        lang_config.keep_strings = true;
    } else if runtime_config.remove_strings {
        lang_config.keep_strings = false;
    } else {
        lang_config.keep_strings = config.keep_strings;
    }
}

/// Chooses the profile for the file named on the command line: the last
/// profile of the configuration that lists the lower-case form of the
/// file's extension. Without a file name, or where no profile lists the
/// extension, there is none.
pub fn get_lang_config(config: Config, runtime_config: &RuntimeConfig) -> (found: Option<LangConfig>)
    requires
        runtime_config.filename matches Some(name) ==> name@.len() > 0,
    ensures
        found == match runtime_config.filename {
            None => None,
            Some(name) => chosen(
                profiles_of(config),
                lowercase(extension_of(name@)),
                keeps_strings(config.keep_strings, *runtime_config),
            ),
        },
{
    match &runtime_config.filename {
        None => None,
        Some(filename) => {
            let wanted = to_lowercase(extension(filename.as_str()));
            let keep_strings = if runtime_config.keep_strings {
                true
            } else if runtime_config.remove_strings {
                false
            } else {
                config.keep_strings
            };
            find_lang(into_lang_values(config.langs), &wanted, keep_strings)
        },
    }
}

} // verus!
