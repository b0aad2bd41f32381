//! The plugin's configuration, as Zellij hands it over: a map of strings.
use crate::text::{chars_of, concat, has_prefix, string_of};
use std::collections::BTreeMap;
use vstd::prelude::*;

verus! {

pub const DEFAULT_ICON: &'static str = "📝";

pub const MISSING_NOTES_DIR: &'static str = "tab-notes: missing required plugin configuration `notes_dir`";

pub const RELATIVE_NOTES_DIR_HEAD: &'static str = "tab-notes: `notes_dir` must be an absolute path (got `";

pub const RELATIVE_NOTES_DIR_TAIL: &'static str =
    "`). Commands run without a shell, so `~` is not expanded.";

#[derive(Debug, Clone)]
pub struct Config {
    /// The directory under which each session keeps its notes; always absolute.
    pub notes_dir: String,
    pub icon: String,
}

/// The value stored under the key whose text is `key`, if there is one.
pub open spec fn entry_of(m: Map<String, String>, key: Seq<char>) -> Option<Seq<char>> {
    if exists|k: String| m.contains_key(k) && k@ == key {
        Some(m[choose|k: String| m.contains_key(k) && k@ == key]@)
    } else {
        None
    }
}

/// `BTreeMap::get`, looked up with a `&str`. The map orders and compares its `String`
/// keys by their text, so at most one key has the text of `key`; the call returns that
/// key's value, or `None` when no key has that text.
#[verifier::external_body]
fn lookup<'a>(m: &'a BTreeMap<String, String>, key: &str) -> (r: Option<&'a String>)
    ensures
        match r {
            Some(v) => entry_of(m@, key@) == Some(v@),
            None => entry_of(m@, key@) is None,
        },
{
    m.get(key)
}

/// What `Config::from_map` gives for a configuration map.
pub open spec fn config_from(m: Map<String, String>) -> Result<(Seq<char>, Seq<char>), Seq<char>> {
    match entry_of(m, "notes_dir"@) {
        None => Err(MISSING_NOTES_DIR@),
        Some(dir) => if has_prefix(dir, seq!['/']) {
            Ok(
                (
                    dir,
                    match entry_of(m, "icon"@) {
                        Some(icon) => icon,
                        None => DEFAULT_ICON@,
                    },
                ),
            )
        } else {
            Err(RELATIVE_NOTES_DIR_HEAD@ + dir + RELATIVE_NOTES_DIR_TAIL@)
        },
    }
}

impl Config {
    /// Reads `notes_dir` (required, absolute) and `icon` (optional) from the map.
    pub fn from_map(configuration: &BTreeMap<String, String>) -> (r: Result<Config, String>)
        ensures
            match (r, config_from(configuration@)) {
                (Ok(c), Ok((dir, icon))) => c.notes_dir@ == dir && c.icon@ == icon,
                (Err(e), Err(msg)) => e@ == msg,
                _ => false,
            },
    {
        let notes_dir = match lookup(configuration, "notes_dir") {
            Some(d) => d,
            None => {
                return Err(string_of(&chars_of(MISSING_NOTES_DIR)));
            },
        };
        let dir = chars_of(notes_dir.as_str());
        if !(dir.len() > 0 && dir[0] == '/') {
            proof {
                if has_prefix(dir@, seq!['/']) {
                    assert(dir@.take(1)[0] == dir@[0]);
                }
            }
            let head = concat(&chars_of(RELATIVE_NOTES_DIR_HEAD), &dir);
            let all = concat(&head, &chars_of(RELATIVE_NOTES_DIR_TAIL));
            return Err(string_of(&all));
        }
        assert(dir@.take(1) =~= seq!['/']);
        let icon = match lookup(configuration, "icon") {
            Some(i) => i.clone(),
            None => DEFAULT_ICON.to_owned(),
        };
        Ok(Config { notes_dir: notes_dir.clone(), icon })
    }
}

/// Every `notes_dir` that begins with `/` is accepted as it is, whatever follows the
/// slash (a trailing one included), with the configured icon or else the default one;
/// a `notes_dir` that does not begin with `/`, the empty one included, is refused with a
/// message that quotes it; a missing one is refused.
pub proof fn lemma_absolute_notes_dirs_are_accepted(m: Map<String, String>)
    ensures
        match entry_of(m, "notes_dir"@) {
            Some(d) => if d.len() > 0 && d[0] == '/' {
                config_from(m) == Ok::<(Seq<char>, Seq<char>), Seq<char>>(
                    (
                        d,
                        match entry_of(m, "icon"@) {
                            Some(icon) => icon,
                            None => DEFAULT_ICON@,
                        },
                    ),
                )
            } else {
                config_from(m) == Err::<(Seq<char>, Seq<char>), Seq<char>>(
                    RELATIVE_NOTES_DIR_HEAD@ + d + RELATIVE_NOTES_DIR_TAIL@,
                )
            },
            None => config_from(m) == Err::<(Seq<char>, Seq<char>), Seq<char>>(
                MISSING_NOTES_DIR@,
            ),
        },
{
    if let Some(d) = entry_of(m, "notes_dir"@) {
        if d.len() > 0 && d[0] == '/' {
            assert(d.take(1) =~= seq!['/']);
        } else if has_prefix(d, seq!['/']) {
            assert(d.take(1)[0] == d[0]);
        }
    }
}

} // verus!
