//! Display-language selection and message translation. The active language
//! and the Brazilian-Portuguese catalog are held in an explicit `I18n` value.

use vstd::prelude::*;
use crate::unicode::chars_of;
use crate::textutil::{chars_eq, owned};

verus! {

/// The message catalog: pairs of (English message, translation).
#[derive(Debug, Clone)]
pub struct Catalog {
    pub entries: Vec<(String, String)>,
}

/// The active display language and the catalog used when it is `pt_BR`.
#[derive(Debug)]
pub struct I18n {
    pub language: String,
    pub catalog: Catalog,
}

pub open spec fn en() -> Seq<char> {
    seq!['e', 'n']
}

pub open spec fn pt_br() -> Seq<char> {
    seq!['p', 't', '_', 'B', 'R']
}

/// The part of a locale before its first `.` (the encoding suffix is dropped).
pub open spec fn before_dot(s: Seq<char>) -> Seq<char>
    decreases s.len(),
{
    if s.len() == 0 {
        s
    } else if before_dot(s.drop_last()).len() < s.len() - 1 {
        before_dot(s.drop_last())
    } else if s.last() == '.' {
        s.drop_last()
    } else {
        s
    }
}

/// The supported language a locale names (`en` or `pt_BR`, the encoding
/// suffix dropped), if any.
pub open spec fn supported_code(raw: Seq<char>) -> Option<Seq<char>> {
    if before_dot(raw) == pt_br() {
        Some(pt_br())
    } else if before_dot(raw) == en() {
        Some(en())
    } else {
        None
    }
}

/// Language precedence: the environment value, then the stored value, then `en`.
/// Empty and unsupported values fall through to the next source.
pub open spec fn resolved_language(env: Option<Seq<char>>, db: Option<Seq<char>>) -> Seq<char> {
    match source_code(env) {
        Some(c) => c,
        None => match source_code(db) {
            Some(c) => c,
            None => en(),
        },
    }
}

/// The supported language a source gives: none when it is absent, empty or
/// unsupported.
pub open spec fn source_code(v: Option<Seq<char>>) -> Option<Seq<char>> {
    match v {
        Some(s) => if s.len() > 0 { supported_code(s) } else { None },
        None => None,
    }
}

/// A supported environment value decides the language whatever is stored;
/// otherwise a supported stored value does; otherwise the language is `en`.
/// The result is always a supported language.
pub proof fn law_language_precedence(env: Option<Seq<char>>, db: Option<Seq<char>>)
    ensures
        source_code(env) is Some ==> resolved_language(env, db) == source_code(env)->0,
        source_code(env) is None && source_code(db) is Some ==> resolved_language(env, db) == source_code(db)->0,
        resolved_language(env, db) == en() || resolved_language(env, db) == pt_br(),
        resolved_language(None, db) == resolved_language(Some(Seq::<char>::empty()), db),
{
}

/// The language in effect: the stored one, `en` when none is stored.
pub open spec fn effective_language(stored: Seq<char>) -> Seq<char> {
    if stored.len() == 0 { en() } else { stored }
}

/// The translation of `key` in `entries`: the first matching entry's value.
pub open spec fn lookup(entries: Seq<(String, String)>, key: Seq<char>) -> Option<Seq<char>>
    decreases entries.len(),
{
    if entries.len() == 0 {
        None
    } else if entries[0].0@ == key {
        Some(entries[0].1@)
    } else {
        lookup(entries.drop_first(), key)
    }
}

/// What `t` gives for `s`: under `pt_BR` the catalog translation, or `s` itself
/// when the catalog has none; under any other language `s` unchanged.
pub open spec fn translated(lang: Seq<char>, entries: Seq<(String, String)>, s: Seq<char>) -> Seq<char> {
    if effective_language(lang) == pt_br() {
        match lookup(entries, s) {
            Some(v) => v,
            None => s,
        }
    } else {
        s
    }
}

fn pt_br_chars() -> (r: Vec<char>)
    ensures
        r@ == pt_br(),
{
    let v: Vec<char> = vec!['p', 't', '_', 'B', 'R'];
    proof { assert(v@ =~= pt_br()); }
    v
}

fn before_dot_exec(raw: &Vec<char>) -> (r: Vec<char>)
    ensures
        r@ == before_dot(raw@),
{
    let mut out: Vec<char> = Vec::new();
    let mut i: usize = 0;
    let mut found = false;
    while i < raw.len()
        invariant
            i <= raw@.len(),
            out@ == before_dot(raw@.subrange(0, i as int)),
            found == (before_dot(raw@.subrange(0, i as int)).len() < i),
            !found ==> out@ == raw@.subrange(0, i as int),
        decreases raw.len() - i,
    {
        proof {
            let p = raw@.subrange(0, i + 1);
            assert(p.drop_last() =~= raw@.subrange(0, i as int));
        }
        if !found {
            if raw[i] == '.' {
                found = true;
            } else {
                out.push(raw[i]);
            }
        }
        i += 1;
        proof {
            if !found {
                assert(out@ =~= raw@.subrange(0, i as int));
            }
        }
    }
    proof {
        assert(raw@.subrange(0, raw@.len() as int) =~= raw@);
    }
    out
}

fn supported_code_exec(raw: &str) -> (r: Option<String>)
    ensures
        match r {
            Some(c) => supported_code(raw@) == Some(c@),
            None => supported_code(raw@) is None,
        },
{
    let cs = chars_of(raw);
    let head = before_dot_exec(&cs);
    let pt = pt_br_chars();
    if chars_eq(&head, &pt) {
        return Some(pt_br_string());
    }
    let en_cs: Vec<char> = vec!['e', 'n'];
    proof { assert(en_cs@ =~= en()); }
    if chars_eq(&head, &en_cs) {
        return Some(en_string());
    }
    None
}

fn pt_br_string() -> (r: String)
    ensures
        r@ == pt_br(),
{
    let v = pt_br_chars();
    crate::unicode::string_of(v.as_slice())
}

fn en_string() -> (r: String)
    ensures
        r@ == en(),
{
    let v: Vec<char> = vec!['e', 'n'];
    proof { assert(v@ =~= en()); }
    crate::unicode::string_of(v.as_slice())
}

pub open spec fn opt_view(o: Option<&str>) -> Option<Seq<char>> {
    match o {
        Some(s) => Some(s@),
        None => None,
    }
}

/// The active language from the environment value and the stored setting:
/// the first non-empty one (environment first) that names a supported
/// language (`en` or `pt_BR`, encoding suffix dropped), else `en`.
pub fn resolve_language(env_value: Option<&str>, db_value: Option<&str>) -> (r: String)
    ensures
        r@ == resolved_language(opt_view(env_value), opt_view(db_value)),
{
    if let Some(e) = env_value {
        if !e.is_empty() {
            if let Some(code) = supported_code_exec(e) {
                return code;
            }
        }
    }
    if let Some(d) = db_value {
        if !d.is_empty() {
            if let Some(code) = supported_code_exec(d) {
                return code;
            }
        }
    }
    en_string()
}

/// Sets the display language.
pub fn set_language(state: &mut I18n, lang: &str)
    ensures
        final(state).language@ == lang@,
        final(state).catalog == old(state).catalog,
{
    state.language = owned(lang);
}

/// The display language in effect (`en` when none was set).
pub fn current_language(state: &I18n) -> (r: String)
    ensures
        r@ == effective_language(state.language@),
{
    if state.language.as_str().is_empty() {
        en_string()
    } else {
        state.language.clone()
    }
}

/// Translates a message under the active language.
pub fn t(state: &I18n, s: &str) -> (r: String)
    ensures
        r@ == translated(state.language@, state.catalog.entries@, s@),
{
    let lang = current_language(state);
    let lc = chars_of(lang.as_str());
    let pt = pt_br_chars();
    if !chars_eq(&lc, &pt) {
        return owned(s);
    }
    let key = chars_of(s);
    let entries = &state.catalog.entries;
    let mut i: usize = 0;
    proof {
        assert(entries@.subrange(0, entries@.len() as int) =~= entries@);
    }
    while i < entries.len()
        invariant
            i <= entries@.len(),
            key@ == s@,
            effective_language(state.language@) == pt_br(),
            entries == state.catalog.entries,
            lookup(entries@, s@) == lookup(entries@.subrange(i as int, entries@.len() as int), s@),
        decreases entries.len() - i,
    {
        let k = chars_of(entries[i].0.as_str());
        proof {
            let rest = entries@.subrange(i as int, entries@.len() as int);
            assert(rest[0] == entries@[i as int]);
            assert(rest.drop_first() =~= entries@.subrange(i + 1, entries@.len() as int));
        }
        if chars_eq(&k, &key) {
            let v = entries[i].1.clone();
            proof {
                let rest = entries@.subrange(i as int, entries@.len() as int);
                assert(rest[0].0@ == s@);
                assert(lookup(rest, s@) == Some(rest[0].1@));
            }
            return v;
        }
        i += 1;
    }
    owned(s)
}

/// After `set_language(state, lang)` (which leaves `state.language@ == lang`),
/// `current_language` gives the language set, or `en` when the empty string
/// was set.
pub proof fn law_set_then_current(state: I18n, lang: Seq<char>)
    requires
        state.language@ == lang,
    ensures
        effective_language(state.language@) == (if lang.len() == 0 { en() } else { lang }),
{
}

/// Under any language other than `pt_BR`, translation is the identity.
pub proof fn law_translation_identity_off_pt_br(lang: Seq<char>, entries: Seq<(String, String)>, s: Seq<char>)
    requires
        effective_language(lang) != pt_br(),
    ensures
        translated(lang, entries, s) == s,
{
}

} // verus!
