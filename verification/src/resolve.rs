//! Language resolution: maps a file name to the first configured
//! language with a matching glob pattern.

use vstd::prelude::*;

use crate::config::LanguageConfig;

verus! {

/// What `glob_match::glob_match` decides for a pattern and a file name;
/// a pure function of the two byte strings.
pub uninterp spec fn glob_matches(pattern: Seq<u8>, name: Seq<u8>) -> bool;

/// Relies on glob_match::glob_match: case-sensitive glob matching of a
/// file name against a pattern, a pure function of its two arguments.
/// A byte string that is not valid UTF-8 matches nothing.
#[verifier::external_body]
fn glob_match_bytes(pattern: &Vec<u8>, name: &Vec<u8>) -> (r: bool)
    ensures
        r == glob_matches(pattern@, name@),
{
    match (core::str::from_utf8(pattern), core::str::from_utf8(name)) {
        (Ok(p), Ok(n)) => glob_match::glob_match(p, n),
        _ => false,
    }
}

/// Some glob pattern of this language matches the file name.
pub open spec fn lang_matches(lang: LanguageConfig, name: Seq<u8>) -> bool {
    exists|g: int| 0 <= g < lang.file_endings@.len() && glob_matches(lang.file_endings@[g]@, name)
}

/// `i` is the language the file name resolves to: the first whose glob
/// pattern list holds a matching pattern.
pub open spec fn resolved_language(
    ls: Seq<(Vec<u8>, LanguageConfig)>,
    name: Seq<u8>,
    i: int,
) -> bool {
    &&& 0 <= i < ls.len()
    &&& lang_matches(ls[i].1, name)
    &&& forall|j: int| 0 <= j < i ==> !lang_matches(ls[j].1, name)
}

/// A file name matched by several languages' patterns still resolves to
/// exactly one descriptor: the first match is unique for a fixed
/// configuration ordering.
pub proof fn lemma_resolution_unique(
    ls: Seq<(Vec<u8>, LanguageConfig)>,
    name: Seq<u8>,
    i: int,
    j: int,
)
    requires
        resolved_language(ls, name, i),
        resolved_language(ls, name, j),
    ensures
        i == j,
{
    if i < j {
        assert(!lang_matches(ls[i].1, name));
    }
    if j < i {
        assert(!lang_matches(ls[j].1, name));
    }
}

fn matches_language(lang: &LanguageConfig, name: &Vec<u8>) -> (r: bool)
    ensures
        r == lang_matches(*lang, name@),
{
    let mut g: usize = 0;
    while g < lang.file_endings.len()
        invariant
            g <= lang.file_endings@.len(),
            forall|k: int| 0 <= k < g ==> !glob_matches(lang.file_endings@[k]@, name@),
        decreases lang.file_endings@.len() - g,
    {
        if glob_match_bytes(&lang.file_endings[g], name) {
            return true;
        }
        g += 1;
    }
    false
}

/// Resolves a file name to the first language with a matching glob
/// pattern; none exactly when no configured pattern matches.
pub fn resolve_language(languages: &Vec<(Vec<u8>, LanguageConfig)>, file_name: &Vec<u8>) -> (r:
    Option<usize>)
    ensures
        match r {
            Some(i) => resolved_language(languages@, file_name@, i as int),
            None => forall|j: int|
                0 <= j < languages@.len() ==> !lang_matches(languages@[j].1, file_name@),
        },
{
    let mut i: usize = 0;
    while i < languages.len()
        invariant
            i <= languages@.len(),
            forall|j: int| 0 <= j < i ==> !lang_matches(languages@[j].1, file_name@),
        decreases languages@.len() - i,
    {
        if matches_language(&languages[i].1, file_name) {
            return Some(i);
        }
        i += 1;
    }
    None
}

} // verus!
