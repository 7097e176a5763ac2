//! The verify and fix workflows: resolve the language, parse the file
//! with its grammar, compare the extracted comment body against the
//! license, and synthesize a replacement header when a fix is asked for.

use vstd::prelude::*;

use crate::config::Config;
use crate::config::CommentConfig;
use crate::config::is_chosen_rule;
use crate::extract::SyntaxNode;
use crate::extract::check_nodes;
use crate::extract::conformant;
use crate::registry::GrammarHandle;
use crate::registry::Registry;
use crate::resolve::lang_matches;
use crate::resolve::resolve_language;
use crate::resolve::resolved_language;
use crate::config::select_rule;
use crate::synth::synthesize_header;
use crate::synth::synthesized;
use crate::text::push_bytes;

verus! {

/// A fatal failure of the verify or fix workflow.
#[derive(Debug, Clone, Copy, PartialEq, Eq, Structural)]
pub enum LizenzError {
    /// The file name matches no configured language's glob patterns.
    UnresolvedLanguage,
    /// The language is configured but no grammar module was loaded for it.
    MissingGrammar,
    /// The external parser returned no syntax tree for the file.
    ParseFailure,
    /// A fix was requested but the language has no comment rules.
    NoCommentSyntax,
}

/// The symbol prefix a grammar module's constructor is named by.
pub open spec fn symbol_prefix() -> Seq<u8> {
    seq![116u8, 114u8, 101u8, 101u8, 95u8, 115u8, 105u8, 116u8, 116u8, 101u8, 114u8, 95u8]
}

/// The constructor symbol a grammar module must export for a language:
/// the fixed prefix followed by the language name.
pub fn symbol_name(language: &Vec<u8>) -> (r: Vec<u8>)
    ensures
        r@ == symbol_prefix() + language@,
{
    let mut r: Vec<u8> = Vec::new();
    r.push(116);
    r.push(114);
    r.push(101);
    r.push(101);
    r.push(95);
    r.push(115);
    r.push(105);
    r.push(116);
    r.push(116);
    r.push(101);
    r.push(114);
    r.push(95);
    proof {
        assert(r@ =~= symbol_prefix());
    }
    push_bytes(&mut r, language);
    r
}

/// Relies on tree_sitter::Parser::{new, set_language, parse},
/// tree_sitter::Language::new and tree_sitter::Node::{grammar_name,
/// byte_range, named_children}: parses `text` with the handle's grammar
/// and hands back the root's direct named children in source order, each
/// reduced to its node-type name and its exact source bytes; nothing
/// when the parser yields no tree or refuses the grammar.
#[verifier::external_body]
fn parse_top_level(handle: &GrammarHandle, text: &Vec<u8>) -> (r: Option<Vec<SyntaxNode>>) {
    let language = tree_sitter::Language::new(handle.language_fn);
    let mut parser = tree_sitter::Parser::new();
    parser.set_language(&language).ok()?;
    let tree = parser.parse(text.as_slice(), None)?;
    let root = tree.root_node();
    let mut cursor = root.walk();
    let mut nodes = Vec::new();
    for child in root.named_children(&mut cursor) {
        nodes.push(SyntaxNode {
            kind: child.grammar_name().as_bytes().to_vec(),
            text: text.get(child.byte_range()).unwrap_or(&[]).to_vec(),
        });
    }
    Some(nodes)
}

/// Verifies one file's text: resolves its language, parses it with the
/// loaded grammar and compares the extracted comment body against the
/// license. `Ok(true)` reports the parsed nodes conformant in the sense
/// of [`conformant`], as [`check_nodes`] decides it.
pub fn verify_text(config: &Config, registry: &Registry, file_name: &Vec<u8>, text: &Vec<u8>) -> (r:
    Result<bool, LizenzError>)
    ensures
        r == Err::<bool, LizenzError>(LizenzError::UnresolvedLanguage) <==> (forall|j: int|
            0 <= j < config.languages@.len() ==> !lang_matches(
                config.languages@[j].1,
                file_name@,
            )),
        r == Err::<bool, LizenzError>(LizenzError::MissingGrammar) <==> (exists|i: int|
            resolved_language(config.languages@, file_name@, i) && !registry.has_grammar(
                config.languages@[i].0@,
            )),
        r is Err ==> (r == Err::<bool, LizenzError>(LizenzError::UnresolvedLanguage) || r
            == Err::<bool, LizenzError>(LizenzError::MissingGrammar) || r == Err::<
            bool,
            LizenzError,
        >(LizenzError::ParseFailure)),
{
    let lang_index = match resolve_language(&config.languages, file_name) {
        Some(i) => i,
        None => {
            return Err(LizenzError::UnresolvedLanguage);
        },
    };
    let lang_name = &config.languages[lang_index].0;
    let handle = match registry.find(lang_name) {
        Some(h) => h,
        None => {
            return Err(LizenzError::MissingGrammar);
        },
    };
    let nodes = match parse_top_level(handle, text) {
        Some(n) => n,
        None => {
            return Err(LizenzError::ParseFailure);
        },
    };
    Ok(check_nodes(&nodes, &config.languages[lang_index].1.comments, &config.license.text))
}

/// Decides the fix for already parsed nodes: nothing to do when the file
/// conforms; otherwise the text is prepended with a header synthesized
/// under the chosen rule, and a language with no rules cannot be fixed.
pub fn fix_outcome(
    rules: &Vec<CommentConfig>,
    license: &Vec<u8>,
    nodes: &Vec<SyntaxNode>,
    original: &Vec<u8>,
) -> (r: Result<Option<Vec<u8>>, LizenzError>)
    ensures
        conformant(nodes@, rules@, license@) ==> r == Ok::<Option<Vec<u8>>, LizenzError>(None),
        !conformant(nodes@, rules@, license@) && rules@.len() == 0 ==> r == Err::<
            Option<Vec<u8>>,
            LizenzError,
        >(LizenzError::NoCommentSyntax),
        !conformant(nodes@, rules@, license@) && rules@.len() > 0 ==> (r matches Ok(Some(c))
            && exists|i: int|
            is_chosen_rule(rules@, i) && c@ == synthesized(
                rules@[i].comment_kind,
                license@,
            ) + original@),
{
    if check_nodes(nodes, rules, license) {
        return Ok(None);
    }
    let rule_index = match select_rule(rules) {
        Some(i) => i,
        None => {
            return Err(LizenzError::NoCommentSyntax);
        },
    };
    let mut fixed = synthesize_header(&rules[rule_index].comment_kind, license);
    push_bytes(&mut fixed, original);
    Ok(Some(fixed))
}

/// The fix workflow for one file's text: verifies it, and for a
/// non-conforming file yields the rewritten content, the synthesized
/// header followed by the unchanged original bytes.
pub fn fix_content(config: &Config, registry: &Registry, file_name: &Vec<u8>, text: &Vec<u8>) -> (r:
    Result<Option<Vec<u8>>, LizenzError>)
    ensures
        r == Err::<Option<Vec<u8>>, LizenzError>(LizenzError::UnresolvedLanguage) <==> (
        forall|j: int|
            0 <= j < config.languages@.len() ==> !lang_matches(
                config.languages@[j].1,
                file_name@,
            )),
        r == Err::<Option<Vec<u8>>, LizenzError>(LizenzError::MissingGrammar) <==> (exists|i: int|
            resolved_language(config.languages@, file_name@, i) && !registry.has_grammar(
                config.languages@[i].0@,
            )),
        r matches Err(e) && e == LizenzError::NoCommentSyntax ==> (exists|i: int|
            resolved_language(config.languages@, file_name@, i) && config.languages@[i].1.comments@.len()
                == 0),
        r matches Ok(Some(c)) ==> (exists|i: int, k: int|
            resolved_language(config.languages@, file_name@, i) && is_chosen_rule(
                config.languages@[i].1.comments@,
                k,
            ) && c@ == synthesized(
                config.languages@[i].1.comments@[k].comment_kind,
                config.license.text@,
            ) + text@),
{
    let lang_index = match resolve_language(&config.languages, file_name) {
        Some(i) => i,
        None => {
            return Err(LizenzError::UnresolvedLanguage);
        },
    };
    let lang_name = &config.languages[lang_index].0;
    let handle = match registry.find(lang_name) {
        Some(h) => h,
        None => {
            return Err(LizenzError::MissingGrammar);
        },
    };
    let nodes = match parse_top_level(handle, text) {
        Some(n) => n,
        None => {
            return Err(LizenzError::ParseFailure);
        },
    };
    fix_outcome(&config.languages[lang_index].1.comments, &config.license.text, &nodes, text)
}

} // verus!
