use lizenz::config::default_languages;
use lizenz::config::merge_languages;
use lizenz::config::select_rule;
use lizenz::config::CommentConfig;
use lizenz::config::CommentKind;
use lizenz::config::LanguageConfig;
use lizenz::engine::symbol_name;
use lizenz::registry::Registry;
use lizenz::resolve::resolve_language;
use lizenz::text::bytes_eq;
use lizenz::text::join_lines_exec;
use lizenz::text::split_lines_exec;
use lizenz::text::trim_bytes;

fn single_rule(tag: &[u8], prefix: &[u8], preferred: bool) -> CommentConfig {
    CommentConfig {
        tree_sitter_name: tag.to_vec(),
        comment_kind: CommentKind::Single(prefix.to_vec()),
        preferred,
    }
}

#[test]
fn defaults_hold_three_languages() {
    let defaults = default_languages();
    assert_eq!(defaults.len(), 3);
    assert_eq!(defaults[0].0, b"bash".to_vec());
    assert_eq!(defaults[0].1.file_endings, vec![b"*.sh".to_vec()]);
    assert!(defaults[0].1.comments.is_empty());
    assert_eq!(defaults[1].0, b"rust".to_vec());
    assert_eq!(defaults[1].1.file_endings, vec![b"*.rs".to_vec()]);
    assert_eq!(defaults[1].1.comments.len(), 2);
    assert_eq!(
        defaults[1].1.comments[0].comment_kind,
        CommentKind::Multi {
            start: b"/*".to_vec(),
            end: b"*/".to_vec(),
            between: Some(b"*".to_vec()),
        }
    );
    assert!(!defaults[1].1.comments[0].preferred);
    assert_eq!(defaults[1].1.comments[0].tree_sitter_name, b"block_comment".to_vec());
    assert_eq!(defaults[1].1.comments[1].comment_kind, CommentKind::Single(b"//".to_vec()));
    assert!(defaults[1].1.comments[1].preferred);
    assert_eq!(defaults[1].1.comments[1].tree_sitter_name, b"line_comment".to_vec());
    assert_eq!(defaults[2].0, b"toml".to_vec());
    assert_eq!(defaults[2].1.file_endings, vec![b"*.toml".to_vec()]);
    assert_eq!(defaults[2].1.comments.len(), 1);
    assert_eq!(defaults[2].1.comments[0].comment_kind, CommentKind::Single(b"#".to_vec()));
    assert_eq!(defaults[2].1.comments[0].tree_sitter_name, b"comment".to_vec());
}

#[test]
fn merge_keeps_user_entry_over_builtin() {
    let user = vec![(
        b"rust".to_vec(),
        LanguageConfig {
            file_endings: vec![b"*.rust".to_vec()],
            comments: vec![single_rule(b"line_comment", b"//", true)],
        },
    )];
    let merged = merge_languages(user, default_languages());
    assert_eq!(merged.len(), 3);
    assert_eq!(merged[0].0, b"rust".to_vec());
    assert_eq!(merged[0].1.file_endings, vec![b"*.rust".to_vec()]);
    assert_eq!(merged[1].0, b"bash".to_vec());
    assert_eq!(merged[2].0, b"toml".to_vec());
}

#[test]
fn merge_fills_all_missing_names() {
    let merged = merge_languages(Vec::new(), default_languages());
    assert_eq!(merged.len(), 3);
    assert_eq!(merged[0].0, b"bash".to_vec());
    assert_eq!(merged[1].0, b"rust".to_vec());
    assert_eq!(merged[2].0, b"toml".to_vec());
}

#[test]
fn resolve_picks_matching_language() {
    let languages = default_languages();
    assert_eq!(resolve_language(&languages, &b"main.rs".to_vec()), Some(1));
    assert_eq!(resolve_language(&languages, &b"script.sh".to_vec()), Some(0));
    assert_eq!(resolve_language(&languages, &b"Cargo.toml".to_vec()), Some(2));
}

#[test]
fn resolve_is_first_match_on_overlap() {
    let overlapping = vec![
        (
            b"first".to_vec(),
            LanguageConfig {
                file_endings: vec![b"*.rs".to_vec()],
                comments: vec![single_rule(b"line_comment", b"//", true)],
            },
        ),
        (
            b"second".to_vec(),
            LanguageConfig {
                file_endings: vec![b"*.rs".to_vec()],
                comments: vec![single_rule(b"comment", b"#", true)],
            },
        ),
    ];
    assert_eq!(resolve_language(&overlapping, &b"lib.rs".to_vec()), Some(0));
}

#[test]
fn resolve_rejects_unknown_ending() {
    let languages = default_languages();
    assert_eq!(resolve_language(&languages, &b"data.xyz".to_vec()), None);
}

#[test]
fn select_rule_prefers_marked_rule() {
    let defaults = default_languages();
    assert_eq!(select_rule(&defaults[1].1.comments), Some(1));
    assert_eq!(select_rule(&defaults[2].1.comments), Some(0));
    assert_eq!(select_rule(&defaults[0].1.comments), None);
    let unpreferred = vec![
        single_rule(b"line_comment", b"//", false),
        single_rule(b"comment", b"#", false),
    ];
    assert_eq!(select_rule(&unpreferred), Some(0));
}

#[test]
fn empty_registry_has_no_grammar() {
    let registry = Registry::new();
    assert!(registry.find(&b"rust".to_vec()).is_none());
}

#[test]
fn symbol_name_carries_fixed_prefix() {
    assert_eq!(symbol_name(&b"rust".to_vec()), b"tree_sitter_rust".to_vec());
    assert_eq!(symbol_name(&b"toml".to_vec()), b"tree_sitter_toml".to_vec());
}

#[test]
fn trim_drops_surrounding_whitespace() {
    assert_eq!(trim_bytes(&b"  spaced out \t\n".to_vec()), b"spaced out".to_vec());
    assert_eq!(trim_bytes(&b"\r\n".to_vec()), Vec::<u8>::new());
    assert_eq!(trim_bytes(&b"kept inner  space".to_vec()), b"kept inner  space".to_vec());
}

#[test]
fn split_lines_handles_crlf_and_final_newline() {
    let lines = split_lines_exec(&b"a\r\nb\nc".to_vec());
    assert_eq!(lines, vec![b"a".to_vec(), b"b".to_vec(), b"c".to_vec()]);
    let lines = split_lines_exec(&b"a\n\nb\n".to_vec());
    assert_eq!(lines, vec![b"a".to_vec(), Vec::new(), b"b".to_vec()]);
    assert_eq!(split_lines_exec(&Vec::new()), Vec::<Vec<u8>>::new());
}

#[test]
fn join_lines_inserts_single_newlines() {
    let joined = join_lines_exec(&vec![b"a".to_vec(), Vec::new(), b"b".to_vec()]);
    assert_eq!(joined, b"a\n\nb".to_vec());
    assert_eq!(join_lines_exec(&Vec::new()), Vec::<u8>::new());
}

#[test]
fn bytes_eq_compares_contents() {
    assert!(bytes_eq(&b"same".to_vec(), &b"same".to_vec()));
    assert!(!bytes_eq(&b"same".to_vec(), &b"other".to_vec()));
}
