use lizenz::config::default_languages;
use lizenz::config::Config;
use lizenz::config::CommentConfig;
use lizenz::config::CommentKind;
use lizenz::config::LicenseConfig;
use lizenz::engine::fix_outcome;
use lizenz::engine::verify_text;
use lizenz::engine::LizenzError;
use lizenz::extract::check_nodes;
use lizenz::extract::extract_comments;
use lizenz::extract::SyntaxNode;
use lizenz::registry::Registry;
use lizenz::synth::synthesize_header;

fn node(kind: &[u8], text: &[u8]) -> SyntaxNode {
    SyntaxNode { kind: kind.to_vec(), text: text.to_vec() }
}

fn rust_rules() -> Vec<CommentConfig> {
    default_languages()[1].1.comments.clone()
}

fn default_config(license: &[u8]) -> Config {
    Config {
        license: LicenseConfig { text: license.to_vec() },
        languages: default_languages(),
    }
}

#[test]
fn rust_line_comments_conform() {
    let license = b"Copyright 2025\nAll rights reserved".to_vec();
    let nodes = vec![
        node(b"line_comment", b"// Copyright 2025"),
        node(b"line_comment", b"// All rights reserved"),
    ];
    assert!(check_nodes(&nodes, &rust_rules(), &license));
}

#[test]
fn differing_comment_fails_conformance() {
    let license = b"Copyright 2025\nAll rights reserved".to_vec();
    let nodes = vec![node(b"line_comment", b"// Copyright 2024")];
    assert!(!check_nodes(&nodes, &rust_rules(), &license));
}

#[test]
fn extra_comment_lines_are_truncated_away() {
    let license = b"Copyright 2025".to_vec();
    let nodes = vec![
        node(b"line_comment", b"// Copyright 2025"),
        node(b"line_comment", b"// An unrelated note"),
    ];
    assert!(check_nodes(&nodes, &rust_rules(), &license));
}

#[test]
fn unmatched_node_kinds_contribute_nothing() {
    let license = b"Copyright 2025".to_vec();
    let nodes = vec![
        node(b"function_item", b"fn main() {}"),
        node(b"line_comment", b"// Copyright 2025"),
    ];
    let body = extract_comments(&nodes, &rust_rules());
    assert_eq!(body, b"Copyright 2025\n".to_vec());
}

#[test]
fn synthesizes_rust_header() {
    let license = b"Copyright 2025\nAll rights reserved".to_vec();
    let header = synthesize_header(&CommentKind::Single(b"//".to_vec()), &license);
    assert_eq!(header, b"// Copyright 2025\n// All rights reserved\n".to_vec());
}

#[test]
fn synthesizes_toml_header() {
    let header = synthesize_header(&CommentKind::Single(b"#".to_vec()), &b"SPDX: MIT".to_vec());
    assert_eq!(header, b"# SPDX: MIT\n".to_vec());
}

#[test]
fn synthesizes_empty_line_without_trailing_space() {
    let header = synthesize_header(&CommentKind::Single(b"//".to_vec()), &b"A\n\nC".to_vec());
    assert_eq!(header, b"// A\n//\n// C\n".to_vec());
}

#[test]
fn synthesizes_degenerate_multi_headers() {
    let kind = CommentKind::Multi {
        start: b"/*".to_vec(),
        end: b"*/".to_vec(),
        between: Some(b"*".to_vec()),
    };
    assert_eq!(synthesize_header(&kind, &Vec::new()), b"/*  */".to_vec());
    assert_eq!(synthesize_header(&kind, &b"One line".to_vec()), b"/* One line */".to_vec());
}

#[test]
fn synthesizes_multi_line_block() {
    let kind = CommentKind::Multi {
        start: b"/*".to_vec(),
        end: b"*/".to_vec(),
        between: Some(b"*".to_vec()),
    };
    assert_eq!(synthesize_header(&kind, &b"A\nB".to_vec()), b"/* A\n B */".to_vec());
    assert_eq!(synthesize_header(&kind, &b"A\nB\nC".to_vec()), b"/* A\n* B\n C */".to_vec());
}

#[test]
fn synthesizes_interior_without_between_token() {
    let kind = CommentKind::Multi { start: b"/*".to_vec(), end: b"*/".to_vec(), between: None };
    assert_eq!(synthesize_header(&kind, &b"A\nB\nC".to_vec()), b"/* A\n B\n C */".to_vec());
}

#[test]
fn round_trip_multi_blocks() {
    let rules = rust_rules();
    let kind = rules[0].comment_kind.clone();
    for license in [
        Vec::new(),
        b"One line".to_vec(),
        b"A\nB".to_vec(),
        b"A\nB\nC".to_vec(),
        b"A\n\nC\nD".to_vec(),
    ] {
        let header = synthesize_header(&kind, &license);
        let nodes = vec![node(b"block_comment", &header)];
        assert!(check_nodes(&nodes, &rules, &license));
    }
}

#[test]
fn round_trip_single_lines() {
    let rules = rust_rules();
    let kind = rules[1].comment_kind.clone();
    for license in [Vec::new(), b"One line".to_vec(), b"A\nB".to_vec(), b"A\n\nC".to_vec()] {
        let header = synthesize_header(&kind, &license);
        let nodes: Vec<SyntaxNode> = if header.is_empty() {
            Vec::new()
        } else {
            header
                .split(|b| *b == b'\n')
                .filter(|l| !(l.is_empty()))
                .map(|l| node(b"line_comment", l))
                .collect()
        };
        assert!(check_nodes(&nodes, &rules, &license));
    }
}

#[test]
fn fix_leaves_conforming_file_alone() {
    let license = b"Copyright 2025".to_vec();
    let nodes = vec![node(b"line_comment", b"// Copyright 2025")];
    let original = b"// Copyright 2025\nfn main() {}\n".to_vec();
    assert_eq!(fix_outcome(&rust_rules(), &license, &nodes, &original), Ok(None));
}

#[test]
fn fix_prepends_header_to_original() {
    let license = b"Copyright 2025\nAll rights reserved".to_vec();
    let original = b"fn main() {}\n".to_vec();
    let fixed = fix_outcome(&rust_rules(), &license, &Vec::new(), &original);
    assert_eq!(
        fixed,
        Ok(Some(b"// Copyright 2025\n// All rights reserved\nfn main() {}\n".to_vec()))
    );
}

#[test]
fn fix_twice_changes_nothing_more() {
    let license = b"Copyright 2025".to_vec();
    let original = b"fn main() {}\n".to_vec();
    let fixed = fix_outcome(&rust_rules(), &license, &Vec::new(), &original).unwrap().unwrap();
    let nodes = vec![node(b"line_comment", b"// Copyright 2025")];
    assert!(check_nodes(&nodes, &rust_rules(), &license));
    assert_eq!(fix_outcome(&rust_rules(), &license, &nodes, &fixed), Ok(None));
}

#[test]
fn fix_without_comment_rules_fails() {
    let license = b"Copyright 2025".to_vec();
    let fixed = fix_outcome(&Vec::new(), &license, &Vec::new(), &b"echo hi\n".to_vec());
    assert_eq!(fixed, Err(LizenzError::NoCommentSyntax));
}

#[test]
fn verify_unknown_extension_fails_fatally() {
    let config = default_config(b"Copyright 2025");
    let registry = Registry::new();
    let outcome = verify_text(&config, &registry, &b"data.xyz".to_vec(), &b"x\n".to_vec());
    assert_eq!(outcome, Err(LizenzError::UnresolvedLanguage));
}

#[test]
fn verify_without_loaded_grammar_fails() {
    let config = default_config(b"Copyright 2025");
    let registry = Registry::new();
    let outcome = verify_text(&config, &registry, &b"main.rs".to_vec(), &b"fn main() {}\n".to_vec());
    assert_eq!(outcome, Err(LizenzError::MissingGrammar));
}
