//! Comment extraction: reconstructs a normalized comment body from the
//! top-level named nodes of a parsed file, truncates it to the license's
//! line count, and compares it against the license text.

use vstd::prelude::*;

use crate::config::CommentConfig;
use crate::config::CommentKind;
use crate::config::opt_view;
use crate::text::bytes_eq;
use crate::text::join_lines;
use crate::text::join_lines_exec;
use crate::text::line_views;
use crate::text::push_bytes;
use crate::text::split_lines;
use crate::text::split_lines_exec;
use crate::text::strip_prefix;
use crate::text::strip_prefix_once;
use crate::text::strip_suffix;
use crate::text::strip_suffix_once;
use crate::text::trim;
use crate::text::trim_bytes;

verus! {

/// One top-level named node of a parsed file, reduced to the plain values
/// the extractor reads: the grammar's node-type name and the node's exact
/// source text.
#[derive(Debug, Clone, PartialEq, Eq)]
pub struct SyntaxNode {
    pub kind: Vec<u8>,
    pub text: Vec<u8>,
}

/// Index of the first rule whose grammar tag is `tag`, if any.
pub open spec fn first_match(rules: Seq<CommentConfig>, tag: Seq<u8>) -> Option<int>
    decreases rules.len(),
{
    if rules.len() == 0 {
        None
    } else if rules[0].tree_sitter_name@ == tag {
        Some(0int)
    } else {
        match first_match(rules.skip(1), tag) {
            Some(i) => Some(i + 1),
            None => None,
        }
    }
}

proof fn lemma_first_match_at(rules: Seq<CommentConfig>, tag: Seq<u8>, i: int)
    requires
        0 <= i <= rules.len(),
        forall|k: int| 0 <= k < i ==> rules[k].tree_sitter_name@ != tag,
        i < rules.len() ==> rules[i].tree_sitter_name@ == tag,
    ensures
        i < rules.len() ==> first_match(rules, tag) == Some(i),
        i == rules.len() ==> first_match(rules, tag) is None,
    decreases i,
{
    if i == 0 {
    } else {
        assert(rules[0].tree_sitter_name@ != tag);
        lemma_first_match_at(rules.skip(1), tag, i - 1);
    }
}

/// A single-line comment cleaned: the prefix stripped once, then trimmed.
pub open spec fn cleaned_single(text: Seq<u8>, prefix: Seq<u8>) -> Seq<u8> {
    trim(strip_prefix_once(text, prefix))
}

/// Each line cleaned of the `between` token and surrounding whitespace.
pub open spec fn clean_lines(ls: Seq<Seq<u8>>, between: Seq<u8>) -> Seq<Seq<u8>> {
    ls.map_values(|l: Seq<u8>| trim(strip_prefix_once(l, between)))
}

/// A multi-line comment cleaned: start and end tokens stripped once from
/// the whole text, then every line cleaned of the `between` token.
pub open spec fn cleaned_multi(text: Seq<u8>, start: Seq<u8>, end: Seq<u8>, between: Seq<u8>) -> Seq<
    Seq<u8>,
> {
    clean_lines(split_lines(strip_suffix_once(strip_prefix_once(text, start), end)), between)
}

/// What one node adds to the running comment body: nothing unless some
/// rule's tag names it; a cleaned line plus a line feed under the first
/// matching single-line rule; the cleaned lines joined under a
/// multi-line rule.
pub open spec fn contribution(node: SyntaxNode, rules: Seq<CommentConfig>) -> Seq<u8> {
    match first_match(rules, node.kind@) {
        None => Seq::empty(),
        Some(i) => match rules[i].comment_kind {
            CommentKind::Single(p) => cleaned_single(node.text@, p@).push(10u8),
            CommentKind::Multi { start, end, between } => join_lines(
                cleaned_multi(
                    node.text@,
                    start@,
                    end@,
                    match opt_view(between) {
                        Some(b) => b,
                        None => Seq::empty(),
                    },
                ),
            ),
        },
    }
}

/// The comment body accumulated over all nodes in document order.
pub open spec fn extracted_body(nodes: Seq<SyntaxNode>, rules: Seq<CommentConfig>) -> Seq<u8>
    decreases nodes.len(),
{
    if nodes.len() == 0 {
        Seq::empty()
    } else {
        extracted_body(nodes.drop_last(), rules) + contribution(nodes.last(), rules)
    }
}

/// The body cut to its first `n` lines and joined back with line feeds.
pub open spec fn truncated(body: Seq<u8>, n: int) -> Seq<u8> {
    let ls = split_lines(body);
    if n <= ls.len() {
        join_lines(ls.take(n))
    } else {
        join_lines(ls)
    }
}

/// The file conforms: its extracted comment body, truncated to the
/// license's line count, equals the license text after both are trimmed.
pub open spec fn conformant(nodes: Seq<SyntaxNode>, rules: Seq<CommentConfig>, license: Seq<u8>) -> bool {
    trim(truncated(extracted_body(nodes, rules), split_lines(license).len() as int)) == trim(
        license,
    )
}

/// Finds the first rule whose grammar tag equals `tag`.
pub fn find_rule(rules: &Vec<CommentConfig>, tag: &Vec<u8>) -> (r: Option<usize>)
    ensures
        match r {
            Some(i) => i < rules@.len() && first_match(rules@, tag@) == Some(i as int),
            None => first_match(rules@, tag@) is None,
        },
{
    let mut j: usize = 0;
    while j < rules.len()
        invariant
            j <= rules@.len(),
            forall|k: int| 0 <= k < j ==> rules@[k].tree_sitter_name@ != tag@,
        decreases rules@.len() - j,
    {
        if bytes_eq(&rules[j].tree_sitter_name, tag) {
            proof {
                lemma_first_match_at(rules@, tag@, j as int);
            }
            return Some(j);
        }
        j += 1;
    }
    proof {
        lemma_first_match_at(rules@, tag@, rules@.len() as int);
    }
    None
}

fn clean_multi_block(text: &Vec<u8>, start: &Vec<u8>, end: &Vec<u8>, between: &Vec<u8>) -> (r: Vec<
    Vec<u8>,
>)
    ensures
        line_views(r@) == cleaned_multi(text@, start@, end@, between@),
{
    let inner = strip_suffix(&strip_prefix(text, start), end);
    let lines = split_lines_exec(&inner);
    let mut out: Vec<Vec<u8>> = Vec::new();
    let mut i: usize = 0;
    proof {
        assert(line_views(out@) =~= clean_lines(line_views(lines@).take(0), between@));
    }
    while i < lines.len()
        invariant
            i <= lines@.len(),
            line_views(lines@) == split_lines(inner@),
            inner@ == strip_suffix_once(strip_prefix_once(text@, start@), end@),
            line_views(out@) == clean_lines(line_views(lines@).take(i as int), between@),
        decreases lines@.len() - i,
    {
        let cleaned = trim_bytes(&strip_prefix(&lines[i], between));
        let ghost prev_out = out@;
        out.push(cleaned);
        proof {
            let lv = line_views(lines@);
            assert(line_views(prev_out).len() == prev_out.len());
            assert(clean_lines(lv.take(i as int), between@).len() == i);
            assert(prev_out.len() == i);
            assert(out@ == prev_out.push(cleaned));
            assert(forall|k: int| 0 <= k < i ==> out@[k] == prev_out[k]);
            assert(forall|k: int| 0 <= k < i ==> line_views(out@)[k] == line_views(prev_out)[k]);
            assert(lv[i as int] == lines@[i as int]@);
            assert(out@[i as int] == cleaned);
            assert(line_views(out@)[i as int] == trim(strip_prefix_once(lv[i as int], between@)));
            assert(forall|k: int| 0 <= k < i ==> lv.take(i as int)[k] == lv[k]);
            assert(forall|k: int| 0 <= k < i + 1 ==> lv.take(i + 1)[k] == lv[k]);
            assert forall|k: int| 0 <= k < i + 1 implies line_views(out@)[k] == clean_lines(
                lv.take(i + 1),
                between@,
            )[k] by {
                assert(clean_lines(lv.take(i + 1), between@)[k] == trim(
                    strip_prefix_once(lv.take(i + 1)[k], between@),
                ));
                if k < i {
                    assert(line_views(out@)[k] == clean_lines(lv.take(i as int), between@)[k]);
                    assert(clean_lines(lv.take(i as int), between@)[k] == trim(
                        strip_prefix_once(lv.take(i as int)[k], between@),
                    ));
                }
            }
            assert(line_views(out@).len() == clean_lines(lv.take(i + 1), between@).len());
            assert(line_views(out@) =~= clean_lines(lv.take(i + 1), between@));
        }
        i += 1;
    }
    proof {
        assert(line_views(lines@).take(lines@.len() as int) =~= line_views(lines@));
    }
    out
}

/// Rebuilds the normalized comment body from the top-level nodes, in
/// document order, under the first rule matching each node's type name.
pub fn extract_comments(nodes: &Vec<SyntaxNode>, rules: &Vec<CommentConfig>) -> (r: Vec<u8>)
    ensures
        r@ == extracted_body(nodes@, rules@),
{
    let mut body: Vec<u8> = Vec::new();
    let mut i: usize = 0;
    proof {
        assert(extracted_body(nodes@.take(0), rules@) =~= Seq::<u8>::empty());
    }
    while i < nodes.len()
        invariant
            i <= nodes@.len(),
            body@ == extracted_body(nodes@.take(i as int), rules@),
        decreases nodes@.len() - i,
    {
        let ghost prev = body@;
        match find_rule(rules, &nodes[i].kind) {
            None => {
                proof {
                    assert(contribution(nodes@[i as int], rules@) =~= Seq::<u8>::empty());
                }
            },
            Some(j) => {
                match &rules[j].comment_kind {
                    CommentKind::Single(p) => {
                        let cleaned = trim_bytes(&strip_prefix(&nodes[i].text, p));
                        push_bytes(&mut body, &cleaned);
                        body.push(10);
                        proof {
                            assert(body@ =~= prev + cleaned_single(
                                nodes@[i as int].text@,
                                rules@[j as int].comment_kind->Single_0@,
                            ).push(10u8));
                        }
                    },
                    CommentKind::Multi { start, end, between } => {
                        let cleaned_lines = match between {
                            Some(b) => clean_multi_block(&nodes[i].text, start, end, b),
                            None => {
                                let empty_between: Vec<u8> = Vec::new();
                                clean_multi_block(&nodes[i].text, start, end, &empty_between)
                            },
                        };
                        let joined = join_lines_exec(&cleaned_lines);
                        push_bytes(&mut body, &joined);
                    },
                }
            },
        }
        proof {
            assert(nodes@.take(i + 1).drop_last() =~= nodes@.take(i as int));
            assert(nodes@.take(i + 1).last() == nodes@[i as int]);
            assert(body@ == prev + contribution(nodes@[i as int], rules@));
        }
        i += 1;
    }
    proof {
        assert(nodes@.take(nodes@.len() as int) =~= nodes@);
    }
    body
}

/// Whether the extracted, truncated comment body of these nodes conforms
/// to the license text, byte for byte after trimming.
pub fn check_nodes(nodes: &Vec<SyntaxNode>, rules: &Vec<CommentConfig>, license: &Vec<u8>) -> (r:
    bool)
    ensures
        r == conformant(nodes@, rules@, license@),
{
    let body = extract_comments(nodes, rules);
    let mut lines = split_lines_exec(&body);
    let license_lines = split_lines_exec(license);
    let n: usize = license_lines.len();
    proof {
        assert(line_views(license_lines@).len() == license_lines@.len());
    }
    if n < lines.len() {
        lines.truncate(n);
        proof {
            assert(line_views(lines@) =~= split_lines(body@).take(n as int));
        }
    } else {
        proof {
            assert(split_lines(body@).take(split_lines(body@).len() as int) =~= split_lines(
                body@,
            ));
        }
    }
    let joined = join_lines_exec(&lines);
    let trimmed_body = trim_bytes(&joined);
    let trimmed_license = trim_bytes(license);
    bytes_eq(&trimmed_body, &trimmed_license)
}

} // verus!
