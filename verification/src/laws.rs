//! Laws of the library: synthesizing a header and extracting it again
//! under the same rule restores the license text, and an empty license
//! synthesizes a header of delimiters alone.

use vstd::prelude::*;

use crate::config::CommentConfig;
use crate::config::CommentKind;
use crate::config::opt_view;
use crate::extract::SyntaxNode;
use crate::extract::cleaned_single;
use crate::extract::cleaned_multi;
use crate::extract::contribution;
use crate::extract::conformant;
use crate::extract::extracted_body;
use crate::extract::first_match;
use crate::extract::truncated;
use crate::synth::multi_header;
use crate::synth::multi_interior;
use crate::synth::single_chunk;
use crate::synth::single_header;
use crate::synth::synthesized;
use crate::text::crlf_free;
use crate::text::is_space;
use crate::text::join_lines;
use crate::text::lemma_join_cons;
use crate::text::lemma_join_split;
use crate::text::lemma_split_lines_at;
use crate::text::lemma_split_lines_clean;
use crate::text::lemma_trim_prepend_space;
use crate::text::lemma_trim_push_space;
use crate::text::line_break;
use crate::text::split_lines;
use crate::text::strip_cr;
use crate::text::strip_prefix_once;
use crate::text::strip_suffix_once;
use crate::text::trim;

verus! {

/// The byte string holds no line feed.
pub open spec fn newline_free(s: Seq<u8>) -> bool {
    forall|k: int| 0 <= k < s.len() ==> s[k] != 10
}

/// A delimiter token fit for a synthesized header: no line feed inside,
/// no carriage return at its end.
pub open spec fn clean_token(s: Seq<u8>) -> bool {
    newline_free(s) && (s.len() > 0 ==> s[s.len() - 1] != 13)
}

/// Every line of the list carries no surrounding whitespace.
pub open spec fn trimmed_lines(ls: Seq<Seq<u8>>) -> bool {
    forall|n: int| 0 <= n < ls.len() ==> trim(#[trigger] ls[n]) == ls[n]
}

/// The lines each followed by one line feed, concatenated.
pub open spec fn terminated(ls: Seq<Seq<u8>>) -> Seq<u8>
    decreases ls.len(),
{
    if ls.len() == 0 {
        Seq::empty()
    } else {
        terminated(ls.drop_last()) + ls.last() + seq![10u8]
    }
}

/// The single-line header chunks of these license lines.
pub open spec fn schunks(prefix: Seq<u8>, ls: Seq<Seq<u8>>) -> Seq<Seq<u8>> {
    ls.map_values(|l: Seq<u8>| single_chunk(prefix, l))
}

/// The interior chunks of a multi-line header for these license lines.
pub open spec fn mchunks(between: Seq<u8>, ls: Seq<Seq<u8>>) -> Seq<Seq<u8>> {
    ls.map_values(|l: Seq<u8>| between + seq![32u8] + l)
}

proof fn lemma_terminated_cons(l: Seq<u8>, ls: Seq<Seq<u8>>)
    ensures
        terminated(seq![l] + ls) == l + seq![10u8] + terminated(ls),
    decreases ls.len(),
{
    let whole = seq![l] + ls;
    if ls.len() == 0 {
        assert(whole.drop_last() =~= Seq::<Seq<u8>>::empty());
        assert(whole.last() == l);
        assert(terminated(Seq::<Seq<u8>>::empty()) == Seq::<u8>::empty());
        assert(terminated(whole) =~= l + seq![10u8]);
        assert(l + seq![10u8] + terminated(ls) =~= l + seq![10u8]);
    } else {
        assert(whole.drop_last() =~= seq![l] + ls.drop_last());
        lemma_terminated_cons(l, ls.drop_last());
        assert(whole.last() == ls.last());
        assert((l + seq![10u8] + terminated(ls.drop_last())) + ls.last() + seq![10u8] =~= l
            + seq![10u8] + (terminated(ls.drop_last()) + ls.last() + seq![10u8]));
    }
}

proof fn lemma_single_header_terminated(prefix: Seq<u8>, ls: Seq<Seq<u8>>)
    ensures
        single_header(prefix, ls) == terminated(schunks(prefix, ls)),
    decreases ls.len(),
{
    if ls.len() == 0 {
        assert(schunks(prefix, ls).len() == 0);
    } else {
        lemma_single_header_terminated(prefix, ls.drop_last());
        let cs = schunks(prefix, ls);
        assert(cs.len() == ls.len());
        assert(cs.drop_last() =~= schunks(prefix, ls.drop_last()));
        assert(cs.last() == single_chunk(prefix, ls.last()));
        assert(terminated(cs) == terminated(cs.drop_last()) + cs.last() + seq![10u8]);
    }
}

proof fn lemma_interior_terminated(between: Seq<u8>, ls: Seq<Seq<u8>>)
    ensures
        multi_interior(between, ls) == terminated(mchunks(between, ls)),
    decreases ls.len(),
{
    if ls.len() == 0 {
        assert(mchunks(between, ls).len() == 0);
    } else {
        lemma_interior_terminated(between, ls.drop_last());
        let cs = mchunks(between, ls);
        assert(cs.len() == ls.len());
        assert(cs.drop_last() =~= mchunks(between, ls.drop_last()));
        assert(cs.last() == between + seq![32u8] + ls.last());
        assert(terminated(cs) == terminated(cs.drop_last()) + cs.last() + seq![10u8]);
        assert(multi_interior(between, ls) == multi_interior(between, ls.drop_last()) + between
            + seq![32u8] + ls.last() + seq![10u8]);
        assert(terminated(cs.drop_last()) + (between + seq![32u8] + ls.last()) + seq![10u8] =~= (
        terminated(cs.drop_last()) + between + seq![32u8] + ls.last()) + seq![10u8]);
    }
}

proof fn lemma_join_snoc_mid(head: Seq<u8>, mid: Seq<Seq<u8>>)
    requires
        mid.len() > 0,
    ensures
        join_lines(seq![head] + mid) == head + seq![10u8] + terminated(mid.drop_last())
            + mid.last(),
    decreases mid.len(),
{
    let whole = seq![head] + mid;
    if mid.len() == 1 {
        assert(whole.drop_last() =~= seq![head]);
        assert(join_lines(seq![head]) == head);
        assert(whole.last() == mid[0]);
        assert(terminated(mid.drop_last()) =~= Seq::<u8>::empty());
        assert(head + seq![10u8] + terminated(mid.drop_last()) + mid.last() =~= head + seq![10u8]
            + mid[0]);
    } else {
        assert(whole.drop_last() =~= seq![head] + mid.drop_last());
        lemma_join_snoc_mid(head, mid.drop_last());
        assert(whole.last() == mid.last());
        assert(terminated(mid.drop_last()) == terminated(mid.drop_last().drop_last())
            + mid.drop_last().last() + seq![10u8]);
        assert((head + seq![10u8] + terminated(mid.drop_last().drop_last())
            + mid.drop_last().last()) + seq![10u8] + mid.last() =~= head + seq![10u8] + (
        terminated(mid.drop_last().drop_last()) + mid.drop_last().last() + seq![10u8])
            + mid.last());
    }
}

proof fn lemma_join_wrap(head: Seq<u8>, mid: Seq<Seq<u8>>, tail: Seq<u8>)
    ensures
        join_lines(seq![head] + mid + seq![tail]) == head + seq![10u8] + terminated(mid) + tail,
{
    let whole = seq![head] + mid + seq![tail];
    if mid.len() == 0 {
        assert(whole =~= seq![head] + seq![tail]);
        assert(whole.drop_last() =~= seq![head]);
        assert(whole.last() == tail);
        assert(join_lines(seq![head]) == head);
        assert(join_lines(whole) == head + seq![10u8] + tail);
        assert(head + seq![10u8] + terminated(mid) + tail =~= head + seq![10u8] + tail);
    } else {
        assert(seq![head] + (mid + seq![tail]) =~= whole);
        lemma_join_snoc_mid(head, mid + seq![tail]);
        let m2 = mid + seq![tail];
        assert(m2.drop_last() =~= mid);
        assert(m2.last() == tail);
        assert(join_lines(whole) == join_lines(seq![head] + m2));
    }
}

/// Splitting the terminated lines gives the lines back, provided none
/// holds a line feed and none ends with a carriage return.
proof fn lemma_split_terminated(ls: Seq<Seq<u8>>)
    requires
        forall|n: int| 0 <= n < ls.len() ==> newline_free(#[trigger] ls[n]),
        forall|n: int|
            0 <= n < ls.len() && (#[trigger] ls[n]).len() > 0 ==> ls[n][ls[n].len() - 1] != 13,
    ensures
        split_lines(terminated(ls)) == ls,
    decreases ls.len(),
{
    if ls.len() == 0 {
    } else {
        let rest = ls.skip(1);
        assert(seq![ls[0]] + rest =~= ls);
        lemma_terminated_cons(ls[0], rest);
        let s = terminated(ls);
        assert(s == ls[0] + seq![10u8] + terminated(rest));
        let h = ls[0].len() as int;
        assert(forall|k: int| 0 <= k < h ==> s[k] == ls[0][k] && s[k] != 10);
        assert(s[h] == 10);
        assert(s.len() > 0);
        lemma_split_lines_at(s, h);
        assert(s.take(h) =~= ls[0]);
        assert(strip_cr(ls[0]) == ls[0]);
        assert(s.skip(h + 1) =~= terminated(rest));
        assert(forall|n: int| 0 <= n < rest.len() ==> rest[n] == ls[n + 1]);
        lemma_split_terminated(rest);
        assert(seq![ls[0]] + split_lines(terminated(rest)) =~= ls);
    }
}

/// Splitting joined lines gives the lines back, except that an empty
/// last line is dropped with its preceding line feed.
proof fn lemma_split_join_lines(ls: Seq<Seq<u8>>)
    requires
        forall|n: int| 0 <= n < ls.len() ==> newline_free(#[trigger] ls[n]),
        forall|n: int|
            0 <= n < ls.len() && (#[trigger] ls[n]).len() > 0 ==> ls[n][ls[n].len() - 1] != 13,
    ensures
        ls.len() > 0 && ls.last().len() == 0 ==> split_lines(join_lines(ls)) == ls.drop_last(),
        !(ls.len() > 0 && ls.last().len() == 0) ==> split_lines(join_lines(ls)) == ls,
    decreases ls.len(),
{
    if ls.len() == 0 {
    } else if ls.len() == 1 {
        if ls[0].len() == 0 {
            assert(join_lines(ls) == ls[0]);
            assert(split_lines(join_lines(ls)) =~= ls.drop_last());
        } else {
            assert(join_lines(ls) == ls[0]);
            lemma_split_lines_at(ls[0], ls[0].len() as int);
        }
    } else {
        let rest = ls.skip(1);
        assert(seq![ls[0]] + rest =~= ls);
        lemma_join_cons(ls[0], rest);
        let s = join_lines(ls);
        assert(s == ls[0] + seq![10u8] + join_lines(rest));
        let h = ls[0].len() as int;
        assert(forall|k: int| 0 <= k < h ==> s[k] == ls[0][k] && s[k] != 10);
        assert(s[h] == 10);
        lemma_split_lines_at(s, h);
        assert(s.take(h) =~= ls[0]);
        assert(strip_cr(ls[0]) == ls[0]);
        assert(s.skip(h + 1) =~= join_lines(rest));
        assert(forall|n: int| 0 <= n < rest.len() ==> rest[n] == ls[n + 1]);
        assert(rest.last() == ls.last());
        lemma_split_join_lines(rest);
        if rest.last().len() == 0 {
            assert(seq![ls[0]] + rest.drop_last() =~= ls.drop_last());
        } else {
            assert(seq![ls[0]] + rest =~= ls);
        }
    }
}

/// A non-empty byte string has at least one line.
proof fn lemma_split_nonempty(s: Seq<u8>)
    ensures
        split_lines(s).len() == 0 <==> s.len() == 0,
{
    if s.len() > 0 {
        crate::text::lemma_line_break_bounds(s);
    }
}

/// Joining the lines of `s` back changes nothing that trimming sees.
proof fn lemma_trim_join_split(s: Seq<u8>)
    requires
        crlf_free(s),
    ensures
        trim(join_lines(split_lines(s))) == trim(s),
{
    lemma_join_split(s);
    if s.len() > 0 && s[s.len() - 1] == 10 {
        lemma_trim_push_space(join_lines(split_lines(s)), 10u8);
    }
}

/// Trimming drops a wrapping space on either side of a trimmed line.
proof fn lemma_trim_wrapped(l: Seq<u8>)
    requires
        trim(l) == l,
    ensures
        trim(seq![32u8] + l) == l,
        trim(seq![32u8] + l + seq![32u8]) == l,
        trim(l + seq![32u8]) == l,
{
    lemma_trim_prepend_space(l, 32u8);
    assert(l + seq![32u8] =~= l.push(32u8));
    lemma_trim_push_space(l, 32u8);
    assert(seq![32u8] + l + seq![32u8] =~= (seq![32u8] + l).push(32u8));
    lemma_trim_push_space(seq![32u8] + l, 32u8);
    lemma_trim_prepend_space(l, 32u8);
}

/// The empty byte string trims to itself.
proof fn lemma_trim_empty()
    ensures
        trim(Seq::<u8>::empty()) == Seq::<u8>::empty(),
{
}

proof fn lemma_trim_start_len(s: Seq<u8>)
    ensures
        crate::text::trim_start(s).len() <= s.len(),
    decreases s.len(),
{
    if s.len() > 0 && is_space(s[0]) {
        lemma_trim_start_len(s.skip(1));
    }
}

proof fn lemma_trim_end_len(s: Seq<u8>)
    ensures
        crate::text::trim_end(s).len() <= s.len(),
    decreases s.len(),
{
    if s.len() > 0 && is_space(s[s.len() - 1]) {
        lemma_trim_end_len(s.drop_last());
    }
}

/// A non-empty trimmed line neither begins nor ends with whitespace.
proof fn lemma_trimmed_ends(l: Seq<u8>)
    requires
        trim(l) == l,
        l.len() > 0,
    ensures
        !is_space(l[0]),
        !is_space(l[l.len() - 1]),
{
    if is_space(l[0]) {
        assert(crate::text::trim_start(l) == crate::text::trim_start(l.skip(1)));
        lemma_trim_start_len(l.skip(1));
        lemma_trim_end_len(crate::text::trim_start(l));
        assert(trim(l).len() < l.len());
        assert(false);
    }
    assert(crate::text::trim_start(l) == l);
    if is_space(l[l.len() - 1]) {
        assert(crate::text::trim_end(l) == crate::text::trim_end(l.drop_last()));
        lemma_trim_end_len(l.drop_last());
        assert(trim(l).len() < l.len());
        assert(false);
    }
}

proof fn lemma_extracted_single(
    nodes: Seq<SyntaxNode>,
    rules: Seq<CommentConfig>,
    i: int,
    ls: Seq<Seq<u8>>,
)
    requires
        0 <= i < rules.len(),
        rules[i].comment_kind is Single,
        first_match(rules, rules[i].tree_sitter_name@) == Some(i),
        nodes.len() == ls.len(),
        trimmed_lines(ls),
        forall|k: int| 0 <= k < nodes.len() ==> (#[trigger] nodes[k]).kind@
            == rules[i].tree_sitter_name@,
        forall|k: int| 0 <= k < nodes.len() ==> (#[trigger] nodes[k]).text@ == single_chunk(
            rules[i].comment_kind->Single_0@,
            ls[k],
        ),
    ensures
        extracted_body(nodes, rules) == terminated(ls),
    decreases nodes.len(),
{
    let p = rules[i].comment_kind->Single_0@;
    if nodes.len() == 0 {
    } else {
        assert(forall|k: int| 0 <= k < nodes.len() - 1 ==> (#[trigger] nodes.drop_last()[k])
            == nodes[k]);
        assert(forall|k: int| 0 <= k < ls.len() - 1 ==> (#[trigger] ls.drop_last()[k]) == ls[k]);
        assert(trimmed_lines(ls.drop_last()));
        lemma_extracted_single(nodes.drop_last(), rules, i, ls.drop_last());
        let nd = nodes.last();
        let l = ls.last();
        assert(trim(l) == l);
        assert(first_match(rules, nd.kind@) == Some(i));
        let chunk = single_chunk(p, l);
        assert(nd.text@ == chunk);
        if l.len() == 0 {
            assert(chunk == p);
            assert(p.subrange(0, p.len() as int) =~= p);
            assert(strip_prefix_once(chunk, p) =~= Seq::<u8>::empty());
            assert(cleaned_single(chunk, p) == l);
        } else {
            assert(chunk == p + seq![32u8] + l);
            assert(chunk.subrange(0, p.len() as int) =~= p);
            assert(chunk.skip(p.len() as int) =~= seq![32u8] + l);
            lemma_trim_prepend_space(l, 32u8);
            assert(cleaned_single(chunk, p) == l);
        }
        assert(contribution(nd, rules) == cleaned_single(nd.text@, p).push(10u8));
        assert(l.push(10u8) =~= l + seq![10u8]);
        assert(extracted_body(nodes, rules) == terminated(ls.drop_last()) + (l + seq![10u8]));
        assert(terminated(ls.drop_last()) + (l + seq![10u8]) =~= terminated(ls.drop_last()) + l
            + seq![10u8]);
    }
}

/// Round trip of the single-line style: synthesize a header for the
/// license under a single-line rule, let the parser hand the header's
/// lines back as comment nodes of that rule's tag, and the file is
/// conformant: extraction and truncation restore the license text.
pub proof fn lemma_round_trip_single(
    rules: Seq<CommentConfig>,
    i: int,
    license: Seq<u8>,
    nodes: Seq<SyntaxNode>,
)
    requires
        0 <= i < rules.len(),
        first_match(rules, rules[i].tree_sitter_name@) == Some(i),
        rules[i].comment_kind is Single,
        clean_token(rules[i].comment_kind->Single_0@),
        crlf_free(license),
        trimmed_lines(split_lines(license)),
        nodes.len() == split_lines(synthesized(rules[i].comment_kind, license)).len(),
        forall|k: int| 0 <= k < nodes.len() ==> (#[trigger] nodes[k]).kind@
            == rules[i].tree_sitter_name@,
        forall|k: int| 0 <= k < nodes.len() ==> (#[trigger] nodes[k]).text@ == split_lines(
            synthesized(rules[i].comment_kind, license),
        )[k],
    ensures
        conformant(nodes, rules, license),
{
    let p = rules[i].comment_kind->Single_0@;
    let ls = split_lines(license);
    let n = ls.len() as int;
    lemma_split_lines_clean(license);
    assert(forall|m: int| 0 <= m < n ==> newline_free(#[trigger] ls[m]));
    assert(forall|m: int|
        0 <= m < n && (#[trigger] ls[m]).len() > 0 ==> ls[m][ls[m].len() - 1] != 13) by {
        assert forall|m: int| 0 <= m < n && (#[trigger] ls[m]).len() > 0 implies ls[m][ls[m].len()
            - 1] != 13 by {
            lemma_trimmed_ends(ls[m]);
        }
    }
    let cs = schunks(p, ls);
    assert(cs.len() == n);
    assert(forall|m: int| 0 <= m < n ==> #[trigger] cs[m] == single_chunk(p, ls[m]));
    assert(forall|m: int| 0 <= m < n ==> newline_free(#[trigger] cs[m])) by {
        assert forall|m: int| 0 <= m < n implies newline_free(#[trigger] cs[m]) by {
            if ls[m].len() > 0 {
                assert(cs[m] == p + seq![32u8] + ls[m]);
                assert(forall|k: int| 0 <= k < cs[m].len() ==> #[trigger] cs[m][k] != 10);
            }
        }
    }
    assert(forall|m: int|
        0 <= m < n && (#[trigger] cs[m]).len() > 0 ==> cs[m][cs[m].len() - 1] != 13) by {
        assert forall|m: int| 0 <= m < n && (#[trigger] cs[m]).len() > 0 implies cs[m][cs[m].len()
            - 1] != 13 by {
            if ls[m].len() > 0 {
                assert(cs[m] == p + seq![32u8] + ls[m]);
                assert(cs[m][cs[m].len() - 1] == ls[m][ls[m].len() - 1]);
                lemma_trimmed_ends(ls[m]);
            } else {
                assert(cs[m] == p);
            }
        }
    }
    lemma_single_header_terminated(p, ls);
    assert(synthesized(rules[i].comment_kind, license) == terminated(cs));
    lemma_split_terminated(cs);
    assert(split_lines(synthesized(rules[i].comment_kind, license)) == cs);
    lemma_extracted_single(nodes, rules, i, ls);
    let body = extracted_body(nodes, rules);
    assert(body == terminated(ls));
    lemma_split_terminated(ls);
    assert(split_lines(body) == ls);
    assert(ls.take(n) =~= ls);
    assert(truncated(body, n) == join_lines(ls));
    lemma_trim_join_split(license);
    assert(trim(truncated(body, n)) == trim(license));
}

/// The token a multi-line rule puts before interior lines: the
/// configured `between` token, or nothing.
pub open spec fn between_token(b: Option<Seq<u8>>) -> Seq<u8> {
    match b {
        Some(x) => x,
        None => Seq::empty(),
    }
}

proof fn lemma_trim_all_spaces(s: Seq<u8>)
    requires
        forall|k: int| 0 <= k < s.len() ==> is_space(s[k]),
    ensures
        trim(s) == Seq::<u8>::empty(),
    decreases s.len(),
{
    if s.len() > 0 {
        assert(crate::text::trim_start(s) == crate::text::trim_start(s.skip(1)));
        lemma_trim_all_spaces(s.skip(1));
    }
}

proof fn lemma_strip_wrap(text: Seq<u8>, start: Seq<u8>, end: Seq<u8>, core: Seq<u8>)
    requires
        text == start + core + end,
    ensures
        strip_suffix_once(strip_prefix_once(text, start), end) == core,
{
    assert(text.subrange(0, start.len() as int) =~= start);
    let r1 = text.skip(start.len() as int);
    assert(r1 =~= core + end);
    assert(r1.subrange(r1.len() - end.len(), r1.len() as int) =~= end);
    assert(r1.take(r1.len() - end.len()) =~= core);
}

proof fn lemma_clean_wrapped(l: Seq<u8>, b: Seq<u8>)
    requires
        trim(l) == l,
        b.len() > 0 ==> b[0] != 32,
    ensures
        trim(strip_prefix_once(seq![32u8] + l, b)) == l,
        trim(strip_prefix_once(seq![32u8] + l + seq![32u8], b)) == l,
{
    let x = seq![32u8] + l;
    let y = seq![32u8] + l + seq![32u8];
    lemma_trim_wrapped(l);
    if b.len() == 0 {
        assert(x.subrange(0, 0) =~= b);
        assert(x.skip(0) =~= x);
        assert(y.subrange(0, 0) =~= b);
        assert(y.skip(0) =~= y);
    } else {
        if crate::text::has_prefix(x, b) {
            assert(x.subrange(0, b.len() as int)[0] == b[0]);
            assert(false);
        }
        if crate::text::has_prefix(y, b) {
            assert(y.subrange(0, b.len() as int)[0] == b[0]);
            assert(false);
        }
    }
}

proof fn lemma_clean_mid(l: Seq<u8>, b: Seq<u8>)
    requires
        trim(l) == l,
    ensures
        trim(strip_prefix_once(b + seq![32u8] + l, b)) == l,
{
    let x = b + seq![32u8] + l;
    assert(x.subrange(0, b.len() as int) =~= b);
    assert(x.skip(b.len() as int) =~= seq![32u8] + l);
    lemma_trim_wrapped(l);
}

/// An empty license text synthesizes a header of the delimiters alone:
/// nothing at all in the single-line style, and the start and end tokens
/// around two spaces in the multi-line style.
pub proof fn lemma_empty_license_header(kind: CommentKind)
    ensures
        kind is Single ==> synthesized(kind, Seq::<u8>::empty()) == Seq::<u8>::empty(),
        kind matches CommentKind::Multi { start, end, between } ==> synthesized(
            kind,
            Seq::<u8>::empty(),
        ) == start@ + seq![32u8] + seq![32u8] + end@,
{
    let e = Seq::<u8>::empty();
    assert(split_lines(e) == Seq::<Seq<u8>>::empty());
    match kind {
        CommentKind::Single(p) => {
            assert(synthesized(kind, e) == single_header(p@, split_lines(e)));
        },
        CommentKind::Multi { start, end, between } => {
            assert(synthesized(kind, e) == multi_header(start@, end@, opt_view(between), e));
            assert(start@ + seq![32u8] + e + seq![32u8] + end@ =~= start@ + seq![32u8]
                + seq![32u8] + end@);
        },
    }
}

proof fn lemma_one_line_license(license: Seq<u8>)
    requires
        crlf_free(license),
        split_lines(license).len() == 1,
    ensures
        newline_free(split_lines(license)[0]),
        license == split_lines(license)[0] || license == split_lines(license)[0] + seq![10u8],
{
    let j = line_break(license);
    crate::text::lemma_line_break_bounds(license);
    lemma_split_nonempty(license);
    if j == license.len() {
        assert(split_lines(license) == seq![license]);
    } else {
        let tail = license.skip(j + 1);
        assert(split_lines(license).len() == 1 + split_lines(tail).len());
        lemma_split_nonempty(tail);
        assert(tail.len() == 0);
        assert(j == license.len() - 1);
        let head = license.take(j);
        if head.len() > 0 && head[head.len() - 1] == 13 {
            assert(license[j - 1] == 13 && license[j] == 10);
            assert(false);
        }
        assert(strip_cr(head) == head);
        assert(split_lines(license)[0] == head);
        assert(head + seq![10u8] =~= license);
        assert(forall|k: int| 0 <= k < head.len() ==> head[k] == license[k] && license[k] != 10);
    }
}

proof fn lemma_multi_restore_empty(start: Seq<u8>, end: Seq<u8>, bopt: Option<Seq<u8>>, license: Seq<u8>)
    requires
        newline_free(between_token(bopt)),
        between_token(bopt).len() > 0 ==> between_token(bopt)[0] != 32,
        crlf_free(license),
        trimmed_lines(split_lines(license)),
        split_lines(license).len() == 0,
    ensures
        trim(truncated(
            join_lines(cleaned_multi(multi_header(start, end, bopt, license), start, end, between_token(bopt))),
            split_lines(license).len() as int,
        )) == trim(license),
{
    let b = between_token(bopt);
    let ls = split_lines(license);
    let n = ls.len() as int;
    let text = multi_header(start, end, bopt, license);
    let body = join_lines(cleaned_multi(text, start, end, b));
    lemma_split_lines_clean(license);
    assert(forall|m: int|
        0 <= m < n && (#[trigger] ls[m]).len() > 0 ==> ls[m][ls[m].len() - 1] != 13) by {
        assert forall|m: int| 0 <= m < n && (#[trigger] ls[m]).len() > 0 implies ls[m][ls[m].len()
            - 1] != 13 by {
            lemma_trimmed_ends(ls[m]);
        }
    }

    lemma_split_nonempty(license);
    assert(license =~= Seq::<u8>::empty());
    let core = seq![32u8] + license + seq![32u8];
    assert(text == start + core + end);
    lemma_strip_wrap(text, start, end, core);
    assert(core =~= seq![32u8, 32u8]);
    lemma_split_lines_at(core, 2);
    assert(split_lines(core) == seq![core]);
    let cleaned = cleaned_multi(text, start, end, b);
    assert(cleaned =~= seq![trim(strip_prefix_once(core, b))]);
    if crate::text::has_prefix(core, b) {
        let rest = core.skip(b.len() as int);
        assert(forall|k: int| 0 <= k < rest.len() ==> is_space(rest[k]));
        lemma_trim_all_spaces(rest);
    } else {
        lemma_trim_all_spaces(core);
    }
    assert(cleaned =~= seq![Seq::<u8>::empty()]);
    assert(join_lines(cleaned) == Seq::<u8>::empty());
    assert(body == Seq::<u8>::empty());
    assert(split_lines(body) == Seq::<Seq<u8>>::empty());
    assert(Seq::<Seq<u8>>::empty().take(0) =~= Seq::<Seq<u8>>::empty());
    assert(truncated(body, 0) == Seq::<u8>::empty());
    lemma_trim_empty();
    assert(trim(truncated(body, n)) == trim(license));
}

proof fn lemma_multi_restore_one(start: Seq<u8>, end: Seq<u8>, bopt: Option<Seq<u8>>, license: Seq<u8>)
    requires
        newline_free(between_token(bopt)),
        between_token(bopt).len() > 0 ==> between_token(bopt)[0] != 32,
        crlf_free(license),
        trimmed_lines(split_lines(license)),
        split_lines(license).len() == 1,
    ensures
        trim(truncated(
            join_lines(cleaned_multi(multi_header(start, end, bopt, license), start, end, between_token(bopt))),
            split_lines(license).len() as int,
        )) == trim(license),
{
    let b = between_token(bopt);
    let ls = split_lines(license);
    let n = ls.len() as int;
    let text = multi_header(start, end, bopt, license);
    let body = join_lines(cleaned_multi(text, start, end, b));
    lemma_split_lines_clean(license);
    assert(forall|m: int|
        0 <= m < n && (#[trigger] ls[m]).len() > 0 ==> ls[m][ls[m].len() - 1] != 13) by {
        assert forall|m: int| 0 <= m < n && (#[trigger] ls[m]).len() > 0 implies ls[m][ls[m].len()
            - 1] != 13 by {
            lemma_trimmed_ends(ls[m]);
        }
    }

    let l0 = ls[0];
    assert(trim(l0) == l0);
    lemma_one_line_license(license);
    let core = seq![32u8] + license + seq![32u8];
    assert(text == start + core + end);
    lemma_strip_wrap(text, start, end, core);
    let cleaned = cleaned_multi(text, start, end, b);
    if license == l0 {
        assert(core =~= seq![32u8] + l0 + seq![32u8]);
        assert(forall|k: int| 0 <= k < core.len() ==> core[k] != 10);
        lemma_split_lines_at(core, core.len() as int);
        assert(split_lines(core) == seq![core]);
        lemma_clean_wrapped(l0, b);
        assert(cleaned =~= seq![l0]);
        assert(join_lines(cleaned) == l0);
        assert(body == l0);
        assert(l0.len() > 0);
        lemma_trimmed_ends(l0);
        assert(forall|k: int| 0 <= k < l0.len() ==> l0[k] != 10);
        lemma_split_lines_at(l0, l0.len() as int);
        assert(split_lines(body) == seq![l0]);
        assert(seq![l0].take(1) =~= seq![l0]);
        assert(truncated(body, 1) == join_lines(seq![l0]));
        assert(join_lines(seq![l0]) == l0);
    } else {
        assert(license == l0 + seq![10u8]);
        assert(core =~= (seq![32u8] + l0) + seq![10u8] + seq![32u8]);
        let c0 = seq![32u8] + l0;
        assert(forall|k: int| 0 <= k < c0.len() ==> core[k] == c0[k] && core[k] != 10);
        assert(core[c0.len() as int] == 10);
        lemma_split_lines_at(core, c0.len() as int);
        assert(core.take(c0.len() as int) =~= c0);
        if l0.len() > 0 {
            lemma_trimmed_ends(l0);
        }
        assert(strip_cr(c0) == c0);
        assert(core.skip(c0.len() as int + 1) =~= seq![32u8]);
        lemma_split_lines_at(seq![32u8], 1);
        assert(split_lines(seq![32u8]) == seq![seq![32u8]]);
        assert(split_lines(core) =~= seq![c0, seq![32u8]]);
        lemma_clean_wrapped(l0, b);
        lemma_trim_empty();
        lemma_clean_wrapped(Seq::<u8>::empty(), b);
        assert(seq![32u8] + Seq::<u8>::empty() =~= seq![32u8]);
        assert(cleaned =~= seq![l0, Seq::<u8>::empty()]);
        assert(seq![l0, Seq::<u8>::empty()].drop_last() =~= seq![l0]);
        assert(join_lines(seq![l0]) == l0);
        assert(join_lines(cleaned) =~= l0 + seq![10u8]);
        assert(body == l0 + seq![10u8]);
        assert(forall|k: int| 0 <= k < l0.len() ==> body[k] == l0[k] && body[k] != 10);
        assert(body[l0.len() as int] == 10);
        lemma_split_lines_at(body, l0.len() as int);
        assert(body.take(l0.len() as int) =~= l0);
        assert(body.skip(l0.len() as int + 1) =~= Seq::<u8>::empty());
        assert(split_lines(body) =~= seq![l0]);
        assert(seq![l0].take(1) =~= seq![l0]);
        assert(truncated(body, 1) == join_lines(seq![l0]));
        assert(l0 + seq![10u8] =~= l0.push(10u8));
        lemma_trim_push_space(l0, 10u8);
        assert(trim(license) == l0);
    }
    assert(trim(truncated(body, n)) == trim(license));
}

#[verifier::rlimit(60)]
proof fn lemma_multi_restore_many(start: Seq<u8>, end: Seq<u8>, bopt: Option<Seq<u8>>, license: Seq<u8>)
    requires
        newline_free(between_token(bopt)),
        between_token(bopt).len() > 0 ==> between_token(bopt)[0] != 32,
        crlf_free(license),
        trimmed_lines(split_lines(license)),
        split_lines(license).len() >= 2,
    ensures
        trim(truncated(
            join_lines(cleaned_multi(multi_header(start, end, bopt, license), start, end, between_token(bopt))),
            split_lines(license).len() as int,
        )) == trim(license),
{
    let b = between_token(bopt);
    let ls = split_lines(license);
    let n = ls.len() as int;
    let text = multi_header(start, end, bopt, license);
    let body = join_lines(cleaned_multi(text, start, end, b));
    lemma_split_lines_clean(license);
    assert(forall|m: int|
        0 <= m < n && (#[trigger] ls[m]).len() > 0 ==> ls[m][ls[m].len() - 1] != 13) by {
        assert forall|m: int| 0 <= m < n && (#[trigger] ls[m]).len() > 0 implies ls[m][ls[m].len()
            - 1] != 13 by {
            lemma_trimmed_ends(ls[m]);
        }
    }

    let l0 = ls[0];
    let llast = ls.last();
    let mid = ls.subrange(1, n - 1);
    let c0 = seq![32u8] + l0;
    let cl = seq![32u8] + llast + seq![32u8];
    let cm = mchunks(b, mid);
    assert(text == start + seq![32u8] + l0 + seq![10u8] + multi_interior(b, mid) + seq![32u8]
        + llast + seq![32u8] + end);
    let core = seq![32u8] + l0 + seq![10u8] + multi_interior(b, mid) + seq![32u8] + llast
        + seq![32u8];
    assert(text =~= start + core + end);
    lemma_strip_wrap(text, start, end, core);
    lemma_interior_terminated(b, mid);
    lemma_join_wrap(c0, cm, cl);
    let chunks = seq![c0] + cm + seq![cl];
    assert(join_lines(chunks) == c0 + seq![10u8] + terminated(cm) + cl);
    assert(core =~= c0 + seq![10u8] + terminated(cm) + cl);
    assert(chunks.len() == n);
    assert(forall|m: int| 0 <= m < mid.len() ==> #[trigger] mid[m] == ls[m + 1]
        && trim(ls[m + 1]) == ls[m + 1]);
    assert(forall|m: int| 0 <= m < cm.len() ==> #[trigger] cm[m] == b + seq![32u8] + mid[m]);
    assert(forall|m: int| 0 <= m < chunks.len() ==> newline_free(#[trigger] chunks[m])) by {
        assert forall|m: int| 0 <= m < chunks.len() implies newline_free(
            #[trigger] chunks[m],
        ) by {
            if m == 0 {
                assert(chunks[m] == c0);
            } else if m < chunks.len() - 1 {
                assert(chunks[m] == cm[m - 1]);
                assert(forall|k: int| 0 <= k < chunks[m].len() ==> #[trigger] chunks[m][k]
                    != 10);
            } else {
                assert(chunks[m] == cl);
            }
        }
    }
    assert(forall|m: int|
        0 <= m < chunks.len() && (#[trigger] chunks[m]).len() > 0 ==> chunks[m][chunks[m].len()
            - 1] != 13) by {
        assert forall|m: int|
            0 <= m < chunks.len() && (#[trigger] chunks[m]).len() > 0 implies chunks[m][chunks[m].len()
            - 1] != 13 by {
            if m == 0 {
                assert(chunks[m] == c0);
                if l0.len() > 0 {
                    lemma_trimmed_ends(l0);
                    assert(c0[c0.len() - 1] == l0[l0.len() - 1]);
                }
            } else if m < chunks.len() - 1 {
                assert(chunks[m] == cm[m - 1]);
                let lm = mid[m - 1];
                if lm.len() > 0 {
                    lemma_trimmed_ends(lm);
                    assert(chunks[m][chunks[m].len() - 1] == lm[lm.len() - 1]);
                } else {
                    assert(chunks[m] =~= b + seq![32u8]);
                    assert(chunks[m][chunks[m].len() - 1] == 32);
                }
            } else {
                assert(chunks[m] == cl);
                assert(cl[cl.len() - 1] == 32);
            }
        }
    }
    assert(cl.len() > 0);
    lemma_split_join_lines(chunks);
    assert(chunks.last() == cl);
    assert(split_lines(core) == chunks);
    let cleaned = cleaned_multi(text, start, end, b);
    assert(cleaned.len() == n);
    assert forall|m: int| 0 <= m < n implies #[trigger] cleaned[m] == ls[m] by {
        assert(cleaned[m] == trim(strip_prefix_once(chunks[m], b)));
        if m == 0 {
            assert(chunks[m] == c0);
            lemma_clean_wrapped(l0, b);
        } else if m < n - 1 {
            assert(chunks[m] == cm[m - 1]);
            assert(chunks[m] == b + seq![32u8] + mid[m - 1]);
            lemma_clean_mid(mid[m - 1], b);
        } else {
            assert(chunks[m] == cl);
            assert(trim(llast) == llast);
            lemma_clean_wrapped(llast, b);
        }
    }
    assert(cleaned =~= ls);
    assert(body == join_lines(ls));
    lemma_split_join_lines(ls);
    lemma_trim_join_split(license);
    if llast.len() == 0 {
        assert(split_lines(body) == ls.drop_last());
        assert(split_lines(body).len() == n - 1);
        assert(ls.drop_last().take(n - 1) =~= ls.drop_last());
        assert(truncated(body, n) == join_lines(ls.drop_last()));
        assert(join_lines(ls) == join_lines(ls.drop_last()) + seq![10u8] + llast);
        assert(join_lines(ls) =~= join_lines(ls.drop_last()).push(10u8));
        lemma_trim_push_space(join_lines(ls.drop_last()), 10u8);
        assert(trim(truncated(body, n)) == trim(join_lines(ls)));
    } else {
        assert(split_lines(body) == ls);
        assert(ls.take(n) =~= ls);
        assert(truncated(body, n) == join_lines(ls));
    }
    assert(trim(truncated(body, n)) == trim(license));
}

proof fn lemma_multi_restore(start: Seq<u8>, end: Seq<u8>, bopt: Option<Seq<u8>>, license: Seq<u8>)
    requires
        newline_free(between_token(bopt)),
        between_token(bopt).len() > 0 ==> between_token(bopt)[0] != 32,
        crlf_free(license),
        trimmed_lines(split_lines(license)),
    ensures
        trim(truncated(
            join_lines(cleaned_multi(multi_header(start, end, bopt, license), start, end, between_token(bopt))),
            split_lines(license).len() as int,
        )) == trim(license),
{
    if split_lines(license).len() == 0 {
        lemma_multi_restore_empty(start, end, bopt, license);
    } else if split_lines(license).len() == 1 {
        lemma_multi_restore_one(start, end, bopt, license);
    } else {
        lemma_multi_restore_many(start, end, bopt, license);
    }
}

/// Round trip of the multi-line style: synthesize a header for the
/// license under a multi-line rule, let the parser hand the whole
/// header back as one comment node of that rule's tag, and the file is
/// conformant: extraction and truncation restore the license text.
pub proof fn lemma_round_trip_multi(
    rules: Seq<CommentConfig>,
    i: int,
    license: Seq<u8>,
    nodes: Seq<SyntaxNode>,
)
    requires
        0 <= i < rules.len(),
        first_match(rules, rules[i].tree_sitter_name@) == Some(i),
        rules[i].comment_kind is Multi,
        newline_free(between_token(opt_view(rules[i].comment_kind->Multi_between))),
        between_token(opt_view(rules[i].comment_kind->Multi_between)).len() > 0
            ==> between_token(opt_view(rules[i].comment_kind->Multi_between))[0] != 32,
        crlf_free(license),
        trimmed_lines(split_lines(license)),
        nodes.len() == 1,
        nodes[0].kind@ == rules[i].tree_sitter_name@,
        nodes[0].text@ == synthesized(rules[i].comment_kind, license),
    ensures
        conformant(nodes, rules, license),
{
    let start = rules[i].comment_kind->Multi_start@;
    let end = rules[i].comment_kind->Multi_end@;
    let bopt = opt_view(rules[i].comment_kind->Multi_between);
    let b = between_token(bopt);
    let text = nodes[0].text@;
    assert(text == multi_header(start, end, bopt, license));
    assert(nodes.drop_last() =~= Seq::<SyntaxNode>::empty());
    assert(extracted_body(Seq::<SyntaxNode>::empty(), rules) == Seq::<u8>::empty());
    assert(first_match(rules, nodes[0].kind@) == Some(i));
    assert(nodes.last() == nodes[0]);
    let body = extracted_body(nodes, rules);
    assert(body =~= contribution(nodes[0], rules));
    assert(contribution(nodes[0], rules) == join_lines(cleaned_multi(text, start, end, b)));
    lemma_multi_restore(start, end, bopt, license);
    assert(trim(truncated(body, split_lines(license).len() as int)) == trim(license));
}

} // verus!
