//! Header synthesis: builds a byte-exact comment block encoding the
//! license text in a language's single- or multi-line comment style.

use vstd::prelude::*;

use crate::config::CommentKind;
use crate::config::opt_view;
use crate::text::line_views;
use crate::text::push_bytes;
use crate::text::split_lines;
use crate::text::split_lines_exec;

verus! {

/// One synthesized single-line comment: `prefix`, a space and the line;
/// the space is left out for an empty line.
pub open spec fn single_chunk(prefix: Seq<u8>, line: Seq<u8>) -> Seq<u8> {
    if line.len() == 0 {
        prefix
    } else {
        prefix + seq![32u8] + line
    }
}

/// The single-line style header: one comment line plus line feed per
/// license line.
pub open spec fn single_header(prefix: Seq<u8>, lines: Seq<Seq<u8>>) -> Seq<u8>
    decreases lines.len(),
{
    if lines.len() == 0 {
        Seq::empty()
    } else {
        single_header(prefix, lines.drop_last()) + single_chunk(prefix, lines.last()) + seq![10u8]
    }
}

/// The interior of a multi-line header: every line prefixed with the
/// `between` token and a space, each ended with a line feed.
pub open spec fn multi_interior(between: Seq<u8>, lines: Seq<Seq<u8>>) -> Seq<u8>
    decreases lines.len(),
{
    if lines.len() == 0 {
        Seq::empty()
    } else {
        multi_interior(between, lines.drop_last()) + between + seq![32u8] + lines.last()
            + seq![10u8]
    }
}

/// The multi-line style header. A license of zero or one lines becomes a
/// degenerate one-line block `start text end`, spaces between; two or
/// more lines become the first line after `start`, the interior lines
/// each behind the `between` token, and the last line before `end`,
/// exactly one output line per license line.
pub open spec fn multi_header(
    start: Seq<u8>,
    end: Seq<u8>,
    between: Option<Seq<u8>>,
    license: Seq<u8>,
) -> Seq<u8> {
    let lines = split_lines(license);
    let b = match between {
        Some(x) => x,
        None => Seq::empty(),
    };
    if lines.len() <= 1 {
        start + seq![32u8] + license + seq![32u8] + end
    } else {
        start + seq![32u8] + lines[0] + seq![10u8] + multi_interior(
            b,
            lines.subrange(1, lines.len() - 1),
        ) + seq![32u8] + lines.last() + seq![32u8] + end
    }
}

/// The header synthesized for this comment kind and license text.
pub open spec fn synthesized(kind: CommentKind, license: Seq<u8>) -> Seq<u8> {
    match kind {
        CommentKind::Single(p) => single_header(p@, split_lines(license)),
        CommentKind::Multi { start, end, between } => multi_header(
            start@,
            end@,
            opt_view(between),
            license,
        ),
    }
}

/// Builds the comment header encoding `license` in the given style.
pub fn synthesize_header(kind: &CommentKind, license: &Vec<u8>) -> (r: Vec<u8>)
    ensures
        r@ == synthesized(*kind, license@),
{
    let lines = split_lines_exec(license);
    let ghost lv = line_views(lines@);
    let mut out: Vec<u8> = Vec::new();
    match kind {
        CommentKind::Single(prefix) => {
            let mut i: usize = 0;
            proof {
                assert(lv.take(0) =~= Seq::<Seq<u8>>::empty());
            }
            while i < lines.len()
                invariant
                    i <= lines@.len(),
                    lv == line_views(lines@),
                    lv == split_lines(license@),
                    kind matches CommentKind::Single(p) && p@ == prefix@,
                    out@ == single_header(prefix@, lv.take(i as int)),
                decreases lines@.len() - i,
            {
                let ghost prev = out@;
                push_bytes(&mut out, prefix);
                if lines[i].len() > 0 {
                    out.push(32);
                    push_bytes(&mut out, &lines[i]);
                }
                out.push(10);
                proof {
                    assert(lv.take(i + 1).drop_last() =~= lv.take(i as int));
                    assert(lv.take(i + 1).last() == lv[i as int]);
                    assert(lv[i as int] == lines@[i as int]@);
                    assert(out@ =~= prev + single_chunk(prefix@, lv[i as int]) + seq![10u8]);
                }
                i += 1;
            }
            proof {
                assert(lv.take(lines@.len() as int) =~= lv);
            }
        },
        CommentKind::Multi { start, end, between } => {
            let empty_between: Vec<u8> = Vec::new();
            let b: &Vec<u8> = match between {
                Some(x) => x,
                None => &empty_between,
            };
            proof {
                assert(b@ == match opt_view(*between) {
                    Some(x) => x,
                    None => Seq::<u8>::empty(),
                });
            }
            if lines.len() <= 1 {
                push_bytes(&mut out, start);
                out.push(32);
                push_bytes(&mut out, license);
                out.push(32);
                push_bytes(&mut out, end);
                proof {
                    assert(out@ =~= start@ + seq![32u8] + license@ + seq![32u8] + end@);
                }
            } else {
                let n: usize = lines.len();
                push_bytes(&mut out, start);
                out.push(32);
                push_bytes(&mut out, &lines[0]);
                out.push(10);
                let ghost head = start@ + seq![32u8] + lv[0] + seq![10u8];
                proof {
                    assert(out@ =~= head + multi_interior(b@, lv.subrange(1, 1)));
                }
                let mut i: usize = 1;
                while i < n - 1
                    invariant
                        1 <= i <= n - 1,
                        n == lines@.len(),
                        lv == line_views(lines@),
                        head == start@ + seq![32u8] + lv[0] + seq![10u8],
                        out@ == head + multi_interior(b@, lv.subrange(1, i as int)),
                    decreases n - i,
                {
                    let ghost prev = out@;
                    push_bytes(&mut out, b);
                    out.push(32);
                    push_bytes(&mut out, &lines[i]);
                    out.push(10);
                    proof {
                        assert(lv.subrange(1, i + 1).drop_last() =~= lv.subrange(1, i as int));
                        assert(lv.subrange(1, i + 1).last() == lv[i as int]);
                        assert(lv[i as int] == lines@[i as int]@);
                        assert(out@ =~= prev + b@ + seq![32u8] + lv[i as int] + seq![10u8]);
                    }
                    i += 1;
                }
                out.push(32);
                push_bytes(&mut out, &lines[n - 1]);
                out.push(32);
                push_bytes(&mut out, end);
                proof {
                    assert(lv.last() == lv[n - 1]);
                    assert(lv[n - 1] == lines@[n - 1]@);
                    assert(out@ =~= head + multi_interior(b@, lv.subrange(1, n - 1)) + seq![32u8]
                        + lv[n - 1] + seq![32u8] + end@);
                }
            }
        },
    }
    out
}

} // verus!
