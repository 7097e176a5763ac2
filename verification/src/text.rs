//! Byte-string model: the library treats all text as UTF-8 byte sequences.
//! Whitespace trimming, line splitting and token stripping are specified
//! here and proved against the executable helpers.

use vstd::prelude::*;

verus! {

/// The byte is an ASCII whitespace character in the sense used for
/// trimming: space, tab, line feed, vertical tab, form feed or
/// carriage return.
pub open spec fn is_space(b: u8) -> bool {
    b == 32 || b == 9 || b == 10 || b == 11 || b == 12 || b == 13
}

/// `s` with its leading whitespace removed.
pub open spec fn trim_start(s: Seq<u8>) -> Seq<u8>
    decreases s.len(),
{
    if s.len() > 0 && is_space(s[0]) {
        trim_start(s.skip(1))
    } else {
        s
    }
}

/// `s` with its trailing whitespace removed.
pub open spec fn trim_end(s: Seq<u8>) -> Seq<u8>
    decreases s.len(),
{
    if s.len() > 0 && is_space(s[s.len() - 1]) {
        trim_end(s.drop_last())
    } else {
        s
    }
}

/// `s` with surrounding whitespace removed.
pub open spec fn trim(s: Seq<u8>) -> Seq<u8> {
    trim_end(trim_start(s))
}

/// `p` is a prefix of `s`.
pub open spec fn has_prefix(s: Seq<u8>, p: Seq<u8>) -> bool {
    p.len() <= s.len() && s.subrange(0, p.len() as int) == p
}

/// `p` is a suffix of `s`.
pub open spec fn has_suffix(s: Seq<u8>, p: Seq<u8>) -> bool {
    p.len() <= s.len() && s.subrange(s.len() - p.len(), s.len() as int) == p
}

/// `s` with one leading occurrence of `p` removed, if `p` is a prefix.
pub open spec fn strip_prefix_once(s: Seq<u8>, p: Seq<u8>) -> Seq<u8> {
    if has_prefix(s, p) {
        s.skip(p.len() as int)
    } else {
        s
    }
}

/// `s` with one trailing occurrence of `p` removed, if `p` is a suffix.
pub open spec fn strip_suffix_once(s: Seq<u8>, p: Seq<u8>) -> Seq<u8> {
    if has_suffix(s, p) {
        s.take(s.len() - p.len())
    } else {
        s
    }
}

/// Index of the first line feed in `s`, or `s.len()` if there is none.
pub open spec fn line_break(s: Seq<u8>) -> int
    decreases s.len(),
{
    if s.len() == 0 {
        0
    } else if s[0] == 10 {
        0
    } else {
        1 + line_break(s.skip(1))
    }
}

/// `s` with one trailing carriage return removed, if present.
pub open spec fn strip_cr(s: Seq<u8>) -> Seq<u8> {
    if s.len() > 0 && s[s.len() - 1] == 13 {
        s.drop_last()
    } else {
        s
    }
}

/// The lines of `s`: segments split at line feeds, each stripped of one
/// carriage return left over from a CR-LF line ending; a final line
/// ending is optional and produces no empty last line.
pub open spec fn split_lines(s: Seq<u8>) -> Seq<Seq<u8>>
    decreases s.len(),
{
    if s.len() == 0 {
        Seq::empty()
    } else {
        let i = line_break(s);
        if 0 <= i < s.len() {
            seq![strip_cr(s.take(i))] + split_lines(s.skip(i + 1))
        } else {
            seq![s]
        }
    }
}

/// The lines joined with a single line feed between them, none trailing.
pub open spec fn join_lines(ls: Seq<Seq<u8>>) -> Seq<u8>
    decreases ls.len(),
{
    if ls.len() == 0 {
        Seq::empty()
    } else if ls.len() == 1 {
        ls[0]
    } else {
        join_lines(ls.drop_last()) + seq![10u8] + ls.last()
    }
}

/// The views of a sequence of byte vectors.
pub open spec fn line_views(vs: Seq<Vec<u8>>) -> Seq<Seq<u8>> {
    vs.map_values(|v: Vec<u8>| v@)
}

fn is_space_exec(b: u8) -> (r: bool)
    ensures
        r == is_space(b),
{
    b == 32 || b == 9 || b == 10 || b == 11 || b == 12 || b == 13
}

/// Whether the two byte strings hold the same bytes.
pub fn bytes_eq(a: &Vec<u8>, b: &Vec<u8>) -> (r: bool)
    ensures
        r == (a@ == b@),
{
    if a.len() != b.len() {
        return false;
    }
    let mut i: usize = 0;
    while i < a.len()
        invariant
            i <= a.len(),
            a.len() == b.len(),
            forall|j: int| 0 <= j < i ==> a@[j] == b@[j],
        decreases a.len() - i,
    {
        if a[i] != b[i] {
            return false;
        }
        i += 1;
    }
    proof {
        assert(a@ =~= b@);
    }
    true
}

/// A copy of `s[a..b]`.
pub fn subvec(s: &Vec<u8>, a: usize, b: usize) -> (r: Vec<u8>)
    requires
        a <= b <= s@.len(),
    ensures
        r@ == s@.subrange(a as int, b as int),
{
    let mut r: Vec<u8> = Vec::new();
    let mut k: usize = a;
    while k < b
        invariant
            a <= k <= b <= s@.len(),
            r@ == s@.subrange(a as int, k as int),
        decreases b - k,
    {
        r.push(s[k]);
        proof {
            assert(s@.subrange(a as int, k + 1) =~= s@.subrange(a as int, k as int).push(s@[k as int]));
        }
        k += 1;
    }
    r
}

/// Appends `src` to `dst`.
pub fn push_bytes(dst: &mut Vec<u8>, src: &Vec<u8>)
    ensures
        final(dst)@ == old(dst)@ + src@,
{
    let mut k: usize = 0;
    while k < src.len()
        invariant
            k <= src@.len(),
            dst@ == old(dst)@ + src@.subrange(0, k as int),
        decreases src@.len() - k,
    {
        dst.push(src[k]);
        proof {
            assert(src@.subrange(0, k + 1) =~= src@.subrange(0, k as int).push(src@[k as int]));
            assert(old(dst)@ + src@.subrange(0, k + 1)
                =~= (old(dst)@ + src@.subrange(0, k as int)).push(src@[k as int]));
        }
        k += 1;
    }
    proof {
        assert(src@.subrange(0, src@.len() as int) =~= src@);
    }
}

proof fn lemma_trim_start_skip(s: Seq<u8>, i: int)
    requires
        0 <= i <= s.len(),
        forall|k: int| 0 <= k < i ==> is_space(s[k]),
        i < s.len() ==> !is_space(s[i]),
    ensures
        trim_start(s) == s.skip(i),
    decreases i,
{
    if i == 0 {
        assert(s.skip(0) =~= s);
    } else {
        assert(is_space(s[0]));
        lemma_trim_start_skip(s.skip(1), i - 1);
        assert(s.skip(1).skip(i - 1) =~= s.skip(i));
    }
}

proof fn lemma_trim_end_take(s: Seq<u8>, j: int)
    requires
        0 <= j <= s.len(),
        forall|k: int| j <= k < s.len() ==> is_space(s[k]),
        j > 0 ==> !is_space(s[j - 1]),
    ensures
        trim_end(s) == s.take(j),
    decreases s.len() - j,
{
    if j == s.len() {
        assert(s.take(j) =~= s);
    } else {
        assert(is_space(s[s.len() - 1]));
        lemma_trim_end_take(s.drop_last(), j);
        assert(s.drop_last().take(j) =~= s.take(j));
    }
}

/// Trimming is unaffected by an added trailing whitespace byte.
pub proof fn lemma_trim_push_space(s: Seq<u8>, c: u8)
    requires
        is_space(c),
    ensures
        trim(s.push(c)) == trim(s),
    decreases s.len(),
{
    if s.len() > 0 && is_space(s[0]) {
        assert(s.push(c).skip(1) =~= s.skip(1).push(c));
        lemma_trim_push_space(s.skip(1), c);
        assert(trim_start(s.push(c)) == trim_start(s.skip(1).push(c)));
    } else if s.len() == 0 {
        assert(s.push(c)[0] == c);
        assert(trim_start(s.push(c)) == trim_start(s.push(c).skip(1)));
        assert(s.push(c).skip(1) =~= s);
    } else {
        assert(s.push(c)[0] == s[0]);
        assert(trim_start(s.push(c)) == s.push(c));
        assert(trim_start(s) == s);
        assert(s.push(c).drop_last() =~= s);
        assert(trim_end(s.push(c)) == trim_end(s));
    }
}

/// Trimming is unaffected by an added leading whitespace byte.
pub proof fn lemma_trim_prepend_space(s: Seq<u8>, c: u8)
    requires
        is_space(c),
    ensures
        trim(seq![c] + s) == trim(s),
{
    assert((seq![c] + s)[0] == c);
    assert((seq![c] + s).skip(1) =~= s);
}

/// First line split: when the first line feed of `s` stands at `i`,
/// the lines of `s` are the stripped head segment followed by the lines
/// of the tail; when `s` holds no line feed, `s` is its only line.
pub proof fn lemma_split_lines_at(s: Seq<u8>, i: int)
    requires
        s.len() > 0,
        0 <= i <= s.len(),
        forall|k: int| 0 <= k < i ==> s[k] != 10,
        i < s.len() ==> s[i] == 10,
    ensures
        i < s.len() ==> split_lines(s) == seq![strip_cr(s.take(i))] + split_lines(s.skip(i + 1)),
        i == s.len() ==> split_lines(s) == seq![s],
{
    lemma_line_break_at(s, i);
}

proof fn lemma_line_break_at(s: Seq<u8>, i: int)
    requires
        0 <= i <= s.len(),
        forall|k: int| 0 <= k < i ==> s[k] != 10,
        i < s.len() ==> s[i] == 10,
    ensures
        line_break(s) == i,
    decreases i,
{
    if i == 0 {
    } else {
        assert(s[0] != 10);
        lemma_line_break_at(s.skip(1), i - 1);
    }
}

/// Joining onto a non-empty tail of lines distributes over the head.
pub proof fn lemma_join_cons(x: Seq<u8>, ls: Seq<Seq<u8>>)
    requires
        ls.len() > 0,
    ensures
        join_lines(seq![x] + ls) == x + seq![10u8] + join_lines(ls),
    decreases ls.len(),
{
    let whole = seq![x] + ls;
    if ls.len() == 1 {
        assert(whole.drop_last() =~= seq![x]);
        assert(join_lines(seq![x]) == x);
        assert(whole.last() == ls[0]);
        assert(join_lines(ls) == ls[0]);
    } else {
        assert(whole.drop_last() =~= seq![x] + ls.drop_last());
        lemma_join_cons(x, ls.drop_last());
        assert(whole.last() == ls.last());
        assert(x + seq![10u8] + (join_lines(ls.drop_last()) + seq![10u8] + ls.last())
            =~= (x + seq![10u8] + join_lines(ls.drop_last())) + seq![10u8] + ls.last());
    }
}

/// `s` holds no carriage return followed by a line feed.
pub open spec fn crlf_free(s: Seq<u8>) -> bool {
    forall|k: int| 0 <= k < s.len() - 1 ==> !((#[trigger] s[k]) == 13 && s[k + 1] == 10)
}

/// Splitting then joining restores `s` up to one optional final line
/// feed, provided `s` holds no CR-LF pair.
pub proof fn lemma_join_split(s: Seq<u8>)
    requires
        crlf_free(s),
    ensures
        s.len() > 0 && s[s.len() - 1] == 10 ==> join_lines(split_lines(s)).push(10u8) == s,
        !(s.len() > 0 && s[s.len() - 1] == 10) ==> join_lines(split_lines(s)) == s,
    decreases s.len(),
{
    if s.len() == 0 {
    } else {
        let i = line_break(s);
        lemma_line_break_bounds(s);
        if i == s.len() {
            assert(s[s.len() - 1] != 10);
        } else {
            assert(s[i] == 10);
            let head = s.take(i);
            if head.len() > 0 && head[head.len() - 1] == 13 {
                assert(s[i - 1] == 13 && s[i] == 10);
                assert(false);
            }
            assert(strip_cr(head) == head);
            let tail = s.skip(i + 1);
            assert(crlf_free(tail)) by {
                assert(forall|k: int| 0 <= k < tail.len() - 1
                    ==> (#[trigger] tail[k]) == s[k + i + 1] && tail[k + 1] == s[k + i + 2]);
            }
            lemma_join_split(tail);
            if tail.len() == 0 {
                assert(split_lines(s) == seq![head] + split_lines(tail));
                assert(split_lines(tail) == Seq::<Seq<u8>>::empty());
                assert(seq![head] + Seq::<Seq<u8>>::empty() =~= seq![head]);
                assert(join_lines(split_lines(s)) == head);
                assert(i == s.len() - 1);
                assert(s[s.len() - 1] == 10);
                assert(head.push(10u8) =~= s);
            } else {
                assert(split_lines(tail).len() > 0);
                lemma_join_cons(head, split_lines(tail));
                assert(split_lines(s) == seq![head] + split_lines(tail));
                if tail[tail.len() - 1] == 10 {
                    assert(s[s.len() - 1] == tail[tail.len() - 1]);
                    assert((head + seq![10u8] + join_lines(split_lines(tail))).push(10u8)
                        =~= head + seq![10u8] + join_lines(split_lines(tail)).push(10u8));
                    assert(head + seq![10u8] + tail =~= s);
                } else {
                    assert(s[s.len() - 1] == tail[tail.len() - 1]);
                    assert(head + seq![10u8] + tail =~= s);
                }
            }
        }
    }
}

pub proof fn lemma_line_break_bounds(s: Seq<u8>)
    ensures
        0 <= line_break(s) <= s.len(),
        line_break(s) < s.len() ==> s[line_break(s)] == 10,
        forall|k: int| 0 <= k < line_break(s) ==> s[k] != 10,
    decreases s.len(),
{
    if s.len() == 0 {
    } else if s[0] == 10 {
    } else {
        lemma_line_break_bounds(s.skip(1));
        assert(forall|k: int| 1 <= k < line_break(s) ==> s[k] == s.skip(1)[k - 1]);
    }
}

/// No line produced by `split_lines` holds a line feed.
pub proof fn lemma_split_lines_clean(s: Seq<u8>)
    ensures
        forall|n: int, k: int|
            0 <= n < split_lines(s).len() && 0 <= k < split_lines(s)[n].len()
                ==> split_lines(s)[n][k] != 10,
    decreases s.len(),
{
    if s.len() == 0 {
    } else {
        let i = line_break(s);
        lemma_line_break_bounds(s);
        if i < s.len() {
            lemma_split_lines_clean(s.skip(i + 1));
            let head = strip_cr(s.take(i));
            assert(forall|k: int| 0 <= k < head.len() ==> head[k] == s[k] && s[k] != 10);
            assert(forall|n: int| 1 <= n < split_lines(s).len()
                ==> split_lines(s)[n] == split_lines(s.skip(i + 1))[n - 1]);
        } else {
            assert(forall|k: int| 0 <= k < s.len() ==> s[k] != 10);
        }
    }
}

/// Removes surrounding whitespace.
pub fn trim_bytes(s: &Vec<u8>) -> (r: Vec<u8>)
    ensures
        r@ == trim(s@),
{
    let n: usize = s.len();
    let mut i: usize = 0;
    while i < n && is_space_exec(s[i])
        invariant
            i <= n,
            n == s@.len(),
            forall|k: int| 0 <= k < i ==> is_space(s@[k]),
        decreases n - i,
    {
        i += 1;
    }
    let mut j: usize = n;
    while j > i && is_space_exec(s[j - 1])
        invariant
            i <= j <= n,
            n == s@.len(),
            forall|k: int| j <= k < n ==> is_space(s@[k]),
        decreases j,
    {
        j -= 1;
    }
    if i == j {
        proof {
            if i < n {
                assert(!is_space(s@[i as int]));
                assert(is_space(s@[i as int]));
            }
            lemma_trim_start_skip(s@, i as int);
            assert(s@.skip(i as int) =~= Seq::<u8>::empty());
        }
        Vec::new()
    } else {
        proof {
            lemma_trim_start_skip(s@, i as int);
            let t = s@.skip(i as int);
            assert(forall|k: int| j - i <= k < t.len() ==> t[k] == s@[k + i] && is_space(s@[k + i]));
            assert(t[j - i - 1] == s@[j - 1]);
            lemma_trim_end_take(t, j - i);
            assert(t.take(j - i) =~= s@.subrange(i as int, j as int));
        }
        subvec(s, i, j)
    }
}

/// Whether `p` is a prefix of `s`.
pub fn starts_with(s: &Vec<u8>, p: &Vec<u8>) -> (r: bool)
    ensures
        r == has_prefix(s@, p@),
{
    if p.len() > s.len() {
        return false;
    }
    let mut k: usize = 0;
    while k < p.len()
        invariant
            k <= p@.len() <= s@.len(),
            forall|m: int| 0 <= m < k ==> s@[m] == p@[m],
        decreases p@.len() - k,
    {
        if s[k] != p[k] {
            proof {
                assert(s@.subrange(0, p@.len() as int)[k as int] != p@[k as int]);
            }
            return false;
        }
        k += 1;
    }
    proof {
        assert(s@.subrange(0, p@.len() as int) =~= p@);
    }
    true
}

/// Whether `p` is a suffix of `s`.
pub fn ends_with(s: &Vec<u8>, p: &Vec<u8>) -> (r: bool)
    ensures
        r == has_suffix(s@, p@),
{
    if p.len() > s.len() {
        return false;
    }
    let n: usize = s.len();
    let off: usize = n - p.len();
    let mut k: usize = 0;
    while k < p.len()
        invariant
            k <= p@.len() <= s@.len(),
            n == s@.len(),
            off == s@.len() - p@.len(),
            forall|m: int| 0 <= m < k ==> s@[off + m] == p@[m],
        decreases p@.len() - k,
    {
        if s[off + k] != p[k] {
            proof {
                assert(s@.subrange(s@.len() - p@.len(), s@.len() as int)[k as int] != p@[k as int]);
            }
            return false;
        }
        k += 1;
    }
    proof {
        assert(s@.subrange(s@.len() - p@.len(), s@.len() as int) =~= p@);
    }
    true
}

/// Removes one leading occurrence of `p`, if present.
pub fn strip_prefix(s: &Vec<u8>, p: &Vec<u8>) -> (r: Vec<u8>)
    ensures
        r@ == strip_prefix_once(s@, p@),
{
    if starts_with(s, p) {
        let r = subvec(s, p.len(), s.len());
        proof {
            assert(s@.subrange(p@.len() as int, s@.len() as int) =~= s@.skip(p@.len() as int));
        }
        r
    } else {
        subvec(s, 0, s.len())
    }
}

/// Removes one trailing occurrence of `p`, if present.
pub fn strip_suffix(s: &Vec<u8>, p: &Vec<u8>) -> (r: Vec<u8>)
    ensures
        r@ == strip_suffix_once(s@, p@),
{
    if ends_with(s, p) {
        let r = subvec(s, 0, s.len() - p.len());
        proof {
            assert(s@.subrange(0, s@.len() - p@.len()) =~= s@.take(s@.len() - p@.len()));
        }
        r
    } else {
        subvec(s, 0, s.len())
    }
}

/// Splits `s` into its lines.
pub fn split_lines_exec(s: &Vec<u8>) -> (r: Vec<Vec<u8>>)
    ensures
        line_views(r@) == split_lines(s@),
{
    let mut out: Vec<Vec<u8>> = Vec::new();
    let mut start: usize = 0;
    let n: usize = s.len();
    proof {
        assert(s@.skip(0) =~= s@);
        assert(line_views(out@) + split_lines(s@) =~= split_lines(s@));
    }
    while start < n
        invariant
            start <= n,
            n == s@.len(),
            split_lines(s@) == line_views(out@) + split_lines(s@.skip(start as int)),
        decreases n - start,
    {
        let ghost rest = s@.skip(start as int);
        let mut j: usize = start;
        while j < n && s[j] != 10
            invariant
                start <= j <= n,
                n == s@.len(),
                forall|k: int| start <= k < j ==> s@[k] != 10,
            decreases n - j,
        {
            j += 1;
        }
        proof {
            assert(forall|k: int| 0 <= k < j - start ==> rest[k] == s@[k + start] && rest[k] != 10);
            if j < n {
                assert(rest[j - start] == s@[j as int]);
            }
            lemma_split_lines_at(rest, j - start);
        }
        if j < n {
            let end: usize = if j > start && s[j - 1] == 13 {
                j - 1
            } else {
                j
            };
            let line = subvec(s, start, end);
            proof {
                assert(rest.take(j - start) =~= s@.subrange(start as int, j as int));
                if j > start && s@[j - 1] == 13 {
                    assert(strip_cr(rest.take(j - start)) =~= s@.subrange(start as int, end as int));
                } else {
                    assert(strip_cr(rest.take(j - start)) =~= s@.subrange(start as int, end as int));
                }
                assert(rest.skip(j - start + 1) =~= s@.skip(j + 1));
                assert(line_views(out@.push(line)) =~= line_views(out@).push(line@));
                assert(line_views(out@) + (seq![line@] + split_lines(s@.skip(j + 1)))
                    =~= line_views(out@).push(line@) + split_lines(s@.skip(j + 1)));
            }
            out.push(line);
            start = j + 1;
        } else {
            let line = subvec(s, start, n);
            proof {
                assert(rest =~= s@.subrange(start as int, n as int));
                assert(line_views(out@.push(line)) =~= line_views(out@).push(line@));
                assert(s@.skip(n as int) =~= Seq::<u8>::empty());
                assert(line_views(out@) + seq![line@]
                    =~= line_views(out@).push(line@) + split_lines(s@.skip(n as int)));
            }
            out.push(line);
            start = n;
        }
    }
    proof {
        assert(s@.skip(n as int) =~= Seq::<u8>::empty());
        assert(line_views(out@) + split_lines(s@.skip(n as int)) =~= line_views(out@));
    }
    out
}

/// Joins lines with single line feeds.
pub fn join_lines_exec(lines: &Vec<Vec<u8>>) -> (r: Vec<u8>)
    ensures
        r@ == join_lines(line_views(lines@)),
{
    let mut out: Vec<u8> = Vec::new();
    let mut i: usize = 0;
    proof {
        assert(line_views(lines@).take(0) =~= Seq::<Seq<u8>>::empty());
    }
    while i < lines.len()
        invariant
            i <= lines@.len(),
            out@ == join_lines(line_views(lines@).take(i as int)),
        decreases lines@.len() - i,
    {
        let ghost lv = line_views(lines@);
        if i > 0 {
            out.push(10);
        }
        push_bytes(&mut out, &lines[i]);
        proof {
            assert(lv.take(i + 1).len() == i + 1);
            assert(lv.take(i + 1).last() == lines@[i as int]@);
            if i == 0 {
                assert(join_lines(lv.take(1)) == lv.take(1)[0]);
                assert(out@ =~= lv[0]);
            } else {
                assert(lv.take(i + 1).drop_last() =~= lv.take(i as int));
                assert(join_lines(lv.take(i + 1))
                    == join_lines(lv.take(i as int)) + seq![10u8] + lv[i as int]);
                assert(out@ =~= join_lines(lv.take(i as int)) + seq![10u8] + lv[i as int]);
            }
        }
        i += 1;
    }
    proof {
        assert(line_views(lines@).take(lines@.len() as int) =~= line_views(lines@));
    }
    out
}

} // verus!
