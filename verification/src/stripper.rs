use vstd::prelude::*;

verus! {

/// A read-only view of one node of a syntax tree: its kind name, its byte
/// range [start, end) in the source text the tree was built from, and its
/// children in document order. The stripper never mutates the tree, only the
/// separate source buffer.
pub struct SyntaxNode {
    pub kind: String,
    pub start: usize,
    pub end: usize,
    pub children: Vec<SyntaxNode>,
}

/// Whether `kind` names a comment: it equals one of the configured
/// comment node-kind names.
pub open spec fn kind_in(kind: Seq<char>, kinds: Seq<String>) -> bool {
    exists|i: int| 0 <= i < kinds.len() && #[trigger] kinds[i]@ == kind
}

/// The byte ranges, in pre-order, of the comment nodes that the traversal
/// strips. Children of a stripped node are skipped: their spans lie inside
/// the span just replaced, and visiting them again would edit already
/// rewritten text.
pub open spec fn comment_spans(node: SyntaxNode, kinds: Seq<String>) -> Seq<(int, int)>
    decreases node, node.children@.len() + 1,
{
    if kind_in(node.kind@, kinds) {
        seq![(node.start as int, node.end as int)]
    } else {
        child_spans(node, 0, kinds)
    }
}

/// The concatenated comment spans of `node.children[i..]`.
pub open spec fn child_spans(node: SyntaxNode, i: int, kinds: Seq<String>) -> Seq<(int, int)>
    decreases node, node.children@.len() - i,
{
    if i < 0 || i >= node.children@.len() {
        Seq::empty()
    } else {
        comment_spans(node.children@[i], kinds) + child_spans(node, i + 1, kinds)
    }
}

/// Every span lies within a buffer of length `len`, with its start before
/// its end.
pub open spec fn spans_bounded(spans: Seq<(int, int)>, len: int) -> bool {
    forall|k: int|
        0 <= k < spans.len() ==> 0 <= (#[trigger] spans[k]).0 <= spans[k].1 <= len
}

/// The spans are disjoint and in increasing position order, each within
/// [lo, len]: the first starts at or after `lo`, and each next span starts
/// at or after the end of the previous one.
pub open spec fn spans_ordered(spans: Seq<(int, int)>, lo: int, len: int) -> bool
    decreases spans.len(),
{
    if spans.len() == 0 {
        true
    } else {
        lo <= spans[0].0 <= spans[0].1 <= len && spans_ordered(spans.drop_first(), spans[0].1, len)
    }
}

/// Whether byte position `j` falls inside one of the spans.
pub open spec fn covered(spans: Seq<(int, int)>, j: int) -> bool {
    exists|k: int| 0 <= k < spans.len() && (#[trigger] spans[k]).0 <= j < spans[k].1
}

/// The buffer with every position inside one of the spans replaced by a
/// space: the whitespace-preserving mode. The length never changes.
pub open spec fn blank_all(spans: Seq<(int, int)>, buf: Seq<u8>) -> Seq<u8> {
    Seq::new(buf.len(), |j: int| if covered(spans, j) { 32u8 } else { buf[j] })
}

/// The concatenated comment spans of `node.children[..i]`, the part a
/// left-to-right traversal has already visited.
pub open spec fn child_spans_upto(node: SyntaxNode, i: int, kinds: Seq<String>) -> Seq<(int, int)>
    decreases i,
{
    if i <= 0 {
        Seq::empty()
    } else {
        child_spans_upto(node, i - 1, kinds) + comment_spans(node.children@[i - 1], kinds)
    }
}

proof fn lemma_child_spans_split(node: SyntaxNode, i: int, kinds: Seq<String>)
    requires
        0 <= i <= node.children@.len(),
    ensures
        child_spans_upto(node, i, kinds) + child_spans(node, i, kinds) == child_spans(
            node,
            0,
            kinds,
        ),
    decreases i,
{
    if i <= 0 {
        assert(child_spans_upto(node, 0, kinds) + child_spans(node, 0, kinds) =~= child_spans(
            node,
            0,
            kinds,
        ));
    } else {
        lemma_child_spans_split(node, i - 1, kinds);
        assert(child_spans(node, i - 1, kinds) == comment_spans(node.children@[i - 1], kinds)
            + child_spans(node, i, kinds));
        assert(child_spans_upto(node, i, kinds) + child_spans(node, i, kinds) =~= child_spans_upto(
            node,
            i - 1,
            kinds,
        ) + (comment_spans(node.children@[i - 1], kinds) + child_spans(node, i, kinds)));
    }
}

/// Positions covered by a concatenation are those covered by either part.
proof fn lemma_covered_concat(s1: Seq<(int, int)>, s2: Seq<(int, int)>, j: int)
    ensures
        covered(s1 + s2, j) <==> (covered(s1, j) || covered(s2, j)),
{
    if covered(s1, j) {
        let k = choose|k: int| 0 <= k < s1.len() && (#[trigger] s1[k]).0 <= j < s1[k].1;
        assert((s1 + s2)[k] == s1[k]);
    }
    if covered(s2, j) {
        let k = choose|k: int| 0 <= k < s2.len() && (#[trigger] s2[k]).0 <= j < s2[k].1;
        assert((s1 + s2)[k + s1.len()] == s2[k]);
    }
    if covered(s1 + s2, j) {
        let k = choose|k: int| 0 <= k < (s1 + s2).len() && (#[trigger] (s1 + s2)[k]).0 <= j < (s1
            + s2)[k].1;
        if k < s1.len() {
            assert(s1[k] == (s1 + s2)[k]);
        } else {
            assert(s2[k - s1.len()] == (s1 + s2)[k]);
        }
    }
}

/// Blanking a concatenation of span lists is blanking one list, then the
/// other.
proof fn lemma_blank_all_concat(s1: Seq<(int, int)>, s2: Seq<(int, int)>, buf: Seq<u8>)
    ensures
        blank_all(s2, blank_all(s1, buf)) == blank_all(s1 + s2, buf),
{
    assert forall|j: int| 0 <= j < buf.len() implies blank_all(s2, blank_all(s1, buf))[j]
        == blank_all(s1 + s2, buf)[j] by {
        lemma_covered_concat(s1, s2, j);
    }
    assert(blank_all(s2, blank_all(s1, buf)) =~= blank_all(s1 + s2, buf));
}

proof fn lemma_spans_bounded_concat(s1: Seq<(int, int)>, s2: Seq<(int, int)>, len: int)
    requires
        spans_bounded(s1 + s2, len),
    ensures
        spans_bounded(s1, len),
        spans_bounded(s2, len),
{
    assert forall|k: int| 0 <= k < s1.len() implies 0 <= (#[trigger] s1[k]).0 <= s1[k].1
        <= len by {
        assert((s1 + s2)[k] == s1[k]);
    }
    assert forall|k: int| 0 <= k < s2.len() implies 0 <= (#[trigger] s2[k]).0 <= s2[k].1
        <= len by {
        assert((s1 + s2)[k + s1.len()] == s2[k]);
    }
}

/// The newline characters of `s`, in order, with everything else removed.
pub open spec fn nl_filter(s: Seq<u8>) -> Seq<u8>
    decreases s.len(),
{
    if s.len() == 0 {
        Seq::empty()
    } else if s[0] == 10u8 {
        seq![10u8] + nl_filter(s.drop_first())
    } else {
        nl_filter(s.drop_first())
    }
}

/// Every span shifted by `off`: tree coordinates moved to positions in the
/// live buffer after earlier replacements.
pub open spec fn shift_spans(spans: Seq<(int, int)>, off: int) -> Seq<(int, int)> {
    spans.map_values(|s: (int, int)| (s.0 + off, s.1 + off))
}

/// The suffix `buf[from..]` with the bytes of each span replaced by just the
/// newlines they contain: the newline-preserving mode. The spans are in live
/// buffer coordinates, disjoint and increasing.
pub open spec fn nl_apply(spans: Seq<(int, int)>, buf: Seq<u8>, from: int) -> Seq<u8>
    decreases spans.len(),
{
    if spans.len() == 0 {
        buf.skip(from)
    } else {
        buf.subrange(from, spans[0].0) + nl_filter(buf.subrange(spans[0].0, spans[0].1))
            + nl_apply(spans.drop_first(), buf, spans[0].1)
    }
}

proof fn lemma_nl_filter_len(s: Seq<u8>)
    ensures
        nl_filter(s).len() <= s.len(),
    decreases s.len(),
{
    if s.len() > 0 {
        lemma_nl_filter_len(s.drop_first());
    }
}

proof fn lemma_nl_filter_push(s: Seq<u8>, x: u8)
    ensures
        nl_filter(s.push(x)) == nl_filter(s) + (if x == 10u8 {
            seq![10u8]
        } else {
            Seq::<u8>::empty()
        }),
    decreases s.len(),
{
    let tail = (if x == 10u8 {
        seq![10u8]
    } else {
        Seq::<u8>::empty()
    });
    if s.len() == 0 {
        assert(s.push(x)[0] == x);
        assert(s.push(x).drop_first() =~= Seq::<u8>::empty());
        assert(nl_filter(Seq::<u8>::empty()) == Seq::<u8>::empty());
        if x == 10u8 {
            assert(nl_filter(s.push(x)) =~= nl_filter(s) + tail);
        } else {
            assert(nl_filter(s.push(x)) =~= nl_filter(s) + tail);
        }
    } else {
        assert(s.push(x).drop_first() =~= s.drop_first().push(x));
        lemma_nl_filter_push(s.drop_first(), x);
        if s[0] == 10u8 {
            assert(nl_filter(s.push(x)) =~= nl_filter(s) + tail);
        } else {
            assert(nl_filter(s.push(x)) =~= nl_filter(s) + tail);
        }
    }
}

proof fn lemma_spans_ordered_shift(s: Seq<(int, int)>, lo: int, len: int, d: int)
    requires
        spans_ordered(s, lo, len),
    ensures
        spans_ordered(shift_spans(s, d), lo + d, len + d),
    decreases s.len(),
{
    if s.len() > 0 {
        assert(shift_spans(s, d)[0] == (s[0].0 + d, s[0].1 + d));
        assert(shift_spans(s, d).drop_first() =~= shift_spans(s.drop_first(), d));
        lemma_spans_ordered_shift(s.drop_first(), s[0].1, len, d);
    }
}

proof fn lemma_spans_ordered_weaken(s: Seq<(int, int)>, lo: int, len: int, lo2: int, len2: int)
    requires
        spans_ordered(s, lo, len),
        lo2 <= lo,
        len <= len2,
    ensures
        spans_ordered(s, lo2, len2),
    decreases s.len(),
{
    if s.len() > 0 {
        lemma_spans_ordered_weaken(s.drop_first(), s[0].1, len, s[0].1, len2);
    }
}

/// An ordered concatenation splits: the first part is ordered from the same
/// lower bound, and the second from the end of the first part's last span.
proof fn lemma_spans_ordered_split(s1: Seq<(int, int)>, s2: Seq<(int, int)>, lo: int, len: int)
    requires
        spans_ordered(s1 + s2, lo, len),
    ensures
        spans_ordered(s1, lo, len),
        spans_ordered(s2, if s1.len() == 0 { lo } else { s1.last().1 }, len),
    decreases s1.len(),
{
    if s1.len() == 0 {
        assert(s1 + s2 =~= s2);
    } else {
        assert((s1 + s2)[0] == s1[0]);
        assert((s1 + s2).drop_first() =~= s1.drop_first() + s2);
        lemma_spans_ordered_split(s1.drop_first(), s2, s1[0].1, len);
        if s1.len() == 1 {
            assert(s1.last() == s1[0]);
        } else {
            assert(s1.drop_first().last() == s1.last());
        }
    }
}

proof fn lemma_shift_spans_concat(s1: Seq<(int, int)>, s2: Seq<(int, int)>, off: int)
    ensures
        shift_spans(s1 + s2, off) == shift_spans(s1, off) + shift_spans(s2, off),
{
    assert(shift_spans(s1 + s2, off) =~= shift_spans(s1, off) + shift_spans(s2, off));
}

proof fn lemma_shift_spans_twice(s: Seq<(int, int)>, off: int, d: int)
    ensures
        shift_spans(shift_spans(s, off), d) == shift_spans(s, off + d),
{
    assert(shift_spans(shift_spans(s, off), d) =~= shift_spans(s, off + d));
}

/// Applying spans to corresponding suffixes of two buffers that agree beyond
/// `from` (up to a uniform shift of `d`) gives the same result.
proof fn lemma_nl_apply_shift(spans: Seq<(int, int)>, buf: Seq<u8>, buf1: Seq<u8>, from: int, d: int)
    requires
        spans_ordered(spans, from, buf.len() as int),
        0 <= from <= buf.len(),
        buf1.len() == buf.len() + d,
        0 <= from + d,
        forall|j: int| from <= j < buf.len() ==> buf1[j + d] == buf[j],
    ensures
        nl_apply(shift_spans(spans, d), buf1, from + d) == nl_apply(spans, buf, from),
    decreases spans.len(),
{
    if spans.len() == 0 {
        assert(buf1.skip(from + d) =~= buf.skip(from));
        assert(shift_spans(spans, d).len() == 0);
    } else {
        let a = spans[0].0;
        let b = spans[0].1;
        assert(shift_spans(spans, d)[0] == (a + d, b + d));
        assert(shift_spans(spans, d).drop_first() =~= shift_spans(spans.drop_first(), d));
        assert(buf1.subrange(from + d, a + d) =~= buf.subrange(from, a));
        assert(buf1.subrange(a + d, b + d) =~= buf.subrange(a, b));
        lemma_nl_apply_shift(spans.drop_first(), buf, buf1, b, d);
    }
}

/// Splitting off an untouched prefix before the first span.
proof fn lemma_nl_apply_prefix(spans: Seq<(int, int)>, buf: Seq<u8>, from: int, mid: int)
    requires
        spans_ordered(spans, mid, buf.len() as int),
        0 <= from <= mid <= buf.len(),
    ensures
        nl_apply(spans, buf, from) == buf.subrange(from, mid) + nl_apply(spans, buf, mid),
{
    if spans.len() == 0 {
        assert(buf.skip(from) =~= buf.subrange(from, mid) + buf.skip(mid));
    } else {
        let a = spans[0].0;
        assert(buf.subrange(from, a) =~= buf.subrange(from, mid) + buf.subrange(mid, a));
        assert(buf.subrange(from, a) + nl_filter(buf.subrange(a, spans[0].1)) + nl_apply(
            spans.drop_first(),
            buf,
            spans[0].1,
        ) =~= buf.subrange(from, mid) + (buf.subrange(mid, a) + nl_filter(
            buf.subrange(a, spans[0].1),
        ) + nl_apply(spans.drop_first(), buf, spans[0].1)));
    }
}

/// Replacing the first span's bytes by their newlines, then applying the
/// remaining spans at the updated offset, is applying all the spans at once.
proof fn lemma_nl_apply_one(x: (int, int), t: Seq<(int, int)>, buf: Seq<u8>, off: int)
    requires
        spans_ordered(shift_spans(seq![x] + t, off), 0, buf.len() as int),
    ensures
        ({
            let a = x.0 + off;
            let b = x.1 + off;
            let repl = nl_filter(buf.subrange(a, b));
            let buf1 = buf.subrange(0, a) + repl + buf.skip(b);
            let d = repl.len() - (b - a);
            &&& buf1 == nl_apply(shift_spans(seq![x], off), buf, 0)
            &&& spans_ordered(shift_spans(t, off + d), 0, buf1.len() as int)
            &&& nl_apply(shift_spans(t, off + d), buf1, 0) == nl_apply(
                shift_spans(seq![x] + t, off),
                buf,
                0,
            )
        }),
{
    let len = buf.len() as int;
    let a = x.0 + off;
    let b = x.1 + off;
    let repl = nl_filter(buf.subrange(a, b));
    let buf1 = buf.subrange(0, a) + repl + buf.skip(b);
    let d = repl.len() - (b - a);
    let ss = shift_spans(seq![x] + t, off);
    assert((seq![x] + t)[0] == x);
    assert(ss[0] == (a, b));
    assert(ss.drop_first() =~= shift_spans(t, off));
    assert(0 <= a <= b <= len);
    assert(spans_ordered(shift_spans(t, off), b, len));
    lemma_nl_filter_len(buf.subrange(a, b));
    assert(buf1.len() == len + d);

    // conjunct 1: buf1 is the buffer after the single replacement
    assert(shift_spans(seq![x], off) =~= seq![(a, b)]);
    assert(seq![(a, b)].drop_first() =~= Seq::<(int, int)>::empty());
    assert(seq![(a, b)][0] == (a, b));
    assert(nl_apply(Seq::<(int, int)>::empty(), buf, b) == buf.skip(b));
    assert(nl_apply(seq![(a, b)], buf, 0) == buf.subrange(0, a) + nl_filter(buf.subrange(a, b))
        + buf.skip(b));
    assert(buf1 == nl_apply(shift_spans(seq![x], off), buf, 0));

    // conjunct 2: the remaining spans, re-shifted, are ordered in buf1
    lemma_spans_ordered_shift(shift_spans(t, off), b, len, d);
    lemma_shift_spans_twice(t, off, d);
    assert(spans_ordered(shift_spans(t, off + d), b + d, len + d));
    assert(b + d == a + repl.len());
    lemma_spans_ordered_weaken(shift_spans(t, off + d), b + d, len + d, 0, len + d);

    // conjunct 3: the two ways of applying agree
    assert forall|j: int| b <= j < len implies buf1[j + d] == buf[j] by {
        assert(buf1[j + d] == buf.skip(b)[j + d - (a + repl.len() as int)]);
    }
    lemma_nl_apply_shift(shift_spans(t, off), buf, buf1, b, d);
    assert(nl_apply(shift_spans(t, off + d), buf1, b + d) == nl_apply(shift_spans(t, off), buf, b));
    lemma_nl_apply_prefix(shift_spans(t, off + d), buf1, 0, b + d);
    assert(buf1.subrange(0, b + d) =~= buf.subrange(0, a) + repl);
    assert(nl_apply(ss, buf, 0) == buf.subrange(0, a) + nl_filter(buf.subrange(a, b)) + nl_apply(
        shift_spans(t, off),
        buf,
        b,
    ));
    assert(nl_apply(shift_spans(t, off + d), buf1, 0) =~= nl_apply(ss, buf, 0));
}

/// Applying a first batch of spans, then the rest at the offset the batch
/// left behind, is applying the whole list at once. This is what lets a
/// pre-order traversal thread one running offset through the tree.
proof fn lemma_nl_apply_concat(s1: Seq<(int, int)>, s2: Seq<(int, int)>, buf: Seq<u8>, off: int)
    requires
        spans_ordered(shift_spans(s1 + s2, off), 0, buf.len() as int),
    ensures
        ({
            let buf1 = nl_apply(shift_spans(s1, off), buf, 0);
            let off1 = off + buf1.len() - buf.len();
            &&& spans_ordered(shift_spans(s2, off1), 0, buf1.len() as int)
            &&& nl_apply(shift_spans(s2, off1), buf1, 0) == nl_apply(
                shift_spans(s1 + s2, off),
                buf,
                0,
            )
        }),
    decreases s1.len(),
{
    let len = buf.len() as int;
    let buf1 = nl_apply(shift_spans(s1, off), buf, 0);
    if s1.len() == 0 {
        assert(s1 + s2 =~= s2);
        assert(shift_spans(s1, off) =~= Seq::<(int, int)>::empty());
        assert(buf1 =~= buf);
    } else {
        let x = s1[0];
        let t1 = s1.drop_first();
        assert(seq![x] + t1 =~= s1);
        assert(seq![x] + (t1 + s2) =~= s1 + s2);
        lemma_nl_apply_one(x, t1 + s2, buf, off);
        let a = x.0 + off;
        let b = x.1 + off;
        let repl = nl_filter(buf.subrange(a, b));
        let bufx = buf.subrange(0, a) + repl + buf.skip(b);
        let dx = repl.len() - (b - a);
        let offx = off + dx;
        assert(bufx.len() == len + dx);
        lemma_shift_spans_concat(s1, s2, off);
        lemma_spans_ordered_split(shift_spans(s1, off), shift_spans(s2, off), 0, len);
        lemma_nl_apply_one(x, t1, buf, off);
        assert(nl_apply(shift_spans(t1, offx), bufx, 0) == nl_apply(shift_spans(s1, off), buf, 0));
        lemma_nl_apply_concat(t1, s2, bufx, offx);
        let buf1b = nl_apply(shift_spans(t1, offx), bufx, 0);
        assert(buf1b == buf1);
        let off1b = offx + buf1b.len() - bufx.len();
        assert(off1b == off + buf1.len() - len);
        assert(nl_apply(shift_spans(t1 + s2, offx), bufx, 0) == nl_apply(
            shift_spans(s1 + s2, off),
            buf,
            0,
        ));
    }
}

/// Whether `kind` equals one of the configured comment kind names.
fn kind_matches(kind: &String, kinds: &Vec<String>) -> (r: bool)
    ensures
        r == kind_in(kind@, kinds@),
{
    let n = kinds.len();
    for i in 0..n
        invariant
            n == kinds@.len(),
            forall|j: int| 0 <= j < i ==> #[trigger] kinds@[j]@ != kind@,
    {
        if crate::strutil::str_eq(kinds[i].as_str(), kind.as_str()) {
            return true;
        }
    }
    false
}

/// Overwrites `buf[a..b]` with spaces, leaving everything else unchanged.
fn blank_range(buf: &mut Vec<u8>, a: usize, b: usize)
    requires
        a <= b <= old(buf)@.len(),
    ensures
        final(buf)@.len() == old(buf)@.len(),
        forall|j: int|
            0 <= j < old(buf)@.len() ==> final(buf)@[j] == (if a <= j < b {
                32u8
            } else {
                old(buf)@[j]
            }),
{
    let mut i = a;
    while i < b
        invariant
            a <= i <= b <= buf@.len(),
            buf@.len() == old(buf)@.len(),
            forall|j: int|
                0 <= j < old(buf)@.len() ==> buf@[j] == (if a <= j < i {
                    32u8
                } else {
                    old(buf)@[j]
                }),
        decreases b - i,
    {
        buf[i] = 32u8;
        i = i + 1;
    }
}

/// A tree-derived position translated by the running offset accumulator.
fn add_offset(pos: usize, off: isize) -> (r: usize)
    requires
        0 <= pos + off <= usize::MAX,
    ensures
        r as int == pos + off,
{
    if off >= 0 {
        pos + (off as usize)
    } else {
        let mag = ((-(off + 1)) as usize) + 1;
        pos - mag
    }
}

/// The newline bytes of `buf[a..b]`, in order.
fn collect_newlines(buf: &Vec<u8>, a: usize, b: usize) -> (r: Vec<u8>)
    requires
        a <= b <= buf@.len(),
    ensures
        r@ == nl_filter(buf@.subrange(a as int, b as int)),
{
    let mut out: Vec<u8> = Vec::new();
    proof {
        assert(buf@.subrange(a as int, a as int) =~= Seq::<u8>::empty());
    }
    let mut i = a;
    while i < b
        invariant
            a <= i <= b <= buf@.len(),
            out@ == nl_filter(buf@.subrange(a as int, i as int)),
        decreases b - i,
    {
        proof {
            assert(buf@.subrange(a as int, i + 1) =~= buf@.subrange(a as int, i as int).push(
                buf@[i as int],
            ));
            lemma_nl_filter_push(buf@.subrange(a as int, i as int), buf@[i as int]);
        }
        if buf[i] == 10u8 {
            out.push(10u8);
            proof {
                assert(out@ =~= nl_filter(buf@.subrange(a as int, i + 1)));
            }
        } else {
            proof {
                assert(out@ =~= nl_filter(buf@.subrange(a as int, i + 1)));
            }
        }
        i = i + 1;
    }
    out
}

/// Replaces `buf[a..b]` with the bytes of `repl`, moving the tail.
fn replace_range_with(buf: &mut Vec<u8>, a: usize, b: usize, repl: &Vec<u8>)
    requires
        a <= b <= old(buf)@.len(),
    ensures
        final(buf)@ == old(buf)@.subrange(0, a as int) + repl@ + old(buf)@.skip(b as int),
{
    let n = buf.len();
    let m = repl.len();
    let mut out: Vec<u8> = Vec::new();
    proof {
        assert(buf@.subrange(0, 0) =~= Seq::<u8>::empty());
    }
    let mut i: usize = 0;
    while i < a
        invariant
            i <= a <= b <= buf@.len(),
            out@ == buf@.subrange(0, i as int),
        decreases a - i,
    {
        out.push(buf[i]);
        proof {
            assert(buf@.subrange(0, i + 1) =~= buf@.subrange(0, i as int).push(buf@[i as int]));
        }
        i = i + 1;
    }
    let mut j: usize = 0;
    while j < m
        invariant
            m == repl@.len(),
            j <= m,
            a <= b <= buf@.len(),
            out@ == buf@.subrange(0, a as int) + repl@.subrange(0, j as int),
        decreases m - j,
    {
        out.push(repl[j]);
        proof {
            assert(repl@.subrange(0, j + 1) =~= repl@.subrange(0, j as int).push(repl@[j as int]));
            assert(buf@.subrange(0, a as int) + repl@.subrange(0, j + 1) =~= (buf@.subrange(
                0,
                a as int,
            ) + repl@.subrange(0, j as int)).push(repl@[j as int]));
        }
        j = j + 1;
    }
    proof {
        assert(repl@.subrange(0, m as int) =~= repl@);
        assert(buf@.subrange(b as int, b as int) =~= Seq::<u8>::empty());
        assert(buf@.subrange(0, a as int) + repl@ + buf@.subrange(b as int, b as int)
            =~= buf@.subrange(0, a as int) + repl@);
    }
    let mut k: usize = b;
    while k < n
        invariant
            n == buf@.len(),
            a <= b <= k <= n,
            out@ == buf@.subrange(0, a as int) + repl@ + buf@.subrange(b as int, k as int),
        decreases n - k,
    {
        out.push(buf[k]);
        proof {
            assert(buf@.subrange(b as int, k + 1) =~= buf@.subrange(b as int, k as int).push(
                buf@[k as int],
            ));
            assert(buf@.subrange(0, a as int) + repl@ + buf@.subrange(b as int, k + 1)
                =~= (buf@.subrange(0, a as int) + repl@ + buf@.subrange(b as int, k as int)).push(
                buf@[k as int],
            ));
        }
        k = k + 1;
    }
    proof {
        assert(buf@.subrange(b as int, n as int) =~= buf@.skip(b as int));
    }
    *buf = out;
}

/// Whitespace-preserving mode: visits the tree in pre-order and replaces the
/// byte span of every comment-kind node with an equal number of spaces. The
/// buffer keeps its exact length, so the byte ranges taken from the
/// (immutable) tree remain valid addresses throughout, and both line and
/// column positions of all remaining text are unchanged.
pub fn strip_nodes(node: &SyntaxNode, source_code: &mut Vec<u8>, comment_types: &Vec<String>)
    requires
        spans_bounded(
            comment_spans(*node, comment_types@),
            old(source_code)@.len() as int,
        ),
    ensures
        final(source_code)@ == blank_all(
            comment_spans(*node, comment_types@),
            old(source_code)@,
        ),
    decreases *node,
{
    let ghost spans = comment_spans(*node, comment_types@);
    let ghost buf0 = source_code@;
    if kind_matches(&node.kind, comment_types) {
        proof {
            assert(spans[0] == (node.start as int, node.end as int));
        }
        blank_range(source_code, node.start, node.end);
        proof {
            assert forall|j: int| 0 <= j < buf0.len() implies source_code@[j] == blank_all(
                spans,
                buf0,
            )[j] by {
                if covered(spans, j) {
                    let k = choose|k: int|
                        0 <= k < spans.len() && (#[trigger] spans[k]).0 <= j < spans[k].1;
                    assert(k == 0);
                }
                if node.start <= j < node.end {
                    assert(spans[0].0 <= j < spans[0].1);
                }
            }
            assert(source_code@ =~= blank_all(spans, buf0));
        }
    } else {
        let n = node.children.len();
        proof {
            assert(child_spans_upto(*node, 0, comment_types@) =~= Seq::<(int, int)>::empty());
            assert(blank_all(child_spans_upto(*node, 0, comment_types@), buf0) =~= buf0);
        }
        for i in 0..n
            invariant
                n == node.children@.len(),
                spans == comment_spans(*node, comment_types@),
                spans == child_spans(*node, 0, comment_types@),
                spans_bounded(spans, buf0.len() as int),
                buf0 == old(source_code)@,
                source_code@ == blank_all(child_spans_upto(*node, i as int, comment_types@), buf0),
        {
            proof {
                lemma_child_spans_split(*node, i as int, comment_types@);
                lemma_spans_bounded_concat(
                    child_spans_upto(*node, i as int, comment_types@),
                    child_spans(*node, i as int, comment_types@),
                    buf0.len() as int,
                );
                assert(child_spans(*node, i as int, comment_types@) == comment_spans(
                    node.children@[i as int],
                    comment_types@,
                ) + child_spans(*node, i + 1, comment_types@));
                lemma_spans_bounded_concat(
                    comment_spans(node.children@[i as int], comment_types@),
                    child_spans(*node, i + 1, comment_types@),
                    buf0.len() as int,
                );
                assert(blank_all(
                    child_spans_upto(*node, i as int, comment_types@),
                    buf0,
                ).len() == buf0.len());
            }
            strip_nodes(&node.children[i], source_code, comment_types);
            proof {
                lemma_blank_all_concat(
                    child_spans_upto(*node, i as int, comment_types@),
                    comment_spans(node.children@[i as int], comment_types@),
                    buf0,
                );
            }
        }
        proof {
            lemma_child_spans_split(*node, n as int, comment_types@);
            assert(child_spans(*node, n as int, comment_types@) =~= Seq::<(int, int)>::empty());
            assert(child_spans_upto(*node, n as int, comment_types@) + child_spans(
                *node,
                n as int,
                comment_types@,
            ) =~= child_spans_upto(*node, n as int, comment_types@));
        }
    }
}

/// Newline-preserving mode: visits the tree in pre-order and replaces the
/// byte span of every comment-kind node with only the newline bytes it
/// contained, shrinking the buffer. Tree-derived ranges stay in the
/// coordinate system of the unedited text, so the running `offset`
/// accumulator is added to every range before it addresses the live buffer,
/// and is advanced by (new length - old length) after each replacement.
pub fn strip_nodes_no_ws(
    node: &SyntaxNode,
    source_code: &mut Vec<u8>,
    comment_types: &Vec<String>,
    offset: &mut isize,
)
    requires
        spans_ordered(
            shift_spans(comment_spans(*node, comment_types@), *old(offset) as int),
            0,
            old(source_code)@.len() as int,
        ),
        old(source_code)@.len() - *old(offset) as int <= isize::MAX as int,
    ensures
        final(source_code)@ == nl_apply(
            shift_spans(comment_spans(*node, comment_types@), *old(offset) as int),
            old(source_code)@,
            0,
        ),
        *final(offset) as int == *old(offset) as int + final(source_code)@.len() - old(
            source_code,
        )@.len(),
    decreases *node,
{
    let ghost kinds = comment_types@;
    let ghost spans = comment_spans(*node, kinds);
    let ghost buf0 = source_code@;
    let off_val: isize = *offset;
    let ghost off0 = off_val as int;
    let cur_len = source_code.len();
    if kind_matches(&node.kind, comment_types) {
        let ghost x = (node.start as int, node.end as int);
        proof {
            assert(spans =~= seq![x]);
            assert(shift_spans(spans, off0)[0] == (node.start + off0, node.end + off0));
            assert(0 <= node.start + off0 <= node.end + off0 <= cur_len);
        }
        let a = add_offset(node.start, off_val);
        let b = add_offset(node.end, off_val);
        let repl = collect_newlines(source_code, a, b);
        let removed = b - a;
        proof {
            lemma_nl_filter_len(buf0.subrange(a as int, b as int));
            assert(node.end <= cur_len - off0 <= isize::MAX);
            assert(removed <= node.end);
        }
        replace_range_with(source_code, a, b, &repl);
        let new_len = repl.len();
        let d: isize = (new_len as isize) - (removed as isize);
        proof {
            assert(off0 >= 0 - (node.start as int));
            assert(off0 + d >= 0 - (node.end as int) >= 0 - (isize::MAX as int));
        }
        *offset = off_val + d;
        proof {
            assert(seq![x] + Seq::<(int, int)>::empty() =~= spans);
            lemma_nl_apply_one(x, Seq::<(int, int)>::empty(), buf0, off0);
            assert(shift_spans(seq![x], off0) == shift_spans(spans, off0));
            assert(source_code@ == buf0.subrange(0, a as int) + nl_filter(
                buf0.subrange(a as int, b as int),
            ) + buf0.skip(b as int));
            assert(source_code@ == nl_apply(shift_spans(spans, off0), buf0, 0));
        }
    } else {
        let n = node.children.len();
        proof {
            assert(spans == child_spans(*node, 0, kinds));
            assert(child_spans_upto(*node, 0, kinds) =~= Seq::<(int, int)>::empty());
            assert(shift_spans(child_spans_upto(*node, 0, kinds), off0) =~= Seq::<(
                int,
                int,
            )>::empty());
            assert(nl_apply(
                shift_spans(child_spans_upto(*node, 0, kinds), off0),
                buf0,
                0,
            ) =~= buf0);
        }
        for i in 0..n
            invariant
                n == node.children@.len(),
                kinds == comment_types@,
                spans == comment_spans(*node, kinds),
                spans == child_spans(*node, 0, kinds),
                buf0 == old(source_code)@,
                off0 == *old(offset) as int,
                spans_ordered(shift_spans(spans, off0), 0, buf0.len() as int),
                buf0.len() - off0 <= isize::MAX as int,
                source_code@ == nl_apply(
                    shift_spans(child_spans_upto(*node, i as int, kinds), off0),
                    buf0,
                    0,
                ),
                *offset as int == off0 + source_code@.len() - buf0.len(),
        {
            let ghost upto_i = child_spans_upto(*node, i as int, kinds);
            let ghost cs_i = child_spans(*node, i as int, kinds);
            let ghost cs_child = comment_spans(node.children@[i as int], kinds);
            let ghost rest = child_spans(*node, i + 1, kinds);
            let ghost buf_pre = source_code@;
            let ghost off_pre = *offset as int;
            proof {
                lemma_child_spans_split(*node, i as int, kinds);
                assert(cs_i == cs_child + rest);
                lemma_nl_apply_concat(upto_i, cs_i, buf0, off0);
                assert(spans_ordered(shift_spans(cs_i, off_pre), 0, buf_pre.len() as int));
                lemma_shift_spans_concat(cs_child, rest, off_pre);
                lemma_spans_ordered_split(
                    shift_spans(cs_child, off_pre),
                    shift_spans(rest, off_pre),
                    0,
                    buf_pre.len() as int,
                );
            }
            strip_nodes_no_ws(&node.children[i], source_code, comment_types, offset);
            proof {
                assert((upto_i + cs_child) + rest =~= upto_i + (cs_child + rest));
                lemma_shift_spans_concat(upto_i + cs_child, rest, off0);
                lemma_spans_ordered_split(
                    shift_spans(upto_i + cs_child, off0),
                    shift_spans(rest, off0),
                    0,
                    buf0.len() as int,
                );
                lemma_nl_apply_concat(upto_i, cs_child, buf0, off0);
                assert(child_spans_upto(*node, i + 1, kinds) == upto_i + cs_child);
                assert(source_code@ == nl_apply(
                    shift_spans(child_spans_upto(*node, i + 1, kinds), off0),
                    buf0,
                    0,
                ));
            }
        }
        proof {
            lemma_child_spans_split(*node, n as int, kinds);
            assert(child_spans(*node, n as int, kinds) =~= Seq::<(int, int)>::empty());
            assert(child_spans_upto(*node, n as int, kinds) + child_spans(*node, n as int, kinds)
                =~= child_spans_upto(*node, n as int, kinds));
        }
    }
}

/// The number of newline bytes in `s`.
pub open spec fn newline_count(s: Seq<u8>) -> int {
    nl_filter(s).len() as int
}

/// The total number of bytes the spans cover.
pub open spec fn spans_text_len(spans: Seq<(int, int)>) -> int
    decreases spans.len(),
{
    if spans.len() == 0 {
        0
    } else {
        (spans[0].1 - spans[0].0) + spans_text_len(spans.drop_first())
    }
}

/// The total number of newline bytes inside the spans of `buf`.
pub open spec fn spans_newline_count(spans: Seq<(int, int)>, buf: Seq<u8>) -> int
    decreases spans.len(),
{
    if spans.len() == 0 {
        0
    } else {
        newline_count(buf.subrange(spans[0].0, spans[0].1)) + spans_newline_count(
            spans.drop_first(),
            buf,
        )
    }
}

/// Shifting by zero changes nothing: at the root of a traversal, before any
/// replacement, tree coordinates and buffer coordinates coincide.
pub proof fn lemma_shift_spans_zero(spans: Seq<(int, int)>)
    ensures
        shift_spans(spans, 0) == spans,
{
    assert(shift_spans(spans, 0) =~= spans);
}

/// Whitespace mode never changes the buffer length.
pub proof fn lemma_whitespace_mode_length(spans: Seq<(int, int)>, buf: Seq<u8>)
    ensures
        blank_all(spans, buf).len() == buf.len(),
{
}

/// Whitespace mode is idempotent: blanking the spans of an already-blanked
/// buffer yields the identical buffer.
pub proof fn lemma_whitespace_mode_idempotent(spans: Seq<(int, int)>, buf: Seq<u8>)
    ensures
        blank_all(spans, blank_all(spans, buf)) == blank_all(spans, buf),
{
    assert(blank_all(spans, blank_all(spans, buf)) =~= blank_all(spans, buf));
}

proof fn lemma_nl_filter_concat(s: Seq<u8>, t: Seq<u8>)
    ensures
        nl_filter(s + t) == nl_filter(s) + nl_filter(t),
    decreases s.len(),
{
    if s.len() == 0 {
        assert(s + t =~= t);
        assert(nl_filter(s) + nl_filter(t) =~= nl_filter(t));
    } else {
        assert((s + t)[0] == s[0]);
        assert((s + t).drop_first() =~= s.drop_first() + t);
        lemma_nl_filter_concat(s.drop_first(), t);
        if s[0] == 10u8 {
            assert(seq![10u8] + (nl_filter(s.drop_first()) + nl_filter(t)) =~= (seq![10u8]
                + nl_filter(s.drop_first())) + nl_filter(t));
        }
    }
}

proof fn lemma_nl_filter_idempotent(s: Seq<u8>)
    ensures
        nl_filter(nl_filter(s)) == nl_filter(s),
    decreases s.len(),
{
    if s.len() == 0 {
    } else {
        lemma_nl_filter_idempotent(s.drop_first());
        if s[0] == 10u8 {
            lemma_nl_filter_concat(seq![10u8], nl_filter(s.drop_first()));
            assert(seq![10u8][0] == 10u8);
            assert(seq![10u8].drop_first() =~= Seq::<u8>::empty());
            assert(nl_filter(Seq::<u8>::empty()) == Seq::<u8>::empty());
            assert(nl_filter(seq![10u8]) =~= seq![10u8]);
        }
    }
}

/// Newline mode's output length is the input length minus the stripped
/// span bytes not counting the newlines kept back.
pub proof fn lemma_newline_mode_length(spans: Seq<(int, int)>, buf: Seq<u8>)
    requires
        spans_ordered(spans, 0, buf.len() as int),
    ensures
        nl_apply(spans, buf, 0).len() == buf.len() - (spans_text_len(spans) - spans_newline_count(
            spans,
            buf,
        )),
{
    lemma_newline_mode_length_from(spans, buf, 0);
}

proof fn lemma_newline_mode_length_from(spans: Seq<(int, int)>, buf: Seq<u8>, from: int)
    requires
        spans_ordered(spans, from, buf.len() as int),
        0 <= from <= buf.len(),
    ensures
        nl_apply(spans, buf, from).len() == (buf.len() - from) - (spans_text_len(spans)
            - spans_newline_count(spans, buf)),
    decreases spans.len(),
{
    if spans.len() > 0 {
        lemma_nl_filter_len(buf.subrange(spans[0].0, spans[0].1));
        lemma_newline_mode_length_from(spans.drop_first(), buf, spans[0].1);
    }
}

/// Newline mode preserves the total count of newline bytes exactly.
pub proof fn lemma_newline_mode_count(spans: Seq<(int, int)>, buf: Seq<u8>)
    requires
        spans_ordered(spans, 0, buf.len() as int),
    ensures
        newline_count(nl_apply(spans, buf, 0)) == newline_count(buf),
{
    lemma_newline_mode_count_from(spans, buf, 0);
    assert(buf.skip(0) =~= buf);
}

proof fn lemma_newline_mode_count_from(spans: Seq<(int, int)>, buf: Seq<u8>, from: int)
    requires
        spans_ordered(spans, from, buf.len() as int),
        0 <= from <= buf.len(),
    ensures
        newline_count(nl_apply(spans, buf, from)) == newline_count(buf.skip(from)),
    decreases spans.len(),
{
    if spans.len() > 0 {
        let a = spans[0].0;
        let b = spans[0].1;
        lemma_newline_mode_count_from(spans.drop_first(), buf, b);
        lemma_nl_filter_concat(
            buf.subrange(from, a) + nl_filter(buf.subrange(a, b)),
            nl_apply(spans.drop_first(), buf, b),
        );
        lemma_nl_filter_concat(buf.subrange(from, a), nl_filter(buf.subrange(a, b)));
        lemma_nl_filter_idempotent(buf.subrange(a, b));
        assert(nl_apply(spans, buf, from) == (buf.subrange(from, a) + nl_filter(
            buf.subrange(a, b),
        )) + nl_apply(spans.drop_first(), buf, b));
        assert(buf.skip(from) =~= (buf.subrange(from, a) + buf.subrange(a, b)) + buf.skip(b));
        lemma_nl_filter_concat(buf.subrange(from, a) + buf.subrange(a, b), buf.skip(b));
        lemma_nl_filter_concat(buf.subrange(from, a), buf.subrange(a, b));
    }
}

} // verus!
