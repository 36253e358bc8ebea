use vstd::prelude::*;

use crate::text::{chars_of, push_all, push_range, string_of, trim_of, trim_whitespace};

verus! {

/// Whether a three-backtick fence starts at position `i` of `s`.
pub open spec fn fence_at(s: Seq<char>, i: int) -> bool {
    0 <= i && i + 3 <= s.len() && s[i] == '`' && s[i + 1] == '`' && s[i + 2] == '`'
}

/// Whether the two-character marker `%%` starts at position `i` of `s`.
pub open spec fn marker_at(s: Seq<char>, i: int) -> bool {
    0 <= i && i + 2 <= s.len() && s[i] == '%' && s[i + 1] == '%'
}

/// Whether `s` holds the marker `%%` anywhere.
pub open spec fn has_marker(s: Seq<char>) -> bool {
    exists|i: int| marker_at(s, i)
}

/// The first position at or after `from` where a fence starts, if any.
pub open spec fn next_fence(s: Seq<char>, from: int) -> Option<int>
    decreases s.len() - from,
{
    if from < 0 || from + 3 > s.len() {
        None
    } else if fence_at(s, from) {
        Some(from)
    } else {
        next_fence(s, from + 1)
    }
}

/// The first fenced block at or after `pos`: the start of its opening fence
/// and the start of its closing fence. The opening fence is the first one at
/// or after `pos`; the closing one is the nearest fence that follows it
/// without overlapping.
pub open spec fn next_block(s: Seq<char>, pos: int) -> Option<(int, int)> {
    match next_fence(s, pos) {
        Some(a) => match next_fence(s, a + 3) {
            Some(b) => Some((a, b)),
            None => None,
        },
        None => None,
    }
}

/// The opening tag of a user-input span.
pub open spec fn open_tag() -> Seq<char> {
    "<span class=\"code-user-input\">"@
}

/// The closing tag of a user-input span.
pub open spec fn close_tag() -> Seq<char> {
    "</span>"@
}

/// The text that precedes a rewritten block.
pub open spec fn pre_head() -> Seq<char> {
    "<pre><code>"@
}

/// The text that follows a rewritten block.
pub open spec fn pre_tail() -> Seq<char> {
    "\n</code></pre>\n"@
}

/// `t` with its markers, taken left to right without overlap, replaced in turn
/// by an opening and a closing tag, starting with an opening one when `open`.
pub open spec fn spans(t: Seq<char>, open: bool) -> Seq<char>
    decreases t.len(),
{
    if t.len() == 0 {
        Seq::empty()
    } else if marker_at(t, 0) {
        (if open { open_tag() } else { close_tag() }) + spans(t.subrange(2, t.len() as int), !open)
    } else {
        seq![t[0]] + spans(t.subrange(1, t.len() as int), open)
    }
}

/// The HTML block that a trimmed interior `x` becomes.
pub open spec fn render(x: Seq<char>) -> Seq<char> {
    spans(pre_head() + x + pre_tail(), true)
}

/// What a fenced block becomes: `whole` is the block with its fences,
/// `interior` the text between them.
pub open spec fn block_out(whole: Seq<char>, interior: Seq<char>) -> Seq<char> {
    if has_marker(whole) {
        render(trim_of(interior))
    } else {
        whole
    }
}

/// The rewrite of `s` from position `pos` on.
pub open spec fn rewrite_from(s: Seq<char>, pos: int) -> Seq<char>
    decreases s.len() - pos,
{
    if pos < 0 || pos > s.len() {
        Seq::empty()
    } else {
        match next_block(s, pos) {
            Some((a, b)) => if pos <= a && a + 3 <= b && b + 3 <= s.len() {
                s.subrange(pos, a) + block_out(s.subrange(a, b + 3), s.subrange(a + 3, b))
                    + rewrite_from(s, b + 3)
            } else {
                // never taken: a block found from `pos` lies after it
                Seq::empty()
            },
            None => s.subrange(pos, s.len() as int),
        }
    }
}

/// The rewrite of a whole chapter's text.
pub open spec fn rewrite(s: Seq<char>) -> Seq<char> {
    rewrite_from(s, 0)
}

/// A fence found by `next_fence` starts at or after `from` and is one.
pub proof fn lemma_next_fence(s: Seq<char>, from: int)
    requires
        0 <= from,
    ensures
        next_fence(s, from) matches Some(i) ==> from <= i && fence_at(s, i),
        next_fence(s, from) is None ==> forall|i: int| from <= i ==> !fence_at(s, i),
    decreases s.len() - from,
{
    if from < 0 || from + 3 > s.len() {
    } else if fence_at(s, from) {
    } else {
        lemma_next_fence(s, from + 1);
        assert forall|i: int| from <= i && next_fence(s, from) is None implies !fence_at(s, i) by {
            if i == from {
            }
        }
    }
}

/// Text with no fenced block in it is left exactly as it is.
pub proof fn lemma_unfenced_text_unchanged(s: Seq<char>)
    requires
        next_block(s, 0) is None,
    ensures
        rewrite(s) == s,
{
    assert(s.subrange(0, s.len() as int) =~= s);
}

/// A fenced block without the marker `%%` comes out byte for byte as it went
/// in, fences included: the rewrite from `pos` is the text up to the end of
/// that block followed by the rewrite of what comes after it.
pub proof fn lemma_plain_block_kept(s: Seq<char>, pos: int, a: int, b: int)
    requires
        0 <= pos <= s.len(),
        next_block(s, pos) == Some((a, b)),
        !has_marker(s.subrange(a, b + 3)),
    ensures
        pos <= a,
        a + 3 <= b,
        b + 3 <= s.len(),
        rewrite_from(s, pos) == s.subrange(pos, b + 3) + rewrite_from(s, b + 3),
{
    lemma_next_fence(s, pos);
    lemma_next_fence(s, a + 3);
    assert(s.subrange(pos, a) + s.subrange(a, b + 3) =~= s.subrange(pos, b + 3));
}

/// Text without a marker, whose last character does not start one together
/// with what follows, passes through `spans` unchanged.
pub proof fn lemma_spans_skip(u: Seq<char>, v: Seq<char>, open: bool)
    requires
        !has_marker(u),
        u.len() > 0 && u[u.len() - 1] == '%' ==> !(v.len() > 0 && v[0] == '%'),
    ensures
        spans(u + v, open) == u + spans(v, open),
    decreases u.len(),
{
    if u.len() > 0 {
        let w = u + v;
        let u1 = u.subrange(1, u.len() as int);
        assert(!marker_at(u, 0));
        assert(!marker_at(w, 0)) by {
            if u.len() == 1 && v.len() > 0 {
                assert(w[1] == v[0]);
            } else if u.len() > 1 {
                assert(w[1] == u[1]);
            }
        }
        assert(w.subrange(1, w.len() as int) =~= u1 + v);
        assert(!has_marker(u1)) by {
            assert forall|i: int| !marker_at(u1, i) by {
                assert(!marker_at(u, i + 1));
            }
        }
        if u1.len() > 0 {
            assert(u1[u1.len() - 1] == u[u.len() - 1]);
        }
        lemma_spans_skip(u1, v, open);
        assert(seq![u[0]] + (u1 + spans(v, open)) =~= u + spans(v, open));
    } else {
        assert(u + v =~= v);
    }
}

/// A marker at the front becomes the tag that is due, and the tags alternate
/// after it.
pub proof fn lemma_spans_marker(v: Seq<char>, open: bool)
    ensures
        spans("%%"@ + v, open) == (if open { open_tag() } else { close_tag() }) + spans(v, !open),
{
    reveal_strlit("%%");
    let w = "%%"@ + v;
    assert(marker_at(w, 0));
    assert(w.subrange(2, w.len() as int) =~= v);
}

/// Text without markers passes through `spans` unchanged.
pub proof fn lemma_spans_plain(u: Seq<char>, open: bool)
    requires
        !has_marker(u),
    ensures
        spans(u, open) == u,
{
    lemma_spans_skip(u, Seq::empty(), open);
    assert(u + Seq::<char>::empty() =~= u);
    assert(spans(Seq::<char>::empty(), open) =~= Seq::<char>::empty());
}

proof fn lemma_frame_has_no_percent()
    ensures
        forall|i: int| 0 <= i < pre_head().len() ==> pre_head()[i] != '%',
        forall|i: int| 0 <= i < pre_tail().len() ==> pre_tail()[i] != '%',
        !has_marker(pre_head()),
        !has_marker(pre_tail()),
        pre_tail()[0] == '\n',
{
    reveal_strlit("<pre><code>");
    reveal_strlit("\n</code></pre>\n");
}

/// An interior made of text `y` between two markers becomes `y` inside one
/// user-input span, when `y` holds no marker and does not end with `%`.
pub proof fn lemma_marked_pair(y: Seq<char>)
    requires
        !has_marker(y),
        y.len() > 0 ==> y[y.len() - 1] != '%',
    ensures
        render("%%"@ + y + "%%"@) == pre_head() + open_tag() + y + close_tag() + pre_tail(),
{
    reveal_strlit("%%");
    lemma_frame_has_no_percent();
    let m = "%%"@;
    let t = pre_tail();
    assert(pre_head() + (m + y + m) + t =~= pre_head() + (m + (y + (m + t))));
    lemma_spans_skip(pre_head(), m + (y + (m + t)), true);
    lemma_spans_marker(y + (m + t), true);
    lemma_spans_skip(y, m + t, false);
    lemma_spans_marker(t, false);
    lemma_spans_plain(t, true);
    assert(pre_head() + (open_tag() + (y + (close_tag() + t))) =~= pre_head() + open_tag() + y
        + close_tag() + t);
}

/// Text without a marker up to a marker: the text is kept and the marker
/// becomes the tag that is due.
proof fn lemma_spans_segment(u: Seq<char>, v: Seq<char>, open: bool)
    requires
        !has_marker(u),
        u.len() > 0 ==> u[u.len() - 1] != '%',
    ensures
        spans(u + ("%%"@ + v), open) == u + ((if open { open_tag() } else { close_tag() })
            + spans(v, !open)),
{
    lemma_spans_skip(u, "%%"@ + v, open);
    lemma_spans_marker(v, open);
}

proof fn lemma_regroup(h: Seq<char>, p: Seq<char>, q: Seq<char>, r: Seq<char>, t: Seq<char>, e: Seq<char>, x: Seq<char>, y: Seq<char>, z: Seq<char>)
    ensures
        h + (p + x + q + y + r + z + t) + e == h + (p + (x + (q + (y + (r + (z + (t + e))))))),
        h + (p + (x + (q + (y + (r + (z + (t + e))))))) == h + p + x + q + y + r + z + t + e,
{
    assert(h + (p + x + q + y + r + z + t) + e =~= h + (p + (x + (q + (y + (r + (z + (t + e))))))));
    assert(h + (p + (x + (q + (y + (r + (z + (t + e))))))) =~= h + p + x + q + y + r + z + t + e);
}

/// With three markers, the first two enclose a user-input span and the third
/// opens one that is never closed; `p`, `q`, `r` and `t` are the texts around
/// them, none holding a marker, and none of the first three ending with `%`.
pub proof fn lemma_odd_markers(p: Seq<char>, q: Seq<char>, r: Seq<char>, t: Seq<char>)
    requires
        !has_marker(p),
        !has_marker(q),
        !has_marker(r),
        !has_marker(t),
        p.len() > 0 ==> p[p.len() - 1] != '%',
        q.len() > 0 ==> q[q.len() - 1] != '%',
        r.len() > 0 ==> r[r.len() - 1] != '%',
    ensures
        render(p + "%%"@ + q + "%%"@ + r + "%%"@ + t) == pre_head() + p + open_tag() + q
            + close_tag() + r + open_tag() + t + pre_tail(),
{
    let m = "%%"@;
    let e = pre_tail();
    let h = pre_head();
    let z3 = t + e;
    let z2 = r + (m + z3);
    let z1 = q + (m + z2);
    let z0 = p + (m + z1);
    lemma_regroup(h, p, q, r, t, e, m, m, m);
    lemma_frame_has_no_percent();
    assert(spans(z3, false) == z3) by {
        reveal_strlit("%%");
        lemma_spans_skip(t, e, false);
        lemma_spans_plain(e, false);
    }
    lemma_spans_segment(r, z3, true);
    lemma_spans_segment(q, z2, false);
    lemma_spans_segment(p, z1, true);
    lemma_spans_skip(h, z0, true);
    lemma_regroup(h, p, q, r, t, e, open_tag(), close_tag(), open_tag());
}

/// The first fence at or after `from`.
fn find_fence(s: &[char], from: usize) -> (r: Option<usize>)
    ensures
        r matches Some(i) ==> next_fence(s@, from as int) == Some(i as int),
        r is None ==> next_fence(s@, from as int) is None,
{
    let n = s.len();
    if from > n {
        return None;
    }
    let mut i: usize = from;
    while n - i >= 3
        invariant
            from <= i <= n,
            n == s@.len(),
            next_fence(s@, from as int) == next_fence(s@, i as int),
        decreases n - i,
    {
        if s[i] == '`' && s[i + 1] == '`' && s[i + 2] == '`' {
            return Some(i);
        }
        i = i + 1;
    }
    proof {
        assert(next_fence(s@, i as int) is None);
    }
    None
}

/// Whether `s[lo..hi]` holds the marker `%%`.
fn find_marker(s: &[char], lo: usize, hi: usize) -> (r: bool)
    requires
        lo <= hi <= s@.len(),
    ensures
        r == has_marker(s@.subrange(lo as int, hi as int)),
{
    let ghost t = s@.subrange(lo as int, hi as int);
    let mut i: usize = lo;
    while hi - i >= 2
        invariant
            lo <= i <= hi,
            hi <= s@.len(),
            t == s@.subrange(lo as int, hi as int),
            forall|k: int| 0 <= k < i - lo ==> !marker_at(t, k),
        decreases hi - i,
    {
        if s[i] == '%' && s[i + 1] == '%' {
            assert(marker_at(t, i - lo));
            return true;
        }
        i = i + 1;
    }
    assert forall|k: int| !marker_at(t, k) by {
        if 0 <= k < i - lo {
        }
    }
    false
}

/// `t` with its markers replaced in turn by opening and closing span tags.
fn mark_spans(t: &[char]) -> (r: Vec<char>)
    ensures
        r@ == spans(t@, true),
{
    let open_v = chars_of("<span class=\"code-user-input\">");
    let close_v = chars_of("</span>");
    let n = t.len();
    let mut out: Vec<char> = Vec::new();
    let mut i: usize = 0;
    let mut open = true;
    assert(t@.subrange(0, n as int) =~= t@);
    assert(out@ + spans(t@, true) =~= spans(t@, true));
    while i < n
        invariant
            i <= n,
            n == t@.len(),
            open_v@ == open_tag(),
            close_v@ == close_tag(),
            spans(t@, true) == out@ + spans(t@.subrange(i as int, n as int), open),
        decreases n - i,
    {
        let ghost u = t@.subrange(i as int, n as int);
        if n - i >= 2 && t[i] == '%' && t[i + 1] == '%' {
            assert(marker_at(u, 0));
            assert(u.subrange(2, u.len() as int) =~= t@.subrange(i + 2, n as int));
            let ghost before = out@;
            if open {
                push_all(&mut out, &open_v);
            } else {
                push_all(&mut out, &close_v);
            }
            open = !open;
            i = i + 2;
            assert(before + ((if !open { open_tag() } else { close_tag() }) + spans(
                t@.subrange(i as int, n as int),
                open,
            )) =~= out@ + spans(t@.subrange(i as int, n as int), open));
        } else {
            assert(!marker_at(u, 0));
            assert(u.subrange(1, u.len() as int) =~= t@.subrange(i + 1, n as int));
            let ghost before = out@;
            out.push(t[i]);
            i = i + 1;
            assert(before + (seq![u[0]] + spans(t@.subrange(i as int, n as int), open))
                =~= out@ + spans(t@.subrange(i as int, n as int), open));
        }
    }
    assert(t@.subrange(n as int, n as int) =~= Seq::<char>::empty());
    assert(out@ + Seq::<char>::empty() =~= out@);
    out
}

/// The HTML block for the trimmed interior `x` of a marked fenced block:
/// `x` between `<pre><code>` and a newline with `</code></pre>` and a newline,
/// its markers replaced in turn by opening and closing user-input span tags.
pub fn render_block(x: &str) -> (r: String)
    ensures
        r@ == render(x@),
{
    let mut w = chars_of("<pre><code>");
    let body = chars_of(x);
    let tail = chars_of("\n</code></pre>\n");
    push_all(&mut w, &body);
    push_all(&mut w, &tail);
    let out = mark_spans(&w);
    string_of(&out)
}

/// The rewrite of one chapter's text: each fenced block that holds the marker
/// `%%` becomes an HTML block, everything else is kept as it is.
pub fn rewrite_chapter(content: &str) -> (r: String)
    ensures
        r@ == rewrite(content@),
{
    let s = chars_of(content);
    let n = s.len();
    let mut out: Vec<char> = Vec::new();
    let mut pos: usize = 0;
    loop
        invariant
            pos <= n,
            n == s@.len(),
            s@ == content@,
            rewrite(s@) == out@ + rewrite_from(s@, pos as int),
        decreases n - pos,
    {
        let fa = find_fence(&s, pos);
        let fb = match fa {
            Some(a) => {
                proof {
                    lemma_next_fence(s@, pos as int);
                }
                find_fence(&s, a + 3)
            },
            None => None,
        };
        if let (Some(a), Some(b)) = (fa, fb) {
            proof {
                lemma_next_fence(s@, a + 3);
            }
            let ghost before = out@;
            push_range(&mut out, &s, pos, a);
            if find_marker(&s, a, b + 3) {
                let mut inner: Vec<char> = Vec::new();
                push_range(&mut inner, &s, a + 3, b);
                let inner_s = string_of(&inner);
                let html = render_block(trim_whitespace(inner_s.as_str()));
                let html_v = chars_of(html.as_str());
                push_all(&mut out, &html_v);
            } else {
                push_range(&mut out, &s, a, b + 3);
            }
            assert(before + (s@.subrange(pos as int, a as int) + block_out(
                s@.subrange(a as int, b + 3),
                s@.subrange(a + 3, b as int),
            ) + rewrite_from(s@, b + 3)) =~= out@ + rewrite_from(s@, b + 3));
            pos = b + 3;
        } else {
            let ghost before = out@;
            push_range(&mut out, &s, pos, n);
            assert(before + s@.subrange(pos as int, n as int) =~= out@);
            return string_of(&out);
        }
    }
}

} // verus!
