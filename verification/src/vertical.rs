//! Reducing the vertical ruling lines of a page to the leftmost spans.

use vstd::prelude::*;

use crate::fragments::{abs_diff, dist};
use crate::order::{dedup_sorted, sort_lines_by_x1, sort_u32, strictly_ascending};
use crate::render::Line;

verus! {

broadcast use {vstd::seq_lib::group_to_multiset_ensures, vstd::multiset::group_multiset_axioms};

/// Whether the line spans the height `y`.
pub open spec fn covers(l: Line, y: u32) -> bool {
    l.y1 <= y < l.y2
}

/// `x` is the leftmost position of the lines that span the height `y`.
pub open spec fn is_leftmost_cover(lines: Seq<Line>, y: u32, x: u32) -> bool {
    &&& exists|l: Line| #[trigger] lines.contains(l) && covers(l, y) && l.x1 == x
    &&& forall|l: Line| #[trigger] lines.contains(l) && covers(l, y) ==> x <= l.x1
}

/// The leftmost position of the lines that span the height `y`, if any does.
pub open spec fn leftmost_cover(lines: Seq<Line>, y: u32) -> Option<u32> {
    if exists|x: u32| is_leftmost_cover(lines, y, x) {
        Some(choose|x: u32| is_leftmost_cover(lines, y, x))
    } else {
        None
    }
}

/// `y` is where one of the lines starts or ends.
pub open spec fn is_endpoint(lines: Seq<Line>, y: u32) -> bool {
    exists|l: Line| #[trigger] lines.contains(l) && (l.y1 == y || l.y2 == y)
}

/// `ys` lists the heights where the lines start or end, ascending.
pub open spec fn lists_endpoints(lines: Seq<Line>, ys: Seq<u32>) -> bool {
    &&& strictly_ascending(ys)
    &&& forall|y: u32| #[trigger] ys.contains(y) <==> is_endpoint(lines, y)
}

/// The heights where the lines start or end, ascending.
pub open spec fn endpoints_of(lines: Seq<Line>) -> Seq<u32> {
    choose|ys: Seq<u32>| lists_endpoints(lines, ys)
}

/// The spans with the last one ended at `y`.
pub open spec fn close_last(spans: Seq<Line>, y: u32) -> Seq<Line> {
    spans.update(spans.len() - 1, Line { x1: spans.last().x1, y1: spans.last().y1, y2: y })
}

/// One step of the sweep up the page, at height `y`: the spans so far and
/// whether the last is still open. A span opens where some line covers a
/// height and none is open; the open span ends where nothing covers a
/// height, and is replaced by a span at the new leftmost line wherever the
/// leftmost line covering the height is at another `x`. `None` where
/// nothing covers `y` and no span is open.
pub open spec fn span_step(st: (Seq<Line>, bool), lines: Seq<Line>, y: u32) -> Option<
    (Seq<Line>, bool),
> {
    match leftmost_cover(lines, y) {
        None => if st.1 {
            Some((close_last(st.0, y), false))
        } else {
            None
        },
        Some(x) => if !st.1 {
            Some((st.0.push(Line { x1: x, y1: y, y2: 0 }), true))
        } else if x == st.0.last().x1 {
            Some(st)
        } else {
            Some((close_last(st.0, y).push(Line { x1: x, y1: y, y2: 0 }), true))
        },
    }
}

/// The sweep over the heights `ys`, in order.
pub open spec fn spans_over(lines: Seq<Line>, ys: Seq<u32>) -> Option<(Seq<Line>, bool)>
    decreases ys.len(),
{
    if ys.len() == 0 {
        Some((Seq::empty(), false))
    } else {
        match spans_over(lines, ys.drop_last()) {
            Some(st) => span_step(st, lines, ys.last()),
            None => None,
        }
    }
}

/// The spans taller than one unit, in order.
pub open spec fn tall_spans(s: Seq<Line>) -> Seq<Line>
    decreases s.len(),
{
    if s.len() == 0 {
        s
    } else if dist(s.last().y2, s.last().y1) > 1 {
        tall_spans(s.drop_last()).push(s.last())
    } else {
        tall_spans(s.drop_last())
    }
}

/// The spans are each taller than one unit, in ascending order without
/// overlap; where one ends as another starts they are at different `x`.
pub open spec fn spans_shape(spans: Seq<Line>) -> bool {
    &&& forall|k: int| 0 <= k < spans.len() ==> (#[trigger] spans[k]).y1 + 1 < spans[k].y2
    &&& forall|i: int, j: int|
        0 <= i < j < spans.len() ==> (#[trigger] spans[i]).y2 <= (#[trigger] spans[j]).y1
    &&& forall|i: int, j: int|
        0 <= i < j < spans.len() && (#[trigger] spans[i]).y2 == (#[trigger] spans[j]).y1
            ==> spans[i].x1 != spans[j].x1
}

/// The spans have the shape of [`spans_shape`], and each starts at the
/// leftmost line that covers its start.
pub open spec fn spans_wf(lines: Seq<Line>, spans: Seq<Line>) -> bool {
    &&& spans_shape(spans)
    &&& forall|k: int|
        0 <= k < spans.len() ==> leftmost_cover(lines, (#[trigger] spans[k]).y1) == Some(
            spans[k].x1,
        )
}

/// The leftmost spans of a set of vertical lines: the sweep over their
/// endpoints, without the spans of one unit or less. `None` where the sweep
/// meets a height that starts nothing while no span is open, or ends with
/// one open.
pub open spec fn leftmost_spans(lines: Seq<Line>) -> Option<Seq<Line>> {
    match spans_over(lines, endpoints_of(lines)) {
        Some(st) => if st.1 {
            None
        } else {
            Some(tall_spans(st.0))
        },
        None => None,
    }
}

/// Adds `y` to an ascending sequence, keeping it ascending.
proof fn insert_ascending(ys: Seq<u32>, y: u32) -> (zs: Seq<u32>)
    requires
        strictly_ascending(ys),
    ensures
        strictly_ascending(zs),
        forall|v: u32| zs.contains(v) <==> ys.contains(v) || v == y,
    decreases ys.len(),
{
    if ys.len() == 0 {
        let zs = seq![y];
        assert(zs[0] == y);
        zs
    } else if ys.last() == y {
        assert(ys[ys.len() - 1] == y);
        ys
    } else if ys.last() < y {
        let zs = ys.push(y);
        assert forall|v: u32| zs.contains(v) <==> ys.contains(v) || v == y by {
            if zs.contains(v) {
                let k = choose|k: int| 0 <= k < zs.len() && zs[k] == v;
                if k < ys.len() {
                    assert(ys[k] == v);
                }
            }
            if ys.contains(v) {
                let k = choose|k: int| 0 <= k < ys.len() && ys[k] == v;
                assert(zs[k] == v);
            }
            if v == y {
                assert(zs[ys.len() as int] == y);
            }
        }
        assert forall|i: int, j: int| 0 <= i < j < zs.len() implies zs[i] < zs[j] by {
            if j == ys.len() {
                assert(ys[i] <= ys[ys.len() - 1]);
            }
        }
        zs
    } else {
        let d = ys.drop_last();
        let l = ys.last();
        let w = insert_ascending(d, y);
        let zs = w.push(l);
        assert forall|v: u32| w.contains(v) implies v < l by {
            let k = choose|k: int| 0 <= k < w.len() && w[k] == v;
            if v != y {
                assert(d.contains(v));
                let m = choose|m: int| 0 <= m < d.len() && d[m] == v;
                assert(ys[m] < ys[ys.len() - 1]);
            }
        }
        assert forall|i: int, j: int| 0 <= i < j < zs.len() implies zs[i] < zs[j] by {
            if j == w.len() {
                assert(w.contains(w[i]));
            } else {
                assert(zs[i] == w[i] && zs[j] == w[j]);
            }
        }
        assert forall|v: u32| zs.contains(v) <==> ys.contains(v) || v == y by {
            if zs.contains(v) {
                let k = choose|k: int| 0 <= k < zs.len() && zs[k] == v;
                if k < w.len() {
                    assert(w.contains(v));
                    if d.contains(v) {
                        let m = choose|m: int| 0 <= m < d.len() && d[m] == v;
                        assert(ys[m] == v);
                    }
                } else {
                    assert(ys[ys.len() - 1] == v);
                }
            }
            if ys.contains(v) {
                let k = choose|k: int| 0 <= k < ys.len() && ys[k] == v;
                if k < ys.len() - 1 {
                    assert(d[k] == v);
                    assert(w.contains(v));
                    let m = choose|m: int| 0 <= m < w.len() && w[m] == v;
                    assert(zs[m] == v);
                } else {
                    assert(zs[w.len() as int] == v);
                }
            }
            if v == y {
                assert(w.contains(v));
                let m = choose|m: int| 0 <= m < w.len() && w[m] == v;
                assert(zs[m] == v);
            }
        }
        zs
    }
}

/// Every set of lines has its endpoints listed in ascending order.
proof fn endpoints_exist(lines: Seq<Line>) -> (ys: Seq<u32>)
    ensures
        lists_endpoints(lines, ys),
    decreases lines.len(),
{
    if lines.len() == 0 {
        let ys = Seq::<u32>::empty();
        assert forall|y: u32| #[trigger] ys.contains(y) <==> is_endpoint(lines, y) by {
            if is_endpoint(lines, y) {
                let l = choose|l: Line| #[trigger] lines.contains(l) && (l.y1 == y || l.y2 == y);
            }
        }
        ys
    } else {
        let d = lines.drop_last();
        let last = lines.last();
        let w = endpoints_exist(d);
        let w1 = insert_ascending(w, last.y1);
        let ys = insert_ascending(w1, last.y2);
        assert forall|y: u32| #[trigger] ys.contains(y) <==> is_endpoint(lines, y) by {
            if is_endpoint(d, y) {
                let l = choose|l: Line| #[trigger] d.contains(l) && (l.y1 == y || l.y2 == y);
                let k = choose|k: int| 0 <= k < d.len() && d[k] == l;
                assert(lines[k] == l);
                assert(lines.contains(l));
            }
            if last.y1 == y || last.y2 == y {
                assert(lines[lines.len() - 1] == last);
                assert(lines.contains(last));
            }
            if is_endpoint(lines, y) {
                let l = choose|l: Line| #[trigger] lines.contains(l) && (l.y1 == y || l.y2 == y);
                let k = choose|k: int| 0 <= k < lines.len() && lines[k] == l;
                if k < d.len() {
                    assert(d[k] == l);
                    assert(d.contains(l));
                    assert(is_endpoint(d, y));
                }
            }
        }
        ys
    }
}

/// The endpoints of the lines, as [`endpoints_of`] lists them, are ascending.
proof fn lemma_spans_over_ascending(lines: Seq<Line>)
    ensures
        lists_endpoints(lines, endpoints_of(lines)),
{
    let w = endpoints_exist(lines);
    assert(lists_endpoints(lines, w));
}

/// What holds of the sweep `(spans, open)` over the ascending heights `ys`.
spec fn sweep_inv(lines: Seq<Line>, ys: Seq<u32>, spans: Seq<Line>, open: bool) -> bool {
    &&& open ==> spans.len() > 0
    &&& ys.len() == 0 ==> spans.len() == 0 && !open
    &&& forall|k: int|
        0 <= k < spans.len() ==> leftmost_cover(lines, (#[trigger] spans[k]).y1) == Some(
            spans[k].x1,
        ) && spans[k].y1 <= ys.last()
    &&& forall|k: int|
        0 <= k < spans.len() && (k < spans.len() - 1 || !open) ==> (#[trigger] spans[k]).y1
            < spans[k].y2 && spans[k].y2 <= ys.last()
    &&& forall|i: int, j: int|
        0 <= i < j < spans.len() ==> (#[trigger] spans[i]).y2 <= (#[trigger] spans[j]).y1
    &&& forall|i: int, j: int|
        0 <= i < j < spans.len() && (#[trigger] spans[i]).y2 == (#[trigger] spans[j]).y1
            ==> spans[i].x1 != spans[j].x1
}

proof fn lemma_sweep(lines: Seq<Line>, ys: Seq<u32>)
    requires
        strictly_ascending(ys),
    ensures
        spans_over(lines, ys) matches Some(st) ==> sweep_inv(lines, ys, st.0, st.1),
    decreases ys.len(),
{
    if ys.len() > 0 {
        let d = ys.drop_last();
        let y = ys.last();
        lemma_sweep(lines, d);
        if let Some(st) = spans_over(lines, d) {
            if d.len() > 0 {
                assert(d.last() < y);
            }
            let (l, open) = st;
            if let Some(nst) = span_step(st, lines, y) {
                let (nl, nopen) = nst;
                match leftmost_cover(lines, y) {
                    None => {
                        assert forall|k: int| 0 <= k < nl.len() implies leftmost_cover(
                            lines,
                            (#[trigger] nl[k]).y1,
                        ) == Some(nl[k].x1) && nl[k].y1 <= y by {
                            assert(nl[k].y1 == l[k].y1 && nl[k].x1 == l[k].x1);
                        }
                        assert forall|i: int, j: int| 0 <= i < j < nl.len() implies (
                        #[trigger] nl[i]).y2 <= (#[trigger] nl[j]).y1 by {
                            assert(nl[i] == l[i]);
                            assert(nl[j].y1 == l[j].y1);
                        }
                        assert forall|i: int, j: int|
                            0 <= i < j < nl.len() && (#[trigger] nl[i]).y2 == (
                            #[trigger] nl[j]).y1 implies nl[i].x1 != nl[j].x1 by {
                            assert(nl[i] == l[i]);
                            assert(nl[j].y1 == l[j].y1 && nl[j].x1 == l[j].x1);
                        }
                    },
                    Some(x) => {
                        if !open {
                            assert forall|k: int| 0 <= k < nl.len() implies leftmost_cover(
                                lines,
                                (#[trigger] nl[k]).y1,
                            ) == Some(nl[k].x1) && nl[k].y1 <= y by {
                                if k < l.len() {
                                    assert(nl[k] == l[k]);
                                }
                            }
                            assert forall|i: int, j: int| 0 <= i < j < nl.len() implies (
                            #[trigger] nl[i]).y2 <= (#[trigger] nl[j]).y1 by {
                                assert(nl[i] == l[i]);
                                if j < l.len() {
                                    assert(nl[j] == l[j]);
                                }
                            }
                            assert forall|k: int|
                                0 <= k < nl.len() && (k < nl.len() - 1 || !nopen) implies (
                            #[trigger] nl[k]).y1 < nl[k].y2 && nl[k].y2 <= y by {
                                assert(nl[k] == l[k]);
                            }
                            assert forall|i: int, j: int|
                                0 <= i < j < nl.len() && (#[trigger] nl[i]).y2 == (
                                #[trigger] nl[j]).y1 implies nl[i].x1 != nl[j].x1 by {
                                assert(nl[i] == l[i]);
                                if j < l.len() {
                                    assert(nl[j] == l[j]);
                                }
                            }
                        } else if x == l.last().x1 {
                        } else {
                            let c = close_last(l, y);
                            assert forall|k: int| 0 <= k < nl.len() implies leftmost_cover(
                                lines,
                                (#[trigger] nl[k]).y1,
                            ) == Some(nl[k].x1) && nl[k].y1 <= y by {
                                if k < l.len() {
                                    assert(nl[k].y1 == l[k].y1 && nl[k].x1 == l[k].x1);
                                }
                            }
                            assert forall|i: int, j: int| 0 <= i < j < nl.len() implies (
                            #[trigger] nl[i]).y2 <= (#[trigger] nl[j]).y1 by {
                                if j < l.len() {
                                    assert(nl[i] == l[i]);
                                    assert(nl[j].y1 == l[j].y1);
                                } else if i < l.len() - 1 {
                                    assert(nl[i] == l[i]);
                                } else {
                                }
                            }
                            assert forall|k: int|
                                0 <= k < nl.len() && (k < nl.len() - 1 || !nopen) implies (
                            #[trigger] nl[k]).y1 < nl[k].y2 && nl[k].y2 <= y by {
                                if k < l.len() - 1 {
                                    assert(nl[k] == l[k]);
                                }
                            }
                            assert forall|i: int, j: int|
                                0 <= i < j < nl.len() && (#[trigger] nl[i]).y2 == (
                                #[trigger] nl[j]).y1 implies nl[i].x1 != nl[j].x1 by {
                                if j < l.len() {
                                    assert(nl[i] == l[i]);
                                    assert(nl[j].y1 == l[j].y1 && nl[j].x1 == l[j].x1);
                                } else if i < l.len() - 1 {
                                    assert(nl[i] == l[i]);
                                    assert(l[i].y2 <= l[l.len() - 1].y1);
                                } else {
                                    assert(nl[i].x1 == l.last().x1);
                                }
                            }
                        }
                    },
                }
            }
        }
    }
}

/// The spans taller than one unit keep what holds of each span and of each
/// two spans.
proof fn lemma_tall_spans(lines: Seq<Line>, s: Seq<Line>)
    requires
        forall|k: int|
            0 <= k < s.len() ==> leftmost_cover(lines, (#[trigger] s[k]).y1) == Some(s[k].x1)
                && s[k].y1 < s[k].y2,
        forall|i: int, j: int| 0 <= i < j < s.len() ==> (#[trigger] s[i]).y2 <= (#[trigger] s[j]).y1,
        forall|i: int, j: int|
            0 <= i < j < s.len() && (#[trigger] s[i]).y2 == (#[trigger] s[j]).y1 ==> s[i].x1
                != s[j].x1,
    ensures
        forall|k: int|
            0 <= k < tall_spans(s).len() ==> exists|m: int|
                0 <= m < s.len() && #[trigger] tall_spans(s)[k] == s[m],
        spans_wf(lines, tall_spans(s)),
    decreases s.len(),
{
    if s.len() > 0 {
        let d = s.drop_last();
        lemma_tall_spans(lines, d);
        let t = tall_spans(d);
        assert forall|k: int| 0 <= k < tall_spans(s).len() implies exists|m: int|
            0 <= m < s.len() && #[trigger] tall_spans(s)[k] == s[m] by {
            if k < t.len() {
                assert(tall_spans(s)[k] == t[k]);
                let m = choose|m: int| 0 <= m < d.len() && #[trigger] t[k] == d[m];
                assert(s[m] == d[m]);
            } else {
                assert(tall_spans(s)[k] == s[s.len() - 1]);
            }
        }
        if dist(s.last().y2, s.last().y1) > 1 {
            let n = t.push(s.last());
            assert forall|i: int, j: int| 0 <= i < j < n.len() implies (#[trigger] n[i]).y2 <= (
            #[trigger] n[j]).y1 by {
                if j < t.len() {
                    assert(n[i] == t[i] && n[j] == t[j]);
                } else {
                    assert(n[i] == t[i]);
                    let m = choose|m: int| 0 <= m < d.len() && #[trigger] t[i] == d[m];
                    assert(s[m] == d[m]);
                }
            }
            assert forall|k: int| 0 <= k < n.len() implies (#[trigger] n[k]).y1 + 1 < n[k].y2
                && leftmost_cover(lines, n[k].y1) == Some(n[k].x1) by {
                if k < t.len() {
                    assert(n[k] == t[k]);
                }
            }
            assert forall|i: int, j: int|
                0 <= i < j < n.len() && (#[trigger] n[i]).y2 == (#[trigger] n[j]).y1 implies n[i].x1
                != n[j].x1 by {
                if j < t.len() {
                    assert(n[i] == t[i] && n[j] == t[j]);
                } else {
                    assert(n[i] == t[i]);
                    let m = choose|m: int| 0 <= m < d.len() && #[trigger] t[i] == d[m];
                    assert(s[m] == d[m]);
                }
            }
        }
    }
}

/// The leftmost spans are each taller than one unit, lie in ascending
/// order without overlapping, are at different `x` where one ends as the
/// next starts, and each starts at the leftmost line that covers its start.
pub proof fn lemma_leftmost_spans_wf(lines: Seq<Line>)
    ensures
        leftmost_spans(lines) matches Some(spans) ==> spans_wf(lines, spans),
{
    let ys = endpoints_of(lines);
    if let Some(st) = spans_over(lines, ys) {
        if !st.1 {
            lemma_spans_over_ascending(lines);
            lemma_sweep(lines, ys);
            lemma_tall_spans(lines, st.0);
        }
    }
}

proof fn lemma_spans_over_same(a: Seq<Line>, b: Seq<Line>, ys: Seq<u32>)
    requires
        forall|l: Line| a.contains(l) <==> b.contains(l),
    ensures
        spans_over(a, ys) == spans_over(b, ys),
    decreases ys.len(),
{
    if ys.len() > 0 {
        lemma_spans_over_same(a, b, ys.drop_last());
        lemma_leftmost_same(a, b, ys.last());
    }
}

/// The leftmost spans depend only on which lines there are, not on their
/// order or repeats.
pub proof fn lemma_leftmost_spans_same_lines(a: Seq<Line>, b: Seq<Line>)
    requires
        forall|l: Line| a.contains(l) <==> b.contains(l),
    ensures
        leftmost_spans(a) == leftmost_spans(b),
{
    lemma_spans_over_ascending(a);
    lemma_spans_over_ascending(b);
    let ea = endpoints_of(a);
    let eb = endpoints_of(b);
    assert forall|y: u32| is_endpoint(a, y) <==> is_endpoint(b, y) by {
        if is_endpoint(a, y) {
            let l = choose|l: Line| #[trigger] a.contains(l) && (l.y1 == y || l.y2 == y);
            assert(b.contains(l));
        }
        if is_endpoint(b, y) {
            let l = choose|l: Line| #[trigger] b.contains(l) && (l.y1 == y || l.y2 == y);
            assert(a.contains(l));
        }
    }
    assert forall|y: u32| ea.contains(y) <==> eb.contains(y) by {
        assert(ea.contains(y) <==> is_endpoint(a, y));
        assert(eb.contains(y) <==> is_endpoint(b, y));
    }
    lemma_ascending_unique(ea, eb);
    lemma_spans_over_same(a, b, ea);
}

/// Reordering the vertical lines leaves their leftmost spans unchanged:
/// both orders are refused, or both give the same spans.
pub proof fn lemma_leftmost_spans_permutation(a: Seq<Line>, b: Seq<Line>)
    requires
        a.to_multiset() == b.to_multiset(),
    ensures
        leftmost_spans(a) == leftmost_spans(b),
{
    assert forall|l: Line| a.contains(l) <==> b.contains(l) by {
        assert(a.contains(l) <==> a.to_multiset().count(l) > 0);
        assert(b.contains(l) <==> b.to_multiset().count(l) > 0);
    }
    lemma_leftmost_spans_same_lines(a, b);
}

/// A span as the sweep opens it, before its end is known.
pub open spec fn open_span(l: Line) -> Line {
    Line { x1: l.x1, y1: l.y1, y2: 0 }
}

/// Where a span covers a height, no other does, and its `x` is the leftmost there.
proof fn lemma_span_cover(s: Seq<Line>, y: u32, k: int)
    requires
        spans_shape(s),
        0 <= k < s.len(),
        covers(s[k], y),
    ensures
        leftmost_cover(s, y) == Some(s[k].x1),
{
    assert forall|l: Line| #[trigger] s.contains(l) && covers(l, y) implies l == s[k] by {
        let j = choose|j: int| 0 <= j < s.len() && s[j] == l;
        if j < k {
            assert(s[j].y2 <= s[k].y1);
        } else if j > k {
            assert(s[k].y2 <= s[j].y1);
        }
    }
    assert(s.contains(s[k]));
    assert(is_leftmost_cover(s, y, s[k].x1));
    let c = choose|x: u32| is_leftmost_cover(s, y, x);
    let lc = choose|l: Line| #[trigger] s.contains(l) && covers(l, y) && l.x1 == c;
    assert(lc == s[k]);
}

/// Where no span covers a height, nothing does.
proof fn lemma_span_no_cover(s: Seq<Line>, y: u32)
    requires
        forall|k: int| 0 <= k < s.len() ==> !covers(#[trigger] s[k], y),
    ensures
        leftmost_cover(s, y) is None,
{
    assert forall|x: u32| !is_leftmost_cover(s, y, x) by {
        if is_leftmost_cover(s, y, x) {
            let l = choose|l: Line| #[trigger] s.contains(l) && covers(l, y) && l.x1 == x;
            let j = choose|j: int| 0 <= j < s.len() && s[j] == l;
            assert(!covers(s[j], y));
        }
    }
}

/// Both ends of every span are listed among the endpoints.
proof fn lemma_span_ends_listed(s: Seq<Line>, e: Seq<u32>, j: int)
    requires
        lists_endpoints(s, e),
        0 <= j < s.len(),
    ensures
        e.contains(s[j].y1),
        e.contains(s[j].y2),
{
    assert(s.contains(s[j]));
    assert(is_endpoint(s, s[j].y1));
    assert(is_endpoint(s, s[j].y2));
}

/// Every listed endpoint is an end of some span.
proof fn lemma_listed_is_span_end(s: Seq<Line>, e: Seq<u32>, z: u32) -> (j: int)
    requires
        lists_endpoints(s, e),
        e.contains(z),
    ensures
        0 <= j < s.len(),
        s[j].y1 == z || s[j].y2 == z,
{
    assert(is_endpoint(s, z));
    let l = choose|l: Line| #[trigger] s.contains(l) && (l.y1 == z || l.y2 == z);
    choose|j: int| 0 <= j < s.len() && s[j] == l
}

/// No listed value lies strictly between two neighbours of an ascending list.
proof fn lemma_listed_gap(e: Seq<u32>, n: int, z: u32)
    requires
        strictly_ascending(e),
        1 <= n < e.len(),
        e.contains(z),
    ensures
        !(e[n - 1] < z && z < e[n]),
{
    let m = choose|m: int| 0 <= m < e.len() && e[m] == z;
    if m <= n - 1 {
        if m < n - 1 {
            assert(e[m] < e[n - 1]);
        }
    } else {
        if m > n {
            assert(e[n] < e[m]);
        }
    }
}

/// The sweep over the endpoints of well-shaped spans, after the first `n`
/// of them: either inside span `k`, which is open, with the spans before it
/// closed as they are; or between spans, with the first `c` closed.
proof fn lemma_resweep(s: Seq<Line>, e: Seq<u32>, n: int) -> (w: (bool, int))
    requires
        spans_shape(s),
        lists_endpoints(s, e),
        1 <= n <= e.len(),
    ensures
        w.0 ==> 0 <= w.1 < s.len() && s[w.1].y1 <= e[n - 1] && e[n - 1] < s[w.1].y2
            && spans_over(s, e.take(n)) == Some((s.take(w.1).push(open_span(s[w.1])), true)),
        !w.0 ==> 0 <= w.1 <= s.len() && spans_over(s, e.take(n)) == Some((s.take(w.1), false))
            && (forall|i: int| 0 <= i < w.1 ==> (#[trigger] s[i]).y2 <= e[n - 1]) && (forall|
            i: int,
        | w.1 <= i < s.len() ==> (#[trigger] s[i]).y1 > e[n - 1]),
    decreases n,
{
    let y = e[n - 1];
    assert(e.contains(y));
    assert(e.take(n).drop_last() =~= e.take(n - 1));
    assert(e.take(n).last() == y);
    if n == 1 {
        let j = lemma_listed_is_span_end(s, e, y);
        lemma_span_ends_listed(s, e, 0);
        let m = choose|m: int| 0 <= m < e.len() && e[m] == s[0].y1;
        if m > 0 {
            assert(e[0] < e[m]);
        }
        if j > 0 {
            assert(s[0].y2 <= s[j].y1);
        }
        assert(y == s[0].y1);
        lemma_span_cover(s, y, 0);
        assert(e.take(0) =~= Seq::<u32>::empty());
        assert(s.take(0).push(open_span(s[0])) =~= seq![open_span(s[0])]);
        assert(Seq::<Line>::empty().push(open_span(s[0])) =~= seq![open_span(s[0])]);
        (true, 0)
    } else {
        let w = lemma_resweep(s, e, n - 1);
        let t = e[n - 2];
        assert(t < y);
        let j = lemma_listed_is_span_end(s, e, y);
        if w.0 {
            let k = w.1;
            lemma_span_ends_listed(s, e, k);
            lemma_listed_gap(e, n - 1, s[k].y2);
            if j < k {
                assert(s[j].y2 <= s[k].y1);
            } else if j > k {
                assert(s[k].y2 <= s[j].y1);
            }
            assert(y == s[k].y2);
            let prev = s.take(k).push(open_span(s[k]));
            assert(close_last(prev, y) =~= s.take(k + 1));
            if k + 1 < s.len() && s[k + 1].y1 == y {
                assert(s[k].x1 != s[k + 1].x1);
                lemma_span_cover(s, y, k + 1);
                assert(prev.last().x1 == s[k].x1);
                (true, k + 1)
            } else {
                assert forall|i: int| 0 <= i < s.len() implies !covers(#[trigger] s[i], y) by {
                    if i < k {
                        assert(s[i].y2 <= s[k].y1);
                    } else if i > k + 1 {
                        assert(s[k + 1].y2 <= s[i].y1);
                        assert(s[k].y2 <= s[k + 1].y1);
                    } else if i == k + 1 {
                        assert(s[k].y2 <= s[k + 1].y1);
                    }
                }
                lemma_span_no_cover(s, y);
                assert forall|i: int| 0 <= i < k + 1 implies (#[trigger] s[i]).y2 <= y by {
                    if i < k {
                        assert(s[i].y2 <= s[k].y1);
                    }
                }
                assert forall|i: int| k + 1 <= i < s.len() implies (#[trigger] s[i]).y1 > y by {
                    assert(s[k].y2 <= s[k + 1].y1);
                    if i > k + 1 {
                        assert(s[k + 1].y2 <= s[i].y1);
                    }
                }
                (false, k + 1)
            }
        } else {
            let c = w.1;
            if j < c {
                assert(s[j].y2 <= t);
            }
            assert(c < s.len());
            lemma_span_ends_listed(s, e, c);
            lemma_listed_gap(e, n - 1, s[c].y1);
            assert(s[c].y1 > t);
            if j > c {
                assert(s[c].y2 <= s[j].y1);
            }
            assert(y == s[c].y1);
            lemma_span_cover(s, y, c);
            (true, c)
        }
    }
}

/// The sweep over the endpoints of well-shaped spans gives them back.
proof fn lemma_resweep_end(s: Seq<Line>, e: Seq<u32>)
    requires
        spans_shape(s),
        lists_endpoints(s, e),
    ensures
        spans_over(s, e) == Some((s, false)),
{
    if e.len() == 0 {
        if s.len() > 0 {
            lemma_span_ends_listed(s, e, 0);
        }
        assert(s =~= Seq::<Line>::empty());
    } else {
        let n = e.len() as int;
        let w = lemma_resweep(s, e, n);
        assert(e.take(n) =~= e);
        let t = e[n - 1];
        if w.0 {
            lemma_span_ends_listed(s, e, w.1);
            let m = choose|m: int| 0 <= m < e.len() && e[m] == s[w.1].y2;
            if m < n - 1 {
                assert(e[m] < e[n - 1]);
            }
        } else if w.1 < s.len() {
            lemma_span_ends_listed(s, e, w.1);
            let m = choose|m: int| 0 <= m < e.len() && e[m] == s[w.1].y1;
            if m < n - 1 {
                assert(e[m] < e[n - 1]);
            }
        } else {
            assert(s.take(w.1) =~= s);
        }
    }
}

proof fn lemma_tall_identity(s: Seq<Line>)
    requires
        forall|k: int| 0 <= k < s.len() ==> (#[trigger] s[k]).y1 + 1 < s[k].y2,
    ensures
        tall_spans(s) == s,
    decreases s.len(),
{
    if s.len() > 0 {
        lemma_tall_identity(s.drop_last());
        assert(s.drop_last().push(s.last()) =~= s);
    }
}

/// Some line spans the height `y`, so there is a leftmost one.
proof fn lemma_cover_exists(lines: Seq<Line>, y: u32, l: Line)
    requires
        lines.contains(l),
        covers(l, y),
    ensures
        leftmost_cover(lines, y) is Some,
    decreases lines.len(),
{
    let d = lines.drop_last();
    let m = lines.last();
    assert forall|k: Line| #[trigger] lines.contains(k) <==> d.contains(k) || k == m by {
        if lines.contains(k) {
            let i = choose|i: int| 0 <= i < lines.len() && lines[i] == k;
            if i < d.len() {
                assert(d[i] == k);
            }
        }
        if d.contains(k) {
            let i = choose|i: int| 0 <= i < d.len() && d[i] == k;
            assert(lines[i] == k);
        }
        if k == m {
            assert(lines[lines.len() - 1] == k);
        }
    }
    if exists|k: Line| #[trigger] d.contains(k) && covers(k, y) {
        let k = choose|k: Line| #[trigger] d.contains(k) && covers(k, y);
        lemma_cover_exists(d, y, k);
        let xd = choose|x: u32| is_leftmost_cover(d, y, x);
        let w = if covers(m, y) && m.x1 < xd {
            m.x1
        } else {
            xd
        };
        let ld = choose|k: Line| #[trigger] d.contains(k) && covers(k, y) && k.x1 == xd;
        assert(lines.contains(ld));
        assert(lines.contains(m));
        assert(is_leftmost_cover(lines, y, w));
    } else {
        assert(m == l);
        assert(lines.contains(m));
        assert(is_leftmost_cover(lines, y, m.x1));
    }
}

/// Over heights that list, in order, every endpoint of lines of positive
/// height up to the last of them, the sweep never fails, and has a span
/// open just where some line covers the last height.
proof fn lemma_sweep_admitted(lines: Seq<Line>, ys: Seq<u32>)
    requires
        forall|l: Line| #[trigger] lines.contains(l) ==> l.y1 < l.y2,
        strictly_ascending(ys),
        forall|y: u32| #[trigger] ys.contains(y) ==> is_endpoint(lines, y),
        ys.len() > 0 ==> forall|y: u32| is_endpoint(lines, y) && y <= ys.last() ==> #[trigger] ys.contains(y),
    ensures
        spans_over(lines, ys) matches Some(st) && (st.1 <==> (ys.len() > 0 && leftmost_cover(
            lines,
            ys.last(),
        ) is Some)),
    decreases ys.len(),
{
    if ys.len() > 0 {
        let d = ys.drop_last();
        let n = ys.len() - 1;
        let y = ys.last();
        assert forall|z: u32| #[trigger] d.contains(z) implies is_endpoint(lines, z) by {
            let i = choose|i: int| 0 <= i < d.len() && d[i] == z;
            assert(ys[i] == z);
            assert(ys.contains(z));
        }
        if d.len() > 0 {
            assert forall|z: u32| is_endpoint(lines, z) && z <= d.last() implies #[trigger] d.contains(z) by {
                assert(ys[n - 1] < ys[n]);
                assert(ys.contains(z));
                let i = choose|i: int| 0 <= i < ys.len() && ys[i] == z;
                if i == n {
                    assert(false);
                }
                assert(d[i] == z);
            }
        }
        lemma_sweep_admitted(lines, d);
        let st = spans_over(lines, d).unwrap();
        if leftmost_cover(lines, y) is None {
            assert(ys.contains(y)) by {
                assert(ys[n] == y);
            }
            let l = choose|l: Line| #[trigger] lines.contains(l) && (l.y1 == y || l.y2 == y);
            if l.y1 == y {
                lemma_cover_exists(lines, y, l);
            }
            assert(l.y2 == y && l.y1 < y);
            assert(is_endpoint(lines, l.y1));
            assert(ys.contains(l.y1));
            let j = choose|j: int| 0 <= j < ys.len() && ys[j] == l.y1;
            assert(j < n);
            assert(d.len() > 0);
            assert(ys[n - 1] >= ys[j]) by {
                if j < n - 1 {
                    assert(ys[j] < ys[n - 1]);
                }
            }
            assert(ys[n - 1] < ys[n]);
            assert(d.last() == ys[n - 1]);
            lemma_cover_exists(lines, d.last(), l);
        }
    }
}

/// Vertical lines that each have some height are always reduced: the sweep
/// meets no height that starts nothing while no span is open, and ends with
/// none open.
pub proof fn lemma_leftmost_spans_admitted(lines: Seq<Line>)
    requires
        forall|l: Line| #[trigger] lines.contains(l) ==> l.y1 < l.y2,
    ensures
        leftmost_spans(lines) is Some,
{
    let ys = endpoints_of(lines);
    lemma_spans_over_ascending(lines);
    if ys.len() > 0 {
        assert forall|y: u32| is_endpoint(lines, y) && y <= ys.last() implies #[trigger] ys.contains(y) by {}
    }
    lemma_sweep_admitted(lines, ys);
    if ys.len() > 0 {
        let top = ys.last();
        if leftmost_cover(lines, top) is Some {
            let x = choose|x: u32| is_leftmost_cover(lines, top, x);
            let l = choose|l: Line| #[trigger] lines.contains(l) && covers(l, top) && l.x1 == x;
            assert(is_endpoint(lines, l.y2));
            assert(ys.contains(l.y2));
            let j = choose|j: int| 0 <= j < ys.len() && ys[j] == l.y2;
            if j < ys.len() - 1 {
                assert(ys[j] < ys[ys.len() - 1]);
            }
            assert(false);
        }
    }
}

/// For vertical lines that each have some height, reducing their leftmost
/// spans once more gives them back.
pub proof fn lemma_leftmost_spans_idempotent_admitted(lines: Seq<Line>)
    requires
        forall|l: Line| #[trigger] lines.contains(l) ==> l.y1 < l.y2,
    ensures
        leftmost_spans(lines) matches Some(s) && leftmost_spans(s) == Some(s),
{
    lemma_leftmost_spans_admitted(lines);
    lemma_leftmost_spans_idempotent(lines);
}

/// What the sweep over the ascending heights `ys` found of each span: it
/// starts at one of the heights, and at each of them from its start up to
/// its end (or on, for the one still open) its line is the leftmost cover.
spec fn spans_cover_listed(lines: Seq<Line>, ys: Seq<u32>, spans: Seq<Line>, open: bool) -> bool {
    &&& forall|k: int| 0 <= k < spans.len() ==> ys.contains((#[trigger] spans[k]).y1)
    &&& forall|k: int, z: u32|
        #![trigger ys.contains(z), spans[k]]
        0 <= k < spans.len() && ys.contains(z) && spans[k].y1 <= z && (z < spans[k].y2 || (open
            && k == spans.len() - 1)) ==> leftmost_cover(lines, z) == Some(spans[k].x1)
}

proof fn lemma_sweep_cover(lines: Seq<Line>, ys: Seq<u32>)
    requires
        strictly_ascending(ys),
    ensures
        spans_over(lines, ys) matches Some(st) ==> spans_cover_listed(lines, ys, st.0, st.1),
    decreases ys.len(),
{
    if ys.len() > 0 {
        let d = ys.drop_last();
        let y = ys.last();
        lemma_sweep_cover(lines, d);
        lemma_sweep(lines, d);
        assert forall|z: u32| #[trigger] ys.contains(z) <==> d.contains(z) || z == y by {
            if ys.contains(z) {
                let i = choose|i: int| 0 <= i < ys.len() && ys[i] == z;
                if i < d.len() {
                    assert(d[i] == z);
                }
            }
            if d.contains(z) {
                let i = choose|i: int| 0 <= i < d.len() && d[i] == z;
                assert(ys[i] == z);
            }
            if z == y {
                assert(ys[ys.len() - 1] == z);
            }
        }
        assert forall|z: u32| #[trigger] d.contains(z) implies z < y by {
            let i = choose|i: int| 0 <= i < d.len() && d[i] == z;
            assert(ys[i] < ys[ys.len() - 1]);
        }
        if let Some(st) = spans_over(lines, d) {
            let l = st.0;
            let o = st.1;
            if d.len() > 0 {
                assert(d.contains(d.last())) by {
                    assert(d[d.len() - 1] == d.last());
                }
            }
            if let Some(nst) = span_step(st, lines, y) {
                let nl = nst.0;
                let no = nst.1;
                assert forall|k: int| 0 <= k < nl.len() implies ys.contains((#[trigger] nl[k]).y1) by {
                    if k < l.len() {
                        assert(nl[k].y1 == l[k].y1);
                        assert(d.contains(l[k].y1));
                    } else {
                        assert(nl[k].y1 == y);
                    }
                }
                assert forall|k: int, z: u32|
                    #![trigger ys.contains(z), nl[k]]
                    0 <= k < nl.len() && ys.contains(z) && nl[k].y1 <= z && (z < nl[k].y2 || (no
                        && k == nl.len() - 1)) implies leftmost_cover(lines, z) == Some(nl[k].x1) by {
                    if k < l.len() - 1 || (k < l.len() && !o) {
                        assert(nl[k] == l[k]);
                        assert(l[k].y2 <= d.last());
                        assert(d.contains(z));
                    } else if k == l.len() - 1 && o {
                        assert(nl[k].x1 == l[k].x1 && nl[k].y1 == l[k].y1);
                        if z != y {
                            assert(d.contains(z));
                        }
                    } else {
                        assert(nl[k].y1 == y);
                        if z != y {
                            assert(d.contains(z));
                        }
                        assert(z == y);
                    }
                }
            }
        }
    }
}

/// The last of the ascending heights `ys` that is at most `y`, searching on
/// from index `j`.
proof fn lemma_floor_index(ys: Seq<u32>, y: u32, j: int) -> (i: int)
    requires
        strictly_ascending(ys),
        0 <= j < ys.len(),
        ys[j] <= y,
    ensures
        j <= i < ys.len(),
        ys[i] <= y,
        i + 1 < ys.len() ==> y < ys[i + 1],
    decreases ys.len() - j,
{
    if j + 1 < ys.len() && ys[j + 1] <= y {
        lemma_floor_index(ys, y, j + 1)
    } else {
        j
    }
}

/// Two heights met by the same lines have the same leftmost cover.
proof fn lemma_leftmost_same_height(lines: Seq<Line>, e: u32, y: u32)
    requires
        forall|l: Line| #[trigger] lines.contains(l) ==> (covers(l, e) <==> covers(l, y)),
    ensures
        leftmost_cover(lines, e) == leftmost_cover(lines, y),
{
    assert forall|x: u32| is_leftmost_cover(lines, e, x) <==> is_leftmost_cover(lines, y, x) by {
        if is_leftmost_cover(lines, e, x) {
            let l = choose|l: Line| #[trigger] lines.contains(l) && covers(l, e) && l.x1 == x;
            assert(covers(l, y));
        }
        if is_leftmost_cover(lines, y, x) {
            let l = choose|l: Line| #[trigger] lines.contains(l) && covers(l, y) && l.x1 == x;
            assert(covers(l, e));
        }
    }
    if exists|x: u32| is_leftmost_cover(lines, e, x) {
        let xa = choose|x: u32| is_leftmost_cover(lines, e, x);
        let xb = choose|x: u32| is_leftmost_cover(lines, y, x);
        assert(is_leftmost_cover(lines, y, xa));
        let la = choose|l: Line| #[trigger] lines.contains(l) && covers(l, e) && l.x1 == xa;
        let lb = choose|l: Line| #[trigger] lines.contains(l) && covers(l, y) && l.x1 == xb;
        assert(covers(la, y));
        assert(xb <= la.x1);
        assert(covers(lb, e));
        assert(xa <= lb.x1);
    }
}

/// Over the whole height of each of the leftmost spans, its line is the
/// leftmost of the lines that cover the height.
pub proof fn lemma_leftmost_spans_cover(lines: Seq<Line>)
    ensures
        leftmost_spans(lines) matches Some(spans) ==> forall|k: int, y: u32|
            #![trigger spans[k], leftmost_cover(lines, y)]
            0 <= k < spans.len() && spans[k].y1 <= y < spans[k].y2 ==> leftmost_cover(lines, y)
                == Some(spans[k].x1),
{
    let ys = endpoints_of(lines);
    lemma_spans_over_ascending(lines);
    if let Some(st) = spans_over(lines, ys) {
        if !st.1 {
            lemma_sweep(lines, ys);
            lemma_sweep_cover(lines, ys);
            lemma_tall_spans(lines, st.0);
            let s = st.0;
            let t = tall_spans(s);
            assert forall|k: int, y: u32|
                #![trigger t[k], leftmost_cover(lines, y)]
                0 <= k < t.len() && t[k].y1 <= y < t[k].y2 implies leftmost_cover(lines, y) == Some(
                t[k].x1,
            ) by {
                let m = choose|m: int| 0 <= m < s.len() && #[trigger] t[k] == s[m];
                let sp = s[m];
                assert(ys.contains(sp.y1));
                let j = choose|j: int| 0 <= j < ys.len() && ys[j] == sp.y1;
                let i = lemma_floor_index(ys, y, j);
                let e = ys[i];
                assert(ys.contains(e));
                if j < i {
                    assert(ys[j] < ys[i]);
                }
                assert(leftmost_cover(lines, e) == Some(sp.x1));
                assert forall|l: Line| #[trigger] lines.contains(l) implies (covers(l, e) <==> covers(l, y)) by {
                    assert(is_endpoint(lines, l.y1));
                    assert(is_endpoint(lines, l.y2));
                    assert(ys.contains(l.y1));
                    assert(ys.contains(l.y2));
                    let q1 = choose|q: int| 0 <= q < ys.len() && ys[q] == l.y1;
                    let q2 = choose|q: int| 0 <= q < ys.len() && ys[q] == l.y2;
                    if q1 > i {
                        if q1 > i + 1 {
                            assert(ys[i + 1] < ys[q1]);
                        }
                    } else if q1 < i {
                        assert(ys[q1] < ys[i]);
                    }
                    if q2 > i {
                        if q2 > i + 1 {
                            assert(ys[i + 1] < ys[q2]);
                        }
                    } else if q2 < i {
                        assert(ys[q2] < ys[i]);
                    }
                }
                lemma_leftmost_same_height(lines, e, y);
            }
        }
    }
}

/// Reducing the leftmost spans once more gives them back.
pub proof fn lemma_leftmost_spans_idempotent(lines: Seq<Line>)
    ensures
        leftmost_spans(lines) matches Some(s) ==> leftmost_spans(s) == Some(s),
{
    lemma_leftmost_spans_wf(lines);
    if let Some(s) = leftmost_spans(lines) {
        lemma_spans_over_ascending(s);
        lemma_resweep_end(s, endpoints_of(s));
        lemma_tall_identity(s);
    }
}

/// Two ascending sequences with the same elements are equal.
proof fn lemma_ascending_unique(a: Seq<u32>, b: Seq<u32>)
    requires
        strictly_ascending(a),
        strictly_ascending(b),
        forall|y: u32| a.contains(y) <==> b.contains(y),
    ensures
        a == b,
    decreases a.len(),
{
    if a.len() == 0 {
        if b.len() > 0 {
            assert(b.contains(b[0]));
        }
        assert(a =~= b);
    } else {
        assert(a.contains(a[0]));
        assert(b.len() > 0);
        assert(b.contains(b[0]));
        let k = choose|k: int| 0 <= k < b.len() && b[k] == a[0];
        let m = choose|m: int| 0 <= m < a.len() && a[m] == b[0];
        if k > 0 {
            assert(b[0] < b[k]);
            if m > 0 {
                assert(a[0] < a[m]);
            }
        }
        assert(a[0] == b[0]);
        let a1 = a.drop_first();
        let b1 = b.drop_first();
        assert forall|y: u32| a1.contains(y) <==> b1.contains(y) by {
            if a1.contains(y) {
                let i = choose|i: int| 0 <= i < a1.len() && a1[i] == y;
                assert(a[i + 1] == y);
                assert(a.contains(y));
                let j = choose|j: int| 0 <= j < b.len() && b[j] == y;
                assert(a[0] < a[i + 1]);
                if j == 0 {
                } else {
                    assert(b1[j - 1] == y);
                }
            }
            if b1.contains(y) {
                let i = choose|i: int| 0 <= i < b1.len() && b1[i] == y;
                assert(b[i + 1] == y);
                assert(b.contains(y));
                let j = choose|j: int| 0 <= j < a.len() && a[j] == y;
                assert(b[0] < b[i + 1]);
                if j == 0 {
                } else {
                    assert(a1[j - 1] == y);
                }
            }
        }
        lemma_ascending_unique(a1, b1);
        assert(a =~= seq![a[0]] + a1);
        assert(b =~= seq![b[0]] + b1);
    }
}

/// The leftmost cover depends only on which lines there are.
proof fn lemma_leftmost_same(a: Seq<Line>, b: Seq<Line>, y: u32)
    requires
        forall|l: Line| a.contains(l) <==> b.contains(l),
    ensures
        leftmost_cover(a, y) == leftmost_cover(b, y),
{
    assert forall|x: u32| is_leftmost_cover(a, y, x) <==> is_leftmost_cover(b, y, x) by {
        if is_leftmost_cover(a, y, x) {
            let l = choose|l: Line| #[trigger] a.contains(l) && covers(l, y) && l.x1 == x;
            assert(b.contains(l));
        }
        if is_leftmost_cover(b, y, x) {
            let l = choose|l: Line| #[trigger] b.contains(l) && covers(l, y) && l.x1 == x;
            assert(a.contains(l));
        }
    }
    if exists|x: u32| is_leftmost_cover(a, y, x) {
        let xa = choose|x: u32| is_leftmost_cover(a, y, x);
        let xb = choose|x: u32| is_leftmost_cover(b, y, x);
        assert(is_leftmost_cover(b, y, xa));
        let la = choose|l: Line| #[trigger] a.contains(l) && covers(l, y) && l.x1 == xa;
        let lb = choose|l: Line| #[trigger] b.contains(l) && covers(l, y) && l.x1 == xb;
        assert(b.contains(la));
        assert(xb <= la.x1);
        assert(a.contains(lb));
        assert(xa <= lb.x1);
    }
}

/// The leftmost position of the lines that span the height `y`.
fn leftmost(lines: &Vec<Line>, y: u32) -> (r: Option<u32>)
    ensures
        r == leftmost_cover(lines@, y),
{
    let n = lines.len();
    let mut best: Option<u32> = None;
    let mut i: usize = 0;
    while i < n
        invariant
            n == lines@.len(),
            0 <= i <= n,
            match best {
                None => forall|k: int| 0 <= k < i ==> !covers(#[trigger] lines@[k], y),
                Some(x) => (exists|k: int|
                    0 <= k < i && covers(#[trigger] lines@[k], y) && lines@[k].x1 == x) && (forall|
                    k: int,
                | 0 <= k < i && covers(#[trigger] lines@[k], y) ==> x <= lines@[k].x1),
            },
        decreases n - i,
    {
        let l = lines[i];
        if l.y1 <= y && y < l.y2 {
            match best {
                None => {
                    best = Some(l.x1);
                },
                Some(x) => {
                    if l.x1 < x {
                        best = Some(l.x1);
                    }
                },
            }
        }
        i = i + 1;
    }
    proof {
        let s = lines@;
        match best {
            None => {
                assert forall|x: u32| !is_leftmost_cover(s, y, x) by {
                    if is_leftmost_cover(s, y, x) {
                        let l = choose|l: Line| #[trigger] s.contains(l) && covers(l, y) && l.x1 == x;
                        let k = choose|k: int| 0 <= k < s.len() && s[k] == l;
                        assert(!covers(s[k], y));
                    }
                }
            },
            Some(x) => {
                let k = choose|k: int| 0 <= k < n && covers(#[trigger] s[k], y) && s[k].x1 == x;
                assert(s.contains(s[k]));
                assert forall|l: Line| #[trigger] s.contains(l) && covers(l, y) implies x <= l.x1 by {
                    let j = choose|j: int| 0 <= j < s.len() && s[j] == l;
                    assert(covers(s[j], y));
                }
                assert(is_leftmost_cover(s, y, x));
                let c = choose|x: u32| is_leftmost_cover(s, y, x);
                let lc = choose|l: Line| #[trigger] s.contains(l) && covers(l, y) && l.x1 == c;
                assert(x <= lc.x1);
                assert(c <= s[k].x1);
            },
        }
    }
    best
}

/// A sweep that fails stays failed over more heights.
proof fn lemma_spans_over_prefix(lines: Seq<Line>, ys: Seq<u32>, k: int)
    requires
        0 <= k <= ys.len(),
        spans_over(lines, ys.take(k)) is None,
    ensures
        spans_over(lines, ys) is None,
    decreases ys.len(),
{
    if k == ys.len() {
        assert(ys.take(k) =~= ys);
    } else {
        assert(ys.drop_last().take(k) =~= ys.take(k));
        lemma_spans_over_prefix(lines, ys.drop_last(), k);
    }
}

/// The heights where the lines start or end, ascending and without repeats.
fn endpoints(lines: &Vec<Line>) -> (ys: Vec<u32>)
    ensures
        lists_endpoints(lines@, ys@),
{
    let n = lines.len();
    let mut all: Vec<u32> = Vec::new();
    let mut i: usize = 0;
    while i < n
        invariant
            n == lines@.len(),
            0 <= i <= n,
            forall|y: u32|
                #[trigger] all@.contains(y) <==> exists|k: int|
                    0 <= k < i && (lines@[k].y1 == y || lines@[k].y2 == y),
        decreases n - i,
    {
        let l = lines[i];
        let ghost before = all@;
        all.push(l.y1);
        all.push(l.y2);
        proof {
            assert(all@ =~= before.push(l.y1).push(l.y2));
            assert forall|y: u32| #[trigger] all@.contains(y) <==> exists|k: int|
                0 <= k < i + 1 && (lines@[k].y1 == y || lines@[k].y2 == y) by {
                if all@.contains(y) {
                    let j = choose|j: int| 0 <= j < all@.len() && all@[j] == y;
                    if j < before.len() {
                        assert(before[j] == y);
                        assert(before.contains(y));
                    } else {
                        assert(lines@[i as int] == l);
                    }
                }
                if exists|k: int| 0 <= k < i + 1 && (lines@[k].y1 == y || lines@[k].y2 == y) {
                    let k = choose|k: int|
                        0 <= k < i + 1 && (lines@[k].y1 == y || lines@[k].y2 == y);
                    if k < i {
                        assert(before.contains(y));
                        let j = choose|j: int| 0 <= j < before.len() && before[j] == y;
                        assert(all@[j] == y);
                    } else {
                        assert(lines@[k] == l);
                        if l.y1 == y {
                            assert(all@[before.len() as int] == y);
                        } else {
                            assert(all@[before.len() + 1int] == y);
                        }
                    }
                }
            }
        }
        i = i + 1;
    }
    let sorted = sort_u32(all);
    proof {
        assert forall|y: u32| sorted@.contains(y) <==> all@.contains(y) by {
            assert(sorted@.contains(y) <==> sorted@.to_multiset().count(y) > 0);
            assert(all@.contains(y) <==> all@.to_multiset().count(y) > 0);
        }
    }
    let ys = dedup_sorted(sorted);
    proof {
        assert forall|y: u32| #[trigger] ys@.contains(y) <==> is_endpoint(lines@, y) by {
            if ys@.contains(y) {
                assert(all@.contains(y));
                let k = choose|k: int|
                    0 <= k < n && (lines@[k].y1 == y || lines@[k].y2 == y);
                assert(lines@.contains(lines@[k]));
            }
            if is_endpoint(lines@, y) {
                let l = choose|l: Line| #[trigger] lines@.contains(l) && (l.y1 == y || l.y2 == y);
                let k = choose|k: int| 0 <= k < lines@.len() && lines@[k] == l;
                assert(exists|k: int| 0 <= k < n && (lines@[k].y1 == y || lines@[k].y2 == y));
                assert(all@.contains(y));
            }
        }
    }
    ys
}

/// Given a collection of vertical lines, return the leftmost line spans, in
/// ascending order of height. `None` where the lines leave a height that
/// starts nothing uncovered (a line of no height, say).
pub fn try_simplify_vert(lines: Vec<Line>) -> (r: Option<Vec<Line>>)
    ensures
        match r {
            Some(v) => leftmost_spans(lines@) == Some(v@),
            None => leftmost_spans(lines@) is None,
        },
{
    let ghost orig = lines@;
    let sorted = sort_lines_by_x1(lines);
    proof {
        assert forall|l: Line| sorted@.contains(l) <==> orig.contains(l) by {
            assert(sorted@.contains(l) <==> sorted@.to_multiset().count(l) > 0);
            assert(orig.contains(l) <==> orig.to_multiset().count(l) > 0);
        }
    }
    let ys = endpoints(&sorted);
    proof {
        assert forall|y: u32| #[trigger] ys@.contains(y) <==> is_endpoint(orig, y) by {
            if is_endpoint(orig, y) {
                let l = choose|l: Line| #[trigger] orig.contains(l) && (l.y1 == y || l.y2 == y);
                assert(sorted@.contains(l));
            }
            if is_endpoint(sorted@, y) {
                let l = choose|l: Line| #[trigger] sorted@.contains(l) && (l.y1 == y || l.y2 == y);
                assert(orig.contains(l));
            }
        }
        assert(lists_endpoints(orig, ys@));
        lemma_ascending_unique(ys@, endpoints_of(orig));
    }
    let mut lefts: Vec<Line> = Vec::new();
    let mut open = false;
    let m = ys.len();
    let mut k: usize = 0;
    assert(ys@.take(0) =~= Seq::<u32>::empty());
    while k < m
        invariant
            m == ys@.len(),
            ys@ == endpoints_of(orig),
            forall|l: Line| sorted@.contains(l) <==> orig.contains(l),
            orig == lines@,
            0 <= k <= m,
            spans_over(orig, ys@.take(k as int)) == Some((lefts@, open)),
            open ==> lefts@.len() > 0,
        decreases m - k,
    {
        let y = ys[k];
        let x = leftmost(&sorted, y);
        proof {
            lemma_leftmost_same(sorted@, orig, y);
            assert(ys@.take(k + 1).drop_last() =~= ys@.take(k as int));
            assert(ys@.take(k + 1).last() == y);
        }
        let ghost st = (lefts@, open);
        match x {
            None => {
                if open {
                    let last = lefts[lefts.len() - 1];
                    let len = lefts.len();
                    lefts.set(len - 1, Line { x1: last.x1, y1: last.y1, y2: y });
                    open = false;
                } else {
                    proof {
                        lemma_spans_over_prefix(orig, ys@, k + 1);
                    }
                    return None;
                }
            },
            Some(x) => {
                if !open {
                    lefts.push(Line { x1: x, y1: y, y2: 0 });
                    open = true;
                } else {
                    let last = lefts[lefts.len() - 1];
                    if x != last.x1 {
                        let len = lefts.len();
                        lefts.set(len - 1, Line { x1: last.x1, y1: last.y1, y2: y });
                        lefts.push(Line { x1: x, y1: y, y2: 0 });
                    }
                }
            },
        }
        assert(span_step(st, orig, y) == Some((lefts@, open)));
        k = k + 1;
    }
    assert(ys@.take(m as int) =~= ys@);
    if open {
        return None;
    }
    let ghost spans = lefts@;
    let mut tall: Vec<Line> = Vec::new();
    let mut i: usize = 0;
    let n = lefts.len();
    assert(spans.take(0) =~= Seq::<Line>::empty());
    while i < n
        invariant
            n == spans.len(),
            spans == lefts@,
            orig == lines@,
            spans_over(orig, endpoints_of(orig)) == Some((spans, false)),
            0 <= i <= n,
            tall_spans(spans.take(i as int)) == tall@,
        decreases n - i,
    {
        let l = lefts[i];
        assert(spans.take(i + 1).drop_last() =~= spans.take(i as int));
        assert(spans.take(i + 1).last() == l);
        if abs_diff(l.y2, l.y1) > 1 {
            tall.push(l);
        }
        i = i + 1;
    }
    assert(spans.take(n as int) =~= spans);
    Some(tall)
}

/// Given a collection of vertical lines, return a set of just the leftmost
/// line spans: each stretch of height reports the leftmost line covering it.
/// The lines must leave no endpoint uncovered while no span is open (see
/// [`try_simplify_vert`] for a version that reports that case).
pub fn simplify_vert(lines: Vec<Line>) -> (r: Vec<Line>)
    requires
        leftmost_spans(lines@) is Some,
    ensures
        leftmost_spans(lines@) == Some(r@),
{
    match try_simplify_vert(lines) {
        Some(v) => v,
        None => Vec::new(),
    }
}

} // verus!
