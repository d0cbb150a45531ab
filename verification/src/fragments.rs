//! Joining the glyph fragments of each line into runs of text.

use vstd::prelude::*;

use crate::render::{frags_view, lines_descending, lines_view, Font, Fragment, FragmentView, TextLine, TextLineView};
use crate::text::is_star;

verus! {

/// Two fragments closer than this (in tenths of a point) belong to one span.
pub const MAX_GLYPH_DELTA: u32 = 30;

/// The distance between two coordinates.
pub open spec fn dist(a: u32, b: u32) -> int {
    if a >= b {
        a - b
    } else {
        b - a
    }
}

/// The distance between two coordinates.
pub fn abs_diff(a: u32, b: u32) -> (d: u32)
    ensures
        d == dist(a, b),
{
    if a >= b {
        a - b
    } else {
        b - a
    }
}

/// `s` with `f` placed after every fragment that starts no further right
/// than `f`, and before the others.
pub open spec fn insert_by_x(s: Seq<FragmentView>, f: FragmentView) -> Seq<FragmentView>
    decreases s.len(),
{
    if s.len() == 0 {
        seq![f]
    } else if s.last().x <= f.x {
        s.push(f)
    } else {
        insert_by_x(s.drop_last(), f).push(s.last())
    }
}

/// The fragments in order of `x`, fragments with equal `x` keeping their
/// order (a stable sort).
pub open spec fn sort_by_x(s: Seq<FragmentView>) -> Seq<FragmentView>
    decreases s.len(),
{
    if s.len() == 0 {
        s
    } else {
        insert_by_x(sort_by_x(s.drop_last()), s.last())
    }
}

/// A fragment, the text of which is `text`.
pub open spec fn with_text(f: FragmentView, text: Seq<char>) -> FragmentView {
    FragmentView { x: f.x, x2: f.x2, font: f.font, text }
}

/// One step of joining: the spans so far, the open span and the right edge
/// of the last fragment, after the fragment `cur`. `None` where `cur` has
/// a known font other than the open span's.
pub open spec fn join_step(st: (Seq<FragmentView>, FragmentView, u32), cur: FragmentView) -> Option<
    (Seq<FragmentView>, FragmentView, u32),
> {
    if cur.font != st.1.font && cur.font != Font::Unknown {
        None
    } else if dist(cur.x, st.2) < MAX_GLYPH_DELTA {
        Some((st.0, with_text(st.1, st.1.text + cur.text), cur.x2))
    } else {
        Some((st.0.push(st.1), cur, cur.x2))
    }
}

/// Joining a non-empty run of fragments from the left.
pub open spec fn join_run(s: Seq<FragmentView>) -> Option<(Seq<FragmentView>, FragmentView, u32)>
    decreases s.len(),
{
    if s.len() <= 1 {
        Some((Seq::empty(), s[0], s[0].x2))
    } else {
        match join_run(s.drop_last()) {
            Some(st) => join_step(st, s.last()),
            None => None,
        }
    }
}

/// The spans of a line: its fragments in order of `x`, each joined to the
/// one before it when it starts within [`MAX_GLYPH_DELTA`] of where the one
/// before ended. `None` for a line without fragments or with two fonts in
/// one span.
pub open spec fn joined_frags(frags: Seq<FragmentView>) -> Option<Seq<FragmentView>> {
    if frags.len() == 0 {
        None
    } else {
        match join_run(sort_by_x(frags)) {
            Some(st) => Some(st.0.push(st.1)),
            None => None,
        }
    }
}

/// Every line with its fragments joined.
pub open spec fn joined_lines(lines: Seq<TextLineView>) -> Option<Seq<TextLineView>>
    decreases lines.len(),
{
    if lines.len() == 0 {
        Some(Seq::empty())
    } else {
        match (joined_lines(lines.drop_last()), joined_frags(lines.last().frags)) {
            (Some(ls), Some(fs)) => Some(ls.push(TextLineView { y: lines.last().y, frags: fs })),
            _ => None,
        }
    }
}

/// A line that holds nothing but footnote stars.
pub open spec fn is_footnote_marker(l: TextLineView) -> bool {
    forall|k: int|
        0 <= k < l.frags.len() ==> #[trigger] l.frags[k].font == Font::Unknown && l.frags[k].text
            == seq!['*']
}

/// The lines that are not footnote markers, in order.
pub open spec fn without_markers(lines: Seq<TextLineView>) -> Seq<TextLineView>
    decreases lines.len(),
{
    if lines.len() == 0 {
        lines
    } else if is_footnote_marker(lines.last()) {
        without_markers(lines.drop_last())
    } else {
        without_markers(lines.drop_last()).push(lines.last())
    }
}

/// What joining the fragments of a page gives: every line's fragments
/// joined, then the footnote-marker lines dropped; `None` where a line
/// cannot be joined.
pub open spec fn joined_fragments(lines: Seq<TextLineView>) -> Option<Seq<TextLineView>> {
    match joined_lines(lines) {
        Some(ls) => Some(without_markers(ls)),
        None => None,
    }
}

proof fn lemma_insert_by_x_len(s: Seq<FragmentView>, f: FragmentView)
    ensures
        insert_by_x(s, f).len() == s.len() + 1,
    decreases s.len(),
{
    if s.len() > 0 && s.last().x > f.x {
        lemma_insert_by_x_len(s.drop_last(), f);
    }
}

proof fn lemma_sort_by_x_len(s: Seq<FragmentView>)
    ensures
        sort_by_x(s).len() == s.len(),
    decreases s.len(),
{
    if s.len() > 0 {
        lemma_sort_by_x_len(s.drop_last());
        lemma_insert_by_x_len(sort_by_x(s.drop_last()), s.last());
    }
}

/// Fragments in ascending order of `x`.
pub open spec fn sorted_by_x(s: Seq<FragmentView>) -> bool {
    forall|i: int, j: int| 0 <= i <= j < s.len() ==> s[i].x <= s[j].x
}

proof fn lemma_insert_by_x_bound(s: Seq<FragmentView>, f: FragmentView, b: u32)
    requires
        forall|i: int| 0 <= i < s.len() ==> s[i].x <= b,
        f.x <= b,
    ensures
        forall|i: int| 0 <= i < insert_by_x(s, f).len() ==> insert_by_x(s, f)[i].x <= b,
    decreases s.len(),
{
    if s.len() > 0 && s.last().x > f.x {
        lemma_insert_by_x_bound(s.drop_last(), f, b);
    }
}

proof fn lemma_insert_by_x_sorted(s: Seq<FragmentView>, f: FragmentView)
    requires
        sorted_by_x(s),
    ensures
        sorted_by_x(insert_by_x(s, f)),
        insert_by_x(s, f).to_multiset() =~= s.to_multiset().insert(f),
    decreases s.len(),
{
    broadcast use {vstd::seq_lib::group_to_multiset_ensures, vstd::multiset::group_multiset_axioms};

    if s.len() == 0 {
        assert(seq![f] =~= s.push(f));
    } else if s.last().x <= f.x {
    } else {
        let l = s.last();
        let d = s.drop_last();
        lemma_insert_by_x_sorted(d, f);
        lemma_insert_by_x_bound(d, f, l.x);
        assert(s =~= d.push(l));
    }
}

/// [`sort_by_x`] sorts: its result is in ascending order of `x`, and holds
/// the same fragments as many times each.
pub proof fn lemma_sort_by_x_sorts(s: Seq<FragmentView>)
    ensures
        sorted_by_x(sort_by_x(s)),
        sort_by_x(s).to_multiset() == s.to_multiset(),
    decreases s.len(),
{
    broadcast use {vstd::seq_lib::group_to_multiset_ensures, vstd::multiset::group_multiset_axioms};

    if s.len() > 0 {
        lemma_sort_by_x_sorts(s.drop_last());
        lemma_insert_by_x_sorted(sort_by_x(s.drop_last()), s.last());
        assert(s =~= s.drop_last().push(s.last()));
    }
}

/// The texts of the fragments, one after another.
pub open spec fn concat_texts(s: Seq<FragmentView>) -> Seq<char>
    decreases s.len(),
{
    if s.len() == 0 {
        Seq::empty()
    } else {
        concat_texts(s.drop_last()) + s.last().text
    }
}

proof fn lemma_join_run(s: Seq<FragmentView>)
    requires
        s.len() >= 1,
        sorted_by_x(s),
    ensures
        join_run(s) matches Some(st) ==> {
            &&& concat_texts(st.0) + st.1.text == concat_texts(s)
            &&& sorted_by_x(st.0.push(st.1))
            &&& st.1.x <= s.last().x
            &&& st.0.len() + 1 <= s.len()
        },
    decreases s.len(),
{
    if s.len() == 1 {
        assert(concat_texts(Seq::<FragmentView>::empty()) =~= Seq::<char>::empty());
        assert(s.drop_last() =~= Seq::<FragmentView>::empty());
        assert(concat_texts(s) =~= s[0].text);
        assert(Seq::<FragmentView>::empty().push(s[0]) =~= seq![s[0]]);
    } else {
        let d = s.drop_last();
        assert(sorted_by_x(d));
        lemma_join_run(d);
        if let Some(st) = join_run(d) {
            let cur = s.last();
            assert(d.last().x <= cur.x);
            if let Some(nst) = join_step(st, cur) {
                if dist(cur.x, st.2) < MAX_GLYPH_DELTA {
                    assert(concat_texts(nst.0) + nst.1.text =~= concat_texts(st.0) + st.1.text
                        + cur.text);
                    assert(nst.0.push(nst.1) =~= st.0.push(st.1).update(
                        st.0.len() as int,
                        nst.1,
                    ));
                    assert(sorted_by_x(nst.0.push(nst.1))) by {
                        let a = nst.0.push(nst.1);
                        let b = st.0.push(st.1);
                        assert forall|i: int, j: int| 0 <= i <= j < a.len() implies a[i].x
                            <= a[j].x by {
                            assert(a[i].x == b[i].x);
                            assert(a[j].x == b[j].x);
                        }
                    }
                } else {
                    assert(nst.0 == st.0.push(st.1));
                    assert(st.0.push(st.1).drop_last() =~= st.0);
                    assert(concat_texts(nst.0) =~= concat_texts(st.0) + st.1.text);
                    assert(sorted_by_x(nst.0.push(nst.1))) by {
                        let a = nst.0.push(nst.1);
                        let b = st.0.push(st.1);
                        assert forall|i: int, j: int| 0 <= i <= j < a.len() implies a[i].x
                            <= a[j].x by {
                            if j == a.len() - 1 && i < j {
                                assert(a[i] == b[i]);
                                assert(b[i].x <= b[b.len() - 1].x);
                            } else if j < a.len() - 1 {
                                assert(a[i] == b[i]);
                                assert(a[j] == b[j]);
                            }
                        }
                    }
                }
            }
        }
    }
}

/// Joining keeps the text of a line: the spans, one after another, spell
/// the fragments in order of `x`; the spans are in order of `x`; and there
/// are no more spans than fragments.
pub proof fn lemma_joined_frags(frags: Seq<FragmentView>)
    ensures
        joined_frags(frags) matches Some(spans) ==> {
            &&& concat_texts(spans) == concat_texts(sort_by_x(frags))
            &&& sorted_by_x(spans)
            &&& 1 <= spans.len() <= frags.len()
        },
{
    if frags.len() > 0 {
        lemma_sort_by_x_sorts(frags);
        lemma_sort_by_x_len(frags);
        lemma_join_run(sort_by_x(frags));
        if let Some(st) = join_run(sort_by_x(frags)) {
            assert(st.0.push(st.1).drop_last() =~= st.0);
        }
    }
}

/// No line that joining leaves holds only footnote stars.
pub proof fn lemma_no_markers(lines: Seq<TextLineView>)
    ensures
        forall|k: int|
            0 <= k < without_markers(lines).len() ==> !is_footnote_marker(
                #[trigger] without_markers(lines)[k],
            ),
        without_markers(lines).len() <= lines.len(),
    decreases lines.len(),
{
    if lines.len() > 0 {
        lemma_no_markers(lines.drop_last());
        let w = without_markers(lines.drop_last());
        if !is_footnote_marker(lines.last()) {
            assert forall|k: int| 0 <= k < w.push(lines.last()).len() implies !is_footnote_marker(
                #[trigger] w.push(lines.last())[k],
            ) by {
                if k < w.len() {
                    assert(w.push(lines.last())[k] == w[k]);
                }
            }
        }
    }
}

/// The fragments that start at `x`, in order.
pub open spec fn starting_at(s: Seq<FragmentView>, x: u32) -> Seq<FragmentView>
    decreases s.len(),
{
    if s.len() == 0 {
        s
    } else if s.last().x == x {
        starting_at(s.drop_last(), x).push(s.last())
    } else {
        starting_at(s.drop_last(), x)
    }
}

proof fn lemma_insert_by_x_stable(s: Seq<FragmentView>, f: FragmentView, x: u32)
    ensures
        starting_at(insert_by_x(s, f), x) == if f.x == x {
            starting_at(s, x).push(f)
        } else {
            starting_at(s, x)
        },
    decreases s.len(),
{
    if s.len() == 0 {
        assert(seq![f].drop_last() =~= s);
    } else if s.last().x <= f.x {
        assert(s.push(f).drop_last() =~= s);
    } else {
        let d = s.drop_last();
        lemma_insert_by_x_stable(d, f, x);
        assert(insert_by_x(d, f).push(s.last()).drop_last() =~= insert_by_x(d, f));
    }
}

/// [`sort_by_x`] is stable: the fragments that start at any one `x` come
/// out in the order they went in.
pub proof fn lemma_sort_by_x_stable(s: Seq<FragmentView>, x: u32)
    ensures
        starting_at(sort_by_x(s), x) == starting_at(s, x),
    decreases s.len(),
{
    if s.len() > 0 {
        lemma_sort_by_x_stable(s.drop_last(), x);
        lemma_insert_by_x_stable(sort_by_x(s.drop_last()), s.last(), x);
    }
}

proof fn lemma_joined_lines_keep_baselines(lines: Seq<TextLineView>)
    ensures
        joined_lines(lines) matches Some(out) ==> out.len() == lines.len() && forall|k: int|
            0 <= k < out.len() ==> #[trigger] out[k].y == lines[k].y,
    decreases lines.len(),
{
    if lines.len() > 0 {
        lemma_joined_lines_keep_baselines(lines.drop_last());
    }
}

proof fn lemma_without_markers_descending(lines: Seq<TextLineView>)
    requires
        lines_descending(lines),
    ensures
        lines_descending(without_markers(lines)),
        forall|k: int|
            0 <= k < without_markers(lines).len() ==> exists|m: int|
                0 <= m < lines.len() && #[trigger] without_markers(lines)[k] == lines[m],
    decreases lines.len(),
{
    if lines.len() > 0 {
        let d = lines.drop_last();
        lemma_without_markers_descending(d);
        let w = without_markers(d);
        let out = without_markers(lines);
        assert forall|k: int| 0 <= k < out.len() implies exists|m: int|
            0 <= m < lines.len() && #[trigger] out[k] == lines[m] by {
            if k < w.len() {
                assert(out[k] == w[k]);
                let m = choose|m: int| 0 <= m < d.len() && #[trigger] w[k] == d[m];
                assert(lines[m] == d[m]);
            } else {
                assert(out[k] == lines[lines.len() - 1]);
            }
        }
        if !is_footnote_marker(lines.last()) {
            assert forall|i: int, j: int| 0 <= i < j < out.len() implies out[i].y > out[j].y by {
                assert(out[i] == w[i]);
                if j < w.len() {
                    assert(out[j] == w[j]);
                } else {
                    let m = choose|m: int| 0 <= m < d.len() && #[trigger] w[i] == d[m];
                    assert(lines[m] == d[m]);
                }
            }
        }
    }
}

/// Joining keeps the lines of a page in order: lines from the top of the
/// page down stay so.
pub proof fn lemma_joined_fragments_descending(lines: Seq<TextLineView>)
    requires
        lines_descending(lines),
    ensures
        joined_fragments(lines) matches Some(out) ==> lines_descending(out),
{
    lemma_joined_lines_keep_baselines(lines);
    if let Some(ls) = joined_lines(lines) {
        assert forall|i: int, j: int| 0 <= i < j < ls.len() implies ls[i].y > ls[j].y by {
            assert(ls[i].y == lines[i].y);
            assert(ls[j].y == lines[j].y);
        }
        lemma_without_markers_descending(ls);
    }
}

/// A fragment with no content, used as a placeholder while moving fragments.
fn empty_fragment() -> (f: Fragment)
    ensures
        f@ == (FragmentView { x: 0, x2: 0, font: Font::Unknown, text: Seq::<char>::empty() }),
{
    Fragment { x: 0, x2: 0, font: Font::Unknown, text: String::new() }
}

/// Places `f` into the sorted fragments `sorted`, after those that start no
/// further right.
fn insert_fragment(sorted: &mut Vec<Fragment>, f: Fragment)
    ensures
        frags_view(final(sorted)@) == insert_by_x(frags_view(old(sorted)@), f@),
{
    let ghost s = frags_view(sorted@);
    let mut j = sorted.len();
    assert(s.take(j as int) =~= s);
    assert(insert_by_x(s, f@) + s.skip(j as int) =~= insert_by_x(s, f@));
    while j > 0 && sorted[j - 1].x > f.x
        invariant
            s == frags_view(sorted@),
            0 <= j <= s.len(),
            insert_by_x(s, f@) == insert_by_x(s.take(j as int), f@) + s.skip(j as int),
        decreases j,
    {
        let ghost t = s.take(j as int);
        assert(t.drop_last() =~= s.take(j - 1));
        assert(t.last() == s[j - 1]);
        assert(s.skip(j - 1) =~= seq![s[j - 1]] + s.skip(j as int));
        assert(insert_by_x(t, f@) == insert_by_x(s.take(j - 1), f@).push(s[j - 1]));
        assert(insert_by_x(s.take(j - 1), f@).push(s[j - 1]) + s.skip(j as int) =~= insert_by_x(
            s.take(j - 1),
            f@,
        ) + s.skip(j - 1));
        j = j - 1;
    }
    proof {
        let t = s.take(j as int);
        if j > 0 {
            assert(t.last() == s[j - 1]);
        }
        assert(insert_by_x(t, f@) =~= t.push(f@));
    }
    let ghost fv = f@;
    sorted.insert(j, f);
    assert(frags_view(sorted@) =~= s.take(j as int).push(fv) + s.skip(j as int));
}

/// Sorts fragments by `x`, keeping the order of those with equal `x`.
fn sort_fragments(frags: Vec<Fragment>) -> (r: Vec<Fragment>)
    ensures
        frags_view(r@) == sort_by_x(frags_view(frags@)),
{
    let ghost orig = frags_view(frags@);
    let mut frags = frags;
    let mut sorted: Vec<Fragment> = Vec::new();
    let n = frags.len();
    let mut i: usize = 0;
    while i < n
        invariant
            n == orig.len(),
            frags@.len() == n,
            0 <= i <= n,
            forall|j: int| i <= j < n ==> frags@[j]@ == orig[j],
            frags_view(sorted@) == sort_by_x(orig.take(i as int)),
        decreases n - i,
    {
        let mut f = empty_fragment();
        frags.set_and_swap(i, &mut f);
        assert(orig.take(i + 1).drop_last() =~= orig.take(i as int));
        assert(orig.take(i + 1).last() == orig[i as int]);
        insert_fragment(&mut sorted, f);
        i = i + 1;
    }
    assert(orig.take(n as int) =~= orig);
    sorted
}

/// A run that cannot be joined stays so when fragments are added after it.
proof fn lemma_join_run_prefix(s: Seq<FragmentView>, k: int)
    requires
        1 <= k <= s.len(),
        join_run(s.take(k)) is None,
    ensures
        join_run(s) is None,
    decreases s.len(),
{
    if k == s.len() {
        assert(s.take(k) =~= s);
    } else {
        assert(s.drop_last().take(k) =~= s.take(k));
        lemma_join_run_prefix(s.drop_last(), k);
    }
}

/// Joins the fragments of one line into spans.
fn join_line_frags(frags: Vec<Fragment>) -> (r: Option<Vec<Fragment>>)
    ensures
        match r {
            Some(v) => joined_frags(frags_view(frags@)) == Some(frags_view(v@)),
            None => joined_frags(frags_view(frags@)) is None,
        },
{
    let ghost orig = frags_view(frags@);
    let mut sorted = sort_fragments(frags);
    let ghost s = frags_view(sorted@);
    proof {
        lemma_sort_by_x_len(orig);
    }
    let n = sorted.len();
    if n == 0 {
        return None;
    }
    let mut joined: Vec<Fragment> = Vec::new();
    let mut x = sorted[0].x2;
    let mut prev = empty_fragment();
    sorted.set_and_swap(0, &mut prev);
    assert(s.take(1)[0] == s[0]);
    assert(frags_view(joined@) =~= Seq::<FragmentView>::empty());
    let mut i: usize = 1;
    while i < n
        invariant
            n == s.len(),
            n == orig.len(),
            orig == frags_view(frags@),
            s == sort_by_x(orig),
            sorted@.len() == n,
            1 <= i <= n,
            forall|j: int| i <= j < n ==> #[trigger] sorted@[j]@ == s[j],
            join_run(s.take(i as int)) == Some((frags_view(joined@), prev@, x)),
        decreases n - i,
    {
        let mut cur = empty_fragment();
        sorted.set_and_swap(i, &mut cur);
        assert(s.take(i + 1).drop_last() =~= s.take(i as int));
        assert(s.take(i + 1).last() == s[i as int]);
        assert(cur@ == s[i as int]);
        assert(join_run(s.take(i + 1)) == join_step((frags_view(joined@), prev@, x), cur@));
        if cur.font != prev.font && cur.font != Font::Unknown {
            proof {
                lemma_join_run_prefix(s, i + 1);
                assert(orig.len() > 0);
                assert(joined_frags(orig) is None);
            }
            return None;
        }
        let delta = abs_diff(cur.x, x);
        x = cur.x2;
        if delta < MAX_GLYPH_DELTA {
            prev.text.append(cur.text.as_str());
        } else {
            let ghost pv = prev@;
            let ghost jv = frags_view(joined@);
            joined.push(prev);
            assert(frags_view(joined@) =~= jv.push(pv));
            prev = cur;
        }
        i = i + 1;
    }
    assert(s.take(n as int) =~= s);
    let ghost pv = prev@;
    let ghost jv = frags_view(joined@);
    joined.push(prev);
    assert(frags_view(joined@) =~= jv.push(pv));
    Some(joined)
}

/// Lines that cannot be joined stay so when lines are added after them.
proof fn lemma_joined_lines_prefix(s: Seq<TextLineView>, k: int)
    requires
        0 <= k <= s.len(),
        joined_lines(s.take(k)) is None,
    ensures
        joined_lines(s) is None,
    decreases s.len(),
{
    if k == s.len() {
        assert(s.take(k) =~= s);
    } else {
        assert(s.drop_last().take(k) =~= s.take(k));
        lemma_joined_lines_prefix(s.drop_last(), k);
    }
}

/// Whether a line holds nothing but footnote stars.
fn is_marker_line(line: &TextLine) -> (r: bool)
    ensures
        r == is_footnote_marker(line@),
{
    let n = line.frags.len();
    let mut k: usize = 0;
    while k < n
        invariant
            n == line.frags@.len(),
            0 <= k <= n,
            forall|j: int|
                0 <= j < k ==> #[trigger] line@.frags[j].font == Font::Unknown && line@.frags[j].text
                    == seq!['*'],
        decreases n - k,
    {
        let f = &line.frags[k];
        if !(f.font == Font::Unknown && is_star(&f.text)) {
            assert(line@.frags[k as int] == f@);
            assert(!(line@.frags[k as int].font == Font::Unknown && line@.frags[k as int].text
                == seq!['*']));
            return false;
        }
        k = k + 1;
    }
    true
}

/// For all the fragments that are within the same line, join them into a
/// single fragment if they are close enough together; then drop the lines
/// that hold only footnote stars. Returns `false`, having stopped part way,
/// where a line has no fragments or mixes fonts within one span.
pub fn try_join_fragments(text_lines: &mut Vec<TextLine>) -> (ok: bool)
    ensures
        ok == joined_fragments(lines_view(old(text_lines)@)) is Some,
        ok ==> joined_fragments(lines_view(old(text_lines)@)) == Some(
            lines_view(final(text_lines)@),
        ),
{
    let ghost orig = lines_view(text_lines@);
    let n = text_lines.len();
    let mut i: usize = 0;
    assert(lines_view(text_lines@.take(0)) =~= Seq::<TextLineView>::empty());
    while i < n
        invariant
            text_lines@.len() == n,
            orig.len() == n,
            orig == lines_view(old(text_lines)@),
            0 <= i <= n,
            forall|j: int| i <= j < n ==> #[trigger] text_lines@[j]@ == orig[j],
            joined_lines(orig.take(i as int)) == Some(lines_view(text_lines@.take(i as int))),
        decreases n - i,
    {
        let mut line = TextLine { y: 0, frags: Vec::new() };
        text_lines.set_and_swap(i, &mut line);
        assert(line@ == orig[i as int]);
        assert(orig.take(i + 1).drop_last() =~= orig.take(i as int));
        assert(orig.take(i + 1).last() == orig[i as int]);
        let y = line.y;
        match join_line_frags(line.frags) {
            None => {
                proof {
                    lemma_joined_lines_prefix(orig, i + 1);
                }
                return false;
            },
            Some(fs) => {
                let ghost before = text_lines@;
                let new_line = TextLine { y, frags: fs };
                let ghost nl = new_line@;
                text_lines.set(i, new_line);
                assert(lines_view(text_lines@.take(i + 1)) =~= lines_view(before.take(i as int)).push(
                    nl,
                ));
            },
        }
        i = i + 1;
    }
    assert(orig.take(n as int) =~= orig);
    assert(text_lines@.take(n as int) =~= text_lines@);
    let ghost joined = lines_view(text_lines@);
    let mut kept: Vec<TextLine> = Vec::new();
    i = 0;
    assert(joined.take(0) =~= Seq::<TextLineView>::empty());
    assert(lines_view(kept@) =~= Seq::<TextLineView>::empty());
    while i < n
        invariant
            text_lines@.len() == n,
            joined.len() == n,
            orig == lines_view(old(text_lines)@),
            joined_lines(orig) == Some(joined),
            0 <= i <= n,
            forall|j: int| i <= j < n ==> #[trigger] text_lines@[j]@ == joined[j],
            without_markers(joined.take(i as int)) == lines_view(kept@),
        decreases n - i,
    {
        let mut line = TextLine { y: 0, frags: Vec::new() };
        text_lines.set_and_swap(i, &mut line);
        assert(line@ == joined[i as int]);
        assert(joined.take(i + 1).drop_last() =~= joined.take(i as int));
        assert(joined.take(i + 1).last() == joined[i as int]);
        if !is_marker_line(&line) {
            let ghost kv = lines_view(kept@);
            let ghost lv = line@;
            kept.push(line);
            assert(lines_view(kept@) =~= kv.push(lv));
        }
        i = i + 1;
    }
    assert(joined.take(n as int) =~= joined);
    *text_lines = kept;
    true
}

/// For all the fragments that are within the same line, join them into a
/// single fragment if they are close enough together; then drop the lines
/// that hold only footnote stars. Every line must have fragments and keep to
/// one font within each span (see [`try_join_fragments`] for a version that
/// reports those cases).
pub fn join_fragments(text_lines: &mut Vec<TextLine>)
    requires
        joined_fragments(lines_view(old(text_lines)@)) is Some,
    ensures
        joined_fragments(lines_view(old(text_lines)@)) == Some(lines_view(final(text_lines)@)),
{
    try_join_fragments(text_lines);
}

} // verus!
