//! Merging the lines of a paragraph, a code listing or a table cell.

use vstd::prelude::*;

use crate::fragments::{abs_diff, dist, with_text};
use crate::render::{frags_view, lines_descending, lines_view, Font, Fragment, FragmentView, Line, TextLine, TextLineView};
use crate::text::last_char;
use crate::vertical::covers;

verus! {

/// Text left of this x coordinate is body text; a vertical line right of it
/// marks a figure. Also the x coordinate of column zero of code listings.
pub const LEFT_MARGIN: u32 = 460;

/// The width of one character of a code listing, in tenths of a point.
pub const MONOSPACE_WIDTH: u32 = 50;

/// Fragments whose x coordinates differ by less than this are in one column.
pub const COLUMN_SLACK: u32 = 10;

/// Lines closer than this are merged outside tables.
pub const MAX_LINE_HEIGHT: u32 = 130;

/// Lines closer than this are merged inside tables.
pub const MAX_TABLE_LINE_HEIGHT: u32 = 150;

/// `k` is the first ruling line that spans the height `y`.
pub open spec fn is_first_vert(verts: Seq<Line>, y: u32, k: int) -> bool {
    &&& 0 <= k < verts.len()
    &&& covers(verts[k], y)
    &&& forall|j: int| 0 <= j < k ==> !covers(#[trigger] verts[j], y)
}

/// The first ruling line that spans the height `y`, if any does.
pub open spec fn first_vert(verts: Seq<Line>, y: u32) -> Option<Line> {
    if exists|k: int| is_first_vert(verts, y, k) {
        Some(verts[choose|k: int| is_first_vert(verts, y, k)])
    } else {
        None
    }
}

/// Whether a horizontal rule lies at a height `h` with `lo <= h < hi`.
pub open spec fn has_border(horiz: Set<u32>, lo: u32, hi: u32) -> bool {
    exists|h: u32| #[trigger] horiz.contains(h) && lo <= h && h < hi
}

/// `n` spaces.
pub open spec fn spaces(n: nat) -> Seq<char> {
    Seq::new(n, |i: int| ' ')
}

/// The texts of the fragments with `sep` between each two.
pub open spec fn join_texts(frags: Seq<FragmentView>, sep: Seq<char>) -> Seq<char>
    decreases frags.len(),
{
    if frags.len() == 0 {
        Seq::empty()
    } else if frags.len() == 1 {
        frags[0].text
    } else {
        join_texts(frags.drop_last(), sep) + sep + frags.last().text
    }
}

/// The indentation of a code line starting at `x`: the whole character
/// widths between the margin and `x`.
pub open spec fn code_indent(x: u32) -> nat {
    ((x - LEFT_MARGIN) / (MONOSPACE_WIDTH as int)) as nat
}

/// A code line `cur` appended to the code line `prev` above it: the
/// fragments of `prev` become one, their texts joined by two spaces, and
/// `cur`'s text follows on a new line, indented. `None` where `cur` is not a
/// single fragment, or starts left of the margin.
pub open spec fn merge_code(prev: TextLineView, cur: TextLineView) -> Option<TextLineView> {
    if cur.frags.len() != 1 {
        None
    } else if cur.frags[0].x < LEFT_MARGIN {
        None
    } else {
        let base = if prev.frags.len() != 1 {
            join_texts(prev.frags, seq![' ', ' '])
        } else {
            prev.frags[0].text
        };
        Some(
            TextLineView {
                y: prev.y,
                frags: seq![
                    with_text(
                        prev.frags[0],
                        base + seq!['\n'] + spaces(code_indent(cur.frags[0].x)) + cur.frags[0].text,
                    ),
                ],
            },
        )
    }
}

/// `k` is the first fragment that starts within [`COLUMN_SLACK`] of `x`.
pub open spec fn is_first_near(frags: Seq<FragmentView>, x: u32, k: int) -> bool {
    &&& 0 <= k < frags.len()
    &&& dist(frags[k].x, x) < COLUMN_SLACK
    &&& forall|j: int| 0 <= j < k ==> dist(#[trigger] frags[j].x, x) >= COLUMN_SLACK
}

/// The first fragment that starts within [`COLUMN_SLACK`] of `x`, if any.
pub open spec fn near_index(frags: Seq<FragmentView>, x: u32) -> Option<int> {
    if exists|k: int| is_first_near(frags, x, k) {
        Some(choose|k: int| is_first_near(frags, x, k))
    } else {
        None
    }
}

/// What goes between two texts merged across lines: nothing after a slash,
/// a hyphen or a space, else a space.
pub open spec fn glue(text: Seq<char>) -> Seq<char> {
    let end = text.last();
    if end == '/' || end == '-' || end == ' ' {
        Seq::empty()
    } else {
        seq![' ']
    }
}

/// One step of merging the fragments of a line into the line above: the
/// fragments above, those of the line, and whether any merged so far, after
/// the fragment `k` of the line. It goes into the first fragment above in
/// its column, if that has its font. `None` where that fragment is empty.
pub open spec fn merge_frag_step(st: (Seq<FragmentView>, Seq<FragmentView>, bool), k: int) -> Option<
    (Seq<FragmentView>, Seq<FragmentView>, bool),
> {
    let c = st.1[k];
    match near_index(st.0, c.x) {
        None => Some(st),
        Some(m) => if c.font != st.0[m].font {
            Some(st)
        } else if st.0[m].text.len() == 0 {
            None
        } else {
            Some(
                (
                    st.0.update(m, with_text(st.0[m], st.0[m].text + glue(st.0[m].text) + c.text)),
                    st.1.update(k, with_text(c, Seq::empty())),
                    true,
                ),
            )
        },
    }
}

/// Merging the first `k` fragments of a line into the line above.
pub open spec fn merge_frags_upto(
    above: Seq<FragmentView>,
    below: Seq<FragmentView>,
    k: int,
) -> Option<(Seq<FragmentView>, Seq<FragmentView>, bool)>
    decreases k,
{
    if k <= 0 {
        Some((above, below, false))
    } else {
        match merge_frags_upto(above, below, k - 1) {
            Some(st) => merge_frag_step(st, k - 1),
            None => None,
        }
    }
}

/// Whether every fragment is empty.
pub open spec fn all_empty(frags: Seq<FragmentView>) -> bool {
    forall|k: int| 0 <= k < frags.len() ==> (#[trigger] frags[k]).text.len() == 0
}

/// The most two lines may be apart and still be merged.
pub open spec fn max_height(in_table: bool) -> u32 {
    if in_table {
        MAX_TABLE_LINE_HEIGHT
    } else {
        MAX_LINE_HEIGHT
    }
}

/// The lines after trying to merge line `i` into the lines `j`, `j - 1`,
/// ... above it: the search stops at a horizontal rule, at a line too far
/// above, or at the first line that takes it. Two code lines (outside a
/// table) merge as [`merge_code`] says; otherwise fragments merge column by
/// column, and the line goes if any did. `None` where a step faults, or
/// where a merged line leaves text behind.
pub open spec fn try_merge_up(
    lines: Seq<TextLineView>,
    i: int,
    j: int,
    in_table: bool,
    horiz: Set<u32>,
) -> Option<Seq<TextLineView>>
    decreases j + 1,
{
    if j < 0 {
        Some(lines)
    } else {
        let cur = lines[i];
        let prev = lines[j];
        if has_border(horiz, cur.y, prev.y) {
            Some(lines)
        } else if dist(prev.y, cur.y) >= max_height(in_table) {
            Some(lines)
        } else if !in_table && cur.frags.len() == 0 {
            None
        } else if !in_table && cur.frags[0].font == Font::Code && prev.frags.len() == 0 {
            None
        } else if !in_table && cur.frags[0].font == Font::Code && prev.frags[0].font == Font::Code {
            match merge_code(prev, cur) {
                Some(p) => Some(lines.update(j, p).remove(i)),
                None => None,
            }
        } else {
            match merge_frags_upto(prev.frags, cur.frags, cur.frags.len() as int) {
                None => None,
                Some(st) => if st.2 {
                    if all_empty(st.1) {
                        Some(lines.update(j, TextLineView { y: prev.y, frags: st.0 }).remove(i))
                    } else {
                        None
                    }
                } else {
                    try_merge_up(lines, i, j - 1, in_table, horiz)
                },
            }
        }
    }
}

/// The lines after processing line `i`: dropped where the first ruling line
/// at its height is right of the margin (a figure), else merged upwards,
/// inside a table where some ruling line is at its height.
pub open spec fn process_line(
    lines: Seq<TextLineView>,
    i: int,
    horiz: Set<u32>,
    verts: Seq<Line>,
) -> Option<Seq<TextLineView>> {
    let v = first_vert(verts, lines[i].y);
    if v is Some && v.unwrap().x1 > LEFT_MARGIN {
        Some(lines.remove(i))
    } else if i == 0 {
        Some(lines)
    } else {
        try_merge_up(lines, i, i - 1, v is Some, horiz)
    }
}

/// The lines after processing lines `i`, `i - 1`, ..., `0`, bottom up.
pub open spec fn merge_lines_from(
    lines: Seq<TextLineView>,
    i: int,
    horiz: Set<u32>,
    verts: Seq<Line>,
) -> Option<Seq<TextLineView>>
    decreases i + 1,
{
    if i < 0 {
        Some(lines)
    } else {
        match process_line(lines, i, horiz, verts) {
            Some(next) => merge_lines_from(next, i - 1, horiz, verts),
            None => None,
        }
    }
}

/// All the lines of a page with the lines of each paragraph merged, working
/// from the bottom of the page up. `None` for a page without lines.
pub open spec fn merged_lines(lines: Seq<TextLineView>, horiz: Set<u32>, verts: Seq<Line>) -> Option<
    Seq<TextLineView>,
> {
    if lines.len() == 0 {
        None
    } else {
        merge_lines_from(lines, lines.len() - 1, horiz, verts)
    }
}

/// The first ruling line that spans the height `y`.
fn find_vert(verts: &Vec<Line>, y: u32) -> (r: Option<Line>)
    ensures
        r == first_vert(verts@, y),
{
    let n = verts.len();
    let mut k: usize = 0;
    while k < n
        invariant
            n == verts@.len(),
            0 <= k <= n,
            forall|j: int| 0 <= j < k ==> !covers(#[trigger] verts@[j], y),
        decreases n - k,
    {
        let l = verts[k];
        if l.y1 <= y && y < l.y2 {
            proof {
                assert(is_first_vert(verts@, y, k as int));
                let c = choose|c: int| is_first_vert(verts@, y, c);
                if c < k {
                    assert(!covers(verts@[c], y));
                }
                if k < c {
                    assert(!covers(verts@[k as int], y));
                }
            }
            return Some(l);
        }
        k = k + 1;
    }
    None
}

/// Whether a horizontal rule lies at a height `h` with `lo <= h < hi`.
fn find_border(horiz: &Vec<u32>, lo: u32, hi: u32) -> (r: bool)
    ensures
        r == has_border(horiz@.to_set(), lo, hi),
{
    let n = horiz.len();
    let mut k: usize = 0;
    while k < n
        invariant
            n == horiz@.len(),
            0 <= k <= n,
            forall|j: int| 0 <= j < k ==> !(lo <= #[trigger] horiz@[j] && horiz@[j] < hi),
        decreases n - k,
    {
        let h = horiz[k];
        if lo <= h && h < hi {
            assert(horiz@.to_set().contains(h));
            return true;
        }
        k = k + 1;
    }
    proof {
        if has_border(horiz@.to_set(), lo, hi) {
            let h = choose|h: u32| #[trigger] horiz@.to_set().contains(h) && lo <= h && h < hi;
            assert(horiz@.contains(h));
            let j = choose|j: int| 0 <= j < n && horiz@[j] == h;
            assert(!(lo <= horiz@[j] && horiz@[j] < hi));
        }
    }
    false
}

/// The texts of the fragments with two spaces between each two.
fn join_with_two_spaces(frags: &Vec<Fragment>) -> (s: String)
    ensures
        s@ == join_texts(frags_view(frags@), seq![' ', ' ']),
{
    let ghost fv = frags_view(frags@);
    let n = frags.len();
    let mut s = String::new();
    if n == 0 {
        return s;
    }
    s.append(frags[0].text.as_str());
    let mut k: usize = 1;
    assert(fv.take(1) =~= seq![fv[0]]);
    while k < n
        invariant
            fv == frags_view(frags@),
            n == fv.len(),
            1 <= k <= n,
            s@ == join_texts(fv.take(k as int), seq![' ', ' ']),
        decreases n - k,
    {
        proof {
            reveal_strlit("  ");
        }
        s.append("  ");
        s.append(frags[k].text.as_str());
        assert(fv.take(k + 1).drop_last() =~= fv.take(k as int));
        assert(fv.take(k + 1).last() == fv[k as int]);
        k = k + 1;
    }
    assert(fv.take(n as int) =~= fv);
    s
}

/// Appends the code line `cur` to the code line `prev` above it.
fn merge_code_lines(prev: &mut TextLine, cur: &TextLine) -> (ok: bool)
    requires
        old(prev).frags@.len() >= 1,
        cur.frags@.len() >= 1,
    ensures
        ok == merge_code(old(prev)@, cur@) is Some,
        ok ==> merge_code(old(prev)@, cur@) == Some(final(prev)@),
{
    if cur.frags.len() != 1 {
        return false;
    }
    let cx = cur.frags[0].x;
    if cx < LEFT_MARGIN {
        return false;
    }
    let ghost pv = prev@;
    let ghost cv = cur@;
    let joined = if prev.frags.len() != 1 {
        Some(join_with_two_spaces(&prev.frags))
    } else {
        None
    };
    let mut first = Fragment { x: 0, x2: 0, font: Font::Unknown, text: String::new() };
    prev.frags.set_and_swap(0, &mut first);
    let mut text = match joined {
        Some(j) => j,
        None => first.text,
    };
    let ghost base = text@;
    proof {
        reveal_strlit("\n");
        reveal_strlit(" ");
    }
    text.append("\n");
    let indent = (cx - LEFT_MARGIN) / MONOSPACE_WIDTH;
    let mut c: u32 = 0;
    assert(spaces(0) =~= Seq::<char>::empty());
    assert(text@ =~= base + seq!['\n'] + spaces(0));
    while c < indent
        invariant
            0 <= c <= indent,
            text@ == base + seq!['\n'] + spaces(c as nat),
        decreases indent - c,
    {
        proof {
            reveal_strlit(" ");
        }
        text.append(" ");
        assert(spaces((c + 1) as nat) =~= spaces(c as nat).push(' '));
        c = c + 1;
    }
    text.append(cur.frags[0].text.as_str());
    let merged = Fragment { x: first.x, x2: first.x2, font: first.font, text };
    let mut frags = Vec::new();
    frags.push(merged);
    prev.frags = frags;
    assert(prev@.frags =~= merge_code(pv, cv).unwrap().frags);
    true
}

/// A code line merged into the code line above keeps that line's place,
/// font and height, and its text follows on a new line indented by the
/// whole character widths between the margin and its own start, whatever
/// the line above holds; below a line of one fragment, the text above
/// comes first unchanged.
pub proof fn lemma_code_line_indent(prev: TextLineView, cur: TextLineView)
    requires
        cur.frags.len() == 1,
        cur.frags[0].x >= LEFT_MARGIN,
        prev.frags.len() >= 1,
    ensures
        merge_code(prev, cur) matches Some(p) && {
            let t = p.frags[0].text;
            let indent = ((cur.frags[0].x - LEFT_MARGIN) / (MONOSPACE_WIDTH as int)) as nat;
            let tail = seq!['\n'] + Seq::new(indent, |k: int| ' ') + cur.frags[0].text;
            &&& p.y == prev.y
            &&& p.frags.len() == 1
            &&& p.frags[0].x == prev.frags[0].x
            &&& p.frags[0].x2 == prev.frags[0].x2
            &&& p.frags[0].font == prev.frags[0].font
            &&& t.len() >= tail.len()
            &&& t.subrange(t.len() - tail.len(), t.len() as int) == tail
            &&& prev.frags.len() == 1 ==> t == prev.frags[0].text + tail
        },
{
    let p = merge_code(prev, cur).unwrap();
    let base = if prev.frags.len() != 1 {
        join_texts(prev.frags, seq![' ', ' '])
    } else {
        prev.frags[0].text
    };
    let indent = ((cur.frags[0].x - LEFT_MARGIN) / (MONOSPACE_WIDTH as int)) as nat;
    let tail = seq!['\n'] + Seq::new(indent, |k: int| ' ') + cur.frags[0].text;
    assert(spaces(code_indent(cur.frags[0].x)) =~= Seq::new(
        ((cur.frags[0].x - LEFT_MARGIN) / (MONOSPACE_WIDTH as int)) as nat,
        |k: int| ' ',
    ));
    assert(p.frags[0].text =~= base + tail);
    let t = p.frags[0].text;
    assert(t.subrange(t.len() - tail.len(), t.len() as int) =~= tail);
}

/// Outside a table, a code line near enough below a code line, with no
/// horizontal rule between them, is merged into it as
/// [`lemma_code_line_indent`] describes: that line takes the merged text,
/// the code line goes, and every other line stays as it was.
pub proof fn lemma_code_lines_merge(lines: Seq<TextLineView>, i: int, j: int, horiz: Set<u32>)
    requires
        0 <= j < i < lines.len(),
        !has_border(horiz, lines[i].y, lines[j].y),
        dist(lines[j].y, lines[i].y) < MAX_LINE_HEIGHT,
        lines[i].frags.len() == 1,
        lines[j].frags.len() >= 1,
        lines[i].frags[0].font == Font::Code,
        lines[j].frags[0].font == Font::Code,
        lines[i].frags[0].x >= LEFT_MARGIN,
    ensures
        try_merge_up(lines, i, j, false, horiz) matches Some(out) && {
            let t = out[j].frags[0].text;
            let indent = ((lines[i].frags[0].x - LEFT_MARGIN) / (MONOSPACE_WIDTH as int)) as nat;
            let tail = seq!['\n'] + Seq::new(indent, |k: int| ' ') + lines[i].frags[0].text;
            &&& out.len() == lines.len() - 1
            &&& forall|k: int| 0 <= k < i && k != j ==> #[trigger] out[k] == lines[k]
            &&& forall|k: int| i <= k < out.len() ==> #[trigger] out[k] == lines[k + 1]
            &&& out[j].y == lines[j].y
            &&& out[j].frags.len() == 1
            &&& out[j].frags[0].font == Font::Code
            &&& t.len() >= tail.len()
            &&& t.subrange(t.len() - tail.len(), t.len() as int) == tail
        },
{
    lemma_code_line_indent(lines[j], lines[i]);
    let p = merge_code(lines[j], lines[i]).unwrap();
    let out = lines.update(j, p).remove(i);
    assert(try_merge_up(lines, i, j, false, horiz) == Some(out));
    assert(out[j] == p);
}

/// Merging a line's fragments into a line above with which it shares no
/// font leaves both lines as they are.
proof fn lemma_merge_frags_no_font(above: Seq<FragmentView>, below: Seq<FragmentView>, k: int)
    requires
        0 <= k <= below.len(),
        forall|a: int, b: int|
            0 <= a < below.len() && 0 <= b < above.len() ==> (#[trigger] below[a]).font != (
            #[trigger] above[b]).font,
    ensures
        merge_frags_upto(above, below, k) == Some((above, below, false)),
    decreases k,
{
    if k > 0 {
        lemma_merge_frags_no_font(above, below, k - 1);
        let c = below[k - 1];
        if let Some(m) = near_index(above, c.x) {
            let m0 = choose|m: int| is_first_near(above, c.x, m);
            assert(c.font != above[m0].font);
        }
    }
}

/// A line merges only into a line above that has a fragment in one of its
/// fonts: where no fragment of line `i` shares a font with a fragment of
/// line `j`, line `i` does not go into line `j`; the lines stay as they
/// are, or the search goes on above `j` as if `j` were not there.
pub proof fn lemma_merge_needs_shared_font(
    lines: Seq<TextLineView>,
    i: int,
    j: int,
    in_table: bool,
    horiz: Set<u32>,
)
    requires
        0 <= j < i < lines.len(),
        lines[i].frags.len() > 0,
        lines[j].frags.len() > 0,
        forall|a: int, b: int|
            0 <= a < lines[i].frags.len() && 0 <= b < lines[j].frags.len() ==> (
            #[trigger] lines[i].frags[a]).font != (#[trigger] lines[j].frags[b]).font,
    ensures
        try_merge_up(lines, i, j, in_table, horiz) == Some(lines) || try_merge_up(
            lines,
            i,
            j,
            in_table,
            horiz,
        ) == try_merge_up(lines, i, j - 1, in_table, horiz),
{
    let cur = lines[i];
    let prev = lines[j];
    assert(cur.frags[0].font != prev.frags[0].font);
    lemma_merge_frags_no_font(prev.frags, cur.frags, cur.frags.len() as int);
}

/// A line is only ever merged into a line above it that is near enough and
/// not separated from it by a horizontal rule: trying to merge line `i`
/// leaves the lines as they were, or replaces one such line above and drops
/// line `i`.
pub proof fn lemma_merge_respects_rules(
    lines: Seq<TextLineView>,
    i: int,
    j: int,
    in_table: bool,
    horiz: Set<u32>,
)
    requires
        -1 <= j < i < lines.len(),
    ensures
        try_merge_up(lines, i, j, in_table, horiz) matches Some(r) ==> (r == lines || exists|
            k: int,
            p: TextLineView,
        |
            0 <= k <= j && !has_border(horiz, lines[i].y, lines[k].y) && dist(lines[k].y, lines[i].y)
                < max_height(in_table) && p.y == lines[k].y && r == lines.update(k, p).remove(i)),
    decreases j + 1,
{
    if j >= 0 {
        lemma_merge_respects_rules(lines, i, j - 1, in_table, horiz);
        let cur = lines[i];
        let prev = lines[j];
        if let Some(r) = try_merge_up(lines, i, j, in_table, horiz) {
            if !has_border(horiz, cur.y, prev.y) && dist(prev.y, cur.y) < max_height(in_table) {
                if !in_table && cur.frags[0].font == Font::Code && prev.frags[0].font == Font::Code
                    && cur.frags.len() != 0 && prev.frags.len() != 0 {
                    let p = merge_code(prev, cur).unwrap();
                    assert(r == lines.update(j, p).remove(i));
                } else if !(!in_table && cur.frags.len() == 0) && !(!in_table && cur.frags[0].font
                    == Font::Code && prev.frags.len() == 0) {
                    let st = merge_frags_upto(prev.frags, cur.frags, cur.frags.len() as int).unwrap();
                    if st.2 {
                        let p = TextLineView { y: prev.y, frags: st.0 };
                        assert(r == lines.update(j, p).remove(i));
                    }
                }
            }
        }
    }
}

/// Merging paragraphs keeps the lines in order: lines from the top of the
/// page down stay so.
pub proof fn lemma_merged_lines_descending(
    lines: Seq<TextLineView>,
    horiz: Set<u32>,
    verts: Seq<Line>,
)
    requires
        lines_descending(lines),
    ensures
        merged_lines(lines, horiz, verts) matches Some(r) ==> lines_descending(r),
{
    if lines.len() > 0 {
        lemma_merge_lines_from_descending(lines, lines.len() - 1, horiz, verts);
    }
}

proof fn lemma_remove_descending(lines: Seq<TextLineView>, i: int)
    requires
        lines_descending(lines),
        0 <= i < lines.len(),
    ensures
        lines_descending(lines.remove(i)),
{
    let r = lines.remove(i);
    assert forall|a: int, b: int| 0 <= a < b < r.len() implies r[a].y > r[b].y by {
        let ia = if a < i {
            a
        } else {
            a + 1
        };
        let ib = if b < i {
            b
        } else {
            b + 1
        };
        assert(r[a] == lines[ia]);
        assert(r[b] == lines[ib]);
    }
}

proof fn lemma_merge_lines_from_descending(
    lines: Seq<TextLineView>,
    i: int,
    horiz: Set<u32>,
    verts: Seq<Line>,
)
    requires
        lines_descending(lines),
        -1 <= i < lines.len(),
    ensures
        merge_lines_from(lines, i, horiz, verts) matches Some(r) ==> lines_descending(r),
    decreases i + 1,
{
    if i >= 0 {
        if let Some(next) = process_line(lines, i, horiz, verts) {
            let v = first_vert(verts, lines[i].y);
            if v is Some && v.unwrap().x1 > LEFT_MARGIN {
                lemma_remove_descending(lines, i);
            } else if i == 0 {
            } else {
                lemma_merge_respects_rules(lines, i, i - 1, v is Some, horiz);
                if next != lines {
                    let (k, p) = choose|k: int, p: TextLineView|
                        0 <= k <= i - 1 && !has_border(horiz, lines[i].y, lines[k].y) && dist(
                            lines[k].y,
                            lines[i].y,
                        ) < max_height(v is Some) && p.y == lines[k].y && next == lines.update(
                            k,
                            p,
                        ).remove(i);
                    let u = lines.update(k, p);
                    assert forall|a: int, b: int| 0 <= a < b < u.len() implies u[a].y > u[b].y by {
                        assert(u[a].y == lines[a].y);
                        assert(u[b].y == lines[b].y);
                    }
                    lemma_remove_descending(u, i);
                }
            }
            lemma_merge_lines_from_descending(next, i - 1, horiz, verts);
        }
    }
}

/// Merging paragraphs never adds lines.
pub proof fn lemma_merged_lines_len(lines: Seq<TextLineView>, horiz: Set<u32>, verts: Seq<Line>)
    ensures
        merged_lines(lines, horiz, verts) matches Some(r) ==> r.len() <= lines.len(),
{
    if lines.len() > 0 {
        lemma_merge_lines_from_len(lines, lines.len() - 1, horiz, verts);
    }
}

proof fn lemma_merge_lines_from_len(
    lines: Seq<TextLineView>,
    i: int,
    horiz: Set<u32>,
    verts: Seq<Line>,
)
    requires
        -1 <= i < lines.len(),
    ensures
        merge_lines_from(lines, i, horiz, verts) matches Some(r) ==> r.len() <= lines.len(),
    decreases i + 1,
{
    if i >= 0 {
        if let Some(next) = process_line(lines, i, horiz, verts) {
            let v = first_vert(verts, lines[i].y);
            if v is Some && v.unwrap().x1 > LEFT_MARGIN {
            } else if i == 0 {
            } else {
                lemma_merge_respects_rules(lines, i, i - 1, v is Some, horiz);
                if next != lines {
                    let (k, p) = choose|k: int, p: TextLineView|
                        0 <= k <= i - 1 && !has_border(horiz, lines[i].y, lines[k].y) && dist(
                            lines[k].y,
                            lines[i].y,
                        ) < max_height(v is Some) && p.y == lines[k].y && next == lines.update(
                            k,
                            p,
                        ).remove(i);
                    assert(next.len() == lines.len() - 1);
                }
            }
            lemma_merge_lines_from_len(next, i - 1, horiz, verts);
        }
    }
}

/// A merge of fragments that faults stays faulted over more fragments.
proof fn lemma_merge_frags_prefix(
    above: Seq<FragmentView>,
    below: Seq<FragmentView>,
    k: int,
    n: int,
)
    requires
        0 <= k <= n,
        merge_frags_upto(above, below, k) is None,
    ensures
        merge_frags_upto(above, below, n) is None,
    decreases n,
{
    if k < n {
        lemma_merge_frags_prefix(above, below, k, n - 1);
    }
}

/// Where no fragment merged, both lines are as they were.
pub proof fn lemma_unmerged_unchanged(above: Seq<FragmentView>, below: Seq<FragmentView>, k: int)
    requires
        merge_frags_upto(above, below, k) is Some,
        !merge_frags_upto(above, below, k).unwrap().2,
    ensures
        merge_frags_upto(above, below, k).unwrap().0 == above,
        merge_frags_upto(above, below, k).unwrap().1 == below,
    decreases k,
{
    if k > 0 {
        lemma_unmerged_unchanged(above, below, k - 1);
    }
}

/// The first fragment that starts within [`COLUMN_SLACK`] of `x`.
fn find_near(frags: &Vec<Fragment>, x: u32) -> (r: Option<usize>)
    ensures
        match r {
            Some(k) => near_index(frags_view(frags@), x) == Some(k as int) && k < frags@.len(),
            None => near_index(frags_view(frags@), x) is None,
        },
{
    let ghost fv = frags_view(frags@);
    let n = frags.len();
    let mut k: usize = 0;
    while k < n
        invariant
            fv == frags_view(frags@),
            n == fv.len(),
            0 <= k <= n,
            forall|j: int| 0 <= j < k ==> dist(#[trigger] fv[j].x, x) >= COLUMN_SLACK,
        decreases n - k,
    {
        if abs_diff(frags[k].x, x) < COLUMN_SLACK {
            proof {
                assert(fv[k as int].x == frags@[k as int].x);
                assert(is_first_near(fv, x, k as int));
                let c = choose|c: int| is_first_near(fv, x, c);
                if c < k {
                    assert(dist(fv[c].x, x) >= COLUMN_SLACK);
                }
                if k < c {
                    assert(dist(fv[k as int].x, x) >= COLUMN_SLACK);
                }
            }
            return Some(k);
        }
        assert(fv[k as int].x == frags@[k as int].x);
        k = k + 1;
    }
    proof {
        if exists|c: int| is_first_near(fv, x, c) {
            let c = choose|c: int| is_first_near(fv, x, c);
            assert(dist(fv[c].x, x) >= COLUMN_SLACK);
        }
    }
    None
}

/// Merges the fragments of the line `cur` into the line `prev` above it,
/// column by column; the result says whether any merged.
fn merge_frag_lines(prev: &mut TextLine, cur: &mut TextLine) -> (r: Option<bool>)
    ensures
        final(prev).y == old(prev).y,
        final(cur).y == old(cur).y,
        match r {
            None => merge_frags_upto(
                old(prev)@.frags,
                old(cur)@.frags,
                old(cur)@.frags.len() as int,
            ) is None,
            Some(m) => merge_frags_upto(
                old(prev)@.frags,
                old(cur)@.frags,
                old(cur)@.frags.len() as int,
            ) == Some((final(prev)@.frags, final(cur)@.frags, m)),
        },
{
    let ghost above = prev@.frags;
    let ghost below = cur@.frags;
    let n = cur.frags.len();
    let mut merged = false;
    let mut k: usize = 0;
    while k < n
        invariant
            n == below.len(),
            cur.frags@.len() == n,
            prev.y == old(prev).y,
            cur.y == old(cur).y,
            above == old(prev)@.frags,
            below == old(cur)@.frags,
            0 <= k <= n,
            merge_frags_upto(above, below, k as int) == Some(
                (frags_view(prev.frags@), frags_view(cur.frags@), merged),
            ),
            forall|j: int| k <= j < n ==> #[trigger] cur.frags@[j]@ == below[j],
        decreases n - k,
    {
        let ghost st = (frags_view(prev.frags@), frags_view(cur.frags@), merged);
        assert(st.1[k as int] == cur.frags@[k as int]@);
        assert(merge_frags_upto(above, below, k + 1) == merge_frag_step(st, k as int));
        let cx = cur.frags[k].x;
        let cfont = cur.frags[k].font;
        match find_near(&prev.frags, cx) {
            None => {},
            Some(m) => {
                assert(st.0[m as int] == prev.frags@[m as int]@);
                if cfont == prev.frags[m].font {
                    match last_char(&prev.frags[m].text) {
                        None => {
                            proof {
                                lemma_merge_frags_prefix(above, below, k + 1, n as int);
                            }
                            return None;
                        },
                        Some(end) => {
                            let mut pf = Fragment {
                                x: 0,
                                x2: 0,
                                font: Font::Unknown,
                                text: String::new(),
                            };
                            prev.frags.set_and_swap(m, &mut pf);
                            let mut cf = Fragment {
                                x: 0,
                                x2: 0,
                                font: Font::Unknown,
                                text: String::new(),
                            };
                            cur.frags.set_and_swap(k, &mut cf);
                            let ghost pt = pf.text@;
                            if !(end == '/' || end == '-' || end == ' ') {
                                proof {
                                    reveal_strlit(" ");
                                }
                                pf.text.append(" ");
                            }
                            pf.text.append(cf.text.as_str());
                            assert(pf.text@ =~= pt + glue(pt) + cf.text@);
                            let ghost pv = frags_view(prev.frags@);
                            let ghost cvv = frags_view(cur.frags@);
                            let ghost npf = pf@;
                            prev.frags.set(m, pf);
                            let cleared = Fragment {
                                x: cf.x,
                                x2: cf.x2,
                                font: cf.font,
                                text: String::new(),
                            };
                            let ghost ncf = cleared@;
                            cur.frags.set(k, cleared);
                            merged = true;
                            assert(frags_view(prev.frags@) =~= pv.update(m as int, npf));
                            assert(frags_view(cur.frags@) =~= cvv.update(k as int, ncf));
                            assert(frags_view(prev.frags@) =~= st.0.update(
                                m as int,
                                with_text(st.0[m as int], st.0[m as int].text + glue(
                                    st.0[m as int].text,
                                ) + st.1[k as int].text),
                            ));
                            assert(frags_view(cur.frags@) =~= st.1.update(
                                k as int,
                                with_text(st.1[k as int], Seq::empty()),
                            ));
                        },
                    }
                }
            },
        }
        k = k + 1;
    }
    Some(merged)
}

/// Whether every fragment is empty.
fn all_frags_empty(frags: &Vec<Fragment>) -> (r: bool)
    ensures
        r == all_empty(frags_view(frags@)),
{
    let n = frags.len();
    let mut k: usize = 0;
    while k < n
        invariant
            n == frags@.len(),
            0 <= k <= n,
            forall|j: int| 0 <= j < k ==> (#[trigger] frags@[j]).text@.len() == 0,
        decreases n - k,
    {
        if crate::text::char_count(&frags[k].text) != 0 {
            assert(frags_view(frags@)[k as int].text.len() != 0);
            return false;
        }
        k = k + 1;
    }
    assert forall|j: int| 0 <= j < n implies (#[trigger] frags_view(frags@)[j]).text.len() == 0 by {
        assert(frags@[j].text@.len() == 0);
    }
    true
}

/// A line with no fragments, used as a placeholder while moving lines.
fn empty_line() -> (l: TextLine)
    ensures
        l.y == 0,
        l.frags@.len() == 0,
        l@ == (TextLineView { y: 0, frags: Seq::<FragmentView>::empty() }),
{
    let l = TextLine { y: 0, frags: Vec::new() };
    assert(l@.frags =~= Seq::<FragmentView>::empty());
    l
}

/// Tries to merge line `i` into a line above it (see [`try_merge_up`]).
fn merge_up(lines: &mut Vec<TextLine>, i: usize, in_table: bool, horiz: &Vec<u32>) -> (ok: bool)
    requires
        1 <= i < old(lines)@.len(),
    ensures
        ok == try_merge_up(
            lines_view(old(lines)@),
            i as int,
            i - 1,
            in_table,
            horiz@.to_set(),
        ) is Some,
        ok ==> try_merge_up(lines_view(old(lines)@), i as int, i - 1, in_table, horiz@.to_set())
            == Some(lines_view(final(lines)@)),
        ok ==> final(lines)@.len() >= old(lines)@.len() - 1,
{
    let ghost orig = lines_view(lines@);
    let ghost hs = horiz@.to_set();
    let mut j: usize = i;
    while j > 0
        invariant
            1 <= i < lines@.len(),
            0 <= j <= i,
            lines_view(lines@) == orig,
            orig == lines_view(old(lines)@),
            lines@.len() == old(lines)@.len(),
            hs == horiz@.to_set(),
            try_merge_up(orig, i as int, i - 1, in_table, hs) == try_merge_up(
                orig,
                i as int,
                j - 1,
                in_table,
                hs,
            ),
        decreases j,
    {
        let jj = j - 1;
        let ghost cv = orig[i as int];
        let ghost pv = orig[jj as int];
        assert(cv == lines@[i as int]@);
        assert(pv == lines@[jj as int]@);
        let cur_y = lines[i].y;
        let prev_y = lines[jj].y;
        if find_border(horiz, cur_y, prev_y) {
            return true;
        }
        let limit = if in_table {
            MAX_TABLE_LINE_HEIGHT
        } else {
            MAX_LINE_HEIGHT
        };
        if abs_diff(prev_y, cur_y) >= limit {
            return true;
        }
        if !in_table && lines[i].frags.len() == 0 {
            return false;
        }
        if !in_table && lines[i].frags[0].font == Font::Code && lines[jj].frags.len() == 0 {
            return false;
        }
        if !in_table && lines[i].frags[0].font == Font::Code && lines[jj].frags[0].font
            == Font::Code {
            let mut prev = empty_line();
            lines.set_and_swap(jj, &mut prev);
            let ok = merge_code_lines(&mut prev, &lines[i]);
            if !ok {
                return false;
            }
            let ghost np = prev@;
            lines.set(jj, prev);
            lines.remove(i);
            assert(lines_view(lines@) =~= orig.update(jj as int, np).remove(i as int));
            return true;
        }
        let mut prev = empty_line();
        lines.set_and_swap(jj, &mut prev);
        let mut cur = empty_line();
        lines.set_and_swap(i, &mut cur);
        assert(prev@ == pv);
        assert(cur@ == cv);
        match merge_frag_lines(&mut prev, &mut cur) {
            None => {
                return false;
            },
            Some(merged) => {
                if merged {
                    if !all_frags_empty(&cur.frags) {
                        return false;
                    }
                    let ghost np = prev@;
                    lines.set(jj, prev);
                    lines.remove(i);
                    assert(lines_view(lines@) =~= orig.update(jj as int, np).remove(i as int));
                    return true;
                } else {
                    proof {
                        lemma_unmerged_unchanged(pv.frags, cv.frags, cv.frags.len() as int);
                    }
                    let ghost np = prev@;
                    let ghost nc = cur@;
                    assert(np =~= pv);
                    assert(nc =~= cv);
                    lines.set(jj, prev);
                    lines.set(i, cur);
                    assert(lines_view(lines@) =~= orig);
                }
            },
        }
        j = jj;
    }
    true
}

/// Merges the lines of each paragraph, code listing or table cell, working
/// from the bottom of the page up, and drops the lines in figures (see
/// [`merged_lines`]). Returns `false`, having stopped part way, where that
/// faults.
pub fn merge_paragraph_lines(lines: &mut Vec<TextLine>, horiz: &Vec<u32>, verts: &Vec<Line>) -> (ok:
    bool)
    ensures
        ok == merged_lines(lines_view(old(lines)@), horiz@.to_set(), verts@) is Some,
        ok ==> merged_lines(lines_view(old(lines)@), horiz@.to_set(), verts@) == Some(
            lines_view(final(lines)@),
        ),
{
    let ghost orig = lines_view(lines@);
    let ghost hs = horiz@.to_set();
    let n = lines.len();
    if n == 0 {
        return false;
    }
    let mut i = n;
    while i > 0
        invariant
            0 <= i <= lines@.len(),
            orig == lines_view(old(lines)@),
            hs == horiz@.to_set(),
            orig.len() > 0,
            merged_lines(orig, hs, verts@) == merge_lines_from(
                lines_view(lines@),
                i - 1,
                hs,
                verts@,
            ),
        decreases i,
    {
        let ii = i - 1;
        let ghost cur_v = lines_view(lines@);
        assert(cur_v[ii as int].y == lines@[ii as int].y);
        let v = find_vert(verts, lines[ii].y);
        let figure = match v {
            Some(l) => l.x1 > LEFT_MARGIN,
            None => false,
        };
        if figure {
            lines.remove(ii);
            assert(lines_view(lines@) =~= cur_v.remove(ii as int));
        } else if ii > 0 {
            if !merge_up(lines, ii, v.is_some(), horiz) {
                return false;
            }
        }
        i = ii;
    }
    true
}

} // verus!
