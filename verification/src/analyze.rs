//! Analyze a rendered PDF page to extract Block like Heading and Table.

use vstd::prelude::*;

use crate::fragments::{try_join_fragments, joined_fragments, lemma_joined_fragments_descending};
use crate::order::sort_u32;
use crate::paragraphs::{lemma_merged_lines_descending, merge_paragraph_lines, merged_lines};
use crate::render::{frags_view, lines_ascending, lines_descending, lines_view, Font, Fragment, FragmentView, Line, Render, TextLine, TextLineView};
use crate::vertical::{lemma_leftmost_spans_permutation, leftmost_spans, try_simplify_vert};

verus! {

broadcast use {vstd::seq_lib::group_to_multiset_ensures, vstd::multiset::group_multiset_axioms};

/// A piece of a manual page.
#[derive(Debug, PartialEq, Eq)]
pub enum Block {
    Heading(u32, String),
    Text(String),
    Code(String),
    Table(Vec<(Font, Vec<String>)>),
}

/// The mathematical value of a [`Block`].
pub enum BlockView {
    Heading(u32, Seq<char>),
    Text(Seq<char>),
    Code(Seq<char>),
    Table(Seq<(Font, Seq<Seq<char>>)>),
}

/// The views of a sequence of strings.
pub open spec fn strings_view(s: Seq<String>) -> Seq<Seq<char>> {
    s.map_values(|t: String| t@)
}

/// The view of a table row.
pub open spec fn row_view(r: (Font, Vec<String>)) -> (Font, Seq<Seq<char>>) {
    (r.0, strings_view(r.1@))
}

/// The views of the rows of a table.
pub open spec fn rows_view(rows: Seq<(Font, Vec<String>)>) -> Seq<(Font, Seq<Seq<char>>)> {
    rows.map_values(|r: (Font, Vec<String>)| row_view(r))
}

impl View for Block {
    type V = BlockView;

    open spec fn view(&self) -> BlockView {
        match self {
            Block::Heading(level, t) => BlockView::Heading(*level, t@),
            Block::Text(t) => BlockView::Text(t@),
            Block::Code(t) => BlockView::Code(t@),
            Block::Table(rows) => BlockView::Table(rows_view(rows@)),
        }
    }
}

/// The views of a sequence of blocks.
pub open spec fn blocks_view(bs: Seq<Block>) -> Seq<BlockView> {
    bs.map_values(|b: Block| b@)
}

/// One page of the manual, or a run of pages that make one entry.
#[derive(Debug, PartialEq, Eq)]
pub struct Doc {
    pub page: usize,
    pub title: Option<String>,
    pub blocks: Vec<Block>,
}

/// The mathematical value of a [`Doc`].
pub struct DocView {
    pub page: usize,
    pub title: Option<Seq<char>>,
    pub blocks: Seq<BlockView>,
}

impl View for Doc {
    type V = DocView;

    open spec fn view(&self) -> DocView {
        DocView {
            page: self.page,
            title: match self.title {
                Some(t) => Some(t@),
                None => None,
            },
            blocks: blocks_view(self.blocks@),
        }
    }
}

/// The views of a sequence of docs.
pub open spec fn docs_view(ds: Seq<Doc>) -> Seq<DocView> {
    ds.map_values(|d: Doc| d@)
}

/// The title of a page: the text of its first block where that is a
/// top-level heading.
pub open spec fn title_of(blocks: Seq<BlockView>) -> Option<Seq<char>> {
    match blocks[0] {
        BlockView::Heading(level, t) => if level == 1 {
            Some(t)
        } else {
            None
        },
        _ => None,
    }
}

/// The docs after one more page: a page without a title continues the doc
/// before it; any other page starts a doc.
pub open spec fn merge_step(docs: Seq<DocView>, d: DocView) -> Seq<DocView> {
    if docs.len() > 0 && d.title is None {
        let last = docs.last();
        docs.update(
            docs.len() - 1,
            DocView { page: last.page, title: last.title, blocks: last.blocks + d.blocks },
        )
    } else {
        docs.push(d)
    }
}

/// The docs of a run of pages, each untitled page joined to the doc before.
pub open spec fn merged_docs(docs: Seq<DocView>) -> Seq<DocView>
    decreases docs.len(),
{
    if docs.len() == 0 {
        docs
    } else {
        merge_step(merged_docs(docs.drop_last()), docs.last())
    }
}

/// The blocks of the docs, one doc after another.
pub open spec fn all_blocks(docs: Seq<DocView>) -> Seq<BlockView>
    decreases docs.len(),
{
    if docs.len() == 0 {
        Seq::empty()
    } else {
        all_blocks(docs.drop_last()) + docs.last().blocks
    }
}

/// Joining untitled pages loses, adds and reorders no block; each doc after
/// the first has a title; and there are no more docs than pages.
pub proof fn lemma_merged_docs(docs: Seq<DocView>)
    ensures
        all_blocks(merged_docs(docs)) == all_blocks(docs),
        forall|k: int|
            1 <= k < merged_docs(docs).len() ==> (#[trigger] merged_docs(docs)[k]).title is Some,
        merged_docs(docs).len() <= docs.len(),
        docs.len() > 0 ==> merged_docs(docs).len() > 0 && merged_docs(docs)[0].page == docs[0].page,
    decreases docs.len(),
{
    if docs.len() > 0 {
        let prev = merged_docs(docs.drop_last());
        lemma_merged_docs(docs.drop_last());
        let d = docs.last();
        let out = merged_docs(docs);
        if prev.len() > 0 && d.title is None {
            assert(out.drop_last() =~= prev.drop_last());
            assert(all_blocks(prev) == all_blocks(prev.drop_last()) + prev.last().blocks);
            assert(all_blocks(out) =~= all_blocks(prev.drop_last()) + (prev.last().blocks
                + d.blocks));
            assert(all_blocks(docs) == all_blocks(docs.drop_last()) + d.blocks);
            assert forall|k: int| 1 <= k < out.len() implies (#[trigger] out[k]).title is Some by {
                assert(out[k].title == prev[k].title);
            }
            if docs.len() > 1 {
                assert(docs.drop_last()[0] == docs[0]);
            }
        } else {
            assert(out.drop_last() =~= prev);
            if docs.len() > 1 {
                assert(docs.drop_last()[0] == docs[0]);
            }
        }
    }
}

/// How many of the pages have a title.
pub open spec fn titled_pages(docs: Seq<DocView>) -> nat
    decreases docs.len(),
{
    if docs.len() == 0 {
        0
    } else if docs.last().title is Some {
        titled_pages(docs.drop_last()) + 1
    } else {
        titled_pages(docs.drop_last())
    }
}

/// Every page with a title starts a doc of its own, with its page number
/// and title; so there is one doc per titled page, and one more where the
/// first page has no title.
pub proof fn lemma_titled_pages_start_docs(docs: Seq<DocView>)
    ensures
        forall|i: int|
            0 <= i < docs.len() && (#[trigger] docs[i]).title is Some ==> exists|k: int|
                0 <= k < merged_docs(docs).len() && (#[trigger] merged_docs(docs)[k]).page
                    == docs[i].page && merged_docs(docs)[k].title == docs[i].title,
        merged_docs(docs).len() == titled_pages(docs) + (if docs.len() > 0 && docs[0].title is None {
            1int
        } else {
            0int
        }),
    decreases docs.len(),
{
    if docs.len() > 0 {
        let dd = docs.drop_last();
        lemma_titled_pages_start_docs(dd);
        let prev = merged_docs(dd);
        let out = merged_docs(docs);
        let d = docs.last();
        if dd.len() > 0 {
            assert(dd[0] == docs[0]);
        }
        if prev.len() > 0 && d.title is None {
            assert forall|i: int|
                0 <= i < docs.len() && (#[trigger] docs[i]).title is Some implies exists|k: int|
                0 <= k < out.len() && (#[trigger] out[k]).page == docs[i].page && out[k].title
                    == docs[i].title by {
                assert(i < dd.len());
                assert(dd[i] == docs[i]);
                let k = choose|k: int|
                    0 <= k < prev.len() && (#[trigger] prev[k]).page == dd[i].page && prev[k].title
                        == dd[i].title;
                assert(out[k].page == prev[k].page && out[k].title == prev[k].title);
            }
        } else {
            assert forall|i: int|
                0 <= i < docs.len() && (#[trigger] docs[i]).title is Some implies exists|k: int|
                0 <= k < out.len() && (#[trigger] out[k]).page == docs[i].page && out[k].title
                    == docs[i].title by {
                if i < dd.len() {
                    assert(dd[i] == docs[i]);
                    let k = choose|k: int|
                        0 <= k < prev.len() && (#[trigger] prev[k]).page == dd[i].page
                            && prev[k].title == dd[i].title;
                    assert(out[k] == prev[k]);
                } else {
                    assert(out[out.len() - 1] == d);
                }
            }
        }
    }
}

/// The title of a page is the text of its first block exactly where that
/// is a top-level heading; a page whose first block is anything else has
/// none, whatever headings follow.
pub proof fn lemma_title_is_first_heading(blocks: Seq<BlockView>)
    requires
        blocks.len() > 0,
    ensures
        title_of(blocks) is Some <==> (blocks[0] is Heading && blocks[0]->Heading_0 == 1),
        title_of(blocks) matches Some(t) ==> blocks[0] == BlockView::Heading(1, t),
{
}

/// A row of several fragments in one font joins the table just before it
/// where that table's last row is a table heading or in the same font: no
/// block is added, and the table gains exactly this row, whose cells are
/// the fragments' texts. In another known font it starts a table of its
/// own; in an unknown font it is left out.
pub proof fn lemma_row_joins_table(
    lines: Seq<TextLineView>,
    line: TextLineView,
    bs: Seq<BlockView>,
    rows: Seq<(Font, Seq<Seq<char>>)>,
)
    requires
        blocks_of(lines) == Some(bs),
        bs.len() > 0,
        bs.last() == BlockView::Table(rows),
        rows.len() > 0,
        line.frags.len() >= 2,
        forall|k: int| 0 <= k < line.frags.len() ==> (#[trigger] line.frags[k]).font == line.frags[0].font,
    ensures
        ({
            let font = line.frags[0].font;
            let row = (font, Seq::new(line.frags.len(), |k: int| line.frags[k].text));
            &&& (rows.last().0 == Font::TableHeading || rows.last().0 == font) ==> blocks_of(
                lines.push(line),
            ) == Some(bs.update(bs.len() - 1, BlockView::Table(rows.push(row))))
            &&& (rows.last().0 != Font::TableHeading && rows.last().0 != font && font != Font::Unknown)
                ==> blocks_of(lines.push(line)) == Some(bs.push(BlockView::Table(seq![row])))
            &&& (rows.last().0 != Font::TableHeading && rows.last().0 != font && font == Font::Unknown)
                ==> blocks_of(lines.push(line)) == Some(bs)
        }),
{
    let l2 = lines.push(line);
    assert(l2.drop_last() =~= lines);
    assert(texts_of(line.frags) =~= Seq::new(line.frags.len(), |k: int| line.frags[k].text));
}

/// The texts of the fragments.
pub open spec fn texts_of(frags: Seq<FragmentView>) -> Seq<Seq<char>> {
    frags.map_values(|f: FragmentView| f.text)
}

/// Whether all the fragments are in the font `font`.
pub open spec fn all_in_font(frags: Seq<FragmentView>, font: Font) -> bool {
    forall|k: int| 0 <= k < frags.len() ==> (#[trigger] frags[k]).font == font
}

/// The blocks after a table row: it extends the table just before it when
/// that table's last row is a table heading or in the row's font, and
/// starts a table otherwise, unless its font is unknown (then it is left
/// out). `None` where that table has no rows.
pub open spec fn add_row(blocks: Seq<BlockView>, font: Font, cells: Seq<Seq<char>>) -> Option<
    Seq<BlockView>,
> {
    let row = (font, cells);
    if blocks.len() > 0 && blocks.last() is Table {
        let rows = blocks.last()->Table_0;
        if rows.len() == 0 {
            None
        } else if rows.last().0 == Font::TableHeading || rows.last().0 == font {
            Some(blocks.update(blocks.len() - 1, BlockView::Table(rows.push(row))))
        } else if font == Font::Unknown {
            Some(blocks)
        } else {
            Some(blocks.push(BlockView::Table(seq![row])))
        }
    } else if font == Font::Unknown {
        Some(blocks)
    } else {
        Some(blocks.push(BlockView::Table(seq![row])))
    }
}

/// The blocks after one more line: a line of one fragment is a heading,
/// text or code by its font (nothing for a footer); a line of several is a
/// table row. `None` for a line of no fragments, of one fragment in an
/// unknown font, or of fragments in different fonts.
pub open spec fn block_step(blocks: Seq<BlockView>, line: TextLineView) -> Option<Seq<BlockView>> {
    let frags = line.frags;
    if frags.len() == 1 {
        let f = frags[0];
        match f.font {
            Font::Heading => Some(blocks.push(BlockView::Heading(1, f.text))),
            Font::SubHeading => Some(blocks.push(BlockView::Heading(2, f.text))),
            Font::TableHeading => Some(blocks.push(BlockView::Text(f.text))),
            Font::Body => Some(blocks.push(BlockView::Text(f.text))),
            Font::Code => Some(blocks.push(BlockView::Code(f.text))),
            Font::Footer => Some(blocks),
            Font::Unknown => None,
        }
    } else if frags.len() == 0 {
        None
    } else if !all_in_font(frags, frags[0].font) {
        None
    } else {
        add_row(blocks, frags[0].font, texts_of(frags))
    }
}

/// The blocks of a sequence of merged lines, top to bottom.
pub open spec fn blocks_of(lines: Seq<TextLineView>) -> Option<Seq<BlockView>>
    decreases lines.len(),
{
    if lines.len() == 0 {
        Some(Seq::empty())
    } else {
        match blocks_of(lines.drop_last()) {
            Some(bs) => block_step(bs, lines.last()),
            None => None,
        }
    }
}

/// The blocks of a page whose fragments are joined: its paragraphs merged
/// (see `merged_lines`), then turned into blocks.
pub open spec fn paragraph_blocks(lines: Seq<TextLineView>, horiz: Set<u32>, verts: Seq<Line>) -> Option<
    Seq<BlockView>,
> {
    match merged_lines(lines, horiz, verts) {
        Some(ls) => blocks_of(ls),
        None => None,
    }
}

/// The blocks of a rendered page: the vertical lines reduced to their
/// leftmost spans, the lines of text taken top to bottom with their
/// fragments joined, then merged into paragraphs and turned into blocks.
/// `None` where any of these steps faults.
pub open spec fn page_blocks(text_lines: Seq<TextLineView>, horiz: Seq<u32>, verts: Seq<Line>) -> Option<
    Seq<BlockView>,
> {
    match leftmost_spans(verts) {
        None => None,
        Some(spans) => match joined_fragments(text_lines.reverse()) {
            None => None,
            Some(lines) => paragraph_blocks(lines, horiz.to_set(), spans),
        },
    }
}

/// The shape every block has: a heading is of level one or two, and a
/// table has rows, each of two cells or more.
pub open spec fn block_wf(b: BlockView) -> bool {
    match b {
        BlockView::Heading(level, _) => level == 1 || level == 2,
        BlockView::Table(rows) => rows.len() >= 1 && forall|r: int|
            0 <= r < rows.len() ==> (#[trigger] rows[r]).1.len() >= 2,
        _ => true,
    }
}

/// Every block has the shape of [`block_wf`].
pub open spec fn blocks_wf(bs: Seq<BlockView>) -> bool {
    forall|k: int| 0 <= k < bs.len() ==> block_wf(#[trigger] bs[k])
}

/// The blocks of any lines are well formed: headings are of level one or
/// two, and tables have rows of two cells or more.
pub proof fn lemma_blocks_wf(lines: Seq<TextLineView>)
    ensures
        blocks_of(lines) is Some ==> blocks_wf(blocks_of(lines).unwrap()),
    decreases lines.len(),
{
    if lines.len() > 0 {
        lemma_blocks_wf(lines.drop_last());
        if blocks_of(lines) is Some {
            let bs = blocks_of(lines.drop_last()).unwrap();
            let line = lines.last();
            let frags = line.frags;
            let out = blocks_of(lines).unwrap();
            if frags.len() == 1 {
                assert forall|k: int| 0 <= k < out.len() implies block_wf(#[trigger] out[k]) by {
                    if k < bs.len() {
                        assert(out[k] == bs[k]);
                    }
                }
            } else {
                let font = frags[0].font;
                let row = (font, texts_of(frags));
                assert(row.1.len() >= 2);
                assert forall|k: int| 0 <= k < out.len() implies block_wf(#[trigger] out[k]) by {
                    if bs.len() > 0 && bs.last() is Table && k == bs.len() - 1 {
                        let rows = bs.last()->Table_0;
                        assert(block_wf(bs[k]));
                        if out[k] != bs[k] {
                            assert(out[k] == BlockView::Table(rows.push(row)));
                            assert forall|r: int| 0 <= r < rows.push(row).len() implies (
                            #[trigger] rows.push(row)[r]).1.len() >= 2 by {
                                if r < rows.len() {
                                    assert(rows.push(row)[r] == rows[r]);
                                }
                            }
                        }
                    } else if k < bs.len() {
                        assert(out[k] == bs[k]);
                    } else {
                        assert(out[k] == BlockView::Table(seq![row]));
                        assert(seq![row][0] == row);
                    }
                }
            }
        }
    }
}

/// The blocks of every page that can be analysed are well formed.
pub proof fn lemma_page_blocks_wf(text_lines: Seq<TextLineView>, horiz: Seq<u32>, verts: Seq<Line>)
    ensures
        page_blocks(text_lines, horiz, verts) is Some ==> blocks_wf(
            page_blocks(text_lines, horiz, verts).unwrap(),
        ),
{
    match leftmost_spans(verts) {
        None => {},
        Some(spans) => match joined_fragments(text_lines.reverse()) {
            None => {},
            Some(lines) => match merged_lines(lines, horiz.to_set(), spans) {
                Some(ls) => lemma_blocks_wf(ls),
                None => {},
            },
        },
    }
}

/// A page drawn as [`Render`] keeps its lines (in ascending order of
/// baseline) is read from the top down: the joined lines, and the merged
/// lines made from them, are in descending order of baseline.
pub proof fn lemma_page_read_top_down(text_lines: Seq<TextLineView>, horiz: Seq<u32>, verts: Seq<Line>)
    requires
        lines_ascending(text_lines),
    ensures
        joined_fragments(text_lines.reverse()) matches Some(ls) ==> {
            &&& lines_descending(ls)
            &&& leftmost_spans(verts) matches Some(spans) ==> (merged_lines(
                ls,
                horiz.to_set(),
                spans,
            ) matches Some(ms) ==> lines_descending(ms))
        },
{
    let rev = text_lines.reverse();
    assert forall|i: int, j: int| 0 <= i < j < rev.len() implies rev[i].y > rev[j].y by {
        assert(rev[i] == text_lines[text_lines.len() - 1 - i]);
        assert(rev[j] == text_lines[text_lines.len() - 1 - j]);
    }
    lemma_joined_fragments_descending(rev);
    if let Some(ls) = joined_fragments(rev) {
        if let Some(spans) = leftmost_spans(verts) {
            lemma_merged_lines_descending(ls, horiz.to_set(), spans);
        }
    }
}

/// Reordering the horizontal rules or the vertical lines of a page leaves
/// its analysis unchanged: both orders fault, or both give the same blocks.
pub proof fn lemma_page_blocks_permutation(
    text_lines: Seq<TextLineView>,
    h1: Seq<u32>,
    h2: Seq<u32>,
    v1: Seq<Line>,
    v2: Seq<Line>,
)
    requires
        h1.to_multiset() == h2.to_multiset(),
        v1.to_multiset() == v2.to_multiset(),
    ensures
        page_blocks(text_lines, h1, v1) == page_blocks(text_lines, h2, v2),
{
    lemma_leftmost_spans_permutation(v1, v2);
    assert forall|h: u32| h1.to_set().contains(h) <==> h2.to_set().contains(h) by {
        assert(h1.contains(h) <==> h1.to_multiset().count(h) > 0);
        assert(h2.contains(h) <==> h2.to_multiset().count(h) > 0);
    }
    assert(h1.to_set() =~= h2.to_set());
}

/// The analysis of a page is its steps in turn: the vertical lines reduced
/// to their leftmost spans (as `simplify_vert` does), the lines of text
/// reversed and their fragments joined (as `join_fragments` does), then,
/// with the horizontal rules in any order (sorted, say), paragraphs merged
/// and turned into blocks (as `join_paragraphs` does). It faults exactly
/// where one of the steps does.
pub proof fn lemma_page_blocks_composition(
    text_lines: Seq<TextLineView>,
    horiz: Seq<u32>,
    sorted: Seq<u32>,
    verts: Seq<Line>,
)
    requires
        sorted.to_multiset() == horiz.to_multiset(),
    ensures
        page_blocks(text_lines, horiz, verts) == match leftmost_spans(verts) {
            None => None,
            Some(spans) => match joined_fragments(text_lines.reverse()) {
                None => None,
                Some(lines) => paragraph_blocks(lines, sorted.to_set(), spans),
            },
        },
{
    assert forall|h: u32| horiz.to_set().contains(h) <==> sorted.to_set().contains(h) by {
        assert(horiz.contains(h) <==> horiz.to_multiset().count(h) > 0);
        assert(sorted.contains(h) <==> sorted.to_multiset().count(h) > 0);
    }
    assert(horiz.to_set() =~= sorted.to_set());
}

/// A blocks run that faults stays faulted over more lines.
proof fn lemma_blocks_of_prefix(lines: Seq<TextLineView>, k: int)
    requires
        0 <= k <= lines.len(),
        blocks_of(lines.take(k)) is None,
    ensures
        blocks_of(lines) is None,
    decreases lines.len(),
{
    if k == lines.len() {
        assert(lines.take(k) =~= lines);
    } else {
        assert(lines.drop_last().take(k) =~= lines.take(k));
        lemma_blocks_of_prefix(lines.drop_last(), k);
    }
}

/// The texts of the fragments, as the cells of a table row.
fn row_cells(frags: Vec<Fragment>) -> (cells: Vec<String>)
    ensures
        strings_view(cells@) == texts_of(frags_view(frags@)),
{
    let ghost fv = frags_view(frags@);
    let mut frags = frags;
    let n = frags.len();
    let mut cells: Vec<String> = Vec::new();
    let mut k: usize = 0;
    while k < n
        invariant
            n == fv.len(),
            frags@.len() == n,
            0 <= k <= n,
            forall|j: int| k <= j < n ==> #[trigger] frags@[j]@ == fv[j],
            strings_view(cells@) == texts_of(fv.take(k as int)),
        decreases n - k,
    {
        let mut f = Fragment { x: 0, x2: 0, font: Font::Unknown, text: String::new() };
        frags.set_and_swap(k, &mut f);
        assert(f@ == fv[k as int]);
        let ghost cv = strings_view(cells@);
        let ghost t = f.text@;
        cells.push(f.text);
        assert(strings_view(cells@) =~= cv.push(t));
        assert(texts_of(fv.take(k + 1)) =~= texts_of(fv.take(k as int)).push(fv[k as int].text));
        k = k + 1;
    }
    assert(fv.take(n as int) =~= fv);
    cells
}

/// Whether all the fragments are in the font `font`.
fn in_one_font(frags: &Vec<Fragment>, font: Font) -> (r: bool)
    ensures
        r == all_in_font(frags_view(frags@), font),
{
    let n = frags.len();
    let mut k: usize = 0;
    while k < n
        invariant
            n == frags@.len(),
            0 <= k <= n,
            forall|j: int| 0 <= j < k ==> (#[trigger] frags@[j]).font == font,
        decreases n - k,
    {
        if frags[k].font != font {
            assert(frags_view(frags@)[k as int].font != font);
            return false;
        }
        k = k + 1;
    }
    assert forall|j: int| 0 <= j < n implies (#[trigger] frags_view(frags@)[j]).font == font by {
        assert(frags@[j].font == font);
    }
    true
}

/// Adds a table row to the blocks (see [`add_row`]).
fn push_row(blocks: &mut Vec<Block>, font: Font, cells: Vec<String>) -> (ok: bool)
    ensures
        ok == add_row(blocks_view(old(blocks)@), font, strings_view(cells@)) is Some,
        ok ==> add_row(blocks_view(old(blocks)@), font, strings_view(cells@)) == Some(
            blocks_view(final(blocks)@),
        ),
{
    let ghost bv = blocks_view(blocks@);
    let ghost row = (font, strings_view(cells@));
    let ghost rowv = row_view((font, cells));
    assert(rowv == row);
    match blocks.pop() {
        Some(Block::Table(mut rows)) => {
            let ghost rest = blocks_view(blocks@);
            assert(bv =~= rest.push(BlockView::Table(rows_view(rows@))));
            let nrows = rows.len();
            if nrows == 0 {
                return false;
            }
            let last_font = rows[nrows - 1].0;
            assert(rows_view(rows@).last().0 == last_font);
            if last_font == Font::TableHeading || last_font == font {
                let ghost rv = rows_view(rows@);
                rows.push((font, cells));
                assert(rows_view(rows@) =~= rv.push(row));
                blocks.push(Block::Table(rows));
                assert(blocks_view(blocks@) =~= bv.update(
                    bv.len() - 1,
                    BlockView::Table(rv.push(row)),
                ));
                true
            } else {
                blocks.push(Block::Table(rows));
                assert(blocks_view(blocks@) =~= bv);
                if font != Font::Unknown {
                    let mut t = Vec::new();
                    t.push((font, cells));
                    assert(rows_view(t@) =~= seq![row]);
                    blocks.push(Block::Table(t));
                    assert(blocks_view(blocks@) =~= bv.push(BlockView::Table(seq![row])));
                }
                true
            }
        },
        Some(other) => {
            let ghost ov = other@;
            blocks.push(other);
            assert(blocks_view(blocks@) =~= bv);
            assert(bv.last() == ov);
            if font != Font::Unknown {
                let mut t = Vec::new();
                t.push((font, cells));
                assert(rows_view(t@) =~= seq![row]);
                blocks.push(Block::Table(t));
                assert(blocks_view(blocks@) =~= bv.push(BlockView::Table(seq![row])));
            }
            true
        },
        None => {
            assert(bv.len() == 0);
            if font != Font::Unknown {
                let mut t = Vec::new();
                t.push((font, cells));
                assert(rows_view(t@) =~= seq![row]);
                blocks.push(Block::Table(t));
                assert(blocks_view(blocks@) =~= bv.push(BlockView::Table(seq![row])));
            }
            true
        },
    }
}

/// Turns merged lines into blocks (see [`blocks_of`]).
fn blocks_from_lines(lines: Vec<TextLine>) -> (r: Option<Vec<Block>>)
    ensures
        match r {
            Some(b) => blocks_of(lines_view(lines@)) == Some(blocks_view(b@)),
            None => blocks_of(lines_view(lines@)) is None,
        },
{
    let ghost lv = lines_view(lines@);
    let mut work = lines;
    let n = work.len();
    let mut blocks: Vec<Block> = Vec::new();
    let mut i: usize = 0;
    assert(blocks_view(blocks@) =~= Seq::<BlockView>::empty());
    assert(lv.take(0) =~= Seq::<TextLineView>::empty());
    while i < n
        invariant
            n == lv.len(),
            work@.len() == n,
            lv == lines_view(lines@),
            0 <= i <= n,
            forall|j: int| i <= j < n ==> #[trigger] work@[j]@ == lv[j],
            blocks_of(lv.take(i as int)) == Some(blocks_view(blocks@)),
        decreases n - i,
    {
        let mut line = TextLine { y: 0, frags: Vec::new() };
        work.set_and_swap(i, &mut line);
        assert(line@ == lv[i as int]);
        assert(lv.take(i + 1).drop_last() =~= lv.take(i as int));
        assert(lv.take(i + 1).last() == lv[i as int]);
        let ghost bv = blocks_view(blocks@);
        let mut frags = line.frags;
        let ghost fv = frags_view(frags@);
        if frags.len() == 1 {
            let frag = frags.pop().unwrap();
            assert(frag@ == fv[0]);
            match frag.font {
                Font::Heading => {
                    blocks.push(Block::Heading(1, frag.text));
                },
                Font::SubHeading => {
                    blocks.push(Block::Heading(2, frag.text));
                },
                Font::TableHeading => {
                    blocks.push(Block::Text(frag.text));
                },
                Font::Body => {
                    blocks.push(Block::Text(frag.text));
                },
                Font::Code => {
                    blocks.push(Block::Code(frag.text));
                },
                Font::Footer => {},
                Font::Unknown => {
                    proof {
                        lemma_blocks_of_prefix(lv, i + 1);
                    }
                    return None;
                },
            }
            assert(blocks_view(blocks@) =~= block_step(bv, lv[i as int]).unwrap());
        } else if frags.len() == 0 {
            proof {
                lemma_blocks_of_prefix(lv, i + 1);
            }
            return None;
        } else {
            let font = frags[0].font;
            if !in_one_font(&frags, font) {
                proof {
                    lemma_blocks_of_prefix(lv, i + 1);
                }
                return None;
            }
            let cells = row_cells(frags);
            if !push_row(&mut blocks, font, cells) {
                proof {
                    lemma_blocks_of_prefix(lv, i + 1);
                }
                return None;
            }
        }
        i = i + 1;
    }
    assert(lv.take(n as int) =~= lv);
    Some(blocks)
}

/// For all the lines that are part of the same paragraph, join them into a
/// single span of text if they are close enough together; then turn the
/// lines into blocks. `None` where that faults (see [`paragraph_blocks`]).
pub fn try_join_paragraphs(text_lines: Vec<TextLine>, horiz_lines: Vec<u32>, vert_lines: Vec<Line>) -> (r:
    Option<Vec<Block>>)
    ensures
        match r {
            Some(b) => paragraph_blocks(
                lines_view(text_lines@),
                horiz_lines@.to_set(),
                vert_lines@,
            ) == Some(blocks_view(b@)),
            None => paragraph_blocks(
                lines_view(text_lines@),
                horiz_lines@.to_set(),
                vert_lines@,
            ) is None,
        },
{
    let mut lines = text_lines;
    if !merge_paragraph_lines(&mut lines, &horiz_lines, &vert_lines) {
        return None;
    }
    blocks_from_lines(lines)
}

/// For all the lines that are part of the same paragraph, join them into a
/// single span of text if they are close enough together; then turn the
/// lines into blocks. The page must have lines, and merging and turning them
/// into blocks must not fault (see [`try_join_paragraphs`] for a version
/// that reports those cases).
pub fn join_paragraphs(text_lines: Vec<TextLine>, horiz_lines: Vec<u32>, vert_lines: Vec<Line>) -> (r:
    Vec<Block>)
    requires
        paragraph_blocks(lines_view(text_lines@), horiz_lines@.to_set(), vert_lines@) is Some,
    ensures
        paragraph_blocks(lines_view(text_lines@), horiz_lines@.to_set(), vert_lines@) == Some(
            blocks_view(r@),
        ),
{
    match try_join_paragraphs(text_lines, horiz_lines, vert_lines) {
        Some(b) => b,
        None => Vec::new(),
    }
}

/// The lines in the opposite order.
fn reversed(lines: Vec<TextLine>) -> (r: Vec<TextLine>)
    ensures
        lines_view(r@) == lines_view(lines@).reverse(),
{
    let ghost lv = lines_view(lines@);
    let mut rest = lines;
    let mut out: Vec<TextLine> = Vec::new();
    while rest.len() > 0
        invariant
            lines_view(rest@) + lines_view(out@).reverse() == lv,
        decreases rest@.len(),
    {
        let ghost rv = lines_view(rest@);
        let ghost ov = lines_view(out@);
        let l = rest.pop().unwrap();
        let ghost l_v = l@;
        out.push(l);
        assert(lines_view(rest@) =~= rv.drop_last());
        assert(lines_view(out@) =~= ov.push(l_v));
        assert(rv =~= rv.drop_last().push(l_v));
        assert(ov.push(l_v).reverse() =~= seq![l_v] + ov.reverse());
        assert(lines_view(rest@) + lines_view(out@).reverse() =~= rv.drop_last() + (seq![l_v]
            + ov.reverse()));
        assert(rv.drop_last() + (seq![l_v] + ov.reverse()) =~= rv + ov.reverse());
    }
    assert(lines_view(rest@) =~= Seq::<TextLineView>::empty());
    assert(lines_view(out@).reverse() =~= lv);
    assert(lines_view(out@) =~= lv.reverse());
    out
}

/// The blocks of a rendered page (see [`page_blocks`]); `None` exactly
/// where the analysis faults.
pub fn try_analyze(render: Render) -> (r: Option<Vec<Block>>)
    ensures
        match r {
            Some(b) => page_blocks(
                lines_view(render.text_lines@),
                render.horiz_lines@,
                render.vert_lines@,
            ) == Some(blocks_view(b@)),
            None => page_blocks(
                lines_view(render.text_lines@),
                render.horiz_lines@,
                render.vert_lines@,
            ) is None,
        },
{
    let Render { text_lines, horiz_lines, vert_lines } = render;
    let vert = match try_simplify_vert(vert_lines) {
        Some(v) => v,
        None => return None,
    };
    let mut lines = reversed(text_lines);
    if !try_join_fragments(&mut lines) {
        return None;
    }
    let ghost hv = horiz_lines@;
    let horiz = sort_u32(horiz_lines);
    proof {
        assert forall|h: u32| horiz@.contains(h) <==> hv.contains(h) by {
            assert(horiz@.contains(h) <==> horiz@.to_multiset().count(h) > 0);
            assert(hv.contains(h) <==> hv.to_multiset().count(h) > 0);
        }
        assert(horiz@.to_set() =~= hv.to_set());
    }
    try_join_paragraphs(lines, horiz, vert)
}

/// Analyze a rendered PDF page to extract Block like Heading and Table.
pub fn analyze(render: Render) -> (r: Vec<Block>)
    requires
        page_blocks(lines_view(render.text_lines@), render.horiz_lines@, render.vert_lines@) is Some,
    ensures
        page_blocks(lines_view(render.text_lines@), render.horiz_lines@, render.vert_lines@) == Some(
            blocks_view(r@),
        ),
{
    match try_analyze(render) {
        Some(b) => b,
        None => Vec::new(),
    }
}

impl Doc {
    /// The doc of one page, titled by its first block where that is a
    /// top-level heading.
    pub fn for_page(page: usize, blocks: Vec<Block>) -> (d: Doc)
        requires
            blocks@.len() > 0,
        ensures
            d@ == (DocView {
                page,
                title: title_of(blocks_view(blocks@)),
                blocks: blocks_view(blocks@),
            }),
    {
        let title = match &blocks[0] {
            Block::Heading(level, t) => if *level == 1 {
                Some(t.clone())
            } else {
                None
            },
            _ => None,
        };
        assert(blocks_view(blocks@)[0] == blocks@[0]@);
        Doc { page, title, blocks }
    }
}

/// Joins each page without a title to the doc before it (see
/// [`merged_docs`]).
pub fn merge_docs(docs: Vec<Doc>) -> (r: Vec<Doc>)
    ensures
        docs_view(r@) == merged_docs(docs_view(docs@)),
{
    let ghost dv = docs_view(docs@);
    let mut rest = docs;
    let n = rest.len();
    let mut out: Vec<Doc> = Vec::new();
    let mut i: usize = 0;
    assert(dv.take(0) =~= Seq::<DocView>::empty());
    assert(docs_view(out@) =~= Seq::<DocView>::empty());
    while i < n
        invariant
            n == dv.len(),
            rest@.len() == n,
            dv == docs_view(docs@),
            0 <= i <= n,
            forall|j: int| i <= j < n ==> #[trigger] rest@[j]@ == dv[j],
            docs_view(out@) == merged_docs(dv.take(i as int)),
        decreases n - i,
    {
        let mut d = Doc { page: 0, title: None, blocks: Vec::new() };
        rest.set_and_swap(i, &mut d);
        assert(d@ == dv[i as int]);
        assert(dv.take(i + 1).drop_last() =~= dv.take(i as int));
        assert(dv.take(i + 1).last() == dv[i as int]);
        let ghost ov = docs_view(out@);
        let ghost d_v = d@;
        if out.len() > 0 && d.title.is_none() {
            let mut last = out.pop().unwrap();
            assert(ov.last() == last@);
            let mut more = d.blocks;
            let ghost mv = blocks_view(more@);
            let ghost lb = blocks_view(last.blocks@);
            last.blocks.append(&mut more);
            assert(blocks_view(last.blocks@) =~= lb + mv);
            out.push(last);
            assert(docs_view(out@) =~= merge_step(ov, d_v));
        } else {
            out.push(d);
            assert(docs_view(out@) =~= merge_step(ov, d_v));
        }
        i = i + 1;
    }
    assert(dv.take(n as int) =~= dv);
    out
}

} // verus!
