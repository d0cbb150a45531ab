//! The plain-value model of a rendered page: text fragments grouped by
//! baseline, plus the ruling lines drawn on the page.

use vstd::prelude::*;

use crate::text::str_equal;

verus! {

/// The role of a font, as recognised from its name and size.
#[derive(Debug, Clone, Copy, PartialEq, Eq, Structural)]
pub enum Font {
    Heading,
    SubHeading,
    TableHeading,
    Body,
    Code,
    Footer,
    Unknown,
}

/// The role of a font with PostScript name `name` drawn at `scale`
/// thousandths of its nominal size; `None` where the pair is not one the
/// manual uses.
pub open spec fn font_role(name: Option<Seq<char>>, scale: u32) -> Option<Font> {
    match name {
        None => Some(Font::Unknown),
        Some(n) => if n == "NeoSansIntelMedium"@ && scale == 12 {
            Some(Font::Heading)
        } else if n == "NeoSansIntelMedium"@ && scale == 10 {
            Some(Font::SubHeading)
        } else if n == "NeoSansIntelMedium"@ && scale == 9 {
            Some(Font::TableHeading)
        } else if n == "NeoSansIntel"@ && scale == 8 {
            Some(Font::Footer)
        } else if n == "Verdana"@ || n == "Verdana,Italic"@ {
            Some(Font::Body)
        } else if (n == "NeoSansIntel"@ || n == "NeoSansIntel,Italic"@) && scale == 9 {
            Some(Font::Code)
        } else if n == "Arial"@ && scale == 8 {
            Some(Font::Unknown)
        } else {
            None
        },
    }
}

/// The characters of a font's name, where it has one.
pub open spec fn name_seq(name: Option<&str>) -> Option<Seq<char>> {
    match name {
        Some(n) => Some(n@),
        None => None,
    }
}

impl Font {
    /// Recognises a font by its PostScript name and scale; `None` for a
    /// font that the manual is not known to use.
    pub fn from_name(name: Option<&str>, scale: u32) -> (r: Option<Font>)
        ensures
            r == font_role(name_seq(name), scale),
    {
        match name {
            None => Some(Font::Unknown),
            Some(n) => {
                let medium = str_equal(n, "NeoSansIntelMedium");
                let neo = str_equal(n, "NeoSansIntel");
                if medium && scale == 12 {
                    Some(Font::Heading)
                } else if medium && scale == 10 {
                    Some(Font::SubHeading)
                } else if medium && scale == 9 {
                    Some(Font::TableHeading)
                } else if neo && scale == 8 {
                    Some(Font::Footer)
                } else if str_equal(n, "Verdana") || str_equal(n, "Verdana,Italic") {
                    Some(Font::Body)
                } else if (neo || str_equal(n, "NeoSansIntel,Italic")) && scale == 9 {
                    Some(Font::Code)
                } else if str_equal(n, "Arial") && scale == 8 {
                    Some(Font::Unknown)
                } else {
                    None
                }
            },
        }
    }
}

impl Font {
    /// Recognises a font by its PostScript name and scale; the pair must be
    /// one the manual uses (see [`Font::from_name`] for a version that
    /// reports other pairs).
    pub fn for_name(name: Option<&str>, scale: u32) -> (r: Font)
        requires
            font_role(name_seq(name), scale) is Some,
        ensures
            font_role(name_seq(name), scale) == Some(r),
    {
        match Font::from_name(name, scale) {
            Some(f) => f,
            None => Font::Unknown,
        }
    }
}

/// The roles found so far, by font key and scale; a later entry for the
/// same pair would replace an earlier one.
pub open spec fn role_map(entries: Seq<(u128, u32, Font)>) -> Map<(u128, u32), Font>
    decreases entries.len(),
{
    if entries.len() == 0 {
        Map::empty()
    } else {
        let e = entries.last();
        role_map(entries.drop_last()).insert((e.0, e.1), e.2)
    }
}

/// No two entries are for the same font key and scale.
pub open spec fn entries_distinct(entries: Seq<(u128, u32, Font)>) -> bool {
    forall|i: int, j: int|
        0 <= i < j < entries.len() ==> ((#[trigger] entries[i]).0, entries[i].1) != (
        (#[trigger] entries[j]).0,
        entries[j].1,
    )
}

/// The roles of the fonts met so far on a page, remembered by the key of
/// the font's data and the scale it is drawn at.
pub struct FontCache {
    entries: Vec<(u128, u32, Font)>,
}

impl View for FontCache {
    type V = Map<(u128, u32), Font>;

    closed spec fn view(&self) -> Map<(u128, u32), Font> {
        role_map(self.entries@)
    }
}

proof fn lemma_role_map(entries: Seq<(u128, u32, Font)>, key: u128, scale: u32)
    requires
        entries_distinct(entries),
    ensures
        role_map(entries).contains_key((key, scale)) <==> exists|i: int|
            0 <= i < entries.len() && (#[trigger] entries[i]).0 == key && entries[i].1 == scale,
        forall|i: int|
            0 <= i < entries.len() && (#[trigger] entries[i]).0 == key && entries[i].1 == scale
                ==> role_map(entries)[(key, scale)] == entries[i].2,
    decreases entries.len(),
{
    if entries.len() > 0 {
        let d = entries.drop_last();
        let n = entries.len() - 1;
        let last = entries[n];
        assert(entries_distinct(d)) by {
            assert forall|i: int, j: int| 0 <= i < j < d.len() implies ((#[trigger] d[i]).0, d[i].1)
                != ((#[trigger] d[j]).0, d[j].1) by {
                assert(d[i] == entries[i] && d[j] == entries[j]);
            }
        }
        lemma_role_map(d, key, scale);
        assert(role_map(entries) == role_map(d).insert((last.0, last.1), last.2));
        if last.0 == key && last.1 == scale {
            assert(entries[n].0 == key && entries[n].1 == scale);
            assert forall|i: int|
                0 <= i < entries.len() && (#[trigger] entries[i]).0 == key && entries[i].1 == scale
                    implies role_map(entries)[(key, scale)] == entries[i].2 by {
                if i < n {
                    assert((entries[i].0, entries[i].1) != (entries[n].0, entries[n].1));
                }
            }
        } else {
            if role_map(d).contains_key((key, scale)) {
                let i = choose|i: int| 0 <= i < d.len() && (#[trigger] d[i]).0 == key && d[i].1 == scale;
                assert(entries[i] == d[i]);
            }
            assert forall|i: int|
                0 <= i < entries.len() && (#[trigger] entries[i]).0 == key && entries[i].1 == scale
                    implies role_map(d).contains_key((key, scale)) && role_map(entries)[(key, scale)]
                    == entries[i].2 by {
                assert(i < n);
                assert(d[i] == entries[i]);
            }
        }
    }
}

impl FontCache {
    /// Whether the entries are each for another font key and scale.
    pub closed spec fn wf(&self) -> bool {
        entries_distinct(self.entries@)
    }

    /// A cache with no roles in it.
    pub fn new() -> (c: FontCache)
        ensures
            c.wf(),
            c@ == Map::<(u128, u32), Font>::empty(),
    {
        FontCache { entries: Vec::new() }
    }

    /// The role remembered for a font key and scale, if any.
    pub fn get(&self, key: u128, scale: u32) -> (r: Option<Font>)
        requires
            self.wf(),
        ensures
            r == (if self@.contains_key((key, scale)) {
                Some(self@[(key, scale)])
            } else {
                None
            }),
    {
        proof {
            lemma_role_map(self.entries@, key, scale);
        }
        let n = self.entries.len();
        let mut i: usize = 0;
        while i < n
            invariant
                n == self.entries@.len(),
                0 <= i <= n,
                self.wf(),
                forall|j: int|
                    0 <= j < i ==> !((#[trigger] self.entries@[j]).0 == key && self.entries@[j].1
                        == scale),
            decreases n - i,
        {
            let e = self.entries[i];
            if e.0 == key && e.1 == scale {
                proof {
                    lemma_role_map(self.entries@, key, scale);
                    assert(self.entries@[i as int] == e);
                }
                return Some(e.2);
            }
            i = i + 1;
        }
        None
    }

    /// The role of a font drawn at `scale`: the one remembered for its key,
    /// where it has a key with a role; else the one its name and scale give,
    /// remembered for its key where it has one. `None`, remembering nothing,
    /// for a name and scale the manual does not use.
    pub fn role(&mut self, key: Option<u128>, name: Option<&str>, scale: u32) -> (r: Option<Font>)
        requires
            old(self).wf(),
        ensures
            final(self).wf(),
            match key {
                Some(k) => if old(self)@.contains_key((k, scale)) {
                    r == Some(old(self)@[(k, scale)]) && final(self)@ == old(self)@
                } else {
                    r == font_role(name_seq(name), scale) && final(self)@ == match r {
                        Some(f) => old(self)@.insert((k, scale), f),
                        None => old(self)@,
                    }
                },
                None => r == font_role(name_seq(name), scale) && final(self)@ == old(self)@,
            },
    {
        if let Some(k) = key {
            if let Some(f) = self.get(k, scale) {
                return Some(f);
            }
        }
        let r = Font::from_name(name, scale);
        if let (Some(k), Some(f)) = (key, r) {
            let ghost before = self.entries@;
            proof {
                lemma_role_map(before, k, scale);
            }
            self.entries.push((k, scale, f));
            assert(self.entries@.drop_last() =~= before);
            assert forall|i: int, j: int| 0 <= i < j < self.entries@.len() implies ((
            #[trigger] self.entries@[i]).0, self.entries@[i].1) != (
                (#[trigger] self.entries@[j]).0,
                self.entries@[j].1,
            ) by {
                if j < before.len() {
                    assert(self.entries@[i] == before[i] && self.entries@[j] == before[j]);
                } else {
                    assert(self.entries@[i] == before[i]);
                }
            }
        }
        r
    }

    /// The role of a font whose role is known, as [`FontCache::role`] finds
    /// it: remembered for its key, or given by its name and scale.
    pub fn font_id(&mut self, key: Option<u128>, name: Option<&str>, scale: u32) -> (r: Font)
        requires
            old(self).wf(),
            (match key {
                Some(k) => old(self)@.contains_key((k, scale)),
                None => false,
            }) || font_role(name_seq(name), scale) is Some,
        ensures
            final(self).wf(),
            match key {
                Some(k) => if old(self)@.contains_key((k, scale)) {
                    r == old(self)@[(k, scale)] && final(self)@ == old(self)@
                } else {
                    font_role(name_seq(name), scale) == Some(r) && final(self)@ == old(self)@.insert(
                        (k, scale),
                        r,
                    )
                },
                None => font_role(name_seq(name), scale) == Some(r) && final(self)@ == old(self)@,
            },
    {
        match self.role(key, name, scale) {
            Some(f) => f,
            None => Font::Unknown,
        }
    }
}

/// A run of text drawn in one font, starting at `x` and ending at `x2`
/// (both in tenths of a point).
#[derive(Debug, Clone, PartialEq, Eq)]
pub struct Fragment {
    pub x: u32,
    pub x2: u32,
    pub font: Font,
    pub text: String,
}

/// The mathematical value of a [`Fragment`].
pub struct FragmentView {
    pub x: u32,
    pub x2: u32,
    pub font: Font,
    pub text: Seq<char>,
}

impl View for Fragment {
    type V = FragmentView;

    open spec fn view(&self) -> FragmentView {
        FragmentView { x: self.x, x2: self.x2, font: self.font, text: self.text@ }
    }
}

/// All the fragments that share one baseline `y`.
#[derive(Debug, PartialEq, Eq)]
pub struct TextLine {
    pub y: u32,
    pub frags: Vec<Fragment>,
}

/// The mathematical value of a [`TextLine`].
pub struct TextLineView {
    pub y: u32,
    pub frags: Seq<FragmentView>,
}

/// The views of a sequence of fragments.
pub open spec fn frags_view(frags: Seq<Fragment>) -> Seq<FragmentView> {
    frags.map_values(|f: Fragment| f@)
}

/// The views of a sequence of lines.
pub open spec fn lines_view(lines: Seq<TextLine>) -> Seq<TextLineView> {
    lines.map_values(|l: TextLine| l@)
}

impl View for TextLine {
    type V = TextLineView;

    open spec fn view(&self) -> TextLineView {
        TextLineView { y: self.y, frags: frags_view(self.frags@) }
    }
}

/// A vertical ruling line at `x1`, spanning `y1 <= y < y2`.
#[derive(Debug, Clone, Copy, PartialEq, Eq, Structural)]
pub struct Line {
    pub x1: u32,
    pub y1: u32,
    pub y2: u32,
}

/// What was drawn on one page.
pub struct Render {
    pub text_lines: Vec<TextLine>,
    /// y coords of any horizontal lines, so that we never merge text across table borders.
    pub horiz_lines: Vec<u32>,
    /// Coords of any vertical lines, for identifying figures.
    pub vert_lines: Vec<Line>,
}

/// The lines of text are kept in strictly ascending order of their baseline.
pub open spec fn lines_ascending(lines: Seq<TextLineView>) -> bool {
    forall|i: int, j: int| 0 <= i < j < lines.len() ==> lines[i].y < lines[j].y
}

/// The lines of text are in strictly descending order of their baseline:
/// from the top of the page down.
pub open spec fn lines_descending(lines: Seq<TextLineView>) -> bool {
    forall|i: int, j: int| 0 <= i < j < lines.len() ==> lines[i].y > lines[j].y
}

impl Render {
    /// The invariant that every way of building a page keeps: the lines of
    /// text in ascending order of baseline, each with a fragment, and each
    /// vertical line running upwards.
    pub open spec fn wf(&self) -> bool {
        &&& lines_ascending(lines_view(self.text_lines@))
        &&& forall|i: int|
            0 <= i < self.text_lines@.len() ==> (#[trigger] self.text_lines@[i]).frags@.len() > 0
        &&& forall|i: int|
            0 <= i < self.vert_lines@.len() ==> (#[trigger] self.vert_lines@[i]).y1
                <= self.vert_lines@[i].y2
    }

    /// An empty page.
    pub fn new() -> (r: Render)
        ensures
            r.wf(),
            r.text_lines@.len() == 0,
            r.horiz_lines@.len() == 0,
            r.vert_lines@.len() == 0,
    {
        Render { text_lines: Vec::new(), horiz_lines: Vec::new(), vert_lines: Vec::new() }
    }
}

impl Default for Render {
    fn default() -> (r: Render)
        ensures
            r.wf(),
            r.text_lines@.len() == 0,
            r.horiz_lines@.len() == 0,
            r.vert_lines@.len() == 0,
    {
        Render::new()
    }
}

/// Where a line with baseline `y` is, or would go, among ascending lines:
/// every line before the place has a lower baseline, none after it does.
pub open spec fn place_of(lines: Seq<TextLineView>, y: u32, k: int) -> bool {
    &&& 0 <= k <= lines.len()
    &&& forall|j: int| 0 <= j < k ==> lines[j].y < y
    &&& forall|j: int| k <= j < lines.len() ==> lines[j].y >= y
}

/// The lines after a fragment with baseline `y` was drawn: it is appended to
/// the line with that baseline, or starts a new line in its place.
pub open spec fn with_fragment(lines: Seq<TextLineView>, y: u32, frag: FragmentView) -> Seq<
    TextLineView,
> {
    let k = choose|k: int| place_of(lines, y, k);
    if k < lines.len() && lines[k].y == y {
        lines.update(k, TextLineView { y, frags: lines[k].frags.push(frag) })
    } else {
        lines.insert(k, TextLineView { y, frags: seq![frag] })
    }
}

/// Whether some line has the baseline `y`.
pub open spec fn has_baseline(lines: Seq<TextLineView>, y: u32) -> bool {
    exists|i: int| 0 <= i < lines.len() && #[trigger] lines[i].y == y
}

/// The place of a baseline among ascending lines is unique.
proof fn lemma_place_unique(lines: Seq<TextLineView>, y: u32, k1: int, k2: int)
    requires
        place_of(lines, y, k1),
        place_of(lines, y, k2),
    ensures
        k1 == k2,
{
    if k1 < k2 {
        assert(lines[k1].y >= y);
        assert(lines[k1].y < y);
    } else if k2 < k1 {
        assert(lines[k2].y >= y);
        assert(lines[k2].y < y);
    }
}

/// Finds by binary search where the baseline `y` is or would go.
fn find_place(lines: &Vec<TextLine>, y: u32) -> (k: usize)
    requires
        lines_ascending(lines_view(lines@)),
    ensures
        place_of(lines_view(lines@), y, k as int),
{
    let ghost v = lines_view(lines@);
    let mut lo: usize = 0;
    let mut hi: usize = lines.len();
    while lo < hi
        invariant
            v == lines_view(lines@),
            lines_ascending(v),
            0 <= lo <= hi <= lines@.len(),
            forall|j: int| 0 <= j < lo ==> v[j].y < y,
            forall|j: int| hi <= j < v.len() ==> v[j].y >= y,
        decreases hi - lo,
    {
        let mid = lo + (hi - lo) / 2;
        assert(v[mid as int].y == lines@[mid as int].y);
        if lines[mid].y < y {
            lo = mid + 1;
        } else {
            hi = mid;
        }
    }
    lo
}

impl Render {
    /// Records a glyph drawn with its origin at `(x, y)`: `advance_width` is
    /// the glyph's advance in thousandths of a point, so that the fragment
    /// ends at `x + advance_width / 10`.
    pub fn add_glyph(&mut self, x: u32, y: u32, advance_width: u32, font: Font, text: String)
        requires
            old(self).wf(),
            x + advance_width / 10 <= u32::MAX,
        ensures
            final(self).wf(),
            lines_view(final(self).text_lines@) == with_fragment(
                lines_view(old(self).text_lines@),
                y,
                FragmentView { x, x2: (x + advance_width / 10) as u32, font, text: text@ },
            ),
            final(self).text_lines@.len() == old(self).text_lines@.len() + (if has_baseline(
                lines_view(old(self).text_lines@),
                y,
            ) {
                0int
            } else {
                1int
            }),
            final(self).horiz_lines@ == old(self).horiz_lines@,
            final(self).vert_lines@ == old(self).vert_lines@,
    {
        let x2 = x + advance_width / 10;
        let frag = Fragment { x, x2, font, text };
        let ghost old_v = lines_view(self.text_lines@);
        let k = find_place(&self.text_lines, y);
        proof {
            lemma_place_unique(old_v, y, k as int, choose|k: int| place_of(old_v, y, k));
        }
        if k < self.text_lines.len() && self.text_lines[k].y == y {
            let mut line = TextLine { y: 0, frags: Vec::new() };
            self.text_lines.set_and_swap(k, &mut line);
            line.frags.push(frag);
            let ghost new_line = line@;
            assert(new_line.frags =~= old_v[k as int].frags.push(frag@));
            self.text_lines.set(k, line);
            assert(lines_view(self.text_lines@) =~= old_v.update(k as int, new_line));
            assert(old_v[k as int].y == y);
            assert(has_baseline(old_v, y));
            assert forall|i: int| 0 <= i < self.text_lines@.len() implies (
            #[trigger] self.text_lines@[i]).frags@.len() > 0 by {
                if i != k {
                    assert(self.text_lines@[i] == old(self).text_lines@[i]);
                }
            }
        } else {
            let mut frags = Vec::new();
            frags.push(frag);
            let line = TextLine { y, frags };
            assert(line@.frags =~= seq![frag@]);
            self.text_lines.insert(k, line);
            assert(lines_view(self.text_lines@) =~= old_v.insert(k as int, line@));
            let ghost nv = old_v.insert(k as int, line@);
            assert(!has_baseline(old_v, y)) by {
                if has_baseline(old_v, y) {
                    let i = choose|i: int| 0 <= i < old_v.len() && #[trigger] old_v[i].y == y;
                    if i < k {
                    } else if i > k {
                        assert(old_v[k as int].y < old_v[i].y);
                    }
                }
            }
            assert forall|i: int| 0 <= i < self.text_lines@.len() implies (
            #[trigger] self.text_lines@[i]).frags@.len() > 0 by {
                if i < k {
                    assert(self.text_lines@[i] == old(self).text_lines@[i]);
                } else if i > k {
                    assert(self.text_lines@[i] == old(self).text_lines@[i - 1]);
                }
            }
            assert forall|i: int, j: int| 0 <= i < j < nv.len() implies nv[i].y < nv[j].y by {
                if j < k {
                } else if j == k {
                } else if i < k {
                } else if i == k {
                    assert(nv[j] == old_v[j - 1]);
                    assert(old_v[k as int].y >= y);
                    if j - 1 > k {
                        assert(old_v[k as int].y < old_v[j - 1].y);
                    }
                } else {
                }
            }
        }
    }

    /// Records one straight segment of a drawn path, from `(x1, y1)` to
    /// `(x2, y2)`: a vertical one becomes a vertical ruling line, a
    /// horizontal one a horizontal rule at its height; others are part of a
    /// figure and are dropped.
    pub fn add_path_line(&mut self, x1: u32, y1: u32, x2: u32, y2: u32)
        ensures
            old(self).wf() ==> final(self).wf(),
            final(self).text_lines@ == old(self).text_lines@,
            x1 == x2 ==> final(self).vert_lines@ == old(self).vert_lines@.push(
                Line {
                    x1,
                    y1: if y1 <= y2 { y1 } else { y2 },
                    y2: if y1 <= y2 { y2 } else { y1 },
                },
            ) && final(self).horiz_lines@ == old(self).horiz_lines@,
            x1 != x2 && y1 == y2 ==> final(self).horiz_lines@ == old(self).horiz_lines@.push(y1)
                && final(self).vert_lines@ == old(self).vert_lines@,
            x1 != x2 && y1 != y2 ==> final(self).horiz_lines@ == old(self).horiz_lines@
                && final(self).vert_lines@ == old(self).vert_lines@,
    {
        if x1 == x2 {
            let lo = if y1 <= y2 { y1 } else { y2 };
            let hi = if y1 <= y2 { y2 } else { y1 };
            self.vert_lines.push(Line { x1, y1: lo, y2: hi });
        } else if y1 == y2 {
            self.horiz_lines.push(y1);
        }
    }
}

} // verus!
