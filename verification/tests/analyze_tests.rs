use x86md::analyze::{
    analyze, join_paragraphs, merge_docs, try_analyze, try_join_paragraphs, Block, Doc,
};
use x86md::fragments::{join_fragments, try_join_fragments};
use x86md::render::{Font, Fragment, Line, Render, TextLine};
use x86md::vertical::{simplify_vert, try_simplify_vert};

fn frag(x: u32, x2: u32, font: Font, text: &str) -> Fragment {
    Fragment { x, x2, font, text: text.to_string() }
}

fn line(y: u32, frags: Vec<Fragment>) -> TextLine {
    TextLine { y, frags }
}

fn text(s: &str) -> Block {
    Block::Text(s.to_string())
}

#[test]
fn close_fragments_join_in_x_order() {
    let mut lines = vec![line(
        10,
        vec![
            frag(100, 150, Font::Body, "c"),
            frag(0, 50, Font::Body, "a"),
            frag(70, 90, Font::Body, "b"),
        ],
    )];
    assert!(try_join_fragments(&mut lines));
    assert_eq!(lines, vec![line(10, vec![frag(0, 50, Font::Body, "abc")])]);
}

#[test]
fn distant_fragments_stay_apart() {
    let mut lines = vec![line(
        10,
        vec![
            frag(130, 150, Font::Body, "c"),
            frag(0, 50, Font::Body, "a"),
            frag(70, 90, Font::Body, "b"),
        ],
    )];
    assert!(try_join_fragments(&mut lines));
    assert_eq!(
        lines,
        vec![line(10, vec![frag(0, 50, Font::Body, "ab"), frag(130, 150, Font::Body, "c")])]
    );
}

#[test]
fn equal_x_fragments_keep_their_order() {
    let mut lines = vec![line(
        10,
        vec![frag(5, 5, Font::Body, "p"), frag(5, 5, Font::Body, "q"), frag(0, 5, Font::Body, "o")],
    )];
    assert!(try_join_fragments(&mut lines));
    assert_eq!(lines, vec![line(10, vec![frag(0, 5, Font::Body, "opq")])]);
}

#[test]
fn footnote_star_lines_are_dropped() {
    let mut lines = vec![
        line(30, vec![frag(0, 10, Font::Unknown, "*")]),
        line(20, vec![frag(0, 10, Font::Body, "*")]),
        line(10, vec![frag(0, 10, Font::Unknown, "*"), frag(100, 110, Font::Unknown, "*")]),
    ];
    assert!(try_join_fragments(&mut lines));
    assert_eq!(lines, vec![line(20, vec![frag(0, 10, Font::Body, "*")])]);
}

#[test]
fn unknown_font_joins_any_span() {
    let mut lines = vec![line(
        10,
        vec![frag(0, 50, Font::Code, "x"), frag(55, 60, Font::Unknown, "?")],
    )];
    assert!(try_join_fragments(&mut lines));
    assert_eq!(lines, vec![line(10, vec![frag(0, 50, Font::Code, "x?")])]);
}

#[test]
fn mixed_fonts_in_a_line_fault() {
    let mut lines = vec![line(
        10,
        vec![frag(0, 50, Font::Code, "x"), frag(500, 600, Font::Body, "y")],
    )];
    assert!(!try_join_fragments(&mut lines));
}

#[test]
fn a_line_without_fragments_faults() {
    let mut lines = vec![line(10, vec![])];
    assert!(!try_join_fragments(&mut lines));
}

#[test]
fn vertical_lines_reduce_to_leftmost_spans() {
    let spans = try_simplify_vert(vec![
        Line { x1: 500, y1: 0, y2: 100 },
        Line { x1: 300, y1: 50, y2: 150 },
    ]);
    assert_eq!(
        spans,
        Some(vec![Line { x1: 500, y1: 0, y2: 50 }, Line { x1: 300, y1: 50, y2: 150 }])
    );
}

#[test]
fn the_leftmost_line_takes_over_where_one_ends() {
    let spans = try_simplify_vert(vec![
        Line { x1: 100, y1: 0, y2: 60 },
        Line { x1: 200, y1: 40, y2: 90 },
    ]);
    assert_eq!(
        spans,
        Some(vec![Line { x1: 100, y1: 0, y2: 60 }, Line { x1: 200, y1: 60, y2: 90 }])
    );
}

#[test]
fn each_stretch_reports_its_leftmost_line() {
    let spans = simplify_vert(vec![
        Line { x1: 100, y1: 0, y2: 100 },
        Line { x1: 50, y1: 40, y2: 60 },
    ]);
    assert_eq!(
        spans,
        vec![
            Line { x1: 100, y1: 0, y2: 40 },
            Line { x1: 50, y1: 40, y2: 60 },
            Line { x1: 100, y1: 60, y2: 100 },
        ]
    );
}

#[test]
fn lines_at_one_x_make_one_span() {
    let spans = simplify_vert(vec![
        Line { x1: 100, y1: 0, y2: 50 },
        Line { x1: 100, y1: 50, y2: 80 },
        Line { x1: 300, y1: 20, y2: 70 },
    ]);
    assert_eq!(spans, vec![Line { x1: 100, y1: 0, y2: 80 }]);
}

#[test]
fn reordered_lines_give_the_same_spans() {
    let a = vec![
        Line { x1: 100, y1: 0, y2: 100 },
        Line { x1: 50, y1: 40, y2: 60 },
        Line { x1: 400, y1: 200, y2: 300 },
    ];
    let mut b = a.clone();
    b.reverse();
    b.push(a[0]);
    assert_eq!(simplify_vert(a), simplify_vert(b));
}

#[test]
fn spans_reduce_to_themselves() {
    let once = simplify_vert(vec![
        Line { x1: 100, y1: 0, y2: 100 },
        Line { x1: 50, y1: 40, y2: 60 },
        Line { x1: 70, y1: 90, y2: 95 },
        Line { x1: 10, y1: 150, y2: 151 },
    ]);
    assert_eq!(simplify_vert(once.clone()), once);
}

#[test]
fn tiny_spans_are_dropped() {
    assert_eq!(try_simplify_vert(vec![Line { x1: 10, y1: 0, y2: 1 }]), Some(vec![]));
    assert_eq!(try_simplify_vert(vec![]), Some(vec![]));
}

#[test]
fn lines_of_some_height_are_always_reduced() {
    let lines = vec![
        Line { x1: 30, y1: 0, y2: 1 },
        Line { x1: 30, y1: 1, y2: 2 },
        Line { x1: 5, y1: 10, y2: 40 },
        Line { x1: 9, y1: 10, y2: 40 },
        Line { x1: 2, y1: 40, y2: 41 },
        Line { x1: 70, y1: 20, y2: 90 },
    ];
    let spans = try_simplify_vert(lines.clone());
    assert_eq!(
        spans,
        Some(vec![
            Line { x1: 30, y1: 0, y2: 2 },
            Line { x1: 5, y1: 10, y2: 40 },
            Line { x1: 70, y1: 41, y2: 90 },
        ])
    );
    let once = simplify_vert(lines);
    assert_eq!(simplify_vert(once.clone()), once);
}

#[test]
fn a_line_of_no_height_faults() {
    assert_eq!(try_simplify_vert(vec![Line { x1: 1, y1: 5, y2: 5 }]), None);
}

#[test]
fn paragraph_lines_merge_with_a_space() {
    let lines = vec![
        line(1000, vec![frag(500, 550, Font::Body, "Hello")]),
        line(900, vec![frag(502, 560, Font::Body, "world")]),
    ];
    assert_eq!(try_join_paragraphs(lines, vec![], vec![]), Some(vec![text("Hello world")]));
}

#[test]
fn no_space_after_hyphen_slash_or_space() {
    let lines = vec![
        line(1000, vec![frag(500, 550, Font::Body, "Hel-")]),
        line(900, vec![frag(505, 560, Font::Body, "lo/")]),
        line(800, vec![frag(500, 560, Font::Body, "x ")]),
        line(700, vec![frag(500, 560, Font::Body, "y")]),
    ];
    assert_eq!(try_join_paragraphs(lines, vec![], vec![]), Some(vec![text("Hel-lo/x y")]));
}

#[test]
fn code_lines_merge_with_indentation() {
    let lines = vec![
        line(1000, vec![frag(460, 550, Font::Code, "mov eax")]),
        line(900, vec![frag(560, 600, Font::Code, "ret")]),
    ];
    assert_eq!(
        try_join_paragraphs(lines, vec![], vec![]),
        Some(vec![Block::Code("mov eax\n  ret".to_string())])
    );
}

#[test]
fn code_line_of_several_fragments_joins_with_two_spaces() {
    let lines = vec![
        line(1000, vec![frag(460, 480, Font::Code, "a"), frag(700, 720, Font::Code, "b")]),
        line(900, vec![frag(510, 600, Font::Code, "c")]),
    ];
    assert_eq!(
        try_join_paragraphs(lines, vec![], vec![]),
        Some(vec![Block::Code("a  b\n c".to_string())])
    );
}

#[test]
fn code_left_of_the_margin_faults() {
    let lines = vec![
        line(1000, vec![frag(460, 550, Font::Code, "a")]),
        line(900, vec![frag(400, 600, Font::Code, "b")]),
    ];
    assert_eq!(try_join_paragraphs(lines, vec![], vec![]), None);
}

#[test]
fn a_horizontal_rule_stops_merging() {
    let lines = vec![
        line(1000, vec![frag(500, 550, Font::Body, "a")]),
        line(900, vec![frag(500, 560, Font::Body, "b")]),
    ];
    assert_eq!(try_join_paragraphs(lines, vec![950], vec![]), Some(vec![text("a"), text("b")]));
}

#[test]
fn columns_must_line_up_within_ten() {
    let lines = vec![
        line(1000, vec![frag(505, 550, Font::Body, "a")]),
        line(900, vec![frag(495, 560, Font::Body, "b")]),
    ];
    assert_eq!(try_join_paragraphs(lines, vec![], vec![]), Some(vec![text("a"), text("b")]));
}

#[test]
fn distant_lines_stay_apart() {
    let lines = vec![
        line(1000, vec![frag(500, 550, Font::Body, "a")]),
        line(870, vec![frag(500, 560, Font::Body, "b")]),
    ];
    assert_eq!(try_join_paragraphs(lines, vec![], vec![]), Some(vec![text("a"), text("b")]));
}

#[test]
fn table_rows_collect_into_one_table() {
    let lines = vec![
        line(1000, vec![frag(500, 550, Font::TableHeading, "Op"), frag(800, 850, Font::TableHeading, "Desc")]),
        line(700, vec![frag(500, 550, Font::Body, "a1"), frag(800, 850, Font::Body, "b1")]),
        line(560, vec![frag(500, 550, Font::Body, "a2"), frag(800, 850, Font::Body, "b2")]),
    ];
    let verts = vec![Line { x1: 400, y1: 0, y2: 2000 }];
    let row = |font: Font, a: &str, b: &str| (font, vec![a.to_string(), b.to_string()]);
    assert_eq!(
        try_join_paragraphs(lines, vec![], verts),
        Some(vec![Block::Table(vec![
            row(Font::TableHeading, "Op", "Desc"),
            row(Font::Body, "a1 a2", "b1 b2"),
        ])])
    );
}

#[test]
fn figure_lines_are_dropped() {
    let lines = vec![
        line(1000, vec![frag(500, 550, Font::Body, "a")]),
        line(500, vec![frag(500, 550, Font::Body, "fig")]),
    ];
    let verts = vec![Line { x1: 600, y1: 400, y2: 600 }];
    assert_eq!(try_join_paragraphs(lines, vec![], verts), Some(vec![text("a")]));
}

#[test]
fn blocks_follow_the_font_of_a_line() {
    let lines = vec![
        line(5000, vec![frag(500, 550, Font::Heading, "ADD")]),
        line(4000, vec![frag(500, 550, Font::SubHeading, "Description")]),
        line(3000, vec![frag(500, 550, Font::Footer, "page 3")]),
        line(2000, vec![frag(500, 550, Font::Code, "add")]),
    ];
    assert_eq!(
        try_join_paragraphs(lines, vec![], vec![]),
        Some(vec![
            Block::Heading(1, "ADD".to_string()),
            Block::Heading(2, "Description".to_string()),
            Block::Code("add".to_string()),
        ])
    );
}

#[test]
fn a_lone_fragment_in_an_unknown_font_faults() {
    let lines = vec![line(1000, vec![frag(500, 550, Font::Unknown, "?")])];
    assert_eq!(try_join_paragraphs(lines, vec![], vec![]), None);
}

#[test]
fn a_row_in_an_unknown_font_is_left_out() {
    let lines = vec![line(1000, vec![frag(500, 550, Font::Unknown, "?"), frag(900, 950, Font::Unknown, "!")])];
    assert_eq!(try_join_paragraphs(lines, vec![], vec![]), Some(vec![]));
}

#[test]
fn a_page_without_lines_faults() {
    assert_eq!(try_join_paragraphs(vec![], vec![], vec![]), None);
    assert_eq!(try_analyze(Render::new()), None);
}

#[test]
fn a_rendered_page_is_analysed_top_to_bottom() {
    let mut r = Render::new();
    r.add_glyph(500, 1000, 300, Font::Body, "H".to_string());
    r.add_glyph(530, 1000, 300, Font::Body, "i".to_string());
    r.add_glyph(500, 900, 300, Font::Body, "there".to_string());
    r.add_glyph(500, 2000, 300, Font::Heading, "TITLE".to_string());
    r.add_path_line(10, 1500, 900, 1500);
    let blocks = analyze(r);
    assert_eq!(blocks, vec![Block::Heading(1, "TITLE".to_string()), text("Hi there")]);
}

#[test]
fn try_analyze_reports_faults() {
    let mut r = Render::new();
    r.add_glyph(500, 1000, 300, Font::Unknown, "?".to_string());
    assert_eq!(try_analyze(r), None);
    let mut r = Render::new();
    r.add_glyph(500, 1000, 300, Font::Body, "ok".to_string());
    assert_eq!(try_analyze(r), Some(vec![text("ok")]));
}

#[test]
fn untitled_pages_join_the_doc_before() {
    let docs = vec![
        Doc::for_page(1, vec![Block::Heading(1, "A".to_string()), text("a")]),
        Doc::for_page(2, vec![text("b")]),
        Doc::for_page(3, vec![Block::Heading(1, "C".to_string())]),
        Doc::for_page(4, vec![Block::Heading(2, "d".to_string())]),
    ];
    assert_eq!(docs[1].title, None);
    assert_eq!(docs[3].title, None);
    assert_eq!(
        merge_docs(docs),
        vec![
            Doc {
                page: 1,
                title: Some("A".to_string()),
                blocks: vec![Block::Heading(1, "A".to_string()), text("a"), text("b")],
            },
            Doc {
                page: 3,
                title: Some("C".to_string()),
                blocks: vec![Block::Heading(1, "C".to_string()), Block::Heading(2, "d".to_string())],
            },
        ]
    );
}

#[test]
fn a_leading_untitled_page_starts_a_doc() {
    let docs = vec![Doc::for_page(7, vec![text("x")]), Doc::for_page(8, vec![text("y")])];
    assert_eq!(
        merge_docs(docs),
        vec![Doc { page: 7, title: None, blocks: vec![text("x"), text("y")] }]
    );
    assert_eq!(merge_docs(vec![]), vec![]);
}

#[test]
fn a_merge_that_leaves_text_behind_faults() {
    let lines = vec![
        line(1000, vec![frag(500, 550, Font::Body, "a")]),
        line(900, vec![frag(500, 550, Font::Body, "b"), frag(900, 950, Font::Body, "c")]),
    ];
    assert_eq!(try_join_paragraphs(lines, vec![], vec![]), None);
}

#[test]
fn a_code_line_of_several_fragments_below_code_faults() {
    let lines = vec![
        line(1000, vec![frag(460, 550, Font::Code, "a")]),
        line(900, vec![frag(460, 550, Font::Code, "b"), frag(900, 950, Font::Code, "c")]),
    ];
    assert_eq!(try_join_paragraphs(lines, vec![], vec![]), None);
}

#[test]
fn merging_into_empty_text_faults() {
    let lines = vec![
        line(1000, vec![frag(500, 550, Font::Body, "")]),
        line(900, vec![frag(500, 550, Font::Body, "b")]),
    ];
    assert_eq!(try_join_paragraphs(lines, vec![], vec![]), None);
}

#[test]
fn a_row_of_mixed_fonts_faults() {
    let lines = vec![line(1000, vec![frag(500, 550, Font::Body, "a"), frag(900, 950, Font::Code, "b")])];
    assert_eq!(try_join_paragraphs(lines, vec![], vec![]), None);
}

#[test]
fn fonts_must_match_to_merge_columns() {
    let lines = vec![
        line(1000, vec![frag(500, 550, Font::Body, "a")]),
        line(900, vec![frag(500, 550, Font::TableHeading, "b")]),
    ];
    assert_eq!(try_join_paragraphs(lines, vec![], vec![]), Some(vec![text("a"), text("b")]));
}

#[test]
fn a_line_can_merge_past_a_line_it_does_not_fit() {
    let lines = vec![
        line(1000, vec![frag(500, 550, Font::Body, "a")]),
        line(960, vec![frag(700, 750, Font::Body, "x")]),
        line(900, vec![frag(500, 550, Font::Body, "b")]),
    ];
    assert_eq!(try_join_paragraphs(lines, vec![], vec![]), Some(vec![text("a b"), text("x")]));
}

#[test]
fn fragments_join_when_the_line_can_be_joined() {
    let mut lines = vec![line(10, vec![frag(60, 70, Font::Body, "b"), frag(0, 50, Font::Body, "a")])];
    join_fragments(&mut lines);
    assert_eq!(lines, vec![line(10, vec![frag(0, 50, Font::Body, "ab")])]);
}

#[test]
fn paragraphs_join_when_the_page_can_be_joined() {
    let lines = vec![
        line(1000, vec![frag(500, 550, Font::Body, "Hello")]),
        line(900, vec![frag(502, 560, Font::Body, "world")]),
    ];
    assert_eq!(join_paragraphs(lines, vec![], vec![]), vec![text("Hello world")]);
}

#[test]
fn text_beside_an_ended_table_border_is_dropped_as_figure_text() {
    let lines = vec![
        line(1500, vec![frag(700, 750, Font::Body, "caption")]),
        line(1000, vec![frag(500, 550, Font::Body, "a")]),
    ];
    let verts = simplify_vert(vec![
        Line { x1: 400, y1: 900, y2: 1100 },
        Line { x1: 600, y1: 0, y2: 2000 },
    ]);
    assert_eq!(join_paragraphs(lines, vec![], verts), vec![text("a")]);
}

#[test]
fn reordered_rules_give_the_same_blocks() {
    let page = |horiz: Vec<u32>, vert: Vec<Line>| {
        let mut r = Render::new();
        r.add_glyph(500, 1000, 300, Font::Body, "a".to_string());
        r.add_glyph(500, 900, 300, Font::Body, "b".to_string());
        r.add_glyph(500, 800, 300, Font::Body, "c".to_string());
        r.horiz_lines = horiz;
        r.vert_lines = vert;
        analyze(r)
    };
    let v = vec![Line { x1: 400, y1: 0, y2: 2000 }, Line { x1: 300, y1: 850, y2: 950 }];
    let mut v2 = v.clone();
    v2.reverse();
    assert_eq!(page(vec![950, 850], v), page(vec![850, 950], v2));
}

#[test]
fn each_span_is_leftmost_over_its_whole_height() {
    let lines = vec![
        Line { x1: 100, y1: 0, y2: 100 },
        Line { x1: 50, y1: 40, y2: 60 },
        Line { x1: 80, y1: 50, y2: 70 },
        Line { x1: 120, y1: 90, y2: 200 },
    ];
    let spans = simplify_vert(lines.clone());
    assert_eq!(
        spans,
        vec![
            Line { x1: 100, y1: 0, y2: 40 },
            Line { x1: 50, y1: 40, y2: 60 },
            Line { x1: 80, y1: 60, y2: 70 },
            Line { x1: 100, y1: 70, y2: 100 },
            Line { x1: 120, y1: 100, y2: 200 },
        ]
    );
    for s in &spans {
        for y in s.y1..s.y2 {
            let leftmost = lines
                .iter()
                .filter(|l| l.y1 <= y && y < l.y2)
                .map(|l| l.x1)
                .min();
            assert_eq!(leftmost, Some(s.x1));
        }
    }
}

#[test]
fn a_page_is_analysed_step_by_step() {
    let page = || {
        let mut r = Render::new();
        r.add_glyph(500, 1000, 300, Font::Body, "a".to_string());
        r.add_glyph(530, 1000, 300, Font::Body, "b".to_string());
        r.add_glyph(500, 900, 300, Font::Body, "c".to_string());
        r.add_glyph(500, 700, 300, Font::Body, "d".to_string());
        r.horiz_lines = vec![950, 800];
        r.vert_lines = vec![Line { x1: 400, y1: 0, y2: 2000 }];
        r
    };

    let r = page();
    let mut lines = r.text_lines;
    lines.reverse();
    join_fragments(&mut lines);
    let mut horiz = r.horiz_lines;
    horiz.sort();
    let verts = simplify_vert(r.vert_lines);
    let stepwise = join_paragraphs(lines, horiz, verts);

    assert_eq!(stepwise, vec![text("ab"), text("c"), text("d")]);
    assert_eq!(analyze(page()), stepwise);
}
