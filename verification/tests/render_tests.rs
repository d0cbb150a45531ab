use x86md::render::{Font, FontCache, Fragment, Line, Render};

fn frag(x: u32, x2: u32, font: Font, text: &str) -> Fragment {
    Fragment { x, x2, font, text: text.to_string() }
}

#[test]
fn glyphs_group_by_baseline_in_ascending_order() {
    let mut r = Render::new();
    r.add_glyph(500, 100, 300, Font::Body, "a".to_string());
    r.add_glyph(500, 50, 120, Font::Code, "b".to_string());
    r.add_glyph(530, 100, 300, Font::Body, "c".to_string());
    r.add_glyph(10, 75, 0, Font::Body, "d".to_string());
    let ys: Vec<u32> = r.text_lines.iter().map(|l| l.y).collect();
    assert_eq!(ys, vec![50, 75, 100]);
    assert_eq!(r.text_lines[0].frags, vec![frag(500, 512, Font::Code, "b")]);
    assert_eq!(r.text_lines[1].frags, vec![frag(10, 10, Font::Body, "d")]);
    assert_eq!(
        r.text_lines[2].frags,
        vec![frag(500, 530, Font::Body, "a"), frag(530, 560, Font::Body, "c")]
    );
    assert!(r.horiz_lines.is_empty());
    assert!(r.vert_lines.is_empty());
}

#[test]
fn advance_width_is_counted_in_tenths() {
    let mut r = Render::default();
    r.add_glyph(7, 1, 19, Font::Body, "x".to_string());
    assert_eq!(r.text_lines[0].frags[0].x2, 8);
}

#[test]
fn path_segments_become_ruling_lines() {
    let mut r = Render::new();
    r.add_path_line(40, 90, 40, 10);
    r.add_path_line(10, 33, 80, 33);
    r.add_path_line(1, 2, 3, 4);
    r.add_path_line(5, 6, 5, 6);
    assert_eq!(
        r.vert_lines,
        vec![Line { x1: 40, y1: 10, y2: 90 }, Line { x1: 5, y1: 6, y2: 6 }]
    );
    assert_eq!(r.horiz_lines, vec![33]);
    assert!(r.text_lines.is_empty());
}

#[test]
fn fonts_are_recognised_by_name_and_scale() {
    assert_eq!(Font::from_name(Some("NeoSansIntelMedium"), 12), Some(Font::Heading));
    assert_eq!(Font::from_name(Some("NeoSansIntelMedium"), 10), Some(Font::SubHeading));
    assert_eq!(Font::from_name(Some("NeoSansIntelMedium"), 9), Some(Font::TableHeading));
    assert_eq!(Font::from_name(Some("NeoSansIntel"), 8), Some(Font::Footer));
    assert_eq!(Font::from_name(Some("Verdana"), 3), Some(Font::Body));
    assert_eq!(Font::from_name(Some("Verdana,Italic"), 77), Some(Font::Body));
    assert_eq!(Font::from_name(Some("NeoSansIntel"), 9), Some(Font::Code));
    assert_eq!(Font::from_name(Some("NeoSansIntel,Italic"), 9), Some(Font::Code));
    assert_eq!(Font::from_name(Some("Arial"), 8), Some(Font::Unknown));
    assert_eq!(Font::from_name(None, 1234), Some(Font::Unknown));
}

#[test]
fn unknown_fonts_are_refused() {
    assert_eq!(Font::from_name(Some("NeoSansIntelMedium"), 11), None);
    assert_eq!(Font::from_name(Some("NeoSansIntel,Italic"), 8), None);
    assert_eq!(Font::from_name(Some("Arial"), 9), None);
    assert_eq!(Font::from_name(Some("Courier"), 9), None);
    assert_eq!(Font::from_name(Some(""), 9), None);
}

#[test]
fn known_fonts_give_their_role() {
    assert_eq!(Font::for_name(Some("NeoSansIntelMedium"), 12), Font::Heading);
    assert_eq!(Font::for_name(Some("Verdana"), 5), Font::Body);
    assert_eq!(Font::for_name(Some("NeoSansIntel,Italic"), 9), Font::Code);
    assert_eq!(Font::for_name(None, 0), Font::Unknown);
}

#[test]
fn a_new_baseline_adds_a_line_and_a_known_one_does_not() {
    let mut r = Render::new();
    r.add_glyph(0, 20, 10, Font::Body, "a".to_string());
    assert_eq!(r.text_lines.len(), 1);
    r.add_glyph(5, 20, 10, Font::Body, "b".to_string());
    assert_eq!(r.text_lines.len(), 1);
    r.add_glyph(5, 10, 10, Font::Body, "c".to_string());
    assert_eq!(r.text_lines.len(), 2);
    assert!(r.text_lines.iter().all(|l| !l.frags.is_empty()));
    assert_eq!(r.text_lines[0].y, 10);
    assert_eq!(r.text_lines[1].frags.len(), 2);
}

#[test]
fn font_roles_are_remembered_by_key_and_scale() {
    let mut c = FontCache::new();
    assert_eq!(c.get(7, 9), None);
    assert_eq!(c.role(Some(7), Some("NeoSansIntel"), 9), Some(Font::Code));
    assert_eq!(c.get(7, 9), Some(Font::Code));
    // A remembered role is given back whatever name comes with the key.
    assert_eq!(c.role(Some(7), Some("Courier"), 9), Some(Font::Code));
    assert_eq!(c.font_id(Some(7), None, 9), Font::Code);
    // The same key at another scale is another entry.
    assert_eq!(c.get(7, 8), None);
    assert_eq!(c.role(Some(7), Some("NeoSansIntel"), 8), Some(Font::Footer));
    assert_eq!(c.get(7, 8), Some(Font::Footer));
    assert_eq!(c.get(7, 9), Some(Font::Code));
}

#[test]
fn unknown_fonts_are_not_remembered() {
    let mut c = FontCache::new();
    assert_eq!(c.role(Some(3), Some("Courier"), 9), None);
    assert_eq!(c.get(3, 9), None);
    assert_eq!(c.role(Some(3), Some("Verdana"), 9), Some(Font::Body));
    assert_eq!(c.get(3, 9), Some(Font::Body));
}

#[test]
fn fonts_without_a_key_are_not_remembered() {
    let mut c = FontCache::new();
    assert_eq!(c.role(None, Some("Verdana"), 4), Some(Font::Body));
    assert_eq!(c.font_id(None, Some("Arial"), 8), Font::Unknown);
    assert_eq!(c.role(None, Some("Arial"), 9), None);
    assert_eq!(c.get(0, 4), None);
}
