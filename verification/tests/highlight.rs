use typstty::editor::app::{build_segments, text_color};
use typstty::editor::highlight_span::{
    compute_highlight, highlight_tree, tag_to_color, Color, HighlightSpan, HighlightTag,
    SyntaxTree,
};
use typstty::text_buffer::lines::Lines;

fn rgb(r: u8, g: u8, b: u8) -> Color {
    Color { r, g, b, a: 255 }
}

fn spans_of(source: &str) -> Vec<(usize, usize, Color)> {
    compute_highlight(source)
        .iter()
        .map(|s| (s.byte_range.start, s.byte_range.end, s.color))
        .collect()
}

fn span(start: usize, end: usize, color: Color) -> HighlightSpan {
    HighlightSpan { byte_range: start..end, color }
}

#[test]
fn tag_colours() {
    assert_eq!(tag_to_color(HighlightTag::Comment), rgb(88, 91, 112));
    assert_eq!(tag_to_color(HighlightTag::Keyword), rgb(203, 166, 247));
    assert_eq!(tag_to_color(HighlightTag::String), rgb(166, 227, 161));
    assert_eq!(tag_to_color(HighlightTag::Number), rgb(250, 179, 135));
    assert_eq!(tag_to_color(HighlightTag::Heading), rgb(137, 180, 250));
    assert_eq!(tag_to_color(HighlightTag::Strong), rgb(249, 226, 175));
    assert_eq!(tag_to_color(HighlightTag::Emph), rgb(245, 194, 231));
    assert_eq!(tag_to_color(HighlightTag::Link), rgb(116, 199, 236));
    assert_eq!(tag_to_color(HighlightTag::Raw), rgb(148, 226, 213));
    assert_eq!(tag_to_color(HighlightTag::Label), rgb(180, 190, 254));
    assert_eq!(tag_to_color(HighlightTag::Ref), rgb(180, 190, 254));
    assert_eq!(tag_to_color(HighlightTag::Error), rgb(243, 139, 168));
    assert_eq!(tag_to_color(HighlightTag::Punctuation), rgb(205, 214, 244));
    assert_eq!(tag_to_color(HighlightTag::Function), rgb(205, 214, 244));
    assert_eq!(text_color(), rgb(205, 214, 244));
}

#[test]
fn tag_from_index_follows_typst_order() {
    assert_eq!(HighlightTag::from_index(0), HighlightTag::Comment);
    assert_eq!(HighlightTag::from_index(9), HighlightTag::Heading);
    assert_eq!(HighlightTag::from_index(20), HighlightTag::Error);
    assert_eq!(HighlightTag::from_index(200), HighlightTag::Error);
}

#[test]
fn highlight_of_plain_text_is_empty() {
    assert!(spans_of("just words").is_empty());
    assert!(spans_of("").is_empty());
}

#[test]
fn highlight_of_strong_text() {
    assert_eq!(spans_of("*bold*"), vec![(0, 6, rgb(249, 226, 175))]);
}

#[test]
fn highlight_of_heading_and_comment() {
    assert_eq!(
        spans_of("= Title\n// note"),
        vec![(0, 7, rgb(137, 180, 250)), (8, 15, rgb(88, 91, 112))]
    );
}

#[test]
fn highlight_lists_outer_span_before_inner() {
    assert_eq!(
        spans_of("*a _b_*"),
        vec![(0, 7, rgb(249, 226, 175)), (3, 6, rgb(245, 194, 231))]
    );
}

#[test]
fn highlight_tree_walks_depth_first() {
    let leaf = |start, end, tag| SyntaxTree { start, end, tag, children: Vec::new() };
    let root = SyntaxTree {
        start: 0,
        end: 10,
        tag: None,
        children: vec![
            SyntaxTree {
                start: 0,
                end: 5,
                tag: Some(HighlightTag::Strong),
                children: vec![leaf(1, 2, Some(HighlightTag::Number)), leaf(2, 3, None)],
            },
            leaf(6, 9, Some(HighlightTag::Comment)),
        ],
    };
    let got: Vec<(usize, usize, Color)> = highlight_tree(&root)
        .iter()
        .map(|s| (s.byte_range.start, s.byte_range.end, s.color))
        .collect();
    assert_eq!(
        got,
        vec![
            (0, 5, rgb(249, 226, 175)),
            (1, 2, rgb(250, 179, 135)),
            (6, 9, rgb(88, 91, 112))
        ]
    );
}

#[test]
fn segments_cut_line_around_spans() {
    let red = rgb(255, 0, 0);
    let blue = rgb(0, 0, 255);
    let spans = vec![span(3, 4, blue), span(0, 1, red)];
    let segs = build_segments("abcdef", 0, &[0], &spans);
    assert_eq!(
        segs,
        vec![("a", red), ("bc", text_color()), ("d", blue), ("ef", text_color())]
    );
}

#[test]
fn segments_of_nested_spans_repeat_inner_text() {
    let red = rgb(255, 0, 0);
    let blue = rgb(0, 0, 255);
    let spans = vec![span(1, 5, red), span(2, 3, blue)];
    let segs = build_segments("abcdef", 0, &[0], &spans);
    assert_eq!(
        segs,
        vec![("a", text_color()), ("bcde", red), ("c", blue), ("f", text_color())]
    );
}

#[test]
fn segments_of_span_across_lines() {
    let c = rgb(1, 2, 3);
    let spans = vec![span(1, 4, c)];
    let offsets = [0, 3];
    assert_eq!(
        build_segments("ab", 0, &offsets, &spans),
        vec![("a", text_color()), ("b", c)]
    );
    assert_eq!(
        build_segments("cd", 1, &offsets, &spans),
        vec![("c", c), ("d", text_color())]
    );
}

#[test]
fn segments_of_empty_or_plain_line() {
    assert_eq!(build_segments("", 0, &[0], &[]), vec![("", text_color())]);
    assert_eq!(build_segments("xyz", 0, &[0], &[]), vec![("xyz", text_color())]);
}

#[test]
fn segments_of_highlighted_document() {
    let mut b = Lines::new();
    b.load_from_str("x *bold* y\nz");
    let full = b.full_text();
    let spans = compute_highlight(&full);
    let offsets = b.line_byte_offsets();
    let lines = b.lines();
    assert_eq!(
        build_segments(&lines[0], 0, &offsets, &spans),
        vec![
            ("x ", text_color()),
            ("*bold*", rgb(249, 226, 175)),
            (" y", text_color())
        ]
    );
    assert_eq!(
        build_segments(&lines[1], 1, &offsets, &spans),
        vec![("z", text_color())]
    );
}

#[test]
fn segments_of_disjoint_spans_tile_the_line() {
    let red = rgb(255, 0, 0);
    let blue = rgb(0, 0, 255);
    let line = "héllo wörld";
    let spans = vec![span(7, 13, blue), span(0, 1, red), span(1, 3, blue)];
    let segs = build_segments(line, 0, &[0], &spans);
    let joined: String = segs.iter().map(|(t, _)| *t).collect();
    assert_eq!(joined, line);
    assert!(segs.iter().all(|(t, _)| !t.is_empty()));
    assert_eq!(
        segs,
        vec![("h", red), ("é", blue), ("llo ", text_color()), ("wörld", blue)]
    );
}
