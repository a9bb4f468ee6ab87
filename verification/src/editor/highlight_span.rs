//! Syntax highlighting: the byte ranges of the Typst syntax tree that get a
//! colour, in the order a depth-first walk of the tree meets them.
use vstd::prelude::*;
use core::ops::Range;

verus! {

/// An opaque Typst syntax node with its position in the source.
#[verifier::external_type_specification]
#[verifier::external_body]
pub struct ExLinkedNode<'a>(typst_syntax::LinkedNode<'a>);

/// A colour as red, green, blue and alpha bytes.
#[derive(Debug, Clone, Copy, PartialEq, Eq)]
pub struct Color {
    pub r: u8,
    pub g: u8,
    pub b: u8,
    pub a: u8,
}

impl Color {
    /// An opaque colour.
    pub fn from_rgb(r: u8, g: u8, b: u8) -> (c: Color)
        ensures
            c == (Color { r, g, b, a: 255 }),
    {
        Color { r, g, b, a: 255 }
    }
}

/// The highlighting classes of Typst syntax, in the order Typst lists them.
#[derive(Debug, Clone, Copy, PartialEq, Eq)]
pub enum HighlightTag {
    Comment,
    Punctuation,
    Escape,
    Strong,
    Emph,
    Link,
    Raw,
    Label,
    Ref,
    Heading,
    ListMarker,
    ListTerm,
    MathDelimiter,
    MathOperator,
    Keyword,
    Operator,
    Number,
    String,
    Function,
    Interpolated,
    Error,
}

/// The class at position `i` of Typst's list of highlighting classes.
pub open spec fn tag_at(i: u8) -> HighlightTag {
    if i == 0 {
        HighlightTag::Comment
    } else if i == 1 {
        HighlightTag::Punctuation
    } else if i == 2 {
        HighlightTag::Escape
    } else if i == 3 {
        HighlightTag::Strong
    } else if i == 4 {
        HighlightTag::Emph
    } else if i == 5 {
        HighlightTag::Link
    } else if i == 6 {
        HighlightTag::Raw
    } else if i == 7 {
        HighlightTag::Label
    } else if i == 8 {
        HighlightTag::Ref
    } else if i == 9 {
        HighlightTag::Heading
    } else if i == 10 {
        HighlightTag::ListMarker
    } else if i == 11 {
        HighlightTag::ListTerm
    } else if i == 12 {
        HighlightTag::MathDelimiter
    } else if i == 13 {
        HighlightTag::MathOperator
    } else if i == 14 {
        HighlightTag::Keyword
    } else if i == 15 {
        HighlightTag::Operator
    } else if i == 16 {
        HighlightTag::Number
    } else if i == 17 {
        HighlightTag::String
    } else if i == 18 {
        HighlightTag::Function
    } else if i == 19 {
        HighlightTag::Interpolated
    } else {
        HighlightTag::Error
    }
}

impl HighlightTag {
    /// The class at position `i` of Typst's list of highlighting classes
    /// (`Error`, the last, for any position past the end).
    pub fn from_index(i: u8) -> (t: HighlightTag)
        ensures
            t == tag_at(i),
    {
        match i {
            0 => HighlightTag::Comment,
            1 => HighlightTag::Punctuation,
            2 => HighlightTag::Escape,
            3 => HighlightTag::Strong,
            4 => HighlightTag::Emph,
            5 => HighlightTag::Link,
            6 => HighlightTag::Raw,
            7 => HighlightTag::Label,
            8 => HighlightTag::Ref,
            9 => HighlightTag::Heading,
            10 => HighlightTag::ListMarker,
            11 => HighlightTag::ListTerm,
            12 => HighlightTag::MathDelimiter,
            13 => HighlightTag::MathOperator,
            14 => HighlightTag::Keyword,
            15 => HighlightTag::Operator,
            16 => HighlightTag::Number,
            17 => HighlightTag::String,
            18 => HighlightTag::Function,
            19 => HighlightTag::Interpolated,
            _ => HighlightTag::Error,
        }
    }
}

/// Position `i` of Typst's list of highlighting classes gives the `i`-th
/// class in Typst's declaration order: Comment, Punctuation, Escape, Strong,
/// Emph, Link, Raw, Label, Ref, Heading, ListMarker, ListTerm,
/// MathDelimiter, MathOperator, Keyword, Operator, Number, String, Function,
/// Interpolated, Error; every position past the end gives Error. So a Typst
/// keyword is coloured (203, 166, 247) and a string literal
/// (166, 227, 161).
pub proof fn lemma_tag_order()
    ensures
        forall|i: u8|
            i < 21 ==> #[trigger] tag_at(i) == seq![
                HighlightTag::Comment,
                HighlightTag::Punctuation,
                HighlightTag::Escape,
                HighlightTag::Strong,
                HighlightTag::Emph,
                HighlightTag::Link,
                HighlightTag::Raw,
                HighlightTag::Label,
                HighlightTag::Ref,
                HighlightTag::Heading,
                HighlightTag::ListMarker,
                HighlightTag::ListTerm,
                HighlightTag::MathDelimiter,
                HighlightTag::MathOperator,
                HighlightTag::Keyword,
                HighlightTag::Operator,
                HighlightTag::Number,
                HighlightTag::String,
                HighlightTag::Function,
                HighlightTag::Interpolated,
                HighlightTag::Error,
            ][i as int],
        forall|i: u8| i >= 21 ==> #[trigger] tag_at(i) == HighlightTag::Error,
        tag_color(tag_at(14)) == (Color { r: 203, g: 166, b: 247, a: 255 }),
        tag_color(tag_at(17)) == (Color { r: 166, g: 227, b: 161, a: 255 }),
{
}

/// The colour of a highlighting class (a Catppuccin Mocha palette).
pub open spec fn tag_color(tag: HighlightTag) -> Color {
    match tag {
        HighlightTag::Comment => Color { r: 88, g: 91, b: 112, a: 255 },
        HighlightTag::Keyword => Color { r: 203, g: 166, b: 247, a: 255 },
        HighlightTag::String => Color { r: 166, g: 227, b: 161, a: 255 },
        HighlightTag::Number => Color { r: 250, g: 179, b: 135, a: 255 },
        HighlightTag::Heading => Color { r: 137, g: 180, b: 250, a: 255 },
        HighlightTag::Strong => Color { r: 249, g: 226, b: 175, a: 255 },
        HighlightTag::Emph => Color { r: 245, g: 194, b: 231, a: 255 },
        HighlightTag::Link => Color { r: 116, g: 199, b: 236, a: 255 },
        HighlightTag::Raw => Color { r: 148, g: 226, b: 213, a: 255 },
        HighlightTag::Label | HighlightTag::Ref => Color { r: 180, g: 190, b: 254, a: 255 },
        HighlightTag::Error => Color { r: 243, g: 139, b: 168, a: 255 },
        _ => Color { r: 205, g: 214, b: 244, a: 255 },
    }
}

/// The colour of a highlighting class.
pub fn tag_to_color(tag: HighlightTag) -> (c: Color)
    ensures
        c == tag_color(tag),
{
    match tag {
        HighlightTag::Comment => Color::from_rgb(88, 91, 112),
        HighlightTag::Keyword => Color::from_rgb(203, 166, 247),
        HighlightTag::String => Color::from_rgb(166, 227, 161),
        HighlightTag::Number => Color::from_rgb(250, 179, 135),
        HighlightTag::Heading => Color::from_rgb(137, 180, 250),
        HighlightTag::Strong => Color::from_rgb(249, 226, 175),
        HighlightTag::Emph => Color::from_rgb(245, 194, 231),
        HighlightTag::Link => Color::from_rgb(116, 199, 236),
        HighlightTag::Raw => Color::from_rgb(148, 226, 213),
        HighlightTag::Label | HighlightTag::Ref => Color::from_rgb(180, 190, 254),
        HighlightTag::Error => Color::from_rgb(243, 139, 168),
        _ => Color::from_rgb(205, 214, 244),
    }
}

/// A coloured byte range of the source.
pub struct HighlightSpan {
    pub byte_range: Range<usize>,
    pub color: Color,
}

/// A node of the syntax tree as the highlighter sees it: its byte range in
/// the source, its highlighting class if it has one, and its children.
pub struct SyntaxTree {
    pub start: usize,
    pub end: usize,
    pub tag: Option<HighlightTag>,
    pub children: Vec<SyntaxTree>,
}

/// The syntax tree that Typst's parser and highlighter give for `source`.
pub uninterp spec fn typst_syntax_tree(source: Seq<char>) -> SyntaxTree;

/// The span a node contributes, if it has a highlighting class.
pub open spec fn node_span(t: SyntaxTree) -> Seq<(int, int, Color)> {
    match t.tag {
        Some(tag) => seq![(t.start as int, t.end as int, tag_color(tag))],
        None => Seq::empty(),
    }
}

/// The spans of a tree: the node's own, then those of each child in turn.
pub open spec fn tree_spans(t: SyntaxTree) -> Seq<(int, int, Color)>
    decreases t,
{
    node_span(t) + forest_spans(t.children@)
}

/// The spans of a sequence of trees, one tree after the other.
pub open spec fn forest_spans(ts: Seq<SyntaxTree>) -> Seq<(int, int, Color)>
    decreases ts,
{
    if ts.len() == 0 {
        Seq::empty()
    } else {
        forest_spans(ts.drop_last()) + tree_spans(ts.last())
    }
}

/// A span as `(start, end, colour)`.
pub open spec fn span_view(s: HighlightSpan) -> (int, int, Color) {
    (s.byte_range.start as int, s.byte_range.end as int, s.color)
}

/// Spans as `(start, end, colour)` triples.
pub open spec fn spans_view(s: Seq<HighlightSpan>) -> Seq<(int, int, Color)> {
    s.map_values(|x: HighlightSpan| span_view(x))
}

/// `typst_syntax::parse` followed by a walk of the resulting tree: each
/// node's byte range, the class `typst_syntax::highlight` gives it, and its
/// children. The result is named [`typst_syntax_tree`]; nothing more about
/// it is stated.
#[verifier::external_body]
fn parse_syntax_tree(source: &str) -> (t: SyntaxTree)
    ensures
        t == typst_syntax_tree(source@),
{
    let root = typst_syntax::parse(source);
    syntax_tree_of(&typst_syntax::LinkedNode::new(&root))
}

/// Converts a Typst syntax node and its descendants into a [`SyntaxTree`],
/// node for node (used by [`parse_syntax_tree`] only).
#[verifier::external_body]
fn syntax_tree_of(node: &typst_syntax::LinkedNode) -> SyntaxTree {
    let range = node.range();
    SyntaxTree {
        start: range.start,
        end: range.end,
        tag: typst_syntax::highlight(node).map(|tag| HighlightTag::from_index(tag as u8)),
        children: node.children().map(|child| syntax_tree_of(&child)).collect(),
    }
}

/// The highlighting spans of `source`.
pub fn compute_highlight(source: &str) -> (r: Vec<HighlightSpan>)
    ensures
        spans_view(r@) == tree_spans(typst_syntax_tree(source@)),
{
    let root = parse_syntax_tree(source);
    highlight_tree(&root)
}

/// The highlighting spans of a syntax tree.
pub fn highlight_tree(root: &SyntaxTree) -> (r: Vec<HighlightSpan>)
    ensures
        spans_view(r@) == tree_spans(*root),
{
    let mut result = Vec::new();
    assert(spans_view(result@) =~= Seq::<(int, int, Color)>::empty());
    visit(root, &mut result);
    assert(spans_view(result@) =~= tree_spans(*root));
    result
}

proof fn lemma_spans_view_push(s: Seq<HighlightSpan>, x: HighlightSpan)
    ensures
        spans_view(s.push(x)) == spans_view(s).push(span_view(x)),
{
    assert(spans_view(s.push(x)) =~= spans_view(s).push(span_view(x)));
}

/// Appends the spans of `node` to `out`.
fn visit(node: &SyntaxTree, out: &mut Vec<HighlightSpan>)
    ensures
        spans_view(final(out)@) == spans_view(old(out)@) + tree_spans(*node),
    decreases node,
{
    let ghost start = spans_view(out@);
    if let Some(tag) = node.tag {
        let span = HighlightSpan {
            byte_range: Range { start: node.start, end: node.end },
            color: tag_to_color(tag),
        };
        proof {
            lemma_spans_view_push(out@, span);
        }
        out.push(span);
    }
    let ghost mid = spans_view(out@);
    assert(mid == start + node_span(*node));
    // Always descend into the children.
    let mut i: usize = 0;
    assert(node.children@.take(0) =~= Seq::<SyntaxTree>::empty());
    assert(mid + forest_spans(node.children@.take(0)) =~= mid);
    while i < node.children.len()
        invariant
            i <= node.children@.len(),
            spans_view(out@) == mid + forest_spans(node.children@.take(i as int)),
        decreases node.children@.len() - i,
    {
        visit(&node.children[i], out);
        i = i + 1;
        assert(node.children@.take(i as int).drop_last() =~= node.children@.take(i - 1));
        assert(node.children@.take(i as int).last() == node.children@[i - 1]);
    }
    assert(node.children@.take(node.children@.len() as int) =~= node.children@);
}

} // verus!
