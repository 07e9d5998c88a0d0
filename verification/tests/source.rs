use luaux_graft::markup::{MarkupNode, SourceSpan};
use luaux_graft::protocol::{offset, Document};
use luaux_graft::source::{brace_span, hole_inner, parse, parse_range, trimmed, RangeKind};

#[test]
fn trimmed_drops_white_space_at_both_ends() {
    assert_eq!(trimmed("  ab  ", 0, 6), (2, 4));
    assert_eq!(trimmed("  ab  ", 3, 6), (3, 4));
    assert_eq!(trimmed(" \t\n ", 0, 4), (0, 0));
    assert_eq!(trimmed("x   y", 1, 4), (1, 1));
    assert_eq!(trimmed("\u{3000}a\u{a0}", 0, 6), (3, 4));
}

#[test]
fn hole_inner_is_inside_the_braces() {
    assert_eq!(hole_inner("{ x }", SourceSpan { start: 0, end: 5 }), (2, 3));
    assert_eq!(hole_inner("{}", SourceSpan { start: 0, end: 2 }), (1, 1));
}

#[test]
fn brace_span_starts_at_the_first_brace() {
    let source = "Size={x}";
    assert_eq!(
        brace_span(source, SourceSpan { start: 0, end: 8 }),
        SourceSpan { start: 5, end: 8 }
    );
    assert_eq!(
        brace_span(source, SourceSpan { start: 0, end: 4 }),
        SourceSpan { start: 0, end: 4 }
    );
}

#[test]
fn parse_range_tells_markup_from_luau() {
    assert!(matches!(parse_range("x", 1, 1), Some(RangeKind::Luau)));
    assert!(matches!(parse_range("return 1", 0, 8), Some(RangeKind::Luau)));
    assert!(matches!(
        parse_range("{<Frame />}", 1, 10),
        Some(RangeKind::Markup(MarkupNode::Element(_)))
    ));
    assert!(parse_range("1 +", 0, 3).is_none());
}

#[test]
fn parse_finds_markup_holes_and_statements() {
    let source = "local x = 1\nreturn <Frame Size={ x }>{y}</Frame>\n";
    let file = parse(source).unwrap();
    assert_eq!(file.segments.len(), 1);
    assert_eq!((file.segments[0].start, file.segments[0].end), (19, 48));
    assert_eq!(file.hole_starts, vec![33, 38]);
    assert_eq!(file.statements[0], SourceSpan { start: 0, end: 11 });
}

#[test]
fn parse_reports_luau_errors() {
    assert_eq!(parse("local = 1").unwrap_err().is_empty(), false);
}

#[test]
fn offsets_and_documents() {
    assert_eq!(offset(7), 7u32);
    assert_eq!(format!("{:?}", Document::source(1, 2)), "Source(1, 2)");
    assert_eq!(format!("{:?}", Document::literal("x".to_string())), "Literal(\"x\")");
    assert_eq!(format!("{:?}", Document::group(Document::Nil)), "Group(Nil)");
    assert_eq!(format!("{:?}", Document::indent(Document::Line)), "Indent(Line)");
    assert_eq!(
        format!("{:?}", Document::concatenate(vec![Document::Soft, Document::Hard])),
        "Concatenate([Soft, Hard])"
    );
    assert_eq!(
        format!("{:?}", Document::host(0, 3)),
        "Host { start: 0, end: 3, parse: Block }"
    );
    assert_eq!(
        format!("{:?}", Document::expression(4, 5)),
        "Host { start: 4, end: 5, parse: Expression }"
    );
}

#[test]
fn markup_nodes_follow_the_segments() {
    let file = parse("local a = <A />\nlocal b = <></>\n").unwrap();
    let nodes = file.markup_nodes();
    assert_eq!(nodes.len(), 2);
    assert!(matches!(nodes[0], MarkupNode::Element(_)));
    assert!(matches!(nodes[1], MarkupNode::Fragment(_)));
}
