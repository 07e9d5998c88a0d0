use luaux_graft::formatter::{contains_unescaped, indented, string_document, Layout};
use luaux_graft::graft::{respond, Response};
use luaux_graft::json::Json;
use luaux_graft::protocol::{Document, ParseMode, Request};
use luaux_graft::settings::{FormatOptions, QuoteStyle, TextWrap};

fn options() -> FormatOptions {
    FormatOptions::default()
}

fn lit(text: &str) -> Document {
    Document::Literal(text.to_string())
}

fn seq(parts: Vec<Document>) -> Document {
    Document::Concatenate(parts)
}

fn group(inner: Document) -> Document {
    Document::Group(Box::new(inner))
}

fn indent(inner: Document) -> Document {
    Document::Indent(Box::new(inner))
}

#[test]
fn format_hands_statements_to_the_host() {
    let document = luaux_graft::formatter::format("return 1\n", options()).unwrap();
    assert_eq!(
        format!("{document:?}"),
        format!(
            "{:?}",
            seq(vec![
                Document::Host { start: 0, end: 8, parse: ParseMode::Block },
                Document::Source(8, 9),
            ])
        )
    );
}

#[test]
fn format_lays_out_self_closing_markup() {
    let source = "local React = require('@react')\nreturn <Frame Visible Visible />\n";
    let document = luaux_graft::formatter::format(source, options()).unwrap();
    let expected = seq(vec![
        Document::Host { start: 0, end: 31, parse: ParseMode::Block },
        Document::Source(31, 39),
        group(seq(vec![
            lit("<Frame"),
            indent(seq(vec![Document::Line, lit("Visible"), Document::Line, lit("Visible")])),
            Document::Line,
            lit("/>"),
        ])),
        Document::Source(64, 65),
    ]);
    assert_eq!(format!("{document:?}"), format!("{expected:?}"));
}

#[test]
fn format_lays_out_children_and_requotes_strings() {
    let source = "local x = <Frame>\n\t<TextLabel Text='hi' />\n</Frame>\n";
    let document = luaux_graft::formatter::format(source, options()).unwrap();
    let expected = seq(vec![
        Document::Source(0, 10),
        group(seq(vec![
            group(seq(vec![lit("<Frame"), Document::Nil, Document::Soft, lit(">")])),
            indent(seq(vec![
                Document::Soft,
                group(seq(vec![
                    lit("<TextLabel"),
                    indent(seq(vec![
                        Document::Line,
                        seq(vec![
                            lit("Text="),
                            seq(vec![lit("\""), Document::Source(36, 38), lit("\"")]),
                        ]),
                    ])),
                    Document::Line,
                    lit("/>"),
                ])),
            ])),
            Document::Soft,
            lit("</Frame>"),
        ])),
        Document::Source(51, 52),
    ]);
    assert_eq!(format!("{document:?}"), format!("{expected:?}"));
}

#[test]
fn format_refuses_a_source_that_does_not_parse() {
    assert_eq!(
        luaux_graft::formatter::format("return <Frame", options()).unwrap_err(),
        "byte 7: expected expression"
    );
}

#[test]
fn format_request_reads_the_options() {
    let request = Request {
        version: 1,
        hook: "format".to_string(),
        source: "return <Frame />".to_string(),
        configuration: vec![(
            "format".to_string(),
            Json::Object(vec![("self_closing_space".to_string(), Json::Bool(false))]),
        )],
        settings: Some(Json::Object(Vec::new())),
    };
    let mut log = Vec::new();
    match respond(&request, &mut log).unwrap() {
        Response::Formatted(format) => {
            assert_eq!(format.version, 1);
            let expected = seq(vec![
                Document::Source(0, 7),
                group(seq(vec![lit("<Frame"), Document::Nil, Document::Nil, lit("/>")])),
            ]);
            assert_eq!(format!("{:?}", format.document), format!("{expected:?}"));
        }
        other => panic!("{other:?}"),
    }
    let mut without_settings = Request { settings: None, ..request };
    assert_eq!(
        respond(&without_settings, &mut log).unwrap_err(),
        "expected a protocol 1 format request"
    );
    without_settings.settings = Some(Json::Null);
    without_settings.version = 3;
    assert_eq!(
        respond(&without_settings, &mut log).unwrap_err(),
        "expected a protocol 1 format request"
    );
}

#[test]
fn contains_unescaped_skips_escaped_quotes() {
    assert!(contains_unescaped(b"a\"b", b'"'));
    assert!(!contains_unescaped(b"a\\\"b", b'"'));
    assert!(!contains_unescaped(b"\\", b'"'));
    assert!(!contains_unescaped(b"", b'"'));
    assert!(contains_unescaped(b"\\\\'", b'\''));
}

#[test]
fn string_document_requotes_when_it_can() {
    let source = "x='it'";
    let mut layout = Layout { source, options: options() };
    assert_eq!(
        format!("{:?}", string_document(&layout, 2, 6)),
        format!("{:?}", seq(vec![lit("\""), Document::Source(3, 5), lit("\"")]))
    );
    layout.options.attribute_quotes = QuoteStyle::Single;
    assert_eq!(format!("{:?}", string_document(&layout, 2, 6)), "Source(2, 6)");
    layout.options.attribute_quotes = QuoteStyle::Preserve;
    assert_eq!(format!("{:?}", string_document(&layout, 2, 6)), "Source(2, 6)");
    let quoted = Layout { source: "x='a\"b'", options: options() };
    assert_eq!(format!("{:?}", string_document(&quoted, 2, 7)), "Source(2, 7)");
}

#[test]
fn indented_counts_tabs_and_spaces() {
    let mut layout = Layout { source: "a\n\t    x", options: options() };
    assert_eq!(
        format!("{:?}", indented(&layout, 7, Document::Nil)),
        format!("{:?}", indent(indent(Document::Nil)))
    );
    layout.options.indent_width = 2;
    assert_eq!(
        format!("{:?}", indented(&layout, 7, Document::Nil)),
        format!("{:?}", indent(indent(indent(Document::Nil))))
    );
    assert_eq!(format!("{:?}", indented(&layout, 1, Document::Hard)), "Hard");
}

#[test]
fn preserved_text_keeps_its_lines() {
    let mut o = options();
    o.text_wrap = TextWrap::Preserve;
    let source = "local x = <Frame>a b\n  c</Frame>\n";
    let document = luaux_graft::formatter::format(source, o).unwrap();
    let text = format!("{document:?}");
    assert!(text.contains("Concatenate([Source(17, 20), Hard, Source(23, 24)])"), "{text}");
    let filled = format!("{:?}", luaux_graft::formatter::format(source, options()).unwrap());
    assert!(
        filled.contains("Concatenate([Concatenate([Source(17, 18), Group(Concatenate([Line, Source(19, 20)]))]), Group(Concatenate([Line, Source(23, 24)]))])"),
        "{filled}"
    );
}

fn check_within(document: &Document, n: u32) {
    match document {
        Document::Source(start, end) | Document::Host { start, end, .. } => {
            assert!(start <= end && *end <= n, "{start}..{end} of {n}");
        }
        Document::Group(inner) | Document::Indent(inner) => check_within(inner, n),
        Document::Concatenate(parts) => parts.iter().for_each(|part| check_within(part, n)),
        _ => {}
    }
}

#[test]
fn formatted_documents_stay_in_the_source() {
    for source in [
        "return 1\n",
        "local React = require('@react')\nlocal t = {}\nreturn <Frame {...t} Size={1} ={t.x}>  a  b\n  c {<TextLabel />} </Frame>\n",
        "\tlocal x = <Frame>\n\t\t<!-- note -->\n\n\t\t{y}</Frame>",
    ] {
        if let Ok(document) = luaux_graft::formatter::format(source, options()) {
            check_within(&document, source.len() as u32);
        }
    }
}

#[test]
fn layout_file_lays_out_a_parsed_source() {
    let source = "return 1\n";
    let file = luaux_graft::source::parse(source).unwrap();
    let layout = Layout { source, options: options() };
    assert_eq!(
        format!("{:?}", luaux_graft::formatter::layout_file(&layout, &file)),
        "Concatenate([Host { start: 0, end: 8, parse: Block }, Source(8, 9)])"
    );
}

#[test]
fn formatted_parts_cover_the_source_in_order() {
    let source = "local React = require('@react')\nlocal a = <Frame />\nprint(a)\nreturn <></>\n";
    let file = luaux_graft::source::parse(source).unwrap();
    let document = luaux_graft::formatter::format(source, options()).unwrap();
    let parts = match document {
        Document::Concatenate(parts) => parts,
        other => panic!("{other:?}"),
    };
    let mut segments = file.segments.iter();
    let mut ranges = Vec::new();
    for part in &parts {
        match part {
            Document::Source(a, b) => {
                assert!(a < b);
                ranges.push((*a as usize, *b as usize));
            }
            Document::Host { start, end, parse: ParseMode::Block } => {
                ranges.push((*start as usize, *end as usize));
            }
            _ => {
                let segment = segments.next().unwrap();
                ranges.push((segment.start, segment.end));
            }
        }
    }
    assert!(segments.next().is_none());
    assert_eq!(ranges.first().unwrap().0, 0);
    assert_eq!(ranges.last().unwrap().1, source.len());
    for pair in ranges.windows(2) {
        assert_eq!(pair[0].1, pair[1].0);
    }
}
