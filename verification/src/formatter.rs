//! Lays out LuauX markup as a document for the host's layout engine; Luau
//! statements and expressions are handed back to the host.
use crate::markup::{attribute_ok, attributes_ok, byte_len, child_ok, children_ok, node_ok, span_ok, hole_ok, spec_brace_span, MarkupAttribute, MarkupChild, MarkupElement, MarkupNode, MarkupValue, SourceSpan};
use crate::protocol::{lemma_docs_push, Doc, Document, ParseMode};
use crate::settings::{FormatOptions, QuoteStyle, TextWrap};
use crate::source::{brace_span, hole_inner, lemma_attributes_ok_prefix, lemma_children_ok_prefix, node_fits, parse_range, range_kind, spec_hole_inner, RangeKind};
use crate::text::{count_byte, count_in, find_line_start, line_start, ends_with_white, is_ascii_space, leading_white, leading_white_len, starts_with_white, trailing_white, trailing_white_len, white_prefix, white_suffix};
use vstd::prelude::*;
use vstd::string::StringSliceAdditionalSpecFns;
use vstd::utf8::encode_utf8;
use crate::source::{parse, parse_file, segment_ok, FileModel, Segment, SourceFile};

verus! {

pub open spec fn at(start: int, end: int) -> Doc {
    Doc::Source(start as nat, end as nat)
}

pub open spec fn lit(text: Seq<char>) -> Doc {
    Doc::Literal(text)
}

pub open spec fn cat(parts: Seq<Doc>) -> Doc {
    Doc::Concatenate(parts)
}

pub open spec fn grp(inner: Doc) -> Doc {
    Doc::Group(Box::new(inner))
}

pub open spec fn ind(inner: Doc) -> Doc {
    Doc::Indent(Box::new(inner))
}

/// Line feeds between `from` and `to`, none when `from` is past `to`.
pub open spec fn newlines_between(src: Seq<u8>, from: int, to: int) -> nat {
    if from <= to {
        count_byte(src.subrange(from, to), 0x0A)
    } else {
        0
    }
}

/// Indentation levels before `start` on its line: one per tab, one per
/// `indent_width` spaces.
pub open spec fn indent_levels(src: Seq<u8>, o: FormatOptions, start: int) -> nat {
    let indentation = src.subrange(line_start(src, start), start);
    let width: nat = if o.indent_width >= 1 {
        o.indent_width as nat
    } else {
        1
    };
    count_byte(indentation, 0x09) + count_byte(indentation, 0x20) / width
}

/// `inner` wrapped in `levels` indents.
pub open spec fn indent_times(inner: Doc, levels: nat) -> Doc
    decreases levels,
{
    if levels == 0 {
        inner
    } else {
        ind(indent_times(inner, (levels - 1) as nat))
    }
}

/// Whether the node's source ends with `/>`.
pub open spec fn closes_itself(src: Seq<u8>, span: SourceSpan) -> bool {
    span.end - span.start >= 2 && src[span.end - 2] == 0x2F && src[span.end - 1] == 0x3E
}

/// The first line feed in `i..b`, or `b`.
pub open spec fn next_newline(src: Seq<u8>, i: int, b: int) -> int
    decreases b - i,
{
    if i >= b {
        b
    } else if src[i] == 0x0A {
        i
    } else {
        next_newline(src, i + 1, b)
    }
}

/// A single space between two non-space bytes: a place where filled text may
/// break.
pub open spec fn breaks_at(src: Seq<u8>, k: int) -> bool {
    src[k] == 0x20 && !is_ascii_space(src[k - 1]) && !is_ascii_space(src[k + 1])
}

/// The words of `word_start..end`, breaking at the positions `k..stop`.
pub open spec fn split_words(src: Seq<u8>, k: int, stop: int, word_start: int, end: int) -> Seq<
    (int, int),
>
    decreases stop - k,
{
    if k >= stop {
        seq![(word_start, end)]
    } else if breaks_at(src, k) {
        seq![(word_start, k)] + split_words(src, k + 1, stop, k + 1, end)
    } else {
        split_words(src, k + 1, stop, word_start, end)
    }
}

/// The pieces one line of text contributes, and whether it makes the text stick
/// to its neighbours: white space leading the first line or ending the last.
pub open spec fn line_parts(
    src: Seq<u8>,
    o: FormatOptions,
    line_begin: int,
    line_end: int,
    first: bool,
    last: bool,
) -> (Seq<(int, int)>, bool) {
    let line = src.subrange(line_begin, line_end);
    let start = if first {
        line_begin
    } else {
        line_begin + leading_white(line)
    };
    let end = if last {
        line_end
    } else {
        line_end - trailing_white(line)
    };
    if start < end {
        let sticky = (first && white_prefix(line) > 0) || (last && white_suffix(line) > 0);
        let parts = if o.text_wrap == TextWrap::Preserve {
            seq![(start, end)]
        } else {
            split_words(src, start + 1, end - 1, start, end)
        };
        (parts, sticky)
    } else {
        (seq![], false)
    }
}

/// The pieces of the lines of `line_begin..b`.
pub open spec fn text_lines(
    src: Seq<u8>,
    o: FormatOptions,
    line_begin: int,
    b: int,
    first: bool,
) -> (Seq<(int, int)>, bool)
    decreases b - line_begin + 1,
{
    let line_end = next_newline(src, line_begin, b);
    let (parts, sticky) = line_parts(src, o, line_begin, line_end, first, line_end >= b);
    if line_end >= b || line_end < line_begin {
        (parts, sticky)
    } else {
        let (rest, rest_sticky) = text_lines(src, o, line_end + 1, b, false);
        (parts + rest, sticky || rest_sticky)
    }
}

/// Text pieces joined by hard breaks (preserved text) or by optional breaks
/// (filled text).
pub open spec fn parts_doc(parts: Seq<(int, int)>, preserve: bool) -> Doc
    decreases parts.len(),
{
    if parts.len() == 0 {
        Doc::Nil
    } else if parts.len() == 1 {
        at(parts[0].0, parts[0].1)
    } else {
        let previous = parts_doc(parts.drop_last(), preserve);
        let part = at(parts.last().0, parts.last().1);
        if preserve {
            cat(seq![previous, Doc::Hard, part])
        } else {
            cat(seq![previous, grp(cat(seq![Doc::Line, part]))])
        }
    }
}

/// A text child's document, and whether it sticks to its neighbours.
pub open spec fn text_doc(src: Seq<u8>, o: FormatOptions, span: SourceSpan) -> (Doc, bool) {
    let (parts, sticky) = text_lines(src, o, span.start as int, span.end as int, true);
    (parts_doc(parts, o.text_wrap == TextWrap::Preserve), sticky)
}

/// Whether `t` holds `q` that no backslash escapes.
pub open spec fn has_unescaped(t: Seq<u8>, q: u8) -> bool
    decreases t.len(),
{
    if t.len() == 0 {
        false
    } else if t[0] == 0x5C {
        t.len() > 2 && has_unescaped(t.skip(2), q)
    } else if t[0] == q {
        true
    } else {
        has_unescaped(t.skip(1), q)
    }
}

pub open spec fn quote_byte(style: QuoteStyle) -> Option<u8> {
    match style {
        QuoteStyle::Double => Some(0x22u8),
        QuoteStyle::Single => Some(0x27u8),
        QuoteStyle::Preserve => None,
    }
}

/// A quoted attribute string: requoted with the preferred quote unless that
/// quote is already there, occurs unescaped inside, or quotes are preserved.
pub open spec fn string_doc(src: Seq<u8>, o: FormatOptions, start: int, end: int) -> Doc {
    match quote_byte(o.attribute_quotes) {
        None => at(start, end),
        Some(q) => if src[start] == q || has_unescaped(src.subrange(start + 1, end - 1), q) {
            at(start, end)
        } else {
            cat(seq![lit(seq![q as char]), at(start + 1, end - 1), lit(seq![q as char])])
        },
    }
}

pub open spec fn self_closing_doc(
    o: FormatOptions,
    opening: Seq<char>,
    attributes: Doc,
    bare: bool,
) -> Doc {
    let separator = if o.self_closing_space && bare {
        lit(" "@)
    } else if o.self_closing_space {
        Doc::Line
    } else if bare {
        Doc::Nil
    } else {
        Doc::Soft
    };
    grp(cat(seq![lit(opening), attributes, separator, lit("/>"@)]))
}

/// What has been laid out of an element's children so far.
pub struct ChildrenState {
    pub content: Seq<Doc>,
    /// The last child was text that sticks to what follows.
    pub glue: bool,
    /// The last child was a comment spanning lines.
    pub broken: bool,
    pub previous_end: Option<int>,
}

pub open spec fn space_doc(o: FormatOptions) -> Doc {
    if o.space_inside_braces {
        lit(" "@)
    } else {
        Doc::Nil
    }
}

/// What a hole's inside is laid out as. Markup is laid out as markup only when
/// its tree lies in the source and the inside is shorter than `bound`;
/// otherwise it stands as written, like text that parses as neither.
pub open spec fn hole_kind(t: Seq<char>, span: SourceSpan, bound: nat) -> Option<RangeKind> {
    let src = encode_utf8(t);
    let (start, end) = spec_hole_inner(src, span);
    match range_kind(t, start, end) {
        Some(RangeKind::Markup(node)) => if node_ok(node, src) && start <= end && end - start
            < bound {
            Some(RangeKind::Markup(node))
        } else {
            None
        },
        other => other,
    }
}

/// `body` between braces, spaced as the options say.
pub open spec fn braced(o: FormatOptions, body: Doc) -> Doc {
    cat(seq![lit("{"@), space_doc(o), body, space_doc(o), lit("}"@)])
}

/// A hole, its inside given by `hole_kind`, with `markup` the document of its
/// inside when that is markup.
pub open spec fn hole_with(
    t: Seq<char>,
    o: FormatOptions,
    span: SourceSpan,
    bound: nat,
    markup: Doc,
) -> Doc {
    let (start, end) = spec_hole_inner(encode_utf8(t), span);
    let body = match hole_kind(t, span, bound) {
        Some(RangeKind::Markup(_)) => markup,
        Some(RangeKind::Luau) => Doc::Host {
            start: start as nat,
            end: end as nat,
            parse: ParseMode::Expression,
        },
        None => at(start, end),
    };
    braced(o, body)
}

/// The hole of an attribute: its span from the first brace on, or the whole
/// span of a spread.
pub open spec fn attribute_hole(src: Seq<u8>, a: MarkupAttribute) -> SourceSpan {
    match a {
        MarkupAttribute::Named { span, .. } => spec_brace_span(src, span),
        MarkupAttribute::Spread { span } => span,
        MarkupAttribute::Inferred { span } => spec_brace_span(src, span),
    }
}

/// The hole of the element's attribute `i`, laid out.
pub open spec fn attribute_hole_doc(
    t: Seq<char>,
    o: FormatOptions,
    element: MarkupElement,
    i: int,
    bound: nat,
) -> Doc
    decreases bound, element, 1int,
{
    let span = attribute_hole(encode_utf8(t), element.attributes@[i]);
    let (start, end) = spec_hole_inner(encode_utf8(t), span);
    let markup = match hole_kind(t, span, bound) {
        Some(RangeKind::Markup(node)) => node_doc(t, o, node, (end - start) as nat),
        _ => Doc::Nil,
    };
    hole_with(t, o, span, bound, markup)
}

/// A child hole, laid out.
pub open spec fn child_hole_doc(t: Seq<char>, o: FormatOptions, child: MarkupChild, bound: nat) -> Doc
    decreases bound, child, 0int,
{
    let span = child.span_of();
    let (start, end) = spec_hole_inner(encode_utf8(t), span);
    let markup = match hole_kind(t, span, bound) {
        Some(RangeKind::Markup(node)) => node_doc(t, o, node, (end - start) as nat),
        _ => Doc::Nil,
    };
    hole_with(t, o, span, bound, markup)
}

/// The element's attribute `i`.
pub open spec fn attribute_doc(
    t: Seq<char>,
    o: FormatOptions,
    element: MarkupElement,
    i: int,
    bound: nat,
) -> Doc
    decreases bound, element, 2int,
{
    match element.attributes@[i] {
        MarkupAttribute::Named { name, value, span } => match value {
            MarkupValue::Boolean => lit(name@),
            MarkupValue::StringLiteral(literal) => cat(
                seq![
                    lit(name@ + "="@),
                    string_doc(encode_utf8(t), o, span.end - byte_len(literal@), span.end as int),
                ],
            ),
            MarkupValue::Expression(_) => cat(
                seq![lit(name@ + "="@), attribute_hole_doc(t, o, element, i, bound)],
            ),
        },
        MarkupAttribute::Spread { .. } => attribute_hole_doc(t, o, element, i, bound),
        MarkupAttribute::Inferred { .. } => cat(
            seq![lit("="@), attribute_hole_doc(t, o, element, i, bound)],
        ),
    }
}

/// The first `k` attributes, each after `separator`.
pub open spec fn attributes_parts(
    t: Seq<char>,
    o: FormatOptions,
    element: MarkupElement,
    k: int,
    separator: Doc,
    bound: nat,
) -> Seq<Doc>
    decreases bound, element, k + 3,
{
    if k <= 0 {
        seq![]
    } else {
        attributes_parts(t, o, element, k - 1, separator, bound) + seq![
            separator,
            attribute_doc(t, o, element, k - 1, bound),
        ]
    }
}

pub open spec fn attributes_doc(t: Seq<char>, o: FormatOptions, element: MarkupElement, bound: nat) -> Doc
    decreases bound, element, element.attributes@.len() + 5,
{
    let n = element.attributes@.len();
    if n == 0 {
        Doc::Nil
    } else {
        let separator = if o.attribute_per_line && n > 1 {
            Doc::Hard
        } else {
            Doc::Line
        };
        ind(cat(attributes_parts(t, o, element, n as int, separator, bound)))
    }
}

pub open spec fn children_state(
    t: Seq<char>,
    o: FormatOptions,
    children: Seq<MarkupChild>,
    bound: nat,
) -> ChildrenState
    decreases bound, children, 1int,
{
    if children.len() == 0 {
        ChildrenState { content: seq![], glue: false, broken: false, previous_end: None }
    } else {
        let src = encode_utf8(t);
        let state = children_state(t, o, children.drop_last(), bound);
        let child = children.last();
        let span = child.span_of();
        let separator = if state.glue {
            Doc::Nil
        } else if state.broken {
            Doc::Hard
        } else if o.blank_lines && state.previous_end is Some && newlines_between(
            src,
            state.previous_end->0,
            span.start as int,
        ) >= 2 {
            Doc::Blank
        } else {
            Doc::Soft
        };
        let next = Some(span.end as int);
        match child {
            MarkupChild::Text { .. } => {
                let (text, glue) = text_doc(src, o, span);
                ChildrenState {
                    content: state.content + seq![separator, text],
                    glue: glue,
                    broken: false,
                    previous_end: next,
                }
            },
            MarkupChild::Node(node) => ChildrenState {
                content: state.content + seq![separator, node_doc(t, o, node, bound)],
                glue: false,
                broken: false,
                previous_end: next,
            },
            MarkupChild::Expression { .. } => ChildrenState {
                content: state.content + seq![separator, child_hole_doc(t, o, child, bound)],
                glue: false,
                broken: false,
                previous_end: next,
            },
            MarkupChild::Comment { span } => {
                let multiline = count_byte(src.subrange(span.start as int, span.end as int), 0x0A)
                    > 0;
                ChildrenState {
                    content: state.content + seq![
                        if multiline {
                            Doc::Hard
                        } else {
                            separator
                        },
                        at(span.start as int, span.end as int),
                    ],
                    glue: false,
                    broken: multiline,
                    previous_end: next,
                }
            },
        }
    }
}

pub open spec fn children_doc(
    t: Seq<char>,
    o: FormatOptions,
    opening: Seq<char>,
    attributes: Doc,
    children: Seq<MarkupChild>,
    closing: Seq<char>,
    bound: nat,
) -> Doc
    decreases bound, children, 2int,
{
    let state = children_state(t, o, children, bound);
    let before_closing = if state.glue {
        Doc::Nil
    } else if state.broken {
        Doc::Hard
    } else {
        Doc::Soft
    };
    grp(
        cat(
            seq![
                grp(
                    cat(
                        seq![
                            lit(opening),
                            attributes,
                            if o.bracket_same_line {
                                Doc::Nil
                            } else {
                                Doc::Soft
                            },
                            lit(">"@),
                        ],
                    ),
                ),
                ind(cat(state.content)),
                before_closing,
                lit(closing),
            ],
        ),
    )
}

pub open spec fn element_doc(t: Seq<char>, o: FormatOptions, element: MarkupElement, bound: nat) -> Doc
    decreases bound, element, element.attributes@.len() + 10,
{
    let opening = "<"@ + element.name@;
    let attributes = attributes_doc(t, o, element, bound);
    if element.children@.len() == 0 && closes_itself(encode_utf8(t), element.span) {
        self_closing_doc(o, opening, attributes, element.attributes@.len() == 0)
    } else {
        children_doc(
            t,
            o,
            opening,
            attributes,
            element.children@,
            "</"@ + element.name@ + ">"@,
            bound,
        )
    }
}

/// The document of a markup node. `bound` exceeds the length of every hole
/// whose inside is laid out as markup again.
pub open spec fn node_doc(t: Seq<char>, o: FormatOptions, node: MarkupNode, bound: nat) -> Doc
    decreases bound, node, 1int,
{
    match node {
        MarkupNode::Element(element) => element_doc(t, o, element, bound),
        MarkupNode::Fragment(fragment) => children_doc(
            t,
            o,
            "<"@,
            Doc::Nil,
            fragment.children@,
            "</>"@,
            bound,
        ),
    }
}

/// Appends `d` to `parts`.
fn push_doc(parts: &mut Vec<Document>, d: Document)
    ensures
        final(parts)@ == old(parts)@.push(d),
        Document::docs(final(parts)@) == Document::docs(old(parts)@).push(d@),
{
    proof {
        lemma_docs_push(parts@, d);
    }
    parts.push(d);
}

fn concat2(a: Document, b: Document) -> (d: Document)
    ensures
        d@ == cat(seq![a@, b@]),
{
    let mut parts: Vec<Document> = Vec::new();
    push_doc(&mut parts, a);
    push_doc(&mut parts, b);
    assert(Document::docs(parts@) =~= seq![a@, b@]);
    Document::concatenate(parts)
}

fn concat3(a: Document, b: Document, c: Document) -> (d: Document)
    ensures
        d@ == cat(seq![a@, b@, c@]),
{
    let mut parts: Vec<Document> = Vec::new();
    push_doc(&mut parts, a);
    push_doc(&mut parts, b);
    push_doc(&mut parts, c);
    assert(Document::docs(parts@) =~= seq![a@, b@, c@]);
    Document::concatenate(parts)
}

fn concat4(a: Document, b: Document, c: Document, e: Document) -> (d: Document)
    ensures
        d@ == cat(seq![a@, b@, c@, e@]),
{
    let mut parts: Vec<Document> = Vec::new();
    push_doc(&mut parts, a);
    push_doc(&mut parts, b);
    push_doc(&mut parts, c);
    push_doc(&mut parts, e);
    assert(Document::docs(parts@) =~= seq![a@, b@, c@, e@]);
    Document::concatenate(parts)
}

fn concat5(a: Document, b: Document, c: Document, e: Document, f: Document) -> (d: Document)
    ensures
        d@ == cat(seq![a@, b@, c@, e@, f@]),
{
    let mut parts: Vec<Document> = Vec::new();
    push_doc(&mut parts, a);
    push_doc(&mut parts, b);
    push_doc(&mut parts, c);
    push_doc(&mut parts, e);
    push_doc(&mut parts, f);
    assert(Document::docs(parts@) =~= seq![a@, b@, c@, e@, f@]);
    Document::concatenate(parts)
}

/// A literal document of `s`.
fn text(s: &str) -> (d: Document)
    ensures
        d@ == lit(s@),
{
    Document::literal(String::from_str(s))
}

fn space(o: FormatOptions) -> (d: Document)
    ensures
        d@ == space_doc(o),
{
    if o.space_inside_braces {
        text(" ")
    } else {
        Document::Nil
    }
}

fn braced_document(o: FormatOptions, body: Document) -> (d: Document)
    ensures
        d@ == braced(o, body@),
{
    concat5(text("{"), space(o), body, space(o), text("}"))
}

/// Whether `bytes` holds `quote` that no backslash escapes.
pub fn contains_unescaped(bytes: &[u8], quote: u8) -> (r: bool)
    ensures
        r == has_unescaped(bytes@, quote),
{
    let mut index: usize = 0;
    assert(bytes@.skip(0) =~= bytes@);
    while index < bytes.len()
        invariant
            index <= bytes@.len(),
            has_unescaped(bytes@, quote) == has_unescaped(bytes@.skip(index as int), quote),
        decreases bytes@.len() - index,
    {
        let ghost rest = bytes@.skip(index as int);
        if bytes[index] == 0x5C {
            assert(rest[0] == 0x5C);
            if bytes.len() - index <= 2 {
                return false;
            }
            assert(rest.skip(2) =~= bytes@.skip(index + 2));
            index = index + 2;
        } else if bytes[index] == quote {
            assert(rest[0] == quote);
            return true;
        } else {
            assert(rest.skip(1) =~= bytes@.skip(index + 1));
            index = index + 1;
        }
    }
    assert(bytes@.skip(index as int).len() == 0);
    false
}

/// The source bytes and options a document is laid out from.
pub struct Layout<'a> {
    pub source: &'a str,
    pub options: FormatOptions,
}

impl<'a> Layout<'a> {
    pub open spec fn src(&self) -> Seq<u8> {
        self.source.spec_bytes()
    }

    /// Offsets into the source fit the protocol.
    pub open spec fn fits_protocol(&self) -> bool {
        self.source.spec_bytes().len() <= u32::MAX
    }
}

/// The quoted attribute string at `start..end`, requoted as the options prefer.
pub fn string_document(layout: &Layout, start: usize, end: usize) -> (d: Document)
    requires
        layout.fits_protocol(),
        start + 2 <= end <= layout.src().len(),
    ensures
        d@ == string_doc(layout.src(), layout.options, start as int, end as int),
{
    let bytes = layout.source.as_bytes();
    let quote: u8 = match layout.options.attribute_quotes {
        QuoteStyle::Double => 0x22,
        QuoteStyle::Single => 0x27,
        QuoteStyle::Preserve => {
            return Document::source(start, end);
        },
    };
    if bytes[start] == quote || contains_unescaped(
        vstd::slice::slice_subrange(bytes, start + 1, end - 1),
        quote,
    ) {
        return Document::source(start, end);
    }
    let mark = if quote == 0x22 {
        "\""
    } else {
        "'"
    };
    proof {
        reveal_strlit("\"");
        reveal_strlit("'");
        assert(mark@ =~= seq![quote as char]);
    }
    concat3(text(mark), Document::source(start + 1, end - 1), text(mark))
}

/// Offset pairs as integers.
pub open spec fn pairs(v: Seq<(usize, usize)>) -> Seq<(int, int)> {
    v.map_values(|p: (usize, usize)| (p.0 as int, p.1 as int))
}

/// Every offset of `v` is at most `n`.
pub open spec fn within(v: Seq<(usize, usize)>, n: int) -> bool {
    forall|j: int| 0 <= j < v.len() ==> #[trigger] v[j].0 <= n && v[j].1 <= n
}

proof fn lemma_pairs_push(v: Seq<(usize, usize)>, p: (usize, usize))
    ensures
        pairs(v.push(p)) == pairs(v).push((p.0 as int, p.1 as int)),
{
    assert(pairs(v.push(p)) =~= pairs(v).push((p.0 as int, p.1 as int)));
}

/// Appends `p` to `parts`.
fn push_pair(parts: &mut Vec<(usize, usize)>, p: (usize, usize), n: Ghost<int>)
    requires
        within(old(parts)@, n@),
        p.0 <= n@,
        p.1 <= n@,
    ensures
        pairs(final(parts)@) == pairs(old(parts)@).push((p.0 as int, p.1 as int)),
        within(final(parts)@, n@),
{
    proof {
        lemma_pairs_push(parts@, p);
    }
    parts.push(p);
}

/// `u8::is_ascii_whitespace`.
fn ascii_space(b: u8) -> (r: bool)
    ensures
        r == is_ascii_space(b),
{
    b == 0x20 || b == 0x09 || b == 0x0A || b == 0x0C || b == 0x0D
}

/// Appends the words of `start..end` to `parts`.
fn push_words(bytes: &[u8], start: usize, end: usize, parts: &mut Vec<(usize, usize)>)
    requires
        start < end <= bytes@.len(),
        within(old(parts)@, bytes@.len() as int),
    ensures
        pairs(final(parts)@) == pairs(old(parts)@) + split_words(
            bytes@,
            start + 1,
            end - 1,
            start as int,
            end as int,
        ),
        within(final(parts)@, bytes@.len() as int),
{
    let ghost before = pairs(parts@);
    let ghost n = bytes@.len() as int;
    let stop = end - 1;
    let mut word_start = start;
    let mut k = start + 1;
    while k < stop
        invariant
            start < k,
            start <= word_start <= k <= end,
            stop == end - 1,
            end <= bytes@.len(),
            n == bytes@.len(),
            within(parts@, n),
            before + split_words(bytes@, start + 1, stop as int, start as int, end as int)
                == pairs(parts@) + split_words(
                bytes@,
                k as int,
                stop as int,
                word_start as int,
                end as int,
            ),
        decreases stop - k,
    {
        if bytes[k] == 0x20 && !ascii_space(bytes[k - 1]) && !ascii_space(bytes[k + 1]) {
            let ghost rest = split_words(bytes@, k + 1, stop as int, k + 1, end as int);
            assert(split_words(bytes@, k as int, stop as int, word_start as int, end as int)
                == seq![(word_start as int, k as int)] + rest);
            let ghost prev = pairs(parts@);
            push_pair(parts, (word_start, k), Ghost(n));
            assert(pairs(parts@) + rest =~= prev + (seq![(word_start as int, k as int)] + rest));
            word_start = k + 1;
        }
        k = k + 1;
    }
    push_pair(parts, (word_start, end), Ghost(n));
}

/// Appends the pieces of the line `line_begin..line_end` to `parts`; returns
/// whether the line makes the text sticky.
fn push_line(
    bytes: &[u8],
    o: FormatOptions,
    line_begin: usize,
    line_end: usize,
    first: bool,
    last: bool,
    parts: &mut Vec<(usize, usize)>,
) -> (sticky: bool)
    requires
        line_begin <= line_end <= bytes@.len(),
        within(old(parts)@, bytes@.len() as int),
    ensures
        pairs(final(parts)@) == pairs(old(parts)@) + line_parts(
            bytes@,
            o,
            line_begin as int,
            line_end as int,
            first,
            last,
        ).0,
        sticky == line_parts(bytes@, o, line_begin as int, line_end as int, first, last).1,
        within(final(parts)@, bytes@.len() as int),
{
    let ghost line = bytes@.subrange(line_begin as int, line_end as int);
    let start = if first {
        line_begin
    } else {
        line_begin + leading_white_len(bytes, line_begin, line_end)
    };
    let end = if last {
        line_end
    } else {
        line_end - trailing_white_len(bytes, line_begin, line_end)
    };
    if start < end {
        let sticky = (first && starts_with_white(bytes, line_begin, line_end)) || (last
            && ends_with_white(bytes, line_begin, line_end));
        if o.text_wrap == TextWrap::Preserve {
            let ghost prev = pairs(parts@);
            push_pair(parts, (start, end), Ghost(bytes@.len() as int));
            assert(pairs(parts@) =~= prev + seq![(start as int, end as int)]);
        } else {
            push_words(bytes, start, end, parts);
        }
        sticky
    } else {
        assert(pairs(parts@) + seq![] =~= pairs(parts@));
        false
    }
}

/// The first line feed in `i..b`, or `b`.
fn find_newline(bytes: &[u8], i: usize, b: usize) -> (r: usize)
    requires
        i <= b <= bytes@.len(),
    ensures
        r == next_newline(bytes@, i as int, b as int),
        i <= r <= b,
{
    let mut k = i;
    while k < b
        invariant
            i <= k <= b <= bytes@.len(),
            next_newline(bytes@, i as int, b as int) == next_newline(bytes@, k as int, b as int),
        decreases b - k,
    {
        if bytes[k] == 0x0A {
            return k;
        }
        k = k + 1;
    }
    k
}

/// The pieces of the text at `span` joined into one document.
fn parts_document(parts: &Vec<(usize, usize)>, preserve: bool) -> (d: Document)
    requires
        within(parts@, u32::MAX as int),
    ensures
        d@ == parts_doc(pairs(parts@), preserve),
{
    let ghost all = pairs(parts@);
    let mut document = Document::Nil;
    let mut i: usize = 0;
    assert(all.take(0).len() == 0);
    while i < parts.len()
        invariant
            i <= parts@.len(),
            all == pairs(parts@),
            within(parts@, u32::MAX as int),
            document@ == parts_doc(all.take(i as int), preserve),
        decreases parts@.len() - i,
    {
        let (start, end) = parts[i];
        assert(all[i as int] == (start as int, end as int));
        let part = Document::source(start, end);
        assert(all.take(i + 1).drop_last() =~= all.take(i as int));
        assert(all.take(i + 1).last() == all[i as int]);
        document = if i == 0 {
            part
        } else if preserve {
            concat3(document, Document::Hard, part)
        } else {
            concat2(document, Document::group(concat2(Document::Line, part)))
        };
        i = i + 1;
    }
    assert(all.take(i as int) =~= all);
    document
}

/// A text child's document, and whether the text sticks to its neighbours.
pub fn text_document(layout: &Layout, span: SourceSpan) -> (r: (Document, bool))
    requires
        layout.fits_protocol(),
        span_ok(span, layout.src().len() as int),
    ensures
        r.0@ == text_doc(layout.src(), layout.options, span).0,
        r.1 == text_doc(layout.src(), layout.options, span).1,
{
    let bytes = layout.source.as_bytes();
    let ghost src = bytes@;
    let ghost o = layout.options;
    let ghost b = span.end as int;
    let ghost whole = text_lines(src, o, span.start as int, b, true);
    let mut parts: Vec<(usize, usize)> = Vec::new();
    let mut sticky = false;
    let mut line_begin = span.start;
    let mut first = true;
    assert(pairs(parts@) =~= Seq::<(int, int)>::empty());
    loop
        invariant_except_break
            whole.0 == pairs(parts@) + text_lines(src, o, line_begin as int, b, first).0,
            whole.1 == (sticky || text_lines(src, o, line_begin as int, b, first).1),
        invariant
            span.start <= line_begin <= span.end <= bytes@.len(),
            src == bytes@,
            o == layout.options,
            b == span.end,
            bytes@.len() <= u32::MAX,
            within(parts@, bytes@.len() as int),
        ensures
            whole.0 == pairs(parts@),
            whole.1 == sticky,
            within(parts@, bytes@.len() as int),
        decreases span.end - line_begin,
    {
        let line_end = find_newline(bytes, line_begin, span.end);
        let last = line_end >= span.end;
        let ghost before = pairs(parts@);
        let s = push_line(bytes, layout.options, line_begin, line_end, first, last, &mut parts);
        sticky = sticky || s;
        if last {
            break;
        }
        assert(before + (line_parts(src, o, line_begin as int, line_end as int, first, last).0
            + text_lines(src, o, line_end + 1, b, false).0) =~= pairs(parts@) + text_lines(
            src,
            o,
            line_end + 1,
            b,
            false,
        ).0);
        line_begin = line_end + 1;
        first = false;
    }
    let document = parts_document(&parts, layout.options.text_wrap == TextWrap::Preserve);
    (document, sticky)
}

/// Where a hole's inside lies, and what it is laid out as.
pub fn hole_parts(layout: &Layout, span: SourceSpan, bound: usize) -> (r: (
    usize,
    usize,
    Option<RangeKind>,
))
    requires
        hole_ok(span, layout.src().len() as int),
    ensures
        r.0 == spec_hole_inner(layout.src(), span).0,
        r.1 == spec_hole_inner(layout.src(), span).1,
        r.0 <= r.1 <= layout.src().len(),
        r.2 == hole_kind(layout.source@, span, bound as nat),
{
    let (start, end) = hole_inner(layout.source, span);
    let kind = match parse_range(layout.source, start, end) {
        Some(RangeKind::Markup(node)) => {
            if node_fits(layout.source, &node) && end - start < bound {
                Some(RangeKind::Markup(node))
            } else {
                None
            }
        },
        other => other,
    };
    (start, end, kind)
}

/// A child hole, laid out.
pub fn child_hole_document(layout: &Layout, child: &MarkupChild, bound: usize) -> (d: Document)
    requires
        layout.fits_protocol(),
        hole_ok(child.span_of(), layout.src().len() as int),
    ensures
        d@ == child_hole_doc(layout.source@, layout.options, *child, bound as nat),
    decreases bound, child, 0int,
{
    let span = child.span();
    let (start, end, kind) = hole_parts(layout, span, bound);
    let body = match kind {
        Some(RangeKind::Markup(node)) => node_document(layout, &node, end - start),
        Some(RangeKind::Luau) => Document::expression(start, end),
        None => Document::source(start, end),
    };
    braced_document(layout.options, body)
}

/// The hole of the element's attribute `i`, laid out.
fn attribute_hole_document(layout: &Layout, element: &MarkupElement, i: usize, bound: usize) -> (d:
    Document)
    requires
        layout.fits_protocol(),
        i < element.attributes@.len(),
        attribute_ok(element.attributes@[i as int], layout.src()),
        hole_ok(
            attribute_hole(layout.src(), element.attributes@[i as int]),
            layout.src().len() as int,
        ),
    ensures
        d@ == attribute_hole_doc(layout.source@, layout.options, *element, i as int, bound as nat),
    decreases bound, element, 1int,
{
    let span = match &element.attributes[i] {
        MarkupAttribute::Named { span, .. } => brace_span(layout.source, *span),
        MarkupAttribute::Spread { span } => *span,
        MarkupAttribute::Inferred { span } => brace_span(layout.source, *span),
    };
    let (start, end, kind) = hole_parts(layout, span, bound);
    let body = match kind {
        Some(RangeKind::Markup(node)) => node_document(layout, &node, end - start),
        Some(RangeKind::Luau) => Document::expression(start, end),
        None => Document::source(start, end),
    };
    braced_document(layout.options, body)
}

/// `name=` as a literal.
fn assignment(name: &String) -> (d: Document)
    ensures
        d@ == lit(name@ + "="@),
{
    let mut s = String::from_str(name.as_str());
    s.append("=");
    Document::literal(s)
}

/// The element's attribute `i`.
pub fn attribute_document(layout: &Layout, element: &MarkupElement, i: usize, bound: usize) -> (d:
    Document)
    requires
        layout.fits_protocol(),
        i < element.attributes@.len(),
        attribute_ok(element.attributes@[i as int], layout.src()),
    ensures
        d@ == attribute_doc(layout.source@, layout.options, *element, i as int, bound as nat),
    decreases bound, element, 2int,
{
    match &element.attributes[i] {
        MarkupAttribute::Named { name, value, span } => match value {
            MarkupValue::Boolean => Document::literal(name.clone()),
            MarkupValue::StringLiteral(literal) => {
                let len = literal.as_str().as_bytes().len();
                concat2(assignment(name), string_document(layout, span.end - len, span.end))
            },
            MarkupValue::Expression(_) => concat2(
                assignment(name),
                attribute_hole_document(layout, element, i, bound),
            ),
        },
        MarkupAttribute::Spread { .. } => attribute_hole_document(layout, element, i, bound),
        MarkupAttribute::Inferred { .. } => concat2(
            text("="),
            attribute_hole_document(layout, element, i, bound),
        ),
    }
}

fn attribute_separator(per_line: bool) -> (d: Document)
    ensures
        d@ == (if per_line {
            Doc::Hard
        } else {
            Doc::Line
        }),
{
    if per_line {
        Document::Hard
    } else {
        Document::Line
    }
}

/// The element's attributes, each after a break.
pub fn attributes_document(layout: &Layout, element: &MarkupElement, bound: usize) -> (d: Document)
    requires
        layout.fits_protocol(),
        attributes_ok(element.attributes@, layout.src()),
    ensures
        d@ == attributes_doc(layout.source@, layout.options, *element, bound as nat),
    decreases bound, element, element.attributes@.len() + 5,
{
    let n = element.attributes.len();
    if n == 0 {
        return Document::Nil;
    }
    let per_line = layout.options.attribute_per_line && n > 1;
    let ghost separator = if per_line {
        Doc::Hard
    } else {
        Doc::Line
    };
    let ghost t = layout.source@;
    let ghost o = layout.options;
    proof {
        lemma_attributes_ok_prefix(element.attributes@, n as int, layout.src());
    }
    let mut parts: Vec<Document> = Vec::new();
    let mut k: usize = 0;
    while k < n
        invariant
            k <= n == element.attributes@.len(),
            separator == (if per_line {
                Doc::Hard
            } else {
                Doc::Line
            }),
            t == layout.source@,
            o == layout.options,
            layout.fits_protocol(),
            forall|j: int| 0 <= j < n ==> attribute_ok(#[trigger] element.attributes@[j], layout.src()),
            Document::docs(parts@) == attributes_parts(t, o, *element, k as int, separator, bound as nat),
        decreases n - k,
    {
        let ghost before = Document::docs(parts@);
        let sep = attribute_separator(per_line);
        let attribute = attribute_document(layout, element, k, bound);
        assert(sep@ == separator);
        assert(attribute@ == attribute_doc(t, o, *element, k as int, bound as nat));
        push_doc(&mut parts, sep);
        push_doc(&mut parts, attribute);
        assert(attributes_parts(t, o, *element, k + 1, separator, bound as nat) == attributes_parts(
            t,
            o,
            *element,
            k as int,
            separator,
            bound as nat,
        ) + seq![separator, attribute_doc(t, o, *element, k as int, bound as nat)]);
        assert(Document::docs(parts@) =~= before + seq![separator, attribute_doc(t, o, *element, k as int, bound as nat)]);
        k = k + 1;
    }
    Document::indent(Document::concatenate(parts))
}

pub fn self_closing_document(o: FormatOptions, opening: String, attributes: Document, bare: bool) -> (d:
    Document)
    ensures
        d@ == self_closing_doc(o, opening@, attributes@, bare),
{
    let separator = if o.self_closing_space && bare {
        text(" ")
    } else if o.self_closing_space {
        Document::Line
    } else if bare {
        Document::Nil
    } else {
        Document::Soft
    };
    Document::group(concat4(Document::literal(opening), attributes, separator, text("/>")))
}

/// An element's children between its opening and closing tags.
pub fn children_document(
    layout: &Layout,
    opening: String,
    attributes: Document,
    children: &Vec<MarkupChild>,
    closing: String,
    bound: usize,
) -> (d: Document)
    requires
        layout.fits_protocol(),
        children_ok(children@, layout.src()),
    ensures
        d@ == children_doc(
            layout.source@,
            layout.options,
            opening@,
            attributes@,
            children@,
            closing@,
            bound as nat,
        ),
    decreases bound, children@, 2int,
{
    let ghost t = layout.source@;
    let ghost o = layout.options;
    let ghost src = layout.src();
    let bytes = layout.source.as_bytes();
    let n = children.len();
    proof {
        lemma_children_ok_prefix(children@, n as int, src);
    }
    let mut content: Vec<Document> = Vec::new();
    let mut glue = false;
    let mut broken = false;
    let mut previous_end: Option<usize> = None;
    let mut i: usize = 0;
    assert(children@.take(0) =~= Seq::<MarkupChild>::empty());
    while i < n
        invariant
            i <= n == children@.len(),
            t == layout.source@,
            o == layout.options,
            src == layout.src(),
            bytes@ == src,
            layout.fits_protocol(),
            forall|j: int| 0 <= j < n ==> child_ok(#[trigger] children@[j], src),
            Document::docs(content@) == children_state(t, o, children@.take(i as int), bound as nat).content,
            glue == children_state(t, o, children@.take(i as int), bound as nat).glue,
            broken == children_state(t, o, children@.take(i as int), bound as nat).broken,
            match previous_end {
                Some(p) => children_state(t, o, children@.take(i as int), bound as nat).previous_end
                    == Some(p as int) && p <= src.len(),
                None => children_state(t, o, children@.take(i as int), bound as nat).previous_end is None,
            },
        decreases n - i,
    {
        let child = &children[i];
        let span = child.span();
        assert(children@.take(i + 1).drop_last() =~= children@.take(i as int));
        assert(children@.take(i + 1).last() == children@[i as int]);
        assert(child_ok(children@[i as int], src));
        let blank = match previous_end {
            Some(previous) => layout.options.blank_lines && previous <= span.start
                && count_in(bytes, previous, span.start, 0x0A) >= 2,
            None => false,
        };
        let separator = if glue {
            Document::Nil
        } else if broken {
            Document::Hard
        } else if blank {
            Document::Blank
        } else {
            Document::Soft
        };
        match child {
            MarkupChild::Text { .. } => {
                let (document, sticks) = text_document(layout, span);
                push_doc(&mut content, separator);
                push_doc(&mut content, document);
                glue = sticks;
                broken = false;
            },
            MarkupChild::Node(node) => {
                assert(decreases_to!(children@ => children@[i as int]));
                push_doc(&mut content, separator);
                push_doc(&mut content, node_document(layout, node, bound));
                glue = false;
                broken = false;
            },
            MarkupChild::Expression { .. } => {
                assert(decreases_to!(children@ => children@[i as int]));
                push_doc(&mut content, separator);
                push_doc(&mut content, child_hole_document(layout, child, bound));
                glue = false;
                broken = false;
            },
            MarkupChild::Comment { span } => {
                let multiline = count_in(bytes, span.start, span.end, 0x0A) > 0;
                push_doc(
                    &mut content,
                    if multiline {
                        Document::Hard
                    } else {
                        separator
                    },
                );
                push_doc(&mut content, Document::source(span.start, span.end));
                glue = false;
                broken = multiline;
            },
        }
        previous_end = Some(span.end);
        i = i + 1;
    }
    assert(children@.take(n as int) =~= children@);
    let before_closing = if glue {
        Document::Nil
    } else if broken {
        Document::Hard
    } else {
        Document::Soft
    };
    let bracket = if layout.options.bracket_same_line {
        Document::Nil
    } else {
        Document::Soft
    };
    Document::group(
        concat4(
            Document::group(concat4(Document::literal(opening), attributes, bracket, text(">"))),
            Document::indent(Document::concatenate(content)),
            before_closing,
            Document::literal(closing),
        ),
    )
}

/// An element: self-closing when it has no children and was written so.
pub fn element_document(layout: &Layout, element: &MarkupElement, bound: usize) -> (d: Document)
    requires
        layout.fits_protocol(),
        node_ok(MarkupNode::Element(*element), layout.src()),
    ensures
        d@ == element_doc(layout.source@, layout.options, *element, bound as nat),
    decreases bound, element, element.attributes@.len() + 10,
{
    let bytes = layout.source.as_bytes();
    let mut opening = String::from_str("<");
    opening.append(element.name.as_str());
    let attributes = attributes_document(layout, element, bound);
    let span = element.span;
    let closes = span.end - span.start >= 2 && bytes[span.end - 2] == 0x2F && bytes[span.end - 1]
        == 0x3E;
    if element.children.len() == 0 && closes {
        self_closing_document(layout.options, opening, attributes, element.attributes.len() == 0)
    } else {
        let mut closing = String::from_str("</");
        closing.append(element.name.as_str());
        closing.append(">");
        children_document(layout, opening, attributes, &element.children, closing, bound)
    }
}

/// The document of a markup node. Holes whose inside is markup again are laid
/// out as markup while the inside is shorter than `bound`.
pub fn node_document(layout: &Layout, node: &MarkupNode, bound: usize) -> (d: Document)
    requires
        layout.fits_protocol(),
        node_ok(*node, layout.src()),
    ensures
        d@ == node_doc(layout.source@, layout.options, *node, bound as nat),
    decreases bound, node, 1int,
{
    match node {
        MarkupNode::Element(element) => element_document(layout, element, bound),
        MarkupNode::Fragment(fragment) => children_document(
            layout,
            String::from_str("<"),
            Document::Nil,
            &fragment.children,
            String::from_str("</>"),
            bound,
        ),
    }
}

/// Two distinct bytes occur no more often together than `t` is long.
proof fn lemma_count_two(t: Seq<u8>, a: u8, b: u8)
    requires
        a != b,
    ensures
        count_byte(t, a) + count_byte(t, b) <= t.len(),
    decreases t.len(),
{
    if t.len() > 0 {
        lemma_count_two(t.drop_last(), a, b);
    }
}

/// `document` wrapped in one indent per level of indentation before `start`
/// on its line.
pub fn indented(layout: &Layout, start: usize, document: Document) -> (d: Document)
    requires
        start <= layout.src().len(),
    ensures
        d@ == indent_times(document@, indent_levels(layout.src(), layout.options, start as int)),
{
    let bytes = layout.source.as_bytes();
    let ghost src = bytes@;
    let begin = find_line_start(bytes, start);
    let tabs = count_in(bytes, begin, start, 0x09);
    let spaces = count_in(bytes, begin, start, 0x20);
    let width = if layout.options.indent_width >= 1 {
        layout.options.indent_width
    } else {
        1
    };
    proof {
        lemma_count_two(bytes@.subrange(begin as int, start as int), 0x09, 0x20);
        assert(spaces / width <= spaces) by (nonlinear_arith)
            requires
                width >= 1,
        ;
    }
    let levels = tabs + spaces / width;
    let ghost inner = document@;
    let mut document = document;
    let mut k: usize = 0;
    while k < levels
        invariant
            k <= levels,
            document@ == indent_times(inner, k as nat),
        decreases levels - k,
    {
        document = Document::indent(document);
        k = k + 1;
    }
    document
}

/// A markup region laid out at the indentation of the line it starts on.
pub open spec fn segment_doc(t: Seq<char>, o: FormatOptions, segment: Segment) -> Doc {
    let src = encode_utf8(t);
    indent_times(
        node_doc(t, o, segment.node, src.len()),
        indent_levels(src, o, segment.start as int),
    )
}

/// The markup regions within `start..end` laid out, and the source between and
/// around them kept: where laying out has got to, and what it has produced.
pub open spec fn markup_run(
    t: Seq<char>,
    o: FormatOptions,
    segments: Seq<Segment>,
    start: int,
    end: int,
) -> (int, Seq<Doc>)
    decreases segments.len(),
{
    if segments.len() == 0 {
        (start, seq![])
    } else {
        let (cursor, parts) = markup_run(t, o, segments.drop_last(), start, end);
        let segment = segments.last();
        if segment.start < start || segment.end > end {
            (cursor, parts)
        } else {
            let gap = if cursor < segment.start {
                seq![at(cursor, segment.start as int)]
            } else {
                seq![]
            };
            (segment.end as int, parts + gap + seq![segment_doc(t, o, segment)])
        }
    }
}

/// The source `start..end` with its markup regions laid out.
pub open spec fn markup_docs(
    t: Seq<char>,
    o: FormatOptions,
    segments: Seq<Segment>,
    start: int,
    end: int,
) -> Seq<Doc> {
    let (cursor, parts) = markup_run(t, o, segments, start, end);
    parts + if cursor < end {
        seq![at(cursor, end)]
    } else {
        seq![]
    }
}

pub fn append_markup(
    layout: &Layout,
    start: usize,
    end: usize,
    segments: &Vec<Segment>,
    parts: &mut Vec<Document>,
)
    requires
        layout.fits_protocol(),
        start <= end <= layout.src().len(),
        forall|j: int| 0 <= j < segments@.len() ==> segment_ok(#[trigger] segments@[j], layout.src()),
    ensures
        Document::docs(final(parts)@) == Document::docs(old(parts)@) + markup_docs(
            layout.source@,
            layout.options,
            segments@,
            start as int,
            end as int,
        ),
{
    let ghost t = layout.source@;
    let ghost o = layout.options;
    let ghost before = Document::docs(parts@);
    let n = layout.source.as_bytes().len();
    let mut cursor = start;
    let mut i: usize = 0;
    assert(segments@.take(0) =~= Seq::<Segment>::empty());
    assert(before + seq![] =~= before);
    while i < segments.len()
        invariant
            i <= segments@.len(),
            t == layout.source@,
            o == layout.options,
            n == layout.src().len(),
            layout.fits_protocol(),
            start <= cursor <= end <= n,
            forall|j: int| 0 <= j < segments@.len() ==> segment_ok(#[trigger] segments@[j], layout.src()),
            markup_run(t, o, segments@.take(i as int), start as int, end as int).0 == cursor,
            Document::docs(parts@) == before + markup_run(
                t,
                o,
                segments@.take(i as int),
                start as int,
                end as int,
            ).1,
        decreases segments@.len() - i,
    {
        let segment = &segments[i];
        assert(segments@.take(i + 1).drop_last() =~= segments@.take(i as int));
        assert(segments@.take(i + 1).last() == segments@[i as int]);
        assert(segment_ok(segments@[i as int], layout.src()));
        if !(segment.start < start || segment.end > end) {
            if cursor < segment.start {
                push_doc(parts, Document::source(cursor, segment.start));
            }
            let document = node_document(layout, &segment.node, n);
            push_doc(parts, indented(layout, segment.start, document));
            assert(Document::docs(parts@) =~= before + markup_run(
                t,
                o,
                segments@.take(i + 1),
                start as int,
                end as int,
            ).1);
            cursor = segment.end;
        }
        i = i + 1;
    }
    assert(segments@.take(i as int) =~= segments@);
    if cursor < end {
        push_doc(parts, Document::source(cursor, end));
    }
    assert(Document::docs(parts@) =~= before + markup_docs(t, o, segments@, start as int, end as int));
}

/// Whether the statement overlaps a markup region.
pub open spec fn overlaps_markup(segments: Seq<Segment>, s: SourceSpan) -> bool {
    exists|j: int|
        0 <= j < segments.len() && #[trigger] segments[j].start < s.end && s.start
            < segments[j].end
}

/// The top-level statements handed to the host, with the source before each
/// laid out: where laying out has got to, and what it has produced. Statements
/// that overlap markup, or that do not lie after the last one within the
/// source, are left to the source around them.
pub open spec fn statement_run(
    t: Seq<char>,
    o: FormatOptions,
    file: FileModel,
    statements: Seq<SourceSpan>,
) -> (int, Seq<Doc>)
    decreases statements.len(),
{
    if statements.len() == 0 {
        (0, seq![])
    } else {
        let (cursor, parts) = statement_run(t, o, file, statements.drop_last());
        let s = statements.last();
        if overlaps_markup(file.segments, s) || s.start < cursor || s.end < s.start || s.end
            > encode_utf8(t).len() {
            (cursor, parts)
        } else {
            (
                s.end as int,
                parts + markup_docs(t, o, file.segments, cursor, s.start as int) + seq![
                    Doc::Host { start: s.start as nat, end: s.end as nat, parse: ParseMode::Block },
                ],
            )
        }
    }
}

/// The document of a parsed source.
pub open spec fn file_doc(t: Seq<char>, o: FormatOptions, file: FileModel) -> Doc {
    let (cursor, parts) = statement_run(t, o, file, file.statements);
    cat(parts + markup_docs(t, o, file.segments, cursor, encode_utf8(t).len() as int))
}

/// What `format` returns: the parse error, or the document of the source.
pub open spec fn format_result(t: Seq<char>, o: FormatOptions) -> Result<Doc, Seq<char>> {
    match parse_file(t) {
        Err(message) => Err(message),
        Ok(file) => Ok(file_doc(t, o, file)),
    }
}

fn overlapping(segments: &Vec<Segment>, s: SourceSpan) -> (r: bool)
    ensures
        r == overlaps_markup(segments@, s),
{
    let mut j: usize = 0;
    while j < segments.len()
        invariant
            j <= segments@.len(),
            forall|k: int|
                0 <= k < j ==> !(#[trigger] segments@[k].start < s.end && s.start
                    < segments@[k].end),
        decreases segments@.len() - j,
    {
        if segments[j].start < s.end && s.start < segments[j].end {
            assert(segments@[j as int].start < s.end);
            return true;
        }
        j = j + 1;
    }
    false
}

/// Lays out a LuauX source: markup as documents, top-level Luau statements
/// handed to the host, and everything else kept as written.
pub fn format(source: &str, options: FormatOptions) -> (r: Result<Document, String>)
    requires
        source.spec_bytes().len() <= u32::MAX,
    ensures
        match r {
            Ok(d) => format_result(source@, options) == Ok::<Doc, Seq<char>>(d@),
            Err(message) => format_result(source@, options) == Err::<Doc, Seq<char>>(message@),
        },
        r matches Ok(d) ==> points_within(d@, source.spec_bytes().len() as int),
{
    proof {
        formatted_document_stays_in_source(source@, options);
    }
    match parse(source) {
        Ok(file) => Ok(layout_file(&Layout { source: source, options: options }, &file)),
        Err(message) => Err(message),
    }
}

/// The document of a parsed source.
pub fn layout_file(layout: &Layout, file: &SourceFile) -> (d: Document)
    requires
        layout.fits_protocol(),
        forall|j: int| 0 <= j < file.segments@.len() ==> segment_ok(#[trigger] file.segments@[j], layout.src()),
    ensures
        d@ == file_doc(layout.source@, layout.options, file@),
{
    let ghost t = layout.source@;
    let ghost options = layout.options;
    let ghost model = file@;
    let n = layout.source.as_bytes().len();
    let mut parts: Vec<Document> = Vec::new();
    let mut cursor: usize = 0;
    let mut i: usize = 0;
    assert(file.statements@.take(0) =~= Seq::<SourceSpan>::empty());
    while i < file.statements.len()
        invariant
            i <= file.statements@.len(),
            t == layout.source@,
            options == layout.options,
            model == file@,
            n == layout.src().len(),
            layout.fits_protocol(),
            cursor <= n,
            forall|j: int|
                0 <= j < file.segments@.len() ==> segment_ok(#[trigger] file.segments@[j], layout.src()),
            statement_run(t, options, model, file.statements@.take(i as int)).0 == cursor,
            Document::docs(parts@) == statement_run(t, options, model, file.statements@.take(i as int)).1,
        decreases file.statements@.len() - i,
    {
        let s = file.statements[i];
        assert(file.statements@.take(i + 1).drop_last() =~= file.statements@.take(i as int));
        assert(file.statements@.take(i + 1).last() == s);
        if !(overlapping(&file.segments, s) || s.start < cursor || s.end < s.start || s.end > n) {
            append_markup(layout, cursor, s.start, &file.segments, &mut parts);
            push_doc(&mut parts, Document::host(s.start, s.end));
            assert(Document::docs(parts@) =~= statement_run(
                t,
                options,
                model,
                file.statements@.take(i + 1),
            ).1);
            cursor = s.end;
        }
        i = i + 1;
    }
    assert(file.statements@.take(i as int) =~= file.statements@);
    append_markup(layout, cursor, n, &file.segments, &mut parts);
    Document::concatenate(parts)
}

/// Every range of source that the document names lies within `0..n`, its
/// start no later than its end.
pub open spec fn points_within(d: Doc, n: int) -> bool
    decreases d,
{
    match d {
        Doc::Source(start, end) => start <= end <= n,
        Doc::Host { start, end, .. } => start <= end <= n,
        Doc::Group(inner) => points_within(*inner, n),
        Doc::Indent(inner) => points_within(*inner, n),
        Doc::Concatenate(parts) => forall|k: int|
            0 <= k < parts.len() ==> points_within(#[trigger] parts[k], n),
        _ => true,
    }
}

/// Every range lies within `0..n`, its start no later than its end.
pub open spec fn ranges_within(parts: Seq<(int, int)>, n: int) -> bool {
    forall|k: int| 0 <= k < parts.len() ==> 0 <= #[trigger] parts[k].0 <= parts[k].1 <= n
}

proof fn lemma_split_words_within(src: Seq<u8>, k: int, stop: int, word_start: int, end: int, n: int)
    requires
        0 <= word_start <= k,
        stop <= end <= n,
        word_start <= end,
    ensures
        ranges_within(split_words(src, k, stop, word_start, end), n),
    decreases stop - k,
{
    if k < stop {
        if breaks_at(src, k) {
            lemma_split_words_within(src, k + 1, stop, k + 1, end, n);
            let rest = split_words(src, k + 1, stop, k + 1, end);
            let all = seq![(word_start, k)] + rest;
            assert forall|j: int| 0 <= j < all.len() implies 0 <= #[trigger] all[j].0 <= all[j].1
                <= n by {
                if j > 0 {
                    assert(all[j] == rest[j - 1]);
                }
            }
        } else {
            lemma_split_words_within(src, k + 1, stop, word_start, end, n);
        }
    }
}

proof fn lemma_next_newline(src: Seq<u8>, i: int, b: int)
    requires
        i <= b,
    ensures
        i <= next_newline(src, i, b) <= b,
    decreases b - i,
{
    if i < b && src[i] != 0x0A {
        lemma_next_newline(src, i + 1, b);
    }
}

proof fn lemma_text_lines_within(src: Seq<u8>, o: FormatOptions, line_begin: int, b: int, first: bool)
    requires
        0 <= line_begin <= b <= src.len(),
    ensures
        ranges_within(text_lines(src, o, line_begin, b, first).0, src.len() as int),
    decreases b - line_begin + 1,
{
    let n = src.len() as int;
    let line_end = next_newline(src, line_begin, b);
    lemma_next_newline(src, line_begin, b);
    let line = src.subrange(line_begin, line_end);
    crate::text::lemma_leading_white_bounds(line);
    crate::text::lemma_trailing_white_bounds(line);
    let last = line_end >= b;
    let start = if first {
        line_begin
    } else {
        line_begin + leading_white(line)
    };
    let end = if last {
        line_end
    } else {
        line_end - trailing_white(line)
    };
    if start < end && o.text_wrap != TextWrap::Preserve {
        lemma_split_words_within(src, start + 1, end - 1, start, end, n);
    }
    let parts = line_parts(src, o, line_begin, line_end, first, last).0;
    assert(ranges_within(parts, n));
    if !(line_end >= b || line_end < line_begin) {
        lemma_text_lines_within(src, o, line_end + 1, b, false);
        let rest = text_lines(src, o, line_end + 1, b, false).0;
        let all = parts + rest;
        assert forall|j: int| 0 <= j < all.len() implies 0 <= #[trigger] all[j].0 <= all[j].1
            <= n by {
            if j >= parts.len() {
                assert(all[j] == rest[j - parts.len()]);
            } else {
                assert(all[j] == parts[j]);
            }
        }
    }
}

proof fn lemma_parts_doc_within(parts: Seq<(int, int)>, preserve: bool, n: int)
    requires
        ranges_within(parts, n),
    ensures
        points_within(parts_doc(parts, preserve), n),
    decreases parts.len(),
{
    if parts.len() > 1 {
        let previous = parts.drop_last();
        assert(ranges_within(previous, n)) by {
            assert forall|k: int| 0 <= k < previous.len() implies 0 <= #[trigger] previous[k].0
                <= previous[k].1 <= n by {
                assert(previous[k] == parts[k]);
            }
        }
        lemma_parts_doc_within(previous, preserve, n);
        let a = parts_doc(previous, preserve);
        let part = at(parts.last().0, parts.last().1);
        assert(parts.last() == parts[parts.len() - 1]);
        if preserve {
            let s = seq![a, Doc::Hard, part];
            assert(forall|k: int| 0 <= k < s.len() ==> points_within(#[trigger] s[k], n));
        } else {
            let inner = seq![Doc::Line, part];
            assert(forall|k: int| 0 <= k < inner.len() ==> points_within(#[trigger] inner[k], n));
            assert(points_within(cat(inner), n));
            assert(points_within(grp(cat(inner)), n));
            let s = seq![a, grp(cat(inner))];
            assert(forall|k: int| 0 <= k < s.len() ==> points_within(#[trigger] s[k], n));
        }
    } else if parts.len() == 1 {
        assert(parts[0].0 <= parts[0].1 <= n);
    }
}

proof fn lemma_text_doc_within(src: Seq<u8>, o: FormatOptions, span: SourceSpan)
    requires
        span_ok(span, src.len() as int),
    ensures
        points_within(text_doc(src, o, span).0, src.len() as int),
{
    lemma_text_lines_within(src, o, span.start as int, span.end as int, true);
    lemma_parts_doc_within(
        text_lines(src, o, span.start as int, span.end as int, true).0,
        o.text_wrap == TextWrap::Preserve,
        src.len() as int,
    );
}

proof fn lemma_hole_inner(src: Seq<u8>, span: SourceSpan)
    requires
        hole_ok(span, src.len() as int),
    ensures
        span.start + 1 <= spec_hole_inner(src, span).0 <= spec_hole_inner(src, span).1 <= span.end
            - 1,
{
    let t = src.subrange(span.start + 1, span.end - 1);
    crate::text::lemma_leading_white_bounds(t);
    crate::text::lemma_trailing_white_bounds(t);
}

proof fn lemma_braced(o: FormatOptions, body: Doc, n: int)
    requires
        points_within(body, n),
    ensures
        points_within(braced(o, body), n),
{
    let s = seq![lit("{"@), space_doc(o), body, space_doc(o), lit("}"@)];
    assert(forall|k: int| 0 <= k < s.len() ==> points_within(#[trigger] s[k], n));
    assert(points_within(cat(s), n));
}

proof fn lemma_hole_with(t: Seq<char>, o: FormatOptions, span: SourceSpan, bound: nat, markup: Doc)
    requires
        hole_ok(span, encode_utf8(t).len() as int),
        hole_kind(t, span, bound) matches Some(RangeKind::Markup(_)) ==> points_within(
            markup,
            encode_utf8(t).len() as int,
        ),
    ensures
        points_within(hole_with(t, o, span, bound, markup), encode_utf8(t).len() as int),
{
    lemma_hole_inner(encode_utf8(t), span);
    let (start, end) = spec_hole_inner(encode_utf8(t), span);
    let body = match hole_kind(t, span, bound) {
        Some(RangeKind::Markup(_)) => markup,
        Some(RangeKind::Luau) => Doc::Host {
            start: start as nat,
            end: end as nat,
            parse: ParseMode::Expression,
        },
        None => at(start, end),
    };
    assert(points_within(body, encode_utf8(t).len() as int));
    lemma_braced(o, body, encode_utf8(t).len() as int);
}

proof fn lemma_child_hole_doc(t: Seq<char>, o: FormatOptions, child: MarkupChild, bound: nat)
    requires
        hole_ok(child.span_of(), encode_utf8(t).len() as int),
    ensures
        points_within(child_hole_doc(t, o, child, bound), encode_utf8(t).len() as int),
    decreases bound, child, 0int,
{
    let span = child.span_of();
    let (start, end) = spec_hole_inner(encode_utf8(t), span);
    lemma_hole_inner(encode_utf8(t), span);
    let markup = match hole_kind(t, span, bound) {
        Some(RangeKind::Markup(node)) => node_doc(t, o, node, (end - start) as nat),
        _ => Doc::Nil,
    };
    if let Some(RangeKind::Markup(node)) = hole_kind(t, span, bound) {
        lemma_node_doc(t, o, node, (end - start) as nat);
    }
    lemma_hole_with(t, o, span, bound, markup);
}

proof fn lemma_attribute_hole_doc(
    t: Seq<char>,
    o: FormatOptions,
    element: MarkupElement,
    i: int,
    bound: nat,
)
    requires
        0 <= i < element.attributes@.len(),
        hole_ok(
            attribute_hole(encode_utf8(t), element.attributes@[i]),
            encode_utf8(t).len() as int,
        ),
    ensures
        points_within(attribute_hole_doc(t, o, element, i, bound), encode_utf8(t).len() as int),
    decreases bound, element, 1int,
{
    let span = attribute_hole(encode_utf8(t), element.attributes@[i]);
    let (start, end) = spec_hole_inner(encode_utf8(t), span);
    lemma_hole_inner(encode_utf8(t), span);
    let markup = match hole_kind(t, span, bound) {
        Some(RangeKind::Markup(node)) => node_doc(t, o, node, (end - start) as nat),
        _ => Doc::Nil,
    };
    if let Some(RangeKind::Markup(node)) = hole_kind(t, span, bound) {
        lemma_node_doc(t, o, node, (end - start) as nat);
    }
    lemma_hole_with(t, o, span, bound, markup);
}

proof fn lemma_attribute_doc(t: Seq<char>, o: FormatOptions, element: MarkupElement, i: int, bound: nat)
    requires
        0 <= i < element.attributes@.len(),
        attribute_ok(element.attributes@[i], encode_utf8(t)),
    ensures
        points_within(attribute_doc(t, o, element, i, bound), encode_utf8(t).len() as int),
    decreases bound, element, 2int,
{
    let n = encode_utf8(t).len() as int;
    match element.attributes@[i] {
        MarkupAttribute::Named { name, value, span } => match value {
            MarkupValue::Boolean => {},
            MarkupValue::StringLiteral(literal) => {
                let d = string_doc(encode_utf8(t), o, span.end - byte_len(literal@), span.end as int);
                assert(points_within(d, n)) by {
                    match quote_byte(o.attribute_quotes) {
                        None => {},
                        Some(c) => {
                            let s = seq![
                                lit(seq![c as char]),
                                at(span.end - byte_len(literal@) + 1, span.end - 1),
                                lit(seq![c as char]),
                            ];
                            assert(forall|k: int| 0 <= k < s.len() ==> points_within(#[trigger] s[k], n));
                        },
                    }
                }
                let s = seq![lit(name@ + "="@), d];
                assert(forall|k: int| 0 <= k < s.len() ==> points_within(#[trigger] s[k], n));
            },
            MarkupValue::Expression(_) => {
                lemma_attribute_hole_doc(t, o, element, i, bound);
                let s = seq![lit(name@ + "="@), attribute_hole_doc(t, o, element, i, bound)];
                assert(forall|k: int| 0 <= k < s.len() ==> points_within(#[trigger] s[k], n));
            },
        },
        MarkupAttribute::Spread { .. } => {
            lemma_attribute_hole_doc(t, o, element, i, bound);
        },
        MarkupAttribute::Inferred { .. } => {
            lemma_attribute_hole_doc(t, o, element, i, bound);
            let s = seq![lit("="@), attribute_hole_doc(t, o, element, i, bound)];
            assert(forall|k: int| 0 <= k < s.len() ==> points_within(#[trigger] s[k], n));
        },
    }
}

proof fn lemma_attributes_parts(
    t: Seq<char>,
    o: FormatOptions,
    element: MarkupElement,
    k: int,
    separator: Doc,
    bound: nat,
)
    requires
        0 <= k <= element.attributes@.len(),
        attributes_ok(element.attributes@, encode_utf8(t)),
        points_within(separator, encode_utf8(t).len() as int),
    ensures
        forall|j: int|
            0 <= j < attributes_parts(t, o, element, k, separator, bound).len() ==> points_within(
                #[trigger] attributes_parts(t, o, element, k, separator, bound)[j],
                encode_utf8(t).len() as int,
            ),
    decreases bound, element, k + 3,
{
    if k > 0 {
        lemma_attributes_parts(t, o, element, k - 1, separator, bound);
        lemma_attributes_ok_prefix(element.attributes@, element.attributes@.len() as int, encode_utf8(t));
        lemma_attribute_doc(t, o, element, k - 1, bound);
        let before = attributes_parts(t, o, element, k - 1, separator, bound);
        let all = attributes_parts(t, o, element, k, separator, bound);
        assert forall|j: int| 0 <= j < all.len() implies points_within(
            #[trigger] all[j],
            encode_utf8(t).len() as int,
        ) by {
            if j < before.len() {
                assert(all[j] == before[j]);
            }
        }
    }
}

proof fn lemma_attributes_doc(t: Seq<char>, o: FormatOptions, element: MarkupElement, bound: nat)
    requires
        attributes_ok(element.attributes@, encode_utf8(t)),
    ensures
        points_within(attributes_doc(t, o, element, bound), encode_utf8(t).len() as int),
    decreases bound, element, element.attributes@.len() + 5,
{
    let n = element.attributes@.len();
    if n > 0 {
        let separator = if o.attribute_per_line && n > 1 {
            Doc::Hard
        } else {
            Doc::Line
        };
        lemma_attributes_parts(t, o, element, n as int, separator, bound);
        let parts = attributes_parts(t, o, element, n as int, separator, bound);
        assert(points_within(cat(parts), encode_utf8(t).len() as int));
        assert(points_within(ind(cat(parts)), encode_utf8(t).len() as int));
    }
}

proof fn lemma_children_state(t: Seq<char>, o: FormatOptions, children: Seq<MarkupChild>, bound: nat)
    requires
        children_ok(children, encode_utf8(t)),
    ensures
        forall|j: int|
            0 <= j < children_state(t, o, children, bound).content.len() ==> points_within(
                #[trigger] children_state(t, o, children, bound).content[j],
                encode_utf8(t).len() as int,
            ),
    decreases bound, children, 1int,
{
    if children.len() > 0 {
        let src = encode_utf8(t);
        let n = src.len() as int;
        lemma_children_state(t, o, children.drop_last(), bound);
        let state = children_state(t, o, children.drop_last(), bound);
        let child = children.last();
        let after = children_state(t, o, children, bound).content;
        let fresh = after.subrange(state.content.len() as int, after.len() as int);
        assert(child_ok(child, src));
        match child {
            MarkupChild::Text { span, .. } => {
                lemma_text_doc_within(src, o, span);
            },
            MarkupChild::Node(node) => {
                lemma_node_doc(t, o, node, bound);
            },
            MarkupChild::Expression { .. } => {
                lemma_child_hole_doc(t, o, child, bound);
            },
            MarkupChild::Comment { .. } => {},
        }
        assert forall|j: int| 0 <= j < after.len() implies points_within(#[trigger] after[j], n) by {
            if j < state.content.len() {
                assert(after[j] == state.content[j]);
            }
        }
    }
}

proof fn lemma_children_doc(
    t: Seq<char>,
    o: FormatOptions,
    opening: Seq<char>,
    attributes: Doc,
    children: Seq<MarkupChild>,
    closing: Seq<char>,
    bound: nat,
)
    requires
        children_ok(children, encode_utf8(t)),
        points_within(attributes, encode_utf8(t).len() as int),
    ensures
        points_within(
            children_doc(t, o, opening, attributes, children, closing, bound),
            encode_utf8(t).len() as int,
        ),
    decreases bound, children, 2int,
{
    let n = encode_utf8(t).len() as int;
    lemma_children_state(t, o, children, bound);
    let state = children_state(t, o, children, bound);
    let head = seq![
        lit(opening),
        attributes,
        if o.bracket_same_line {
            Doc::Nil
        } else {
            Doc::Soft
        },
        lit(">"@),
    ];
    assert(forall|k: int| 0 <= k < head.len() ==> points_within(#[trigger] head[k], n));
    assert(points_within(cat(state.content), n));
    let before_closing = if state.glue {
        Doc::Nil
    } else if state.broken {
        Doc::Hard
    } else {
        Doc::Soft
    };
    assert(points_within(cat(head), n));
    assert(points_within(grp(cat(head)), n));
    assert(points_within(ind(cat(state.content)), n));
    let s = seq![grp(cat(head)), ind(cat(state.content)), before_closing, lit(closing)];
    assert(forall|k: int| 0 <= k < s.len() ==> points_within(#[trigger] s[k], n));
    assert(points_within(cat(s), n));
}

proof fn lemma_element_doc(t: Seq<char>, o: FormatOptions, element: MarkupElement, bound: nat)
    requires
        node_ok(MarkupNode::Element(element), encode_utf8(t)),
    ensures
        points_within(element_doc(t, o, element, bound), encode_utf8(t).len() as int),
    decreases bound, element, element.attributes@.len() + 10,
{
    let n = encode_utf8(t).len() as int;
    lemma_attributes_doc(t, o, element, bound);
    let attributes = attributes_doc(t, o, element, bound);
    let opening = "<"@ + element.name@;
    if element.children@.len() == 0 && closes_itself(encode_utf8(t), element.span) {
        let bare = element.attributes@.len() == 0;
        let separator = if o.self_closing_space && bare {
            lit(" "@)
        } else if o.self_closing_space {
            Doc::Line
        } else if bare {
            Doc::Nil
        } else {
            Doc::Soft
        };
        let s = seq![lit(opening), attributes, separator, lit("/>"@)];
        assert(forall|k: int| 0 <= k < s.len() ==> points_within(#[trigger] s[k], n));
        assert(points_within(cat(s), n));
        assert(self_closing_doc(o, opening, attributes, bare) == grp(cat(s)));
    } else {
        lemma_children_doc(
            t,
            o,
            opening,
            attributes,
            element.children@,
            "</"@ + element.name@ + ">"@,
            bound,
        );
    }
}

proof fn lemma_node_doc(t: Seq<char>, o: FormatOptions, node: MarkupNode, bound: nat)
    requires
        node_ok(node, encode_utf8(t)),
    ensures
        points_within(node_doc(t, o, node, bound), encode_utf8(t).len() as int),
    decreases bound, node, 1int,
{
    match node {
        MarkupNode::Element(element) => lemma_element_doc(t, o, element, bound),
        MarkupNode::Fragment(fragment) => lemma_children_doc(
            t,
            o,
            "<"@,
            Doc::Nil,
            fragment.children@,
            "</>"@,
            bound,
        ),
    }
}

/// Every document in `parts` points within `0..n`.
pub open spec fn all_within(parts: Seq<Doc>, n: int) -> bool {
    forall|k: int| 0 <= k < parts.len() ==> points_within(#[trigger] parts[k], n)
}

proof fn lemma_all_within_concat(a: Seq<Doc>, b: Seq<Doc>, n: int)
    requires
        all_within(a, n),
        all_within(b, n),
    ensures
        all_within(a + b, n),
{
    assert forall|k: int| 0 <= k < (a + b).len() implies points_within(#[trigger] (a + b)[k], n) by {
        if k < a.len() {
            assert((a + b)[k] == a[k]);
        } else {
            assert((a + b)[k] == b[k - a.len()]);
        }
    }
}

proof fn lemma_indent_times(inner: Doc, levels: nat, n: int)
    requires
        points_within(inner, n),
    ensures
        points_within(indent_times(inner, levels), n),
    decreases levels,
{
    if levels > 0 {
        lemma_indent_times(inner, (levels - 1) as nat, n);
    }
}

proof fn lemma_markup_run(t: Seq<char>, o: FormatOptions, segments: Seq<Segment>, start: int, end: int)
    requires
        0 <= start <= end <= encode_utf8(t).len(),
        forall|j: int| 0 <= j < segments.len() ==> segment_ok(#[trigger] segments[j], encode_utf8(t)),
    ensures
        start <= markup_run(t, o, segments, start, end).0 <= end,
        all_within(markup_run(t, o, segments, start, end).1, encode_utf8(t).len() as int),
    decreases segments.len(),
{
    if segments.len() > 0 {
        let src = encode_utf8(t);
        let n = src.len() as int;
        let previous = segments.drop_last();
        assert forall|j: int| 0 <= j < previous.len() implies segment_ok(#[trigger] previous[j], src) by {
            assert(previous[j] == segments[j]);
        }
        lemma_markup_run(t, o, previous, start, end);
        let (cursor, parts) = markup_run(t, o, previous, start, end);
        let segment = segments.last();
        assert(segment == segments[segments.len() - 1]);
        assert(segment_ok(segment, src));
        if !(segment.start < start || segment.end > end) {
            let gap = if cursor < segment.start {
                seq![at(cursor, segment.start as int)]
            } else {
                seq![]
            };
            lemma_node_doc(t, o, segment.node, src.len());
            lemma_indent_times(
                node_doc(t, o, segment.node, src.len()),
                indent_levels(src, o, segment.start as int),
                n,
            );
            let last = seq![segment_doc(t, o, segment)];
            assert(all_within(gap, n));
            assert(all_within(last, n));
            lemma_all_within_concat(parts, gap, n);
            lemma_all_within_concat(parts + gap, last, n);
        }
    }
}

proof fn lemma_markup_docs(t: Seq<char>, o: FormatOptions, segments: Seq<Segment>, start: int, end: int)
    requires
        0 <= start <= end <= encode_utf8(t).len(),
        forall|j: int| 0 <= j < segments.len() ==> segment_ok(#[trigger] segments[j], encode_utf8(t)),
    ensures
        all_within(markup_docs(t, o, segments, start, end), encode_utf8(t).len() as int),
{
    let n = encode_utf8(t).len() as int;
    lemma_markup_run(t, o, segments, start, end);
    let (cursor, parts) = markup_run(t, o, segments, start, end);
    let tail = if cursor < end {
        seq![at(cursor, end)]
    } else {
        seq![]
    };
    assert(all_within(tail, n));
    lemma_all_within_concat(parts, tail, n);
}

proof fn lemma_statement_run(t: Seq<char>, o: FormatOptions, file: FileModel, statements: Seq<SourceSpan>)
    requires
        forall|j: int|
            0 <= j < file.segments.len() ==> segment_ok(#[trigger] file.segments[j], encode_utf8(t)),
    ensures
        0 <= statement_run(t, o, file, statements).0 <= encode_utf8(t).len(),
        all_within(statement_run(t, o, file, statements).1, encode_utf8(t).len() as int),
    decreases statements.len(),
{
    if statements.len() > 0 {
        let n = encode_utf8(t).len() as int;
        lemma_statement_run(t, o, file, statements.drop_last());
        let (cursor, parts) = statement_run(t, o, file, statements.drop_last());
        let s = statements.last();
        if !(overlaps_markup(file.segments, s) || s.start < cursor || s.end < s.start || s.end > n) {
            lemma_markup_docs(t, o, file.segments, cursor, s.start as int);
            let host = seq![
                Doc::Host { start: s.start as nat, end: s.end as nat, parse: ParseMode::Block },
            ];
            assert(all_within(host, n));
            lemma_all_within_concat(parts, markup_docs(t, o, file.segments, cursor, s.start as int), n);
            lemma_all_within_concat(
                parts + markup_docs(t, o, file.segments, cursor, s.start as int),
                host,
                n,
            );
        }
    }
}

/// Every range of the source that a formatted document names lies within the
/// source, its start no later than its end: the host can slice each one.
pub proof fn formatted_document_stays_in_source(t: Seq<char>, o: FormatOptions)
    ensures
        format_result(t, o) matches Ok(d) ==> points_within(d, encode_utf8(t).len() as int),
{
    if let Ok(file) = parse_file(t) {
        let n = encode_utf8(t).len() as int;
        lemma_statement_run(t, o, file, file.statements);
        let (cursor, parts) = statement_run(t, o, file, file.statements);
        lemma_markup_docs(t, o, file.segments, cursor, n);
        lemma_all_within_concat(parts, markup_docs(t, o, file.segments, cursor, n), n);
    }
}

/// When the source does not parse, formatting answers the parse error as it
/// is and lays nothing out.
pub proof fn parse_errors_pass_through(t: Seq<char>, o: FormatOptions)
    requires
        parse_file(t) is Err,
    ensures
        format_result(t, o) == Err::<Doc, Seq<char>>(parse_file(t)->Err_0),
{
}

/// Whether a child sticks to the one after it: text whose layout says so.
pub open spec fn glues(t: Seq<char>, o: FormatOptions, child: MarkupChild) -> bool {
    match child {
        MarkupChild::Text { .. } => text_doc(encode_utf8(t), o, child.span_of()).1,
        _ => false,
    }
}

/// Whether a child is a comment that spans lines.
pub open spec fn breaks_lines(t: Seq<char>, child: MarkupChild) -> bool {
    match child {
        MarkupChild::Comment { span } => count_byte(
            encode_utf8(t).subrange(span.start as int, span.end as int),
            0x0A,
        ) > 0,
        _ => false,
    }
}

/// The document of one child.
pub open spec fn child_doc(t: Seq<char>, o: FormatOptions, child: MarkupChild, bound: nat) -> Doc {
    match child {
        MarkupChild::Text { .. } => text_doc(encode_utf8(t), o, child.span_of()).0,
        MarkupChild::Node(node) => node_doc(t, o, node, bound),
        MarkupChild::Expression { .. } => child_hole_doc(t, o, child, bound),
        MarkupChild::Comment { span } => at(span.start as int, span.end as int),
    }
}

/// What goes before the `i`th child: a hard break before a comment that spans
/// lines; a soft break before the first child; else nothing after text that
/// sticks to what follows, a hard break after a comment that spans lines, a
/// blank line where the source has one and blank lines are kept, or a soft
/// break.
pub open spec fn child_separator(t: Seq<char>, o: FormatOptions, children: Seq<MarkupChild>, i: int) -> Doc {
    if breaks_lines(t, children[i]) {
        Doc::Hard
    } else if i == 0 {
        Doc::Soft
    } else if glues(t, o, children[i - 1]) {
        Doc::Nil
    } else if breaks_lines(t, children[i - 1]) {
        Doc::Hard
    } else if o.blank_lines && newlines_between(
        encode_utf8(t),
        children[i - 1].span_of().end as int,
        children[i].span_of().start as int,
    ) >= 2 {
        Doc::Blank
    } else {
        Doc::Soft
    }
}

/// What goes after the last child, before the closing tag: a soft break after
/// no children; else nothing after text that sticks to what follows, a hard
/// break after a comment that spans lines, or a soft break.
pub open spec fn closing_separator(t: Seq<char>, o: FormatOptions, children: Seq<MarkupChild>) -> Doc {
    if children.len() == 0 {
        Doc::Soft
    } else if glues(t, o, children.last()) {
        Doc::Nil
    } else if breaks_lines(t, children.last()) {
        Doc::Hard
    } else {
        Doc::Soft
    }
}

proof fn lemma_children_step(t: Seq<char>, o: FormatOptions, children: Seq<MarkupChild>, bound: nat)
    requires
        children.len() > 0,
        children_state(t, o, children.drop_last(), bound).glue == (children.len() > 1 && glues(
            t,
            o,
            children[children.len() - 2],
        )),
        children_state(t, o, children.drop_last(), bound).broken == (children.len() > 1
            && breaks_lines(t, children[children.len() - 2])),
        children_state(t, o, children.drop_last(), bound).previous_end == if children.len() == 1 {
            None
        } else {
            Some(children[children.len() - 2].span_of().end as int)
        },
    ensures
        children_state(t, o, children, bound).content == children_state(
            t,
            o,
            children.drop_last(),
            bound,
        ).content + seq![
            child_separator(t, o, children, children.len() - 1),
            child_doc(t, o, children.last(), bound),
        ],
        children_state(t, o, children, bound).glue == glues(t, o, children.last()),
        children_state(t, o, children, bound).broken == breaks_lines(t, children.last()),
        children_state(t, o, children, bound).previous_end == Some(
            children.last().span_of().end as int,
        ),
{
    let n = children.len() as int;
    if n > 1 {
        assert(children.drop_last().last() == children[n - 2]);
    }
}

#[verifier::rlimit(60)]
proof fn lemma_children_pairs(t: Seq<char>, o: FormatOptions, children: Seq<MarkupChild>, bound: nat)
    ensures
        children_state(t, o, children, bound).content.len() == 2 * children.len(),
        forall|i: int|
            0 <= i < children.len() ==> children_state(t, o, children, bound).content[2 * i]
                == #[trigger] child_separator(t, o, children, i),
        forall|i: int|
            0 <= i < children.len() ==> children_state(t, o, children, bound).content[2 * i + 1]
                == child_doc(t, o, #[trigger] children[i], bound),
        children_state(t, o, children, bound).glue == (children.len() > 0 && glues(
            t,
            o,
            children.last(),
        )),
        children_state(t, o, children, bound).broken == (children.len() > 0 && breaks_lines(
            t,
            children.last(),
        )),
        children_state(t, o, children, bound).previous_end == if children.len() == 0 {
            None
        } else {
            Some(children.last().span_of().end as int)
        },
    decreases children.len(),
{
    if children.len() > 0 {
        let n = children.len() as int;
        let rest = children.drop_last();
        lemma_children_pairs(t, o, rest, bound);
        if n > 1 {
            assert(rest.last() == children[n - 2]);
        }
        lemma_children_step(t, o, children, bound);
        let before = children_state(t, o, rest, bound).content;
        let content = children_state(t, o, children, bound).content;
        assert forall|i: int| 0 <= i < n implies content[2 * i] == #[trigger] child_separator(
            t,
            o,
            children,
            i,
        ) by {
            if i < n - 1 {
                assert(rest[i] == children[i]);
                if i > 0 {
                    assert(rest[i - 1] == children[i - 1]);
                }
                assert(child_separator(t, o, rest, i) == child_separator(t, o, children, i));
                assert(content[2 * i] == before[2 * i]);
            }
        }
        assert forall|i: int| 0 <= i < n implies content[2 * i + 1] == child_doc(
            t,
            o,
            #[trigger] children[i],
            bound,
        ) by {
            if i < n - 1 {
                assert(rest[i] == children[i]);
                assert(content[2 * i + 1] == before[2 * i + 1]);
            }
        }
    }
}

/// An element with children is laid out as its opening tag, its children
/// indented, and its closing tag. The children come in pairs, in order: what
/// goes before each child (`child_separator`), then the child's own document;
/// after the last one goes `closing_separator`.
pub proof fn children_come_in_pairs(
    t: Seq<char>,
    o: FormatOptions,
    opening: Seq<char>,
    attributes: Doc,
    children: Seq<MarkupChild>,
    closing: Seq<char>,
    bound: nat,
)
    ensures
        children_doc(t, o, opening, attributes, children, closing, bound) == grp(
            cat(
                seq![
                    grp(
                        cat(
                            seq![
                                lit(opening),
                                attributes,
                                if o.bracket_same_line {
                                    Doc::Nil
                                } else {
                                    Doc::Soft
                                },
                                lit(">"@),
                            ],
                        ),
                    ),
                    ind(cat(children_state(t, o, children, bound).content)),
                    closing_separator(t, o, children),
                    lit(closing),
                ],
            ),
        ),
        children_state(t, o, children, bound).content.len() == 2 * children.len(),
        forall|i: int|
            0 <= i < children.len() ==> children_state(t, o, children, bound).content[2 * i]
                == #[trigger] child_separator(t, o, children, i),
        forall|i: int|
            0 <= i < children.len() ==> children_state(t, o, children, bound).content[2 * i + 1]
                == child_doc(t, o, #[trigger] children[i], bound),
{
    lemma_children_pairs(t, o, children, bound);
}

} // verus!
