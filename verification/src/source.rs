//! Reading a LuauX source: trimming byte ranges, locating holes, and telling
//! markup from Luau.
use crate::markup::{hole_ok, span_ok, spec_brace_span, find_byte, lemma_find_byte, MarkupNode, SourceSpan};
use crate::outside::{luau_parse, markup_parse, parse_luau, parse_markup};
use crate::text::{leading_white, leading_white_len, trailing_white, trailing_white_len};
use vstd::prelude::*;
use vstd::string::StringSliceAdditionalSpecFns;
use vstd::utf8::*;
use crate::markup::{attribute_ok, attributes_ok, child_ok, children_ok, node_ok};
use crate::markup::{MarkupAttribute, MarkupChild, MarkupValue};
use crate::outside::{blank_regions, blanked, luaux_regions, markup_regions, regions_ok, LuauDiagnostic};
use crate::text::{decimal, push_decimal};

verus! {

/// What `trimmed` returns: the range without the white space `str::trim`
/// removes, or the empty range at `start` when nothing else is left.
pub open spec fn spec_trimmed(src: Seq<u8>, start: int, end: int) -> (int, int) {
    let t = src.subrange(start, end);
    let front = leading_white(t);
    let back = trailing_white(t);
    if front + back >= t.len() {
        (start, start)
    } else {
        (start + front, end - back)
    }
}

/// The range inside a hole's braces, trimmed.
pub open spec fn spec_hole_inner(src: Seq<u8>, span: SourceSpan) -> (int, int) {
    spec_trimmed(src, span.start + 1, span.end - 1)
}

/// Where a hole's Luau text begins: past the brace and the white space after it.
pub open spec fn spec_trimmed_start(src: Seq<u8>, span: SourceSpan) -> int {
    span.start + 1 + leading_white(src.subrange(span.start + 1, span.end - 1))
}

/// The range `start..end` without the white space at either end; the empty
/// range at `start` when nothing else is left.
pub fn trimmed(source: &str, start: usize, end: usize) -> (r: (usize, usize))
    requires
        start <= end <= source.spec_bytes().len(),
    ensures
        r.0 == spec_trimmed(source.spec_bytes(), start as int, end as int).0,
        r.1 == spec_trimmed(source.spec_bytes(), start as int, end as int).1,
        start <= r.0 <= r.1 <= end,
{
    let bytes = source.as_bytes();
    let front = leading_white_len(bytes, start, end);
    let back = trailing_white_len(bytes, start, end);
    if front >= (end - start) - back {
        (start, start)
    } else {
        (start + front, end - back)
    }
}

/// The range inside a hole's braces, trimmed.
pub fn hole_inner(source: &str, span: SourceSpan) -> (r: (usize, usize))
    requires
        hole_ok(span, source.spec_bytes().len() as int),
    ensures
        r.0 == spec_hole_inner(source.spec_bytes(), span).0,
        r.1 == spec_hole_inner(source.spec_bytes(), span).1,
        span.start + 1 <= r.0 <= r.1 <= span.end - 1,
{
    trimmed(source, span.start + 1, span.end - 1)
}

/// Where a hole's Luau text begins.
pub fn trimmed_start(source: &str, span: SourceSpan) -> (r: usize)
    requires
        hole_ok(span, source.spec_bytes().len() as int),
    ensures
        r == spec_trimmed_start(source.spec_bytes(), span),
        span.start + 1 <= r <= span.end - 1,
{
    let start = span.start + 1;
    start + leading_white_len(source.as_bytes(), start, span.end - 1)
}

/// The span from its first `{` on, or the whole span when it has none.
pub fn brace_span(source: &str, span: SourceSpan) -> (r: SourceSpan)
    requires
        span_ok(span, source.spec_bytes().len() as int),
    ensures
        r == spec_brace_span(source.spec_bytes(), span),
        span_ok(r, source.spec_bytes().len() as int),
        r.start >= span.start,
{
    let bytes = source.as_bytes();
    let ghost t = bytes@.subrange(span.start as int, span.end as int);
    let mut i = span.start;
    while i < span.end
        invariant
            span.start <= i <= span.end <= bytes@.len(),
            t == bytes@.subrange(span.start as int, span.end as int),
            forall|j: int| span.start <= j < i ==> bytes@[j] != 0x7B,
            bytes@ == source.spec_bytes(),
        decreases span.end - i,
    {
        if bytes[i] == 0x7B {
            assert(t[i - span.start] == 0x7B);
            assert(find_byte(t, 0x7B) == Some((i - span.start) as int)) by {
                lemma_find_byte(t, 0x7B);
                if let Some(k) = find_byte(t, 0x7B) {
                    assert(t[k] == bytes@[span.start + k]);
                }
            }
            return SourceSpan { start: i, end: span.end };
        }
        i = i + 1;
    }
    assert(find_byte(t, 0x7B) is None) by {
        lemma_find_byte(t, 0x7B);
        if let Some(k) = find_byte(t, 0x7B) {
            assert(t[k] == bytes@[span.start + k]);
        }
    }
    SourceSpan { start: span.start, end: span.end }
}

/// What a hole's inner range holds.
pub enum RangeKind {
    Luau,
    Markup(MarkupNode),
}

/// What `parse_range` says of `t`'s bytes `start..end`: empty and Luau-parsable
/// ranges are Luau, a range that is exactly one markup node is markup, and
/// anything else is neither.
pub open spec fn range_kind(t: Seq<char>, start: int, end: int) -> Option<RangeKind> {
    let src = encode_utf8(t);
    if start == end {
        Some(RangeKind::Luau)
    } else {
        match markup_parse(t, start as usize) {
            Ok((node, node_end)) if is_char_boundary(src, start) && node_end == end => Some(
                RangeKind::Markup(node),
            ),
            _ => if luau_parse(src.subrange(start, end)).diagnostics@.len() == 0 {
                Some(RangeKind::Luau)
            } else {
                None
            },
        }
    }
}

/// Whether the bytes `start..end` of the source are markup, Luau, or neither.
pub fn parse_range(source: &str, start: usize, end: usize) -> (r: Option<RangeKind>)
    requires
        start <= end <= source.spec_bytes().len(),
    ensures
        r == range_kind(source@, start as int, end as int),
{
    if start == end {
        return Some(RangeKind::Luau);
    }
    proof {
        broadcast use vstd::utf8::encode_utf8_valid_utf8;
    }
    if source.is_char_boundary(start) {
        if let Ok((node, node_end)) = parse_markup(source, start) {
            if node_end == end {
                return Some(RangeKind::Markup(node));
            }
        }
    }
    let syntax = parse_luau(vstd::slice::slice_subrange(source.as_bytes(), start, end));
    if syntax.diagnostics.len() == 0 {
        Some(RangeKind::Luau)
    } else {
        None
    }
}

fn attribute_fits(source: &str, attribute: &MarkupAttribute) -> (r: bool)
    ensures
        r == attribute_ok(*attribute, source.spec_bytes()),
{
    let n = source.as_bytes().len();
    match attribute {
        MarkupAttribute::Named { value, span, .. } => {
            if !(span.start <= span.end && span.end <= n) {
                return false;
            }
            match value {
                MarkupValue::StringLiteral(literal) => {
                    let len = literal.as_str().as_bytes().len();
                    2 <= len && len <= span.end
                },
                MarkupValue::Expression(_) => {
                    let brace = brace_span(source, *span);
                    brace.end - brace.start >= 2
                },
                MarkupValue::Boolean => true,
            }
        },
        MarkupAttribute::Spread { span } => span.start <= span.end && span.end <= n && span.end
            - span.start >= 2,
        MarkupAttribute::Inferred { span } => {
            if !(span.start <= span.end && span.end <= n) {
                return false;
            }
            let brace = brace_span(source, *span);
            brace.end - brace.start >= 2
        },
    }
}

fn child_fits(source: &str, child: &MarkupChild) -> (r: bool)
    ensures
        r == child_ok(*child, source.spec_bytes()),
    decreases child,
{
    let n = source.as_bytes().len();
    match child {
        MarkupChild::Node(node) => node_fits(source, node),
        MarkupChild::Expression { span } => span.start <= span.end && span.end <= n && span.end
            - span.start >= 2,
        MarkupChild::Text { span, .. } => span.start <= span.end && span.end <= n,
        MarkupChild::Comment { span } => span.start <= span.end && span.end <= n,
    }
}

fn children_fit(source: &str, children: &Vec<MarkupChild>) -> (r: bool)
    ensures
        r == children_ok(children@, source.spec_bytes()),
    decreases children,
{
    let mut i: usize = 0;
    while i < children.len()
        invariant
            i <= children@.len(),
            children_ok(children@.take(i as int), source.spec_bytes()),
        decreases children@.len() - i,
    {
        assert(decreases_to!(children => children@[i as int]));
        if !child_fits(source, &children[i]) {
            proof {
                if children_ok(children@, source.spec_bytes()) {
                    lemma_children_ok_prefix(children@, children@.len() as int, source.spec_bytes());
                    assert(child_ok(children@[i as int], source.spec_bytes()));
                }
            }
            return false;
        }
        assert(children@.take(i + 1).drop_last() =~= children@.take(i as int));
        i = i + 1;
    }
    assert(children@.take(i as int) =~= children@);
    true
}

fn attributes_fit(source: &str, attributes: &Vec<MarkupAttribute>) -> (r: bool)
    ensures
        r == attributes_ok(attributes@, source.spec_bytes()),
{
    let mut i: usize = 0;
    while i < attributes.len()
        invariant
            i <= attributes@.len(),
            attributes_ok(attributes@.take(i as int), source.spec_bytes()),
        decreases attributes@.len() - i,
    {
        if !attribute_fits(source, &attributes[i]) {
            proof {
                if attributes_ok(attributes@, source.spec_bytes()) {
                    lemma_attributes_ok_prefix(attributes@, attributes@.len() as int, source.spec_bytes());
                    assert(attribute_ok(attributes@[i as int], source.spec_bytes()));
                }
            }
            return false;
        }
        assert(attributes@.take(i + 1).drop_last() =~= attributes@.take(i as int));
        i = i + 1;
    }
    assert(attributes@.take(i as int) =~= attributes@);
    true
}

/// Whether every span of `node` lies in `source` and every hole has room for
/// its braces.
pub fn node_fits(source: &str, node: &MarkupNode) -> (r: bool)
    ensures
        r == node_ok(*node, source.spec_bytes()),
    decreases node,
{
    let n = source.as_bytes().len();
    match node {
        MarkupNode::Element(element) => element.span.start <= element.span.end && element.span.end
            <= n && attributes_fit(source, &element.attributes) && children_fit(
            source,
            &element.children,
        ),
        MarkupNode::Fragment(fragment) => fragment.span.start <= fragment.span.end
            && fragment.span.end <= n && children_fit(source, &fragment.children),
    }
}

pub(crate) proof fn lemma_children_ok_prefix(children: Seq<MarkupChild>, k: int, src: Seq<u8>)
    requires
        0 <= k <= children.len(),
        children_ok(children, src),
    ensures
        children_ok(children.take(k), src),
        forall|i: int| 0 <= i < k ==> child_ok(#[trigger] children[i], src),
    decreases children.len(),
{
    if k < children.len() {
        lemma_children_ok_prefix(children.drop_last(), k, src);
        assert(children.drop_last().take(k) =~= children.take(k));
        assert forall|i: int| 0 <= i < k implies child_ok(#[trigger] children[i], src) by {
            assert(children[i] == children.drop_last()[i]);
        }
    } else {
        assert(children.take(k) =~= children);
        if k > 0 {
            lemma_children_ok_prefix(children.drop_last(), k - 1, src);
            assert forall|i: int| 0 <= i < k implies child_ok(#[trigger] children[i], src) by {
                if i < k - 1 {
                    assert(children[i] == children.drop_last()[i]);
                }
            }
        }
    }
}

pub(crate) proof fn lemma_attributes_ok_prefix(attributes: Seq<MarkupAttribute>, k: int, src: Seq<u8>)
    requires
        0 <= k <= attributes.len(),
        attributes_ok(attributes, src),
    ensures
        attributes_ok(attributes.take(k), src),
        forall|i: int| 0 <= i < k ==> attribute_ok(#[trigger] attributes[i], src),
    decreases attributes.len(),
{
    if k < attributes.len() {
        lemma_attributes_ok_prefix(attributes.drop_last(), k, src);
        assert(attributes.drop_last().take(k) =~= attributes.take(k));
        assert forall|i: int| 0 <= i < k implies attribute_ok(#[trigger] attributes[i], src) by {
            assert(attributes[i] == attributes.drop_last()[i]);
        }
    } else {
        assert(attributes.take(k) =~= attributes);
        if k > 0 {
            lemma_attributes_ok_prefix(attributes.drop_last(), k - 1, src);
            assert forall|i: int| 0 <= i < k implies attribute_ok(#[trigger] attributes[i], src) by {
                if i < k - 1 {
                    assert(attributes[i] == attributes.drop_last()[i]);
                }
            }
        }
    }
}

/// One markup region of the source: its tree, and where it starts and ends.
#[derive(Debug)]
pub struct Segment {
    pub node: MarkupNode,
    pub start: usize,
    pub end: usize,
}

/// A parsed source: its markup regions in source order, where the Luau text
/// of each markup hole begins, and the spans of the top-level statements.
#[derive(Debug)]
pub struct SourceFile {
    pub segments: Vec<Segment>,
    pub hole_starts: Vec<usize>,
    pub statements: Vec<SourceSpan>,
}

pub struct FileModel {
    pub segments: Seq<Segment>,
    pub hole_starts: Seq<usize>,
    pub statements: Seq<SourceSpan>,
}

impl View for SourceFile {
    type V = FileModel;

    open spec fn view(&self) -> FileModel {
        FileModel {
            segments: self.segments@,
            hole_starts: self.hole_starts@,
            statements: self.statements@,
        }
    }
}

impl SourceFile {
    /// The markup trees, in source order.
    pub fn markup_nodes(&self) -> (r: Vec<&MarkupNode>)
        ensures
            r@.len() == self.segments@.len(),
            forall|i: int| 0 <= i < r@.len() ==> *r@[i] == self.segments@[i].node,
    {
        let mut r: Vec<&MarkupNode> = Vec::new();
        let mut i: usize = 0;
        while i < self.segments.len()
            invariant
                i <= self.segments@.len(),
                r@.len() == i,
                forall|j: int| 0 <= j < i ==> *r@[j] == self.segments@[j].node,
            decreases self.segments@.len() - i,
        {
            r.push(&self.segments[i].node);
            i = i + 1;
        }
        r
    }
}

/// Each segment lies in the source, its tree well placed, and ends where its
/// region ends.
pub open spec fn segments_fit(segments: Seq<Segment>, regions: Seq<(usize, usize)>, src: Seq<u8>) -> bool {
    &&& segments.len() == regions.len()
    &&& forall|i: int|
        0 <= i < segments.len() ==> segment_ok(#[trigger] segments[i], src) && segments[i].end
            == regions[i].1
}

/// The segment lies in the source and its tree is well placed.
pub open spec fn segment_ok(segment: Segment, src: Seq<u8>) -> bool {
    segment.start <= segment.end <= src.len() && node_ok(segment.node, src)
}

/// The markup trees of `regions`, parsed in order, or the first parse error.
pub open spec fn segments_of(t: Seq<char>, regions: Seq<(usize, usize)>) -> Result<
    Seq<Segment>,
    Seq<char>,
>
    decreases regions.len(),
{
    if regions.len() == 0 {
        Ok(Seq::empty())
    } else {
        match segments_of(t, regions.drop_last()) {
            Err(message) => Err(message),
            Ok(segments) => match markup_parse(t, regions.last().0) {
                Ok((node, end)) => Ok(
                    segments.push(Segment { node: node, start: regions.last().0, end: end }),
                ),
                Err(message) => Err(message),
            },
        }
    }
}

/// Where the Luau text of a hole begins, as an offset.
pub open spec fn hole_start(src: Seq<u8>, span: SourceSpan) -> usize {
    spec_trimmed_start(src, span) as usize
}

/// The holes of attributes: `name={...}` and `={...}`.
pub open spec fn attribute_holes(src: Seq<u8>, attributes: Seq<MarkupAttribute>) -> Seq<usize>
    decreases attributes.len(),
{
    if attributes.len() == 0 {
        Seq::empty()
    } else {
        attribute_holes(src, attributes.drop_last()) + match attributes.last() {
            MarkupAttribute::Named { value: MarkupValue::Expression(_), span, .. } => seq![
                hole_start(src, spec_brace_span(src, span)),
            ],
            MarkupAttribute::Inferred { span } => seq![hole_start(src, spec_brace_span(src, span))],
            _ => Seq::empty(),
        }
    }
}

/// The holes among children and their descendants, in source order.
pub open spec fn children_holes(src: Seq<u8>, children: Seq<MarkupChild>) -> Seq<usize>
    decreases children,
{
    if children.len() == 0 {
        Seq::empty()
    } else {
        children_holes(src, children.drop_last()) + match children.last() {
            MarkupChild::Node(node) => node_holes(src, node),
            MarkupChild::Expression { span } => seq![hole_start(src, span)],
            _ => Seq::empty(),
        }
    }
}

/// The holes of a markup tree, in source order.
pub open spec fn node_holes(src: Seq<u8>, node: MarkupNode) -> Seq<usize>
    decreases node,
{
    match node {
        MarkupNode::Element(element) => attribute_holes(src, element.attributes@) + children_holes(
            src,
            element.children@,
        ),
        MarkupNode::Fragment(fragment) => children_holes(src, fragment.children@),
    }
}

/// The holes of the segments, in order.
pub open spec fn segments_holes(src: Seq<u8>, segments: Seq<Segment>) -> Seq<usize>
    decreases segments.len(),
{
    if segments.len() == 0 {
        Seq::empty()
    } else {
        segments_holes(src, segments.drop_last()) + node_holes(src, segments.last().node)
    }
}

/// The message of a Luau diagnostic: `byte N: message`.
pub open spec fn diagnostic_message(d: LuauDiagnostic) -> Seq<char> {
    "byte "@ + decimal(d.start as nat) + ": "@ + d.message@
}

/// Message for markup that the parser placed outside the source.
pub open spec fn misplaced_message() -> Seq<char> {
    "LuauX markup lies outside the source"@
}

/// What `parse` makes of a source: the compiler's LuauX regions, each parsed
/// into a tree, with the regions blanked so that the rest parses as Luau; the
/// first Luau diagnostic or markup error fails the parse.
pub open spec fn parse_file(t: Seq<char>) -> Result<FileModel, Seq<char>> {
    let src = encode_utf8(t);
    let regions = luaux_regions(t);
    if !regions_ok(src, regions) {
        Err(misplaced_message())
    } else {
        let syntax = luau_parse(encode_utf8(blanked(t, regions)));
        if syntax.diagnostics@.len() > 0 {
            Err(diagnostic_message(syntax.diagnostics@[0]))
        } else {
            match segments_of(t, regions) {
                Err(message) => Err(message),
                Ok(segments) => if segments_fit(segments, regions, src) {
                    Ok(
                        FileModel {
                            segments: segments,
                            hole_starts: segments_holes(src, segments),
                            statements: syntax.statements@,
                        },
                    )
                } else {
                    Err(misplaced_message())
                },
            }
        }
    }
}

/// Whether the regions are ordered, disjoint ranges of the source between char
/// boundaries.
fn regions_fit(source: &str, regions: &Vec<(usize, usize)>) -> (r: bool)
    ensures
        r == regions_ok(source.spec_bytes(), regions@),
{
    let n = source.as_bytes().len();
    let mut i: usize = 0;
    while i < regions.len()
        invariant
            i <= regions@.len(),
            n == source.spec_bytes().len(),
            regions_ok(source.spec_bytes(), regions@.take(i as int)),
        decreases regions@.len() - i,
    {
        let (start, end) = regions[i];
        let fits = start <= end && end <= n && source.is_char_boundary(start)
            && source.is_char_boundary(end) && (i == 0 || regions[i - 1].1 <= start);
        if !fits {
            assert(!regions_ok(source.spec_bytes(), regions@)) by {
                assert(regions@[i as int] == (start, end));
            }
            return false;
        }
        assert(regions_ok(source.spec_bytes(), regions@.take(i + 1))) by {
            assert forall|j: int| 0 <= j < i + 1 implies #[trigger] regions@.take(i + 1)[j]
                == regions@[j] by {}
            assert forall|j: int| 0 <= j < i implies #[trigger] regions@.take(i as int)[j]
                == regions@[j] by {}
        }
        i = i + 1;
    }
    assert(regions@.take(i as int) =~= regions@);
    true
}

fn push_attribute_holes(source: &str, attributes: &Vec<MarkupAttribute>, out: &mut Vec<usize>)
    requires
        attributes_ok(attributes@, source.spec_bytes()),
    ensures
        final(out)@ == old(out)@ + attribute_holes(source.spec_bytes(), attributes@),
{
    let ghost src = source.spec_bytes();
    let ghost before = out@;
    proof {
        lemma_attributes_ok_prefix(attributes@, attributes@.len() as int, src);
    }
    let mut i: usize = 0;
    assert(before + attribute_holes(src, attributes@.take(0)) =~= before);
    while i < attributes.len()
        invariant
            i <= attributes@.len(),
            src == source.spec_bytes(),
            forall|j: int| 0 <= j < attributes@.len() ==> attribute_ok(#[trigger] attributes@[j], src),
            out@ == before + attribute_holes(src, attributes@.take(i as int)),
        decreases attributes@.len() - i,
    {
        assert(attributes@.take(i + 1).drop_last() =~= attributes@.take(i as int));
        assert(attributes@.take(i + 1).last() == attributes@[i as int]);
        assert(attribute_ok(attributes@[i as int], src));
        match &attributes[i] {
            MarkupAttribute::Named { value: MarkupValue::Expression(_), span, .. } => {
                out.push(trimmed_start(source, brace_span(source, *span)));
            },
            MarkupAttribute::Inferred { span } => {
                out.push(trimmed_start(source, brace_span(source, *span)));
            },
            _ => {},
        }
        assert(out@ =~= before + attribute_holes(src, attributes@.take(i + 1)));
        i = i + 1;
    }
    assert(attributes@.take(i as int) =~= attributes@);
}

fn push_children_holes(source: &str, children: &Vec<MarkupChild>, out: &mut Vec<usize>)
    requires
        children_ok(children@, source.spec_bytes()),
    ensures
        final(out)@ == old(out)@ + children_holes(source.spec_bytes(), children@),
    decreases children,
{
    let ghost src = source.spec_bytes();
    let ghost before = out@;
    proof {
        lemma_children_ok_prefix(children@, children@.len() as int, src);
    }
    let mut i: usize = 0;
    assert(before + children_holes(src, children@.take(0)) =~= before);
    while i < children.len()
        invariant
            i <= children@.len(),
            src == source.spec_bytes(),
            forall|j: int| 0 <= j < children@.len() ==> child_ok(#[trigger] children@[j], src),
            out@ == before + children_holes(src, children@.take(i as int)),
        decreases children@.len() - i,
    {
        assert(children@.take(i + 1).drop_last() =~= children@.take(i as int));
        assert(children@.take(i + 1).last() == children@[i as int]);
        assert(child_ok(children@[i as int], src));
        assert(decreases_to!(children => children@[i as int]));
        match &children[i] {
            MarkupChild::Node(node) => {
                push_node_holes(source, node, out);
            },
            MarkupChild::Expression { span } => {
                out.push(trimmed_start(source, *span));
            },
            _ => {},
        }
        assert(out@ =~= before + children_holes(src, children@.take(i + 1)));
        i = i + 1;
    }
    assert(children@.take(i as int) =~= children@);
}

fn push_node_holes(source: &str, node: &MarkupNode, out: &mut Vec<usize>)
    requires
        node_ok(*node, source.spec_bytes()),
    ensures
        final(out)@ == old(out)@ + node_holes(source.spec_bytes(), *node),
    decreases node,
{
    let ghost before = out@;
    match node {
        MarkupNode::Element(element) => {
            push_attribute_holes(source, &element.attributes, out);
            push_children_holes(source, &element.children, out);
            assert(out@ =~= before + node_holes(source.spec_bytes(), *node));
        },
        MarkupNode::Fragment(fragment) => {
            push_children_holes(source, &fragment.children, out);
        },
    }
}

/// A parse error met in a region stands for the whole sequence of regions.
proof fn lemma_segments_error(t: Seq<char>, regions: Seq<(usize, usize)>, k: int)
    requires
        0 <= k <= regions.len(),
        segments_of(t, regions.take(k)) is Err,
    ensures
        segments_of(t, regions) == segments_of(t, regions.take(k)),
    decreases regions.len(),
{
    if k == regions.len() {
        assert(regions.take(k) =~= regions);
    } else {
        assert(regions.drop_last().take(k) =~= regions.take(k));
        lemma_segments_error(t, regions.drop_last(), k);
    }
}

/// `byte N: message` for a Luau diagnostic.
fn diagnostic_text(d: &LuauDiagnostic) -> (r: String)
    ensures
        r@ == diagnostic_message(*d),
{
    let mut r = String::from_str("byte ");
    push_decimal(&mut r, d.start);
    r.append(": ");
    r.append(d.message.as_str());
    r
}

/// Parses a LuauX source: the compiler's LuauX regions become markup trees,
/// and the rest, with the regions blanked, is read by the Luau parser.
pub fn parse(source: &str) -> (r: Result<SourceFile, String>)
    ensures
        match r {
            Ok(file) => parse_file(source@) == Ok::<FileModel, Seq<char>>(file@),
            Err(message) => parse_file(source@) == Err::<FileModel, Seq<char>>(message@),
        },
        r matches Ok(file) ==> forall|i: int, j: int|
            0 <= i < j < file.segments@.len() ==> #[trigger] file.segments@[i].end
                <= #[trigger] file.segments@[j].start,
{
    proof {
        parsed_segments_are_disjoint(source@);
    }
    let ghost t = source@;
    let ghost src = source.spec_bytes();
    let n = source.as_bytes().len();
    let regions = markup_regions(source);
    if !regions_fit(source, &regions) {
        return Err(String::from_str("LuauX markup lies outside the source"));
    }
    let blank = blank_regions(source, &regions);
    let syntax = parse_luau(blank.as_str().as_bytes());
    if syntax.diagnostics.len() > 0 {
        return Err(diagnostic_text(&syntax.diagnostics[0]));
    }
    let mut segments: Vec<Segment> = Vec::new();
    let mut i: usize = 0;
    assert(regions@.take(0) =~= Seq::<(usize, usize)>::empty());
    while i < regions.len()
        invariant
            i <= regions@.len(),
            t == source@,
            src == source.spec_bytes(),
            regions@ == luaux_regions(t),
            regions_ok(src, regions@),
            syntax == luau_parse(encode_utf8(blanked(t, regions@))),
            syntax.diagnostics@.len() == 0,
            segments_of(t, regions@.take(i as int)) == Ok::<Seq<Segment>, Seq<char>>(segments@),
        decreases regions@.len() - i,
    {
        let (start, _) = regions[i];
        assert(regions@.take(i + 1).drop_last() =~= regions@.take(i as int));
        assert(regions@.take(i + 1).last() == regions@[i as int]);
        assert(regions@[i as int].0 <= regions@[i as int].1 <= src.len());
        assert(vstd::utf8::is_char_boundary(src, regions@[i as int].0 as int));
        match parse_markup(source, start) {
            Ok((node, end)) => {
                segments.push(Segment { node: node, start: start, end: end });
            },
            Err(message) => {
                proof {
                    lemma_segments_error(t, regions@, i + 1);
                }
                return Err(message);
            },
        }
        i = i + 1;
    }
    assert(regions@.take(i as int) =~= regions@);
    if segments.len() != regions.len() {
        return Err(String::from_str("LuauX markup lies outside the source"));
    }
    let mut k: usize = 0;
    while k < segments.len()
        invariant
            k <= segments@.len() == regions@.len(),
            src == source.spec_bytes(),
            n == src.len(),
            t == source@,
            regions@ == luaux_regions(t),
            regions_ok(src, regions@),
            syntax == luau_parse(encode_utf8(blanked(t, regions@))),
            syntax.diagnostics@.len() == 0,
            segments_of(t, regions@) == Ok::<Seq<Segment>, Seq<char>>(segments@),
            forall|j: int|
                0 <= j < k ==> segment_ok(#[trigger] segments@[j], src) && segments@[j].end
                    == regions@[j].1,
        decreases segments@.len() - k,
    {
        let segment = &segments[k];
        if !(segment.start <= segment.end && segment.end <= n && segment.end == regions[k].1
            && node_fits(source, &segment.node)) {
            assert(!segments_fit(segments@, regions@, src)) by {
                assert(!(segment_ok(segments@[k as int], src) && segments@[k as int].end
                    == regions@[k as int].1));
            }
            return Err(String::from_str("LuauX markup lies outside the source"));
        }
        k = k + 1;
    }
    assert(segments_fit(segments@, regions@, src));
    let mut hole_starts: Vec<usize> = Vec::new();
    let mut k: usize = 0;
    assert(segments@.take(0) =~= Seq::<Segment>::empty());
    while k < segments.len()
        invariant
            k <= segments@.len(),
            src == source.spec_bytes(),
            forall|j: int| 0 <= j < segments@.len() ==> segment_ok(#[trigger] segments@[j], src),
            t == source@,
            regions@ == luaux_regions(t),
            regions_ok(src, regions@),
            syntax == luau_parse(encode_utf8(blanked(t, regions@))),
            syntax.diagnostics@.len() == 0,
            segments_of(t, regions@) == Ok::<Seq<Segment>, Seq<char>>(segments@),
            hole_starts@ == segments_holes(src, segments@.take(k as int)),
        decreases segments@.len() - k,
    {
        assert(segments@.take(k + 1).drop_last() =~= segments@.take(k as int));
        assert(segments@.take(k + 1).last() == segments@[k as int]);
        assert(segment_ok(segments@[k as int], src));
        push_node_holes(source, &segments[k].node, &mut hole_starts);
        k = k + 1;
    }
    assert(segments@.take(k as int) =~= segments@);
    Ok(SourceFile { segments: segments, hole_starts: hole_starts, statements: syntax.statements })
}


proof fn lemma_segments_of_starts(t: Seq<char>, regions: Seq<(usize, usize)>)
    ensures
        segments_of(t, regions) matches Ok(segments) ==> segments.len() == regions.len() && forall|
            i: int,
        | 0 <= i < segments.len() ==> #[trigger] segments[i].start == regions[i].0,
    decreases regions.len(),
{
    if regions.len() > 0 {
        lemma_segments_of_starts(t, regions.drop_last());
        if let Ok(segments) = segments_of(t, regions) {
            let previous = segments_of(t, regions.drop_last())->Ok_0;
            assert forall|i: int| 0 <= i < segments.len() implies #[trigger] segments[i].start
                == regions[i].0 by {
                if i < segments.len() - 1 {
                    assert(segments[i] == previous[i]);
                    assert(regions.drop_last()[i] == regions[i]);
                }
            }
        }
    }
}

proof fn lemma_regions_ordered(src: Seq<u8>, regions: Seq<(usize, usize)>, i: int, j: int)
    requires
        regions_ok(src, regions),
        0 <= i < j < regions.len(),
    ensures
        regions[i].1 <= regions[j].0,
    decreases j - i,
{
    assert(regions[j - 1].1 <= regions[j].0);
    if i < j - 1 {
        lemma_regions_ordered(src, regions, i, j - 1);
        assert(regions[j - 1].0 <= regions[j - 1].1);
    }
}

/// The markup regions of a parsed source come in order and do not overlap:
/// each segment ends at or before the start of the next, so none lies inside
/// another.
pub proof fn parsed_segments_are_disjoint(t: Seq<char>)
    ensures
        parse_file(t) matches Ok(file) ==> forall|i: int, j: int|
            0 <= i < j < file.segments.len() ==> #[trigger] file.segments[i].end
                <= #[trigger] file.segments[j].start,
{
    if let Ok(file) = parse_file(t) {
        let regions = luaux_regions(t);
        let src = encode_utf8(t);
        lemma_segments_of_starts(t, regions);
        assert forall|i: int, j: int| 0 <= i < j < file.segments.len() implies #[trigger] file.segments[i].end
            <= #[trigger] file.segments[j].start by {
            lemma_regions_ordered(src, regions, i, j);
            assert(file.segments[i].end == regions[i].1);
            assert(file.segments[j].start == regions[j].0);
        }
    }
}

} // verus!
