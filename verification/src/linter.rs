//! Linting LuauX markup: findings from the markup trees and from the
//! compiler, located in the source and in source order.
use vstd::prelude::*;
use vstd::string::StringSliceAdditionalSpecFns;
use vstd::utf8::*;
use crate::formatter::closes_itself;
use crate::json::same_text;
use crate::markup::{attribute_ok, children_ok, child_ok, node_ok, MarkupAttribute, MarkupChild, MarkupElement, MarkupNode, MarkupValue, SourceSpan};
use crate::outside::{backend, compile_lenient, config_backend, diagnostic_models, set_child_level, with_child_level, LintChoice, CompilerDiagnostic, DiagnosticModel};
use crate::protocol::{finding_views, Finding, FindingView};
use crate::source::{lemma_attributes_ok_prefix, lemma_children_ok_prefix, parse, parse_file, segment_ok, FileModel, SourceFile};
use crate::source::Segment;

verus! {

/// The greatest char boundary at or before `i`.
pub open spec fn char_floor(src: Seq<u8>, i: int) -> int
    decreases i,
{
    if i <= 0 {
        0
    } else if is_char_boundary(src, i) {
        i
    } else {
        char_floor(src, i - 1)
    }
}

/// Where a mark at `offset` starts: the greatest char boundary at or before
/// `offset`, within the source.
pub open spec fn mark_start_of(src: Seq<u8>, offset: int) -> int {
    char_floor(src, if offset < src.len() { offset } else { src.len() as int })
}

/// Where a mark of `length` bytes at `offset` ends: at least one byte past its
/// start while the source goes on, moved back to a char boundary, within the
/// source.
pub open spec fn mark_end_of(src: Seq<u8>, offset: int, length: int) -> int {
    let start = mark_start_of(src, offset);
    let least = if start < src.len() { start + 1 } else { start };
    mark_start_of(src, if start + length > least { start + length } else { least })
}

proof fn lemma_char_floor(src: Seq<u8>, i: int)
    requires
        valid_utf8(src),
        0 <= i <= src.len(),
    ensures
        0 <= char_floor(src, i) <= i,
        is_char_boundary(src, char_floor(src, i)),
        forall|j: int| char_floor(src, i) < j <= i ==> !is_char_boundary(src, j),
    decreases i,
{
    if i > 0 && !is_char_boundary(src, i) {
        lemma_char_floor(src, i - 1);
    }
}

/// The greatest char boundary of `source` at or before `offset` (the end of the
/// source when `offset` is past it).
pub fn mark_start(source: &str, offset: usize) -> (r: usize)
    ensures
        r == mark_start_of(source.spec_bytes(), offset as int),
        r <= offset,
        r <= source.spec_bytes().len(),
        is_char_boundary(source.spec_bytes(), r as int),
        forall|j: int|
            r < j <= offset && j <= source.spec_bytes().len() ==> !is_char_boundary(
                source.spec_bytes(),
                j,
            ),
{
    proof {
        broadcast use vstd::utf8::encode_utf8_valid_utf8;
    }
    let n = source.as_bytes().len();
    let mut i = if offset < n {
        offset
    } else {
        n
    };
    let ghost top = i as int;
    proof {
        lemma_char_floor(source.spec_bytes(), top);
    }
    while !source.is_char_boundary(i)
        invariant
            0 <= i <= top <= source.spec_bytes().len(),
            char_floor(source.spec_bytes(), top) == char_floor(source.spec_bytes(), i as int),
            valid_utf8(source.spec_bytes()),
        decreases i,
    {
        assert(i > 0);
        i = i - 1;
    }
    i
}

/// Where a mark of `length` bytes at `offset` ends.
pub fn mark_end(source: &str, offset: usize, length: usize) -> (r: usize)
    ensures
        r == mark_end_of(source.spec_bytes(), offset as int, length as int),
        r <= source.spec_bytes().len(),
        is_char_boundary(source.spec_bytes(), r as int),
        mark_start_of(source.spec_bytes(), offset as int) <= r,
{
    let start = mark_start(source, offset);
    let n = source.as_bytes().len();
    let least = if start < n {
        start + 1
    } else {
        start
    };
    let sum = start.saturating_add(length);
    let target = if sum > least {
        sum
    } else {
        least
    };
    let r = mark_start(source, target);
    proof {
        broadcast use vstd::utf8::encode_utf8_valid_utf8;
        lemma_char_floor(source.spec_bytes(), if target < n { target as int } else { n as int });
    }
    r
}

/// Whether `needle` occurs in `hay`.
pub open spec fn contains_bytes(hay: Seq<u8>, needle: Seq<u8>) -> bool {
    exists|i: int| 0 <= i && i + needle.len() <= hay.len() && #[trigger] hay.subrange(i, i + needle.len()) == needle
}

/// Whether the source text at `start..end` is whole characters that the
/// message quotes.
pub open spec fn fits_spec(src: Seq<u8>, start: int, end: int, message: Seq<u8>) -> bool {
    &&& 0 <= start <= end <= src.len()
    &&& is_char_boundary(src, start)
    &&& is_char_boundary(src, end)
    &&& contains_bytes(message, src.subrange(start, end))
}

/// Whether `hay[at..]` starts with `needle[from..to]`.
fn occurs_at(hay: &[u8], at: usize, needle: &[u8], from: usize, to: usize) -> (r: bool)
    requires
        from <= to <= needle@.len(),
        at + (to - from) <= hay@.len(),
    ensures
        r == (hay@.subrange(at as int, at + (to - from)) == needle@.subrange(from as int, to as int)),
{
    let ghost x = hay@.subrange(at as int, at + (to - from));
    let ghost y = needle@.subrange(from as int, to as int);
    let hn = hay.len();
    let mut k: usize = 0;
    while k < to - from
        invariant
            hn == hay@.len(),
            from <= to <= needle@.len(),
            at + (to - from) <= hay@.len(),
            x == hay@.subrange(at as int, at + (to - from)),
            y == needle@.subrange(from as int, to as int),
            k <= to - from,
            forall|j: int| 0 <= j < k ==> #[trigger] x[j] == y[j],
        decreases to - from - k,
    {
        assert(at + k < hay@.len());
        if hay[at + k] != needle[from + k] {
            assert(x[k as int] != y[k as int]);
            return false;
        }
        k = k + 1;
    }
    assert(x =~= y);
    true
}

/// Whether the source text at `start..end` is whole characters that `message`
/// quotes.
pub fn fits(source: &str, start: usize, end: usize, message: &str) -> (r: bool)
    ensures
        r == fits_spec(source.spec_bytes(), start as int, end as int, message.spec_bytes()),
{
    let bytes = source.as_bytes();
    let hay = message.as_bytes();
    if !(start <= end && end <= bytes.len() && source.is_char_boundary(start)
        && source.is_char_boundary(end)) {
        return false;
    }
    contains_slice(hay, vstd::slice::slice_subrange(bytes, start, end))
}

/// Whether `needle` occurs in `hay`.
pub fn contains_slice(hay: &[u8], needle: &[u8]) -> (r: bool)
    ensures
        r == contains_bytes(hay@, needle@),
{
    let k = needle.len();
    if k > hay.len() {
        assert(!contains_bytes(hay@, needle@));
        return false;
    }
    let limit = hay.len() - k;
    let mut i: usize = 0;
    loop
        invariant
            k == needle@.len() <= hay@.len(),
            limit == hay@.len() - k,
            i <= limit,
            forall|j: int| 0 <= j < i ==> #[trigger] hay@.subrange(j, j + k) != needle@,
        ensures
            forall|j: int| 0 <= j <= limit ==> #[trigger] hay@.subrange(j, j + k) != needle@,
        decreases limit - i,
    {
        assert(needle@.subrange(0, k as int) =~= needle@);
        if occurs_at(hay, i, needle, 0, k) {
            assert(hay@.subrange(i as int, i + needle@.len()) == needle@);
            return true;
        }
        if i == limit {
            break;
        }
        i = i + 1;
    }
    assert(!contains_bytes(hay@, needle@)) by {
        if contains_bytes(hay@, needle@) {
            let w = choose|w: int|
                0 <= w && w + needle@.len() <= hay@.len() && #[trigger] hay@.subrange(
                    w,
                    w + needle@.len(),
                ) == needle@;
            assert(hay@.subrange(w, w + k) != needle@);
        }
    }
    false
}

/// The first hole at which the diagnostic's text is found, as an offset.
pub open spec fn first_fit(
    src: Seq<u8>,
    holes: Seq<usize>,
    offset: int,
    length: int,
    message: Seq<u8>,
) -> Option<int>
    decreases holes.len(),
{
    if holes.len() == 0 {
        None
    } else if fits_spec(src, holes[0] + offset, holes[0] + offset + length, message) {
        Some(holes[0] + offset)
    } else {
        first_fit(src, holes.drop_first(), offset, length, message)
    }
}

/// Where a compiler diagnostic's mark goes: at its offset when the source
/// there is the text it quotes; else at the first hole where that is so (a
/// hole's expression is compiled on its own, so its offsets count from the
/// hole); else at its offset anyway.
pub open spec fn locate_spec(
    src: Seq<u8>,
    holes: Seq<usize>,
    offset: int,
    length: int,
    message: Seq<u8>,
) -> (int, int) {
    let at = if fits_spec(src, offset, offset + length, message) {
        offset
    } else {
        match first_fit(src, holes, offset, length, message) {
            Some(start) => start,
            None => offset,
        }
    };
    (mark_start_of(src, at), mark_end_of(src, at, length))
}

pub fn locate(source: &str, file: &SourceFile, offset: usize, length: usize, message: &str) -> (r: (
    usize,
    usize,
))
    ensures
        r.0 == locate_spec(
            source.spec_bytes(),
            file.hole_starts@,
            offset as int,
            length as int,
            message.spec_bytes(),
        ).0,
        r.1 == locate_spec(
            source.spec_bytes(),
            file.hole_starts@,
            offset as int,
            length as int,
            message.spec_bytes(),
        ).1,
{
    let ghost src = source.spec_bytes();
    let ghost msg = message.spec_bytes();
    let n = source.as_bytes().len();
    if offset <= n && length <= n - offset && fits(source, offset, offset + length, message) {
        return (mark_start(source, offset), mark_end(source, offset, length));
    }
    assert(!fits_spec(src, offset as int, offset + length, msg));
    let ghost holes = file.hole_starts@;
    let mut i: usize = 0;
    assert(holes.skip(0) =~= holes);
    while i < file.hole_starts.len()
        invariant
            i <= holes.len(),
            holes == file.hole_starts@,
            n == src.len(),
            src == source.spec_bytes(),
            msg == message.spec_bytes(),
            !fits_spec(src, offset as int, offset + length, msg),
            first_fit(src, holes, offset as int, length as int, msg) == first_fit(
                src,
                holes.skip(i as int),
                offset as int,
                length as int,
                msg,
            ),
        decreases holes.len() - i,
    {
        let hole = file.hole_starts[i];
        assert(holes.skip(i as int)[0] == hole);
        assert(holes.skip(i as int).drop_first() =~= holes.skip(i + 1));
        if hole <= n && offset <= n - hole && length <= n - hole - offset {
            let start = hole + offset;
            if fits(source, start, start + length, message) {
                return (mark_start(source, start), mark_end(source, start, length));
            }
        }
        i = i + 1;
    }
    (mark_start(source, offset), mark_end(source, offset, length))
}

/// A finding over `span`.
pub open spec fn found(rule: Seq<char>, span: SourceSpan, message: Seq<char>) -> FindingView {
    FindingView { rule: rule, message: message, start: span.start, end: span.end }
}

fn finding(rule: &str, span: SourceSpan, message: String) -> (f: Finding)
    ensures
        f@ == found(rule@, span, message@),
{
    Finding { rule: String::from_str(rule), message: message, start: span.start, end: span.end }
}

/// Whether an attribute before the `i`th is named `name`.
pub open spec fn named_before(attributes: Seq<MarkupAttribute>, i: int, name: Seq<char>) -> bool {
    exists|j: int| 0 <= j < i && has_name(#[trigger] attributes[j], name)
}

/// Whether the attribute is named `name`.
pub open spec fn has_name(attribute: MarkupAttribute, name: Seq<char>) -> bool {
    match attribute {
        MarkupAttribute::Named { name: n, .. } => n@ == name,
        _ => false,
    }
}

/// The findings of the `i`th attribute: a name used before, and `{true}` where
/// the bare name says the same.
pub open spec fn attribute_findings_at(attributes: Seq<MarkupAttribute>, i: int) -> Seq<FindingView> {
    match attributes[i] {
        MarkupAttribute::Named { name, value, span } => (if named_before(attributes, i, name@) {
            seq![found("duplicate_attribute"@, span, "duplicate attribute "@ + name@)]
        } else {
            seq![]
        }) + (if value matches MarkupValue::Expression(e) && e@ == "true"@ {
            seq![
                found(
                    "explicit_true_attribute"@,
                    span,
                    name@ + "={true} can be written as "@ + name@,
                ),
            ]
        } else {
            seq![]
        }),
        _ => seq![],
    }
}

/// The findings of the first `k` attributes.
pub open spec fn attribute_findings(attributes: Seq<MarkupAttribute>, k: int) -> Seq<FindingView>
    decreases k,
{
    if k <= 0 {
        seq![]
    } else {
        attribute_findings(attributes, k - 1) + attribute_findings_at(attributes, k - 1)
    }
}

/// Text that starts like a Luau or C comment: `--` or `//`.
pub open spec fn comment_like(b: Seq<u8>) -> bool {
    b.len() >= 2 && ((b[0] == 0x2D && b[1] == 0x2D) || (b[0] == 0x2F && b[1] == 0x2F))
}

pub open spec fn children_findings(src: Seq<u8>, children: Seq<MarkupChild>) -> Seq<FindingView>
    decreases children,
{
    if children.len() == 0 {
        seq![]
    } else {
        children_findings(src, children.drop_last()) + match children.last() {
            MarkupChild::Node(node) => (if node is Fragment {
                seq![found("useless_fragment"@, node.span_of(), "fragment adds no level"@)]
            } else {
                seq![]
            }) + node_findings(src, node),
            MarkupChild::Text { text, span } => if comment_like(encode_utf8(text@)) {
                seq![found("comment_as_text"@, span, "comment-like text is displayed"@)]
            } else {
                seq![]
            },
            _ => seq![],
        }
    }
}

/// The findings of a markup tree, in the order of its source.
pub open spec fn node_findings(src: Seq<u8>, node: MarkupNode) -> Seq<FindingView>
    decreases node,
{
    match node {
        MarkupNode::Element(element) => attribute_findings(
            element.attributes@,
            element.attributes@.len() as int,
        ) + children_findings(src, element.children@) + if element.children@.len() == 0
            && !closes_itself(src, element.span) {
            seq![found("self_closing_element"@, element.span, "empty element can self-close"@)]
        } else {
            seq![]
        },
        MarkupNode::Fragment(fragment) => children_findings(src, fragment.children@),
    }
}

/// Appends `f` to `findings`.
fn push_finding(findings: &mut Vec<Finding>, f: Finding)
    ensures
        finding_views(final(findings)@) == finding_views(old(findings)@).push(f@),
{
    let ghost before = findings@;
    findings.push(f);
    assert(finding_views(findings@) =~= finding_views(before).push(f@));
}

fn attribute_named_before(attributes: &Vec<MarkupAttribute>, i: usize, name: &String) -> (r: bool)
    requires
        i <= attributes@.len(),
    ensures
        r == named_before(attributes@, i as int, name@),
{
    let mut j: usize = 0;
    while j < i
        invariant
            i <= attributes@.len(),
            j <= i,
            forall|k: int| 0 <= k < j ==> !has_name(#[trigger] attributes@[k], name@),
        decreases i - j,
    {
        match &attributes[j] {
            MarkupAttribute::Named { name: seen, .. } => {
                if same_text(seen.as_str(), name.as_str()) {
                    assert(has_name(attributes@[j as int], name@));
                    return true;
                }
            },
            _ => {},
        }
        j = j + 1;
    }
    false
}

fn check_attributes(attributes: &Vec<MarkupAttribute>, findings: &mut Vec<Finding>)
    ensures
        finding_views(final(findings)@) == finding_views(old(findings)@) + attribute_findings(
            attributes@,
            attributes@.len() as int,
        ),
{
    let ghost before = finding_views(findings@);
    let mut i: usize = 0;
    assert(before + attribute_findings(attributes@, 0) =~= before);
    while i < attributes.len()
        invariant
            i <= attributes@.len(),
            finding_views(findings@) == before + attribute_findings(attributes@, i as int),
        decreases attributes@.len() - i,
    {
        let ghost previous = finding_views(findings@);
        match &attributes[i] {
            MarkupAttribute::Named { name, value, span } => {
                if attribute_named_before(attributes, i, name) {
                    let mut message = String::from_str("duplicate attribute ");
                    message.append(name.as_str());
                    push_finding(findings, finding("duplicate_attribute", *span, message));
                }
                let explicit = match value {
                    MarkupValue::Expression(e) => same_text(e.as_str(), "true"),
                    _ => false,
                };
                if explicit {
                    let mut message = String::from_str(name.as_str());
                    message.append("={true} can be written as ");
                    message.append(name.as_str());
                    push_finding(findings, finding("explicit_true_attribute", *span, message));
                }
                assert(finding_views(findings@) =~= previous + attribute_findings_at(
                    attributes@,
                    i as int,
                ));
            },
            _ => {
                assert(finding_views(findings@) =~= previous + attribute_findings_at(
                    attributes@,
                    i as int,
                ));
            },
        }
        assert(finding_views(findings@) =~= before + attribute_findings(attributes@, i + 1));
        i = i + 1;
    }
}

fn check_children(source: &str, children: &Vec<MarkupChild>, findings: &mut Vec<Finding>)
    requires
        children_ok(children@, source.spec_bytes()),
    ensures
        finding_views(final(findings)@) == finding_views(old(findings)@) + children_findings(
            source.spec_bytes(),
            children@,
        ),
    decreases children,
{
    let ghost src = source.spec_bytes();
    let ghost before = finding_views(findings@);
    proof {
        lemma_children_ok_prefix(children@, children@.len() as int, src);
    }
    let mut i: usize = 0;
    assert(before + children_findings(src, children@.take(0)) =~= before);
    while i < children.len()
        invariant
            i <= children@.len(),
            src == source.spec_bytes(),
            forall|j: int| 0 <= j < children@.len() ==> child_ok(#[trigger] children@[j], src),
            finding_views(findings@) == before + children_findings(src, children@.take(i as int)),
        decreases children@.len() - i,
    {
        assert(children@.take(i + 1).drop_last() =~= children@.take(i as int));
        assert(children@.take(i + 1).last() == children@[i as int]);
        assert(child_ok(children@[i as int], src));
        assert(decreases_to!(children => children@[i as int]));
        match &children[i] {
            MarkupChild::Node(node) => {
                match node {
                    MarkupNode::Fragment(fragment) => {
                        push_finding(
                            findings,
                            finding(
                                "useless_fragment",
                                fragment.span,
                                String::from_str("fragment adds no level"),
                            ),
                        );
                    },
                    _ => {},
                }
                check_node(source, node, findings);
            },
            MarkupChild::Text { text, span } => {
                let b = text.as_str().as_bytes();
                if b.len() >= 2 && ((b[0] == 0x2D && b[1] == 0x2D) || (b[0] == 0x2F && b[1]
                    == 0x2F)) {
                    push_finding(
                        findings,
                        finding(
                            "comment_as_text",
                            *span,
                            String::from_str("comment-like text is displayed"),
                        ),
                    );
                }
            },
            _ => {},
        }
        assert(finding_views(findings@) =~= before + children_findings(src, children@.take(i + 1)));
        i = i + 1;
    }
    assert(children@.take(i as int) =~= children@);
}

/// Appends the findings of a markup tree.
pub fn check_node(source: &str, node: &MarkupNode, findings: &mut Vec<Finding>)
    requires
        node_ok(*node, source.spec_bytes()),
    ensures
        finding_views(final(findings)@) == finding_views(old(findings)@) + node_findings(
            source.spec_bytes(),
            *node,
        ),
    decreases node,
{
    let ghost before = finding_views(findings@);
    match node {
        MarkupNode::Element(element) => {
            check_attributes(&element.attributes, findings);
            check_children(source, &element.children, findings);
            let bytes = source.as_bytes();
            let span = element.span;
            let closes = span.end - span.start >= 2 && bytes[span.end - 2] == 0x2F && bytes[span.end
                - 1] == 0x3E;
            if element.children.len() == 0 && !closes {
                push_finding(
                    findings,
                    finding(
                        "self_closing_element",
                        span,
                        String::from_str("empty element can self-close"),
                    ),
                );
            }
            assert(finding_views(findings@) =~= before + node_findings(source.spec_bytes(), *node));
        },
        MarkupNode::Fragment(fragment) => {
            check_children(source, &fragment.children, findings);
        },
    }
}

/// A compiler warning as a finding: `static_conditional_child` for a child
/// that is built once, `compile_warning` for any other.
pub open spec fn warning_as_finding(src: Seq<u8>, holes: Seq<usize>, d: DiagnosticModel) -> FindingView {
    let message = encode_utf8(d.message);
    let (start, end) = locate_spec(src, holes, d.offset as int, d.length as int, message);
    FindingView {
        rule: if contains_bytes(message, encode_utf8("built once"@)) {
            "static_conditional_child"@
        } else {
            "compile_warning"@
        },
        message: d.message,
        start: start as usize,
        end: end as usize,
    }
}

/// A resolution error the compiler recovered from, as a finding.
pub open spec fn error_as_finding(src: Seq<u8>, holes: Seq<usize>, d: DiagnosticModel) -> FindingView {
    let (start, end) = locate_spec(
        src,
        holes,
        d.offset as int,
        d.length as int,
        encode_utf8(d.message),
    );
    FindingView { rule: "unresolved_name"@, message: d.message, start: start as usize, end: end as usize }
}

/// The error a compile stopped at, as a finding at its offset, at least one
/// character long.
pub open spec fn stop_finding(src: Seq<u8>, d: DiagnosticModel) -> FindingView {
    let length: int = if d.length >= 1 {
        d.length as int
    } else {
        1
    };
    FindingView {
        rule: "compile_error"@,
        message: d.message,
        start: mark_start_of(src, d.offset as int) as usize,
        end: mark_end_of(src, d.offset as int, length) as usize,
    }
}

/// The findings of what the compiler reported.
pub open spec fn compiler_findings(
    src: Seq<u8>,
    holes: Seq<usize>,
    outcome: Result<(Seq<char>, Seq<DiagnosticModel>, Seq<DiagnosticModel>), DiagnosticModel>,
) -> Seq<FindingView> {
    match outcome {
        Ok((_, warnings, errors)) => warnings.map_values(
            |d: DiagnosticModel| warning_as_finding(src, holes, d),
        ) + errors.map_values(|d: DiagnosticModel| error_as_finding(src, holes, d)),
        Err(error) => seq![stop_finding(src, error)],
    }
}

pub fn compiler_finding(source: &str, file: &SourceFile, d: &CompilerDiagnostic) -> (f: Finding)
    ensures
        f@ == warning_as_finding(source.spec_bytes(), file.hole_starts@, d.model()),
{
    let (start, end) = locate(source, file, d.offset, d.length, d.message.as_str());
    let rule = if contains_slice(d.message.as_str().as_bytes(), "built once".as_bytes()) {
        "static_conditional_child"
    } else {
        "compile_warning"
    };
    Finding {
        rule: String::from_str(rule),
        message: String::from_str(d.message.as_str()),
        start: start,
        end: end,
    }
}

pub fn error_finding(source: &str, file: &SourceFile, d: &CompilerDiagnostic) -> (f: Finding)
    ensures
        f@ == error_as_finding(source.spec_bytes(), file.hole_starts@, d.model()),
{
    let (start, end) = locate(source, file, d.offset, d.length, d.message.as_str());
    Finding {
        rule: String::from_str("unresolved_name"),
        message: String::from_str(d.message.as_str()),
        start: start,
        end: end,
    }
}

/// Appends the findings of what the compiler reported.
fn push_compiler_findings(
    source: &str,
    file: &SourceFile,
    outcome: &Result<(String, Vec<CompilerDiagnostic>, Vec<CompilerDiagnostic>), CompilerDiagnostic>,
    findings: &mut Vec<Finding>,
)
    ensures
        finding_views(final(findings)@) == finding_views(old(findings)@) + compiler_findings(
            source.spec_bytes(),
            file.hole_starts@,
            match outcome {
                Ok((output, warnings, errors)) => Ok((output@, diagnostic_models(warnings@), diagnostic_models(errors@))),
                Err(error) => Err(error.model()),
            },
        ),
{
    let ghost src = source.spec_bytes();
    let ghost holes = file.hole_starts@;
    let ghost before = finding_views(findings@);
    match outcome {
        Ok((_, warnings, errors)) => {
            let ghost w = diagnostic_models(warnings@).map_values(
                |d: DiagnosticModel| warning_as_finding(src, holes, d),
            );
            let ghost e = diagnostic_models(errors@).map_values(
                |d: DiagnosticModel| error_as_finding(src, holes, d),
            );
            let mut i: usize = 0;
            while i < warnings.len()
                invariant
                    i <= warnings@.len(),
                    src == source.spec_bytes(),
                    holes == file.hole_starts@,
                    w == diagnostic_models(warnings@).map_values(
                        |d: DiagnosticModel| warning_as_finding(src, holes, d),
                    ),
                    finding_views(findings@) == before + w.take(i as int),
                decreases warnings@.len() - i,
            {
                push_finding(findings, compiler_finding(source, file, &warnings[i]));
                assert(w.take(i + 1) =~= w.take(i as int).push(w[i as int]));
                i = i + 1;
            }
            assert(w.take(i as int) =~= w);
            let mut i: usize = 0;
            while i < errors.len()
                invariant
                    i <= errors@.len(),
                    src == source.spec_bytes(),
                    holes == file.hole_starts@,
                    e == diagnostic_models(errors@).map_values(
                        |d: DiagnosticModel| error_as_finding(src, holes, d),
                    ),
                    finding_views(findings@) == before + w + e.take(i as int),
                decreases errors@.len() - i,
            {
                push_finding(findings, error_finding(source, file, &errors[i]));
                assert(e.take(i + 1) =~= e.take(i as int).push(e[i as int]));
                i = i + 1;
            }
            assert(e.take(i as int) =~= e);
            assert(finding_views(findings@) =~= before + (w + e));
        },
        Err(error) => {
            let length = if error.length >= 1 {
                error.length
            } else {
                1
            };
            let f = Finding {
                rule: String::from_str("compile_error"),
                message: String::from_str(error.message.as_str()),
                start: mark_start(source, error.offset),
                end: mark_end(source, error.offset, length),
            };
            push_finding(findings, f);
        },
    }
}

/// Where a finding starting at `key` goes in `s`: after every finding that
/// starts no later.
pub open spec fn insertion_point(s: Seq<FindingView>, key: usize) -> int
    decreases s.len(),
{
    if s.len() == 0 {
        0
    } else if s[0].start > key {
        0
    } else {
        1 + insertion_point(s.drop_first(), key)
    }
}

/// `s` sorted by where the findings start, findings that start together kept
/// in their order.
pub open spec fn sorted_by_start(s: Seq<FindingView>) -> Seq<FindingView>
    decreases s.len(),
{
    if s.len() == 0 {
        s
    } else {
        let r = sorted_by_start(s.drop_last());
        r.insert(insertion_point(r, s.last().start), s.last())
    }
}

proof fn lemma_insertion_point_bounds(s: Seq<FindingView>, key: usize)
    ensures
        0 <= insertion_point(s, key) <= s.len(),
    decreases s.len(),
{
    if s.len() > 0 && s[0].start <= key {
        lemma_insertion_point_bounds(s.drop_first(), key);
    }
}

proof fn lemma_sorted_len(s: Seq<FindingView>)
    ensures
        sorted_by_start(s).len() == s.len(),
    decreases s.len(),
{
    if s.len() > 0 {
        lemma_sorted_len(s.drop_last());
        lemma_insertion_point_bounds(sorted_by_start(s.drop_last()), s.last().start);
    }
}

fn insertion_index(v: &Vec<Finding>, key: usize) -> (r: usize)
    ensures
        r == insertion_point(finding_views(v@), key),
        r <= v@.len(),
{
    let ghost s = finding_views(v@);
    let mut i: usize = 0;
    assert(s.skip(0) =~= s);
    while i < v.len() && v[i].start <= key
        invariant
            i <= v@.len(),
            s == finding_views(v@),
            insertion_point(s, key) == i + insertion_point(s.skip(i as int), key),
        decreases v@.len() - i,
    {
        assert(s.skip(i as int)[0] == s[i as int]);
        assert(s.skip(i as int).drop_first() =~= s.skip(i + 1));
        i = i + 1;
    }
    proof {
        if i < v@.len() {
            assert(s.skip(i as int)[0] == s[i as int]);
        } else {
            assert(s.skip(i as int).len() == 0);
        }
    }
    i
}

/// The findings sorted by where they start, findings that start together kept
/// in their order.
fn sort_by_start(findings: Vec<Finding>) -> (r: Vec<Finding>)
    ensures
        finding_views(r@) == sorted_by_start(finding_views(findings@)),
{
    let ghost all = finding_views(findings@);
    let n = findings.len();
    let mut rest = findings;
    let mut out: Vec<Finding> = Vec::new();
    let mut k: usize = 0;
    assert(all.take(0) =~= Seq::<FindingView>::empty());
    while rest.len() > 0
        invariant
            k <= n,
            all.len() == n,
            finding_views(rest@) == all.skip(k as int),
            finding_views(out@) == sorted_by_start(all.take(k as int)),
        decreases n - k,
    {
        assert(finding_views(rest@).len() == rest@.len());
        assert(k < n);
        assert(finding_views(rest@)[0] == all[k as int]);
        let ghost old_rest = rest@;
        let f = rest.remove(0);
        let ghost fv = f@;
        assert(finding_views(rest@) =~= finding_views(old_rest).skip(1));
        let p = insertion_index(&out, f.start);
        let ghost before = out@;
        out.insert(p, f);
        assert(finding_views(out@) =~= finding_views(before).insert(p as int, fv));
        assert(all.take(k + 1).drop_last() =~= all.take(k as int));
        assert(all.take(k + 1).last() == fv);
        assert(finding_views(rest@) =~= all.skip(k + 1));
        k = k + 1;
    }
    assert(all.take(k as int) =~= all);
    out
}

/// The findings of the markup regions, in order.
pub open spec fn segments_findings(src: Seq<u8>, segments: Seq<Segment>) -> Seq<FindingView>
    decreases segments.len(),
{
    if segments.len() == 0 {
        seq![]
    } else {
        segments_findings(src, segments.drop_last()) + node_findings(src, segments.last().node)
    }
}

/// The findings of a parsed source when the compiler reports `outcome`: those
/// of its markup and those of the report, in order of where they start.
pub open spec fn findings_for(
    src: Seq<u8>,
    file: FileModel,
    outcome: Result<(String, Vec<CompilerDiagnostic>, Vec<CompilerDiagnostic>), CompilerDiagnostic>,
) -> Seq<FindingView> {
    sorted_by_start(
        segments_findings(src, file.segments) + compiler_findings(
            src,
            file.hole_starts,
            outcome_model(outcome),
        ),
    )
}

/// What `lint` finds in a source: nothing in a source that does not parse;
/// else the findings for what a compile of it reports, under the configuration
/// set to warn about children built once.
pub open(crate) spec fn lint_answer(t: Seq<char>, config: luaux::Config, found: Seq<FindingView>) -> bool {
    match parse_file(t) {
        Err(_) => found.len() == 0,
        Ok(file) => exists|
            s: &str,
            o: Result<(String, Vec<CompilerDiagnostic>, Vec<CompilerDiagnostic>), CompilerDiagnostic>,
        |
            s@ == t && #[trigger] call_ensures(
                compile_lenient,
                (
                    s,
                    config_backend(with_child_level(config, LintChoice::Warn)),
                    with_child_level(config, LintChoice::Warn),
                ),
                o,
            ) && found == findings_for(encode_utf8(t), file, o),
    }
}

/// Lints a LuauX source under the project configuration.
pub fn lint(source: &str, config: luaux::Config) -> (r: Vec<Finding>)
    ensures
        lint_answer(source@, config, finding_views(r@)),
        starts_in_order(finding_views(r@)),
{
    let file = match parse(source) {
        Ok(file) => file,
        Err(_) => {
            return Vec::new();
        },
    };
    let ghost warned_spec = with_child_level(config, LintChoice::Warn);
    let warned = set_child_level(config, LintChoice::Warn);
    let choice = backend(&warned);
    let outcome = compile_lenient(source, choice, warned);
    let r = findings(source, &file, &outcome);
    proof {
        assert(call_ensures(compile_lenient, (source, config_backend(warned_spec), warned_spec), outcome));
        sorted_findings_are_ordered(
            segments_findings(source.spec_bytes(), file@.segments) + compiler_findings(
                source.spec_bytes(),
                file@.hole_starts,
                outcome_model(outcome),
            ),
        );
    }
    r
}

/// The model of what the compiler reported.
pub open spec fn outcome_model(
    outcome: Result<(String, Vec<CompilerDiagnostic>, Vec<CompilerDiagnostic>), CompilerDiagnostic>,
) -> Result<(Seq<char>, Seq<DiagnosticModel>, Seq<DiagnosticModel>), DiagnosticModel> {
    match outcome {
        Ok((output, warnings, errors)) => Ok(
            (output@, diagnostic_models(warnings@), diagnostic_models(errors@)),
        ),
        Err(error) => Err(error.model()),
    }
}

/// The findings of a parsed source and of what the compiler reported of it,
/// in order of where they start.
pub fn findings(
    source: &str,
    file: &SourceFile,
    outcome: &Result<(String, Vec<CompilerDiagnostic>, Vec<CompilerDiagnostic>), CompilerDiagnostic>,
) -> (r: Vec<Finding>)
    requires
        forall|j: int|
            0 <= j < file.segments@.len() ==> segment_ok(#[trigger] file.segments@[j], source.spec_bytes()),
    ensures
        finding_views(r@) == findings_for(source.spec_bytes(), file@, *outcome),
{
    let ghost src = source.spec_bytes();
    let mut found: Vec<Finding> = Vec::new();
    let mut i: usize = 0;
    assert(file.segments@.take(0) =~= Seq::<Segment>::empty());
    while i < file.segments.len()
        invariant
            i <= file.segments@.len(),
            src == source.spec_bytes(),
            forall|j: int| 0 <= j < file.segments@.len() ==> segment_ok(#[trigger] file.segments@[j], src),
            finding_views(found@) == segments_findings(src, file.segments@.take(i as int)),
        decreases file.segments@.len() - i,
    {
        assert(file.segments@.take(i + 1).drop_last() =~= file.segments@.take(i as int));
        assert(file.segments@.take(i + 1).last() == file.segments@[i as int]);
        assert(segment_ok(file.segments@[i as int], src));
        check_node(source, &file.segments[i].node, &mut found);
        i = i + 1;
    }
    assert(file.segments@.take(i as int) =~= file.segments@);
    push_compiler_findings(source, file, outcome, &mut found);
    sort_by_start(found)
}

/// Findings in order of where they start.
pub open spec fn starts_in_order(s: Seq<FindingView>) -> bool {
    forall|i: int, j: int| 0 <= i < j < s.len() ==> #[trigger] s[i].start <= #[trigger] s[j].start
}

proof fn lemma_insertion_point(s: Seq<FindingView>, key: usize)
    requires
        starts_in_order(s),
    ensures
        0 <= insertion_point(s, key) <= s.len(),
        forall|i: int| 0 <= i < insertion_point(s, key) ==> #[trigger] s[i].start <= key,
        forall|i: int| insertion_point(s, key) <= i < s.len() ==> #[trigger] s[i].start > key,
    decreases s.len(),
{
    if s.len() > 0 {
        let t = s.drop_first();
        assert(starts_in_order(t)) by {
            assert forall|i: int, j: int| 0 <= i < j < t.len() implies #[trigger] t[i].start
                <= #[trigger] t[j].start by {
                assert(t[i] == s[i + 1] && t[j] == s[j + 1]);
            }
        }
        lemma_insertion_point(t, key);
        if s[0].start <= key {
            assert forall|i: int| 0 <= i < insertion_point(s, key) implies #[trigger] s[i].start
                <= key by {
                if i > 0 {
                    assert(s[i] == t[i - 1]);
                }
            }
            assert forall|i: int| insertion_point(s, key) <= i < s.len() implies #[trigger] s[i].start
                > key by {
                assert(s[i] == t[i - 1]);
            }
        } else {
            assert forall|i: int| 0 <= i < s.len() implies #[trigger] s[i].start > key by {
                assert(s[0].start <= s[i].start);
            }
        }
    }
}

/// Sorting findings by where they start puts them in that order and keeps
/// every finding, each as often as it was there.
pub proof fn sorted_findings_are_ordered(s: Seq<FindingView>)
    ensures
        starts_in_order(sorted_by_start(s)),
        sorted_by_start(s).to_multiset() == s.to_multiset(),
    decreases s.len(),
{
    broadcast use vstd::seq_lib::to_multiset_build, vstd::seq_lib::to_multiset_insert;

    if s.len() == 0 {
    } else {
        let r = sorted_by_start(s.drop_last());
        sorted_findings_are_ordered(s.drop_last());
        let x = s.last();
        let p = insertion_point(r, x.start);
        lemma_insertion_point(r, x.start);
        let out = r.insert(p, x);
        assert(starts_in_order(out)) by {
            assert forall|i: int, j: int| 0 <= i < j < out.len() implies #[trigger] out[i].start
                <= #[trigger] out[j].start by {
                if j < p {
                    assert(out[i] == r[i] && out[j] == r[j]);
                } else if j == p {
                    assert(out[i] == r[i]);
                } else if i < p {
                    assert(out[i] == r[i] && out[j] == r[j - 1]);
                } else if i == p {
                    assert(out[j] == r[j - 1]);
                } else {
                    assert(out[i] == r[i - 1] && out[j] == r[j - 1]);
                }
            }
        }
        assert(s.drop_last().push(x) =~= s);
    }
}

/// Whatever the compiler reports, the findings of a parsed source come in
/// order of where they start.
pub proof fn lint_findings_are_ordered(
    src: Seq<u8>,
    file: FileModel,
    outcome: Result<(String, Vec<CompilerDiagnostic>, Vec<CompilerDiagnostic>), CompilerDiagnostic>,
)
    ensures
        starts_in_order(findings_for(src, file, outcome)),
{
    sorted_findings_are_ordered(
        segments_findings(src, file.segments) + compiler_findings(
            src,
            file.hole_starts,
            outcome_model(outcome),
        ),
    );
}

/// Findings that start at `key`.
pub open spec fn starts_at(key: usize) -> spec_fn(FindingView) -> bool {
    |f: FindingView| f.start == key
}

proof fn lemma_filter_none(s: Seq<FindingView>, key: usize)
    requires
        forall|i: int| 0 <= i < s.len() ==> #[trigger] s[i].start != key,
    ensures
        s.filter(starts_at(key)) == Seq::<FindingView>::empty(),
    decreases s.len(),
{
    reveal(Seq::filter);
    if s.len() > 0 {
        let previous = s.drop_last();
        assert forall|i: int| 0 <= i < previous.len() implies #[trigger] previous[i].start != key by {
            assert(previous[i] == s[i]);
        }
        lemma_filter_none(previous, key);
        assert(s.last() == s[s.len() - 1]);
    }
}

/// Sorting keeps the findings that start at the same place in the order they
/// came in.
pub proof fn sorting_keeps_ties_in_order(s: Seq<FindingView>, key: usize)
    ensures
        sorted_by_start(s).filter(starts_at(key)) == s.filter(starts_at(key)),
    decreases s.len(),
{
    broadcast use vstd::seq::Seq::filter_distributes_over_add;

    reveal(Seq::filter);
    if s.len() > 0 {
        let r = sorted_by_start(s.drop_last());
        sorting_keeps_ties_in_order(s.drop_last(), key);
        sorted_findings_are_ordered(s.drop_last());
        let x = s.last();
        let p = insertion_point(r, x.start);
        lemma_insertion_point(r, x.start);
        let front = r.take(p);
        let back = r.skip(p);
        assert(r =~= front + back);
        assert(r.insert(p, x) =~= front + seq![x] + back);
        let pred = starts_at(key);
        assert((front + seq![x] + back).filter(pred) == (front + seq![x]).filter(pred) + back.filter(pred));
        assert((front + seq![x]).filter(pred) == front.filter(pred) + seq![x].filter(pred));
        assert(r.filter(pred) == front.filter(pred) + back.filter(pred));
        assert(seq![x].drop_last() =~= Seq::<FindingView>::empty());
        assert(Seq::<FindingView>::empty().filter(pred) =~= Seq::<FindingView>::empty());
        assert(seq![x].drop_last().filter(pred) =~= Seq::<FindingView>::empty());
        if x.start == key {
            assert forall|i: int| 0 <= i < back.len() implies #[trigger] back[i].start != key by {
                assert(back[i] == r[p + i]);
            }
            lemma_filter_none(back, key);
            assert(seq![x].filter(pred) =~= seq![x]);
            assert(r.filter(pred) =~= front.filter(pred));
        } else {
            assert(seq![x].filter(pred) =~= Seq::<FindingView>::empty());
        }
        assert(s.drop_last().push(x) =~= s);
    }
}

/// The findings that one child of an element or fragment brings: a
/// fragment's `useless_fragment` before the findings of its own tree, a tree's
/// findings, or a comment-like text's `comment_as_text`.
pub open spec fn child_findings(src: Seq<u8>, child: MarkupChild) -> Seq<FindingView> {
    match child {
        MarkupChild::Node(node) => (if node is Fragment {
            seq![found("useless_fragment"@, node.span_of(), "fragment adds no level"@)]
        } else {
            seq![]
        }) + node_findings(src, node),
        MarkupChild::Text { text, span } => if comment_like(encode_utf8(text@)) {
            seq![found("comment_as_text"@, span, "comment-like text is displayed"@)]
        } else {
            seq![]
        },
        _ => seq![],
    }
}

/// What an empty element written with a closing tag is found to be.
pub open spec fn self_closing_findings(src: Seq<u8>, element: MarkupElement) -> Seq<FindingView> {
    if element.children@.len() == 0 && !closes_itself(src, element.span) {
        seq![found("self_closing_element"@, element.span, "empty element can self-close"@)]
    } else {
        seq![]
    }
}

proof fn lemma_children_findings_flat(src: Seq<u8>, children: Seq<MarkupChild>)
    ensures
        children_findings(src, children) == children.map_values(
            |c: MarkupChild| child_findings(src, c),
        ).flatten_alt(),
    decreases children.len(),
{
    if children.len() > 0 {
        lemma_children_findings_flat(src, children.drop_last());
        assert(children.drop_last().map_values(|c: MarkupChild| child_findings(src, c))
            =~= children.map_values(|c: MarkupChild| child_findings(src, c)).drop_last());
    }
}

proof fn lemma_attribute_findings_flat(attributes: Seq<MarkupAttribute>, k: int)
    requires
        0 <= k,
    ensures
        attribute_findings(attributes, k) == Seq::new(
            k as nat,
            |i: int| attribute_findings_at(attributes, i),
        ).flatten_alt(),
    decreases k,
{
    if k > 0 {
        lemma_attribute_findings_flat(attributes, k - 1);
        assert(Seq::new((k - 1) as nat, |i: int| attribute_findings_at(attributes, i)) =~= Seq::new(
            k as nat,
            |i: int| attribute_findings_at(attributes, i),
        ).drop_last());
    }
}

/// The findings of a markup tree come in the order of its source. For an
/// element: each attribute's in turn (a name used before it, then a `{true}`
/// that the bare name says), then each child's in turn, then
/// `self_closing_element` when it is empty and written with a closing tag. For
/// a fragment: each child's in turn. Nothing else is found.
pub proof fn findings_follow_the_source(src: Seq<u8>, node: MarkupNode)
    ensures
        node matches MarkupNode::Element(element) ==> node_findings(src, node) == Seq::new(
            element.attributes@.len(),
            |i: int| attribute_findings_at(element.attributes@, i),
        ).flatten() + element.children@.map_values(|c: MarkupChild| child_findings(src, c)).flatten()
            + self_closing_findings(src, element),
        node matches MarkupNode::Fragment(fragment) ==> node_findings(src, node)
            == fragment.children@.map_values(|c: MarkupChild| child_findings(src, c)).flatten(),
{
    match node {
        MarkupNode::Element(element) => {
            let attributes = element.attributes@;
            let n = attributes.len() as int;
            lemma_attribute_findings_flat(attributes, n);
            Seq::new(n as nat, |i: int| attribute_findings_at(attributes, i)).lemma_flatten_and_flatten_alt_are_equivalent();
            lemma_children_findings_flat(src, element.children@);
            element.children@.map_values(|c: MarkupChild| child_findings(src, c)).lemma_flatten_and_flatten_alt_are_equivalent();
        },
        MarkupNode::Fragment(fragment) => {
            lemma_children_findings_flat(src, fragment.children@);
            fragment.children@.map_values(|c: MarkupChild| child_findings(src, c)).lemma_flatten_and_flatten_alt_are_equivalent();
        },
    }
}

/// The rules of the markup checks.
pub open spec fn markup_rule(rule: Seq<char>) -> bool {
    rule == "duplicate_attribute"@ || rule == "explicit_true_attribute"@ || rule
        == "useless_fragment"@ || rule == "comment_as_text"@ || rule == "self_closing_element"@
}

/// Whether every finding is one of a markup check.
pub open spec fn all_markup(s: Seq<FindingView>) -> bool {
    forall|j: int| 0 <= j < s.len() ==> markup_rule(#[trigger] s[j].rule)
}

proof fn lemma_all_markup_concat(a: Seq<FindingView>, b: Seq<FindingView>)
    requires
        all_markup(a),
        all_markup(b),
    ensures
        all_markup(a + b),
{
    assert forall|j: int| 0 <= j < (a + b).len() implies markup_rule(#[trigger] (a + b)[j].rule) by {
        if j < a.len() {
            assert((a + b)[j] == a[j]);
        } else {
            assert((a + b)[j] == b[j - a.len()]);
        }
    }
}

proof fn lemma_attribute_rules(attributes: Seq<MarkupAttribute>, k: int)
    ensures
        all_markup(attribute_findings(attributes, k)),
    decreases k,
{
    if k > 0 {
        lemma_attribute_rules(attributes, k - 1);
        let here = attribute_findings_at(attributes, k - 1);
        assert(all_markup(here)) by {
            match attributes[k - 1] {
                MarkupAttribute::Named { name, value, span } => {
                    let a = if named_before(attributes, k - 1, name@) {
                        seq![found("duplicate_attribute"@, span, "duplicate attribute "@ + name@)]
                    } else {
                        seq![]
                    };
                    let b = if value matches MarkupValue::Expression(e) && e@ == "true"@ {
                        seq![
                            found(
                                "explicit_true_attribute"@,
                                span,
                                name@ + "={true} can be written as "@ + name@,
                            ),
                        ]
                    } else {
                        seq![]
                    };
                    assert(all_markup(a));
                    assert(all_markup(b));
                    lemma_all_markup_concat(a, b);
                },
                _ => {},
            }
        }
        lemma_all_markup_concat(attribute_findings(attributes, k - 1), here);
    }
}

proof fn lemma_node_rules(src: Seq<u8>, node: MarkupNode)
    ensures
        all_markup(node_findings(src, node)),
    decreases node,
{
    match node {
        MarkupNode::Element(element) => {
            let attributes = element.attributes@;
            lemma_attribute_rules(attributes, attributes.len() as int);
            lemma_children_rules(src, element.children@);
            lemma_all_markup_concat(
                attribute_findings(attributes, attributes.len() as int),
                children_findings(src, element.children@),
            );
            lemma_all_markup_concat(
                attribute_findings(attributes, attributes.len() as int) + children_findings(
                    src,
                    element.children@,
                ),
                self_closing_findings(src, element),
            );
        },
        MarkupNode::Fragment(fragment) => {
            lemma_children_rules(src, fragment.children@);
        },
    }
}

proof fn lemma_children_rules(src: Seq<u8>, children: Seq<MarkupChild>)
    ensures
        all_markup(children_findings(src, children)),
    decreases children,
{
    if children.len() > 0 {
        lemma_children_rules(src, children.drop_last());
        let last = match children.last() {
            MarkupChild::Node(node) => {
                let f = if node is Fragment {
                    seq![found("useless_fragment"@, node.span_of(), "fragment adds no level"@)]
                } else {
                    seq![]
                };
                assert(all_markup(f));
                lemma_node_rules(src, node);
                lemma_all_markup_concat(f, node_findings(src, node));
                f + node_findings(src, node)
            },
            MarkupChild::Text { text, span } => if comment_like(encode_utf8(text@)) {
                seq![found("comment_as_text"@, span, "comment-like text is displayed"@)]
            } else {
                seq![]
            },
            _ => seq![],
        };
        assert(all_markup(last));
        lemma_all_markup_concat(children_findings(src, children.drop_last()), last);
    }
}

proof fn lemma_segments_rules(src: Seq<u8>, segments: Seq<Segment>)
    ensures
        all_markup(segments_findings(src, segments)),
    decreases segments.len(),
{
    if segments.len() > 0 {
        lemma_segments_rules(src, segments.drop_last());
        lemma_node_rules(src, segments.last().node);
        lemma_all_markup_concat(
            segments_findings(src, segments.drop_last()),
            node_findings(src, segments.last().node),
        );
    }
}

/// When the compile stops at an error, the findings are those of the markup
/// and one `compile_error` finding at the error's offset, at least one
/// character long. No markup check reports that rule, so every finding under
/// it is that one.
pub proof fn stopped_compile_is_one_finding(src: Seq<u8>, file: FileModel, error: CompilerDiagnostic)
    ensures
        findings_for(src, file, Err(error)).to_multiset() == segments_findings(
            src,
            file.segments,
        ).push(stop_finding(src, error.model())).to_multiset(),
        findings_for(src, file, Err(error)).to_multiset().count(stop_finding(src, error.model()))
            == 1,
        forall|i: int|
            0 <= i < findings_for(src, file, Err(error)).len() && #[trigger] findings_for(
                src,
                file,
                Err(error),
            )[i].rule == "compile_error"@ ==> findings_for(src, file, Err(error))[i]
                == stop_finding(src, error.model()),
{
    broadcast use vstd::seq_lib::to_multiset_build;

    let marks = segments_findings(src, file.segments);
    let stop = stop_finding(src, error.model());
    let all = marks + compiler_findings(src, file.hole_starts, outcome_model(Err(error)));
    assert(all =~= marks.push(stop));
    sorted_findings_are_ordered(all);
    lemma_segments_rules(src, file.segments);
    reveal_strlit("compile_error");
    reveal_strlit("duplicate_attribute");
    reveal_strlit("explicit_true_attribute");
    reveal_strlit("useless_fragment");
    reveal_strlit("comment_as_text");
    reveal_strlit("self_closing_element");
    assert("compile_error"@.len() == 13);
    assert("duplicate_attribute"@.len() == 19);
    assert("explicit_true_attribute"@.len() == 23);
    assert("useless_fragment"@.len() == 16);
    assert("comment_as_text"@.len() == 15);
    assert("self_closing_element"@.len() == 20);
    assert(!markup_rule(stop.rule));
    assert(!marks.contains(stop)) by {
        if marks.contains(stop) {
            let j = choose|j: int| 0 <= j < marks.len() && marks[j] == stop;
            assert(markup_rule(marks[j].rule));
        }
    }
    marks.to_multiset_ensures();
    all.to_multiset_ensures();
    assert(marks.to_multiset().count(stop) == 0);
    let f = findings_for(src, file, Err(error));
    f.to_multiset_ensures();
    assert forall|i: int| 0 <= i < f.len() && #[trigger] f[i].rule == "compile_error"@ implies f[i]
        == stop by {
        assert(f.contains(f[i]));
        assert(f.to_multiset().count(f[i]) > 0);
        assert(all.contains(f[i]));
        let j = choose|j: int| 0 <= j < all.len() && all[j] == f[i];
        if j < marks.len() {
            assert(all[j] == marks[j]);
            assert(markup_rule(marks[j].rule));
        }
    }
}

/// Whether every finding lies in a source of `n` bytes, its start no later
/// than its end.
pub open spec fn findings_within(s: Seq<FindingView>, n: int) -> bool {
    forall|j: int| 0 <= j < s.len() ==> #[trigger] s[j].start <= s[j].end <= n
}

proof fn lemma_within_concat(a: Seq<FindingView>, b: Seq<FindingView>, n: int)
    requires
        findings_within(a, n),
        findings_within(b, n),
    ensures
        findings_within(a + b, n),
{
    assert forall|j: int| 0 <= j < (a + b).len() implies #[trigger] (a + b)[j].start <= (a
        + b)[j].end <= n by {
        if j < a.len() {
            assert((a + b)[j] == a[j]);
        } else {
            assert((a + b)[j] == b[j - a.len()]);
        }
    }
}

proof fn lemma_char_floor_bounds(src: Seq<u8>, i: int)
    ensures
        0 <= char_floor(src, i),
        0 <= i ==> char_floor(src, i) <= i,
        char_floor(src, i) > 0 ==> is_char_boundary(src, char_floor(src, i)),
    decreases i,
{
    if i > 0 && !is_char_boundary(src, i) {
        lemma_char_floor_bounds(src, i - 1);
    }
}

proof fn lemma_char_floor_grows(src: Seq<u8>, x: int, y: int)
    requires
        y <= x,
    ensures
        char_floor(src, y) <= char_floor(src, x),
    decreases x - y,
{
    lemma_char_floor_bounds(src, y);
    if y < x && x > 0 && !is_char_boundary(src, x) {
        lemma_char_floor_grows(src, x - 1, y);
    }
}

proof fn lemma_mark(src: Seq<u8>, at: int, length: int)
    ensures
        0 <= mark_start_of(src, at) <= mark_end_of(src, at, length) <= src.len(),
{
    let n = src.len() as int;
    let start = mark_start_of(src, at);
    lemma_char_floor_bounds(src, if at < n { at } else { n });
    lemma_char_floor_bounds(src, start);
    assert(char_floor(src, start) == start);
    let least = if start < n { start + 1 } else { start };
    let to = if start + length > least { start + length } else { least };
    let clipped = if to < n { to } else { n };
    lemma_char_floor_bounds(src, clipped);
    lemma_char_floor_grows(src, clipped, start);
}

proof fn lemma_attribute_within(attributes: Seq<MarkupAttribute>, k: int, src: Seq<u8>)
    requires
        0 <= k <= attributes.len(),
        forall|i: int| 0 <= i < attributes.len() ==> attribute_ok(#[trigger] attributes[i], src),
    ensures
        findings_within(attribute_findings(attributes, k), src.len() as int),
    decreases k,
{
    if k > 0 {
        lemma_attribute_within(attributes, k - 1, src);
        assert(attribute_ok(attributes[k - 1], src));
        lemma_within_concat(
            attribute_findings(attributes, k - 1),
            attribute_findings_at(attributes, k - 1),
            src.len() as int,
        );
    }
}

proof fn lemma_node_within(src: Seq<u8>, node: MarkupNode)
    requires
        node_ok(node, src),
    ensures
        findings_within(node_findings(src, node), src.len() as int),
    decreases node,
{
    let n = src.len() as int;
    match node {
        MarkupNode::Element(element) => {
            let attributes = element.attributes@;
            lemma_attributes_ok_prefix(attributes, attributes.len() as int, src);
            lemma_attribute_within(attributes, attributes.len() as int, src);
            lemma_children_within(src, element.children@);
            lemma_within_concat(
                attribute_findings(attributes, attributes.len() as int),
                children_findings(src, element.children@),
                n,
            );
            lemma_within_concat(
                attribute_findings(attributes, attributes.len() as int) + children_findings(
                    src,
                    element.children@,
                ),
                self_closing_findings(src, element),
                n,
            );
        },
        MarkupNode::Fragment(fragment) => {
            lemma_children_within(src, fragment.children@);
        },
    }
}

proof fn lemma_children_within(src: Seq<u8>, children: Seq<MarkupChild>)
    requires
        children_ok(children, src),
    ensures
        findings_within(children_findings(src, children), src.len() as int),
    decreases children,
{
    let n = src.len() as int;
    if children.len() > 0 {
        lemma_children_within(src, children.drop_last());
        assert(child_ok(children.last(), src));
        let last = match children.last() {
            MarkupChild::Node(node) => {
                assert(node_ok(node, src));
                let f = if node is Fragment {
                    seq![found("useless_fragment"@, node.span_of(), "fragment adds no level"@)]
                } else {
                    seq![]
                };
                lemma_node_within(src, node);
                lemma_within_concat(f, node_findings(src, node), n);
                f + node_findings(src, node)
            },
            MarkupChild::Text { text, span } => if comment_like(encode_utf8(text@)) {
                seq![found("comment_as_text"@, span, "comment-like text is displayed"@)]
            } else {
                seq![]
            },
            _ => seq![],
        };
        assert(findings_within(last, n));
        lemma_within_concat(children_findings(src, children.drop_last()), last, n);
    }
}

proof fn lemma_segments_within(src: Seq<u8>, segments: Seq<Segment>)
    requires
        forall|j: int| 0 <= j < segments.len() ==> segment_ok(#[trigger] segments[j], src),
    ensures
        findings_within(segments_findings(src, segments), src.len() as int),
    decreases segments.len(),
{
    if segments.len() > 0 {
        let m = segments.len() - 1;
        assert(segment_ok(segments[m], src));
        lemma_segments_within(src, segments.drop_last());
        lemma_node_within(src, segments.last().node);
        lemma_within_concat(
            segments_findings(src, segments.drop_last()),
            node_findings(src, segments.last().node),
            src.len() as int,
        );
    }
}

proof fn lemma_compiler_within(
    src: Seq<u8>,
    holes: Seq<usize>,
    outcome: Result<(Seq<char>, Seq<DiagnosticModel>, Seq<DiagnosticModel>), DiagnosticModel>,
)
    requires
        src.len() <= usize::MAX,
    ensures
        findings_within(compiler_findings(src, holes, outcome), src.len() as int),
{
    let n = src.len() as int;
    match outcome {
        Ok((_, warnings, errors)) => {
            let w = warnings.map_values(|d: DiagnosticModel| warning_as_finding(src, holes, d));
            let e = errors.map_values(|d: DiagnosticModel| error_as_finding(src, holes, d));
            assert forall|j: int| 0 <= j < w.len() implies #[trigger] w[j].start <= w[j].end
                <= n by {
                let d = warnings[j];
                let message = encode_utf8(d.message);
                let at = if fits_spec(src, d.offset as int, d.offset + d.length, message) {
                    d.offset as int
                } else {
                    match first_fit(src, holes, d.offset as int, d.length as int, message) {
                        Some(start) => start,
                        None => d.offset as int,
                    }
                };
                lemma_mark(src, at, d.length as int);
            }
            assert forall|j: int| 0 <= j < e.len() implies #[trigger] e[j].start <= e[j].end
                <= n by {
                let d = errors[j];
                let message = encode_utf8(d.message);
                let at = if fits_spec(src, d.offset as int, d.offset + d.length, message) {
                    d.offset as int
                } else {
                    match first_fit(src, holes, d.offset as int, d.length as int, message) {
                        Some(start) => start,
                        None => d.offset as int,
                    }
                };
                lemma_mark(src, at, d.length as int);
            }
            lemma_within_concat(w, e, n);
        },
        Err(error) => {
            let length: int = if error.length >= 1 {
                error.length as int
            } else {
                1
            };
            lemma_mark(src, error.offset as int, length);
        },
    }
}

/// Every finding of a parsed source lies within the source, its start no
/// later than its end, whatever the compiler reports: the host can mark each
/// one.
pub proof fn findings_lie_in_the_source(
    t: Seq<char>,
    outcome: Result<(String, Vec<CompilerDiagnostic>, Vec<CompilerDiagnostic>), CompilerDiagnostic>,
)
    requires
        encode_utf8(t).len() <= usize::MAX,
    ensures
        parse_file(t) matches Ok(file) ==> findings_within(
            findings_for(encode_utf8(t), file, outcome),
            encode_utf8(t).len() as int,
        ),
{
    if let Ok(file) = parse_file(t) {
        let src = encode_utf8(t);
        let n = src.len() as int;
        lemma_segments_within(src, file.segments);
        lemma_compiler_within(src, file.hole_starts, outcome_model(outcome));
        let all = segments_findings(src, file.segments) + compiler_findings(
            src,
            file.hole_starts,
            outcome_model(outcome),
        );
        lemma_within_concat(
            segments_findings(src, file.segments),
            compiler_findings(src, file.hole_starts, outcome_model(outcome)),
            n,
        );
        sorted_findings_are_ordered(all);
        let sorted = sorted_by_start(all);
        sorted.to_multiset_ensures();
        all.to_multiset_ensures();
        assert forall|j: int| 0 <= j < sorted.len() implies #[trigger] sorted[j].start
            <= sorted[j].end <= n by {
            assert(sorted.contains(sorted[j]));
            assert(sorted.to_multiset().count(sorted[j]) > 0);
            assert(all.contains(sorted[j]));
        }
    }
}

/// Whether the child is text that opens like a comment, with `--` (Luau) or
/// `//` (C).
pub open spec fn opens_like_a_comment(child: MarkupChild) -> bool {
    child is Text && {
        let b = encode_utf8(child->Text_text@);
        b.len() >= 2 && ((b[0] == 0x2D && b[1] == 0x2D) || (b[0] == 0x2F && b[1] == 0x2F))
    }
}

/// The finding that text which opens like a comment is displayed.
pub open spec fn comment_text_finding(child: MarkupChild) -> FindingView {
    FindingView {
        rule: "comment_as_text"@,
        message: "comment-like text is displayed"@,
        start: child.span_of().start,
        end: child.span_of().end,
    }
}

proof fn lemma_comment_text_found(src: Seq<u8>, children: Seq<MarkupChild>, i: int)
    requires
        0 <= i < children.len(),
        opens_like_a_comment(children[i]),
    ensures
        children_findings(src, children).contains(comment_text_finding(children[i])),
    decreases children.len(),
{
    let rest = children.drop_last();
    let m = children.len() - 1;
    if i < m {
        assert(rest[i] == children[i]);
        lemma_comment_text_found(src, rest, i);
        let k = choose|k: int|
            0 <= k < children_findings(src, rest).len() && children_findings(src, rest)[k]
                == comment_text_finding(children[i]);
        let last = match children.last() {
            MarkupChild::Node(node) => (if node is Fragment {
                seq![found("useless_fragment"@, node.span_of(), "fragment adds no level"@)]
            } else {
                seq![]
            }) + node_findings(src, node),
            MarkupChild::Text { text, span } => if comment_like(encode_utf8(text@)) {
                seq![found("comment_as_text"@, span, "comment-like text is displayed"@)]
            } else {
                seq![]
            },
            _ => seq![],
        };
        assert(children_findings(src, children) == children_findings(src, rest) + last);
        assert(children_findings(src, children)[k] == children_findings(src, rest)[k]);
    } else {
        let all = children_findings(src, children);
        let before = children_findings(src, rest);
        assert(all == before + seq![comment_text_finding(children[i])]);
        assert(all[before.len() as int] == comment_text_finding(children[i]));
    }
}

/// Text among an element's or a fragment's children that opens with `--` or
/// `//` is found as `comment_as_text`, "comment-like text is displayed", over
/// the text's span.
pub proof fn comment_like_text_is_found(src: Seq<u8>, node: MarkupNode, i: int)
    requires
        0 <= i < node.children_of().len(),
        opens_like_a_comment(node.children_of()[i]),
    ensures
        node_findings(src, node).contains(comment_text_finding(node.children_of()[i])),
{
    let children = node.children_of();
    let f = comment_text_finding(children[i]);
    lemma_comment_text_found(src, children, i);
    let c = children_findings(src, children);
    let k = choose|k: int| 0 <= k < c.len() && c[k] == f;
    match node {
        MarkupNode::Element(element) => {
            let a = attribute_findings(element.attributes@, element.attributes@.len() as int);
            let all = node_findings(src, node);
            assert(all == a + c + self_closing_findings(src, element));
            assert(all[a.len() + k] == c[k]);
        },
        MarkupNode::Fragment(_) => {},
    }
}

} // verus!
