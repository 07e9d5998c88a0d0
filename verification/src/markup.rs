//! The LuauX markup tree that formatting and linting read: elements,
//! fragments, their attributes and children, each with its byte span.
use vstd::prelude::*;

verus! {

/// A half-open byte range `start..end` of the source.
#[derive(Clone, Copy, PartialEq, Eq, Structural, Debug)]
pub struct SourceSpan {
    pub start: usize,
    pub end: usize,
}

#[derive(Debug)]
pub enum MarkupNode {
    Element(MarkupElement),
    Fragment(MarkupFragment),
}

#[derive(Debug)]
pub struct MarkupElement {
    /// The tag name as written, such as `Frame` or `Foo.Bar`.
    pub name: String,
    pub attributes: Vec<MarkupAttribute>,
    pub children: Vec<MarkupChild>,
    pub span: SourceSpan,
}

#[derive(Debug)]
pub struct MarkupFragment {
    pub children: Vec<MarkupChild>,
    pub span: SourceSpan,
}

#[derive(Debug)]
pub enum MarkupAttribute {
    /// `Name`, `Name="text"` or `Name={expression}`.
    Named { name: String, value: MarkupValue, span: SourceSpan },
    /// `{properties}` in attribute position.
    Spread { span: SourceSpan },
    /// `={properties.Text}`.
    Inferred { span: SourceSpan },
}

#[derive(Debug)]
pub enum MarkupValue {
    /// The shorthand `Visible`, meaning `true`.
    Boolean,
    /// A quoted literal, quotes included.
    StringLiteral(String),
    /// The trimmed Luau text between the braces.
    Expression(String),
}

#[derive(Debug)]
pub enum MarkupChild {
    Node(MarkupNode),
    /// A `{expression}` hole.
    Expression { span: SourceSpan },
    /// Literal text, escapes decoded.
    Text { text: String, span: SourceSpan },
    /// A comment.
    Comment { span: SourceSpan },
}

impl MarkupNode {
    pub open spec fn span_of(&self) -> SourceSpan {
        match self {
            MarkupNode::Element(element) => element.span,
            MarkupNode::Fragment(fragment) => fragment.span,
        }
    }

    /// The node's span.
    pub fn span(&self) -> (span: SourceSpan)
        ensures
            span == self.span_of(),
    {
        match self {
            MarkupNode::Element(element) => element.span,
            MarkupNode::Fragment(fragment) => fragment.span,
        }
    }

    pub open spec fn children_of(&self) -> Seq<MarkupChild> {
        match self {
            MarkupNode::Element(element) => element.children@,
            MarkupNode::Fragment(fragment) => fragment.children@,
        }
    }
}

impl MarkupChild {
    pub open spec fn span_of(&self) -> SourceSpan {
        match self {
            MarkupChild::Node(node) => node.span_of(),
            MarkupChild::Expression { span } => *span,
            MarkupChild::Text { span, .. } => *span,
            MarkupChild::Comment { span } => *span,
        }
    }

    /// The child's span.
    pub fn span(&self) -> (span: SourceSpan)
        ensures
            span == self.span_of(),
    {
        match self {
            MarkupChild::Node(node) => node.span(),
            MarkupChild::Expression { span } => *span,
            MarkupChild::Text { span, .. } => *span,
            MarkupChild::Comment { span } => *span,
        }
    }
}

/// Length in bytes of a string's UTF-8 encoding.
pub open spec fn byte_len(s: Seq<char>) -> int {
    vstd::utf8::encode_utf8(s).len() as int
}

/// Index of the first `b` in `t`, if any.
pub open spec fn find_byte(t: Seq<u8>, b: u8) -> Option<int>
    decreases t.len(),
{
    if t.len() == 0 {
        None
    } else if t[0] == b {
        Some(0)
    } else {
        match find_byte(t.drop_first(), b) {
            Some(i) => Some(i + 1),
            None => None,
        }
    }
}

pub(crate) proof fn lemma_find_byte(t: Seq<u8>, b: u8)
    ensures
        find_byte(t, b) matches Some(i) ==> 0 <= i < t.len() && t[i] == b && forall|j: int|
            0 <= j < i ==> t[j] != b,
        find_byte(t, b) is None ==> forall|j: int| 0 <= j < t.len() ==> t[j] != b,
    decreases t.len(),
{
    if t.len() > 0 {
        lemma_find_byte(t.drop_first(), b);
        if t[0] != b {
            assert forall|j: int| 1 <= j < t.len() implies t[j] == t.drop_first()[j - 1] by {}
        }
    }
}

/// The span of an attribute from its first `{` on (the whole span when there is
/// no brace), where an attribute's hole begins.
pub open spec fn spec_brace_span(src: Seq<u8>, span: SourceSpan) -> SourceSpan {
    let offset = match find_byte(src.subrange(span.start as int, span.end as int), 0x7B) {
        Some(i) => i,
        None => 0,
    };
    SourceSpan { start: (span.start + offset) as usize, end: span.end }
}

pub open spec fn span_ok(span: SourceSpan, n: int) -> bool {
    span.start <= span.end <= n
}

/// A `{...}` hole: room for both braces.
pub open spec fn hole_ok(span: SourceSpan, n: int) -> bool {
    span_ok(span, n) && span.end - span.start >= 2
}

pub open spec fn attribute_ok(attribute: MarkupAttribute, src: Seq<u8>) -> bool {
    match attribute {
        MarkupAttribute::Named { value, span, .. } => span_ok(span, src.len() as int) && match value {
            MarkupValue::StringLiteral(literal) => 2 <= byte_len(literal@) <= span.end,
            MarkupValue::Expression(_) => hole_ok(spec_brace_span(src, span), src.len() as int),
            MarkupValue::Boolean => true,
        },
        MarkupAttribute::Spread { span } => hole_ok(span, src.len() as int),
        MarkupAttribute::Inferred { span } => span_ok(span, src.len() as int) && hole_ok(
            spec_brace_span(src, span),
            src.len() as int,
        ),
    }
}

pub open spec fn attributes_ok(attributes: Seq<MarkupAttribute>, src: Seq<u8>) -> bool
    decreases attributes.len(),
{
    attributes.len() == 0 || (attributes_ok(attributes.drop_last(), src) && attribute_ok(
        attributes.last(),
        src,
    ))
}

pub open spec fn child_ok(child: MarkupChild, src: Seq<u8>) -> bool
    decreases child,
{
    match child {
        MarkupChild::Node(node) => node_ok(node, src),
        MarkupChild::Expression { span } => hole_ok(span, src.len() as int),
        MarkupChild::Text { span, .. } => span_ok(span, src.len() as int),
        MarkupChild::Comment { span } => span_ok(span, src.len() as int),
    }
}

pub open spec fn children_ok(children: Seq<MarkupChild>, src: Seq<u8>) -> bool
    decreases children,
{
    if children.len() == 0 {
        true
    } else {
        children_ok(children.drop_last(), src) && child_ok(children.last(), src)
    }
}

/// Every span of the tree lies in the source, and every hole has room for its
/// braces.
pub open spec fn node_ok(node: MarkupNode, src: Seq<u8>) -> bool
    decreases node,
{
    match node {
        MarkupNode::Element(element) => span_ok(element.span, src.len() as int) && attributes_ok(
            element.attributes@,
            src,
        ) && children_ok(element.children@, src),
        MarkupNode::Fragment(fragment) => span_ok(fragment.span, src.len() as int) && children_ok(
            fragment.children@,
            src,
        ),
    }
}

} // verus!
