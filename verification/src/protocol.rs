//! Values exchanged with the host: formatter documents, mappings and findings.
use crate::json::Json;
use vstd::prelude::*;

verus! {

/// Largest byte offset that the host protocol can carry.
pub open spec fn offset_limit() -> nat {
    u32::MAX as nat
}

/// How the host parses a region handed back to it.
#[derive(Clone, Copy, PartialEq, Eq, Structural, Debug)]
pub enum ParseMode {
    Block,
    Expression,
}

/// A pretty-printing document, as the host's layout engine reads it.
#[derive(Debug)]
pub enum Document {
    Nil,
    Source(u32, u32),
    Literal(String),
    Line,
    Soft,
    Hard,
    Blank,
    Group(Box<Document>),
    Indent(Box<Document>),
    Concatenate(Vec<Document>),
    Host { start: u32, end: u32, parse: ParseMode },
}

/// The mathematical value of a [`Document`].
pub enum Doc {
    Nil,
    Source(nat, nat),
    Literal(Seq<char>),
    Line,
    Soft,
    Hard,
    Blank,
    Group(Box<Doc>),
    Indent(Box<Doc>),
    Concatenate(Seq<Doc>),
    Host { start: nat, end: nat, parse: ParseMode },
}

impl Document {
    pub open spec fn docs(parts: Seq<Document>) -> Seq<Doc>
        decreases parts,
    {
        if parts.len() == 0 {
            Seq::empty()
        } else {
            Self::docs(parts.drop_last()).push(parts.last().doc())
        }
    }

    pub open spec fn doc(&self) -> Doc
        decreases self,
    {
        match self {
            Document::Nil => Doc::Nil,
            Document::Source(start, end) => Doc::Source(*start as nat, *end as nat),
            Document::Literal(text) => Doc::Literal(text@),
            Document::Line => Doc::Line,
            Document::Soft => Doc::Soft,
            Document::Hard => Doc::Hard,
            Document::Blank => Doc::Blank,
            Document::Group(inner) => Doc::Group(Box::new(inner.doc())),
            Document::Indent(inner) => Doc::Indent(Box::new(inner.doc())),
            Document::Concatenate(parts) => Doc::Concatenate(Self::docs(parts@)),
            Document::Host { start, end, parse } => Doc::Host {
                start: *start as nat,
                end: *end as nat,
                parse: *parse,
            },
        }
    }
}


impl View for Document {
    type V = Doc;

    open spec fn view(&self) -> Doc {
        self.doc()
    }
}

/// A run of generated bytes `start..end` that stands for the original bytes
/// `original_start..original_end`.
#[derive(Clone, Copy, PartialEq, Eq, Structural, Debug)]
pub struct Mapping {
    pub start: usize,
    pub end: usize,
    pub original_start: usize,
    pub original_end: usize,
}

/// The answer to a compile request.
#[derive(Debug)]
pub struct Compilation {
    pub version: u32,
    pub source: String,
    pub dependencies: Vec<String>,
    pub mappings: Vec<Mapping>,
}

/// The answer to a format request.
#[derive(Debug)]
pub struct Format {
    pub version: u32,
    pub document: Document,
}

/// A lint finding over the source bytes `start..end`.
#[derive(Debug)]
pub struct Finding {
    pub rule: String,
    pub message: String,
    pub start: usize,
    pub end: usize,
}

pub struct FindingView {
    pub rule: Seq<char>,
    pub message: Seq<char>,
    pub start: usize,
    pub end: usize,
}

impl View for Finding {
    type V = FindingView;

    open spec fn view(&self) -> FindingView {
        FindingView { rule: self.rule@, message: self.message@, start: self.start, end: self.end }
    }
}

/// The views of a list of findings.
pub open spec fn finding_views(v: Seq<Finding>) -> Seq<FindingView> {
    v.map_values(|f: Finding| f@)
}

/// A request from the host: which hook to run, on which source, with the
/// project's configuration table and the editor's settings.
#[derive(Debug)]
pub struct Request {
    pub version: u32,
    pub hook: String,
    pub source: String,
    pub configuration: Vec<(String, Json)>,
    pub settings: Option<Json>,
}

/// A byte offset as the protocol carries it.
pub fn offset(value: usize) -> (r: u32)
    requires
        value <= u32::MAX,
    ensures
        r == value,
{
    value as u32
}

impl Document {
    /// The source bytes `start..end`, printed as they are.
    pub fn source(start: usize, end: usize) -> (d: Document)
        requires
            start <= u32::MAX,
            end <= u32::MAX,
        ensures
            d@ == Doc::Source(start as nat, end as nat),
    {
        Document::Source(offset(start), offset(end))
    }

    /// Text printed as it is.
    pub fn literal(text: String) -> (d: Document)
        ensures
            d@ == Doc::Literal(text@),
    {
        Document::Literal(text)
    }

    /// `inner` laid out flat if it fits on the line, broken otherwise.
    pub fn group(inner: Document) -> (d: Document)
        ensures
            d@ == Doc::Group(Box::new(inner@)),
    {
        Document::Group(Box::new(inner))
    }

    /// `inner` one level further in.
    pub fn indent(inner: Document) -> (d: Document)
        ensures
            d@ == Doc::Indent(Box::new(inner@)),
    {
        Document::Indent(Box::new(inner))
    }

    /// The parts one after another.
    pub fn concatenate(parts: Vec<Document>) -> (d: Document)
        ensures
            d@ == Doc::Concatenate(Document::docs(parts@)),
    {
        Document::Concatenate(parts)
    }

    /// Luau statements at `start..end`, laid out by the host.
    pub fn host(start: usize, end: usize) -> (d: Document)
        requires
            start <= u32::MAX,
            end <= u32::MAX,
        ensures
            d@ == (Doc::Host { start: start as nat, end: end as nat, parse: ParseMode::Block }),
    {
        Document::Host { start: offset(start), end: offset(end), parse: ParseMode::Block }
    }

    /// A Luau expression at `start..end`, laid out by the host.
    pub fn expression(start: usize, end: usize) -> (d: Document)
        requires
            start <= u32::MAX,
            end <= u32::MAX,
        ensures
            d@ == (Doc::Host { start: start as nat, end: end as nat, parse: ParseMode::Expression }),
    {
        Document::Host { start: offset(start), end: offset(end), parse: ParseMode::Expression }
    }
}

pub(crate) proof fn lemma_docs_push(parts: Seq<Document>, d: Document)
    ensures
        Document::docs(parts.push(d)) == Document::docs(parts).push(d@),
{
    assert(parts.push(d).drop_last() =~= parts);
}

} // verus!
