//! The calls into `luaux` and `vermis`, each behind a trusted item whose
//! contract names what the outside function returns.
use crate::markup::{MarkupAttribute, MarkupChild, MarkupElement, MarkupFragment, MarkupNode, MarkupValue, SourceSpan};
use crate::json::{Json, JsonModel};
use vstd::prelude::*;
use vstd::string::StringSliceAdditionalSpecFns;
use vstd::utf8::*;

verus! {

#[verifier::external_type_specification]
#[verifier::external_body]
pub struct ExMarkupNode(luaux::markup::Node);

#[verifier::external_type_specification]
#[verifier::external_body]
pub struct ExMarkupAttribute(luaux::markup::Attribute);

#[verifier::external_type_specification]
#[verifier::external_body]
pub struct ExMarkupChild(luaux::markup::Child);

#[verifier::external_type_specification]
#[verifier::external_body]
pub struct ExMarkupSpan(luaux::markup::Span);

#[verifier::external_type_specification]
#[verifier::external_body]
pub struct ExLuauTree<'a>(vermis::tree::Tree<'a>);

/// What `luaux::markup::parse_node` makes of `source` from byte `start`: the
/// node that starts there and the offset just past it, or the parser's message.
pub uninterp spec fn markup_parse(source: Seq<char>, start: usize) -> Result<(MarkupNode, usize), Seq<char>>;

/// Calls `luaux::markup::parse_node`, which parses one element or fragment
/// starting at byte `start`. Claimed: the result is `markup_parse` of the
/// arguments, the tree copied one for one into this crate's markup types
/// (element names as written). Not claimed: anything of that tree's shape.
/// The parser slices the source at `start`, so `start` must be a char boundary.
#[verifier::external_body]
pub(crate) fn parse_markup(source: &str, start: usize) -> (r: Result<(MarkupNode, usize), String>)
    requires
        start <= source.spec_bytes().len(),
        is_char_boundary(source.spec_bytes(), start as int),
    ensures
        match r {
            Ok(parsed) => markup_parse(source@, start) == Ok::<(MarkupNode, usize), Seq<char>>(parsed),
            Err(message) => markup_parse(source@, start) == Err::<(MarkupNode, usize), Seq<char>>(
                message@,
            ),
        },
{
    match luaux::markup::parse_node(source, start) {
        Ok((node, end)) => Ok((node_from(&node), end)),
        Err(error) => Err(error.message),
    }
}

/// Copies a `luaux` markup node into this crate's type. Nothing is claimed of it.
#[verifier::external_body]
fn node_from(node: &luaux::markup::Node) -> MarkupNode {
    match node {
        luaux::markup::Node::Element(element) => MarkupNode::Element(MarkupElement {
            name: element.name.as_written(),
            attributes: element.attributes.iter().map(attribute_from).collect(),
            children: element.children.iter().map(child_from).collect(),
            span: span_from(element.span),
        }),
        luaux::markup::Node::Fragment(fragment) => MarkupNode::Fragment(MarkupFragment {
            children: fragment.children.iter().map(child_from).collect(),
            span: span_from(fragment.span),
        }),
    }
}

/// Copies a `luaux` attribute into this crate's type. Nothing is claimed of it.
#[verifier::external_body]
fn attribute_from(attribute: &luaux::markup::Attribute) -> MarkupAttribute {
    match attribute {
        luaux::markup::Attribute::Named { name, value, span } => MarkupAttribute::Named {
            name: name.clone(),
            value: match value {
                luaux::markup::AttributeValue::Boolean => MarkupValue::Boolean,
                luaux::markup::AttributeValue::StringLiteral(literal) => MarkupValue::StringLiteral(literal.clone()),
                luaux::markup::AttributeValue::Expression(expression) => MarkupValue::Expression(expression.clone()),
            },
            span: span_from(*span),
        },
        luaux::markup::Attribute::Spread { span, .. } => MarkupAttribute::Spread { span: span_from(*span) },
        luaux::markup::Attribute::Inferred { span, .. } => MarkupAttribute::Inferred { span: span_from(*span) },
    }
}

/// Copies a `luaux` child into this crate's type. Nothing is claimed of it.
#[verifier::external_body]
fn child_from(child: &luaux::markup::Child) -> MarkupChild {
    match child {
        luaux::markup::Child::Node(node) => MarkupChild::Node(node_from(node)),
        luaux::markup::Child::Expression { span, .. } => MarkupChild::Expression { span: span_from(*span) },
        luaux::markup::Child::Text { text, span } => MarkupChild::Text { text: text.clone(), span: span_from(*span) },
        luaux::markup::Child::Comment { span, .. } => MarkupChild::Comment { span: span_from(*span) },
    }
}

/// Copies a `luaux` span. Nothing is claimed of it.
#[verifier::external_body]
fn span_from(span: luaux::markup::Span) -> SourceSpan {
    SourceSpan { start: span.start, end: span.end }
}

/// A diagnostic of the Luau parser: where it starts, and its message.
#[derive(Debug)]
pub struct LuauDiagnostic {
    pub start: usize,
    pub message: String,
}

/// What the Luau parser reports of a text: its diagnostics, in the order it
/// emitted them, and the spans of the top-level statements, in source order.
#[derive(Debug)]
pub struct LuauSyntax {
    pub diagnostics: Vec<LuauDiagnostic>,
    pub statements: Vec<SourceSpan>,
}

/// What `vermis::parse` reports of the bytes `bytes`.
pub uninterp spec fn luau_parse(bytes: Seq<u8>) -> LuauSyntax;

/// Calls `vermis::parse`, the recovering Luau parser, on `bytes`. Claimed: the
/// result is `luau_parse` of the bytes. Not claimed: what the parser accepts.
#[verifier::external_body]
pub(crate) fn parse_luau(bytes: &[u8]) -> (r: LuauSyntax)
    ensures
        r == luau_parse(bytes@),
{
    let tree = vermis::parse(bytes);
    LuauSyntax { diagnostics: diagnostics_from(&tree), statements: statements_from(&tree) }
}

/// Copies the diagnostics of a `vermis` tree. Nothing is claimed of them.
#[verifier::external_body]
fn diagnostics_from(tree: &vermis::tree::Tree<'_>) -> Vec<LuauDiagnostic> {
    tree.diagnostics
        .iter()
        .map(|diagnostic| LuauDiagnostic {
            start: diagnostic.span.start,
            message: diagnostic.message.to_string(),
        })
        .collect()
}

/// Copies the spans of the statements of a `vermis` tree's top-level block.
/// Nothing is claimed of them.
#[verifier::external_body]
fn statements_from(tree: &vermis::tree::Tree<'_>) -> Vec<SourceSpan> {
    let vermis::tree::NodeKind::Root { block, .. } = &tree.node(tree.root).kind else { return Vec::new() };
    let vermis::tree::NodeKind::Block { statements } = &tree.node(*block).kind else { return Vec::new() };
    tree.list(statements)
        .iter()
        .map(|entry| tree.node(entry.node).span)
        .map(|span| SourceSpan { start: span.start, end: span.end })
        .collect()
}

/// The regions are ordered, disjoint ranges of `src` between char boundaries.
pub open spec fn regions_ok(src: Seq<u8>, regions: Seq<(usize, usize)>) -> bool {
    forall|i: int|
        0 <= i < regions.len() ==> {
            &&& #[trigger] regions[i].0 <= regions[i].1 <= src.len()
            &&& is_char_boundary(src, regions[i].0 as int)
            &&& is_char_boundary(src, regions[i].1 as int)
            &&& i > 0 ==> regions[i - 1].1 <= regions[i].0
        }
}

/// What `luaux::compile::luaux_spans_for_test` reports of a source: the
/// outermost LuauX regions the compiler finds, none when it cannot lex.
pub uninterp spec fn luaux_regions(source: Seq<char>) -> Seq<(usize, usize)>;

/// Calls `luaux::compile::luaux_spans_for_test`, the compiler's own scan for
/// the outermost LuauX regions. Claimed: the result is `luaux_regions` of the
/// source. Not claimed: that the regions are in order or within the source.
#[verifier::external_body]
pub(crate) fn markup_regions(source: &str) -> (r: Vec<(usize, usize)>)
    ensures
        r@ == luaux_regions(source@),
{
    luaux::compile::luaux_spans_for_test(source)
}

/// Bytes in the UTF-8 encoding of `c`.
pub open spec fn char_width(c: char) -> int {
    encode_utf8(seq![c]).len() as int
}

/// The filler for the characters of a region, the first of them at byte
/// `index` of the region: a line feed stays; a character that starts at one of
/// the region's first three bytes becomes `n`, `i` or `l` by that byte; any
/// other character becomes one space per byte.
pub closed spec fn filler(chars: Seq<char>, index: int) -> Seq<char>
    decreases chars.len(),
{
    if chars.len() == 0 {
        seq![]
    } else {
        let c = chars[0];
        let piece = if c == '\n' {
            seq!['\n']
        } else if 0 <= index < 3 {
            seq![seq!['n', 'i', 'l'][index]]
        } else {
            Seq::new(char_width(c) as nat, |k: int| ' ')
        };
        piece + filler(chars.drop_first(), index + char_width(c))
    }
}

/// The text before each of the first `k` regions kept, and each region that
/// does not start before the end of the last one replaced by its filler: the
/// text so far, and where the source has been read to.
pub closed spec fn blank_run(src: Seq<u8>, regions: Seq<(usize, usize)>, k: int) -> (Seq<char>, int)
    decreases k,
{
    if k <= 0 {
        (seq![], 0)
    } else {
        let (out, cursor) = blank_run(src, regions, k - 1);
        let (start, end) = regions[k - 1];
        if start < cursor {
            (out, cursor)
        } else {
            (
                out + decode_utf8(src.subrange(cursor, start as int)) + filler(
                    decode_utf8(src.subrange(start as int, end as int)),
                    0,
                ),
                end as int,
            )
        }
    }
}

/// The source with every region replaced by filler that parses as a Luau
/// expression, byte offsets and line feeds kept.
pub closed spec fn blanked(source: Seq<char>, regions: Seq<(usize, usize)>) -> Seq<char> {
    let src = encode_utf8(source);
    let (out, cursor) = blank_run(src, regions, regions.len() as int);
    out + decode_utf8(src.subrange(cursor, src.len() as int))
}

/// Calls `luaux::resolve::blank_luaux_regions`. Claimed: the result is
/// `blanked` of the arguments, as the function's loop over the regions and
/// their characters writes it. The function slices the source at every region
/// it keeps, so the regions must be ordered, disjoint char-boundary ranges of it.
#[verifier::external_body]
pub(crate) fn blank_regions(source: &str, regions: &Vec<(usize, usize)>) -> (r: String)
    requires
        regions_ok(source.spec_bytes(), regions@),
    ensures
        r@ == blanked(source@, regions@),
{
    luaux::resolve::blank_luaux_regions(source, regions.as_slice())
}

#[verifier::external_type_specification]
#[verifier::external_body]
pub struct ExConfig(luaux::Config);

#[verifier::external_type_specification]
#[verifier::external_body]
pub struct ExJsonValue(serde_json::Value);

#[verifier::external_type_specification]
#[verifier::external_body]
pub struct ExCompileError(luaux::CompileError);

#[verifier::external_type_specification]
#[verifier::external_body]
pub struct ExCompileWarning(luaux::compile::Warning);

/// What `toml::to_string` makes of a table of JSON values: its TOML text, or
/// the serializer's message.
pub uninterp spec fn toml_of(values: Seq<(Seq<char>, JsonModel)>) -> Result<Seq<char>, Seq<char>>;

/// Calls `toml::to_string` on the table `values` (as `serde_json` values, keys
/// in order). Claimed: the result is `toml_of` of the table, the error by its
/// message.
#[verifier::external_body]
pub(crate) fn toml_text(values: &Vec<(String, Json)>) -> (r: Result<String, String>)
    ensures
        match r {
            Ok(text) => toml_of(Json::entry_models(values@)) == Ok::<Seq<char>, Seq<char>>(text@),
            Err(message) => toml_of(Json::entry_models(values@)) == Err::<Seq<char>, Seq<char>>(
                message@,
            ),
        },
{
    let table: std::collections::BTreeMap<String, serde_json::Value> = values
        .iter()
        .map(|(key, value)| (key.clone(), json_value(value)))
        .collect();
    toml::to_string(&table).map_err(|error| error.to_string())
}

/// Copies a JSON value into a `serde_json` value; a number is read back from
/// its JSON text. Nothing is claimed of it.
#[verifier::external_body]
fn json_value(value: &Json) -> serde_json::Value {
    match value {
        Json::Null => serde_json::Value::Null,
        Json::Bool(b) => serde_json::Value::Bool(*b),
        Json::Number(text) => serde_json::from_str(text).unwrap_or(serde_json::Value::Null),
        Json::Text(text) => serde_json::Value::String(text.clone()),
        Json::Array(items) => serde_json::Value::Array(items.iter().map(json_value).collect()),
        Json::Object(entries) => serde_json::Value::Object(
            entries.iter().map(|(key, item)| (key.clone(), json_value(item))).collect(),
        ),
    }
}

/// Calls `luaux::Config::parse_reporting`, which reads a `luaux.toml` text
/// into a configuration and notes on settings that do nothing. Nothing is
/// claimed of the result: when several entries of a table are wrong, which one
/// the message names depends on the order in which a `HashMap` is walked.
#[verifier::external_body]
pub(crate) fn parse_config(text: &str) -> (r: Result<(luaux::Config, Vec<String>), String>) {
    match luaux::Config::parse_reporting(text) {
        Ok((config, notes)) => Ok((config, notes)),
        Err(error) => Err(error.message),
    }
}

/// The arrangement a configuration's backend emits.
#[derive(Clone, Copy, PartialEq, Eq, Structural, Debug)]
pub enum BackendChoice {
    /// `luaux::Element`: React's `createElement(class, props, ...children)`.
    Element,
    /// `luaux::Table`: one curried constructor, children in the props table.
    Table,
}

/// The backend a configuration names.
pub uninterp spec fn config_backend(config: luaux::Config) -> BackendChoice;

/// Reads `luaux::Config::backend`. Claimed: the result is `config_backend` of
/// the configuration.
#[verifier::external_body]
pub(crate) fn backend(config: &luaux::Config) -> (r: BackendChoice)
    ensures
        r == config_backend(*config),
{
    match config.backend {
        luaux::config::BackendKind::Element => BackendChoice::Element,
        luaux::config::BackendKind::Table => BackendChoice::Table,
    }
}

/// How a lint of the LuauX compiler reports: `luaux::config::LintLevel`.
#[derive(Clone, Copy, PartialEq, Eq, Structural, Debug)]
pub enum LintChoice {
    Off,
    Warn,
    Error,
}

/// The configuration with `static_conditional_child` set to `level`.
pub uninterp spec fn with_child_level(config: luaux::Config, level: LintChoice) -> luaux::Config;

/// Assigns `luaux::Config::static_conditional_child`, the level converted
/// variant for variant. Claimed: the result is `with_child_level` of the
/// configuration and the level, with the same backend (the assignment touches
/// no other field).
#[verifier::external_body]
pub(crate) fn set_child_level(config: luaux::Config, level: LintChoice) -> (r: luaux::Config)
    ensures
        r == with_child_level(config, level),
        config_backend(r) == config_backend(config),
{
    let mut config = config;
    config.static_conditional_child = match level {
        LintChoice::Off => luaux::config::LintLevel::Off,
        LintChoice::Warn => luaux::config::LintLevel::Warn,
        LintChoice::Error => luaux::config::LintLevel::Error,
    };
    config
}

/// A diagnostic of the LuauX compiler: its message, the offending bytes
/// `offset..offset + length`, and a suggestion.
#[derive(Debug)]
pub struct CompilerDiagnostic {
    pub message: String,
    pub offset: usize,
    pub length: usize,
    pub help: Option<String>,
}

/// The mathematical value of a [`CompilerDiagnostic`].
pub struct DiagnosticModel {
    pub message: Seq<char>,
    pub offset: usize,
    pub length: usize,
    pub help: Option<Seq<char>>,
}

impl CompilerDiagnostic {
    /// The diagnostic's value, its texts by their characters.
    pub open spec fn model(&self) -> DiagnosticModel {
        DiagnosticModel {
            message: self.message@,
            offset: self.offset,
            length: self.length,
            help: match self.help {
                Some(h) => Some(h@),
                None => None,
            },
        }
    }
}

/// The values of a list of diagnostics.
pub open spec fn diagnostic_models(v: Seq<CompilerDiagnostic>) -> Seq<DiagnosticModel> {
    v.map_values(|d: CompilerDiagnostic| d.model())
}

/// Calls `luaux::compile::compile_configured` with the chosen backend.
/// Nothing is claimed of the result: the compiler resolves property aliases
/// through a `HashMap` seeded per process (`Config::resolve_property`), so equal
/// arguments may compile differently. Callers state what they hand to it with
/// `call_ensures`.
#[verifier::external_body]
pub(crate) fn compile_strict(source: &str, backend: BackendChoice, config: luaux::Config) -> (r: Result<
    (String, Vec<CompilerDiagnostic>),
    CompilerDiagnostic,
>) {
    let result = match backend {
        BackendChoice::Element => luaux::compile::compile_configured(source, &luaux::Element, config),
        BackendChoice::Table => luaux::compile::compile_configured(source, &luaux::Table, config),
    };
    match result {
        Ok((output, warnings)) => Ok((output, warnings.iter().map(warning_from).collect())),
        Err(error) => Err(error_from(&error)),
    }
}

/// Calls `luaux::compile::compile_recovering` with the chosen backend.
/// Nothing is claimed of the result, for the reason given at `compile_strict`.
#[verifier::external_body]
pub(crate) fn compile_lenient(source: &str, backend: BackendChoice, config: luaux::Config) -> (r: Result<
    (String, Vec<CompilerDiagnostic>, Vec<CompilerDiagnostic>),
    CompilerDiagnostic,
>) {
    let result = match backend {
        BackendChoice::Element => luaux::compile::compile_recovering(source, &luaux::Element, config),
        BackendChoice::Table => luaux::compile::compile_recovering(source, &luaux::Table, config),
    };
    match result {
        Ok(compiled) => Ok((
            compiled.output,
            compiled.warnings.iter().map(warning_from).collect(),
            compiled.errors.iter().map(error_from).collect(),
        )),
        Err(error) => Err(error_from(&error)),
    }
}

/// Copies a `luaux` warning. Nothing is claimed of it.
#[verifier::external_body]
fn warning_from(warning: &luaux::compile::Warning) -> CompilerDiagnostic {
    CompilerDiagnostic {
        message: warning.message.clone(),
        offset: warning.offset,
        length: warning.length,
        help: warning.help.clone(),
    }
}

/// Copies a `luaux` compile error. Nothing is claimed of it.
#[verifier::external_body]
fn error_from(error: &luaux::CompileError) -> CompilerDiagnostic {
    CompilerDiagnostic {
        message: error.message.clone(),
        offset: error.offset,
        length: error.length,
        help: error.help.clone(),
    }
}

} // verus!
