//! Answering a host request: the hook it names, run on its source.
use crate::compiler::{
    compile_reply, compile_request, config_answer, configuration, configuration_reply,
    lemma_nothing_added, mappings_of, only_warnings_added, texts, warning_lines,
};
use crate::formatter::format_result;
use crate::json::{same_text, Json};
use crate::linter::{lint, lint_answer, starts_in_order};
use crate::outside::{parse_config, toml_of};
use crate::protocol::{finding_views, Compilation, Doc, Document, Finding, Format, Mapping, Request};
use crate::source::{parse, parse_file};
use crate::settings::{format_options, format_options_of};
use vstd::prelude::*;
use vstd::utf8::*;

verus! {

/// The answer to a request.
#[derive(Debug)]
pub enum Response {
    Compiled(Compilation),
    Formatted(Format),
    Linted(Vec<Finding>),
}

/// Whether a request is a protocol 1 format request: it carries the editor's
/// settings.
pub open spec fn format_request_ok(request: Request) -> bool {
    request.version == 1 && request.settings is Some
}

/// What a format request is answered: a source that does not parse is kept
/// whole, as written, whatever else the request says; else the layout of the
/// source under the options the request asks for.
pub open spec fn format_answer(request: Request, r: Result<Response, String>) -> bool {
    let c = Json::entry_models(request.configuration@);
    let s = match request.settings {
        Some(v) => Some(v@),
        None => None,
    };
    if parse_file(request.source@) is Err {
        r matches Ok(Response::Formatted(f)) && f.version == 1 && f.document@ == Doc::Source(
            0,
            encode_utf8(request.source@).len(),
        )
    } else if !format_request_ok(request) {
        r matches Err(e) && e@ == "expected a protocol 1 format request"@
    } else {
        match format_options_of(c, s) {
            Err(message) => r matches Err(e) && e@ == message,
            Ok(o) => match format_result(request.source@, o) {
                Err(message) => r matches Err(e) && e@ == message,
                Ok(d) => r matches Ok(Response::Formatted(f)) && f.version == 1 && f.document@ == d,
            },
        }
    }
}

/// What a compile request is answered, as a response.
pub open spec fn compile_response(
    request: Request,
    r: Result<Response, String>,
    before: Seq<String>,
    after: Seq<String>,
) -> bool {
    match r {
        Ok(Response::Compiled(c)) => compile_reply(request, Ok::<Compilation, String>(c), before, after),
        Ok(_) => false,
        Err(e) => compile_reply(request, Err::<Compilation, String>(e), before, after),
    }
}

/// What a lint request is answered: nothing found in a source that does not
/// parse, whatever else the request says, and nothing logged; else refused
/// unless it is a protocol 1 request; else the project's configuration is read
/// from the request's table (see `configuration_reply`), and the findings are
/// `lint`'s under it.
pub open(crate) spec fn lint_reply(
    request: Request,
    r: Result<Response, String>,
    before: Seq<String>,
    after: Seq<String>,
) -> bool {
    if parse_file(request.source@) is Err {
        r matches Ok(Response::Linted(found)) && found@.len() == 0 && after == before
    } else if request.version != 1 {
        r matches Err(e) && e@ == "expected a protocol 1 lint request"@ && after == before
    } else {
        match toml_of(Json::entry_models(request.configuration@)) {
            Err(message) => r matches Err(e) && e@ == message && after == before,
            Ok(text) => exists|s: &str, o: Result<(luaux::Config, Vec<String>), String>|
                s@ == text && #[trigger] call_ensures(parse_config, (s,), o) && match o {
                    Err(message) => r == Err::<Response, String>(message) && after == before,
                    Ok((config, notes)) => texts(after) == texts(before) + warning_lines(notes@)
                        && (r matches Ok(Response::Linted(found)) && lint_answer(
                        request.source@,
                        config,
                        finding_views(found@),
                    )),
                },
        }
    }
}

/// Runs the hook a request names. Warnings, of the configuration and of the
/// compiler, are logged.
pub fn respond(request: &Request, log: &mut Vec<String>) -> (r: Result<Response, String>)
    requires
        encode_utf8(request.source@).len() <= u32::MAX,
        encode_utf8(request.source@).len() < usize::MAX,
    ensures
        request.hook@ != "compile"@ && request.hook@ != "format"@ && request.hook@ != "lint"@ ==> (r matches Err(e)
            && e@ == "unsupported graft hook"@),
        request.hook@ == "compile"@ ==> compile_response(*request, r, old(log)@, final(log)@),
        request.hook@ == "compile"@ ==> (r matches Ok(Response::Compiled(c)) ==> c.version == 1
            && c.dependencies@.len() == 0 && mappings_of(
            encode_utf8(request.source@),
            encode_utf8(c.source@),
        ) == Ok::<Seq<Mapping>, Seq<char>>(c.mappings@)),
        request.hook@ == "format"@ ==> format_answer(*request, r),
        request.hook@ == "lint"@ ==> lint_reply(*request, r, old(log)@, final(log)@),
        request.hook@ == "lint"@ ==> (r matches Ok(Response::Linted(found)) ==> starts_in_order(
            finding_views(found@),
        )),
        request.hook@ == "compile"@ || request.hook@ == "lint"@ || final(log)@ == old(log)@,
        only_warnings_added(old(log)@, final(log)@),
{
    proof {
        lemma_nothing_added(log@);
        reveal_strlit("compile");
        reveal_strlit("format");
        reveal_strlit("lint");
        assert("compile"@[0] != "format"@[0]);
        assert("compile"@[0] != "lint"@[0]);
        assert("format"@[0] != "lint"@[0]);
    }
    let source = request.source.as_str();
    let formats = same_text(request.hook.as_str(), "format");
    let lints = same_text(request.hook.as_str(), "lint");
    if formats || lints {
        if parse(source).is_err() {
            if formats {
                let document = Document::source(0, source.as_bytes().len());
                return Ok(Response::Formatted(Format { version: 1, document: document }));
            }
            return Ok(Response::Linted(Vec::new()));
        }
    }
    if same_text(request.hook.as_str(), "compile") {
        return match compile_request(request, log) {
            Ok(compilation) => Ok(Response::Compiled(compilation)),
            Err(message) => Err(message),
        };
    }
    if same_text(request.hook.as_str(), "format") {
        if request.version != 1 || request.settings.is_none() {
            return Err(String::from_str("expected a protocol 1 format request"));
        }
        let options = match format_options(&request.configuration, request.settings.as_ref()) {
            Ok(options) => options,
            Err(message) => {
                return Err(message);
            },
        };
        return match crate::formatter::format(source, options) {
            Ok(document) => Ok(Response::Formatted(Format { version: 1, document: document })),
            Err(message) => Err(message),
        };
    }
    if same_text(request.hook.as_str(), "lint") {
        if request.version != 1 {
            return Err(String::from_str("expected a protocol 1 lint request"));
        }
        let ghost before = log@;
        let config = match configuration(&request.configuration, log) {
            Ok(config) => config,
            Err(message) => {
                return Err(message);
            },
        };
        let ghost cfg = config;
        let ghost middle = log@;
        let findings = lint(source, config);
        let r = Ok(Response::Linted(findings));
        proof {
            let text = toml_of(Json::entry_models(request.configuration@))->Ok_0;
            let (s0, o0) = choose|s: &str, o: Result<(luaux::Config, Vec<String>), String>|
                s@ == text && #[trigger] call_ensures(parse_config, (s,), o) && config_answer(
                    o,
                    Ok::<luaux::Config, String>(cfg),
                    before,
                    middle,
                );
            assert(call_ensures(parse_config, (s0,), o0));
        }
        return r;
    }
    Err(String::from_str("unsupported graft hook"))
}

} // verus!
