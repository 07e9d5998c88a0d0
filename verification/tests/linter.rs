use luaux_graft::graft::{respond, Response};
use luaux_graft::linter::{fits, mark_end, mark_start};
use luaux_graft::protocol::{Finding, Request};

fn lint(source: &str) -> Vec<(String, String, usize, usize)> {
    let request = Request {
        version: 1,
        hook: "lint".to_string(),
        source: source.to_string(),
        configuration: Vec::new(),
        settings: None,
    };
    let mut log = Vec::new();
    match respond(&request, &mut log).unwrap() {
        Response::Linted(findings) => findings
            .into_iter()
            .map(|Finding { rule, message, start, end }| (rule, message, start, end))
            .collect(),
        other => panic!("{other:?}"),
    }
}

fn found(rule: &str, message: &str, start: usize, end: usize) -> (String, String, usize, usize) {
    (rule.to_string(), message.to_string(), start, end)
}

#[test]
fn mark_start_backs_up_to_a_char_boundary() {
    let source = "a雪b";
    assert_eq!(mark_start(source, 0), 0);
    assert_eq!(mark_start(source, 2), 1);
    assert_eq!(mark_start(source, 3), 1);
    assert_eq!(mark_start(source, 4), 4);
    assert_eq!(mark_start(source, 99), 5);
}

#[test]
fn mark_end_covers_at_least_one_byte_at_char_boundaries() {
    let source = "a雪b";
    assert_eq!(mark_end(source, 1, 0), 1);
    assert_eq!(mark_end(source, 1, 3), 4);
    assert_eq!(mark_end(source, 0, 0), 1);
    assert_eq!(mark_end(source, 0, 2), 1);
    assert_eq!(mark_end(source, 4, 10), 5);
    assert_eq!(mark_end(source, 5, 0), 5);
    assert_eq!(mark_end(source, 0, usize::MAX), 5);
}

#[test]
fn fits_needs_whole_characters_that_the_message_quotes() {
    assert!(fits("return Foo", 7, 10, "<Foo> is not defined"));
    assert!(!fits("return Foo", 7, 10, "<Bar> is not defined"));
    assert!(!fits("雪", 1, 3, "雪"));
    assert!(!fits("abc", 2, 4, "c"));
    assert!(fits("abc", 1, 1, ""));
}

#[test]
fn lint_finds_duplicate_attributes() {
    assert_eq!(
        lint("local React = require('@react')\nreturn <Frame Visible Visible />\n"),
        vec![found("duplicate_attribute", "duplicate attribute Visible", 54, 61)]
    );
}

#[test]
fn lint_finds_useless_fragments() {
    assert_eq!(
        lint("local React = require('@react')\nreturn <Frame><></></Frame>\n"),
        vec![found("useless_fragment", "fragment adds no level", 46, 51)]
    );
}

#[test]
fn lint_finds_empty_elements_and_explicit_true() {
    assert_eq!(
        lint("local React = require('@react')\nreturn <Frame Visible={true}></Frame>\n"),
        vec![
            found("self_closing_element", "empty element can self-close", 39, 69),
            found("explicit_true_attribute", "Visible={true} can be written as Visible", 46, 60),
        ]
    );
}

#[test]
fn lint_finds_comment_like_text() {
    let findings = lint("local React = require('@react')\nreturn <TextLabel>-- note</TextLabel>\n");
    assert_eq!(findings[0], found("comment_as_text", "comment-like text is displayed", 50, 57));
}

#[test]
fn lint_findings_come_in_order() {
    let findings = lint(
        "local React = require('@react')\nreturn <Frame A A><></><Frame></Frame></Frame>\n",
    );
    let starts: Vec<usize> = findings.iter().map(|f| f.2).collect();
    let mut sorted = starts.clone();
    sorted.sort();
    assert_eq!(starts, sorted);
    assert!(findings.len() >= 3);
}

#[test]
fn lint_of_a_source_that_does_not_parse_is_empty() {
    assert_eq!(lint("return <Frame"), vec![]);
}

#[test]
fn lint_reports_a_compile_that_stops() {
    assert_eq!(
        lint("local x = <Frame />\n"),
        vec![found("compile_error", "`React` is not in scope", 0, 1)]
    );
}

#[test]
fn lint_warns_about_children_built_once() {
    let findings = lint(
        "local React = require('@react')\nlocal e = <Frame>{cond() and <TextLabel/> or nil}</Frame>\n",
    );
    assert!(
        findings.iter().any(|f| f.0 == "static_conditional_child" && f.1.contains("built once")),
        "{findings:?}"
    );
}

use luaux_graft::linter::findings;
use luaux_graft::outside::CompilerDiagnostic;
use luaux_graft::source::parse;

fn diagnostic(message: &str, offset: usize, length: usize) -> CompilerDiagnostic {
    CompilerDiagnostic { message: message.to_string(), offset, length, help: None }
}

fn views(found: Vec<Finding>) -> Vec<(String, String, usize, usize)> {
    found
        .into_iter()
        .map(|Finding { rule, message, start, end }| (rule, message, start, end))
        .collect()
}

#[test]
fn findings_locate_diagnostics_in_holes_and_sort_them() {
    let source = "local React = require('@react')\nreturn <Frame Size={ foo }/>\n";
    let file = parse(source).unwrap();
    assert_eq!(file.hole_starts, vec![53]);
    let outcome = Ok((
        String::new(),
        vec![diagnostic("`foo` is unknown", 0, 3), diagnostic("built once here", 200, 1)],
        vec![diagnostic("Frame missing", 1, 2)],
    ));
    assert_eq!(
        views(findings(source, &file, &outcome)),
        vec![
            found("unresolved_name", "Frame missing", 1, 3),
            found("compile_warning", "`foo` is unknown", 53, 56),
            found("static_conditional_child", "built once here", 61, 61),
        ]
    );
}

#[test]
fn findings_of_a_compile_that_stops_mark_one_character() {
    let source = "return 1\n";
    let file = parse(source).unwrap();
    let outcome = Err(diagnostic("stop", 5, 0));
    assert_eq!(
        views(findings(source, &file, &outcome)),
        vec![found("compile_error", "stop", 5, 6)]
    );
}

#[test]
fn findings_lie_in_the_source() {
    let source = "local React = require('@react')\nreturn <Frame Visible={true} Visible><></>-- note</Frame>\n";
    let file = parse(source).unwrap();
    for outcome in [
        Ok((String::new(), vec![diagnostic("late", 500, 9)], vec![diagnostic("wide", 80, 400)])),
        Err(diagnostic("stop", 1_000, 0)),
    ] {
        let found = views(findings(source, &file, &outcome));
        assert!(!found.is_empty());
        for (_, _, start, end) in found {
            assert!(start <= end && end <= source.len());
        }
    }
    for (_, _, start, end) in lint(source) {
        assert!(start <= end && end <= source.len());
    }
}

#[test]
fn a_stopped_compile_is_the_only_compile_error() {
    let source = "local x = <><></></>\n";
    let file = parse(source).unwrap();
    let all = views(findings(source, &file, &Err(diagnostic("stop", 3, 2))));
    let errors: Vec<_> = all.iter().filter(|f| f.0 == "compile_error").collect();
    assert_eq!(errors, vec![&found("compile_error", "stop", 3, 5)]);
    assert!(all.iter().any(|f| f.0 == "useless_fragment"));
}
