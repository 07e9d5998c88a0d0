use luaux_graft::compiler::{diagnostic, mappings};

#[test]
fn mappings_cover_only_preserved_luau() {
    let mappings = mappings(
        "-- 雪\r\nreturn <Frame />\n",
        "-- 雪\r\nreturn React.createElement(\"Frame\")\n",
    )
    .unwrap();

    assert!(!mappings.is_empty());

    for mapping in mappings {
        assert_eq!(
            &"-- 雪\r\nreturn React.createElement(\"Frame\")\n"[mapping.start..mapping.end],
            &"-- 雪\r\nreturn <Frame />\n"[mapping.original_start..mapping.original_end]
        );
    }
}

#[test]
fn diagnostic_counts_lines_and_byte_columns() {
    assert_eq!(diagnostic("ab\ncd", 4, "bad", None), "(2,2): bad");
    assert_eq!(diagnostic("ab\ncd", 4, "bad", Some("fix it")), "(2,2): bad; fix it");
}

use luaux_graft::graft::{respond, Response};
use luaux_graft::json::Json;
use luaux_graft::protocol::{Mapping, Request};

fn request(source: &str, configuration: Vec<(String, Json)>) -> Request {
    Request {
        version: 1,
        hook: "compile".to_string(),
        source: source.to_string(),
        configuration,
        settings: None,
    }
}

#[test]
fn mappings_refuse_a_changed_line_count() {
    assert_eq!(
        mappings("a\nb", "a").unwrap_err(),
        "LuauX changed the source line count"
    );
    assert_eq!(
        mappings("a", "a\n\n").unwrap_err(),
        "LuauX changed the source line count"
    );
}

#[test]
fn mappings_of_unchanged_text_cover_every_line() {
    assert_eq!(
        mappings("a\nbc\n", "a\nbc\n").unwrap(),
        vec![
            Mapping { start: 0, end: 2, original_start: 0, original_end: 2 },
            Mapping { start: 2, end: 5, original_start: 2, original_end: 5 },
        ]
    );
    assert_eq!(mappings("", "").unwrap(), vec![]);
}

#[test]
fn mappings_keep_text_and_order() {
    let source = "local a = 1\nreturn <A />\n-- end\nx";
    let generated = "local a = 1\nreturn A()\n-- end\ny";
    let found = mappings(source, generated).unwrap();
    assert_eq!(
        found,
        vec![
            Mapping { start: 0, end: 12, original_start: 0, original_end: 12 },
            Mapping { start: 23, end: 30, original_start: 25, original_end: 32 },
        ]
    );
    let mut previous = 0;
    for mapping in &found {
        assert!(mapping.start < mapping.end && previous <= mapping.start);
        assert_eq!(
            &generated[mapping.start..mapping.end],
            &source[mapping.original_start..mapping.original_end]
        );
        previous = mapping.end;
    }
}

#[test]
fn diagnostic_outside_the_source_points_at_the_start() {
    assert_eq!(diagnostic("ab", 7, "bad", None), "(1,1): bad");
    assert_eq!(diagnostic("雪x", 1, "bad", None), "(1,1): bad");
    assert_eq!(diagnostic("雪x", 3, "bad", None), "(1,4): bad");
    assert_eq!(diagnostic("a\r\n\nb", 4, "m", None), "(3,1): m");
}

#[test]
fn compile_keeps_plain_luau() {
    let mut log = Vec::new();
    match respond(&request("return 1\n", Vec::new()), &mut log).unwrap() {
        Response::Compiled(compilation) => {
            assert_eq!(compilation.version, 1);
            assert_eq!(compilation.source, "return 1\n");
            assert!(compilation.dependencies.is_empty());
            assert_eq!(
                compilation.mappings,
                vec![Mapping { start: 0, end: 9, original_start: 0, original_end: 9 }]
            );
        }
        other => panic!("{other:?}"),
    }
    assert!(log.is_empty());
}

#[test]
fn compile_turns_markup_into_calls() {
    let source = "local React = require('@react')\nreturn <Frame />\n";
    let mut log = Vec::new();
    match respond(&request(source, Vec::new()), &mut log).unwrap() {
        Response::Compiled(compilation) => {
            assert!(compilation.source.contains("React.createElement"));
            assert_eq!(
                compilation.mappings,
                vec![Mapping { start: 0, end: 32, original_start: 0, original_end: 32 }]
            );
        }
        other => panic!("{other:?}"),
    }
}

#[test]
fn accepts_upstream_factory_configuration() {
    let source = "local create = require('@vide').create\nreturn <Frame />\n";
    let configuration = vec![(
        "factory".to_string(),
        Json::Object(vec![
            ("backend".to_string(), Json::Text("table".to_string())),
            ("create".to_string(), Json::Text("create".to_string())),
        ]),
    )];
    let mut log = Vec::new();
    match respond(&request(source, configuration), &mut log).unwrap() {
        Response::Compiled(compilation) => {
            let generated = compilation.source;
            assert!(generated.contains("create"), "{generated}");
            assert!(!generated.contains("React"), "{generated}");
        }
        other => panic!("{other:?}"),
    }
}

#[test]
fn compile_refuses_other_protocols() {
    let mut log = Vec::new();
    let mut wrong_version = request("return 1", Vec::new());
    wrong_version.version = 2;
    let mut with_settings = request("return 1", Vec::new());
    with_settings.settings = Some(Json::Object(Vec::new()));
    for wrong in [wrong_version, with_settings] {
        assert_eq!(
            respond(&wrong, &mut log).unwrap_err(),
            "expected a protocol 1 compile request without formatter settings"
        );
    }
    let mut unknown = request("return 1", Vec::new());
    unknown.hook = "unknown".to_string();
    assert_eq!(respond(&unknown, &mut log).unwrap_err(), "unsupported graft hook");
}

#[test]
fn compile_reports_errors_with_their_position() {
    let mut log = Vec::new();
    assert_eq!(
        respond(&request("return <Frame", Vec::new()), &mut log).unwrap_err(),
        "(1,14): expected `>` or `/>`"
    );
    let unknown = request("return 1", vec![("unknown".to_string(), Json::Bool(true))]);
    assert!(respond(&unknown, &mut log).is_err());
    let undefined = request(
        "local React = require('@react')\nreturn <NonexistentClass />",
        Vec::new(),
    );
    assert!(respond(&undefined, &mut log).is_err());
}

#[test]
fn compile_of_plain_luau_maps_every_line() {
    for source in ["", "return 1", "-- 雪\r\nreturn 1\r\n"] {
        let mut log = Vec::new();
        match respond(&request(source, Vec::new()), &mut log).unwrap() {
            Response::Compiled(compilation) => {
                assert_eq!(compilation.version, 1);
                assert!(compilation.dependencies.is_empty());
                assert_eq!(compilation.source, source);
                let mut previous = 0;
                for mapping in &compilation.mappings {
                    assert_eq!(mapping.start, previous);
                    assert!(mapping.start < mapping.end);
                    assert_eq!(
                        (mapping.original_start, mapping.original_end),
                        (mapping.start, mapping.end)
                    );
                    previous = mapping.end;
                }
                assert_eq!(previous, compilation.source.len());
            }
            other => panic!("{other:?}"),
        }
    }
}

#[test]
fn unchanged_output_is_mapped_line_by_line() {
    let source = "-- 雪\r\nreturn 1\r\n";
    assert_eq!(
        mappings(source, source).unwrap(),
        vec![
            Mapping { start: 0, end: 8, original_start: 0, original_end: 8 },
            Mapping { start: 8, end: 18, original_start: 8, original_end: 18 },
        ]
    );
}

fn json_request(input: &str) -> Result<Request, String> {
    let value: serde_json::Value = serde_json::from_str(input).map_err(|e| e.to_string())?;
    let object = value.as_object().ok_or("not an object")?;
    for key in object.keys() {
        if !["version", "hook", "source", "configuration", "settings"].contains(&key.as_str()) {
            return Err(format!("unknown field {key}"));
        }
    }
    let version = object.get("version").and_then(|v| v.as_u64()).ok_or("missing version")?;
    let hook = object.get("hook").and_then(|v| v.as_str()).ok_or("missing hook")?;
    let source = object.get("source").and_then(|v| v.as_str()).ok_or("missing source")?;
    let configuration = object
        .get("configuration")
        .and_then(|v| v.as_object())
        .ok_or("missing configuration")?;
    let settings = object.get("settings").ok_or("missing settings")?;
    Ok(Request {
        version: u32::try_from(version).map_err(|e| e.to_string())?,
        hook: hook.to_string(),
        source: source.to_string(),
        configuration: configuration.iter().map(|(k, v)| (k.clone(), json(v))).collect(),
        settings: if settings.is_null() { None } else { Some(json(settings)) },
    })
}

fn json(value: &serde_json::Value) -> Json {
    match value {
        serde_json::Value::Null => Json::Null,
        serde_json::Value::Bool(b) => Json::Bool(*b),
        serde_json::Value::Number(n) => Json::Number(n.to_string()),
        serde_json::Value::String(s) => Json::Text(s.clone()),
        serde_json::Value::Array(items) => Json::Array(items.iter().map(json).collect()),
        serde_json::Value::Object(entries) => {
            Json::Object(entries.iter().map(|(k, v)| (k.clone(), json(v))).collect())
        }
    }
}

#[test]
fn failures_leave_standard_output_empty() {
    for input in [
        "not JSON".to_owned(),
        "{}".to_owned(),
        r#"{"version":2,"hook":"compile","source":"return 1","configuration":{},"settings":null}"#.to_owned(),
        r#"{"version":1,"hook":"format","source":"return 1","configuration":{},"settings":null}"#.to_owned(),
        r#"{"version":1,"hook":"compile","source":"return 1","configuration":{},"settings":{}}"#.to_owned(),
        r#"{"version":1,"hook":"compile","source":"return <Frame","configuration":{},"settings":null}"#.to_owned(),
        r#"{"version":1,"hook":"compile","source":"return 1","configuration":{"unknown":true},"settings":null}"#.to_owned(),
        r#"{"version":1,"hook":"compile","source":"local React = require('@react')\nreturn <NonexistentClass />","configuration":{},"settings":null}"#.to_owned(),
    ] {
        let answer = json_request(&input).and_then(|request| {
            let mut log = Vec::new();
            respond(&request, &mut log)
        });
        assert!(answer.is_err(), "{input}");
    }
}

#[test]
fn compiles_react_markup_with_valid_mappings() {
    for source in [
        "local React = require('@react')\nreturn <Frame><TextLabel Text=\"雪\" /></Frame>\n",
        "local React = require('@react')\nlocal properties = {}\nreturn <Frame {...properties} />\n",
    ] {
        let mut log = Vec::new();
        match respond(&request(source, Vec::new()), &mut log).unwrap() {
            Response::Compiled(compilation) => {
                assert_eq!(compilation.version, 1);
                assert!(compilation.dependencies.is_empty());
                let generated = compilation.source;
                assert!(generated.contains("React.createElement"), "{generated}");
                assert!(!compilation.mappings.is_empty());
                let mut previous = 0;
                for mapping in &compilation.mappings {
                    assert!(previous <= mapping.start && mapping.start < mapping.end);
                    let out = generated.get(mapping.start..mapping.end).unwrap();
                    let original = source.get(mapping.original_start..mapping.original_end).unwrap();
                    assert_eq!(out, original);
                    previous = mapping.end;
                }
            }
            other => panic!("{other:?}"),
        }
    }
}

#[test]
fn unparsable_sources_pass_through_format_and_lint() {
    let source = "return <Frame";
    let bad_configuration = vec![("unknown".to_string(), Json::Bool(true))];
    for version in [1, 2] {
        let mut format = request(source, bad_configuration_clone(&bad_configuration));
        format.hook = "format".to_string();
        format.version = version;
        let mut log = Vec::new();
        match respond(&format, &mut log).unwrap() {
            Response::Formatted(answer) => {
                assert_eq!(answer.version, 1);
                assert_eq!(
                    format!("{:?}", answer.document),
                    format!("{:?}", luaux_graft::protocol::Document::Source(0, source.len() as u32))
                );
            }
            other => panic!("{other:?}"),
        }
        let mut lint = request(source, bad_configuration_clone(&bad_configuration));
        lint.hook = "lint".to_string();
        lint.version = version;
        match respond(&lint, &mut log).unwrap() {
            Response::Linted(findings) => assert!(findings.is_empty()),
            other => panic!("{other:?}"),
        }
        assert!(log.is_empty());
    }
    assert!(respond(&request(source, Vec::new()), &mut Vec::new()).is_err());
}

fn bad_configuration_clone(entries: &[(String, Json)]) -> Vec<(String, Json)> {
    entries.iter().map(|(k, _)| (k.clone(), Json::Bool(true))).collect()
}
