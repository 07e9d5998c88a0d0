use luaux_graft::json::Json;
use luaux_graft::settings::{boolean, format_options, FormatOptions, QuoteStyle, TextWrap};

fn table(entries: Vec<(&str, Json)>) -> Json {
    Json::Object(entries.into_iter().map(|(k, v)| (k.to_string(), v)).collect())
}

fn text(s: &str) -> Json {
    Json::Text(s.to_string())
}

#[test]
fn defaults_without_configuration() {
    let defaults = FormatOptions::default();
    assert_eq!(defaults.attribute_quotes, QuoteStyle::Double);
    assert!(!defaults.bracket_same_line);
    assert!(!defaults.attribute_per_line);
    assert!(defaults.self_closing_space);
    assert_eq!(defaults.text_wrap, TextWrap::Fill);
    assert!(defaults.blank_lines);
    assert!(defaults.space_inside_braces);
    assert_eq!(format_options(&Vec::new(), None).unwrap(), defaults);
}

#[test]
fn format_table_sets_options() {
    let configuration = vec![(
        "format".to_string(),
        table(vec![
            ("attribute_quotes", text("single")),
            ("text_wrap", text("preserve")),
            ("bracket_same_line", Json::Bool(true)),
            ("attribute_per_line", Json::Bool(true)),
            ("self_closing_space", Json::Bool(false)),
            ("blank_lines", Json::Bool(false)),
            ("space_inside_braces", Json::Bool(false)),
            ("unrelated", Json::Null),
        ]),
    )];
    let o = format_options(&configuration, None).unwrap();
    assert_eq!(o.attribute_quotes, QuoteStyle::Single);
    assert_eq!(o.text_wrap, TextWrap::Preserve);
    assert!(o.bracket_same_line && o.attribute_per_line);
    assert!(!o.self_closing_space && !o.blank_lines && !o.space_inside_braces);
}

#[test]
fn format_options_table_stands_in_for_format() {
    let configuration = vec![
        ("format".to_string(), text("not a table")),
        (
            "format_options".to_string(),
            table(vec![("attribute_quotes", text("preserve"))]),
        ),
    ];
    assert_eq!(
        format_options(&configuration, None).unwrap().attribute_quotes,
        QuoteStyle::Preserve
    );
}

#[test]
fn editor_brace_spacing_applies_unless_configured() {
    let settings = table(vec![("spacing", table(vec![("braces", Json::Bool(false))]))]);
    assert!(!format_options(&Vec::new(), Some(&settings)).unwrap().space_inside_braces);
    let configuration = vec![(
        "format".to_string(),
        table(vec![("space_inside_braces", Json::Bool(true))]),
    )];
    assert!(format_options(&configuration, Some(&settings)).unwrap().space_inside_braces);
    let odd = table(vec![("spacing", table(vec![("braces", text("no"))]))]);
    assert_eq!(
        format_options(&Vec::new(), Some(&odd)).unwrap_err(),
        "space_inside_braces must be true or false"
    );
}

#[test]
fn bad_values_are_refused_in_name_order() {
    let bad = |entries: Vec<(&str, Json)>| {
        format_options(&vec![("format".to_string(), table(entries))], None).unwrap_err()
    };
    assert_eq!(
        bad(vec![("attribute_quotes", text("backtick"))]),
        "attribute_quotes must be double, single, or preserve"
    );
    assert_eq!(bad(vec![("text_wrap", Json::Bool(true))]), "text_wrap must be fill or preserve");
    assert_eq!(
        bad(vec![("bracket_same_line", text("yes"))]),
        "bracket_same_line must be true or false"
    );
    assert_eq!(
        bad(vec![("text_wrap", Json::Null), ("blank_lines", Json::Null)]),
        "blank_lines must be true or false"
    );
}

#[test]
fn boolean_reads_only_booleans() {
    assert_eq!(boolean("flag", &Json::Bool(true)), Ok(true));
    assert_eq!(boolean("flag", &Json::Number("1".to_string())), Err("flag must be true or false".to_string()));
}

#[test]
fn only_the_own_format_table_counts() {
    let own = || table(vec![("attribute_quotes", text("single")), ("blank_lines", Json::Bool(false))]);
    let crowded = vec![
        ("compiler".to_string(), table(vec![("backend", text("table"))])),
        ("format".to_string(), own()),
        ("format_options".to_string(), table(vec![("attribute_quotes", text("preserve"))])),
        ("unknown".to_string(), Json::Bool(true)),
    ];
    let alone = vec![("format".to_string(), own())];
    let expected = format_options(&alone, None).unwrap();
    assert_eq!(format_options(&crowded, None).unwrap(), expected);
    assert_eq!(expected.attribute_quotes, QuoteStyle::Single);
    assert!(!expected.blank_lines);
}
