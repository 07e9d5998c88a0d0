//! Formatter options and how the request's configuration sets them.
use vstd::prelude::*;
use crate::json::{find, get, lookup, member, same_text, Json, JsonModel};

verus! {

#[derive(Clone, Copy, PartialEq, Eq, Structural, Debug)]
pub enum QuoteStyle {
    Double,
    Single,
    Preserve,
}

#[derive(Clone, Copy, PartialEq, Eq, Structural, Debug)]
pub enum TextWrap {
    Fill,
    Preserve,
}

/// Independent controls over how markup is laid out.
#[derive(Clone, Copy, PartialEq, Eq, Structural, Debug)]
pub struct FormatOptions {
    pub attribute_quotes: QuoteStyle,
    pub bracket_same_line: bool,
    pub attribute_per_line: bool,
    pub self_closing_space: bool,
    pub text_wrap: TextWrap,
    pub blank_lines: bool,
    pub space_inside_braces: bool,
    /// Spaces that make one level of indentation.
    pub indent_width: usize,
}

pub open spec fn default_options() -> FormatOptions {
    FormatOptions {
        attribute_quotes: QuoteStyle::Double,
        bracket_same_line: false,
        attribute_per_line: false,
        self_closing_space: true,
        text_wrap: TextWrap::Fill,
        blank_lines: true,
        space_inside_braces: true,
        indent_width: 4,
    }
}

impl Default for FormatOptions {
    fn default() -> (o: Self)
        ensures
            o == default_options(),
    {
        FormatOptions {
            attribute_quotes: QuoteStyle::Double,
            bracket_same_line: false,
            attribute_per_line: false,
            self_closing_space: true,
            text_wrap: TextWrap::Fill,
            blank_lines: true,
            space_inside_braces: true,
            indent_width: 4,
        }
    }
}

/// The request's own format table: `format`, else `format_options`, when it
/// is an object.
pub open spec fn own_table(configuration: Seq<(Seq<char>, JsonModel)>) -> Option<
    Seq<(Seq<char>, JsonModel)>,
> {
    match lookup(configuration, "format"@) {
        Some(JsonModel::Object(entries)) => Some(entries),
        _ => match lookup(configuration, "format_options"@) {
            Some(JsonModel::Object(entries)) => Some(entries),
            _ => None,
        },
    }
}

/// The editor's `spacing.braces` setting.
pub open spec fn editor_braces(settings: Option<JsonModel>) -> Option<JsonModel> {
    match settings {
        Some(JsonModel::Object(entries)) => match lookup(entries, "spacing"@) {
            Some(spacing) => member(spacing, "braces"@),
            None => None,
        },
        _ => None,
    }
}

/// The value given for the option `key`: the request's own format table
/// decides; the editor's brace spacing stands in for `space_inside_braces`.
pub open spec fn setting(
    configuration: Seq<(Seq<char>, JsonModel)>,
    settings: Option<JsonModel>,
    key: Seq<char>,
) -> Option<JsonModel> {
    let own = match own_table(configuration) {
        Some(entries) => lookup(entries, key),
        None => None,
    };
    if own is Some {
        own
    } else if key == "space_inside_braces"@ {
        editor_braces(settings)
    } else {
        None
    }
}

/// The options with the option `key` set from `value`, or why `value` does not
/// fit it. Keys that name no option leave the options as they are.
pub open spec fn apply_option(o: FormatOptions, key: Seq<char>, value: JsonModel) -> Result<
    FormatOptions,
    Seq<char>,
> {
    if key == "attribute_quotes"@ {
        match value {
            JsonModel::Text(s) => if s == "double"@ {
                Ok(FormatOptions { attribute_quotes: QuoteStyle::Double, ..o })
            } else if s == "single"@ {
                Ok(FormatOptions { attribute_quotes: QuoteStyle::Single, ..o })
            } else if s == "preserve"@ {
                Ok(FormatOptions { attribute_quotes: QuoteStyle::Preserve, ..o })
            } else {
                Err("attribute_quotes must be double, single, or preserve"@)
            },
            _ => Err("attribute_quotes must be double, single, or preserve"@),
        }
    } else if key == "text_wrap"@ {
        match value {
            JsonModel::Text(s) => if s == "fill"@ {
                Ok(FormatOptions { text_wrap: TextWrap::Fill, ..o })
            } else if s == "preserve"@ {
                Ok(FormatOptions { text_wrap: TextWrap::Preserve, ..o })
            } else {
                Err("text_wrap must be fill or preserve"@)
            },
            _ => Err("text_wrap must be fill or preserve"@),
        }
    } else {
        match value {
            JsonModel::Bool(b) => if key == "bracket_same_line"@ {
                Ok(FormatOptions { bracket_same_line: b, ..o })
            } else if key == "attribute_per_line"@ {
                Ok(FormatOptions { attribute_per_line: b, ..o })
            } else if key == "self_closing_space"@ {
                Ok(FormatOptions { self_closing_space: b, ..o })
            } else if key == "blank_lines"@ {
                Ok(FormatOptions { blank_lines: b, ..o })
            } else if key == "space_inside_braces"@ {
                Ok(FormatOptions { space_inside_braces: b, ..o })
            } else {
                Ok(o)
            },
            _ => Err(key + " must be true or false"@),
        }
    }
}

/// One option applied after the ones before it, unless they failed.
pub open spec fn then_apply(
    r: Result<FormatOptions, Seq<char>>,
    key: Seq<char>,
    value: Option<JsonModel>,
) -> Result<FormatOptions, Seq<char>> {
    match r {
        Err(message) => Err(message),
        Ok(o) => match value {
            None => Ok(o),
            Some(v) => apply_option(o, key, v),
        },
    }
}

/// The option names, in the order the options are read (that of their names).
pub open spec fn option_keys() -> Seq<Seq<char>> {
    seq![
        "attribute_per_line"@,
        "attribute_quotes"@,
        "blank_lines"@,
        "bracket_same_line"@,
        "self_closing_space"@,
        "space_inside_braces"@,
        "text_wrap"@,
    ]
}

/// The first `k` options applied to the defaults.
pub open spec fn options_after(
    configuration: Seq<(Seq<char>, JsonModel)>,
    settings: Option<JsonModel>,
    k: int,
) -> Result<FormatOptions, Seq<char>>
    decreases k,
{
    if k <= 0 {
        Ok(default_options())
    } else {
        then_apply(
            options_after(configuration, settings, k - 1),
            option_keys()[k - 1],
            setting(configuration, settings, option_keys()[k - 1]),
        )
    }
}

/// What `format_options` returns: the defaults with every option the request
/// gives applied, in the order of their names; the first value that does not
/// fit its option is refused.
pub open spec fn format_options_of(
    configuration: Seq<(Seq<char>, JsonModel)>,
    settings: Option<JsonModel>,
) -> Result<FormatOptions, Seq<char>> {
    options_after(configuration, settings, 7)
}

/// `value` as a boolean, or why it is not one.
pub fn boolean(name: &str, value: &Json) -> (r: Result<bool, String>)
    ensures
        match value@ {
            JsonModel::Bool(b) => r == Ok::<bool, String>(b),
            _ => r matches Err(message) && message@ == name@ + " must be true or false"@,
        },
{
    match value {
        Json::Bool(b) => Ok(*b),
        _ => {
            let mut message = String::from_str(name);
            message.append(" must be true or false");
            Err(message)
        },
    }
}

fn own_entries<'a>(configuration: &'a Vec<(String, Json)>) -> (r: Option<&'a Vec<(String, Json)>>)
    ensures
        match r {
            Some(entries) => own_table(Json::entry_models(configuration@)) == Some(
                Json::entry_models(entries@),
            ),
            None => own_table(Json::entry_models(configuration@)) is None,
        },
{
    match find(configuration, "format") {
        Some(Json::Object(entries)) => {
            return Some(entries);
        },
        _ => {},
    }
    match find(configuration, "format_options") {
        Some(Json::Object(entries)) => Some(entries),
        _ => None,
    }
}

fn editor_setting<'a>(settings: Option<&'a Json>) -> (r: Option<&'a Json>)
    ensures
        match r {
            Some(v) => editor_braces(
                match settings {
                    Some(s) => Some(s@),
                    None => None,
                },
            ) == Some(v@),
            None => editor_braces(
                match settings {
                    Some(s) => Some(s@),
                    None => None,
                },
            ) is None,
        },
{
    match settings {
        Some(Json::Object(entries)) => match find(entries, "spacing") {
            Some(spacing) => get(spacing, "braces"),
            None => None,
        },
        _ => None,
    }
}

pub open spec fn settings_model(settings: Option<&Json>) -> Option<JsonModel> {
    match settings {
        Some(s) => Some(s@),
        None => None,
    }
}

/// The value the request gives for the option `key`.
fn setting_value<'a>(
    configuration: &'a Vec<(String, Json)>,
    settings: Option<&'a Json>,
    key: &str,
) -> (r: Option<&'a Json>)
    ensures
        match r {
            Some(v) => setting(Json::entry_models(configuration@), settings_model(settings), key@)
                == Some(v@),
            None => setting(
                Json::entry_models(configuration@),
                settings_model(settings),
                key@,
            ) is None,
        },
{
    match own_entries(configuration) {
        Some(entries) => match find(entries, key) {
            Some(v) => {
                return Some(v);
            },
            None => {},
        },
        None => {},
    }
    if same_text(key, "space_inside_braces") {
        editor_setting(settings)
    } else {
        None
    }
}

/// The options with the option `key` set from `value`.
fn apply(o: FormatOptions, key: &str, value: &Json) -> (r: Result<FormatOptions, String>)
    ensures
        match r {
            Ok(p) => apply_option(o, key@, value@) == Ok::<FormatOptions, Seq<char>>(p),
            Err(m) => apply_option(o, key@, value@) == Err::<FormatOptions, Seq<char>>(m@),
        },
{
    if same_text(key, "attribute_quotes") {
        let style = match value {
            Json::Text(s) => if same_text(s.as_str(), "double") {
                Some(QuoteStyle::Double)
            } else if same_text(s.as_str(), "single") {
                Some(QuoteStyle::Single)
            } else if same_text(s.as_str(), "preserve") {
                Some(QuoteStyle::Preserve)
            } else {
                None
            },
            _ => None,
        };
        match style {
            Some(style) => Ok(FormatOptions { attribute_quotes: style, ..o }),
            None => Err(String::from_str("attribute_quotes must be double, single, or preserve")),
        }
    } else if same_text(key, "text_wrap") {
        let wrap = match value {
            Json::Text(s) => if same_text(s.as_str(), "fill") {
                Some(TextWrap::Fill)
            } else if same_text(s.as_str(), "preserve") {
                Some(TextWrap::Preserve)
            } else {
                None
            },
            _ => None,
        };
        match wrap {
            Some(wrap) => Ok(FormatOptions { text_wrap: wrap, ..o }),
            None => Err(String::from_str("text_wrap must be fill or preserve")),
        }
    } else {
        let b = match boolean(key, value) {
            Ok(b) => b,
            Err(message) => {
                return Err(message);
            },
        };
        if same_text(key, "bracket_same_line") {
            Ok(FormatOptions { bracket_same_line: b, ..o })
        } else if same_text(key, "attribute_per_line") {
            Ok(FormatOptions { attribute_per_line: b, ..o })
        } else if same_text(key, "self_closing_space") {
            Ok(FormatOptions { self_closing_space: b, ..o })
        } else if same_text(key, "blank_lines") {
            Ok(FormatOptions { blank_lines: b, ..o })
        } else if same_text(key, "space_inside_braces") {
            Ok(FormatOptions { space_inside_braces: b, ..o })
        } else {
            Ok(o)
        }
    }
}

/// One option applied after the ones before it.
fn step(
    o: FormatOptions,
    configuration: &Vec<(String, Json)>,
    settings: Option<&Json>,
    key: &str,
) -> (r: Result<FormatOptions, String>)
    ensures
        match r {
            Ok(p) => then_apply(
                Ok(o),
                key@,
                setting(Json::entry_models(configuration@), settings_model(settings), key@),
            ) == Ok::<FormatOptions, Seq<char>>(p),
            Err(m) => then_apply(
                Ok(o),
                key@,
                setting(Json::entry_models(configuration@), settings_model(settings), key@),
            ) == Err::<FormatOptions, Seq<char>>(m@),
        },
{
    match setting_value(configuration, settings, key) {
        Some(value) => apply(o, key, value),
        None => Ok(o),
    }
}

/// The formatter options a request asks for: the defaults, with the request's
/// `format` (or `format_options`) table and the editor's brace spacing applied.
pub fn format_options(configuration: &Vec<(String, Json)>, settings: Option<&Json>) -> (r:
    Result<FormatOptions, String>)
    ensures
        match r {
            Ok(o) => format_options_of(Json::entry_models(configuration@), settings_model(settings))
                == Ok::<FormatOptions, Seq<char>>(o),
            Err(m) => format_options_of(
                Json::entry_models(configuration@),
                settings_model(settings),
            ) == Err::<FormatOptions, Seq<char>>(m@),
        },
{
    proof {
        reveal_with_fuel(options_after, 8);
    }
    let mut o = FormatOptions::default();
    o = match step(o, configuration, settings, "attribute_per_line") {
        Ok(p) => p,
        Err(m) => {
            return Err(m);
        },
    };
    o = match step(o, configuration, settings, "attribute_quotes") {
        Ok(p) => p,
        Err(m) => {
            return Err(m);
        },
    };
    o = match step(o, configuration, settings, "blank_lines") {
        Ok(p) => p,
        Err(m) => {
            return Err(m);
        },
    };
    o = match step(o, configuration, settings, "bracket_same_line") {
        Ok(p) => p,
        Err(m) => {
            return Err(m);
        },
    };
    o = match step(o, configuration, settings, "self_closing_space") {
        Ok(p) => p,
        Err(m) => {
            return Err(m);
        },
    };
    o = match step(o, configuration, settings, "space_inside_braces") {
        Ok(p) => p,
        Err(m) => {
            return Err(m);
        },
    };
    o = match step(o, configuration, settings, "text_wrap") {
        Ok(p) => p,
        Err(m) => {
            return Err(m);
        },
    };
    Ok(o)
}

/// A request with no format table of its own and no editor brace spacing gets
/// the default options.
pub proof fn unset_options_are_defaults(
    configuration: Seq<(Seq<char>, JsonModel)>,
    settings: Option<JsonModel>,
)
    requires
        own_table(configuration) is None,
        editor_braces(settings) is None,
    ensures
        format_options_of(configuration, settings) == Ok::<FormatOptions, Seq<char>>(
            default_options(),
        ),
{
    reveal_with_fuel(options_after, 8);
}

/// The on/off options, by name.
pub open spec fn is_flag(key: Seq<char>) -> bool {
    key == "bracket_same_line"@ || key == "attribute_per_line"@ || key == "self_closing_space"@
        || key == "blank_lines"@ || key == "space_inside_braces"@
}

/// The value of the on/off option named `key`.
pub open spec fn flag(o: FormatOptions, key: Seq<char>) -> bool {
    if key == "bracket_same_line"@ {
        o.bracket_same_line
    } else if key == "attribute_per_line"@ {
        o.attribute_per_line
    } else if key == "self_closing_space"@ {
        o.self_closing_space
    } else if key == "blank_lines"@ {
        o.blank_lines
    } else {
        o.space_inside_braces
    }
}

/// An on/off option that the request's own table sets is what the options say,
/// whatever the other options and the editor's settings are.
pub proof fn own_flag_wins(
    configuration: Seq<(Seq<char>, JsonModel)>,
    settings: Option<JsonModel>,
    entries: Seq<(Seq<char>, JsonModel)>,
    key: Seq<char>,
    b: bool,
)
    requires
        own_table(configuration) == Some(entries),
        is_flag(key),
        lookup(entries, key) == Some(JsonModel::Bool(b)),
        format_options_of(configuration, settings) is Ok,
    ensures
        flag(format_options_of(configuration, settings)->Ok_0, key) == b,
{
    assert(setting(configuration, settings, key) == Some(JsonModel::Bool(b)));
    assert(exists|i: int| 0 <= i < 7 && option_keys()[i] == key) by {
        if key == "bracket_same_line"@ {
            assert(option_keys()[3] == key);
        } else if key == "attribute_per_line"@ {
            assert(option_keys()[0] == key);
        } else if key == "self_closing_space"@ {
            assert(option_keys()[4] == key);
        } else if key == "blank_lines"@ {
            assert(option_keys()[2] == key);
        } else {
            assert(option_keys()[5] == key);
        }
    }
    lemma_flag_after(configuration, settings, key, b, 7);
}

proof fn lemma_names_differ()
    ensures
        "attribute_per_line"@ != "attribute_quotes"@,
        "attribute_per_line"@ != "blank_lines"@,
        "attribute_per_line"@ != "bracket_same_line"@,
        "attribute_per_line"@ != "self_closing_space"@,
        "attribute_per_line"@ != "space_inside_braces"@,
        "attribute_per_line"@ != "text_wrap"@,
        "attribute_quotes"@ != "blank_lines"@,
        "attribute_quotes"@ != "bracket_same_line"@,
        "attribute_quotes"@ != "self_closing_space"@,
        "attribute_quotes"@ != "space_inside_braces"@,
        "attribute_quotes"@ != "text_wrap"@,
        "blank_lines"@ != "bracket_same_line"@,
        "blank_lines"@ != "self_closing_space"@,
        "blank_lines"@ != "space_inside_braces"@,
        "blank_lines"@ != "text_wrap"@,
        "bracket_same_line"@ != "self_closing_space"@,
        "bracket_same_line"@ != "space_inside_braces"@,
        "bracket_same_line"@ != "text_wrap"@,
        "self_closing_space"@ != "space_inside_braces"@,
        "self_closing_space"@ != "text_wrap"@,
        "space_inside_braces"@ != "text_wrap"@,
{
    reveal_strlit("attribute_per_line");
    reveal_strlit("attribute_quotes");
    reveal_strlit("blank_lines");
    reveal_strlit("bracket_same_line");
    reveal_strlit("self_closing_space");
    reveal_strlit("space_inside_braces");
    reveal_strlit("text_wrap");
    assert("attribute_per_line"@[10] != "attribute_quotes"@[10]);
    assert("attribute_per_line"@[0] != "blank_lines"@[0]);
    assert("attribute_per_line"@[0] != "bracket_same_line"@[0]);
    assert("attribute_per_line"@[0] != "self_closing_space"@[0]);
    assert("attribute_per_line"@[0] != "space_inside_braces"@[0]);
    assert("attribute_per_line"@[0] != "text_wrap"@[0]);
    assert("attribute_quotes"@[0] != "blank_lines"@[0]);
    assert("attribute_quotes"@[0] != "bracket_same_line"@[0]);
    assert("attribute_quotes"@[0] != "self_closing_space"@[0]);
    assert("attribute_quotes"@[0] != "space_inside_braces"@[0]);
    assert("attribute_quotes"@[0] != "text_wrap"@[0]);
    assert("blank_lines"@[1] != "bracket_same_line"@[1]);
    assert("blank_lines"@[0] != "self_closing_space"@[0]);
    assert("blank_lines"@[0] != "space_inside_braces"@[0]);
    assert("blank_lines"@[0] != "text_wrap"@[0]);
    assert("bracket_same_line"@[0] != "self_closing_space"@[0]);
    assert("bracket_same_line"@[0] != "space_inside_braces"@[0]);
    assert("bracket_same_line"@[0] != "text_wrap"@[0]);
    assert("self_closing_space"@[1] != "space_inside_braces"@[1]);
    assert("self_closing_space"@[0] != "text_wrap"@[0]);
    assert("space_inside_braces"@[0] != "text_wrap"@[0]);
}

/// Setting an option other than the on/off option `key` leaves `key` alone.
proof fn lemma_other_option_keeps_flag(o: FormatOptions, other: Seq<char>, v: JsonModel, key: Seq<char>)
    requires
        is_flag(key),
        other != key,
        apply_option(o, other, v) is Ok,
    ensures
        flag(apply_option(o, other, v)->Ok_0, key) == flag(o, key),
{
    lemma_names_differ();
}

proof fn lemma_flag_set(o: FormatOptions, key: Seq<char>, b: bool)
    requires
        is_flag(key),
    ensures
        apply_option(o, key, JsonModel::Bool(b)) matches Ok(p) && flag(p, key) == b,
{
    lemma_names_differ();
}

proof fn lemma_flag_after(
    configuration: Seq<(Seq<char>, JsonModel)>,
    settings: Option<JsonModel>,
    key: Seq<char>,
    b: bool,
    k: int,
)
    requires
        is_flag(key),
        setting(configuration, settings, key) == Some(JsonModel::Bool(b)),
        0 <= k <= 7,
        options_after(configuration, settings, k) is Ok,
        exists|i: int| 0 <= i < k && option_keys()[i] == key,
    ensures
        flag(options_after(configuration, settings, k)->Ok_0, key) == b,
    decreases k,
{
    let name = option_keys()[k - 1];
    let value = setting(configuration, settings, name);
    let previous = options_after(configuration, settings, k - 1);
    assert(options_after(configuration, settings, k) == then_apply(previous, name, value));
    assert(previous is Ok);
    if name == key {
        lemma_flag_set(previous->Ok_0, key, b);
    } else {
        let i = choose|i: int| 0 <= i < k && option_keys()[i] == key;
        assert(i < k - 1);
        lemma_flag_after(configuration, settings, key, b, k - 1);
        if let Some(v) = value {
            lemma_other_option_keeps_flag(previous->Ok_0, name, v, key);
        }
    }
}

proof fn lemma_same_table(
    c1: Seq<(Seq<char>, JsonModel)>,
    c2: Seq<(Seq<char>, JsonModel)>,
    settings: Option<JsonModel>,
    k: int,
)
    requires
        own_table(c1) == own_table(c2),
    ensures
        options_after(c1, settings, k) == options_after(c2, settings, k),
    decreases k,
{
    if k > 0 {
        lemma_same_table(c1, c2, settings, k - 1);
        assert(setting(c1, settings, option_keys()[k - 1]) == setting(
            c2,
            settings,
            option_keys()[k - 1],
        ));
    }
}

/// The options depend on the request's configuration only through its own
/// format table: `format` when that is an object, else `format_options` when
/// that is one. They are those of a configuration that holds nothing but that
/// table, under `format`; every other key is ignored.
pub proof fn only_the_own_table_counts(
    configuration: Seq<(Seq<char>, JsonModel)>,
    settings: Option<JsonModel>,
)
    ensures
        format_options_of(configuration, settings) == format_options_of(
            match own_table(configuration) {
                Some(entries) => seq![("format"@, JsonModel::Object(entries))],
                None => Seq::<(Seq<char>, JsonModel)>::empty(),
            },
            settings,
        ),
{
    let alone = match own_table(configuration) {
        Some(entries) => seq![("format"@, JsonModel::Object(entries))],
        None => Seq::<(Seq<char>, JsonModel)>::empty(),
    };
    reveal_with_fuel(lookup, 2);
    assert(own_table(alone) == own_table(configuration));
    lemma_same_table(configuration, alone, settings, 7);
}

} // verus!
