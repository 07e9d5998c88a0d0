//! Compiling a request: the compiler's output, the mappings that tie it back
//! to the source, and the messages for its diagnostics.
use crate::protocol::Mapping;
use crate::text::{count_byte, count_in, decimal, find_line_start, line_start, push_decimal};
use vstd::prelude::*;
use vstd::string::StringSliceAdditionalSpecFns;
use vstd::utf8::*;
use crate::json::{Json, JsonModel};
use crate::outside::{backend, config_backend, compile_strict, diagnostic_models, parse_config, toml_of, toml_text, CompilerDiagnostic, DiagnosticModel};
use crate::protocol::{Compilation, Request};

verus! {

/// Where the line that starts at `i` ends: just past its line feed, or at the
/// end of the text.
pub open spec fn line_end(b: Seq<u8>, i: int) -> int
    decreases b.len() - i,
{
    if i >= b.len() {
        b.len() as int
    } else if b[i] == 0x0A {
        i + 1
    } else {
        line_end(b, i + 1)
    }
}

/// A line ends past where it starts, within the text.
pub proof fn lemma_line_end(b: Seq<u8>, i: int)
    requires
        0 <= i < b.len(),
    ensures
        i < line_end(b, i) <= b.len(),
    decreases b.len() - i,
{
    if b[i] != 0x0A {
        if i + 1 < b.len() {
            lemma_line_end(b, i + 1);
        } else {
            assert(line_end(b, i + 1) == b.len());
        }
    }
}

/// The lines of `b` from `i` on, each with its line feed, as
/// `str::split_inclusive('\n')` yields them.
pub open spec fn lines_from(b: Seq<u8>, i: int) -> Seq<(int, int)>
    decreases b.len() - i,
{
    if i < 0 || i >= b.len() {
        seq![]
    } else {
        proof {
            lemma_line_end(b, i);
        }
        seq![(i, line_end(b, i))] + lines_from(b, line_end(b, i))
    }
}

pub open spec fn lines(b: Seq<u8>) -> Seq<(int, int)> {
    lines_from(b, 0)
}

/// Mappings for the line pairs whose generated text equals the original text.
pub open spec fn mapped(
    src: Seq<u8>,
    gen: Seq<u8>,
    original: Seq<(int, int)>,
    generated: Seq<(int, int)>,
) -> Seq<Mapping>
    decreases original.len(),
{
    if original.len() == 0 || generated.len() == 0 {
        seq![]
    } else {
        let rest = mapped(src, gen, original.drop_last(), generated.drop_last());
        let (os, oe) = original.last();
        let (gs, ge) = generated.last();
        if gen.subrange(gs, ge) == src.subrange(os, oe) {
            rest.push(
                Mapping {
                    start: gs as usize,
                    end: ge as usize,
                    original_start: os as usize,
                    original_end: oe as usize,
                },
            )
        } else {
            rest
        }
    }
}

/// What `mappings` returns: each generated line that is byte for byte its
/// original line is mapped to it; a compile that changed the number of lines
/// is refused.
pub open spec fn mappings_of(src: Seq<u8>, gen: Seq<u8>) -> Result<Seq<Mapping>, Seq<char>> {
    if lines(src).len() == lines(gen).len() {
        Ok(mapped(src, gen, lines(src), lines(gen)))
    } else {
        Err("LuauX changed the source line count"@)
    }
}

/// Where the line at `i` ends.
fn end_of_line(b: &[u8], i: usize) -> (r: usize)
    requires
        i < b@.len(),
    ensures
        r == line_end(b@, i as int),
        i < r <= b@.len(),
{
    let mut k = i;
    while k < b.len()
        invariant
            i <= k <= b@.len(),
            line_end(b@, i as int) == line_end(b@, k as int),
        decreases b@.len() - k,
    {
        if b[k] == 0x0A {
            return k + 1;
        }
        k = k + 1;
    }
    k
}

/// Whether `a[a_start..a_end]` and `b[b_start..b_end]` hold the same bytes.
fn same_bytes(a: &[u8], a_start: usize, a_end: usize, b: &[u8], b_start: usize, b_end: usize) -> (r:
    bool)
    requires
        a_start <= a_end <= a@.len(),
        b_start <= b_end <= b@.len(),
    ensures
        r == (a@.subrange(a_start as int, a_end as int) == b@.subrange(
            b_start as int,
            b_end as int,
        )),
{
    if a_end - a_start != b_end - b_start {
        assert(a@.subrange(a_start as int, a_end as int).len() != b@.subrange(
            b_start as int,
            b_end as int,
        ).len());
        return false;
    }
    let ghost x = a@.subrange(a_start as int, a_end as int);
    let ghost y = b@.subrange(b_start as int, b_end as int);
    let mut k: usize = 0;
    while k < a_end - a_start
        invariant
            a_start <= a_end <= a@.len(),
            b_start <= b_end <= b@.len(),
            a_end - a_start == b_end - b_start,
            x == a@.subrange(a_start as int, a_end as int),
            y == b@.subrange(b_start as int, b_end as int),
            k <= a_end - a_start,
            forall|j: int| 0 <= j < k ==> #[trigger] x[j] == y[j],
        decreases a_end - a_start - k,
    {
        if a[a_start + k] != b[b_start + k] {
            assert(a@.subrange(a_start as int, a_end as int)[k as int] != b@.subrange(
                b_start as int,
                b_end as int,
            )[k as int]);
            return false;
        }
        k = k + 1;
    }
    assert(a@.subrange(a_start as int, a_end as int) =~= b@.subrange(b_start as int, b_end as int));
    true
}

/// Maps each line of `generated` that is byte for byte its line of `source`
/// back to that line; fails when the compiler changed the number of lines.
pub fn mappings(source: &str, generated: &str) -> (r: Result<Vec<Mapping>, String>)
    ensures
        match r {
            Ok(v) => mappings_of(source.spec_bytes(), generated.spec_bytes()) == Ok::<
                Seq<Mapping>,
                Seq<char>,
            >(v@),
            Err(message) => mappings_of(source.spec_bytes(), generated.spec_bytes()) == Err::<
                Seq<Mapping>,
                Seq<char>,
            >(message@),
        },
{
    let sb = source.as_bytes();
    let gb = generated.as_bytes();
    let ghost src = sb@;
    let ghost gen = gb@;
    let mut original_start: usize = 0;
    let mut generated_start: usize = 0;
    let mut result: Vec<Mapping> = Vec::new();
    let ghost mut original_lines: Seq<(int, int)> = seq![];
    let ghost mut generated_lines: Seq<(int, int)> = seq![];
    assert(lines(src) =~= original_lines + lines_from(src, 0));
    assert(lines(gen) =~= generated_lines + lines_from(gen, 0));
    loop
        invariant
            src == sb@,
            gen == gb@,
            src == source.spec_bytes(),
            gen == generated.spec_bytes(),
            original_start <= sb@.len(),
            generated_start <= gb@.len(),
            lines(src) == original_lines + lines_from(src, original_start as int),
            lines(gen) == generated_lines + lines_from(gen, generated_start as int),
            original_lines.len() == generated_lines.len(),
            result@ == mapped(src, gen, original_lines, generated_lines),
        decreases sb@.len() - original_start,
    {
        let more_original = original_start < sb.len();
        let more_generated = generated_start < gb.len();
        if !more_original && !more_generated {
            assert(lines(src) =~= original_lines);
            assert(lines(gen) =~= generated_lines);
            return Ok(result);
        }
        if more_original != more_generated {
            return Err(String::from_str("LuauX changed the source line count"));
        }
        let original_end = end_of_line(sb, original_start);
        let generated_end = end_of_line(gb, generated_start);
        proof {
            let o = (original_start as int, original_end as int);
            let g = (generated_start as int, generated_end as int);
            assert(lines(src) =~= original_lines.push(o) + lines_from(src, original_end as int));
            assert(lines(gen) =~= generated_lines.push(g) + lines_from(gen, generated_end as int));
            assert(original_lines.push(o).drop_last() =~= original_lines);
            assert(generated_lines.push(g).drop_last() =~= generated_lines);
            original_lines = original_lines.push(o);
            generated_lines = generated_lines.push(g);
        }
        if same_bytes(gb, generated_start, generated_end, sb, original_start, original_end) {
            result.push(
                Mapping {
                    start: generated_start,
                    end: generated_end,
                    original_start: original_start,
                    original_end: original_end,
                },
            );
        }
        original_start = original_end;
        generated_start = generated_end;
    }
}

/// Ranges that are non-empty, lie within `0..n`, and follow one another.
pub open spec fn ordered_ranges(v: Seq<(int, int)>, n: int) -> bool {
    &&& forall|k: int| 0 <= k < v.len() ==> 0 <= #[trigger] v[k].0 < v[k].1 <= n
    &&& forall|k1: int, k2: int| 0 <= k1 < k2 < v.len() ==> #[trigger] v[k1].1 <= #[trigger] v[k2].0
}

proof fn lemma_lines_ordered(b: Seq<u8>, i: int)
    requires
        0 <= i,
    ensures
        ordered_ranges(lines_from(b, i), b.len() as int),
        forall|k: int| 0 <= k < lines_from(b, i).len() ==> i <= #[trigger] lines_from(b, i)[k].0,
    decreases b.len() - i,
{
    if i < b.len() {
        lemma_line_end(b, i);
        let e = line_end(b, i);
        lemma_lines_ordered(b, e);
        let all = lines_from(b, i);
        let rest = lines_from(b, e);
        assert(all == seq![(i, e)] + rest);
        assert forall|k: int| 0 <= k < all.len() implies 0 <= #[trigger] all[k].0 < all[k].1 <= b.len()
            && i <= all[k].0 by {
            if k > 0 {
                assert(all[k] == rest[k - 1]);
            }
        }
        assert forall|k1: int, k2: int| 0 <= k1 < k2 < all.len() implies #[trigger] all[k1].1
            <= #[trigger] all[k2].0 by {
            assert(all[k2] == rest[k2 - 1]);
            if k1 > 0 {
                assert(all[k1] == rest[k1 - 1]);
            }
        }
    }
}

/// A mapping whose runs are non-empty, lie in their texts, and hold the same
/// bytes.
pub open spec fn mapping_keeps_text(m: Mapping, src: Seq<u8>, gen: Seq<u8>) -> bool {
    &&& m.start < m.end <= gen.len()
    &&& m.original_start < m.original_end <= src.len()
    &&& gen.subrange(m.start as int, m.end as int) == src.subrange(
        m.original_start as int,
        m.original_end as int,
    )
}

proof fn lemma_mapped(src: Seq<u8>, gen: Seq<u8>, original: Seq<(int, int)>, generated: Seq<(int, int)>)
    requires
        src.len() <= usize::MAX,
        gen.len() <= usize::MAX,
        original.len() == generated.len(),
        ordered_ranges(original, src.len() as int),
        ordered_ranges(generated, gen.len() as int),
    ensures
        forall|a: int|
            0 <= a < mapped(src, gen, original, generated).len() ==> mapping_keeps_text(
                #[trigger] mapped(src, gen, original, generated)[a],
                src,
                gen,
            ),
        forall|a: int, c: int|
            0 <= a < c < mapped(src, gen, original, generated).len() ==> #[trigger] mapped(
                src,
                gen,
                original,
                generated,
            )[a].end <= #[trigger] mapped(src, gen, original, generated)[c].start && mapped(
                src,
                gen,
                original,
                generated,
            )[a].original_end <= mapped(src, gen, original, generated)[c].original_start,
        original.len() > 0 ==> forall|a: int|
            0 <= a < mapped(src, gen, original, generated).len() ==> #[trigger] mapped(
                src,
                gen,
                original,
                generated,
            )[a].end <= generated.last().1 && mapped(src, gen, original, generated)[a].original_end
                <= original.last().1,
    decreases original.len(),
{
    if original.len() > 0 {
        let o = original.drop_last();
        let g = generated.drop_last();
        assert(ordered_ranges(o, src.len() as int)) by {
            assert forall|k: int| 0 <= k < o.len() implies 0 <= #[trigger] o[k].0 < o[k].1
                <= src.len() by {
                assert(o[k] == original[k]);
            }
            assert forall|k1: int, k2: int| 0 <= k1 < k2 < o.len() implies #[trigger] o[k1].1
                <= #[trigger] o[k2].0 by {
                assert(o[k1] == original[k1] && o[k2] == original[k2]);
            }
        }
        assert(ordered_ranges(g, gen.len() as int)) by {
            assert forall|k: int| 0 <= k < g.len() implies 0 <= #[trigger] g[k].0 < g[k].1
                <= gen.len() by {
                assert(g[k] == generated[k]);
            }
            assert forall|k1: int, k2: int| 0 <= k1 < k2 < g.len() implies #[trigger] g[k1].1
                <= #[trigger] g[k2].0 by {
                assert(g[k1] == generated[k1] && g[k2] == generated[k2]);
            }
        }
        lemma_mapped(src, gen, o, g);
        let last = original.len() - 1;
        assert(original.last() == original[last] && generated.last() == generated[last]);
        let m = mapped(src, gen, original, generated);
        let rest = mapped(src, gen, o, g);
        let (os, oe) = original.last();
        let (gs, ge) = generated.last();
        if o.len() > 0 {
            assert(o.last() == original[last - 1] && g.last() == generated[last - 1]);
            assert(original[last - 1].1 <= original[last].0);
            assert(generated[last - 1].1 <= generated[last].0);
        }
        if gen.subrange(gs, ge) == src.subrange(os, oe) {
            let x = Mapping {
                start: gs as usize,
                end: ge as usize,
                original_start: os as usize,
                original_end: oe as usize,
            };
            assert(m == rest.push(x));
            assert(mapping_keeps_text(x, src, gen));
            assert forall|a: int| 0 <= a < m.len() implies mapping_keeps_text(#[trigger] m[a], src, gen) by {
                if a < rest.len() {
                    assert(m[a] == rest[a]);
                }
            }
            assert forall|a: int, c: int| 0 <= a < c < m.len() implies #[trigger] m[a].end
                <= #[trigger] m[c].start && m[a].original_end <= m[c].original_start by {
                assert(m[a] == rest[a]);
                if c < rest.len() {
                    assert(m[c] == rest[c]);
                }
            }
            assert forall|a: int| 0 <= a < m.len() implies #[trigger] m[a].end <= generated.last().1
                && m[a].original_end <= original.last().1 by {
                if a < rest.len() {
                    assert(m[a] == rest[a]);
                }
            }
        } else {
            assert(m == rest);
        }
    }
}

/// Every mapping ties a non-empty run of generated bytes to an equal run of the
/// source, and the mappings follow one another in both texts.
pub proof fn mappings_keep_text(src: Seq<u8>, gen: Seq<u8>)
    requires
        src.len() <= usize::MAX,
        gen.len() <= usize::MAX,
    ensures
        mappings_of(src, gen) matches Ok(ms) ==> {
            &&& forall|a: int| 0 <= a < ms.len() ==> mapping_keeps_text(#[trigger] ms[a], src, gen)
            &&& forall|a: int, c: int|
                0 <= a < c < ms.len() ==> #[trigger] ms[a].end <= #[trigger] ms[c].start
                    && ms[a].original_end <= ms[c].original_start
        },
{
    lemma_lines_ordered(src, 0);
    lemma_lines_ordered(gen, 0);
    if lines(src).len() == lines(gen).len() {
        lemma_mapped(src, gen, lines(src), lines(gen));
    }
}

/// The part of the source before `offset`: empty when `offset` is past the end
/// or inside a character.
pub open spec fn prefix_len(src: Seq<u8>, offset: int) -> int {
    if offset <= src.len() && is_char_boundary(src, offset) {
        offset
    } else {
        0
    }
}

/// `(line,column): message`, with `; help` when there is help; the line and
/// the column (in bytes) count from 1.
pub open spec fn diagnostic_text(
    src: Seq<u8>,
    offset: int,
    message: Seq<char>,
    help: Option<Seq<char>>,
) -> Seq<char> {
    let p = prefix_len(src, offset);
    let line = count_byte(src.take(p), 0x0A) + 1;
    let column = p - line_start(src, p) + 1;
    let head = "("@ + decimal(line as nat) + ","@ + decimal(column as nat) + "): "@ + message;
    match help {
        Some(help) => head + "; "@ + help,
        None => head,
    }
}

/// The message for a compiler diagnostic at byte `offset` of `source`.
pub fn diagnostic(source: &str, offset: usize, message: &str, help: Option<&str>) -> (r: String)
    requires
        source.spec_bytes().len() < usize::MAX,
    ensures
        r@ == diagnostic_text(
            source.spec_bytes(),
            offset as int,
            message@,
            match help {
                Some(h) => Some(h@),
                None => None,
            },
        ),
{
    let bytes = source.as_bytes();
    let p = if offset <= bytes.len() && source.is_char_boundary(offset) {
        offset
    } else {
        0
    };
    assert(bytes@.subrange(0, p as int) =~= bytes@.take(p as int));
    let line = count_in(bytes, 0, p, 0x0A) + 1;
    let column = p - find_line_start(bytes, p) + 1;
    let mut r = String::from_str("(");
    push_decimal(&mut r, line);
    r.append(",");
    push_decimal(&mut r, column);
    r.append("): ");
    r.append(message);
    match help {
        Some(help) => {
            r.append("; ");
            r.append(help);
        },
        None => {},
    }
    r
}

/// A line that reports a warning.
pub open spec fn warning_line(text: Seq<char>) -> Seq<char> {
    "warning: "@ + text
}

pub open spec fn warning_lines(notes: Seq<String>) -> Seq<Seq<char>> {
    notes.map_values(|note: String| warning_line(note@))
}

pub open spec fn texts(lines: Seq<String>) -> Seq<Seq<char>> {
    lines.map_values(|line: String| line@)
}

/// A line of the log that reports a warning.
pub open spec fn is_warning_line(line: Seq<char>) -> bool {
    exists|note: Seq<char>| line == #[trigger] warning_line(note)
}

/// The log after is the log before with warning lines added.
pub open spec fn only_warnings_added(before: Seq<String>, after: Seq<String>) -> bool {
    &&& texts(before).len() <= texts(after).len()
    &&& texts(after).subrange(0, texts(before).len() as int) == texts(before)
    &&& forall|i: int|
        texts(before).len() <= i < texts(after).len() ==> is_warning_line(#[trigger] texts(after)[i])
}

proof fn lemma_warnings_added(before: Seq<String>, after: Seq<String>, lines: Seq<Seq<char>>)
    requires
        texts(after) == texts(before) + lines,
        forall|k: int| 0 <= k < lines.len() ==> is_warning_line(#[trigger] lines[k]),
    ensures
        only_warnings_added(before, after),
{
    assert(texts(after).subrange(0, texts(before).len() as int) =~= texts(before));
    assert forall|i: int| texts(before).len() <= i < texts(after).len() implies is_warning_line(
        #[trigger] texts(after)[i],
    ) by {
        assert(texts(after)[i] == lines[i - texts(before).len()]);
    }
}

proof fn lemma_warnings_added_twice(a: Seq<String>, b: Seq<String>, c: Seq<String>)
    requires
        only_warnings_added(a, b),
        only_warnings_added(b, c),
    ensures
        only_warnings_added(a, c),
{
    assert(texts(c).subrange(0, texts(a).len() as int) =~= texts(b).subrange(0, texts(a).len() as int));
    assert forall|i: int| texts(a).len() <= i < texts(c).len() implies is_warning_line(
        #[trigger] texts(c)[i],
    ) by {
        if i < texts(b).len() {
            assert(texts(c)[i] == texts(b)[i]);
        }
    }
}

pub(crate) proof fn lemma_nothing_added(log: Seq<String>)
    ensures
        only_warnings_added(log, log),
{
    assert(texts(log).subrange(0, texts(log).len() as int) =~= texts(log));
}

/// Appends `warning: text` to the log.
fn log_warning(log: &mut Vec<String>, text: &str)
    ensures
        texts(final(log)@) == texts(old(log)@).push(warning_line(text@)),
{
    let mut line = String::from_str("warning: ");
    line.append(text);
    let ghost before = log@;
    log.push(line);
    assert(texts(log@) =~= texts(before).push(warning_line(text@)));
}

/// What a reading of the configuration is answered, and what it logs: the
/// configuration with its notes logged as warnings, or the reading's message.
pub open spec fn config_answer(
    outcome: Result<(luaux::Config, Vec<String>), String>,
    r: Result<luaux::Config, String>,
    before: Seq<String>,
    after: Seq<String>,
) -> bool {
    match outcome {
        Ok((config, notes)) => r == Ok::<luaux::Config, String>(config) && texts(after) == texts(
            before,
        ) + warning_lines(notes@),
        Err(message) => r == Err::<luaux::Config, String>(message) && after == before,
    }
}

/// What `configuration` answers for a table: the serializer's message, or the
/// answer to a reading of the table's TOML text by `Config::parse_reporting`.
pub open(crate) spec fn configuration_reply(
    values: Seq<(Seq<char>, JsonModel)>,
    r: Result<luaux::Config, String>,
    before: Seq<String>,
    after: Seq<String>,
) -> bool {
    match toml_of(values) {
        Err(message) => r matches Err(e) && e@ == message && after == before,
        Ok(text) => exists|s: &str, o: Result<(luaux::Config, Vec<String>), String>|
            s@ == text && #[trigger] call_ensures(parse_config, (s,), o) && config_answer(
                o,
                r,
                before,
                after,
            ),
    }
}

/// The configuration that `Config::parse_reporting` gave, with its notes
/// logged as warnings.
pub fn configured(outcome: Result<(luaux::Config, Vec<String>), String>, log: &mut Vec<String>) -> (r:
    Result<luaux::Config, String>)
    ensures
        config_answer(outcome, r, old(log)@, final(log)@),
{
    match outcome {
        Ok((config, notes)) => {
            let ghost before = texts(log@);
            let mut i: usize = 0;
            while i < notes.len()
                invariant
                    i <= notes@.len(),
                    texts(log@) == before + warning_lines(notes@.take(i as int)),
                decreases notes@.len() - i,
            {
                log_warning(log, notes[i].as_str());
                assert(warning_lines(notes@.take(i + 1)) =~= warning_lines(notes@.take(i as int)).push(
                    warning_line(notes@[i as int]@),
                ));
                i = i + 1;
            }
            assert(notes@.take(i as int) =~= notes@);
            Ok(config)
        },
        Err(message) => Err(message),
    }
}

/// The project configuration that the request's table stands for: the table
/// as TOML, read by the LuauX compiler. Its notes are logged as warnings.
pub fn configuration(values: &Vec<(String, Json)>, log: &mut Vec<String>) -> (r: Result<
    luaux::Config,
    String,
>)
    ensures
        configuration_reply(Json::entry_models(values@), r, old(log)@, final(log)@),
        only_warnings_added(old(log)@, final(log)@),
{
    let ghost before = log@;
    proof {
        lemma_nothing_added(before);
    }
    match toml_text(values) {
        Ok(text) => {
            let s = text.as_str();
            let outcome = parse_config(s);
            let ghost o = outcome;
            let ghost notes = match &outcome {
                Ok((_, notes)) => notes@,
                Err(_) => Seq::<String>::empty(),
            };
            let r = configured(outcome, log);
            proof {
                assert forall|k: int| 0 <= k < warning_lines(notes).len() implies is_warning_line(
                    #[trigger] warning_lines(notes)[k],
                ) by {
                    assert(warning_lines(notes)[k] == warning_line(notes[k]@));
                }
                if log@ == before {
                } else {
                    lemma_warnings_added(before, log@, warning_lines(notes));
                }
                assert(config_answer(o, r, before, log@));
                assert(call_ensures(parse_config, (s,), o));
            }
            r
        },
        Err(message) => Err(message),
    }
}

/// `warning: (line,column): message[; help]`.
fn log_diagnostic(log: &mut Vec<String>, source: &str, d: &CompilerDiagnostic)
    requires
        source.spec_bytes().len() < usize::MAX,
    ensures
        texts(final(log)@) == texts(old(log)@).push(
            warning_line(diagnostic_line(source.spec_bytes(), d.model())),
        ),
{
    let text = describe(source, d);
    log_warning(log, text.as_str());
}

/// The message for a compiler diagnostic.
pub open spec fn diagnostic_line(src: Seq<u8>, d: DiagnosticModel) -> Seq<char> {
    diagnostic_text(src, d.offset as int, d.message, d.help)
}

fn describe(source: &str, d: &CompilerDiagnostic) -> (r: String)
    requires
        source.spec_bytes().len() < usize::MAX,
    ensures
        r@ == diagnostic_line(source.spec_bytes(), d.model()),
{
    match &d.help {
        Some(help) => diagnostic(source, d.offset, d.message.as_str(), Some(help.as_str())),
        None => diagnostic(source, d.offset, d.message.as_str(), None),
    }
}

/// What a compile request is answered: the compiled source and its mappings,
/// each warning logged; or the message of the error.
pub open spec fn compiled_ok(
    src: Seq<u8>,
    output: Seq<char>,
    r: Result<Compilation, String>,
) -> bool {
    match mappings_of(src, encode_utf8(output)) {
        Ok(ms) => r matches Ok(c) && c.version == 1 && c.source@ == output && c.dependencies@.len()
            == 0 && c.mappings@ == ms,
        Err(message) => r matches Err(e) && e@ == message,
    }
}

/// What a compile is answered, and what it logs, for what the compiler
/// returned: the error's message; or the compiled source and its mappings,
/// each warning logged.
pub open spec fn compile_answer(
    src: Seq<u8>,
    outcome: Result<(String, Vec<CompilerDiagnostic>), CompilerDiagnostic>,
    r: Result<Compilation, String>,
    before: Seq<String>,
    after: Seq<String>,
) -> bool {
    match outcome {
        Err(error) => r matches Err(e) && e@ == diagnostic_line(src, error.model()) && after
            == before,
        Ok((output, warnings)) => compiled_ok(src, output@, r) && texts(after) == texts(before)
            + diagnostic_models(warnings@).map_values(
            |d: DiagnosticModel| warning_line(diagnostic_line(src, d)),
        ),
    }
}

/// Answers a compile request from what the compiler returned for its source.
pub fn compiled(
    source: &str,
    outcome: Result<(String, Vec<CompilerDiagnostic>), CompilerDiagnostic>,
    log: &mut Vec<String>,
) -> (r: Result<Compilation, String>)
    requires
        source.spec_bytes().len() < usize::MAX,
    ensures
        compile_answer(source.spec_bytes(), outcome, r, old(log)@, final(log)@),
{
    match outcome {
        Err(error) => Err(describe(source, &error)),
        Ok((output, warnings)) => {
            let ghost before = texts(log@);
            let ghost lines = diagnostic_models(warnings@).map_values(
                |d: DiagnosticModel| warning_line(diagnostic_line(source.spec_bytes(), d)),
            );
            let mut i: usize = 0;
            while i < warnings.len()
                invariant
                    i <= warnings@.len(),
                    source.spec_bytes().len() < usize::MAX,
                    lines == diagnostic_models(warnings@).map_values(
                        |d: DiagnosticModel| warning_line(diagnostic_line(source.spec_bytes(), d)),
                    ),
                    texts(log@) == before + lines.take(i as int),
                decreases warnings@.len() - i,
            {
                log_diagnostic(log, source, &warnings[i]);
                assert(lines.take(i + 1) =~= lines.take(i as int).push(lines[i as int]));
                i = i + 1;
            }
            assert(lines.take(i as int) =~= lines);
            match mappings(source, output.as_str()) {
                Ok(mappings) => Ok(
                    Compilation {
                        version: 1,
                        source: output,
                        dependencies: Vec::new(),
                        mappings: mappings,
                    },
                ),
                Err(message) => Err(message),
            }
        },
    }
}

/// Whether a request is a protocol 1 compile request without formatter
/// settings.
pub open spec fn compile_request_ok(request: Request) -> bool {
    request.version == 1 && request.hook@ == "compile"@ && request.settings is None
}

/// What a compile request is answered, and what it logs. A request that is not
/// a protocol 1 compile request without formatter settings is refused.
/// Otherwise the request's table is turned into TOML and read as the project's
/// configuration (see `configuration_reply`); the source, that configuration
/// and its backend are handed to the compiler, and the answer is
/// `compile_answer`'s to what the compiler returned.
pub open(crate) spec fn compile_reply(
    request: Request,
    r: Result<Compilation, String>,
    before: Seq<String>,
    after: Seq<String>,
) -> bool {
    if !compile_request_ok(request) {
        r matches Err(e) && e@ == "expected a protocol 1 compile request without formatter settings"@
            && after == before
    } else {
        match toml_of(Json::entry_models(request.configuration@)) {
            Err(message) => r matches Err(e) && e@ == message && after == before,
            Ok(text) => exists|s: &str, o: Result<(luaux::Config, Vec<String>), String>|
                s@ == text && #[trigger] call_ensures(parse_config, (s,), o) && match o {
                    Err(message) => r == Err::<Compilation, String>(message) && after == before,
                    Ok((config, notes)) => exists|
                        middle: Seq<String>,
                        source: &str,
                        c: Result<(String, Vec<CompilerDiagnostic>), CompilerDiagnostic>,
                    |
                        texts(middle) == texts(before) + warning_lines(notes@) && source@
                            == request.source@ && #[trigger] call_ensures(
                            compile_strict,
                            (source, config_backend(config), config),
                            c,
                        ) && #[trigger] compile_answer(encode_utf8(request.source@), c, r, middle, after),
                },
        }
    }
}

/// Compiles the request's source with the project's configuration. Warnings,
/// of the configuration and of the compiler, are logged.
pub fn compile_request(request: &Request, log: &mut Vec<String>) -> (r: Result<Compilation, String>)
    requires
        encode_utf8(request.source@).len() < usize::MAX,
    ensures
        compile_reply(*request, r, old(log)@, final(log)@),
        r matches Ok(c) ==> c.version == 1 && c.dependencies@.len() == 0 && mappings_of(
            encode_utf8(request.source@),
            encode_utf8(c.source@),
        ) == Ok::<Seq<Mapping>, Seq<char>>(c.mappings@),
        only_warnings_added(old(log)@, final(log)@),
{
    let ghost start = log@;
    proof {
        lemma_nothing_added(start);
    }
    if !(request.version == 1 && crate::json::same_text(request.hook.as_str(), "compile")
        && request.settings.is_none()) {
        return Err(String::from_str("expected a protocol 1 compile request without formatter settings"));
    }
    let config = match configuration(&request.configuration, log) {
        Ok(config) => config,
        Err(message) => {
            return Err(message);
        },
    };
    let ghost cfg = config;
    let choice = backend(&config);
    let source = request.source.as_str();
    let outcome = compile_strict(source, choice, config);
    let ghost c = outcome;
    let ghost middle = log@;
    let ghost src = encode_utf8(request.source@);
    let ghost ok = outcome is Ok;
    let ghost models = match &outcome {
        Ok((_, warnings)) => diagnostic_models(warnings@),
        Err(_) => Seq::<DiagnosticModel>::empty(),
    };
    let ghost lines = models.map_values(|d: DiagnosticModel| warning_line(diagnostic_line(src, d)));
    let r = compiled(source, outcome, log);
    proof {
        assert(call_ensures(compile_strict, (source, config_backend(cfg), cfg), c));
        let text = toml_of(Json::entry_models(request.configuration@))->Ok_0;
        let (s0, o0) = choose|s: &str, o: Result<(luaux::Config, Vec<String>), String>|
            s@ == text && #[trigger] call_ensures(parse_config, (s,), o) && config_answer(
                o,
                Ok::<luaux::Config, String>(cfg),
                start,
                middle,
            );
        assert(call_ensures(parse_config, (s0,), o0));
        assert(compile_answer(encode_utf8(request.source@), c, r, middle, log@));
        if ok {
            assert(texts(log@) =~= texts(middle) + lines);
            assert forall|k: int| 0 <= k < lines.len() implies is_warning_line(#[trigger] lines[k]) by {
                assert(lines[k] == warning_line(diagnostic_line(src, models[k])));
            }
            lemma_warnings_added(middle, log@, lines);
        } else {
            lemma_nothing_added(middle);
        }
        lemma_warnings_added_twice(start, middle, log@);
    }
    r
}


/// The identity mapping of each line.
pub open spec fn line_identity(line: (int, int)) -> Mapping {
    Mapping {
        start: line.0 as usize,
        end: line.1 as usize,
        original_start: line.0 as usize,
        original_end: line.1 as usize,
    }
}

proof fn lemma_mapped_identity(src: Seq<u8>, lines: Seq<(int, int)>)
    ensures
        mapped(src, src, lines, lines) == lines.map_values(|line: (int, int)| line_identity(line)),
    decreases lines.len(),
{
    if lines.len() > 0 {
        lemma_mapped_identity(src, lines.drop_last());
        assert(lines.map_values(|line: (int, int)| line_identity(line)) =~= lines.drop_last().map_values(
            |line: (int, int)| line_identity(line),
        ).push(line_identity(lines.last())));
    } else {
        assert(lines.map_values(|line: (int, int)| line_identity(line)) =~= Seq::<Mapping>::empty());
    }
}


/// The lines from `i` on follow one another from `i` to the end of the text.
pub open spec fn lines_cover(lines: Seq<(int, int)>, i: int, n: int) -> bool {
    &&& lines.len() == 0 <==> i >= n
    &&& lines.len() > 0 ==> lines[0].0 == i && lines.last().1 == n
    &&& forall|k: int| 0 <= k < lines.len() - 1 ==> #[trigger] lines[k].1 == lines[k + 1].0
}

proof fn lemma_lines_cover(b: Seq<u8>, i: int)
    requires
        0 <= i <= b.len(),
    ensures
        lines_cover(lines_from(b, i), i, b.len() as int),
    decreases b.len() - i,
{
    if i < b.len() {
        lemma_line_end(b, i);
        let e = line_end(b, i);
        lemma_lines_cover(b, e);
        let rest = lines_from(b, e);
        let all = lines_from(b, i);
        assert(all == seq![(i, e)] + rest);
        assert forall|k: int| 0 <= k < all.len() - 1 implies #[trigger] all[k].1 == all[k + 1].0 by {
            assert(all[k + 1] == rest[k]);
            if k > 0 {
                assert(all[k] == rest[k - 1]);
            }
        }
        if rest.len() > 0 {
            assert(all.last() == rest.last());
        }
    }
}

/// When the compiler gives the source back unchanged, every line of it is
/// mapped to itself, and the lines follow one another from the start of the
/// text to its end.
pub proof fn unchanged_output_maps_every_line(src: Seq<u8>)
    ensures
        mappings_of(src, src) == Ok::<Seq<Mapping>, Seq<char>>(
            lines(src).map_values(|line: (int, int)| line_identity(line)),
        ),
        lines_cover(lines(src), 0, src.len() as int),
{
    lemma_mapped_identity(src, lines(src));
    lemma_lines_cover(src, 0);
}

/// A compile that the compiler refuses is answered with the error's place and
/// message, `(line,column): message`, with `; help` when it has help, and
/// logs nothing.
pub proof fn refused_compiles_report_their_place(
    src: Seq<u8>,
    error: CompilerDiagnostic,
    r: Result<Compilation, String>,
    before: Seq<String>,
    after: Seq<String>,
)
    requires
        compile_answer(src, Err(error), r, before, after),
    ensures
        r matches Err(e) && e@ == diagnostic_text(
            src,
            error.offset as int,
            error.message@,
            match error.help {
                Some(h) => Some(h@),
                None => None,
            },
        ),
        after == before,
{
}

} // verus!
