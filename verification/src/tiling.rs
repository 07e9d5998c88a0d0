//! How a formatted document covers its source: part by part, in order, from
//! the first byte to the last.
use crate::formatter::{at, cat, file_doc, format_result, markup_docs, markup_run, overlaps_markup, segment_doc, statement_run};
use crate::markup::SourceSpan;
use crate::protocol::{Doc, ParseMode};
use crate::settings::FormatOptions;
use crate::source::{parse_file, parsed_segments_are_disjoint, FileModel, Segment};
use vstd::prelude::*;
use vstd::utf8::encode_utf8;

verus! {

/// Ranges that follow one another from `a` to `b`: the first starts at `a`,
/// each starts where the one before ends, the last ends at `b`, and none runs
/// backwards. No ranges cover `a..a`.
pub open spec fn tiles(spans: Seq<(int, int)>, a: int, b: int) -> bool
    decreases spans.len(),
{
    if spans.len() == 0 {
        a == b
    } else {
        spans[0].0 == a && spans[0].0 <= spans[0].1 && tiles(spans.drop_first(), spans[0].1, b)
    }
}

proof fn lemma_tiles_concat(x: Seq<(int, int)>, y: Seq<(int, int)>, a: int, m: int, b: int)
    requires
        tiles(x, a, m),
        tiles(y, m, b),
    ensures
        tiles(x + y, a, b),
    decreases x.len(),
{
    if x.len() == 0 {
        assert(x + y =~= y);
    } else {
        lemma_tiles_concat(x.drop_first(), y, x[0].1, m, b);
        assert((x + y).drop_first() =~= x.drop_first() + y);
    }
}

proof fn lemma_tiles_one(a: int, b: int)
    requires
        a <= b,
    ensures
        tiles(seq![(a, b)], a, b),
{
    assert(seq![(a, b)].drop_first() =~= Seq::<(int, int)>::empty());
    assert(tiles(Seq::<(int, int)>::empty(), b, b));
}

/// Whether the segments come in order, each ending no later than the next
/// begins, and none runs backwards.
pub open spec fn ordered_segments(segments: Seq<Segment>) -> bool {
    &&& forall|i: int, j: int|
        0 <= i < j < segments.len() ==> #[trigger] segments[i].end <= #[trigger] segments[j].start
    &&& forall|i: int| 0 <= i < segments.len() ==> #[trigger] segments[i].start <= segments[i].end
}

/// Whether `part` lays out the range `span`: as source kept as written, the
/// range not empty; or as one of the markup regions, laid out.
pub open spec fn markup_part(
    t: Seq<char>,
    o: FormatOptions,
    segments: Seq<Segment>,
    part: Doc,
    span: (int, int),
) -> bool {
    ||| part == at(span.0, span.1) && span.0 < span.1
    ||| exists|j: int|
        0 <= j < segments.len() && #[trigger] segments[j].start == span.0 && segments[j].end
            == span.1 && part == segment_doc(t, o, segments[j])
}

/// Whether `part` lays out the range `span`: as a markup part, or as one of the
/// statements handed to the host.
pub open spec fn file_part(
    t: Seq<char>,
    o: FormatOptions,
    file: FileModel,
    statements: Seq<SourceSpan>,
    part: Doc,
    span: (int, int),
) -> bool {
    ||| markup_part(t, o, file.segments, part, span)
    ||| exists|j: int|
        0 <= j < statements.len() && #[trigger] statements[j].start == span.0
            && statements[j].end == span.1 && part == Doc::Host {
            start: span.0 as nat,
            end: span.1 as nat,
            parse: ParseMode::Block,
        }
}

/// The ranges that `markup_run` lays out, one for each part it produces.
pub open spec fn markup_run_spans(segments: Seq<Segment>, start: int, end: int) -> (int, Seq<(int, int)>)
    decreases segments.len(),
{
    if segments.len() == 0 {
        (start, seq![])
    } else {
        let (cursor, spans) = markup_run_spans(segments.drop_last(), start, end);
        let segment = segments.last();
        if segment.start < start || segment.end > end {
            (cursor, spans)
        } else {
            let gap = if cursor < segment.start {
                seq![(cursor, segment.start as int)]
            } else {
                seq![]
            };
            (segment.end as int, spans + gap + seq![(segment.start as int, segment.end as int)])
        }
    }
}

/// The ranges that `markup_docs` lays out, one for each part it produces.
pub open spec fn markup_spans(segments: Seq<Segment>, start: int, end: int) -> Seq<(int, int)> {
    let (cursor, spans) = markup_run_spans(segments, start, end);
    spans + if cursor < end {
        seq![(cursor, end)]
    } else {
        seq![]
    }
}

/// The ranges that `statement_run` lays out, one for each part it produces, in
/// a source of `n` bytes.
pub open spec fn statement_run_spans(n: int, file: FileModel, statements: Seq<SourceSpan>) -> (
    int,
    Seq<(int, int)>,
)
    decreases statements.len(),
{
    if statements.len() == 0 {
        (0, seq![])
    } else {
        let (cursor, spans) = statement_run_spans(n, file, statements.drop_last());
        let s = statements.last();
        if overlaps_markup(file.segments, s) || s.start < cursor || s.end < s.start || s.end > n {
            (cursor, spans)
        } else {
            (
                s.end as int,
                spans + markup_spans(file.segments, cursor, s.start as int) + seq![
                    (s.start as int, s.end as int),
                ],
            )
        }
    }
}

/// The parts of a parsed source's document, in order.
pub open spec fn file_parts(t: Seq<char>, o: FormatOptions, file: FileModel) -> Seq<Doc> {
    let (cursor, parts) = statement_run(t, o, file, file.statements);
    parts + markup_docs(t, o, file.segments, cursor, encode_utf8(t).len() as int)
}

/// The ranges of source that those parts lay out, one for each.
pub open spec fn file_spans(t: Seq<char>, file: FileModel) -> Seq<(int, int)> {
    let n = encode_utf8(t).len() as int;
    let (cursor, spans) = statement_run_spans(n, file, file.statements);
    spans + markup_spans(file.segments, cursor, n)
}

proof fn lemma_markup_run(t: Seq<char>, o: FormatOptions, segments: Seq<Segment>, start: int, end: int)
    requires
        start <= end,
        ordered_segments(segments),
    ensures
        markup_run(t, o, segments, start, end).0 == markup_run_spans(segments, start, end).0,
        start <= markup_run_spans(segments, start, end).0 <= end,
        markup_run(t, o, segments, start, end).1.len() == markup_run_spans(segments, start, end).1.len(),
        forall|k: int|
            0 <= k < markup_run_spans(segments, start, end).1.len() ==> markup_part(
                t,
                o,
                segments,
                #[trigger] markup_run(t, o, segments, start, end).1[k],
                markup_run_spans(segments, start, end).1[k],
            ),
        tiles(markup_run_spans(segments, start, end).1, start, markup_run_spans(segments, start, end).0),
        markup_run_spans(segments, start, end).0 == start || exists|j: int|
            0 <= j < segments.len() && markup_run_spans(segments, start, end).0
                == #[trigger] segments[j].end,
    decreases segments.len(),
{
    if segments.len() == 0 {
    } else {
        let m = segments.len() - 1;
        let rest = segments.drop_last();
        assert(ordered_segments(rest)) by {
            assert forall|i: int, j: int| 0 <= i < j < rest.len() implies #[trigger] rest[i].end
                <= #[trigger] rest[j].start by {
                assert(rest[i] == segments[i] && rest[j] == segments[j]);
            }
            assert forall|i: int| 0 <= i < rest.len() implies #[trigger] rest[i].start
                <= rest[i].end by {
                assert(rest[i] == segments[i]);
            }
        }
        lemma_markup_run(t, o, rest, start, end);
        let (cursor, parts) = markup_run(t, o, rest, start, end);
        let spans = markup_run_spans(rest, start, end).1;
        let segment = segments.last();
        assert(segment == segments[m]);
        assert forall|k: int| 0 <= k < spans.len() implies markup_part(
            t,
            o,
            segments,
            #[trigger] parts[k],
            spans[k],
        ) by {
            if !(parts[k] == at(spans[k].0, spans[k].1) && spans[k].0 < spans[k].1) {
                let j = choose|j: int|
                    0 <= j < rest.len() && #[trigger] rest[j].start == spans[k].0 && rest[j].end
                        == spans[k].1 && parts[k] == segment_doc(t, o, rest[j]);
                assert(rest[j] == segments[j]);
            }
        }
        if !(segment.start < start || segment.end > end) {
            assert(cursor <= segment.start) by {
                if cursor != start {
                    let j = choose|j: int| 0 <= j < rest.len() && cursor == #[trigger] rest[j].end;
                    assert(rest[j] == segments[j]);
                    assert(segments[j].end <= segments[m].start);
                }
            }
            let gap = if cursor < segment.start {
                seq![(cursor, segment.start as int)]
            } else {
                seq![]
            };
            let gap_parts = if cursor < segment.start {
                seq![at(cursor, segment.start as int)]
            } else {
                seq![]
            };
            let last = seq![(segment.start as int, segment.end as int)];
            if cursor < segment.start {
                lemma_tiles_one(cursor, segment.start as int);
            }
            lemma_tiles_concat(spans, gap, start, cursor, segment.start as int);
            lemma_tiles_one(segment.start as int, segment.end as int);
            lemma_tiles_concat(spans + gap, last, start, segment.start as int, segment.end as int);
            let all = spans + gap + last;
            let all_parts = parts + gap_parts + seq![segment_doc(t, o, segment)];
            assert(markup_run(t, o, segments, start, end).1 == all_parts);
            assert(markup_run_spans(segments, start, end).1 == all);
            assert forall|k: int| 0 <= k < all.len() implies markup_part(
                t,
                o,
                segments,
                #[trigger] all_parts[k],
                all[k],
            ) by {
                if k < spans.len() {
                    assert(all_parts[k] == parts[k] && all[k] == spans[k]);
                } else if k < spans.len() + gap.len() {
                    assert(all_parts[k] == at(cursor, segment.start as int));
                    assert(all[k] == (cursor, segment.start as int));
                } else {
                    assert(all_parts[k] == segment_doc(t, o, segments[m]));
                    assert(all[k] == (segments[m].start as int, segments[m].end as int));
                }
            }
        }
    }
}

proof fn lemma_markup_docs(t: Seq<char>, o: FormatOptions, segments: Seq<Segment>, start: int, end: int)
    requires
        start <= end,
        ordered_segments(segments),
    ensures
        markup_docs(t, o, segments, start, end).len() == markup_spans(segments, start, end).len(),
        forall|k: int|
            0 <= k < markup_spans(segments, start, end).len() ==> markup_part(
                t,
                o,
                segments,
                #[trigger] markup_docs(t, o, segments, start, end)[k],
                markup_spans(segments, start, end)[k],
            ),
        tiles(markup_spans(segments, start, end), start, end),
{
    lemma_markup_run(t, o, segments, start, end);
    let (cursor, parts) = markup_run(t, o, segments, start, end);
    let spans = markup_run_spans(segments, start, end).1;
    let tail = if cursor < end {
        seq![(cursor, end)]
    } else {
        seq![]
    };
    if cursor < end {
        lemma_tiles_one(cursor, end);
    }
    lemma_tiles_concat(spans, tail, start, cursor, end);
    let docs = markup_docs(t, o, segments, start, end);
    let all = markup_spans(segments, start, end);
    assert forall|k: int| 0 <= k < all.len() implies markup_part(t, o, segments, #[trigger] docs[k], all[k]) by {
        if k < spans.len() {
            assert(docs[k] == parts[k] && all[k] == spans[k]);
        } else {
            assert(docs[k] == at(cursor, end) && all[k] == (cursor, end));
        }
    }
}

proof fn lemma_statement_run(
    t: Seq<char>,
    o: FormatOptions,
    file: FileModel,
    statements: Seq<SourceSpan>,
)
    requires
        ordered_segments(file.segments),
    ensures
        statement_run(t, o, file, statements).0 == statement_run_spans(
            encode_utf8(t).len() as int,
            file,
            statements,
        ).0,
        0 <= statement_run(t, o, file, statements).0 <= encode_utf8(t).len(),
        statement_run(t, o, file, statements).1.len() == statement_run_spans(
            encode_utf8(t).len() as int,
            file,
            statements,
        ).1.len(),
        forall|k: int|
            0 <= k < statement_run(t, o, file, statements).1.len() ==> file_part(
                t,
                o,
                file,
                statements,
                #[trigger] statement_run(t, o, file, statements).1[k],
                statement_run_spans(encode_utf8(t).len() as int, file, statements).1[k],
            ),
        tiles(
            statement_run_spans(encode_utf8(t).len() as int, file, statements).1,
            0,
            statement_run(t, o, file, statements).0,
        ),
    decreases statements.len(),
{
    let n = encode_utf8(t).len() as int;
    if statements.len() > 0 {
        let m = statements.len() - 1;
        let rest = statements.drop_last();
        lemma_statement_run(t, o, file, rest);
        let (cursor, parts) = statement_run(t, o, file, rest);
        let spans = statement_run_spans(n, file, rest).1;
        let s = statements.last();
        assert(s == statements[m]);
        assert forall|k: int| 0 <= k < parts.len() implies file_part(
            t,
            o,
            file,
            statements,
            #[trigger] parts[k],
            spans[k],
        ) by {
            if !markup_part(t, o, file.segments, parts[k], spans[k]) {
                let j = choose|j: int|
                    0 <= j < rest.len() && #[trigger] rest[j].start == spans[k].0 && rest[j].end
                        == spans[k].1 && parts[k] == Doc::Host {
                        start: spans[k].0 as nat,
                        end: spans[k].1 as nat,
                        parse: ParseMode::Block,
                    };
                assert(rest[j] == statements[j]);
            }
        }
        if !(overlaps_markup(file.segments, s) || s.start < cursor || s.end < s.start || s.end > n) {
            lemma_markup_docs(t, o, file.segments, cursor, s.start as int);
            let middle = markup_spans(file.segments, cursor, s.start as int);
            let middle_parts = markup_docs(t, o, file.segments, cursor, s.start as int);
            let host = seq![(s.start as int, s.end as int)];
            let host_part = Doc::Host { start: s.start as nat, end: s.end as nat, parse: ParseMode::Block };
            lemma_tiles_concat(spans, middle, 0, cursor, s.start as int);
            lemma_tiles_one(s.start as int, s.end as int);
            lemma_tiles_concat(spans + middle, host, 0, s.start as int, s.end as int);
            let all = spans + middle + host;
            let all_parts = parts + middle_parts + seq![host_part];
            assert(statement_run(t, o, file, statements).1 == all_parts);
            assert(statement_run_spans(n, file, statements).1 == all);
            assert forall|k: int| 0 <= k < all_parts.len() implies file_part(
                t,
                o,
                file,
                statements,
                #[trigger] all_parts[k],
                all[k],
            ) by {
                if k < spans.len() {
                    assert(all_parts[k] == parts[k] && all[k] == spans[k]);
                } else if k < spans.len() + middle.len() {
                    assert(all_parts[k] == middle_parts[k - spans.len()]);
                    assert(all[k] == middle[k - spans.len()]);
                } else {
                    assert(all_parts[k] == host_part && all[k] == (s.start as int, s.end as int));
                    assert(statements[m].start == s.start);
                }
            }
        }
    }
}

/// A formatted source is laid out part by part, in the order of the source:
/// each part is source kept as written (never an empty range), one of the
/// source's top-level statements handed to the host, or one of its markup
/// regions laid out. The ranges the parts stand for follow one another from
/// the first byte of the source to its end, with no gap and no overlap.
pub proof fn formatted_parts_tile_the_source(t: Seq<char>, o: FormatOptions)
    ensures
        parse_file(t) matches Ok(file) ==> {
            &&& format_result(t, o) == Ok::<Doc, Seq<char>>(cat(file_parts(t, o, file)))
            &&& file_parts(t, o, file).len() == file_spans(t, file).len()
            &&& tiles(file_spans(t, file), 0, encode_utf8(t).len() as int)
            &&& forall|k: int|
                0 <= k < file_spans(t, file).len() ==> file_part(
                    t,
                    o,
                    file,
                    file.statements,
                    #[trigger] file_parts(t, o, file)[k],
                    file_spans(t, file)[k],
                )
        },
{
    if let Ok(file) = parse_file(t) {
        let n = encode_utf8(t).len() as int;
        parsed_segments_are_disjoint(t);
        assert(ordered_segments(file.segments));
        lemma_statement_run(t, o, file, file.statements);
        let (cursor, parts) = statement_run(t, o, file, file.statements);
        let spans = statement_run_spans(n, file, file.statements).1;
        lemma_markup_docs(t, o, file.segments, cursor, n);
        lemma_tiles_concat(spans, markup_spans(file.segments, cursor, n), 0, cursor, n);
        let all_parts = file_parts(t, o, file);
        let all = file_spans(t, file);
        let tail = markup_docs(t, o, file.segments, cursor, n);
        let tail_spans = markup_spans(file.segments, cursor, n);
        assert forall|k: int| 0 <= k < all.len() implies file_part(
            t,
            o,
            file,
            file.statements,
            #[trigger] all_parts[k],
            all[k],
        ) by {
            if k < spans.len() {
                assert(all_parts[k] == parts[k] && all[k] == spans[k]);
            } else {
                assert(all_parts[k] == tail[k - spans.len()]);
                assert(all[k] == tail_spans[k - spans.len()]);
            }
        }
    }
}

/// Whether one of `parts` lays out the segment, over the segment's range.
pub open spec fn shows_segment(
    t: Seq<char>,
    o: FormatOptions,
    parts: Seq<Doc>,
    spans: Seq<(int, int)>,
    segment: Segment,
) -> bool {
    exists|k: int|
        0 <= k < spans.len() && k < parts.len() && #[trigger] spans[k] == (
            segment.start as int,
            segment.end as int,
        ) && parts[k] == segment_doc(t, o, segment)
}

proof fn lemma_shows_prefix(
    t: Seq<char>,
    o: FormatOptions,
    parts: Seq<Doc>,
    spans: Seq<(int, int)>,
    more_parts: Seq<Doc>,
    more_spans: Seq<(int, int)>,
    segment: Segment,
)
    requires
        shows_segment(t, o, parts, spans, segment),
    ensures
        shows_segment(t, o, parts + more_parts, spans + more_spans, segment),
{
    let k = choose|k: int|
        0 <= k < spans.len() && k < parts.len() && #[trigger] spans[k] == (
            segment.start as int,
            segment.end as int,
        ) && parts[k] == segment_doc(t, o, segment);
    assert((spans + more_spans)[k] == spans[k]);
    assert((parts + more_parts)[k] == parts[k]);
}

proof fn lemma_shows_suffix(
    t: Seq<char>,
    o: FormatOptions,
    parts: Seq<Doc>,
    spans: Seq<(int, int)>,
    before_parts: Seq<Doc>,
    before_spans: Seq<(int, int)>,
    segment: Segment,
)
    requires
        shows_segment(t, o, parts, spans, segment),
        before_parts.len() == before_spans.len(),
    ensures
        shows_segment(t, o, before_parts + parts, before_spans + spans, segment),
{
    let k = choose|k: int|
        0 <= k < spans.len() && k < parts.len() && #[trigger] spans[k] == (
            segment.start as int,
            segment.end as int,
        ) && parts[k] == segment_doc(t, o, segment);
    let n = before_spans.len() as int;
    assert((before_spans + spans)[n + k] == spans[k]);
    assert((before_parts + parts)[n + k] == parts[k]);
}

proof fn lemma_markup_run_shows(
    t: Seq<char>,
    o: FormatOptions,
    segments: Seq<Segment>,
    start: int,
    end: int,
)
    requires
        start <= end,
        ordered_segments(segments),
    ensures
        forall|j: int|
            0 <= j < segments.len() && start <= #[trigger] segments[j].start && segments[j].end
                <= end ==> shows_segment(
                t,
                o,
                markup_run(t, o, segments, start, end).1,
                markup_run_spans(segments, start, end).1,
                segments[j],
            ),
    decreases segments.len(),
{
    if segments.len() > 0 {
        let m = segments.len() - 1;
        let rest = segments.drop_last();
        assert(ordered_segments(rest)) by {
            assert forall|i: int, j: int| 0 <= i < j < rest.len() implies #[trigger] rest[i].end
                <= #[trigger] rest[j].start by {
                assert(rest[i] == segments[i] && rest[j] == segments[j]);
            }
            assert forall|i: int| 0 <= i < rest.len() implies #[trigger] rest[i].start
                <= rest[i].end by {
                assert(rest[i] == segments[i]);
            }
        }
        lemma_markup_run_shows(t, o, rest, start, end);
        lemma_markup_run(t, o, rest, start, end);
        lemma_markup_run(t, o, segments, start, end);
        let (cursor, parts) = markup_run(t, o, rest, start, end);
        let spans = markup_run_spans(rest, start, end).1;
        let all_parts = markup_run(t, o, segments, start, end).1;
        let all = markup_run_spans(segments, start, end).1;
        let segment = segments.last();
        assert(segment == segments[m]);
        let included = !(segment.start < start || segment.end > end);
        let gap = if cursor < segment.start {
            seq![(cursor, segment.start as int)]
        } else {
            seq![]
        };
        let gap_parts = if cursor < segment.start {
            seq![at(cursor, segment.start as int)]
        } else {
            seq![]
        };
        let more = if included {
            gap + seq![(segment.start as int, segment.end as int)]
        } else {
            seq![]
        };
        let more_parts = if included {
            gap_parts + seq![segment_doc(t, o, segment)]
        } else {
            seq![]
        };
        assert(all =~= spans + more);
        assert(all_parts =~= parts + more_parts);
        assert forall|j: int|
            0 <= j < segments.len() && start <= #[trigger] segments[j].start && segments[j].end
                <= end implies shows_segment(t, o, all_parts, all, segments[j]) by {
            if j < m {
                assert(rest[j] == segments[j]);
                lemma_shows_prefix(t, o, parts, spans, more_parts, more, segments[j]);
            } else {
                let k = all.len() - 1;
                assert(all[k] == (segment.start as int, segment.end as int));
                assert(all_parts[k] == segment_doc(t, o, segment));
            }
        }
    }
}

proof fn lemma_markup_docs_show(
    t: Seq<char>,
    o: FormatOptions,
    segments: Seq<Segment>,
    start: int,
    end: int,
)
    requires
        start <= end,
        ordered_segments(segments),
    ensures
        forall|j: int|
            0 <= j < segments.len() && start <= #[trigger] segments[j].start && segments[j].end
                <= end ==> shows_segment(
                t,
                o,
                markup_docs(t, o, segments, start, end),
                markup_spans(segments, start, end),
                segments[j],
            ),
{
    lemma_markup_run_shows(t, o, segments, start, end);
    lemma_markup_run(t, o, segments, start, end);
    let (cursor, parts) = markup_run(t, o, segments, start, end);
    let spans = markup_run_spans(segments, start, end).1;
    let tail = if cursor < end {
        seq![(cursor, end)]
    } else {
        seq![]
    };
    let tail_parts = if cursor < end {
        seq![at(cursor, end)]
    } else {
        seq![]
    };
    assert forall|j: int|
        0 <= j < segments.len() && start <= #[trigger] segments[j].start && segments[j].end
            <= end implies shows_segment(
        t,
        o,
        markup_docs(t, o, segments, start, end),
        markup_spans(segments, start, end),
        segments[j],
    ) by {
        lemma_shows_prefix(t, o, parts, spans, tail_parts, tail, segments[j]);
    }
}

/// Whether the range of a statement handed to the host ends at `cursor`.
pub open spec fn ends_a_host(file: FileModel, statements: Seq<SourceSpan>, cursor: int) -> bool {
    exists|i: int|
        0 <= i < statements.len() && #[trigger] statements[i].end == cursor && statements[i].start
            <= statements[i].end && !overlaps_markup(file.segments, statements[i])
}

proof fn lemma_starts_after(file: FileModel, statements: Seq<SourceSpan>, cursor: int, segment: Segment)
    requires
        cursor == 0 || ends_a_host(file, statements, cursor),
        file.segments.contains(segment),
        cursor < segment.end,
    ensures
        cursor <= segment.start,
{
    if cursor != 0 {
        let i = choose|i: int|
            0 <= i < statements.len() && #[trigger] statements[i].end == cursor
                && statements[i].start <= statements[i].end && !overlaps_markup(
                file.segments,
                statements[i],
            );
        let j = choose|j: int| 0 <= j < file.segments.len() && file.segments[j] == segment;
        assert(!(file.segments[j].start < statements[i].end && statements[i].start
            < file.segments[j].end));
    }
}

proof fn lemma_statement_run_shows(
    t: Seq<char>,
    o: FormatOptions,
    file: FileModel,
    statements: Seq<SourceSpan>,
)
    requires
        ordered_segments(file.segments),
    ensures
        statement_run(t, o, file, statements).0 == 0 || ends_a_host(
            file,
            statements,
            statement_run(t, o, file, statements).0,
        ),
        forall|j: int|
            0 <= j < file.segments.len() && #[trigger] file.segments[j].start < file.segments[j].end
                && file.segments[j].end <= statement_run(t, o, file, statements).0 ==> shows_segment(
                t,
                o,
                statement_run(t, o, file, statements).1,
                statement_run_spans(encode_utf8(t).len() as int, file, statements).1,
                file.segments[j],
            ),
    decreases statements.len(),
{
    let n = encode_utf8(t).len() as int;
    if statements.len() > 0 {
        let m = statements.len() - 1;
        let rest = statements.drop_last();
        lemma_statement_run_shows(t, o, file, rest);
        lemma_statement_run(t, o, file, rest);
        let (cursor, parts) = statement_run(t, o, file, rest);
        let spans = statement_run_spans(n, file, rest).1;
        let s = statements.last();
        assert(s == statements[m]);
        if cursor != 0 {
            let i = choose|i: int|
                0 <= i < rest.len() && #[trigger] rest[i].end == cursor && rest[i].start
                    <= rest[i].end && !overlaps_markup(file.segments, rest[i]);
            assert(rest[i] == statements[i]);
            assert(ends_a_host(file, statements, cursor));
        }
        if !(overlaps_markup(file.segments, s) || s.start < cursor || s.end < s.start || s.end > n) {
            lemma_markup_docs(t, o, file.segments, cursor, s.start as int);
            lemma_markup_docs_show(t, o, file.segments, cursor, s.start as int);
            let middle = markup_spans(file.segments, cursor, s.start as int);
            let middle_parts = markup_docs(t, o, file.segments, cursor, s.start as int);
            let host = seq![(s.start as int, s.end as int)];
            let host_part = seq![Doc::Host { start: s.start as nat, end: s.end as nat, parse: ParseMode::Block }];
            let all = statement_run_spans(n, file, statements).1;
            let all_parts = statement_run(t, o, file, statements).1;
            assert(all =~= spans + (middle + host));
            assert(all_parts =~= parts + (middle_parts + host_part));
            assert(statements[m].end == s.end);
            assert(ends_a_host(file, statements, s.end as int));
            assert forall|j: int|
                0 <= j < file.segments.len() && #[trigger] file.segments[j].start
                    < file.segments[j].end && file.segments[j].end <= s.end implies shows_segment(
                t,
                o,
                all_parts,
                all,
                file.segments[j],
            ) by {
                let g = file.segments[j];
                if g.end <= cursor {
                    lemma_shows_prefix(t, o, parts, spans, middle_parts + host_part, middle + host, g);
                } else {
                    assert(file.segments.contains(g));
                    lemma_starts_after(file, rest, cursor, g);
                    assert(!(file.segments[j].start < s.end && s.start < file.segments[j].end));
                    assert(g.end <= s.start);
                    lemma_shows_prefix(t, o, middle_parts, middle, host_part, host, g);
                    lemma_shows_suffix(t, o, middle_parts + host_part, middle + host, parts, spans, g);
                }
            }
        }
    }
}

proof fn lemma_tiles_ordered(spans: Seq<(int, int)>, a: int, b: int)
    requires
        tiles(spans, a, b),
    ensures
        a <= b,
        forall|k: int| 0 <= k < spans.len() ==> a <= #[trigger] spans[k].0 <= spans[k].1 <= b,
        forall|k1: int, k2: int|
            0 <= k1 < k2 < spans.len() ==> #[trigger] spans[k1].1 <= #[trigger] spans[k2].0,
    decreases spans.len(),
{
    if spans.len() > 0 {
        let rest = spans.drop_first();
        lemma_tiles_ordered(rest, spans[0].1, b);
        assert forall|k: int| 0 <= k < spans.len() implies a <= #[trigger] spans[k].0 <= spans[k].1
            <= b by {
            if k > 0 {
                assert(spans[k] == rest[k - 1]);
            }
        }
        assert forall|k1: int, k2: int| 0 <= k1 < k2 < spans.len() implies #[trigger] spans[k1].1
            <= #[trigger] spans[k2].0 by {
            assert(spans[k2] == rest[k2 - 1]);
            if k1 > 0 {
                assert(spans[k1] == rest[k1 - 1]);
            }
        }
    }
}

/// Each markup region of a formatted source, of one byte or more, is laid out
/// once: a part stands for its range and is the region laid out, and no two
/// parts stand for overlapping ranges, so no other part stands for it.
pub proof fn each_region_is_laid_out_once(t: Seq<char>, o: FormatOptions)
    ensures
        parse_file(t) matches Ok(file) ==> {
            &&& forall|j: int|
                0 <= j < file.segments.len() && #[trigger] file.segments[j].start
                    < file.segments[j].end ==> shows_segment(
                    t,
                    o,
                    file_parts(t, o, file),
                    file_spans(t, file),
                    file.segments[j],
                )
            &&& forall|k1: int, k2: int|
                0 <= k1 < k2 < file_spans(t, file).len() ==> #[trigger] file_spans(t, file)[k1].1
                    <= #[trigger] file_spans(t, file)[k2].0
        },
{
    if let Ok(file) = parse_file(t) {
        let n = encode_utf8(t).len() as int;
        parsed_segments_are_disjoint(t);
        assert(ordered_segments(file.segments));
        formatted_parts_tile_the_source(t, o);
        lemma_tiles_ordered(file_spans(t, file), 0, n);
        lemma_statement_run(t, o, file, file.statements);
        lemma_statement_run_shows(t, o, file, file.statements);
        let (cursor, parts) = statement_run(t, o, file, file.statements);
        let spans = statement_run_spans(n, file, file.statements).1;
        lemma_markup_docs_show(t, o, file.segments, cursor, n);
        let tail = markup_docs(t, o, file.segments, cursor, n);
        let tail_spans = markup_spans(file.segments, cursor, n);
        assert forall|j: int|
            0 <= j < file.segments.len() && #[trigger] file.segments[j].start
                < file.segments[j].end implies shows_segment(
            t,
            o,
            file_parts(t, o, file),
            file_spans(t, file),
            file.segments[j],
        ) by {
            let g = file.segments[j];
            assert(g.end <= n);
            if g.end <= cursor {
                lemma_shows_prefix(t, o, parts, spans, tail, tail_spans, g);
            } else {
                assert(file.segments.contains(g));
                lemma_starts_after(file, file.statements, cursor, g);
                lemma_shows_suffix(t, o, tail, tail_spans, parts, spans, g);
            }
        }
    }
}

/// The parts that `append_markup` adds for the source `start..end`, given
/// markup regions in order: their ranges follow one another from `start` to
/// `end` (none when the two are equal); each part is source kept as written,
/// never an empty range, or one of the regions laid out; and every region that
/// lies within `start..end` is among them.
pub proof fn markup_parts_tile_their_range(
    t: Seq<char>,
    o: FormatOptions,
    segments: Seq<Segment>,
    start: int,
    end: int,
)
    requires
        start <= end,
        ordered_segments(segments),
    ensures
        markup_docs(t, o, segments, start, end).len() == markup_spans(segments, start, end).len(),
        tiles(markup_spans(segments, start, end), start, end),
        forall|k: int|
            0 <= k < markup_spans(segments, start, end).len() ==> markup_part(
                t,
                o,
                segments,
                #[trigger] markup_docs(t, o, segments, start, end)[k],
                markup_spans(segments, start, end)[k],
            ),
        forall|j: int|
            0 <= j < segments.len() && start <= #[trigger] segments[j].start && segments[j].end
                <= end ==> shows_segment(
                t,
                o,
                markup_docs(t, o, segments, start, end),
                markup_spans(segments, start, end),
                segments[j],
            ),
{
    lemma_markup_docs(t, o, segments, start, end);
    lemma_markup_docs_show(t, o, segments, start, end);
}

} // verus!
