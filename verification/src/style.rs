//! What the formatting options and the shape of markup text make of the
//! layout: the space before `/>`, attributes one per line, requoted strings,
//! and text that keeps its bordering white space glued to its neighbours.
use crate::formatter::{
    at, attribute_doc, breaks_lines, child_separator, attributes_doc, attributes_parts, cat, closing_separator, element_doc,
    glues, grp, ind, lit, next_newline, self_closing_doc, string_doc, text_doc, text_lines,
    closes_itself,
};
use crate::markup::{MarkupChild, MarkupElement, SourceSpan};
use crate::protocol::Doc;
use crate::settings::{FormatOptions, QuoteStyle};
use crate::formatter::has_unescaped;
use vstd::prelude::*;
use vstd::utf8::encode_utf8;

verus! {

/// A self-closing element is laid out as its opening, its attributes, a
/// separator and `/>`. The separator is a plain space for an element without
/// attributes when `self_closing_space` is on, and nothing when it is off; with
/// attributes it is a line break that flattens to a space when the option is
/// on, and a soft break that flattens to nothing when it is off.
pub proof fn space_before_the_slash(o: FormatOptions, opening: Seq<char>, attributes: Doc, bare: bool)
    ensures
        self_closing_doc(o, opening, attributes, bare) == grp(
            cat(
                seq![
                    lit(opening),
                    attributes,
                    if bare && o.self_closing_space {
                        lit(seq![' '])
                    } else if bare {
                        Doc::Nil
                    } else if o.self_closing_space {
                        Doc::Line
                    } else {
                        Doc::Soft
                    },
                    lit(seq!['/', '>']),
                ],
            ),
        ),
{
    reveal_strlit(" ");
    reveal_strlit("/>");
    assert(" "@ =~= seq![' ']);
    assert("/>"@ =~= seq!['/', '>']);
}

/// An empty element written as `<Name />`, without attributes, is laid out as
/// `<Name`, a plain space when `self_closing_space` is on (nothing when it is
/// off), and `/>`.
pub proof fn bare_element_closes_itself(t: Seq<char>, o: FormatOptions, element: MarkupElement, bound: nat)
    requires
        element.children@.len() == 0,
        element.attributes@.len() == 0,
        closes_itself(encode_utf8(t), element.span),
    ensures
        element_doc(t, o, element, bound) == grp(
            cat(
                seq![
                    lit(seq!['<'] + element.name@),
                    Doc::Nil,
                    if o.self_closing_space {
                        lit(seq![' '])
                    } else {
                        Doc::Nil
                    },
                    lit(seq!['/', '>']),
                ],
            ),
        ),
{
    reveal_strlit("<");
    assert("<"@ =~= seq!['<']);
    space_before_the_slash(o, "<"@ + element.name@, Doc::Nil, true);
}

proof fn lemma_attribute_parts(
    t: Seq<char>,
    o: FormatOptions,
    element: MarkupElement,
    k: int,
    separator: Doc,
    bound: nat,
)
    requires
        0 <= k,
    ensures
        attributes_parts(t, o, element, k, separator, bound).len() == 2 * k,
        forall|i: int|
            0 <= i < k ==> #[trigger] attributes_parts(t, o, element, k, separator, bound)[2 * i]
                == separator,
        forall|i: int|
            0 <= i < k ==> #[trigger] attributes_parts(t, o, element, k, separator, bound)[2 * i + 1]
                == attribute_doc(t, o, element, i, bound),
    decreases k,
{
    if k > 0 {
        lemma_attribute_parts(t, o, element, k - 1, separator, bound);
        let before = attributes_parts(t, o, element, k - 1, separator, bound);
        let parts = attributes_parts(t, o, element, k, separator, bound);
        assert forall|i: int| 0 <= i < k implies #[trigger] parts[2 * i] == separator by {
            if i < k - 1 {
                assert(parts[2 * i] == before[2 * i]);
            }
        }
        assert forall|i: int| 0 <= i < k implies #[trigger] parts[2 * i + 1] == attribute_doc(
            t,
            o,
            element,
            i,
            bound,
        ) by {
            if i < k - 1 {
                assert(parts[2 * i + 1] == before[2 * i + 1]);
            }
        }
    }
}

/// An element's attributes are laid out indented, each after a break, in
/// order; nothing when there are none. With `attribute_per_line` on and more
/// than one attribute, every break is a hard one, so each attribute is on a
/// line of its own; otherwise each is a line break that flattens to a space.
pub proof fn attributes_one_per_line(t: Seq<char>, o: FormatOptions, element: MarkupElement, bound: nat)
    ensures
        element.attributes@.len() == 0 ==> attributes_doc(t, o, element, bound) == Doc::Nil,
        element.attributes@.len() > 0 ==> exists|parts: Seq<Doc>|
            {
                &&& attributes_doc(t, o, element, bound) == ind(cat(parts))
                &&& parts.len() == 2 * element.attributes@.len()
                &&& forall|i: int|
                    0 <= i < element.attributes@.len() ==> #[trigger] parts[2 * i] == if o.attribute_per_line
                        && element.attributes@.len() >= 2 {
                        Doc::Hard
                    } else {
                        Doc::Line
                    }
                &&& forall|i: int|
                    0 <= i < element.attributes@.len() ==> #[trigger] parts[2 * i + 1] == attribute_doc(
                        t,
                        o,
                        element,
                        i,
                        bound,
                    )
            },
{
    let n = element.attributes@.len() as int;
    if n > 0 {
        let separator = if o.attribute_per_line && n >= 2 {
            Doc::Hard
        } else {
            Doc::Line
        };
        lemma_attribute_parts(t, o, element, n, separator, bound);
        let parts = attributes_parts(t, o, element, n, separator, bound);
        assert(attributes_doc(t, o, element, bound) == ind(cat(parts)));
    }
}

/// How an attribute string `start..end`, quotes included, is laid out. With
/// quotes preserved it stays as written. With a preferred quote (double or
/// single) it also stays as written when it already opens with that quote or
/// holds it unescaped inside; otherwise it is laid out as that quote, its
/// inside as written, and that quote again.
pub proof fn strings_take_the_preferred_quote(src: Seq<u8>, o: FormatOptions, start: int, end: int)
    requires
        0 <= start,
        start + 2 <= end <= src.len(),
    ensures
        o.attribute_quotes == QuoteStyle::Preserve ==> string_doc(src, o, start, end) == at(start, end),
        o.attribute_quotes != QuoteStyle::Preserve ==> {
            let q: u8 = if o.attribute_quotes == QuoteStyle::Single {
                0x27
            } else {
                0x22
            };
            let c: char = if o.attribute_quotes == QuoteStyle::Single {
                '\''
            } else {
                '"'
            };
            &&& (src[start] == q || has_unescaped(src.subrange(start + 1, end - 1), q))
                ==> string_doc(src, o, start, end) == at(start, end)
            &&& (src[start] != q && !has_unescaped(src.subrange(start + 1, end - 1), q))
                ==> string_doc(src, o, start, end) == cat(
                seq![lit(seq![c]), at(start + 1, end - 1), lit(seq![c])],
            )
        },
{
    assert((0x27u8 as char) == '\'');
    assert((0x22u8 as char) == '"');
}

/// A byte that is visible ASCII, neither white space nor a control.
pub open spec fn visible(b: u8) -> bool {
    0x21 <= b && b <= 0x7E
}

proof fn lemma_leading_white_stops(t: Seq<u8>, k: int)
    requires
        0 <= k < t.len(),
        visible(t[k]),
    ensures
        crate::text::leading_white(t) <= k,
    decreases t.len(),
{
    let w = crate::text::white_prefix(t);
    if w > 0 {
        assert(w <= k);
        lemma_leading_white_stops(t.skip(w), k - w);
    }
}

proof fn lemma_last_line_sticks(src: Seq<u8>, o: FormatOptions, lb: int, b: int, first: bool, k: int)
    requires
        0 <= lb <= k < b <= src.len(),
        visible(src[k]),
        forall|m: int| k <= m < b ==> #[trigger] src[m] != 0x0A,
        src[b - 1] == 0x20 || src[b - 1] == 0x09,
    ensures
        text_lines(src, o, lb, b, first).1,
    decreases b - lb,
{
    let line_end = next_newline(src, lb, b);
    lemma_newline_found(src, lb, b);
    if line_end >= b {
        let line = src.subrange(lb, line_end);
        assert(line[k - lb] == src[k]);
        lemma_leading_white_stops(line, k - lb);
        assert(line[line.len() - 1] == src[b - 1]);
    } else {
        assert(src[line_end] == 0x0A);
        assert(line_end < k);
        lemma_last_line_sticks(src, o, line_end + 1, b, false, k);
    }
}

proof fn lemma_newline_found(src: Seq<u8>, i: int, b: int)
    requires
        i <= b,
    ensures
        i <= next_newline(src, i, b) <= b,
        next_newline(src, i, b) < b ==> src[next_newline(src, i, b)] == 0x0A,
    decreases b - i,
{
    if i < b && src[i] != 0x0A {
        lemma_newline_found(src, i + 1, b);
    }
}

/// Text whose last line holds something visible and ends in white space keeps
/// that space: the text sticks to what follows it, so nothing (no break) goes
/// between it and the next child, or the closing tag when it is the last
/// child.
pub proof fn trailing_space_sticks(t: Seq<char>, o: FormatOptions, span: SourceSpan, k: int)
    requires
        span.start <= k < span.end <= encode_utf8(t).len(),
        visible(encode_utf8(t)[k]),
        forall|m: int| k <= m < span.end ==> #[trigger] encode_utf8(t)[m] != 0x0A,
        encode_utf8(t)[span.end - 1] == 0x20 || encode_utf8(t)[span.end - 1] == 0x09,
    ensures
        text_doc(encode_utf8(t), o, span).1,
        forall|children: Seq<MarkupChild>|
            children.len() > 0 && children.last() is Text && children.last().span_of() == span
                ==> #[trigger] closing_separator(t, o, children) == Doc::Nil,
        forall|children: Seq<MarkupChild>, i: int|
            0 < i < children.len() && children[i - 1] is Text && children[i - 1].span_of() == span
                && !breaks_lines(t, children[i]) ==> #[trigger] child_separator(t, o, children, i)
                == Doc::Nil,
{
    lemma_last_line_sticks(encode_utf8(t), o, span.start as int, span.end as int, true, k);
    assert forall|children: Seq<MarkupChild>|
        children.len() > 0 && children.last() is Text && children.last().span_of() == span implies #[trigger] closing_separator(t, o, children) == Doc::Nil by {
        assert(glues(t, o, children.last()));
    }
    assert forall|children: Seq<MarkupChild>, i: int|
        0 < i < children.len() && children[i - 1] is Text && children[i - 1].span_of() == span
            && !breaks_lines(t, children[i]) implies #[trigger] child_separator(t, o, children, i)
        == Doc::Nil by {
        assert(glues(t, o, children[i - 1]));
    }
}

proof fn lemma_trailing_white_stops(t: Seq<u8>, k: int)
    requires
        0 <= k < t.len(),
        visible(t[k]),
    ensures
        crate::text::trailing_white(t) <= t.len() - 1 - k,
    decreases t.len(),
{
    let w = crate::text::white_suffix(t);
    if w > 0 {
        assert(w <= t.len() - 1 - k);
        let rest = t.take(t.len() - w);
        assert(rest[k] == t[k]);
        lemma_trailing_white_stops(rest, k);
    }
}

/// Text whose first line holds something visible and begins with white space
/// keeps that space: the text sticks, like text that ends in white space.
pub proof fn leading_space_sticks(src: Seq<u8>, o: FormatOptions, span: SourceSpan, k: int)
    requires
        span.start <= k < span.end <= src.len(),
        visible(src[k]),
        forall|m: int| span.start <= m <= k ==> #[trigger] src[m] != 0x0A,
        src[span.start as int] == 0x20 || src[span.start as int] == 0x09,
    ensures
        text_doc(src, o, span).1,
{
    let a = span.start as int;
    let b = span.end as int;
    let line_end = next_newline(src, a, b);
    lemma_newline_found(src, a, b);
    assert(line_end > k) by {
        if line_end <= k {
            assert(src[line_end] == 0x0A);
        }
    }
    let line = src.subrange(a, line_end);
    assert(line[k - a] == src[k]);
    lemma_trailing_white_stops(line, k - a);
    assert(line[0] == src[a]);
}

} // verus!
