//! What holds of the colours of a line, and of the part of it that is shown.

use crate::linehead::LineHead;
use crate::linehead::Span;
use crate::outside;
use crate::render;
use crate::render::Section;
use crate::search_laws;
use crate::style;
use crate::style::Level;
use crate::style::Rgb;
use crate::text;
use vstd::prelude::*;
use vstd::utf8::*;

verus! {

/// Position `i` lies in one of the spans.
pub open spec fn is_hit(spans: Seq<Span>, i: int) -> bool {
    exists|h: int| 0 <= h < spans.len() && (#[trigger] spans[h]).start <= i < spans[h].end
}

/// Every section that begins in a hit has the colours of a hit, whatever else stands there, and
/// no section that begins outside all hits has their background.
pub proof fn law_hits_have_their_colours(
    sections: Seq<Section>,
    len: int,
    head: LineHead,
    spans: Seq<Span>,
    base: Rgb,
    muted: Rgb,
    dark: bool,
    k: int,
)
    requires
        render::sections_of(sections, len, head, spans, base, muted, dark),
        0 <= k < sections.len(),
        len > 0,
    ensures
        is_hit(spans, sections[k].start as int) && dark ==> sections[k].color == (Rgb {
            r: 255,
            g: 245,
            b: 220,
        }) && sections[k].background == Some(Rgb { r: 140, g: 110, b: 20 }),
        is_hit(spans, sections[k].start as int) && !dark ==> sections[k].color == (Rgb {
            r: 60,
            g: 40,
            b: 0,
        }) && sections[k].background == Some(Rgb { r: 255, g: 226, b: 130 }),
        !is_hit(spans, sections[k].start as int) ==> sections[k].background != Some(
            Rgb { r: 140, g: 110, b: 20 },
        ) && sections[k].background != Some(Rgb { r: 255, g: 226, b: 130 }),
{
    let i = sections[k].start as int;
    lemma_hit(spans, i);
    law_level_colours(dark);
}

proof fn lemma_hit(spans: Seq<Span>, i: int)
    ensures
        is_hit(spans, i) <==> render::in_spans(spans, i),
{
    if is_hit(spans, i) {
        let h = choose|h: int|
            0 <= h < spans.len() && (#[trigger] spans[h]).start <= i < spans[h].end;
        assert(spans[h].holds(i));
    }
    if render::in_spans(spans, i) {
        let h = choose|h: int| 0 <= h < spans.len() && (#[trigger] spans[h]).holds(i);
        assert(spans[h].start <= i < spans[h].end);
    }
}

/// The colours of the levels. An error is red, a warning amber; only these two have a background
/// and a rule.
pub proof fn law_level_colours(dark: bool)
    ensures
        ({
            let e = style::level_style(Level::Error, dark);
            let w = style::level_style(Level::Warn, dark);
            let i = style::level_style(Level::Info, dark);
            let d = style::level_style(Level::Debug, dark);
            &&& dark ==> e.fg == (Rgb { r: 0xf7, g: 0xc1, b: 0xc1 }) && e.bg == Some(
                Rgb { r: 0x50, g: 0x13, b: 0x13 },
            )
            &&& !dark ==> e.fg == (Rgb { r: 0x79, g: 0x1f, b: 0x1f }) && e.bg == Some(
                Rgb { r: 0xfc, g: 0xeb, b: 0xeb },
            )
            &&& dark ==> w.fg == (Rgb { r: 0xfa, g: 0xc7, b: 0x75 }) && w.bg == Some(
                Rgb { r: 0x41, g: 0x24, b: 0x02 },
            )
            &&& !dark ==> w.fg == (Rgb { r: 0x63, g: 0x38, b: 0x06 }) && w.bg == Some(
                Rgb { r: 0xfa, g: 0xee, b: 0xda },
            )
            &&& e.rule == Some(Rgb { r: 0xe2, g: 0x4b, b: 0x4a })
            &&& w.rule == Some(Rgb { r: 0xef, g: 0x9f, b: 0x27 })
            &&& i.bg is None && i.rule is None && d.bg is None && d.rule is None
            &&& dark ==> i.fg == (Rgb { r: 0x78, g: 0xbe, b: 0xff })
            &&& !dark ==> i.fg == (Rgb { r: 0x14, g: 0x5a, b: 0xbe })
        }),
{
}

/// The muted text, in which the date and the time are written.
pub proof fn law_muted_colours()
    ensures
        style::muted(true) == (Rgb { r: 0xb4, g: 0xb2, b: 0xa9 }),
        style::muted(false) == (Rgb { r: 0x5f, g: 0x5e, b: 0x5a }),
        style::level_style(Level::Debug, true).fg == (Rgb { r: 0xb4, g: 0xb2, b: 0xa9 }),
        style::level_style(Level::Debug, false).fg == (Rgb { r: 0x5f, g: 0x5e, b: 0x5a }),
{
}

/// Position `i` lies in the date, in the time, or between the two.
pub open spec fn in_stamp(head: LineHead, i: int) -> bool {
    match (head.date, head.time) {
        (Some(d), Some(t)) => d.start <= i < t.end,
        (Some(d), None) => d.start <= i < d.end,
        (None, Some(t)) => t.start <= i < t.end,
        (None, None) => false,
    }
}

/// Outside the hits the date and the time are muted, the level has its own colours, and all the
/// rest has the colour of the text and no background.
pub proof fn law_rest_of_the_line_has_its_colours(
    sections: Seq<Section>,
    len: int,
    head: LineHead,
    spans: Seq<Span>,
    base: Rgb,
    muted: Rgb,
    dark: bool,
    k: int,
)
    requires
        render::sections_of(sections, len, head, spans, base, muted, dark),
        0 <= k < sections.len(),
        len > 0,
        !is_hit(spans, sections[k].start as int),
    ensures
        ({
            let c = sections[k];
            let i = c.start as int;
            let of_level = head.level is Some && (head.level->0).0.start <= i
                < (head.level->0).0.end;
            &&& in_stamp(head, i) ==> c.color == muted
            &&& of_level ==> c.background == style::level_style((head.level->0).1, dark).bg
            &&& of_level && !in_stamp(head, i) ==> c.color == style::level_style(
                (head.level->0).1,
                dark,
            ).fg
            &&& !of_level ==> c.background is None
            &&& !of_level && !in_stamp(head, i) ==> c.color == base
        }),
{
    lemma_hit(spans, sections[k].start as int);
}

proof fn lemma_covered(hay: Seq<u8>, needle: Seq<u8>, from: int, j: int)
    requires
        0 <= from <= j,
        hay.len() <= usize::MAX,
        needle.len() > 0,
        outside::occurs_at(hay, needle, j),
    ensures
        exists|k: int|
            0 <= k < outside::occurrences(hay, needle, from).len() && (
            #[trigger] outside::occurrences(hay, needle, from)[k]) <= j < outside::occurrences(
                hay,
                needle,
                from,
            )[k] + needle.len(),
    decreases hay.len() + 1 - from,
{
    let hits = outside::occurrences(hay, needle, from);
    if outside::occurs_at(hay, needle, from) {
        if j < from + needle.len() {
            assert(hits[0] == from);
        } else {
            lemma_covered(hay, needle, from + needle.len(), j);
            let rest = outside::occurrences(hay, needle, from + needle.len());
            let k = choose|k: int|
                0 <= k < rest.len() && (#[trigger] rest[k]) <= j < rest[k] + needle.len();
            assert(hits[k + 1] == rest[k]);
        }
    } else {
        lemma_covered(hay, needle, from + 1, j);
    }
}

/// What is picked out for a query reads as the query, and wherever the query can be read is
/// picked out: each place where it stands begins in one of the spans. They follow one another
/// and do not overlap.
pub proof fn law_query_is_picked_out(b: Seq<u8>, query: Seq<u8>, case_sensitive: bool)
    requires
        b.len() <= usize::MAX,
        query.len() > 0,
    ensures
        ({
            let spans = render::query_spans(b, query, case_sensitive);
            &&& forall|k: int|
                0 <= k < spans.len() ==> (#[trigger] spans[k]).end == spans[k].start + query.len()
                    && search_laws::read_at(b, query, case_sensitive, spans[k].start as int)
            &&& forall|j: int| #[trigger]
                search_laws::read_at(b, query, case_sensitive, j) ==> is_hit(spans, j)
            &&& forall|j: int, k: int|
                0 <= j < k < spans.len() ==> (#[trigger] spans[j]).end <= (
                #[trigger] spans[k]).start
        }),
{
    let hay = render::folded(b, case_sensitive);
    let needle = render::folded(query, case_sensitive);
    let hits = outside::occurrences(hay, needle, 0);
    let spans = render::query_spans(b, query, case_sensitive);
    assert(hay.len() == b.len() && needle.len() == query.len());
    assert(hay.subrange(0, b.len() as int) =~= hay);
    crate::search::lemma_occurrences(hay, needle, 0);
    render::lemma_hits_apart(hay, needle, 0);
    assert forall|k: int| 0 <= k < spans.len() implies (#[trigger] spans[k]).end == spans[k].start
        + query.len() && search_laws::read_at(
        b,
        query,
        case_sensitive,
        spans[k].start as int,
    ) by {
        assert(outside::occurs_at(hay, needle, hits[k] as int));
        search_laws::lemma_read(b, query, case_sensitive, 0, b.len() as int, hits[k] as int);
    }
    assert forall|j: int| #[trigger]
        search_laws::read_at(b, query, case_sensitive, j) implies is_hit(spans, j) by {
        search_laws::lemma_read(b, query, case_sensitive, 0, b.len() as int, j);
        lemma_covered(hay, needle, 0, j);
        let k = choose|k: int|
            0 <= k < hits.len() && (#[trigger] hits[k]) <= j < hits[k] + needle.len();
        assert(spans[k].start <= j < spans[k].end);
    }
    assert forall|j: int, k: int| 0 <= j < k < spans.len() implies (#[trigger] spans[j]).end <= (
    #[trigger] spans[k]).start by {
        assert(hits[j] + needle.len() <= hits[k]);
        assert(spans[j].end == spans[j].start + query.len());
    }
}

/// Nothing is picked out for an empty query.
pub proof fn law_empty_query_picks_out_nothing(b: Seq<u8>, case_sensitive: bool, i: int)
    ensures
        !is_hit(render::query_spans(b, Seq::empty(), case_sensitive), i),
{
}

/// Of the matches of a pattern, those that are not empty are picked out, and no others.
pub proof fn law_matches_are_picked_out(matches: Seq<(usize, usize)>, a: usize, e: usize)
    ensures
        render::nonempty_spans(matches).contains(Span { start: a, end: e }) <==> a < e
            && matches.contains((a, e)),
        render::nonempty_spans(matches).len() <= matches.len(),
        (forall|k: int| 0 <= k < matches.len() ==> (#[trigger] matches[k]).0 < matches[k].1)
            ==> render::nonempty_spans(matches).len() == matches.len() && forall|k: int|
            0 <= k < matches.len() ==> #[trigger] render::nonempty_spans(matches)[k] == (Span {
                start: matches[k].0,
                end: matches[k].1,
            }),
    decreases matches.len(),
{
    let spans = render::nonempty_spans(matches);
    if matches.len() > 0 {
        let before = matches.drop_last();
        law_matches_are_picked_out(before, a, e);
        let front = render::nonempty_spans(before);
        let last = matches.last();
        let span = Span { start: a, end: e };
        if before.contains((a, e)) {
            let k = choose|k: int| 0 <= k < before.len() && before[k] == (a, e);
            assert(matches[k] == (a, e));
        }
        if matches.contains((a, e)) {
            let k = choose|k: int| 0 <= k < matches.len() && matches[k] == (a, e);
            if k < before.len() {
                assert(before[k] == (a, e));
            }
        }
        if last == (a, e) {
            assert(matches[matches.len() - 1] == (a, e));
        }
        if front.contains(span) {
            let k = choose|k: int| 0 <= k < front.len() && front[k] == span;
            assert(spans[k] == span);
        }
        if last.0 < last.1 {
            assert(spans[front.len() as int] == (Span { start: last.0, end: last.1 }));
        }
        if spans.contains(span) {
            let k = choose|k: int| 0 <= k < spans.len() && spans[k] == span;
            if k < front.len() {
                assert(front[k] == span);
            }
        }
        if forall|k: int| 0 <= k < matches.len() ==> (#[trigger] matches[k]).0 < matches[k].1 {
            assert forall|k: int| 0 <= k < before.len() implies (#[trigger] before[k]).0
                < before[k].1 by {
                assert(matches[k] == before[k]);
            }
            assert(matches[matches.len() - 1].0 < matches[matches.len() - 1].1);
            assert forall|k: int| 0 <= k < matches.len() implies #[trigger] spans[k] == (Span {
                start: matches[k].0,
                end: matches[k].1,
            }) by {
                if k < before.len() {
                    assert(front[k] == (Span { start: before[k].0, end: before[k].1 }));
                }
            }
        }
    }
}

/// A pattern decides what is picked out where there is one, and the query elsewhere.
pub proof fn law_what_is_picked_out(
    shown: Seq<char>,
    query: Seq<char>,
    case_sensitive: bool,
    pattern: Seq<char>,
)
    ensures
        render::highlights(shown, query, case_sensitive, None) == render::query_spans(
            encode_utf8(shown),
            encode_utf8(query),
            case_sensitive,
        ),
        forall|a: usize, e: usize|
            render::highlights(shown, query, case_sensitive, Some(pattern)).contains(
                #[trigger] span(a, e),
            ) <==> a < e && outside::pattern_spans(pattern, shown).contains((a, e)),
{
    assert forall|a: usize, e: usize|
        render::highlights(shown, query, case_sensitive, Some(pattern)).contains(
            #[trigger] span(a, e),
        ) <==> a < e && outside::pattern_spans(pattern, shown).contains((a, e)) by {
        law_matches_are_picked_out(outside::pattern_spans(pattern, shown), a, e);
    }
}

/// The bytes from `a` up to `e`.
pub open spec fn span(a: usize, e: usize) -> Span {
    Span { start: a, end: e }
}

/// No more than the first 4000 characters of a line are shown, and all of it where it has no
/// more.
pub proof fn law_shown_part(line: Seq<char>)
    ensures
        ({
            let shown = render::first_chars(line, render::MAX_RENDER_CHARS as int);
            &&& shown.len() <= 4000
            &&& shown.len() <= line.len()
            &&& shown.len() < 4000 ==> shown.len() == line.len()
            &&& forall|k: int| 0 <= k < shown.len() ==> #[trigger] shown[k] == line[k]
        }),
{
}

/// A text is cut at the last place between two characters that is not behind `max`.
pub proof fn law_cut_between_characters(b: Seq<u8>, max: int)
    requires
        0 <= max,
        valid_utf8(b),
    ensures
        ({
            let n = render::whole_chars(b, max);
            &&& 0 <= n <= b.len()
            &&& n <= max
            &&& is_char_boundary(b, n)
            &&& forall|j: int| n < j <= max && j <= b.len() ==> !#[trigger] is_char_boundary(b, j)
        }),
{
    is_char_boundary_start_end_of_seq(b);
    if max < b.len() {
        lemma_last_boundary(b, max);
    }
}

proof fn lemma_last_boundary(b: Seq<u8>, i: int)
    requires
        0 <= i,
        is_char_boundary(b, 0),
    ensures
        ({
            let n = render::boundary_at_or_before(b, i);
            &&& 0 <= n <= i
            &&& is_char_boundary(b, n)
            &&& forall|j: int| n < j <= i ==> !#[trigger] is_char_boundary(b, j)
        }),
    decreases i,
{
    if i > 0 && !is_char_boundary(b, i) {
        lemma_last_boundary(b, i - 1);
    }
}

/// Words of a line are parted by white space, by brackets of every kind, by quotes, and by
/// `, ; : = | / \`; by nothing else, so that a dash, a dot or an underscore stays in its word.
pub proof fn law_what_parts_words(c: char)
    ensures
        render::parts_text(c) <==> {
            let v = c as u32;
            ||| text::white_space(c)
            ||| v == 0x22 || v == 0x27
            ||| v == 0x28 || v == 0x29 || v == 0x5b || v == 0x5d || v == 0x7b || v == 0x7d
            ||| v == 0x3c || v == 0x3e
            ||| v == 0x2c || v == 0x3b || v == 0x3a || v == 0x3d || v == 0x7c
            ||| v == 0x2f || v == 0x5c
        },
{
}

/// Every byte of a hit is shown in the colours of a hit, whatever else stands there: the section
/// that holds it has them.
pub proof fn law_every_byte_of_a_hit_has_its_colours(
    sections: Seq<Section>,
    len: int,
    head: LineHead,
    spans: Seq<Span>,
    base: Rgb,
    muted: Rgb,
    dark: bool,
    k: int,
    h: int,
    i: int,
)
    requires
        render::sections_of(sections, len, head, spans, base, muted, dark),
        0 <= k < sections.len(),
        0 <= h < spans.len(),
        spans[h].end <= len,
        spans[h].start <= i < spans[h].end,
        sections[k].start <= i < sections[k].end,
    ensures
        dark ==> sections[k].color == (Rgb { r: 255, g: 245, b: 220 }) && sections[k].background
            == Some(Rgb { r: 140, g: 110, b: 20 }),
        !dark ==> sections[k].color == (Rgb { r: 60, g: 40, b: 0 }) && sections[k].background
            == Some(Rgb { r: 255, g: 226, b: 130 }),
{
    if sections[k].start < spans[h].start {
        let c = spans[h].start as int;
        assert(render::cut_by(spans[h], len, c));
        render::lemma_no_cut_inside(sections, len, head, spans, base, muted, dark, k, c);
    }
    assert(is_hit(spans, sections[k].start as int));
    law_hits_have_their_colours(sections, len, head, spans, base, muted, dark, k);
}

} // verus!
