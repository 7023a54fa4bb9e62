//! How a line is drawn: cut to a length, with what was searched for picked out.

use crate::boundaries;
use crate::linehead;
use crate::linehead::{LineHead, Span};
use crate::outside;
use crate::search;
use crate::style;
use crate::style::Rgb;
use crate::text;
use regex::Regex;
use vstd::prelude::*;
use vstd::string::*;
use vstd::utf8::*;

verus! {

/// How many characters of a line are drawn at most.
pub const MAX_RENDER_CHARS: usize = 4000;

/// The last place between two characters at or before `i`.
pub open spec fn boundary_at_or_before(b: Seq<u8>, i: int) -> int
    decreases i,
{
    if i <= 0 {
        0
    } else if is_char_boundary(b, i) {
        i
    } else {
        boundary_at_or_before(b, i - 1)
    }
}

/// How many of the first `max` bytes of a text make up whole characters.
pub open spec fn whole_chars(b: Seq<u8>, max: int) -> int {
    if max >= b.len() {
        b.len() as int
    } else {
        boundary_at_or_before(b, max)
    }
}

/// The beginning of a text, no longer than `max` bytes and without a part of a character.
pub fn floor_char_boundary(s: &str, max: usize) -> (r: &str)
    ensures
        r.spec_bytes() == s.spec_bytes().take(whole_chars(s.spec_bytes(), max as int)),
        whole_chars(s.spec_bytes(), max as int) <= s.spec_bytes().len(),
        is_char_boundary(s.spec_bytes(), whole_chars(s.spec_bytes(), max as int)),
{
    let ghost b = s.spec_bytes();
    proof {
        encode_utf8_valid_utf8(s@);
        is_char_boundary_start_end_of_seq(b);
    }
    if max >= s.as_bytes().len() {
        assert(b.take(b.len() as int) =~= b);
        return s;
    }
    let mut i: usize = max;
    while i > 0 && !s.is_char_boundary(i)
        invariant
            b == s.spec_bytes(),
            i <= max < b.len(),
            boundary_at_or_before(b, max as int) == boundary_at_or_before(b, i as int),
        decreases i,
    {
        i -= 1;
    }
    let (front, _) = s.split_at(i);
    assert(front.spec_bytes() =~= b.take(i as int));
    front
}

/// The first `max` characters of a text, or all of it.
pub open spec fn first_chars(t: Seq<char>, max: int) -> Seq<char> {
    if max < t.len() {
        t.take(max)
    } else {
        t
    }
}

/// One character further is one character more.
proof fn lemma_one_char_further(b: Seq<u8>, i: int)
    requires
        valid_utf8(b),
        0 <= i < b.len(),
        is_char_boundary(b, i),
    ensures
        ({
            let rest = b.subrange(i, b.len() as int);
            let j = i + length_of_first_scalar(rest);
            &&& valid_first_scalar(rest)
            &&& rest[0] == b[i]
            &&& i < j <= b.len()
            &&& is_char_boundary(b, j)
            &&& decode_utf8(b.subrange(0, j)).len() == decode_utf8(b.subrange(0, i)).len() + 1
        }),
{
    valid_utf8_split(b, i);
    let rest = b.subrange(i, b.len() as int);
    let n = length_of_first_scalar(rest);
    let j = i + n;
    reveal_with_fuel(is_char_boundary, 2);
    is_char_boundary_start_end_of_seq(pop_first_scalar(rest));
    assert(is_char_boundary(rest, n));
    boundaries::lemma_boundary_in_rest(b, i, n);
    boundaries::lemma_boundary_in_front(b, j, i);
    let front = b.subrange(0, j);
    assert(front =~= b.take(j));
    decode_utf8_split(front, i);
    assert(front.subrange(0, i) =~= b.subrange(0, i));
    let one = front.subrange(i, front.len() as int);
    assert(one =~= take_first_scalar(rest));
    reveal_with_fuel(valid_utf8, 2);
    assert(valid_utf8(one));
    assert(pop_first_scalar(one) =~= Seq::empty());
    assert(decode_utf8(pop_first_scalar(one)).len() == 0);
    assert(decode_utf8(one).len() == 1);
}

/// How many bytes a character has, by its first one.
fn width_of(first: u8) -> (r: usize)
    ensures
        is_leading_byte_width_1(first) ==> r == 1,
        is_leading_byte_width_2(first) ==> r == 2,
        is_leading_byte_width_3(first) ==> r == 3,
        is_leading_byte_width_4(first) ==> r == 4,
{
    if first < 0x80 {
        1
    } else if first < 0xe0 {
        2
    } else if first < 0xf0 {
        3
    } else {
        4
    }
}

/// The beginning of a text, of no more than `max` characters.
pub fn take_chars(s: &str, max: usize) -> (r: &str)
    ensures
        r@ == first_chars(s@, max as int),
        r.spec_bytes() == s.spec_bytes().take(r.spec_bytes().len() as int),
        r.spec_bytes().len() <= s.spec_bytes().len(),
        is_char_boundary(s.spec_bytes(), r.spec_bytes().len() as int),
{
    let ghost b = s.spec_bytes();
    proof {
        encode_utf8_valid_utf8(s@);
        encode_utf8_decode_utf8(s@);
        is_char_boundary_start_end_of_seq(b);
        assert(decode_utf8(b.subrange(0, 0)) =~= Seq::empty());
    }
    let bytes = s.as_bytes();
    let mut i: usize = 0;
    let mut n: usize = 0;
    while n < max && i < bytes.len()
        invariant
            bytes@ == b,
            valid_utf8(b),
            i <= b.len(),
            is_char_boundary(b, i as int),
            n <= max,
            n == decode_utf8(b.subrange(0, i as int)).len(),
        decreases b.len() - i,
    {
        proof {
            lemma_one_char_further(b, i as int);
        }
        i += width_of(bytes[i]);
        n += 1;
    }
    let r = floor_char_boundary(s, i);
    proof {
        decode_utf8_split(b, i as int);
        assert(b.take(i as int) =~= b.subrange(0, i as int));
        encode_utf8_decode_utf8(r@);
        assert(r@ == decode_utf8(b.subrange(0, i as int)));
        assert(s@ == r@ + decode_utf8(b.subrange(i as int, b.len() as int)));
        assert(r@ =~= s@.take(n as int));
        if i == b.len() {
            assert(b.subrange(0, i as int) =~= b);
        } else {
            valid_utf8_split(b, i as int);
            assert(decode_utf8(b.subrange(i as int, b.len() as int)).len() > 0);
        }
    }
    r
}

/// The spans are in order, do not overlap, are not empty, and begin and end between two
/// characters.
pub open spec fn spans_fit(spans: Seq<Span>, b: Seq<u8>) -> bool {
    &&& forall|k: int|
        0 <= k < spans.len() ==> (#[trigger] spans[k]).start < spans[k].end && linehead::span_fits(
            spans[k],
            b,
        )
    &&& forall|j: int, k: int|
        0 <= j < k < spans.len() ==> (#[trigger] spans[j]).end <= (#[trigger] spans[k]).start
}

/// The bytes of a text, in lower case unless case counts.
pub open spec fn folded(b: Seq<u8>, case_sensitive: bool) -> Seq<u8> {
    if case_sensitive {
        b
    } else {
        search::lowered(b)
    }
}

/// Where `query` stands in a text.
pub open spec fn query_spans(b: Seq<u8>, query: Seq<u8>, case_sensitive: bool) -> Seq<Span> {
    if query.len() == 0 {
        Seq::empty()
    } else {
        outside::occurrences(folded(b, case_sensitive), folded(query, case_sensitive), 0).map_values(
            |p: usize| Span { start: p, end: (p + query.len()) as usize },
        )
    }
}

/// Those of the matches that are not empty.
pub open spec fn nonempty_spans(matches: Seq<(usize, usize)>) -> Seq<Span>
    decreases matches.len(),
{
    if matches.len() == 0 {
        Seq::empty()
    } else {
        let before = nonempty_spans(matches.drop_last());
        let (start, end) = matches.last();
        if start < end {
            before.push(Span { start, end })
        } else {
            before
        }
    }
}

fn keep_nonempty(matches: &Vec<(usize, usize)>, Ghost(b): Ghost<Seq<u8>>) -> (r: Vec<Span>)
    requires
        forall|k: int|
            0 <= k < matches@.len() ==> {
                &&& (#[trigger] matches@[k]).0 <= matches@[k].1 <= b.len()
                &&& is_char_boundary(b, matches@[k].0 as int)
                &&& is_char_boundary(b, matches@[k].1 as int)
            },
        forall|j: int, k: int|
            0 <= j < k < matches@.len() ==> (#[trigger] matches@[j]).1 <= (#[trigger] matches@[k]).0,
    ensures
        r@ == nonempty_spans(matches@),
        spans_fit(r@, b),
{
    let mut r: Vec<Span> = Vec::new();
    let mut i: usize = 0;
    assert(matches@.take(0) =~= Seq::empty());
    while i < matches.len()
        invariant
            i <= matches@.len(),
            r@ == nonempty_spans(matches@.take(i as int)),
            spans_fit(r@, b),
            forall|k: int|
                0 <= k < matches@.len() ==> {
                    &&& (#[trigger] matches@[k]).0 <= matches@[k].1 <= b.len()
                    &&& is_char_boundary(b, matches@[k].0 as int)
                    &&& is_char_boundary(b, matches@[k].1 as int)
                },
            forall|j: int, k: int|
                0 <= j < k < matches@.len() ==> (#[trigger] matches@[j]).1 <= (#[trigger] matches@[k]).0,
            r@.len() > 0 ==> i > 0 && r@.last().end <= matches@[i - 1].1,
        decreases matches@.len() - i,
    {
        let (start, end) = matches[i];
        let ghost before = r@;
        proof {
            assert(matches@.take(i + 1).drop_last() =~= matches@.take(i as int));
            assert(matches@.take(i + 1).last() == matches@[i as int]);
            assert(matches@[i as int].0 <= matches@[i as int].1);
        }
        if start < end {
            r.push(Span { start, end });
            proof {
                assert forall|j: int, k: int| 0 <= j < k < r@.len() implies (
                #[trigger] r@[j]).end <= (#[trigger] r@[k]).start by {
                    if k == before.len() {
                        if j < before.len() - 1 {
                            assert(before[j].end <= before[before.len() - 1].start);
                        }
                        assert(matches@[i - 1].1 <= matches@[i as int].0);
                    } else {
                        assert(before[j].end <= before[k].start);
                    }
                }
                assert forall|k: int| 0 <= k < r@.len() implies (#[trigger] r@[k]).start
                    < r@[k].end && linehead::span_fits(r@[k], b) by {
                    if k < before.len() {
                        assert(before[k].start < before[k].end);
                    }
                }
            }
        } else {
            proof {
                if r@.len() > 0 {
                    assert(matches@[i - 1].1 <= matches@[i as int].0);
                }
            }
        }
        i += 1;
    }
    assert(matches@.take(i as int) =~= matches@);
    r
}

proof fn lemma_query_spans_fit(b: Seq<u8>, query: Seq<u8>, case_sensitive: bool)
    requires
        valid_utf8(b),
        valid_utf8(query),
        b.len() <= usize::MAX,
    ensures
        spans_fit(query_spans(b, query, case_sensitive), b),
{
    if query.len() > 0 {
        let hay = folded(b, case_sensitive);
        let needle = folded(query, case_sensitive);
        let hits = outside::occurrences(hay, needle, 0);
        let spans = query_spans(b, query, case_sensitive);
        let m = query.len() as int;
        search::lemma_occurrences(hay, needle, 0);
        lemma_hits_apart(hay, needle, 0);
        assert forall|k: int| 0 <= k < spans.len() implies (#[trigger] spans[k]).start
            < spans[k].end && linehead::span_fits(spans[k], b) by {
            let p = hits[k] as int;
            let here = b.subrange(p, p + m);
            assert(hay.subrange(p, p + m) == needle);
            if case_sensitive {
                assert(here == query);
            } else {
                assert(search::lowered(here) =~= hay.subrange(p, p + m));
            }
            boundaries::lemma_place_between(b, query, p);
        }
        assert forall|j: int, k: int| 0 <= j < k < spans.len() implies (
        #[trigger] spans[j]).end <= (#[trigger] spans[k]).start by {
            assert(hits[j] + m <= hits[k]);
        }
    }
}

/// Two occurrences do not overlap.
pub proof fn lemma_hits_apart(hay: Seq<u8>, needle: Seq<u8>, from: int)
    requires
        0 <= from,
        hay.len() <= usize::MAX,
    ensures
        ({
            let hits = outside::occurrences(hay, needle, from);
            forall|j: int, k: int|
                0 <= j < k < hits.len() ==> (#[trigger] hits[j]) + needle.len() <= (#[trigger] hits[k])
        }),
    decreases hay.len() + 1 - from,
{
    let hits = outside::occurrences(hay, needle, from);
    if from + needle.len() <= hay.len() {
        if outside::occurs_at(hay, needle, from) {
            let step: int = if needle.len() == 0 {
                1
            } else {
                needle.len() as int
            };
            let rest = outside::occurrences(hay, needle, from + step);
            lemma_hits_apart(hay, needle, from + step);
            search::lemma_occurrences(hay, needle, from + step);
            assert forall|j: int, k: int| 0 <= j < k < hits.len() implies (#[trigger] hits[j])
                + needle.len() <= (#[trigger] hits[k]) by {
                assert(hits[k] == rest[k - 1]);
                if j > 0 {
                    assert(hits[j] == rest[j - 1]);
                } else {
                    assert(from + step <= rest[k - 1]);
                }
            }
        } else {
            lemma_hits_apart(hay, needle, from + 1);
            assert(hits == outside::occurrences(hay, needle, from + 1));
        }
    } else {
        assert(hits.len() == 0);
    }
}

/// What is picked out in a text: the matches of a regular expression, or where the query
/// stands.
pub open spec fn highlights(
    shown: Seq<char>,
    query: Seq<char>,
    case_sensitive: bool,
    pattern: Option<Seq<char>>,
) -> Seq<Span> {
    match pattern {
        Some(p) => nonempty_spans(outside::pattern_spans(p, shown)),
        None => query_spans(encode_utf8(shown), encode_utf8(query), case_sensitive),
    }
}

/// The bytes of a text that were searched for, in order and without overlap.
pub fn match_ranges(shown: &str, query: &str, case_sensitive: bool, regex: Option<&Regex>) -> (r:
    Vec<Span>)
    ensures
        r@ == highlights(
            shown@,
            query@,
            case_sensitive,
            match regex {
                Some(re) => Some(outside::pattern_of(*re)),
                None => None,
            },
        ),
        spans_fit(r@, shown.spec_bytes()),
{
    proof {
        encode_utf8_valid_utf8(shown@);
        encode_utf8_valid_utf8(query@);
    }
    if let Some(re) = regex {
        let matches = outside::regex_spans(re, shown);
        return keep_nonempty(&matches, Ghost(shown.spec_bytes()));
    }
    let b: &[u8] = shown.as_bytes();
    let q: &[u8] = query.as_bytes();
    assert(b.len() == b@.len());
    proof {
        lemma_query_spans_fit(b@, q@, case_sensitive);
    }
    let mut r: Vec<Span> = Vec::new();
    if q.len() == 0 {
        return r;
    }
    let hay: Vec<u8> = if case_sensitive {
        vstd::slice::slice_to_vec(b)
    } else {
        search::to_lower(b)
    };
    let needle: Vec<u8> = if case_sensitive {
        vstd::slice::slice_to_vec(q)
    } else {
        search::to_lower(q)
    };
    let m: usize = q.len();
    let finder = outside::finder_for(needle.as_slice());
    let mut search = outside::search_with(&finder, hay.as_slice());
    let ghost hits = outside::occurrences(hay@, needle@, 0);
    let ghost all = query_spans(b@, q@, case_sensitive);
    let mut more: bool = true;
    proof {
        assert(hits.skip(0) =~= hits);
        search::lemma_occurrences(hay@, needle@, 0);
    }
    while more
        invariant
            m == needle@.len(),
            hay@.len() == b.len(),
            all == hits.map_values(|p: usize| Span { start: p, end: (p + m) as usize }),
            forall|k: int| 0 <= k < hits.len() ==> #[trigger] hits[k] + m <= hay@.len(),
            r@.len() <= hits.len(),
            r@ == all.take(r@.len() as int),
            outside::hits_to_come(search) == hits.skip(r@.len() as int),
            !more ==> r@.len() == hits.len(),
        decreases hits.len() - r@.len(), (if more { 1int } else { 0 }),
    {
        let ghost n = r@.len() as int;
        match outside::next_hit(&mut search) {
            Some(p) => {
                assert(hits.skip(n).len() == hits.len() - n);
                assert(p == hits[n]);
                assert(hits.skip(n).drop_first() =~= hits.skip(n + 1));
                r.push(Span { start: p, end: p + m });
                assert(r@ =~= all.take(n + 1));
            },
            None => {
                assert(hits.skip(n).len() == hits.len() - n);
                more = false;
            },
        }
    }
    assert(r@ =~= all);
    r
}

/// A piece of a line in one colour.
#[derive(Clone, Copy, Debug, PartialEq, Eq, Structural)]
pub struct Section {
    pub start: usize,
    pub end: usize,
    pub color: Rgb,
    pub background: Option<Rgb>,
}

/// The date and the time together, with what stands between them.
pub open spec fn stamp_of(head: LineHead) -> Option<Span> {
    match (head.date, head.time) {
        (Some(d), Some(t)) => Some(Span { start: d.start, end: t.end }),
        (Some(d), None) => Some(d),
        (None, Some(t)) => Some(t),
        (None, None) => None,
    }
}

/// One of the spans holds `i`.
pub open spec fn in_spans(spans: Seq<Span>, i: int) -> bool {
    exists|k: int| 0 <= k < spans.len() && (#[trigger] spans[k]).holds(i)
}

/// The colour and the background at position `i` of a line. A hit covers the timestamp, and
/// the timestamp the level.
pub open spec fn style_at(
    head: LineHead,
    spans: Seq<Span>,
    base: Rgb,
    muted: Rgb,
    dark: bool,
    i: int,
) -> (Rgb, Option<Rgb>) {
    let of_level: (Rgb, Option<Rgb>) = match head.level {
        Some(found) => if found.0.holds(i) {
            (style::level_style(found.1, dark).fg, style::level_style(found.1, dark).bg)
        } else {
            (base, None)
        },
        None => (base, None),
    };
    if in_spans(spans, i) {
        (style::hit_fg(dark), Some(style::hit_bg(dark)))
    } else {
        match stamp_of(head) {
            Some(s) => if s.holds(i) {
                (muted, of_level.1)
            } else {
                of_level
            },
            None => of_level,
        }
    }
}

/// A line of `len` bytes is cut at the ends of a span that lies in it.
pub open spec fn cut_by(span: Span, len: int, c: int) -> bool {
    span.start <= span.end <= len && (c == span.start || c == span.end)
}

/// A line of `len` bytes is cut at `c`: at its beginning or its end, or where something that
/// has a colour of its own begins or ends.
pub open spec fn is_cut(head: LineHead, spans: Seq<Span>, len: int, c: int) -> bool {
    ||| c == 0
    ||| c == len
    ||| stamp_of(head) matches Some(s) && cut_by(s, len, c)
    ||| head.level matches Some(found) && cut_by(found.0, len, c)
    ||| cut_by_one(spans, len, c)
}

/// A line of `len` bytes is cut at the ends of one of the spans.
pub open spec fn cut_by_one(spans: Seq<Span>, len: int, c: int) -> bool {
    exists|k: int| 0 <= k < spans.len() && cut_by(#[trigger] spans[k], len, c)
}

/// The numbers are in ascending order.
pub open spec fn sorted(s: Seq<usize>) -> bool {
    forall|j: int, k: int| 0 <= j < k < s.len() ==> s[j] < s[k]
}

/// Adds a cut at its place, unless it is there.
fn add_cut(cuts: &mut Vec<usize>, c: usize)
    requires
        sorted(old(cuts)@),
    ensures
        sorted(final(cuts)@),
        forall|x: usize| #[trigger] final(cuts)@.contains(x) <==> (old(cuts)@.contains(x) || x == c),
{
    let ghost before = cuts@;
    let mut i: usize = cuts.len();
    while i > 0 && cuts[i - 1] > c
        invariant
            cuts@ == before,
            i <= cuts@.len(),
            forall|k: int| i <= k < cuts@.len() ==> cuts@[k] > c,
        decreases i,
    {
        i -= 1;
    }
    if i > 0 && cuts[i - 1] == c {
        assert(before[i - 1] == c);
        return;
    }
    cuts.insert(i, c);
    proof {
        let after = cuts@;
        assert(after[i as int] == c);
        assert forall|x: usize| after.contains(x) <==> before.contains(x) || x == c by {
            if before.contains(x) {
                let k = choose|k: int| 0 <= k < before.len() && before[k] == x;
                if k < i {
                    assert(after[k] == x);
                } else {
                    assert(after[k + 1] == x);
                }
            }
            if after.contains(x) && x != c {
                let k = choose|k: int| 0 <= k < after.len() && after[k] == x;
                if k < i {
                    assert(before[k] == x);
                } else {
                    assert(before[k - 1] == x);
                }
            }
        }
        assert forall|j: int, k: int| 0 <= j < k < after.len() implies after[j] < after[k] by {
            if k < i {
                assert(before[j] < before[k]);
            } else if k == i {
                if j < i - 1 {
                    assert(before[j] < before[i - 1]);
                }
            } else if j < i {
                assert(before[j] < before[k - 1]);
            } else if j == i {
                assert(before[k - 1] > c);
            } else {
                assert(before[j - 1] < before[k - 1]);
            }
        }
    }
}

fn add_span(cuts: &mut Vec<usize>, span: Span, len: usize)
    requires
        sorted(old(cuts)@),
    ensures
        sorted(final(cuts)@),
        forall|x: usize|
            #[trigger] final(cuts)@.contains(x) <==> (old(cuts)@.contains(x) || cut_by(
                span,
                len as int,
                x as int,
            )),
{
    if span.start <= span.end && span.end <= len {
        add_cut(cuts, span.start);
        add_cut(cuts, span.end);
    }
}

fn find_stamp(head: &LineHead) -> (r: Option<Span>)
    ensures
        r == stamp_of(*head),
{
    match (head.date, head.time) {
        (Some(d), Some(t)) => Some(Span { start: d.start, end: t.end }),
        (Some(d), None) => Some(d),
        (None, Some(t)) => Some(t),
        (None, None) => None,
    }
}

/// The places at which a line is cut, in order.
fn find_cuts(len: usize, head: &LineHead, spans: &[Span]) -> (cuts: Vec<usize>)
    ensures
        sorted(cuts@),
        forall|x: usize|
            #[trigger] cuts@.contains(x) <==> is_cut(*head, spans@, len as int, x as int),
{
    let mut cuts: Vec<usize> = Vec::new();
    add_cut(&mut cuts, 0);
    add_cut(&mut cuts, len);
    if let Some(s) = find_stamp(head) {
        add_span(&mut cuts, s, len);
    }
    if let Some(found) = head.level {
        add_span(&mut cuts, found.0, len);
    }
    let ghost of_head = cuts@;
    assert(forall|x: usize|
        #[trigger] of_head.contains(x) <==> is_cut(
            *head,
            Seq::empty(),
            len as int,
            x as int,
        ));
    let mut i: usize = 0;
    assert(spans@.take(0) =~= Seq::empty());
    while i < spans.len()
        invariant
            i <= spans@.len(),
            sorted(cuts@),
            forall|x: usize|
                #[trigger] cuts@.contains(x) <==> (of_head.contains(x) || cut_by_one(
                    spans@.take(i as int),
                    len as int,
                    x as int,
                )),
        decreases spans@.len() - i,
    {
        let ghost before = cuts@;
        add_span(&mut cuts, spans[i], len);
        proof {
            let seen = spans@.take(i as int);
            let now = spans@.take(i + 1);
            assert forall|x: usize|
                #[trigger] cuts@.contains(x) <==> (of_head.contains(x) || cut_by_one(
                    now,
                    len as int,
                    x as int,
                )) by {
                assert(before.contains(x) <==> (of_head.contains(x) || cut_by_one(
                    seen,
                    len as int,
                    x as int,
                )));
                assert(cuts@.contains(x) <==> (before.contains(x) || cut_by(
                    spans@[i as int],
                    len as int,
                    x as int,
                )));
                if cut_by(spans@[i as int], len as int, x as int) {
                    assert(cut_by(now[i as int], len as int, x as int));
                }
                if cut_by_one(seen, len as int, x as int) {
                    let k = choose|k: int|
                        0 <= k < seen.len() && cut_by(#[trigger] seen[k], len as int, x as int);
                    assert(cut_by(now[k], len as int, x as int));
                }
                if cut_by_one(now, len as int, x as int) {
                    let k = choose|k: int|
                        0 <= k < now.len() && cut_by(#[trigger] now[k], len as int, x as int);
                    if k < i {
                        assert(cut_by(seen[k], len as int, x as int));
                    }
                }
            }
        }
        i += 1;
    }
    assert(spans@.take(i as int) =~= spans@);
    cuts
}

/// Section `k` begins where the one before it ends.
pub open spec fn follows(sections: Seq<Section>, k: int) -> bool {
    sections[k].start == sections[k - 1].end
}

/// The sections of a line: they follow one another from its beginning to its end, a new one
/// begins at each cut and nowhere else, and each has the colours of its first byte. An empty
/// line has one empty section.
pub open spec fn sections_of(
    sections: Seq<Section>,
    len: int,
    head: LineHead,
    spans: Seq<Span>,
    base: Rgb,
    muted: Rgb,
    dark: bool,
) -> bool {
    if len == 0 {
        sections == seq![Section { start: 0, end: 0, color: base, background: None }]
    } else {
        &&& sections.len() > 0
        &&& sections[0].start == 0
        &&& sections.last().end == len
        &&& forall|k: int| 0 <= k < sections.len() ==> (#[trigger] sections[k]).start < sections[k].end
        &&& forall|k: int| 0 < k < sections.len() ==> #[trigger] follows(sections, k)
        &&& forall|k: int|
            0 <= k < sections.len() ==> is_cut(
                head,
                spans,
                len,
                (#[trigger] sections[k]).start as int,
            )
        &&& forall|c: int|
            0 <= c < len && #[trigger] is_cut(head, spans, len, c) ==> exists|k: int|
                0 <= k < sections.len() && (#[trigger] sections[k]).start == c
        &&& forall|k: int|
            0 <= k < sections.len() ==> ((#[trigger] sections[k]).color, sections[k].background)
                == style_at(head, spans, base, muted, dark, sections[k].start as int)
    }
}

fn style_of(
    head: &LineHead,
    hit: bool,
    base: Rgb,
    muted: Rgb,
    dark: bool,
    i: usize,
    Ghost(spans): Ghost<Seq<Span>>,
) -> (r: (Rgb, Option<Rgb>))
    requires
        hit == in_spans(spans, i as int),
    ensures
        r == style_at(*head, spans, base, muted, dark, i as int),
{
    if hit {
        let (fg, bg) = style::hit_colors(dark);
        return (fg, Some(bg));
    }
    let mut color: Rgb = base;
    let mut background: Option<Rgb> = None;
    if let Some(found) = head.level {
        if found.0.contains(i) {
            let st = found.1.style(dark);
            color = st.fg;
            background = st.bg;
        }
    }
    if let Some(s) = find_stamp(head) {
        if s.contains(i) {
            color = muted;
        }
    }
    (color, background)
}

/// Cuts a line of `len` bytes into sections. The hits are in order and do not overlap.
pub fn styled_sections(
    len: usize,
    head: &LineHead,
    spans: &[Span],
    base: Rgb,
    muted: Rgb,
    dark: bool,
) -> (r: Vec<Section>)
    requires
        forall|k: int| 0 <= k < spans@.len() ==> (#[trigger] spans@[k]).start < spans@[k].end,
        forall|j: int, k: int|
            0 <= j < k < spans@.len() ==> (#[trigger] spans@[j]).end <= (#[trigger] spans@[k]).start,
    ensures
        sections_of(r@, len as int, *head, spans@, base, muted, dark),
{
    let mut r: Vec<Section> = Vec::new();
    if len == 0 {
        r.push(Section { start: 0, end: 0, color: base, background: None });
        assert(r@ =~= seq![Section { start: 0, end: 0, color: base, background: None }]);
        return r;
    }
    let cuts = find_cuts(len, head, spans);
    proof {
        lemma_cuts_ends(cuts@, *head, spans@, len);
    }
    let mut hi: usize = 0;
    let mut w: usize = 0;
    while w < cuts.len() - 1
        invariant
            len > 0,
            sorted(cuts@),
            forall|x: usize| cuts@.contains(x) <==> is_cut(*head, spans@, len as int, x as int),
            cuts@.len() >= 2,
            cuts@[0] == 0,
            cuts@.last() == len,
            w <= cuts@.len() - 1,
            r@.len() == w,
            hi <= spans@.len(),
            forall|k: int| 0 <= k < spans@.len() ==> (#[trigger] spans@[k]).start < spans@[k].end,
            forall|j: int, k: int|
                0 <= j < k < spans@.len() ==> (#[trigger] spans@[j]).end <= (
                #[trigger] spans@[k]).start,
            forall|k: int| 0 <= k < hi ==> (#[trigger] spans@[k]).end <= cuts@[w as int],
            forall|k: int|
                0 <= k < w ==> (#[trigger] r@[k]).start == cuts@[k] && r@[k].end == cuts@[k + 1]
                    && (r@[k].color, r@[k].background) == style_at(
                    *head,
                    spans@,
                    base,
                    muted,
                    dark,
                    r@[k].start as int,
                ),
        decreases cuts@.len() - w,
    {
        let s: usize = cuts[w];
        let e: usize = cuts[w + 1];
        while hi < spans.len() && spans[hi].end <= s
            invariant
                hi <= spans@.len(),
                forall|k: int| 0 <= k < hi ==> (#[trigger] spans@[k]).end <= s,
            decreases spans@.len() - hi,
        {
            hi += 1;
        }
        let hit: bool = hi < spans.len() && spans[hi].start <= s;
        proof {
            if hit {
                assert(spans@[hi as int].holds(s as int));
            } else if in_spans(spans@, s as int) {
                let k = choose|k: int| 0 <= k < spans@.len() && (#[trigger] spans@[k]).holds(
                    s as int,
                );
                if k < hi {
                    assert(spans@[k].end <= s);
                } else if k > hi {
                    assert(spans@[hi as int].end <= spans@[k].start);
                }
            }
            assert(cuts@[w as int] < cuts@[w + 1]);
        }
        let (color, background) = style_of(head, hit, base, muted, dark, s, Ghost(spans@));
        r.push(Section { start: s, end: e, color, background });
        w += 1;
    }
    proof {
        lemma_sections_from_cuts(r@, cuts@, len as int, *head, spans@, base, muted, dark);
    }
    r
}

proof fn lemma_cuts_ends(cuts: Seq<usize>, head: LineHead, spans: Seq<Span>, len: usize)
    requires
        len > 0,
        sorted(cuts),
        forall|x: usize| cuts.contains(x) <==> is_cut(head, spans, len as int, x as int),
    ensures
        cuts.len() >= 2,
        cuts[0] == 0,
        cuts.last() == len,
{
    assert(cuts.contains(0));
    assert(cuts.contains(len));
    let a = choose|k: int| 0 <= k < cuts.len() && cuts[k] == 0;
    let b = choose|k: int| 0 <= k < cuts.len() && cuts[k] == len;
    if a > 0 {
        assert(cuts[0] < cuts[a]);
    }
    if b < cuts.len() - 1 {
        assert(cuts[b] < cuts[cuts.len() - 1]);
        let last = cuts[cuts.len() - 1];
        assert(cuts.contains(last));
        assert(is_cut(head, spans, len as int, last as int));
    }
}

proof fn lemma_sections_from_cuts(
    sections: Seq<Section>,
    cuts: Seq<usize>,
    len: int,
    head: LineHead,
    spans: Seq<Span>,
    base: Rgb,
    muted: Rgb,
    dark: bool,
)
    requires
        0 < len <= usize::MAX,
        sorted(cuts),
        forall|x: usize| cuts.contains(x) <==> is_cut(head, spans, len, x as int),
        cuts.len() >= 2,
        cuts[0] == 0,
        cuts.last() == len,
        sections.len() == cuts.len() - 1,
        forall|k: int|
            0 <= k < sections.len() ==> (#[trigger] sections[k]).start == cuts[k]
                && sections[k].end == cuts[k + 1] && (sections[k].color, sections[k].background)
                == style_at(head, spans, base, muted, dark, sections[k].start as int),
    ensures
        sections_of(sections, len, head, spans, base, muted, dark),
{
    assert forall|k: int| 0 <= k < sections.len() implies (#[trigger] sections[k]).start
        < sections[k].end && is_cut(head, spans, len, sections[k].start as int) by {
        assert(cuts[k] < cuts[k + 1]);
        assert(cuts.contains(cuts[k]));
    }
    assert forall|c: int| 0 <= c < len && #[trigger] is_cut(head, spans, len, c) implies exists|
        k: int,
    | 0 <= k < sections.len() && (#[trigger] sections[k]).start == c by {
        assert(cuts.contains(c as usize));
        let k = choose|k: int| 0 <= k < cuts.len() && cuts[k] == c as usize;
        assert(k < sections.len());
        assert(sections[k].start == c);
    }
}

/// Two sections do not share a byte, and together they hold every byte of the line once.
pub proof fn law_sections_cover_the_line(
    sections: Seq<Section>,
    len: int,
    head: LineHead,
    spans: Seq<Span>,
    base: Rgb,
    muted: Rgb,
    dark: bool,
    i: int,
)
    requires
        sections_of(sections, len, head, spans, base, muted, dark),
        0 <= i < len,
    ensures
        exists|k: int|
            0 <= k < sections.len() && (#[trigger] sections[k]).start <= i < sections[k].end,
        forall|j: int, k: int|
            0 <= j < sections.len() && 0 <= k < sections.len() && (#[trigger] sections[j]).start
                <= i < sections[j].end && (#[trigger] sections[k]).start <= i < sections[k].end
                ==> j == k,
{
    lemma_section_holding(sections, i, sections.len() as int);
    assert forall|j: int, k: int|
        0 <= j < sections.len() && 0 <= k < sections.len() && (#[trigger] sections[j]).start <= i
            < sections[j].end && (#[trigger] sections[k]).start <= i
            < sections[k].end implies j == k by {
        if j < k {
            lemma_sections_ascend(sections, j, k);
        } else if k < j {
            lemma_sections_ascend(sections, k, j);
        }
    }
}

proof fn lemma_section_holding(sections: Seq<Section>, i: int, n: int)
    requires
        0 < n <= sections.len(),
        sections[0].start <= i < sections[n - 1].end,
        forall|k: int| 0 < k < sections.len() ==> #[trigger] follows(sections, k),
    ensures
        exists|k: int| 0 <= k < n && (#[trigger] sections[k]).start <= i < sections[k].end,
    decreases n,
{
    if sections[n - 1].start > i {
        assert(follows(sections, n - 1));
        lemma_section_holding(sections, i, n - 1);
        let k = choose|k: int|
            0 <= k < n - 1 && (#[trigger] sections[k]).start <= i < sections[k].end;
        assert(sections[k].start <= i);
    }
}

proof fn lemma_sections_ascend(sections: Seq<Section>, j: int, k: int)
    requires
        0 <= j < k < sections.len(),
        forall|k: int| 0 <= k < sections.len() ==> (#[trigger] sections[k]).start < sections[k].end,
        forall|k: int| 0 < k < sections.len() ==> #[trigger] follows(sections, k),
    ensures
        sections[j].end <= sections[k].start,
    decreases k - j,
{
    assert(follows(sections, k));
    if j < k - 1 {
        lemma_sections_ascend(sections, j, k - 1);
        assert(sections[k - 1].start < sections[k - 1].end);
    }
}

/// No section is cut in its middle.
pub proof fn lemma_no_cut_inside(
    sections: Seq<Section>,
    len: int,
    head: LineHead,
    spans: Seq<Span>,
    base: Rgb,
    muted: Rgb,
    dark: bool,
    k: int,
    c: int,
)
    requires
        sections_of(sections, len, head, spans, base, muted, dark),
        len > 0,
        0 <= k < sections.len(),
        sections[k].start < c < sections[k].end,
    ensures
        !is_cut(head, spans, len, c),
{
    if k < sections.len() - 1 {
        lemma_sections_ascend(sections, k, sections.len() - 1);
        assert(sections[sections.len() - 1].start < sections[sections.len() - 1].end);
    }
    if is_cut(head, spans, len, c) {
        let j = choose|j: int| 0 <= j < sections.len() && (#[trigger] sections[j]).start == c;
        if j < k {
            lemma_sections_ascend(sections, j, k);
            assert(sections[j].start < sections[j].end);
        } else if j > k {
            lemma_sections_ascend(sections, k, j);
        }
    }
}

/// Every byte of a section has the colours of the section, if all that was found in the line
/// lies in it.
pub proof fn law_sections_have_one_style(
    sections: Seq<Section>,
    len: int,
    head: LineHead,
    spans: Seq<Span>,
    base: Rgb,
    muted: Rgb,
    dark: bool,
    k: int,
    i: int,
)
    requires
        sections_of(sections, len, head, spans, base, muted, dark),
        len > 0,
        stamp_of(head) matches Some(s) ==> s.start <= s.end <= len,
        head.level matches Some(found) ==> found.0.start <= found.0.end <= len,
        forall|j: int| 0 <= j < spans.len() ==> (#[trigger] spans[j]).start <= spans[j].end <= len,
        0 <= k < sections.len(),
        sections[k].start <= i < sections[k].end,
    ensures
        (sections[k].color, sections[k].background) == style_at(
            head,
            spans,
            base,
            muted,
            dark,
            i,
        ),
{
    let a = sections[k].start as int;
    if stamp_of(head) is Some {
        let s = stamp_of(head)->0;
        if s.holds(a) != s.holds(i) {
            if a < s.start {
                lemma_no_cut_inside(sections, len, head, spans, base, muted, dark, k, s.start as int);
            } else {
                lemma_no_cut_inside(sections, len, head, spans, base, muted, dark, k, s.end as int);
            }
        }
    }
    if head.level is Some {
        let s = (head.level->0).0;
        if s.holds(a) != s.holds(i) {
            if a < s.start {
                lemma_no_cut_inside(sections, len, head, spans, base, muted, dark, k, s.start as int);
            } else {
                lemma_no_cut_inside(sections, len, head, spans, base, muted, dark, k, s.end as int);
            }
        }
    }
    assert forall|j: int| 0 <= j < spans.len() implies (#[trigger] spans[j]).holds(a)
        == spans[j].holds(i) by {
        let s = spans[j];
        if s.holds(a) != s.holds(i) {
            let c: int = if a < s.start {
                s.start as int
            } else {
                s.end as int
            };
            assert(cut_by(spans[j], len, c));
            lemma_no_cut_inside(sections, len, head, spans, base, muted, dark, k, c);
        }
    }
    if in_spans(spans, a) {
        let j = choose|j: int| 0 <= j < spans.len() && (#[trigger] spans[j]).holds(a);
        assert(spans[j].holds(i));
    }
    if in_spans(spans, i) {
        let j = choose|j: int| 0 <= j < spans.len() && (#[trigger] spans[j]).holds(i);
        assert(spans[j].holds(a));
    }
}

/// Lays out a line: the part that is shown, and its sections. None of them begins or ends in
/// the middle of a character.
pub fn layout_line<'a>(
    line: &'a str,
    head: &LineHead,
    query: &str,
    case_sensitive: bool,
    regex: Option<&Regex>,
    base: Rgb,
    dark: bool,
) -> (r: (&'a str, Vec<Section>))
    requires
        *head == linehead::line_head(line.spec_bytes()),
    ensures
        r.0@ == first_chars(line@, MAX_RENDER_CHARS as int),
        sections_of(
            r.1@,
            r.0.spec_bytes().len() as int,
            *head,
            highlights(
                r.0@,
                query@,
                case_sensitive,
                match regex {
                    Some(re) => Some(outside::pattern_of(*re)),
                    None => None,
                },
            ),
            base,
            style::muted(dark),
            dark,
        ),
        forall|k: int|
            0 <= k < r.1@.len() ==> {
                &&& (#[trigger] r.1@[k]).end <= r.0.spec_bytes().len()
                &&& is_char_boundary(r.0.spec_bytes(), r.1@[k].start as int)
                &&& is_char_boundary(r.0.spec_bytes(), r.1@[k].end as int)
            },
{
    let shown = take_chars(line, MAX_RENDER_CHARS);
    let spans = match_ranges(shown, query, case_sensitive, regex);
    let muted = style::muted_text(dark);
    let len: usize = shown.as_bytes().len();
    let whole: usize = line.as_bytes().len();
    let sections = styled_sections(len, head, spans.as_slice(), base, muted, dark);
    proof {
        let full = line.spec_bytes();
        assert(full.len() == whole);
        let b = shown.spec_bytes();
        encode_utf8_valid_utf8(line@);
        encode_utf8_valid_utf8(shown@);
        linehead::law_head_in_place(full);
        is_char_boundary_start_end_of_seq(b);
        assert forall|c: int| 0 <= c <= len && #[trigger] is_cut(
            *head,
            spans@,
            len as int,
            c,
        ) implies is_char_boundary(b, c) by {
            if c != 0 && c != len {
                if cut_by_one(spans@, len as int, c) {
                    let k = choose|k: int|
                        0 <= k < spans@.len() && cut_by(#[trigger] spans@[k], len as int, c);
                    assert(linehead::span_fits(spans@[k], b));
                } else {
                    boundaries::lemma_boundary_in_front(full, len as int, c);
                }
            }
        }
        lemma_sections_between(sections@, len as int, *head, spans@, base, muted, dark, b);
    }
    (shown, sections)
}

proof fn lemma_sections_between(
    sections: Seq<Section>,
    len: int,
    head: LineHead,
    spans: Seq<Span>,
    base: Rgb,
    muted: Rgb,
    dark: bool,
    b: Seq<u8>,
)
    requires
        sections_of(sections, len, head, spans, base, muted, dark),
        b.len() == len,
        forall|c: int|
            0 <= c <= len && #[trigger] is_cut(head, spans, len, c) ==> is_char_boundary(b, c),
    ensures
        forall|k: int|
            0 <= k < sections.len() ==> {
                &&& (#[trigger] sections[k]).end <= len
                &&& is_char_boundary(b, sections[k].start as int)
                &&& is_char_boundary(b, sections[k].end as int)
            },
{
    assert(is_cut(head, spans, len, 0));
    assert(is_cut(head, spans, len, len));
    if len > 0 {
        assert forall|k: int| 0 <= k < sections.len() implies {
            &&& (#[trigger] sections[k]).end <= len
            &&& is_char_boundary(b, sections[k].start as int)
            &&& is_char_boundary(b, sections[k].end as int)
        } by {
            if k < sections.len() - 1 {
                lemma_sections_ascend(sections, k, sections.len() - 1);
                assert(sections[sections.len() - 1].start < sections[sections.len() - 1].end);
                assert(follows(sections, k + 1));
            }
            assert(sections[k].start < sections[k].end);
            assert(is_cut(head, spans, len, sections[k].start as int));
        }
    }
}

/// A character that does not belong to a word: white space, a bracket, a quote, or one of
/// `, ; : = | / \`.
pub open spec fn parts_text(c: char) -> bool {
    text::white_space(c) || c == '[' || c == ']' || c == '(' || c == ')' || c == '{' || c == '}' || c
        == '<' || c == '>' || c == ',' || c == ';' || c == ':' || c == '\'' || c == '"' || c == '='
        || c == '|' || c == '/' || c == '\\'
}

fn is_parting(c: char) -> (r: bool)
    ensures
        r == parts_text(c),
{
    text::is_white_space(c) || c == '[' || c == ']' || c == '(' || c == ')' || c == '{' || c == '}'
        || c == '<' || c == '>' || c == ',' || c == ';' || c == ':' || c == '\'' || c == '"' || c
        == '=' || c == '|' || c == '/' || c == '\\'
}

/// Where the word that reaches to `i` begins.
pub open spec fn word_begin(s: Seq<char>, i: int) -> int
    decreases i,
{
    if 0 < i <= s.len() && !parts_text(s[i - 1]) {
        word_begin(s, i - 1)
    } else {
        i
    }
}

/// Where the word that goes on at `i` ends.
pub open spec fn word_end(s: Seq<char>, i: int) -> int
    decreases s.len() - i,
{
    if 0 <= i < s.len() && !parts_text(s[i]) {
        word_end(s, i + 1)
    } else {
        i
    }
}

/// The word around position `i`.
pub open spec fn word_around(s: Seq<char>, i: int) -> Option<Seq<char>> {
    let a = word_begin(s, i);
    let b = word_end(s, i);
    if a < b {
        Some(s.subrange(a, b))
    } else {
        None
    }
}

/// The word around the character at `index`, or before it. A run of Chinese characters is one
/// word.
pub fn word_at(line: &str, index: usize) -> (r: Option<String>)
    ensures
        match r {
            Some(w) => word_around(
                line@,
                if index < line@.len() {
                    index as int
                } else {
                    line@.len() as int
                },
            ) == Some(w@),
            None => word_around(
                line@,
                if index < line@.len() {
                    index as int
                } else {
                    line@.len() as int
                },
            ) is None,
        },
{
    let chars = text::chars_of(line);
    let n: usize = chars.len();
    let i: usize = if index < n {
        index
    } else {
        n
    };
    let mut a: usize = i;
    while a > 0 && !is_parting(chars[a - 1])
        invariant
            a <= i <= n == chars@.len(),
            word_begin(chars@, i as int) == word_begin(chars@, a as int),
        decreases a,
    {
        a -= 1;
    }
    let mut b: usize = i;
    while b < n && !is_parting(chars[b])
        invariant
            i <= b <= n == chars@.len(),
            word_end(chars@, i as int) == word_end(chars@, b as int),
        decreases n - b,
    {
        b += 1;
    }
    if a >= b {
        return None;
    }
    Some(text::string_of(chars.as_slice(), a, b))
}

proof fn lemma_word_begin(s: Seq<char>, i: int)
    requires
        0 <= i <= s.len(),
    ensures
        0 <= word_begin(s, i) <= i,
        forall|k: int| word_begin(s, i) <= k < i ==> !parts_text(#[trigger] s[k]),
        word_begin(s, i) > 0 ==> parts_text(s[word_begin(s, i) - 1]),
    decreases i,
{
    if 0 < i && !parts_text(s[i - 1]) {
        lemma_word_begin(s, i - 1);
    }
}

proof fn lemma_word_end(s: Seq<char>, i: int)
    requires
        0 <= i <= s.len(),
    ensures
        i <= word_end(s, i) <= s.len(),
        forall|k: int| i <= k < word_end(s, i) ==> !parts_text(#[trigger] s[k]),
        word_end(s, i) < s.len() ==> parts_text(s[word_end(s, i)]),
    decreases s.len() - i,
{
    if i < s.len() && !parts_text(s[i]) {
        lemma_word_end(s, i + 1);
    }
}

/// `w` is the whole word that stands in `s` from `a` up to `b`: no part of it parts words, and
/// on both sides it ends where words are parted.
pub open spec fn whole_word(s: Seq<char>, a: int, b: int, w: Seq<char>) -> bool {
    &&& 0 <= a < b <= s.len()
    &&& w == s.subrange(a, b)
    &&& forall|k: int| a <= k < b ==> !parts_text(#[trigger] s[k])
    &&& a > 0 ==> parts_text(s[a - 1])
    &&& b < s.len() ==> parts_text(s[b])
}

/// A click in a word, or at either end of it, picks the whole word and nothing else. Nothing is
/// picked only where there is no word on either side.
pub proof fn law_word_is_whole(s: Seq<char>, i: int)
    requires
        0 <= i <= s.len(),
    ensures
        word_around(s, i) is Some ==> exists|a: int, b: int|
            a <= i <= b && #[trigger] whole_word(s, a, b, word_around(s, i)->0),
        word_around(s, i) is None <==> (i > 0 ==> parts_text(s[i - 1])) && (i < s.len()
            ==> parts_text(s[i])),
{
    lemma_word_begin(s, i);
    lemma_word_end(s, i);
    let a = word_begin(s, i);
    let b = word_end(s, i);
    if a < b {
        assert(whole_word(s, a, b, word_around(s, i)->0));
    }
}

} // verus!
