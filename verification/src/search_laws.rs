//! What a search finds, line by line.

use crate::encoding;
use crate::encoding::Encoding;
use crate::lines;
use crate::lines::LF;
use crate::outside;
use crate::search;
use vstd::prelude::*;

verus! {

/// One position for each line from `i` on for which `pick` gives one. A line is given by where
/// it starts and by where its line feed, or the end of the file, stands.
pub open spec fn per_line(
    data: Seq<u8>,
    i: int,
    limit: int,
    pick: spec_fn(int, int) -> Option<usize>,
) -> Seq<usize>
    decreases limit + 1 - i,
{
    let e = lines::line_end(data, i, limit);
    if i <= e <= limit && i < limit {
        one(pick(i, e)) + per_line(data, e + 1, limit, pick)
    } else {
        Seq::empty()
    }
}

/// The position, if there is one.
pub open spec fn one(p: Option<usize>) -> Seq<usize> {
    match p {
        Some(x) => seq![x],
        None => Seq::empty(),
    }
}

/// Where `pattern` first stands in a line.
pub open spec fn first_in_line(data: Seq<u8>, pattern: Seq<u8>) -> spec_fn(int, int) -> Option<
    usize,
> {
    |i: int, e: int|
        {
            let hits = outside::occurrences(data.subrange(i, e), pattern, 0);
            if hits.len() > 0 {
                Some((i + hits[0]) as usize)
            } else {
                None
            }
        }
}

/// The start of a line whose text `pattern` matches.
pub open spec fn start_if_matching(
    data: Seq<u8>,
    pattern: Seq<char>,
    enc: Encoding,
) -> spec_fn(int, int) -> Option<usize> {
    |i: int, e: int|
        if outside::pattern_matches(
            pattern,
            encoding::text_of(lines::without_eol(data.subrange(i, e)), enc),
        ) {
            Some(i as usize)
        } else {
            None
        }
}

/// How often `pattern` stands in the lines from `i` on.
pub open spec fn count_in_lines(data: Seq<u8>, i: int, limit: int, pattern: Seq<u8>) -> nat
    decreases limit + 1 - i,
{
    let e = lines::line_end(data, i, limit);
    if i <= e <= limit && i < limit {
        outside::occurrences(data.subrange(i, e), pattern, 0).len() + count_in_lines(
            data,
            e + 1,
            limit,
            pattern,
        )
    } else {
        0
    }
}

/// A pattern that can stand in a line: it is not empty and holds no line feed.
pub open spec fn fits_in_line(pattern: Seq<u8>) -> bool {
    pattern.len() > 0 && forall|j: int| 0 <= j < pattern.len() ==> #[trigger] pattern[j] != LF
}

/// `hits`, each moved on by `by`.
pub open spec fn moved(hits: Seq<usize>, by: int) -> Seq<usize> {
    Seq::new(hits.len(), |k: int| (hits[k] + by) as usize)
}

/// The search with a regular expression lists the start of each line whose text it matches.
pub proof fn law_regex_search_by_line(
    data: Seq<u8>,
    i: int,
    limit: int,
    pattern: Seq<char>,
    e: Encoding,
)
    ensures
        search::matching_starts(data, i, limit, pattern, e) == per_line(
            data,
            i,
            limit,
            start_if_matching(data, pattern, e),
        ),
    decreases limit + 1 - i,
{
    let end = lines::line_end(data, i, limit);
    if i <= end <= limit && i < limit {
        law_regex_search_by_line(data, end + 1, limit, pattern, e);
    }
}

/// Lower case leaves the line feeds where they are.
pub proof fn lemma_lowered_lines(data: Seq<u8>, i: int, limit: int)
    requires
        0 <= i,
        limit <= data.len(),
    ensures
        lines::line_end(search::lowered(data), i, limit) == lines::line_end(data, i, limit),
    decreases limit - i,
{
    if i < limit {
        lemma_lowered_lines(data, i + 1, limit);
    }
}

/// A search in which case does not count lists, for each line that has one, the first hit of a
/// search for the pattern in lower case in the file in lower case, and counts them all.
pub proof fn law_folded_search_by_line(data: Seq<u8>, i: int, limit: int, needle: Seq<u8>)
    requires
        0 <= i,
        limit <= data.len(),
    ensures
        search::folded_leads(data, i, limit, needle) == per_line(
            search::lowered(data),
            i,
            limit,
            first_in_line(search::lowered(data), needle),
        ),
        search::folded_total(data, i, limit, needle) == count_in_lines(
            search::lowered(data),
            i,
            limit,
            needle,
        ),
    decreases limit + 1 - i,
{
    lemma_lowered_lines(data, i, limit);
    let e = lines::line_end(data, i, limit);
    if i <= e <= limit && i < limit {
        law_folded_search_by_line(data, e + 1, limit, needle);
        assert(search::lowered(data.subrange(i, e)) =~= search::lowered(data).subrange(i, e));
    }
}

proof fn lemma_skip_gap(hay: Seq<u8>, needle: Seq<u8>, from: int, to: int)
    requires
        0 <= from <= to,
        forall|q: int| from <= q < to ==> !outside::occurs_at(hay, needle, q),
    ensures
        outside::occurrences(hay, needle, from) == outside::occurrences(hay, needle, to),
    decreases to - from,
{
    if from < to {
        assert(!outside::occurs_at(hay, needle, from));
        if from + needle.len() <= hay.len() {
            lemma_skip_gap(hay, needle, from + 1, to);
        }
    }
}

proof fn lemma_line_of_hits(
    data: Seq<u8>,
    limit: int,
    pattern: Seq<u8>,
    i: int,
    from: int,
    e: int,
)
    requires
        0 <= i <= from <= e <= limit <= data.len(),
        limit <= usize::MAX,
        fits_in_line(pattern),
        e < limit ==> data[e] == LF,
    ensures
        outside::occurrences(data.take(limit), pattern, from) == moved(
            outside::occurrences(data.subrange(i, e), pattern, from - i),
            i,
        ) + outside::occurrences(data.take(limit), pattern, e + 1),
    decreases e - from,
{
    let hay = data.take(limit);
    let line = data.subrange(i, e);
    let m = pattern.len() as int;
    search::lemma_occurrences(line, pattern, from - i);
    if from + m > e {
        assert forall|q: int| from <= q < e + 1 implies !outside::occurs_at(hay, pattern, q) by {
            if outside::occurs_at(hay, pattern, q) {
                assert(q + m <= limit);
                assert(pattern[e - q] == hay.subrange(q, q + m)[e - q]);
            }
        }
        lemma_skip_gap(hay, pattern, from, e + 1);
        assert(moved(outside::occurrences(line, pattern, from - i), i) =~= Seq::empty());
        assert(outside::occurrences(hay, pattern, from) =~= moved(
            outside::occurrences(line, pattern, from - i),
            i,
        ) + outside::occurrences(hay, pattern, e + 1));
    } else {
        assert(hay.subrange(from, from + m) =~= line.subrange(from - i, from - i + m));
        if outside::occurs_at(hay, pattern, from) {
            lemma_line_of_hits(data, limit, pattern, i, from + m, e);
            let rest = outside::occurrences(line, pattern, from + m - i);
            search::lemma_occurrences(line, pattern, from + m - i);
            assert(moved(outside::occurrences(line, pattern, from - i), i) =~= seq![from as usize]
                + moved(rest, i));
            assert(outside::occurrences(hay, pattern, from) =~= moved(
                outside::occurrences(line, pattern, from - i),
                i,
            ) + outside::occurrences(hay, pattern, e + 1));
        } else if from < e {
            lemma_line_of_hits(data, limit, pattern, i, from + 1, e);
        }
    }
}

proof fn lemma_leads_apart(data: Seq<u8>, a: Seq<usize>, b: Seq<usize>)
    requires
        a.len() > 0 && b.len() > 0 ==> search::feed_between(data, a.last() as int, b[0] as int),
    ensures
        search::lead_hits(data, a + b) == search::lead_hits(data, a) + search::lead_hits(data, b),
    decreases b.len(),
{
    let all = a + b;
    if b.len() == 0 {
        assert(all =~= a);
        assert(search::lead_hits(data, all) =~= search::lead_hits(data, a) + search::lead_hits(
            data,
            b,
        ));
    } else if a.len() == 0 {
        assert(all =~= b);
        assert(search::lead_hits(data, all) =~= search::lead_hits(data, a) + search::lead_hits(
            data,
            b,
        ));
    } else {
        assert(all.drop_last() =~= a + b.drop_last());
        lemma_leads_apart(data, a, b.drop_last());
        assert(all.last() == b.last());
        if b.len() == 1 {
            assert(all[all.len() - 2] == a.last());
            assert(b.drop_last() =~= Seq::empty());
        } else {
            assert(all[all.len() - 2] == b[b.len() - 2]);
        }
        assert(search::lead_hits(data, all) =~= search::lead_hits(data, a) + search::lead_hits(
            data,
            b,
        ));
    }
}

proof fn lemma_one_lead(data: Seq<u8>, hits: Seq<usize>, i: int, e: int)
    requires
        0 <= i <= e,
        forall|j: int| i <= j < e ==> #[trigger] data[j] != LF,
        forall|k: int| 0 <= k < hits.len() ==> i <= #[trigger] hits[k] <= e,
    ensures
        search::lead_hits(data, hits) == (if hits.len() > 0 {
            seq![hits[0]]
        } else {
            Seq::empty()
        }),
    decreases hits.len(),
{
    if hits.len() > 0 {
        let front = hits.drop_last();
        assert forall|k: int| 0 <= k < front.len() implies i <= #[trigger] front[k] <= e by {
            assert(front[k] == hits[k]);
        }
        lemma_one_lead(data, front, i, e);
        if hits.len() == 1 {
            assert(front =~= Seq::empty());
            assert(search::lead_hits(data, hits) =~= seq![hits[0]]);
        } else {
            assert(!search::feed_between(
                data,
                hits[hits.len() - 2] as int,
                hits[hits.len() - 1] as int,
            ));
        }
    }
}

/// A search for a pattern that fits in a line lists the first hit of each line that has one,
/// and counts all the hits in the lines.
pub proof fn law_plain_search_by_line(data: Seq<u8>, i: int, limit: int, pattern: Seq<u8>)
    requires
        0 <= i <= limit + 1,
        0 <= limit <= data.len(),
        limit <= usize::MAX,
        fits_in_line(pattern),
    ensures
        ({
            let hits = outside::occurrences(data.take(limit), pattern, i);
            &&& search::lead_hits(data, hits) == per_line(
                data,
                i,
                limit,
                first_in_line(data, pattern),
            )
            &&& hits.len() == count_in_lines(data, i, limit, pattern)
        }),
    decreases limit + 1 - i,
{
    let hay = data.take(limit);
    if i < limit {
        let e = lines::line_end(data, i, limit);
        lines::lemma_line_end(data, i, limit);
        let line = data.subrange(i, e);
        let here = outside::occurrences(line, pattern, 0);
        let mine = moved(here, i);
        let rest = outside::occurrences(hay, pattern, e + 1);
        lemma_line_of_hits(data, limit, pattern, i, i, e);
        search::lemma_occurrences(line, pattern, 0);
        search::lemma_occurrences(hay, pattern, e + 1);
        assert forall|k: int| 0 <= k < mine.len() implies i <= #[trigger] mine[k] <= e by {
            assert(mine[k] == here[k] + i);
        }
        if mine.len() > 0 && rest.len() > 0 {
            assert(e < limit);
            assert(data[e] == LF);
            assert(search::feed_between(data, mine.last() as int, rest[0] as int));
        }
        lemma_leads_apart(data, mine, rest);
        lemma_one_lead(data, mine, i, e);
        law_plain_search_by_line(data, e + 1, limit, pattern);
        assert(search::lead_hits(data, mine) =~= one(first_in_line(data, pattern)(i, e)));
    }
}

/// Where the pattern fits in a line, a search in which case does not count finds what a search
/// for the pattern in lower case finds in the file in lower case.
pub proof fn law_case_is_ignored(data: Seq<u8>, limit: int, pattern: Seq<u8>)
    requires
        0 <= limit <= data.len(),
        limit <= usize::MAX,
        fits_in_line(pattern),
    ensures
        ({
            let low = search::lowered(data);
            let needle = search::lowered(pattern);
            let hits = outside::occurrences(low.take(limit), needle, 0);
            &&& search::folded_leads(data, 0, limit, needle) == search::lead_hits(low, hits)
            &&& search::folded_total(data, 0, limit, needle) == hits.len()
        }),
{
    let needle = search::lowered(pattern);
    assert(fits_in_line(needle)) by {
        assert forall|j: int| 0 <= j < needle.len() implies #[trigger] needle[j] != LF by {
            assert(pattern[j] != LF);
        }
    }
    law_folded_search_by_line(data, 0, limit, needle);
    law_plain_search_by_line(search::lowered(data), 0, limit, needle);
}

/// Two bytes are the same, or the capital and the small form of one letter of ASCII.
pub open spec fn same_letter(a: u8, b: u8) -> bool {
    ||| a == b
    ||| 65 <= a <= 90 && b == a + 32
    ||| 65 <= b <= 90 && a == b + 32
}

/// Each capital of ASCII has its small letter for its lower case, and every other byte stays as
/// it is.
pub proof fn law_lower_case()
    ensures
        forall|k: int| 0 <= k < 26 ==> #[trigger] search::lower((65 + k) as u8) == 97 + k,
        forall|b: u8| !(65 <= b <= 90) ==> #[trigger] search::lower(b) == b,
        forall|a: u8, b: u8|
            #[trigger] search::lower(a) == #[trigger] search::lower(b) <==> same_letter(a, b),
{
    assert forall|a: u8, b: u8|
        #[trigger] search::lower(a) == #[trigger] search::lower(b) <==> same_letter(a, b) by {}
}

/// The bytes are the same up to the case of the letters of ASCII.
pub open spec fn same_letters(a: Seq<u8>, b: Seq<u8>) -> bool {
    a.len() == b.len() && forall|i: int|
        0 <= i < a.len() ==> same_letter(#[trigger] a[i], b[i])
}

/// Texts are equal in lower case if, and only if, they differ in nothing but the case of letters
/// of ASCII.
pub proof fn law_lower_case_forgets_only_case(a: Seq<u8>, b: Seq<u8>)
    ensures
        search::lowered(a) == search::lowered(b) <==> same_letters(a, b),
        search::lowered(a).len() == a.len(),
{
    let x = search::lowered(a);
    let y = search::lowered(b);
    if x == y {
        assert(x.len() == a.len() && y.len() == b.len());
        assert forall|i: int| 0 <= i < a.len() implies same_letter(#[trigger] a[i], b[i]) by {
            assert(x[i] == search::lower(a[i]) && y[i] == search::lower(b[i]));
        }
    }
    if same_letters(a, b) {
        assert(x =~= y) by {
            assert forall|i: int| 0 <= i < x.len() implies x[i] == y[i] by {
                assert(same_letter(a[i], b[i]));
            }
        }
    }
}

/// The regular expression that is run is the query itself, or, where case does not count, the
/// four characters that say so and the query behind them.
pub proof fn law_pattern_is_the_query(req: search::Request)
    ensures
        req.case_sensitive ==> search::request_pattern(req) == req.query,
        !req.case_sensitive ==> search::request_pattern(req) == seq!['(', '?', 'i', ')'] + req.query,
{
    reveal_strlit("(?i)");
    if !req.case_sensitive {
        assert("(?i)"@ =~= seq!['(', '?', 'i', ')']);
    }
}

/// `pattern` stands in `data` from `j` on, byte by byte; or up to case, if that does not count.
pub open spec fn read_at(data: Seq<u8>, pattern: Seq<u8>, case_sensitive: bool, j: int) -> bool {
    &&& 0 <= j
    &&& j + pattern.len() <= data.len()
    &&& forall|i: int|
        0 <= i < pattern.len() ==> if case_sensitive {
            data[j + i] == #[trigger] pattern[i]
        } else {
            same_letter(data[j + i], pattern[i])
        }
}

/// `pattern` stands between `a` and `b`.
pub open spec fn read_between(
    data: Seq<u8>,
    pattern: Seq<u8>,
    case_sensitive: bool,
    a: int,
    b: int,
) -> bool {
    exists|j: int|
        a <= j && j + pattern.len() <= b && #[trigger] read_at(data, pattern, case_sensitive, j)
}

proof fn lemma_some_occurrence(hay: Seq<u8>, needle: Seq<u8>, from: int, j: int)
    requires
        0 <= from <= j,
        hay.len() <= usize::MAX,
        outside::occurs_at(hay, needle, j),
    ensures
        outside::occurrences(hay, needle, from).len() > 0,
    decreases j - from,
{
    if !outside::occurs_at(hay, needle, from) {
        lemma_some_occurrence(hay, needle, from + 1, j);
    }
}

/// `pattern` stands in a part of `data`, with its case or without, exactly if each byte does.
pub proof fn lemma_read(data: Seq<u8>, pattern: Seq<u8>, case_sensitive: bool, a: int, b: int, j: int)
    requires
        0 <= a <= b <= data.len(),
        0 <= j,
        a + j + pattern.len() <= b,
    ensures
        outside::occurs_at(
            (if case_sensitive {
                data
            } else {
                search::lowered(data)
            }).subrange(a, b),
            if case_sensitive {
                pattern
            } else {
                search::lowered(pattern)
            },
            j,
        ) <==> read_at(data, pattern, case_sensitive, a + j),
{
    let hay = if case_sensitive {
        data
    } else {
        search::lowered(data)
    };
    let needle = if case_sensitive {
        pattern
    } else {
        search::lowered(pattern)
    };
    let here = hay.subrange(a, b).subrange(j, j + needle.len());
    assert(needle.len() == pattern.len());
    if outside::occurs_at(hay.subrange(a, b), needle, j) {
        assert forall|i: int| 0 <= i < pattern.len() implies if case_sensitive {
            data[a + j + i] == #[trigger] pattern[i]
        } else {
            same_letter(data[a + j + i], pattern[i])
        } by {
            assert(here[i] == hay[a + j + i]);
            assert(here[i] == needle[i]);
        }
    }
    if read_at(data, pattern, case_sensitive, a + j) {
        assert forall|i: int| 0 <= i < needle.len() implies here[i] == needle[i] by {
            assert(here[i] == hay[a + j + i]);
            assert(pattern[i] == pattern[i]);
        }
        assert(here =~= needle);
    }
}

/// A search finds something in a line exactly if the pattern stands there.
pub proof fn law_line_is_found_if_the_pattern_stands_there(
    data: Seq<u8>,
    pattern: Seq<u8>,
    case_sensitive: bool,
    a: int,
    b: int,
)
    requires
        0 <= a <= b <= data.len() <= usize::MAX,
    ensures
        first_in_line(
            if case_sensitive {
                data
            } else {
                search::lowered(data)
            },
            if case_sensitive {
                pattern
            } else {
                search::lowered(pattern)
            },
        )(a, b) is Some <==> read_between(data, pattern, case_sensitive, a, b),
{
    let hay = if case_sensitive {
        data
    } else {
        search::lowered(data)
    };
    let needle = if case_sensitive {
        pattern
    } else {
        search::lowered(pattern)
    };
    assert(hay.len() == data.len() && needle.len() == pattern.len());
    let line = hay.subrange(a, b);
    let hits = outside::occurrences(line, needle, 0);
    search::lemma_occurrences(line, needle, 0);
    if hits.len() > 0 {
        let j = hits[0] as int;
        assert(outside::occurs_at(line, needle, j));
        lemma_read(data, pattern, case_sensitive, a, b, j);
        assert(read_at(data, pattern, case_sensitive, a + j));
    }
    if read_between(data, pattern, case_sensitive, a, b) {
        let j = choose|j: int|
            a <= j && j + pattern.len() <= b && #[trigger] read_at(data, pattern, case_sensitive, j);
        lemma_read(data, pattern, case_sensitive, a, b, j - a);
        lemma_some_occurrence(line, needle, 0, j - a);
    }
}

/// Bytes stand somewhere exactly if each of them does.
pub proof fn lemma_read_is_occurrence(hay: Seq<u8>, needle: Seq<u8>, j: int)
    ensures
        read_at(hay, needle, true, j) <==> outside::occurs_at(hay, needle, j),
{
    if 0 <= j && j + needle.len() <= hay.len() {
        lemma_read(hay, needle, true, 0, hay.len() as int, j);
        assert(hay.subrange(0, hay.len() as int) =~= hay);
    }
}

} // verus!
