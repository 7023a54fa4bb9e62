//! Searching a file.

use crate::encoding;
use crate::encoding::Encoding;
use crate::lines;
use crate::lines::LF;
use crate::outside;
use crate::outside::RegexFault;
use regex::Regex;
use vstd::prelude::*;

verus! {

/// How many matching lines keep their position. The rest is counted and cannot be jumped to.
pub const MAX_NAVIGABLE_LINES: usize = 1_000_000;

/// What a search finds: one position for each matching line, as far as they are kept, and how
/// often the whole file matches.
pub struct SearchHits {
    pub positions: Vec<usize>,
    pub total: usize,
    pub dropped: bool,
}

impl SearchHits {
    /// These are the hits of a search that finds the lines at `leads` and matches `total` times.
    pub open spec fn holds(self, leads: Seq<usize>, total: nat) -> bool {
        &&& self.total == total
        &&& self.dropped == (leads.len() > MAX_NAVIGABLE_LINES)
        &&& self.positions@ == leads.take(
            if leads.len() > MAX_NAVIGABLE_LINES {
                MAX_NAVIGABLE_LINES as int
            } else {
                leads.len() as int
            },
        )
    }

    /// Notes a matching line: it is counted, and its position kept while there is room.
    pub fn push(&mut self, pos: usize)
        requires
            old(self).total < usize::MAX,
        ensures
            final(self).total == old(self).total + 1,
            old(self).positions@.len() < MAX_NAVIGABLE_LINES ==> final(self).positions@ == old(
                self,
            ).positions@.push(pos) && final(self).dropped == old(self).dropped,
            old(self).positions@.len() >= MAX_NAVIGABLE_LINES ==> final(self).positions@ == old(
                self,
            ).positions@ && final(self).dropped,
    {
        self.total += 1;
        if self.positions.len() < MAX_NAVIGABLE_LINES {
            self.positions.push(pos);
        } else {
            self.dropped = true;
        }
    }

    /// Counts one more match in a line that has been noted.
    pub fn count_only(&mut self)
        requires
            old(self).total < usize::MAX,
        ensures
            final(self).total == old(self).total + 1,
            final(self).positions == old(self).positions,
            final(self).dropped == old(self).dropped,
    {
        self.total += 1;
    }

    /// Whether a matching line has lost its position.
    pub fn truncated(&self) -> (r: bool)
        ensures
            r == self.dropped,
    {
        self.dropped
    }
}

impl Default for SearchHits {
    fn default() -> (r: SearchHits)
        ensures
            r.holds(Seq::empty(), 0),
            r.positions@ == Seq::<usize>::empty(),
            r.total == 0,
            !r.dropped,
    {
        let r = SearchHits { positions: Vec::new(), total: 0, dropped: false };
        assert(r.positions@ =~= Seq::<usize>::empty().take(0));
        r
    }
}

proof fn lemma_push_holds(before: SearchHits, after: SearchHits, leads: Seq<usize>, total: nat, pos: usize)
    requires
        before.holds(leads, total),
        after.total == before.total + 1,
        before.positions@.len() < MAX_NAVIGABLE_LINES ==> after.positions@
            == before.positions@.push(pos) && after.dropped == before.dropped,
        before.positions@.len() >= MAX_NAVIGABLE_LINES ==> after.positions@ == before.positions@
            && after.dropped,
    ensures
        after.holds(leads.push(pos), total + 1),
{
    let all = leads.push(pos);
    if leads.len() < MAX_NAVIGABLE_LINES {
        assert(after.positions@ =~= all.take(all.len() as int));
    } else {
        assert(after.positions@ =~= all.take(MAX_NAVIGABLE_LINES as int));
    }
}

/// A line feed stands from `a` up to `b`.
pub open spec fn feed_between(data: Seq<u8>, a: int, b: int) -> bool {
    exists|j: int| a <= j < b && #[trigger] data[j] == LF
}

/// Those of the hits that are the first in their line: no line feed parts the others from the
/// hit before them.
pub open spec fn lead_hits(data: Seq<u8>, hits: Seq<usize>) -> Seq<usize>
    decreases hits.len(),
{
    if hits.len() == 0 {
        Seq::empty()
    } else {
        let leads = lead_hits(data, hits.drop_last());
        if hits.len() == 1 || feed_between(
            data,
            hits[hits.len() - 2] as int,
            hits[hits.len() - 1] as int,
        ) {
            leads.push(hits.last())
        } else {
            leads
        }
    }
}

/// The hits come in ascending order, each with room for the needle, and there are no more of
/// them than there are positions.
pub proof fn lemma_occurrences(hay: Seq<u8>, needle: Seq<u8>, from: int)
    requires
        0 <= from,
        hay.len() <= usize::MAX,
    ensures
        ({
            let hits = outside::occurrences(hay, needle, from);
            &&& from <= hay.len() ==> hits.len() <= hay.len() - from + 1
            &&& from <= hay.len() && needle.len() > 0 ==> hits.len() <= hay.len() - from
            &&& from > hay.len() ==> hits.len() == 0
            &&& forall|k: int|
                0 <= k < hits.len() ==> from <= #[trigger] hits[k] && outside::occurs_at(
                    hay,
                    needle,
                    hits[k] as int,
                )
            &&& forall|j: int, k: int| 0 <= j < k < hits.len() ==> hits[j] < hits[k]
        }),
    decreases hay.len() + 1 - from,
{
    let hits = outside::occurrences(hay, needle, from);
    if from + needle.len() <= hay.len() {
        if outside::occurs_at(hay, needle, from) {
            let step: int = if needle.len() == 0 {
                1
            } else {
                needle.len() as int
            };
            lemma_occurrences(hay, needle, from + step);
            let rest = outside::occurrences(hay, needle, from + step);
            assert forall|k: int| 0 <= k < hits.len() implies from <= #[trigger] hits[k]
                && outside::occurs_at(hay, needle, hits[k] as int) by {
                if k > 0 {
                    assert(hits[k] == rest[k - 1]);
                }
            }
            assert forall|j: int, k: int| 0 <= j < k < hits.len() implies hits[j] < hits[k] by {
                assert(hits[k] == rest[k - 1]);
                if j > 0 {
                    assert(hits[j] == rest[j - 1]);
                }
            }
        } else {
            lemma_occurrences(hay, needle, from + 1);
        }
    }
}

/// Searches for a run of bytes.
pub fn search_bytes(data: &[u8], limit: usize, pattern: &[u8]) -> (r: SearchHits)
    requires
        limit <= data@.len(),
        limit < usize::MAX || pattern@.len() > 0,
    ensures
        ({
            let hits = outside::occurrences(data@.take(limit as int), pattern@, 0);
            r.holds(lead_hits(data@, hits), hits.len())
        }),
{
    let finder = outside::finder_for(pattern);
    let hay: &[u8] = &data[0..limit];
    assert(hay@ =~= data@.take(limit as int));
    let ghost hits = outside::occurrences(hay@, pattern@, 0);
    proof {
        lemma_occurrences(hay@, pattern@, 0);
    }
    let mut found = SearchHits::default();
    let mut search = outside::search_with(&finder, hay);
    let mut previous: Option<usize> = None;
    let mut more: bool = true;
    let ghost mut n: int = 0;
    assert(hits.take(0) =~= Seq::empty());
    assert(hits.skip(0) =~= hits);
    while more
        invariant
            limit <= data@.len(),
            hits == outside::occurrences(hay@, pattern@, 0),
            hay@.len() == limit,
            0 <= n <= hits.len() <= usize::MAX,
            forall|k: int| 0 <= k < hits.len() ==> #[trigger] hits[k] <= limit,
            forall|j: int, k: int| 0 <= j < k < hits.len() ==> hits[j] < hits[k],
            outside::hits_to_come(search) == hits.skip(n),
            n == 0 <==> previous is None,
            previous matches Some(p) ==> p == hits[n - 1],
            found.holds(lead_hits(data@, hits.take(n)), n as nat),
            !more ==> n == hits.len(),
        decreases hits.len() - n, (if more { 1int } else { 0 }),
    {
        match outside::next_hit(&mut search) {
            Some(pos) => {
                assert(pos == hits[n]);
                assert(hits.skip(n).drop_first() =~= hits.skip(n + 1));
                let same_line: bool = match previous {
                    Some(p) => {
                        let between: &[u8] = &data[p..pos];
                        let feed = memchr::memchr(LF, between);
                        proof {
                            if let Some(rel) = feed {
                                assert(data@[p + rel] == LF);
                                assert(feed_between(data@, p as int, pos as int));
                            } else {
                                if feed_between(data@, p as int, pos as int) {
                                    let j = choose|j: int|
                                        p <= j < pos && #[trigger] data@[j] == LF;
                                    assert(between@[j - p] == LF);
                                }
                            }
                        }
                        feed.is_none()
                    },
                    None => false,
                };
                let ghost seen = hits.take(n);
                let ghost now = hits.take(n + 1);
                proof {
                    assert(now.drop_last() =~= seen);
                    assert(now.last() == pos);
                    if n > 0 {
                        assert(now[now.len() - 2] == previous->0);
                    }
                }
                let ghost before = found;
                if same_line {
                    found.count_only();
                } else {
                    found.push(pos);
                    proof {
                        lemma_push_holds(before, found, lead_hits(data@, seen), n as nat, pos);
                    }
                }
                proof {
                    n = n + 1;
                }
                previous = Some(pos);
            },
            None => {
                assert(hits.skip(n).len() == hits.len() - n);
                more = false;
            },
        }
    }
    assert(hits.take(n) =~= hits);
    found
}

/// `b` in lower case, if it is a letter of ASCII.
pub open spec fn lower(b: u8) -> u8 {
    if 65 <= b <= 90 {
        (b + 32) as u8
    } else {
        b
    }
}

/// Every byte in lower case.
pub open spec fn lowered(s: Seq<u8>) -> Seq<u8> {
    s.map_values(|b: u8| lower(b))
}

/// A copy of `bytes` with the letters of ASCII in lower case.
pub fn to_lower(bytes: &[u8]) -> (r: Vec<u8>)
    ensures
        r@ == lowered(bytes@),
{
    let mut r: Vec<u8> = Vec::with_capacity(bytes.len());
    let mut i: usize = 0;
    while i < bytes.len()
        invariant
            i <= bytes@.len(),
            r@ == lowered(bytes@.take(i as int)),
        decreases bytes@.len() - i,
    {
        let b: u8 = bytes[i];
        r.push(
            if 65 <= b && b <= 90 {
                b + 32
            } else {
                b
            },
        );
        i += 1;
        assert(r@ =~= lowered(bytes@.take(i as int)));
    }
    assert(bytes@.take(i as int) =~= bytes@);
    r
}

/// The hits in one line, if case does not count: positions from the start of the line.
pub open spec fn folded_hits(data: Seq<u8>, i: int, e: int, needle: Seq<u8>) -> Seq<usize> {
    outside::occurrences(lowered(data.subrange(i, e)), needle, 0)
}

/// The first hit of each line that has one, if case does not count.
pub open spec fn folded_leads(data: Seq<u8>, i: int, limit: int, needle: Seq<u8>) -> Seq<usize>
    decreases limit + 1 - i,
{
    let e = lines::line_end(data, i, limit);
    if i <= e <= limit && i < limit {
        let hits = folded_hits(data, i, e, needle);
        (if hits.len() > 0 {
            seq![(i + hits[0]) as usize]
        } else {
            Seq::empty()
        }) + folded_leads(data, e + 1, limit, needle)
    } else {
        Seq::empty()
    }
}

/// How many hits there are, if case does not count.
pub open spec fn folded_total(data: Seq<u8>, i: int, limit: int, needle: Seq<u8>) -> nat
    decreases limit + 1 - i,
{
    let e = lines::line_end(data, i, limit);
    if i <= e <= limit && i < limit {
        folded_hits(data, i, e, needle).len() + folded_total(data, e + 1, limit, needle)
    } else {
        0
    }
}

proof fn lemma_folded_total(data: Seq<u8>, i: int, limit: int, needle: Seq<u8>)
    requires
        0 <= i,
        limit <= data.len(),
        limit <= usize::MAX,
    ensures
        i <= limit ==> folded_total(data, i, limit, needle) <= limit - i + 1,
        i <= limit && needle.len() > 0 ==> folded_total(data, i, limit, needle) <= limit - i,
        i >= limit ==> folded_total(data, i, limit, needle) == 0,
    decreases limit + 1 - i,
{
    if i < limit {
        lines::lemma_line_end(data, i, limit);
        let e = lines::line_end(data, i, limit);
        lemma_occurrences(lowered(data.subrange(i, e)), needle, 0);
        lemma_folded_total(data, e + 1, limit, needle);
    }
}

/// Searches for a run of bytes in each line; the case of ASCII letters does not count.
pub fn search_bytes_ci(data: &[u8], limit: usize, pattern: &[u8]) -> (r: SearchHits)
    requires
        limit <= data@.len(),
        limit < usize::MAX || pattern@.len() > 0,
    ensures
        r.holds(
            folded_leads(data@, 0, limit as int, lowered(pattern@)),
            folded_total(data@, 0, limit as int, lowered(pattern@)),
        ),
{
    let needle = to_lower(pattern);
    let finder = outside::finder_for(needle.as_slice());
    let mut found = SearchHits::default();
    let mut i: usize = 0;
    let ghost all = folded_leads(data@, 0, limit as int, needle@);
    let ghost sum = folded_total(data@, 0, limit as int, needle@);
    let ghost mut leads: Seq<usize> = Seq::empty();
    proof {
        lemma_folded_total(data@, 0, limit as int, needle@);
        assert(all =~= leads + all);
    }
    while i < limit
        invariant
            i <= limit,
            limit <= data@.len(),
            outside::needle_of(finder) == needle@,
            found.holds(leads, found.total as nat),
            all == leads + folded_leads(data@, i as int, limit as int, needle@),
            sum == found.total + folded_total(data@, i as int, limit as int, needle@),
            sum <= usize::MAX,
        decreases limit - i,
    {
        let end = lines::find_line_end(data, i, limit);
        let line: &[u8] = &data[i..end];
        let buf = to_lower(line);
        let ghost hits = folded_hits(data@, i as int, end as int, needle@);
        let ghost rest = folded_leads(data@, end + 1, limit as int, needle@);
        let ghost start = leads;
        let ghost counted = found.total;
        let ghost mut n: int = 0;
        let mut first_in_line: bool = true;
        let mut search = outside::search_with(&finder, buf.as_slice());
        let mut more: bool = true;
        proof {
            lemma_occurrences(buf@, needle@, 0);
            assert(hits.skip(0) =~= hits);
        }
        while more
            invariant
                i <= limit,
                i + line@.len() <= limit,
                buf@ == lowered(line@),
                hits == outside::occurrences(buf@, needle@, 0),
                0 <= n <= hits.len(),
                forall|k: int| 0 <= k < hits.len() ==> #[trigger] hits[k] <= line@.len(),
                outside::hits_to_come(search) == hits.skip(n),
                first_in_line == (n == 0),
                found.total == counted + n,
                counted + hits.len() <= sum <= usize::MAX,
                found.holds(leads, found.total as nat),
                n == 0 ==> leads == start,
                n > 0 ==> leads == start.push((i + hits[0]) as usize),
                !more ==> n == hits.len(),
            decreases hits.len() - n, (if more { 1int } else { 0 }),
        {
            match outside::next_hit(&mut search) {
                Some(m) => {
                    assert(m == hits[n]);
                    assert(hits.skip(n).drop_first() =~= hits.skip(n + 1));
                    let ghost before = found;
                    if first_in_line {
                        found.push(i + m);
                        first_in_line = false;
                        proof {
                            lemma_push_holds(
                                before,
                                found,
                                leads,
                                before.total as nat,
                                (i + m) as usize,
                            );
                            leads = leads.push((i + m) as usize);
                        }
                    } else {
                        found.count_only();
                    }
                    proof {
                        n = n + 1;
                    }
                },
                None => {
                    assert(hits.skip(n).len() == hits.len() - n);
                    more = false;
                },
            }
        }
        proof {
            if hits.len() > 0 {
                assert(all =~= start + (seq![(i + hits[0]) as usize] + rest));
                assert(all =~= leads + rest);
            } else {
                assert(all =~= leads + rest);
            }
        }
        proof {
            if end == limit {
                assert(folded_total(data@, end + 1, limit as int, needle@) == 0);
                assert(folded_total(data@, limit as int, limit as int, needle@) == 0);
            }
        }
        i = if end < limit {
            end + 1
        } else {
            limit
        };
    }
    assert(all =~= leads);
    found
}

/// The starts of the lines whose text a pattern matches.
pub open spec fn matching_starts(
    data: Seq<u8>,
    i: int,
    limit: int,
    pattern: Seq<char>,
    e: Encoding,
) -> Seq<usize>
    decreases limit + 1 - i,
{
    let end = lines::line_end(data, i, limit);
    if i <= end <= limit && i < limit {
        let line = lines::without_eol(data.subrange(i, end));
        (if outside::pattern_matches(pattern, encoding::text_of(line, e)) {
            seq![i as usize]
        } else {
            Seq::empty()
        }) + matching_starts(data, end + 1, limit, pattern, e)
    } else {
        Seq::empty()
    }
}

/// Every line of the first `limit` bytes can be decoded.
pub open spec fn lines_read(data: Seq<u8>, limit: int, e: Encoding) -> bool {
    forall|i: int|
        0 <= i < limit && lines::starts_line(data, i) ==> encoding::decodable(
            lines::without_eol(data.subrange(i, #[trigger] lines::line_end(data, i, limit))),
            e,
        )
}

/// Lines that are no longer than one piece can be decoded.
pub proof fn law_short_lines_read(data: Seq<u8>, limit: int, e: Encoding)
    requires
        0 <= limit <= data.len(),
        lines::lines_within(data, limit, outside::PIECE_MAX as int),
    ensures
        lines_read(data, limit, e),
{
    assert forall|i: int| 0 <= i < limit && lines::starts_line(data, i) implies encoding::decodable(
        lines::without_eol(data.subrange(i, #[trigger] lines::line_end(data, i, limit))),
        e,
    ) by {
        lines::lemma_line_end(data, i, limit);
        lines::lemma_eol_start(data.subrange(i, lines::line_end(data, i, limit)));
    }
}

/// Searches for the lines whose text a regular expression matches. Each line is decoded, so
/// that the pattern means the same in every encoding.
pub fn search_regex(data: &[u8], limit: usize, re: &Regex, encoding: Encoding) -> (r: SearchHits)
    requires
        limit <= data@.len(),
        lines_read(data@, limit as int, encoding),
    ensures
        ({
            let starts = matching_starts(
                data@,
                0,
                limit as int,
                outside::pattern_of(*re),
                encoding,
            );
            r.holds(starts, starts.len())
        }),
{
    let mut found = SearchHits::default();
    let mut i: usize = 0;
    let ghost pattern = outside::pattern_of(*re);
    let ghost all = matching_starts(data@, 0, limit as int, pattern, encoding);
    let ghost mut leads: Seq<usize> = Seq::empty();
    assert(all =~= leads + all);
    while i < limit
        invariant
            i <= limit,
            limit <= data@.len(),
            lines_read(data@, limit as int, encoding),
            i < limit ==> lines::starts_line(data@, i as int),
            pattern == outside::pattern_of(*re),
            leads.len() <= i,
            found.holds(leads, leads.len()),
            all == leads + matching_starts(data@, i as int, limit as int, pattern, encoding),
        decreases limit - i,
    {
        let end = lines::find_line_end(data, i, limit);
        let raw = lines::trim_eol(&data[i..end]);
        proof {
            lines::lemma_line_end(data@, i as int, limit as int);
        }
        let mut line = String::new();
        encoding::decode_into(raw, encoding, &mut line);
        assert(line@ =~= encoding::text_of(raw@, encoding));
        let ghost rest = matching_starts(data@, end + 1, limit as int, pattern, encoding);
        if outside::regex_is_match(re, line.as_str()) {
            let ghost before = found;
            found.push(i);
            proof {
                lemma_push_holds(before, found, leads, leads.len(), i);
                assert(all =~= leads.push(i) + rest);
                leads = leads.push(i);
            }
        } else {
            assert(all =~= leads + rest);
        }
        i = if end < limit {
            end + 1
        } else {
            limit
        };
    }
    assert(all =~= leads);
    found
}

/// What to search for.
#[derive(Debug)]
pub struct SearchRequest {
    pub query: String,
    pub case_sensitive: bool,
    pub use_regex: bool,
}

/// The value of a [`SearchRequest`].
pub struct Request {
    pub query: Seq<char>,
    pub case_sensitive: bool,
    pub use_regex: bool,
}

impl View for SearchRequest {
    type V = Request;

    open spec fn view(&self) -> Request {
        Request {
            query: self.query@,
            case_sensitive: self.case_sensitive,
            use_regex: self.use_regex,
        }
    }
}

impl Clone for SearchRequest {
    fn clone(&self) -> (r: SearchRequest)
        ensures
            r@ == self@,
    {
        SearchRequest {
            query: self.query.clone(),
            case_sensitive: self.case_sensitive,
            use_regex: self.use_regex,
        }
    }
}

impl SearchRequest {
    pub fn new(query: &str, case_sensitive: bool, use_regex: bool) -> (r: SearchRequest)
        ensures
            r@ == (Request { query: query@, case_sensitive, use_regex }),
    {
        SearchRequest { query: query.to_owned(), case_sensitive, use_regex }
    }

    /// The regular expression to compile. Where case does not count, the pattern says so itself.
    pub fn pattern(&self) -> (r: String)
        ensures
            r@ == request_pattern(self@),
    {
        if self.case_sensitive {
            self.query.clone()
        } else {
            let mut r = String::new();
            r.push_str("(?i)");
            r.push_str(self.query.as_str());
            assert(r@ =~= "(?i)"@ + self.query@);
            r
        }
    }
}

/// The regular expression that a request stands for.
pub open spec fn request_pattern(req: Request) -> Seq<char> {
    if req.case_sensitive {
        req.query
    } else {
        "(?i)"@ + req.query
    }
}

/// What comes of a search.
pub enum SearchMsg {
    Hits(SearchHits),
    /// The regular expression did not compile, for this reason.
    RegexError(String),
}

/// The search ran with the regular expression `pattern` and found what it matches.
pub open spec fn regex_answer(
    hits: SearchHits,
    data: Seq<u8>,
    limit: int,
    pattern: Seq<char>,
    e: Encoding,
) -> bool {
    let starts = matching_starts(data, 0, limit, pattern, e);
    hits.holds(starts, starts.len())
}

/// The search ran for a run of bytes and found where it occurs.
pub open spec fn plain_answer(
    hits: SearchHits,
    data: Seq<u8>,
    limit: int,
    pattern: Seq<u8>,
    case_sensitive: bool,
) -> bool {
    if case_sensitive {
        let found = outside::occurrences(data.take(limit), pattern, 0);
        hits.holds(lead_hits(data, found), found.len())
    } else {
        hits.holds(
            folded_leads(data, 0, limit, lowered(pattern)),
            folded_total(data, 0, limit, lowered(pattern)),
        )
    }
}

/// Searches with a regular expression that may or may not have compiled.
pub fn search_compiled(
    data: &[u8],
    limit: usize,
    compiled: Result<Regex, RegexFault>,
    encoding: Encoding,
) -> (r: SearchMsg)
    requires
        limit <= data@.len(),
        compiled is Ok ==> lines_read(data@, limit as int, encoding),
    ensures
        match compiled {
            Ok(re) => r matches SearchMsg::Hits(hits) && regex_answer(
                hits,
                data@,
                limit as int,
                outside::pattern_of(re),
                encoding,
            ),
            Err(RegexFault::Syntax(reason)) => r == SearchMsg::RegexError(reason),
            Err(RegexFault::Size(reason)) => r == SearchMsg::RegexError(reason),
        },
{
    match compiled {
        Ok(re) => SearchMsg::Hits(search_regex(data, limit, &re, encoding)),
        Err(RegexFault::Syntax(reason)) => SearchMsg::RegexError(reason),
        Err(RegexFault::Size(reason)) => SearchMsg::RegexError(reason),
    }
}

/// Searches the first `limit` bytes of a file. A pattern that is not written as a regular
/// expression is answered with what is wrong with it. Whether the compiled form of another is
/// too large is not said here; what comes of it in either case is [`search_compiled`].
pub fn run_search(data: &[u8], limit: usize, req: &SearchRequest, encoding: Encoding) -> (r:
    SearchMsg)
    requires
        limit <= data@.len(),
        !req.use_regex ==> limit < usize::MAX,
        req.use_regex ==> lines_read(data@, limit as int, encoding),
        !req.use_regex ==> encoding::encodable(req.query@, encoding),
    ensures
        req.use_regex ==> (match outside::syntax_error(request_pattern(req@)) {
            Some(wrong) => r matches SearchMsg::RegexError(reason) && reason@ == wrong,
            None => r matches SearchMsg::Hits(hits) ==> regex_answer(
                hits,
                data@,
                limit as int,
                request_pattern(req@),
                encoding,
            ),
        }),
        !req.use_regex ==> (r matches SearchMsg::Hits(hits) && plain_answer(
            hits,
            data@,
            limit as int,
            encoding::bytes_of(req.query@, encoding),
            req.case_sensitive,
        )),
{
    if req.use_regex {
        let pattern = req.pattern();
        search_compiled(data, limit, outside::compile_regex(pattern.as_str()), encoding)
    } else {
        let pattern = encoding::encode(req.query.as_str(), encoding);
        let hits = if req.case_sensitive {
            search_bytes(data, limit, pattern.as_slice())
        } else {
            search_bytes_ci(data, limit, pattern.as_slice())
        };
        SearchMsg::Hits(hits)
    }
}

/// The first occurrence of `needle` in `hay` at or after `from`.
pub open spec fn first_occurrence(hay: Seq<u8>, needle: Seq<u8>, from: int) -> Option<usize>
    decreases hay.len() - from,
{
    if from < 0 || from + needle.len() > hay.len() {
        None
    } else if outside::occurs_at(hay, needle, from) {
        Some(from as usize)
    } else if from < hay.len() {
        first_occurrence(hay, needle, from + 1)
    } else {
        None
    }
}

/// [`first_occurrence`] is an occurrence, and none comes before it.
pub proof fn lemma_first_occurrence(hay: Seq<u8>, needle: Seq<u8>, from: int)
    requires
        0 <= from,
        hay.len() <= usize::MAX,
    ensures
        match first_occurrence(hay, needle, from) {
            Some(i) => {
                &&& from <= i
                &&& outside::occurs_at(hay, needle, i as int)
                &&& forall|j: int| from <= j < i ==> !outside::occurs_at(hay, needle, j)
            },
            None => forall|j: int| from <= j ==> !outside::occurs_at(hay, needle, j),
        },
    decreases hay.len() - from,
{
    if from + needle.len() <= hay.len() && !outside::occurs_at(hay, needle, from) && from
        < hay.len() {
        lemma_first_occurrence(hay, needle, from + 1);
    } else if from + needle.len() <= hay.len() && from >= hay.len() {
        assert(hay.subrange(from, from + needle.len()) =~= needle);
    }
}

/// The first position at which `needle` stands in `hay`.
pub fn find_bytes(hay: &[u8], needle: &[u8]) -> (r: Option<usize>)
    ensures
        r == first_occurrence(hay@, needle@, 0),
{
    let r = memchr::memmem::find(hay, needle);
    proof {
        assert(hay.len() == hay@.len());
        lemma_first_occurrence(hay@, needle@, 0);
        match (r, first_occurrence(hay@, needle@, 0)) {
            (Some(i), Some(j)) => {
                if i < j {
                    assert(!outside::occurs_at(hay@, needle@, i as int));
                }
                if j < i {
                    assert(!outside::occurs_at(hay@, needle@, j as int));
                }
            },
            (Some(i), None) => {
                assert(!outside::occurs_at(hay@, needle@, i as int));
            },
            (None, Some(j)) => {
                assert(!outside::occurs_at(hay@, needle@, j as int));
            },
            (None, None) => {},
        }
    }
    r
}

} // verus!
