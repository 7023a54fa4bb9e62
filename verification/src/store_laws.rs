//! What holds of a store whatever is done with it.

use crate::encoding;
use crate::lines;
use crate::lines::LF;
use crate::logstore;
use crate::logstore::{IndexJob, Remap, SearchMsg, Store};
use crate::search;
use crate::search::MAX_NAVIGABLE_LINES;
use crate::search_laws;
use vstd::prelude::*;

verus! {

/// The scan has ended, and the index is that of the first `real_len` bytes of `data`.
pub open spec fn describes(s: Store, data: Seq<u8>) -> bool {
    &&& !s.indexing
    &&& s.real_len <= data.len()
    &&& s.line_starts == lines::line_starts(data, 0, s.real_len as int)
    &&& s.scanned == lines::tail_start(data, 0, s.real_len as int)
}

/// What a scan that was handed out reports of `data`.
pub open spec fn reports_of(job: IndexJob, data: Seq<u8>) -> Seq<lines::IndexReport> {
    lines::scan_reports(data, job.start as int, job.limit as int)
}

proof fn lemma_reported_lines_joined(a: Seq<lines::IndexReport>, b: Seq<lines::IndexReport>)
    ensures
        logstore::reported_lines(a + b) == logstore::reported_lines(a) + logstore::reported_lines(
            b,
        ),
        logstore::reported_end(a + b) == (match logstore::reported_end(b) {
            Some(pos) => Some(pos),
            None => logstore::reported_end(a),
        }),
    decreases b.len(),
{
    if b.len() == 0 {
        assert(a + b =~= a);
        assert(logstore::reported_lines(a + b) =~= logstore::reported_lines(a)
            + logstore::reported_lines(b));
    } else {
        assert((a + b).drop_last() =~= a + b.drop_last());
        lemma_reported_lines_joined(a, b.drop_last());
        assert(logstore::reported_lines(a + b) =~= logstore::reported_lines(a)
            + logstore::reported_lines(b));
    }
}

proof fn lemma_batches_hold_all(starts: Seq<usize>)
    ensures
        logstore::reported_lines(lines::batches(starts)) == starts,
        logstore::reported_end(lines::batches(starts)) is None,
    decreases starts.len(),
{
    reveal_with_fuel(logstore::reported_lines, 2);
    reveal_with_fuel(logstore::reported_end, 2);
    let chunk = lines::INDEX_CHUNK as int;
    if starts.len() == 0 {
        assert(logstore::reported_lines(lines::batches(starts)) =~= starts);
    } else if starts.len() <= chunk {
        let b = lines::batches(starts);
        assert(b.drop_last() =~= Seq::empty());
        assert(logstore::reported_lines(b) =~= starts);
    } else {
        let head = seq![lines::IndexReport::Lines(starts.take(chunk))];
        let rest = lines::batches(starts.skip(chunk));
        lemma_batches_hold_all(starts.skip(chunk));
        lemma_reported_lines_joined(head, rest);
        assert(head.drop_last() =~= Seq::empty());
        assert(logstore::reported_lines(head) =~= starts.take(chunk));
        assert(logstore::reported_end(head) is None);
        assert(starts =~= starts.take(chunk) + starts.skip(chunk));
    }
}

/// A scan reports every line start that it finds, in order, and then the start of the tail.
pub proof fn law_scan_reports_all(data: Seq<u8>, i: int, limit: int)
    ensures
        logstore::reported_lines(lines::scan_reports(data, i, limit)) == lines::line_starts(
            data,
            i,
            limit,
        ),
        logstore::reported_end(lines::scan_reports(data, i, limit)) == Some(
            lines::tail_start(data, i, limit) as usize,
        ),
{
    let starts = lines::line_starts(data, i, limit);
    lemma_batches_hold_all(starts);
    let all = lines::scan_reports(data, i, limit);
    assert(all.drop_last() =~= lines::batches(starts));
}

/// The reports of a scan may come in pieces: taking them in one piece after the other is the
/// same as taking them in at once.
pub proof fn law_reports_in_pieces(
    s: Store,
    a: Seq<lines::IndexReport>,
    b: Seq<lines::IndexReport>,
)
    requires
        logstore::reported_end(a) is None,
    ensures
        s.indexed(a).indexed(b) == s.indexed(a + b),
{
    lemma_reported_lines_joined(a, b);
    assert(s.line_starts + logstore::reported_lines(a) + logstore::reported_lines(b)
        =~= s.line_starts + (logstore::reported_lines(a) + logstore::reported_lines(b)));
}

/// A scan of `data` from the tail of a file that `data` goes on from brings the index up to
/// date.
proof fn lemma_scan_completes(s: Store, before: Seq<u8>, known: int, data: Seq<u8>)
    requires
        s.indexing,
        !s.outgrown(),
        0 <= known <= before.len(),
        known <= s.real_len <= data.len() <= usize::MAX,
        data.take(known) == before.take(known),
        s.line_starts == lines::line_starts(before, 0, known),
    ensures
        describes(
            s.indexed(
                lines::scan_reports(data, lines::tail_start(before, 0, known), s.real_len as int),
            ),
            data,
        ),
{
    let tail = lines::tail_start(before, 0, known);
    lines::law_scan_resumes_at_tail(before, known, data, s.real_len as int, 0);
    lines::law_lines_adjoin(data, 0, s.real_len as int);
    law_scan_reports_all(data, tail, s.real_len as int);
}

/// Once the first scan has ended, the index of a file that was opened is that of its bytes.
pub proof fn law_opened_file_is_indexed(path: Seq<char>, data: Seq<u8>, real_len: usize)
    requires
        real_len <= data.len() <= usize::MAX,
    ensures
        ({
            let s = Store::opened(path, data, real_len);
            s.index_job is Some && describes(s.indexed(reports_of(s.index_job->0, data)), data)
        }),
{
    let s = Store::opened(path, data, real_len);
    lines::law_lines_adjoin(data, 0, 0);
    assert(data.take(0) =~= data.take(0));
    assert(s.line_starts =~= lines::line_starts(data, 0, 0));
    assert(lines::tail_start(data, 0, 0) == 0);
    lemma_scan_completes(s, data, 0, data);
}

/// What is appended to a file is picked up: if the index is that of the file as it was, then
/// after the scan that a greater length brings about it is that of the file as it is.
pub proof fn law_growth_is_picked_up(
    s: Store,
    data: Seq<u8>,
    longer: Seq<u8>,
    len: usize,
    real_len: usize,
)
    requires
        describes(s, data),
        s.real_len < len,
        s.real_len <= real_len <= longer.len() <= usize::MAX,
        data.len() <= usize::MAX,
        longer.take(s.real_len as int) == data.take(s.real_len as int),
    ensures
        ({
            let t = s.refreshed(len, Remap::Mapped(real_len));
            &&& t.index_job == Some(IndexJob { start: s.scanned, limit: real_len })
            &&& describes(t.indexed(reports_of(t.index_job->0, longer)), longer)
        }),
{
    let t = s.refreshed(len, Remap::Mapped(real_len));
    lines::law_lines_adjoin(data, 0, s.real_len as int);
    lemma_scan_completes(t, data, s.real_len as int, longer);
}

/// What is appended to a file while it is scanned is picked up too: once the scan has ended,
/// another one is handed out for what has come since, and after that the index is that of the
/// file as it is.
pub proof fn law_growth_during_a_scan_is_picked_up(
    s: Store,
    data: Seq<u8>,
    msgs: Seq<lines::IndexReport>,
    longer: Seq<u8>,
    len: usize,
    real_len: usize,
)
    requires
        s.indexing,
        s.scan_limit == s.real_len,
        s.real_len <= data.len() <= usize::MAX,
        s.line_starts + logstore::reported_lines(msgs) == lines::line_starts(
            data,
            0,
            s.real_len as int,
        ),
        logstore::reported_end(msgs) == Some(
            lines::tail_start(data, 0, s.real_len as int) as usize,
        ),
        s.real_len < len,
        s.real_len < real_len <= longer.len() <= usize::MAX,
        longer.take(s.real_len as int) == data.take(s.real_len as int),
    ensures
        ({
            let t = s.refreshed(len, Remap::Mapped(real_len)).indexed(msgs);
            &&& t.indexing
            &&& t.pending == s.pending
            &&& t.index_job == Some(IndexJob { start: t.scanned, limit: real_len })
            &&& describes(t.indexed(reports_of(t.index_job->0, longer)), longer)
        }),
{
    let t = s.refreshed(len, Remap::Mapped(real_len)).indexed(msgs);
    lines::law_lines_adjoin(data, 0, s.real_len as int);
    lemma_scan_completes(t, data, s.real_len as int, longer);
}

/// A file that was cut off or replaced by a shorter one is indexed anew, and what a search
/// had found in it is gone.
pub proof fn law_truncation_rebuilds(s: Store, data: Seq<u8>, len: usize, real_len: usize)
    requires
        len < s.real_len,
        real_len <= data.len() <= usize::MAX,
    ensures
        ({
            let t = s.refreshed(len, Remap::Mapped(real_len));
            &&& t.index_job == Some(IndexJob { start: 0, limit: real_len })
            &&& t.matches.len() == 0 && t.total == 0 && t.pending is None
            &&& describes(t.indexed(reports_of(t.index_job->0, data)), data)
        }),
{
    let t = s.refreshed(len, Remap::Mapped(real_len));
    lines::law_lines_adjoin(data, 0, 0);
    assert(t.line_starts =~= lines::line_starts(data, 0, 0));
    assert(lines::tail_start(data, 0, 0) == 0);
    lemma_scan_completes(t, data, 0, data);
}

/// There are as many lines as line feeds, and one more if something stands behind the last.
pub proof fn law_line_count(s: Store, data: Seq<u8>)
    requires
        describes(s, data),
        data.len() <= usize::MAX,
    ensures
        s.line_count() == lines::count_feeds(data, 0, s.real_len as int) + (if s.real_len > 0
            && data[s.real_len - 1] != LF {
            1nat
        } else {
            0nat
        }),
{
    let limit = s.real_len as int;
    let n = s.line_starts.len() as int;
    lines::law_one_line_per_feed(data, 0, limit);
    lines::law_lines_adjoin(data, 0, limit);
    if s.scanned < s.real_len {
        lines::lemma_line_end(data, s.scanned as int, limit);
        assert(data[limit - 1] != LF);
    } else if s.real_len > 0 {
        assert(lines::line_stop(s.line_starts, s.scanned as int, n - 1) == limit);
        assert(0 <= s.line_starts[n - 1]);
        assert(data[limit - 1] == LF);
    }
}

/// The lines cover the file without gap or overlap: the first starts at the beginning, each
/// of the others where the one before it stops, and the last stops at the end. A line feed
/// stands nowhere but at the end of a line.
pub proof fn law_lines_cover_the_file(s: Store, data: Seq<u8>, idx: int)
    requires
        describes(s, data),
        data.len() <= usize::MAX,
        0 <= idx < s.line_count(),
    ensures
        s.line_range(idx) is Some,
        ({
            let (a, b) = s.line_range(idx)->0;
            &&& a < b <= s.real_len
            &&& idx == 0 ==> a == 0
            &&& idx > 0 ==> s.line_range(idx - 1) is Some && (s.line_range(idx - 1)->0).1 == a
            &&& idx == s.line_count() - 1 ==> b == s.real_len
            &&& forall|j: int| a <= j < b - 1 ==> #[trigger] data[j] != LF
            &&& b < s.real_len ==> data[b - 1] == LF
        }),
{
    let limit = s.real_len as int;
    let n = s.line_starts.len() as int;
    lines::law_lines_adjoin(data, 0, limit);
    if idx < n {
        let a = s.line_starts[idx] as int;
        lines::lemma_line_end(data, a, limit);
        assert(lines::line_stop(s.line_starts, s.scanned as int, idx) - 1 == lines::line_end(
            data,
            a,
            limit,
        ));
        if idx > 0 {
            assert(s.line_starts[idx - 1] < s.line_starts[idx]);
        }
    } else {
        lines::lemma_line_end(data, s.scanned as int, limit);
        if n > 0 {
            assert(s.line_starts[n - 1] < lines::line_stop(
                s.line_starts,
                s.scanned as int,
                n - 1,
            ));
        }
    }
}

proof fn lemma_eol_prefix(a: Seq<u8>, b: Seq<u8>, e: int)
    requires
        0 <= e <= a.len(),
        e <= b.len(),
        a.take(e) == b.take(e),
    ensures
        lines::eol_start(a, e) == lines::eol_start(b, e),
    decreases e,
{
    if e > 0 {
        assert(a[e - 1] == a.take(e)[e - 1]);
        assert(b[e - 1] == b.take(e)[e - 1]);
        assert(a.take(e - 1) =~= a.take(e).take(e - 1));
        assert(b.take(e - 1) =~= b.take(e).take(e - 1));
        lemma_eol_prefix(a, b, e - 1);
    }
}

proof fn lemma_feed_is_cut(line: Seq<u8>)
    ensures
        lines::without_eol(line.push(LF)) == lines::without_eol(line),
{
    let all = line.push(LF);
    lines::lemma_eol_start(line);
    assert(all.take(line.len() as int) =~= line.take(line.len() as int));
    lemma_eol_prefix(all, line, line.len() as int);
    assert(lines::without_eol(all) =~= lines::without_eol(line));
}

/// The line around a position, found without the index, is the line that the index gives.
pub proof fn law_line_text_without_index(s: Store, data: Seq<u8>, idx: int, offset: usize)
    requires
        describes(s, data),
        data.len() <= usize::MAX,
        0 <= idx < s.line_count(),
        (s.line_range(idx)->0).0 <= offset < (s.line_range(idx)->0).1,
    ensures
        s.line_text_at(data, offset) == s.line_text(data, idx),
        s.line_text(data, idx) is Some,
{
    law_lines_cover_the_file(s, data, idx);
    let (a, b) = s.line_range(idx)->0;
    let limit = s.real_len as int;
    let hay = data.take(limit);
    if idx > 0 {
        law_lines_cover_the_file(s, data, idx - 1);
    }
    logstore::lemma_back_to_start(hay, offset as int, a as int);
    let raw = data.subrange(a as int, b as int);
    if data[b - 1] == LF {
        lines::lemma_line_end_is(hay, offset as int, limit, b - 1);
        assert(raw =~= hay.subrange(a as int, b - 1).push(LF));
        lemma_feed_is_cut(hay.subrange(a as int, b - 1));
    } else {
        lines::lemma_line_end_is(hay, offset as int, limit, b as int);
        assert(raw =~= hay.subrange(a as int, b as int));
    }
}

/// Lines and positions go together: a position inside a finished line leads to that line, and
/// so does the position that the line itself starts at.
pub proof fn law_positions_lead_to_lines(s: Store, data: Seq<u8>, idx: int, offset: usize)
    requires
        describes(s, data),
        data.len() <= usize::MAX,
        0 <= idx < s.line_starts.len(),
        (s.line_range(idx)->0).0 <= offset < (s.line_range(idx)->0).1,
    ensures
        s.line_index_at(offset) == Some(idx as usize),
        s.line_offset(idx) == Some(s.line_starts[idx]),
        s.line_index_at(s.line_starts[idx]) == Some(idx as usize),
{
    lines::law_lines_adjoin(data, 0, s.real_len as int);
    let start = s.line_starts[idx];
    assert(start < lines::line_stop(s.line_starts, s.scanned as int, idx));
    if idx + 1 < s.line_starts.len() {
        assert(s.line_starts[idx] < s.line_starts[idx + 1]);
        assert(s.line_starts[idx + 1] < lines::line_stop(
            s.line_starts,
            s.scanned as int,
            idx + 1,
        ));
    }
    logstore::lemma_line_at_above(s.line_starts, offset, idx);
    logstore::lemma_line_at_above(s.line_starts, start, idx);
}

/// A search that is asked for while a scan is under way is not run before the scan has ended.
/// Then it is run, on the whole file; or it goes on waiting, if the file has grown meanwhile and
/// another scan has to be run first.
pub proof fn law_search_waits_for_the_index(
    s: Store,
    req: search::Request,
    before: Seq<lines::IndexReport>,
    msgs: Seq<lines::IndexReport>,
    reply: Option<SearchMsg>,
)
    requires
        s.indexing,
        req.query.len() > 0,
        logstore::reported_end(before) is None,
        logstore::reported_end(msgs) is Some,
    ensures
        ({
            let t = s.with_request(req);
            let u = t.indexed(before);
            let v = u.pumped(msgs, reply);
            &&& t.searching && t.pending == Some(req) && t.search_job == s.search_job
            &&& u.searching && u.pending == Some(req) && u.search_job == s.search_job
            &&& !s.outgrown() ==> {
                &&& v.searching && v.pending is None && v.awaiting
                &&& v.search_job == Some(
                    logstore::SearchTask { request: req, limit: s.real_len, encoding: s.encoding },
                )
            }
            &&& s.outgrown() ==> v.indexing && v.pending == Some(req) && v.search_job
                == s.search_job
        }),
{
}

/// These are the hits of the search `req` in the first `limit` bytes of `data`.
pub open spec fn answers(
    hits: logstore::SearchHits,
    data: Seq<u8>,
    limit: int,
    req: search::Request,
    e: encoding::Encoding,
) -> bool {
    if req.use_regex {
        search::regex_answer(hits, data, limit, search::request_pattern(req), e)
    } else {
        search::plain_answer(
            hits,
            data,
            limit,
            encoding::bytes_of(req.query, e),
            req.case_sensitive,
        )
    }
}

/// A search that was asked for too early finds what the same search finds once the index is
/// complete: never a part of it.
pub proof fn law_early_search_finds_what_a_later_one_finds(
    a: Store,
    b: Store,
    data: Seq<u8>,
    req: search::Request,
    before: Seq<lines::IndexReport>,
    msgs: Seq<lines::IndexReport>,
    early: logstore::SearchHits,
    late: logstore::SearchHits,
)
    requires
        req.query.len() > 0,
        a.indexing,
        !a.outgrown(),
        logstore::reported_end(before) is None,
        logstore::reported_end(msgs) is Some,
        describes(a.indexed(before).indexed(msgs), data),
        describes(b, data),
        b.real_len == a.real_len,
        b.encoding == a.encoding,
        answers(early, data, a.real_len as int, req, a.encoding),
        answers(late, data, b.real_len as int, req, b.encoding),
    ensures
        ({
            let x = a.with_request(req).indexed(before).pumped(msgs, None);
            let y = b.with_request(req);
            let u = x.pumped(Seq::empty(), Some(SearchMsg::Hits(early)));
            let v = y.pumped(Seq::empty(), Some(SearchMsg::Hits(late)));
            &&& describes(x, data)
            &&& x.search_job == y.search_job
            &&& u.matches == v.matches
            &&& u.total == v.total
            &&& u.truncated == v.truncated
            &&& u.pending is None && !u.searching && !u.indexing
            &&& v.pending is None && !v.searching && !v.indexing
        }),
{
    let x = a.with_request(req).indexed(before).pumped(msgs, None);
    let w = a.indexed(before).indexed(msgs);
    assert(x.line_starts == w.line_starts && x.scanned == w.scanned);
    assert(early.positions@ == late.positions@);
    assert(x.line_starts == b.line_starts);
    assert(x.scanned == b.scanned);
}

/// The numbers below `n` of which `p` holds, in ascending order.
pub open spec fn those_below(n: int, p: spec_fn(int) -> bool) -> Seq<u32>
    decreases n,
{
    if n <= 0 {
        Seq::empty()
    } else if p(n - 1) {
        those_below(n - 1, p).push((n - 1) as u32)
    } else {
        those_below(n - 1, p)
    }
}

/// [`those_below`] holds exactly the numbers that it should, in ascending order.
pub proof fn law_those_below(n: int, p: spec_fn(int) -> bool)
    requires
        0 <= n <= u32::MAX + 1,
    ensures
        forall|k: int|
            0 <= k < n ==> (#[trigger] p(k) <==> those_below(n, p).contains(k as u32)),
        forall|i: int|
            0 <= i < those_below(n, p).len() ==> (#[trigger] those_below(n, p)[i]) < n && p(
                those_below(n, p)[i] as int,
            ),
        forall|i: int, j: int|
            0 <= i < j < those_below(n, p).len() ==> those_below(n, p)[i] < those_below(n, p)[j],
    decreases n,
{
    if n > 0 {
        law_those_below(n - 1, p);
        let before = those_below(n - 1, p);
        let all = those_below(n, p);
        if p(n - 1) {
            assert(all[all.len() - 1] == (n - 1) as u32);
        }
        assert forall|k: int| 0 <= k < n implies (#[trigger] p(k) <==> all.contains(k as u32)) by {
            if k < n - 1 {
                if p(k) {
                    let i = choose|i: int| 0 <= i < before.len() && before[i] == k as u32;
                    assert(all[i] == k as u32);
                }
                if all.contains(k as u32) {
                    let i = choose|i: int| 0 <= i < all.len() && all[i] == k as u32;
                    assert(i < before.len());
                    assert(before[i] == k as u32);
                }
            } else {
                if all.contains(k as u32) {
                    let i = choose|i: int| 0 <= i < all.len() && all[i] == k as u32;
                    if i < before.len() {
                        assert(before[i] < n - 1);
                    }
                }
            }
        }
    }
}

/// `pick` finds something in line `k` of `n` finished lines, or in the tail for `k == n`.
pub open spec fn line_is_hit(
    s: Store,
    pick: spec_fn(int, int) -> Option<usize>,
    k: int,
) -> bool {
    let n = s.line_starts.len();
    if 0 <= k < n {
        pick(s.line_starts[k] as int, (s.line_range(k)->0).1 - 1) is Some
    } else {
        k == n && s.scanned < s.real_len && pick(s.scanned as int, s.real_len as int) is Some
    }
}

/// What `pick` finds stands in the line, or at its end.
pub open spec fn picks_inside(pick: spec_fn(int, int) -> Option<usize>, limit: int) -> bool {
    forall|i: int, e: int|
        0 <= i <= e <= limit ==> (#[trigger] pick(i, e) matches Some(p) ==> i <= p <= e)
}

/// The positions that `pick` gives for the lines below `k`.
spec fn picked_below(s: Store, pick: spec_fn(int, int) -> Option<usize>, k: int) -> Seq<usize>
    decreases k,
{
    if k <= 0 {
        Seq::empty()
    } else {
        picked_below(s, pick, k - 1) + search_laws::one(
            pick(s.line_starts[k - 1] as int, (s.line_range(k - 1)->0).1 - 1),
        )
    }
}

spec fn start_of(s: Store, k: int) -> int {
    if k < s.line_starts.len() {
        s.line_starts[k] as int
    } else {
        s.scanned as int
    }
}

proof fn lemma_stop(s: Store, data: Seq<u8>, k: int)
    requires
        describes(s, data),
        data.len() <= usize::MAX,
        0 <= k < s.line_starts.len(),
    ensures
        (s.line_range(k)->0).1 == start_of(s, k + 1),
        lines::line_end(data, s.line_starts[k] as int, s.real_len as int) == start_of(s, k + 1)
            - 1,
        s.line_starts[k] < start_of(s, k + 1) <= s.real_len,
{
    lines::law_lines_adjoin(data, 0, s.real_len as int);
    assert(s.line_starts[k] < lines::line_stop(s.line_starts, s.scanned as int, k));
}

proof fn lemma_picked(s: Store, data: Seq<u8>, pick: spec_fn(int, int) -> Option<usize>, k: int)
    requires
        describes(s, data),
        data.len() <= usize::MAX,
        0 <= k <= s.line_starts.len(),
    ensures
        search_laws::per_line(data, 0, s.real_len as int, pick) == picked_below(s, pick, k)
            + search_laws::per_line(data, start_of(s, k), s.real_len as int, pick),
    decreases k,
{
    let limit = s.real_len as int;
    lines::law_lines_adjoin(data, 0, limit);
    if k == 0 {
        assert(start_of(s, 0) == 0);
        assert(picked_below(s, pick, 0) + search_laws::per_line(data, 0, limit, pick)
            =~= search_laws::per_line(data, 0, limit, pick));
    } else {
        lemma_picked(s, data, pick, k - 1);
        lemma_stop(s, data, k - 1);
        let a = start_of(s, k - 1);
        let e = start_of(s, k) - 1;
        assert(search_laws::per_line(data, a, limit, pick) == search_laws::one(pick(a, e))
            + search_laws::per_line(data, e + 1, limit, pick));
        assert(picked_below(s, pick, k - 1) + (search_laws::one(pick(a, e))
            + search_laws::per_line(data, e + 1, limit, pick)) =~= picked_below(s, pick, k)
            + search_laws::per_line(data, start_of(s, k), limit, pick));
    }
}

proof fn lemma_lines_below(
    s: Store,
    data: Seq<u8>,
    pick: spec_fn(int, int) -> Option<usize>,
    k: int,
)
    requires
        describes(s, data),
        data.len() <= usize::MAX,
        s.line_count() <= u32::MAX,
        picks_inside(pick, s.real_len as int),
        0 <= k <= s.line_starts.len(),
    ensures
        logstore::lines_hit(s.line_starts, s.scanned, picked_below(s, pick, k)) == those_below(
            k,
            |j: int| line_is_hit(s, pick, j),
        ),
        those_below(k, |j: int| line_is_hit(s, pick, j)).len() == picked_below(s, pick, k).len(),
    decreases k,
{
    let hit = |j: int| line_is_hit(s, pick, j);
    if k > 0 {
        let starts = s.line_starts;
        lemma_lines_below(s, data, pick, k - 1);
        lemma_stop(s, data, k - 1);
        lines::law_lines_adjoin(data, 0, s.real_len as int);
        let before = picked_below(s, pick, k - 1);
        let all = picked_below(s, pick, k);
        let p = pick(starts[k - 1] as int, (s.line_range(k - 1)->0).1 - 1);
        assert(hit(k - 1) == (p is Some));
        if let Some(pos) = p {
            assert(all =~= before.push(pos));
            assert(all.drop_last() =~= before);
            assert(pos < start_of(s, k));
            if k < starts.len() {
                assert(starts[k] < lines::line_stop(starts, s.scanned as int, k));
            }
            logstore::lemma_line_at_above(starts, pos, k - 1);
            assert(logstore::hit_line(starts, s.scanned, pos) == k - 1);
            law_those_below(k - 1, hit);
            let listed = those_below(k - 1, hit);
            if listed.len() > 0 {
                assert(listed[listed.len() - 1] < k - 1);
            }
        } else {
            assert(all =~= before);
        }
    }
}

proof fn lemma_feeds_before_line(s: Store, data: Seq<u8>, k: int)
    requires
        describes(s, data),
        data.len() <= usize::MAX,
        0 <= k <= s.line_starts.len(),
    ensures
        lines::count_feeds(data, 0, start_of(s, k)) == k,
    decreases k,
{
    lines::law_lines_adjoin(data, 0, s.real_len as int);
    if k > 0 {
        lemma_feeds_before_line(s, data, k - 1);
        lemma_stop(s, data, k - 1);
        let a = start_of(s, k - 1);
        let e = start_of(s, k) - 1;
        lines::lemma_line_end(data, a, s.real_len as int);
        lines::lemma_feeds_add_up(data, 0, a, e + 1);
        lines::lemma_count_feeds(data, a, e, e + 1);
        reveal_with_fuel(lines::count_feeds, 2);
    }
}

proof fn lemma_line_holding(s: Store, data: Seq<u8>, pos: int, k: int) -> (r: int)
    requires
        describes(s, data),
        data.len() <= usize::MAX,
        0 < k <= s.line_starts.len(),
        0 <= pos < start_of(s, k),
    ensures
        0 <= r < k,
        s.line_starts[r] <= pos < start_of(s, r + 1),
    decreases k,
{
    lines::law_lines_adjoin(data, 0, s.real_len as int);
    if s.line_starts[k - 1] <= pos {
        k - 1
    } else {
        lemma_line_holding(s, data, pos, k - 1)
    }
}

/// There is a text at each position of the file, and nowhere else, whether or not the scan has
/// ended. Once it has, and the position leads to a line, that is the text of the line.
pub proof fn law_text_at_a_position(s: Store, data: Seq<u8>, offset: usize)
    requires
        s.real_len <= data.len() <= usize::MAX,
    ensures
        s.line_text_at(data, offset) is None <==> offset >= s.real_len,
        describes(s, data) ==> (s.line_index_at(offset) matches Some(k) ==> s.line_text_at(
            data,
            offset,
        ) is Some && s.line_text_at(data, offset) == s.line_text(data, k as int)),
{
    if describes(s, data) && s.line_index_at(offset) is Some {
        let n = s.line_starts.len() as int;
        lines::law_lines_adjoin(data, 0, s.real_len as int);
        let r = lemma_line_holding(s, data, offset as int, n);
        logstore::lemma_line_at_above(s.line_starts, offset, r);
        lemma_stop(s, data, r);
        lemma_feeds_before_line(s, data, r);
        lines::lemma_feeds_are_bytes(data, 0, start_of(s, r));
        law_line_text_without_index(s, data, r, offset);
    }
}

/// A hit is listed under the number of line feeds before it.
pub proof fn law_hits_are_numbered_by_line_feeds(s: Store, data: Seq<u8>, pos: usize)
    requires
        describes(s, data),
        data.len() <= usize::MAX,
        pos < s.real_len,
    ensures
        logstore::hit_line(s.line_starts, s.scanned, pos) == lines::count_feeds(
            data,
            0,
            pos as int,
        ),
{
    let n = s.line_starts.len() as int;
    let limit = s.real_len as int;
    lines::law_lines_adjoin(data, 0, limit);
    if n > 0 {
        assert(s.line_starts[n - 1] < lines::line_stop(s.line_starts, s.scanned as int, n - 1));
    }
    let k = if pos >= s.scanned {
        n
    } else {
        let r = lemma_line_holding(s, data, pos as int, n);
        logstore::lemma_line_at_above(s.line_starts, pos, r);
        lemma_stop(s, data, r);
        r
    };
    let a = start_of(s, k);
    lemma_feeds_before_line(s, data, k);
    lines::lemma_feeds_are_bytes(data, 0, a);
    lines::lemma_line_end(data, a, limit);
    lines::lemma_feeds_add_up(data, 0, a, pos as int);
    lines::lemma_count_feeds(data, a, pos as int, pos as int);
}

/// Taking in one hit for each line that has one lists the numbers of those lines, that of the
/// unfinished last line too.
pub proof fn law_hits_become_lines(
    s: Store,
    data: Seq<u8>,
    pick: spec_fn(int, int) -> Option<usize>,
)
    requires
        describes(s, data),
        data.len() <= usize::MAX,
        s.line_count() <= u32::MAX,
        picks_inside(pick, s.real_len as int),
    ensures
        logstore::lines_hit(
            s.line_starts,
            s.scanned,
            search_laws::per_line(data, 0, s.real_len as int, pick),
        ) == those_below(s.line_count() as int, |k: int| line_is_hit(s, pick, k)),
        those_below(s.line_count() as int, |k: int| line_is_hit(s, pick, k)).len()
            == search_laws::per_line(data, 0, s.real_len as int, pick).len(),
{
    let n = s.line_starts.len() as int;
    let starts = s.line_starts;
    let limit = s.real_len as int;
    let tail = s.scanned as int;
    let hit = |j: int| line_is_hit(s, pick, j);
    lemma_picked(s, data, pick, n);
    lemma_lines_below(s, data, pick, n);
    lines::law_lines_adjoin(data, 0, limit);
    let below = picked_below(s, pick, n);
    let all = search_laws::per_line(data, 0, limit, pick);
    let rest = search_laws::per_line(data, tail, limit, pick);
    reveal_with_fuel(search_laws::per_line, 2);
    law_those_below(n, hit);
    if s.scanned < s.real_len {
        let p = pick(tail, limit);
        assert(rest =~= search_laws::one(p));
        assert(hit(n) == (p is Some));
        if let Some(pos) = p {
            assert(all =~= below.push(pos));
            assert(all.drop_last() =~= below);
            if n > 0 {
                assert(starts[n - 1] < lines::line_stop(starts, tail, n - 1));
            }
            assert(logstore::hit_line(starts, s.scanned, pos) == n);
            let listed = those_below(n, hit);
            if listed.len() > 0 {
                assert(listed[listed.len() - 1] < n);
            }
        } else {
            assert(all =~= below);
        }
    } else {
        assert(rest =~= Seq::empty());
        assert(all =~= below);
    }
}

/// Those of the lines that can be gone to: the first ones, if there are too many.
pub open spec fn navigable(listed: Seq<u32>) -> Seq<u32> {
    if listed.len() > MAX_NAVIGABLE_LINES {
        listed.take(MAX_NAVIGABLE_LINES as int)
    } else {
        listed
    }
}

/// Where no two hits share a line, the first hits are those of the first lines.
proof fn lemma_first_hits(starts: Seq<usize>, scanned: usize, all: Seq<usize>, m: int)
    requires
        logstore::lines_hit(starts, scanned, all).len() == all.len(),
        0 <= m <= all.len(),
    ensures
        logstore::lines_hit(starts, scanned, all.take(m)) == logstore::lines_hit(
            starts,
            scanned,
            all,
        ).take(m),
    decreases all.len(),
{
    let listed = logstore::lines_hit(starts, scanned, all);
    if m == all.len() {
        assert(all.take(m) =~= all);
        assert(listed.take(m) =~= listed);
    } else {
        let front = all.drop_last();
        lemma_no_more_lines_than_hits(starts, scanned, front);
        lemma_first_hits(starts, scanned, front, m);
        assert(front.take(m) =~= all.take(m));
        assert(logstore::lines_hit(starts, scanned, front).take(m) =~= listed.take(m));
    }
}

proof fn lemma_no_more_lines_than_hits(starts: Seq<usize>, scanned: usize, all: Seq<usize>)
    ensures
        logstore::lines_hit(starts, scanned, all).len() <= all.len(),
    decreases all.len(),
{
    if all.len() > 0 {
        lemma_no_more_lines_than_hits(starts, scanned, all.drop_last());
    }
}

/// A search that finds a line in each of `leads` lists the lines, or the first of them.
proof fn lemma_listed(s: Store, leads: Seq<usize>, listed: Seq<u32>, hits: logstore::SearchHits)
    requires
        logstore::lines_hit(s.line_starts, s.scanned, leads) == listed,
        listed.len() == leads.len(),
        hits.holds(leads, hits.total as nat),
    ensures
        s.with_hits(hits).matches == navigable(listed),
        s.with_hits(hits).truncated == (listed.len() > MAX_NAVIGABLE_LINES),
{
    if leads.len() > MAX_NAVIGABLE_LINES {
        lemma_first_hits(s.line_starts, s.scanned, leads, MAX_NAVIGABLE_LINES as int);
    } else {
        assert(leads.take(leads.len() as int) =~= leads);
    }
}

/// A search with a regular expression lists the lines whose text the expression matches, and no
/// others; of too many it lists the first ones, and says so.
pub proof fn law_regex_search_lists_lines(
    s: Store,
    data: Seq<u8>,
    pattern: Seq<char>,
    hits: logstore::SearchHits,
)
    requires
        describes(s, data),
        data.len() <= usize::MAX,
        s.line_count() <= u32::MAX,
        search::regex_answer(hits, data, s.real_len as int, pattern, s.encoding),
    ensures
        ({
            let listed = those_below(
                s.line_count() as int,
                |k: int|
                    line_is_hit(
                        s,
                        search_laws::start_if_matching(data, pattern, s.encoding),
                        k,
                    ),
            );
            &&& s.with_hits(hits).matches == navigable(listed)
            &&& s.with_hits(hits).truncated == (listed.len() > MAX_NAVIGABLE_LINES)
        }),
        forall|k: int|
            0 <= k < s.line_count() ==> (#[trigger] line_is_hit(
                s,
                search_laws::start_if_matching(data, pattern, s.encoding),
                k,
            ) <==> crate::outside::pattern_matches(pattern, s.line_text(data, k)->0)),
{
    let limit = s.real_len as int;
    let pick = search_laws::start_if_matching(data, pattern, s.encoding);
    search_laws::law_regex_search_by_line(data, 0, limit, pattern, s.encoding);
    law_hits_become_lines(s, data, pick);
    let listed = those_below(s.line_count() as int, |k: int| line_is_hit(s, pick, k));
    lemma_listed(s, search_laws::per_line(data, 0, limit, pick), listed, hits);
    assert forall|k: int| 0 <= k < s.line_count() implies (#[trigger] line_is_hit(s, pick, k)
        <==> crate::outside::pattern_matches(pattern, s.line_text(data, k)->0)) by {
        law_lines_cover_the_file(s, data, k);
        if k < s.line_starts.len() {
            lemma_stop(s, data, k);
            let a = s.line_starts[k] as int;
            let b = start_of(s, k + 1);
            lines::lemma_line_end(data, a, limit);
            assert(data.subrange(a, b) =~= data.subrange(a, b - 1).push(LF));
            lemma_feed_is_cut(data.subrange(a, b - 1));
        }
    }
}

/// A search for a run of bytes lists the lines in which the bytes stand, and no others; of too
/// many it lists the first ones, and says so.
pub proof fn law_plain_search_lists_lines(
    s: Store,
    data: Seq<u8>,
    pattern: Seq<u8>,
    hits: logstore::SearchHits,
)
    requires
        describes(s, data),
        data.len() <= usize::MAX,
        s.line_count() <= u32::MAX,
        search_laws::fits_in_line(pattern),
        search::plain_answer(hits, data, s.real_len as int, pattern, true),
    ensures
        ({
            let listed = those_below(
                s.line_count() as int,
                |k: int| line_is_hit(s, search_laws::first_in_line(data, pattern), k),
            );
            &&& s.with_hits(hits).matches == navigable(listed)
            &&& s.with_hits(hits).truncated == (listed.len() > MAX_NAVIGABLE_LINES)
        }),
{
    let limit = s.real_len as int;
    let pick = search_laws::first_in_line(data, pattern);
    search_laws::law_plain_search_by_line(data, 0, limit, pattern);
    lemma_first_picks_inside(data, pattern, limit);
    law_hits_become_lines(s, data, pick);
    let listed = those_below(s.line_count() as int, |k: int| line_is_hit(s, pick, k));
    lemma_listed(s, search_laws::per_line(data, 0, limit, pick), listed, hits);
}

proof fn lemma_first_picks_inside(data: Seq<u8>, pattern: Seq<u8>, limit: int)
    requires
        limit <= data.len() <= usize::MAX,
    ensures
        picks_inside(search_laws::first_in_line(data, pattern), limit),
{
    let pick = search_laws::first_in_line(data, pattern);
    assert forall|i: int, e: int| 0 <= i <= e <= limit implies (#[trigger] pick(i, e) matches Some(
        p,
    ) ==> i <= p <= e) by {
        search::lemma_occurrences(data.subrange(i, e), pattern, 0);
    }
}

proof fn lemma_lowered_starts(data: Seq<u8>, i: int, limit: int)
    requires
        0 <= i,
        limit <= data.len(),
    ensures
        lines::line_starts(search::lowered(data), i, limit) == lines::line_starts(data, i, limit),
        lines::tail_start(search::lowered(data), i, limit) == lines::tail_start(data, i, limit),
    decreases limit - i,
{
    search_laws::lemma_lowered_lines(data, i, limit);
    let e = lines::line_end(data, i, limit);
    if i <= e < limit {
        lemma_lowered_starts(data, e + 1, limit);
    }
}

/// A search in which case does not count lists the lines in which the pattern in lower case
/// stands once they are in lower case, and no others; of too many it lists the first ones, and
/// says so.
pub proof fn law_folded_search_lists_lines(
    s: Store,
    data: Seq<u8>,
    pattern: Seq<u8>,
    hits: logstore::SearchHits,
)
    requires
        describes(s, data),
        data.len() <= usize::MAX,
        s.line_count() <= u32::MAX,
        search::plain_answer(hits, data, s.real_len as int, pattern, false),
    ensures
        ({
            let listed = those_below(
                s.line_count() as int,
                |k: int|
                    line_is_hit(
                        s,
                        search_laws::first_in_line(search::lowered(data), search::lowered(pattern)),
                        k,
                    ),
            );
            &&& s.with_hits(hits).matches == navigable(listed)
            &&& s.with_hits(hits).truncated == (listed.len() > MAX_NAVIGABLE_LINES)
        }),
{
    let limit = s.real_len as int;
    let low = search::lowered(data);
    let needle = search::lowered(pattern);
    let pick = search_laws::first_in_line(low, needle);
    search_laws::law_folded_search_by_line(data, 0, limit, needle);
    lemma_lowered_starts(data, 0, limit);
    lemma_first_picks_inside(low, needle, limit);
    law_hits_become_lines(s, low, pick);
    let listed = those_below(s.line_count() as int, |k: int| line_is_hit(s, pick, k));
    lemma_listed(s, search_laws::per_line(low, 0, limit, pick), listed, hits);
}

/// The lines `m` are those of the first `n` for which `p` holds, in ascending order: all of them,
/// or the first million if there are more.
pub open spec fn lists_first(m: Seq<u32>, truncated: bool, n: int, p: spec_fn(int) -> bool) -> bool {
    &&& forall|i: int, j: int| 0 <= i < j < m.len() ==> m[i] < m[j]
    &&& forall|i: int| 0 <= i < m.len() ==> (#[trigger] m[i]) < n && p(m[i] as int)
    &&& m.len() <= 1_000_000
    &&& truncated ==> m.len() == 1_000_000
    &&& forall|k: int|
        0 <= k < n && #[trigger] p(k) ==> m.contains(k as u32) || (truncated && k > m.last())
    &&& truncated ==> exists|k: int| m.last() < k < n && #[trigger] p(k)
}

proof fn lemma_lists_first(n: int, p: spec_fn(int) -> bool)
    requires
        0 <= n <= u32::MAX,
    ensures
        lists_first(
            navigable(those_below(n, p)),
            those_below(n, p).len() > MAX_NAVIGABLE_LINES,
            n,
            p,
        ),
{
    law_those_below(n, p);
    let all = those_below(n, p);
    let m = navigable(all);
    assert forall|k: int| 0 <= k < n && #[trigger] p(k) implies m.contains(k as u32) || (all.len()
        > MAX_NAVIGABLE_LINES && k > m.last()) by {
        let i = choose|i: int| 0 <= i < all.len() && all[i] == k as u32;
        if i < m.len() {
            assert(m[i] == k as u32);
        } else {
            assert(all[m.len() - 1] < all[i]);
        }
    }
    if all.len() > MAX_NAVIGABLE_LINES {
        let k = all[m.len() as int] as int;
        assert(p(k));
        assert(all[m.len() - 1] < all[m.len() as int]);
    }
}

proof fn lemma_same_lists(
    m: Seq<u32>,
    truncated: bool,
    n: int,
    p: spec_fn(int) -> bool,
    q: spec_fn(int) -> bool,
)
    requires
        lists_first(m, truncated, n, p),
        forall|k: int| 0 <= k < n ==> #[trigger] p(k) == q(k),
    ensures
        lists_first(m, truncated, n, q),
{
    assert forall|i: int| 0 <= i < m.len() implies (#[trigger] m[i]) < n && q(m[i] as int) by {
        assert(p(m[i] as int));
    }
    assert forall|k: int| 0 <= k < n && #[trigger] q(k) implies m.contains(k as u32) || (truncated
        && k > m.last()) by {
        assert(p(k));
    }
    if truncated {
        let k = choose|k: int| m.last() < k < n && #[trigger] p(k);
        assert(q(k));
    }
}

/// From where up to where the bytes of line `k` reach, its line feed not counted.
pub open spec fn line_span(s: Store, k: int) -> (int, int) {
    let (a, b) = s.line_range(k)->0;
    (
        a as int,
        if k < s.line_starts.len() {
            b - 1
        } else {
            b as int
        },
    )
}

/// A search for a text lists the lines in which the bytes of the text stand, as they are or up
/// to case, and no others. It counts all the places where they stand, none of which overlaps
/// another, whether or not their lines can be listed.
pub proof fn law_search_lists_the_lines_with_the_text(
    s: Store,
    data: Seq<u8>,
    req: search::Request,
    hits: logstore::SearchHits,
)
    requires
        describes(s, data),
        data.len() <= usize::MAX,
        s.line_count() <= u32::MAX,
        !req.use_regex,
        search_laws::fits_in_line(encoding::bytes_of(req.query, s.encoding)),
        answers(hits, data, s.real_len as int, req, s.encoding),
    ensures
        ({
            let pattern = encoding::bytes_of(req.query, s.encoding);
            let t = s.answered(SearchMsg::Hits(hits));
            &&& lists_first(
                t.matches,
                t.truncated,
                s.line_count() as int,
                |k: int|
                    search_laws::read_between(
                        data,
                        pattern,
                        req.case_sensitive,
                        line_span(s, k).0,
                        line_span(s, k).1,
                    ),
            )
            &&& req.case_sensitive ==> t.total == crate::outside::occurrences(
                data.take(s.real_len as int),
                pattern,
                0,
            ).len()
            &&& !req.case_sensitive ==> t.total == crate::outside::occurrences(
                search::lowered(data).take(s.real_len as int),
                search::lowered(pattern),
                0,
            ).len()
            &&& !t.searching
        }),
{
    let pattern = encoding::bytes_of(req.query, s.encoding);
    let n = s.line_count() as int;
    let cs = req.case_sensitive;
    let hay = if cs {
        data
    } else {
        search::lowered(data)
    };
    let needle = if cs {
        pattern
    } else {
        search::lowered(pattern)
    };
    let pick = search_laws::first_in_line(hay, needle);
    let p = |k: int| line_is_hit(s, pick, k);
    let q = |k: int|
        search_laws::read_between(data, pattern, cs, line_span(s, k).0, line_span(s, k).1);
    if cs {
        law_plain_search_lists_lines(s, data, pattern, hits);
    } else {
        law_folded_search_lists_lines(s, data, pattern, hits);
        search_laws::law_case_is_ignored(data, s.real_len as int, pattern);
    }
    lemma_lists_first(n, p);
    assert forall|k: int| 0 <= k < n implies #[trigger] p(k) == q(k) by {
        law_lines_cover_the_file(s, data, k);
        let (a, b) = line_span(s, k);
        if k < s.line_starts.len() {
            lemma_stop(s, data, k);
        }
        search_laws::law_line_is_found_if_the_pattern_stands_there(data, pattern, cs, a, b);
    }
    lemma_same_lists(s.with_hits(hits).matches, s.with_hits(hits).truncated, n, p, q);
}

/// A search with a regular expression lists the lines whose text the expression matches, and no
/// others, and counts them. The expression is the query, told to ignore case if case does not
/// count.
pub proof fn law_search_lists_the_lines_that_match(
    s: Store,
    data: Seq<u8>,
    req: search::Request,
    hits: logstore::SearchHits,
)
    requires
        describes(s, data),
        data.len() <= usize::MAX,
        s.line_count() <= u32::MAX,
        req.use_regex,
        answers(hits, data, s.real_len as int, req, s.encoding),
    ensures
        ({
            let pattern = if req.case_sensitive {
                req.query
            } else {
                seq!['(', '?', 'i', ')'] + req.query
            };
            let t = s.answered(SearchMsg::Hits(hits));
            let p = |k: int|
                crate::outside::pattern_matches(pattern, s.line_text(data, k)->0);
            &&& lists_first(t.matches, t.truncated, s.line_count() as int, p)
            &&& t.total >= t.matches.len()
            &&& !t.truncated ==> t.total == t.matches.len()
            &&& !t.searching
        }),
{
    search_laws::law_pattern_is_the_query(req);
    let pattern = search::request_pattern(req);
    let n = s.line_count() as int;
    let pick = search_laws::start_if_matching(data, pattern, s.encoding);
    let p = |k: int| line_is_hit(s, pick, k);
    let q = |k: int| crate::outside::pattern_matches(pattern, s.line_text(data, k)->0);
    law_regex_search_lists_lines(s, data, pattern, hits);
    search_laws::law_regex_search_by_line(data, 0, s.real_len as int, pattern, s.encoding);
    law_hits_become_lines(s, data, pick);
    lemma_lists_first(n, p);
    assert forall|k: int| 0 <= k < n implies #[trigger] p(k) == q(k) by {
        assert(line_is_hit(s, pick, k) == p(k));
    }
    lemma_same_lists(s.with_hits(hits).matches, s.with_hits(hits).truncated, n, p, q);
}

/// The text of a line is that of its bytes, without the line feed and the carriage returns at
/// its end, in the encoding of the file.
pub proof fn law_line_is_read(s: Store, data: Seq<u8>, idx: int)
    requires
        describes(s, data),
        data.len() <= usize::MAX,
        0 <= idx < s.line_count(),
    ensures
        ({
            let (a, b) = s.line_range(idx)->0;
            let raw = s.line_bytes(data, idx)->0;
            &&& s.line_bytes(data, idx) is Some
            &&& s.line_text(data, idx) is Some
            &&& a + raw.len() <= b
            &&& raw == data.subrange(a as int, a + raw.len())
            &&& forall|j: int| a + raw.len() <= j < b ==> #[trigger] data[j] == 10 || data[j] == 13
            &&& raw.len() > 0 ==> raw.last() != 10 && raw.last() != 13
            &&& encoding::reads_as(raw, s.encoding, s.line_text(data, idx)->0)
        }),
{
    law_lines_cover_the_file(s, data, idx);
    let (a, b) = s.line_range(idx)->0;
    let all = data.subrange(a as int, b as int);
    let raw = s.line_bytes(data, idx)->0;
    lines::law_end_of_line(all);
    assert(raw =~= data.subrange(a as int, a + raw.len()));
    assert forall|j: int| a + raw.len() <= j < b implies #[trigger] data[j] == 10 || data[j]
        == 13 by {
        assert(all[j - a] == data[j]);
    }
    encoding::law_bytes_and_texts(raw, Seq::empty(), s.encoding);
}

/// A search for nothing is no search: what was found is gone, and nothing is waited for.
pub proof fn law_empty_query_is_no_search(s: Store, req: search::Request)
    requires
        req.query.len() == 0,
    ensures
        ({
            let t = s.with_request(req);
            &&& t.matches.len() == 0
            &&& !t.searching && !t.awaiting && !t.truncated
            &&& t.total == 0
            &&& t.pending is None && t.regex_error is None && t.search_job is None
            &&& t.line_starts == s.line_starts && t.real_len == s.real_len && t.indexing
                == s.indexing
        }),
{
}

/// A search that can run is handed out at once, on the whole file, for what was asked and in the
/// encoding of the file. What the search before it said is taken back.
pub proof fn law_search_is_handed_out(s: Store, req: search::Request)
    requires
        req.query.len() > 0,
        !s.indexing,
    ensures
        ({
            let t = s.with_request(req);
            &&& t.searching && t.awaiting
            &&& t.pending is None && t.regex_error is None
            &&& t.search_job == Some(
                logstore::SearchTask { request: req, limit: s.real_len, encoding: s.encoding },
            )
            &&& t.line_starts == s.line_starts && !t.indexing
        }),
{
}

/// An answer is taken in if one is waited for, and only then. A bad pattern is told of; hits put
/// an end to nothing else.
pub proof fn law_answers_are_taken_in(s: Store, reply: SearchMsg)
    ensures
        ({
            let t = s.pumped(Seq::empty(), Some(reply));
            &&& !s.awaiting ==> t.matches == s.matches && t.searching == s.searching && t.total
                == s.total && t.regex_error == s.regex_error
            &&& s.awaiting ==> !t.searching && !t.awaiting
            &&& s.awaiting && reply is RegexError ==> t.regex_error == Some(reply->RegexError_0@)
                && t.matches == s.matches
            &&& s.awaiting && reply is Hits ==> t.total == reply->Hits_0.total && t.truncated
                == reply->Hits_0.dropped && t.regex_error == s.regex_error
            &&& t.line_starts == s.line_starts && t.indexing == s.indexing && t.real_len
                == s.real_len
        }),
{
    assert(s.line_starts + logstore::reported_lines(Seq::empty()) =~= s.line_starts);
}

/// A file that is as long as it was, or cannot be opened, is left as it is. One that has grown
/// keeps its lines and what was found in it; one that has shrunk keeps neither.
pub proof fn law_refreshing(s: Store, len: usize, remap: Remap)
    ensures
        len == s.real_len || remap is Unopened ==> s.refreshed(len, remap) == s,
        len > s.real_len ==> {
            let t = s.refreshed(len, remap);
            &&& t.line_starts == s.line_starts && t.scanned == s.scanned && t.matches == s.matches
                && t.total == s.total
            &&& remap is Mapped ==> t.real_len == remap->Mapped_0 && t.indexing
            &&& remap is Mapped && !s.indexing ==> t.index_job == Some(
                IndexJob { start: s.scanned, limit: remap->Mapped_0 },
            )
            &&& remap is Unmapped ==> t == s
        },
        len < s.real_len && !(remap is Unopened) ==> {
            let t = s.refreshed(len, remap);
            &&& t.line_starts.len() == 0 && t.scanned == 0 && t.matches.len() == 0 && t.total == 0
                && t.pending is None && !t.truncated
            &&& remap is Mapped ==> t.real_len == remap->Mapped_0 && t.index_job == Some(
                IndexJob { start: 0, limit: remap->Mapped_0 },
            ) && t.indexing
        },
{
}

/// A text is looked for by its bytes, and found at the first place where they stand.
pub proof fn law_text_is_found_at_its_first_place(s: Store, data: Seq<u8>, needle: Seq<char>)
    requires
        s.real_len <= data.len() <= usize::MAX,
        needle.len() > 0,
    ensures
        ({
            let bytes = encoding::bytes_of(needle, s.encoding);
            let hay = data.take(s.real_len as int);
            match s.find_offset_of(data, needle) {
                Some(o) => search_laws::read_at(hay, bytes, true, o as int) && forall|j: int|
                    0 <= j < o ==> !#[trigger] search_laws::read_at(hay, bytes, true, j),
                None => forall|j: int| !#[trigger] search_laws::read_at(hay, bytes, true, j),
            }
        }),
{
    let bytes = encoding::bytes_of(needle, s.encoding);
    let hay = data.take(s.real_len as int);
    search::lemma_first_occurrence(hay, bytes, 0);
    assert forall|j: int| #[trigger] search_laws::read_at(hay, bytes, true, j)
        <==> crate::outside::occurs_at(hay, bytes, j) by {
        search_laws::lemma_read_is_occurrence(hay, bytes, j);
    }
}

/// The bytes from `a` up to `b` are the line around `offset`: a line feed stands before them or
/// nothing, none stands among them, and one stands behind them or nothing.
pub open spec fn is_line_around(data: Seq<u8>, a: int, b: int, offset: int) -> bool {
    &&& 0 <= a <= offset <= b <= data.len()
    &&& a == 0 || data[a - 1] == 10
    &&& b == data.len() || data[b] == 10
    &&& forall|j: int| a <= j < b ==> #[trigger] data[j] != 10
}

/// The text at a position is that of the line around it, without the carriage returns at its
/// end; to read it takes no index.
pub proof fn law_text_at_a_position_is_that_of_its_line(s: Store, data: Seq<u8>, offset: usize)
    requires
        s.real_len <= data.len() <= usize::MAX,
        offset < s.real_len,
    ensures
        ({
            let hay = data.take(s.real_len as int);
            let raw = s.bytes_at(data, offset)->0;
            &&& s.bytes_at(data, offset) is Some && s.line_text_at(data, offset) is Some
            &&& exists|a: int, b: int| #[trigger]
                is_line_around(hay, a, b, offset as int) && a + raw.len() <= b && raw
                    == hay.subrange(a, a + raw.len()) && (raw.len() > 0 ==> raw.last() != 13
                    && raw.last() != 10) && forall|j: int|
                    a + raw.len() <= j < b ==> #[trigger] hay[j] == 13
            &&& encoding::reads_as(raw, s.encoding, s.line_text_at(data, offset)->0)
        }),
{
    let hay = data.take(s.real_len as int);
    let raw = s.bytes_at(data, offset)->0;
    let a = logstore::back_to_start(hay, offset as int);
    let b = lines::line_end(hay, offset as int, hay.len() as int);
    lemma_back(hay, offset as int);
    lines::lemma_line_end(hay, offset as int, hay.len() as int);
    let all = hay.subrange(a, b);
    lines::law_end_of_line(all);
    assert(raw =~= hay.subrange(a, a + raw.len()));
    assert forall|j: int| a + raw.len() <= j < b implies #[trigger] hay[j] == 13 by {
        assert(all[j - a] == hay[j]);
        assert(hay[j] != 10);
    }
    assert(is_line_around(hay, a, b, offset as int));
    encoding::law_bytes_and_texts(raw, Seq::empty(), s.encoding);
}

proof fn lemma_back(data: Seq<u8>, i: int)
    requires
        0 <= i <= data.len(),
    ensures
        0 <= logstore::back_to_start(data, i) <= i,
        logstore::back_to_start(data, i) == 0 || data[logstore::back_to_start(data, i) - 1] == 10,
        forall|j: int| logstore::back_to_start(data, i) <= j < i ==> #[trigger] data[j] != 10,
    decreases i,
{
    if i > 0 && data[i - 1] != lines::LF {
        lemma_back(data, i - 1);
    }
}

/// A position leads to the last line that starts at or before it, once the scan has come so far.
pub proof fn law_line_of_a_position(s: Store, offset: usize)
    requires
        s.wf(),
    ensures
        offset >= s.scanned ==> s.line_index_at(offset) is None,
        offset < s.scanned && s.line_index_at(offset) is Some ==> {
            let k = s.line_index_at(offset)->0;
            &&& k < s.line_starts.len()
            &&& s.line_starts[k as int] <= offset
            &&& k + 1 < s.line_starts.len() ==> offset < s.line_starts[k + 1]
        },
        offset < s.scanned && s.line_index_at(offset) is None ==> s.line_starts.len() == 0 || offset
            < s.line_starts[0],
{
    lemma_line_at(s.line_starts, offset);
}

proof fn lemma_line_at(starts: Seq<usize>, offset: usize)
    requires
        logstore::ascending(starts),
        starts.len() <= usize::MAX,
    ensures
        match logstore::line_at(starts, offset) {
            Some(k) => k < starts.len() && starts[k as int] <= offset && (k + 1 < starts.len()
                ==> offset < starts[k + 1]),
            None => starts.len() == 0 || offset < starts[0],
        },
    decreases starts.len(),
{
    if starts.len() > 0 && starts.last() > offset {
        let front = starts.drop_last();
        assert forall|j: int, k: int| 0 <= j < k < front.len() implies front[j] < front[k] by {
            assert(starts[j] < starts[k]);
        }
        lemma_line_at(front, offset);
    }
}

/// What is shown changes if lines come in while the file is scanned, or an answer that is waited
/// for; an answer to a search that the scan's end sets off anew is not taken in.
pub proof fn law_what_changes_the_view(
    s: Store,
    msgs: Seq<lines::IndexReport>,
    reply: Option<SearchMsg>,
)
    ensures
        msgs.len() == 0 && reply is None ==> !s.stirred(msgs, reply) && s.pumped(msgs, reply)
            == s.pumped(Seq::empty(), None),
        s.indexing && msgs.len() > 0 ==> s.stirred(msgs, reply),
        !s.indexing && s.awaiting && reply is Some ==> s.stirred(msgs, reply),
        !s.indexing && (!s.awaiting || reply is None) ==> !s.stirred(msgs, reply) && s.pumped(
            msgs,
            reply,
        ) == s,
{
}

} // verus!
