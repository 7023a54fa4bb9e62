//! Where the lines of a file begin and end.
//!
//! A line runs up to and including its line feed. What stands behind the last line feed is
//! the tail: a line that has not been finished yet.

use vstd::prelude::*;

verus! {

/// The line feed.
pub const LF: u8 = 10;

/// The carriage return.
pub const CR: u8 = 13;

/// How many line starts go into one batch.
pub const INDEX_CHUNK: usize = 20_000;

/// The first line feed at or after `i` and before `limit`, or `limit`.
pub open spec fn line_end(data: Seq<u8>, i: int, limit: int) -> int
    decreases limit - i,
{
    if i < limit && data[i] != LF {
        line_end(data, i + 1, limit)
    } else {
        i
    }
}

pub proof fn lemma_line_end(data: Seq<u8>, i: int, limit: int)
    requires
        0 <= i <= limit <= data.len(),
    ensures
        i <= line_end(data, i, limit) <= limit,
        forall|j: int| i <= j < line_end(data, i, limit) ==> #[trigger] data[j] != LF,
        line_end(data, i, limit) < limit ==> data[line_end(data, i, limit)] == LF,
    decreases limit - i,
{
    if i < limit && data[i] != LF {
        lemma_line_end(data, i + 1, limit);
    }
}

/// The end of a line is the only position with what [`line_end`] promises.
pub proof fn lemma_line_end_is(data: Seq<u8>, i: int, limit: int, e: int)
    requires
        0 <= i <= e <= limit <= data.len(),
        forall|j: int| i <= j < e ==> #[trigger] data[j] != LF,
        e < limit ==> data[e] == LF,
    ensures
        line_end(data, i, limit) == e,
    decreases limit - i,
{
    if i < e {
        assert(data[i] != LF);
        lemma_line_end_is(data, i + 1, limit, e);
    }
}

/// The starts of the finished lines from `i` up to `limit`, where a line starts at `i`.
pub open spec fn line_starts(data: Seq<u8>, i: int, limit: int) -> Seq<usize>
    decreases limit - i,
{
    let e = line_end(data, i, limit);
    if i <= e < limit {
        seq![i as usize] + line_starts(data, e + 1, limit)
    } else {
        Seq::empty()
    }
}

/// Where the tail starts, for a line that starts at `i`.
pub open spec fn tail_start(data: Seq<u8>, i: int, limit: int) -> int
    decreases limit - i,
{
    let e = line_end(data, i, limit);
    if i <= e < limit {
        tail_start(data, e + 1, limit)
    } else {
        i
    }
}

/// Where the finished line `k` stops: at the start of the next one, or at the tail.
pub open spec fn line_stop(starts: Seq<usize>, tail: int, k: int) -> int {
    if k + 1 < starts.len() {
        starts[k + 1] as int
    } else {
        tail
    }
}

/// How many line feeds stand from `i` up to `limit`.
pub open spec fn count_feeds(data: Seq<u8>, i: int, limit: int) -> nat
    decreases limit - i,
{
    if i >= limit {
        0
    } else if data[i] == LF {
        1 + count_feeds(data, i + 1, limit)
    } else {
        count_feeds(data, i + 1, limit)
    }
}

/// The lines of a file follow one another without a gap: the first starts where the scan
/// starts, each of the others where the one before it stops, and the tail where the last one
/// stops. Each finished line holds one line feed, at its end, and the tail holds none.
pub proof fn law_lines_adjoin(data: Seq<u8>, i: int, limit: int)
    requires
        0 <= i <= limit <= data.len() <= usize::MAX,
    ensures
        ({
            let starts = line_starts(data, i, limit);
            let tail = tail_start(data, i, limit);
            &&& i <= tail <= limit
            &&& line_end(data, tail, limit) == limit
            &&& starts.len() == 0 ==> tail == i
            &&& starts.len() > 0 ==> starts[0] == i
            &&& forall|k: int|
                0 <= k < starts.len() ==> {
                    &&& i <= #[trigger] starts[k] < line_stop(starts, tail, k) <= tail
                    &&& line_end(data, starts[k] as int, limit) == line_stop(starts, tail, k) - 1
                    &&& data[line_stop(starts, tail, k) - 1] == LF
                }
            &&& forall|j: int, k: int| 0 <= j < k < starts.len() ==> starts[j] < starts[k]
        }),
    decreases limit - i,
{
    let e = line_end(data, i, limit);
    lemma_line_end(data, i, limit);
    if e < limit {
        law_lines_adjoin(data, e + 1, limit);
        let starts = line_starts(data, i, limit);
        let rest = line_starts(data, e + 1, limit);
        let tail = tail_start(data, i, limit);
        assert forall|k: int| 0 <= k < starts.len() implies {
            &&& i <= #[trigger] starts[k] < line_stop(starts, tail, k) <= tail
            &&& line_end(data, starts[k] as int, limit) == line_stop(starts, tail, k) - 1
            &&& data[line_stop(starts, tail, k) - 1] == LF
        } by {
            if k > 0 {
                assert(starts[k] == rest[k - 1]);
                assert(line_stop(starts, tail, k) == line_stop(rest, tail, k - 1));
            }
        }
        assert forall|j: int, k: int| 0 <= j < k < starts.len() implies starts[j] < starts[k] by {
            assert(starts[k] == rest[k - 1]);
            if j > 0 {
                assert(starts[j] == rest[j - 1]);
            }
        }
    }
}

/// Where no line feed stands there is none to count.
pub proof fn lemma_count_feeds(data: Seq<u8>, i: int, e: int, limit: int)
    requires
        0 <= i <= e <= limit <= data.len(),
        forall|j: int| i <= j < e ==> #[trigger] data[j] != LF,
    ensures
        count_feeds(data, i, limit) == count_feeds(data, e, limit),
    decreases e - i,
{
    if i < e {
        assert(data[i] != LF);
        lemma_count_feeds(data, i + 1, e, limit);
    }
}

/// Line feeds are counted piece by piece.
pub proof fn lemma_feeds_add_up(data: Seq<u8>, i: int, m: int, limit: int)
    requires
        0 <= i <= m <= limit <= data.len(),
    ensures
        count_feeds(data, i, limit) == count_feeds(data, i, m) + count_feeds(data, m, limit),
    decreases m - i,
{
    if i < m {
        lemma_feeds_add_up(data, i + 1, m, limit);
    }
}

/// There are no more line feeds than bytes.
pub proof fn lemma_feeds_are_bytes(data: Seq<u8>, i: int, limit: int)
    requires
        0 <= i <= limit <= data.len(),
    ensures
        count_feeds(data, i, limit) <= limit - i,
    decreases limit - i,
{
    if i < limit {
        lemma_feeds_are_bytes(data, i + 1, limit);
    }
}

/// There are as many finished lines as there are line feeds.
pub proof fn law_one_line_per_feed(data: Seq<u8>, i: int, limit: int)
    requires
        0 <= i <= limit <= data.len(),
    ensures
        line_starts(data, i, limit).len() == count_feeds(data, i, limit),
    decreases limit - i,
{
    let e = line_end(data, i, limit);
    lemma_line_end(data, i, limit);
    lemma_count_feeds(data, i, e, limit);
    if e < limit {
        law_one_line_per_feed(data, e + 1, limit);
    }
}

proof fn lemma_same_end(data: Seq<u8>, limit: int, longer: Seq<u8>, new_limit: int, i: int)
    requires
        0 <= i <= limit <= data.len(),
        limit <= new_limit <= longer.len(),
        longer.take(limit) == data.take(limit),
    ensures
        line_end(data, i, limit) < limit ==> line_end(longer, i, new_limit) == line_end(
            data,
            i,
            limit,
        ),
    decreases limit - i,
{
    if i < limit {
        assert(longer[i] == longer.take(limit)[i]);
        assert(data[i] == data.take(limit)[i]);
        lemma_same_end(data, limit, longer, new_limit, i + 1);
    }
}

/// A file that has grown need not be scanned again from its beginning: the line starts found
/// before, followed by those of a scan from the tail on, are the line starts of the whole.
pub proof fn law_scan_resumes_at_tail(
    data: Seq<u8>,
    limit: int,
    longer: Seq<u8>,
    new_limit: int,
    i: int,
)
    requires
        0 <= i <= limit <= data.len(),
        limit <= new_limit <= longer.len(),
        longer.take(limit) == data.take(limit),
    ensures
        line_starts(longer, i, new_limit) == line_starts(data, i, limit) + line_starts(
            longer,
            tail_start(data, i, limit),
            new_limit,
        ),
        tail_start(longer, i, new_limit) == tail_start(
            longer,
            tail_start(data, i, limit),
            new_limit,
        ),
    decreases limit - i,
{
    let e = line_end(data, i, limit);
    lemma_line_end(data, i, limit);
    if e < limit {
        lemma_same_end(data, limit, longer, new_limit, i);
        law_scan_resumes_at_tail(data, limit, longer, new_limit, e + 1);
    }
    assert(line_starts(longer, i, new_limit) =~= line_starts(data, i, limit) + line_starts(
        longer,
        tail_start(data, i, limit),
        new_limit,
    ));
}

/// The end of `s` once the line feeds and carriage returns before position `e` are dropped.
pub open spec fn eol_start(s: Seq<u8>, e: int) -> int
    decreases e,
{
    if 0 < e <= s.len() && (s[e - 1] == LF || s[e - 1] == CR) {
        eol_start(s, e - 1)
    } else {
        e
    }
}

/// `s` without the line feeds and carriage returns at its end.
pub open spec fn without_eol(s: Seq<u8>) -> Seq<u8> {
    s.take(eol_start(s, s.len() as int))
}

/// What is cut off is line feeds and carriage returns only, and none is left at the end.
pub proof fn lemma_eol_start(s: Seq<u8>)
    ensures
        0 <= eol_start(s, s.len() as int) <= s.len(),
        without_eol(s).len() > 0 ==> without_eol(s).last() != LF && without_eol(s).last() != CR,
        forall|j: int|
            eol_start(s, s.len() as int) <= j < s.len() ==> #[trigger] s[j] == LF || s[j] == CR,
{
    lemma_eol_start_before(s, s.len() as int);
}

proof fn lemma_eol_start_before(s: Seq<u8>, e: int)
    requires
        0 <= e <= s.len(),
    ensures
        0 <= eol_start(s, e) <= e,
        eol_start(s, e) > 0 ==> s[eol_start(s, e) - 1] != LF && s[eol_start(s, e) - 1] != CR,
        forall|j: int| eol_start(s, e) <= j < e ==> #[trigger] s[j] == LF || s[j] == CR,
    decreases e,
{
    if 0 < e && (s[e - 1] == LF || s[e - 1] == CR) {
        lemma_eol_start_before(s, e - 1);
    }
}

/// Cuts the line feeds and carriage returns off the end of `b`.
pub fn trim_eol(b: &[u8]) -> (r: &[u8])
    ensures
        r@ == without_eol(b@),
{
    let mut e: usize = b.len();
    while e > 0 && (b[e - 1] == LF || b[e - 1] == CR)
        invariant
            e <= b@.len(),
            eol_start(b@, b@.len() as int) == eol_start(b@, e as int),
        decreases e,
    {
        e -= 1;
    }
    &b[0..e]
}

/// Where the line that starts at `i` ends: at its line feed, or at `limit`.
pub fn find_line_end(data: &[u8], i: usize, limit: usize) -> (e: usize)
    requires
        i <= limit <= data@.len(),
    ensures
        e == line_end(data@, i as int, limit as int),
        i <= e <= limit,
{
    let rest: &[u8] = &data[i..limit];
    let e: usize = match memchr::memchr(LF, rest) {
        Some(rel) => i + rel,
        None => limit,
    };
    proof {
        assert forall|j: int| i <= j < e implies #[trigger] data@[j] != LF by {
            assert(rest@[j - i] == data@[j]);
        }
        if e < limit {
            assert(rest@[e - i] == data@[e as int]);
        }
        lemma_line_end_is(data@, i as int, limit as int, e as int);
    }
    e
}

/// A line starts at position `i`.
pub open spec fn starts_line(data: Seq<u8>, i: int) -> bool {
    i == 0 || data[i - 1] == LF
}

/// No line of the first `limit` bytes is longer than `max`, its line feed not counted.
pub open spec fn lines_within(data: Seq<u8>, limit: int, max: int) -> bool {
    forall|i: int|
        0 <= i < limit && starts_line(data, i) ==> #[trigger] line_end(data, i, limit) - i <= max
}

/// Tells whether no line of the first `limit` bytes is longer than `max`.
pub fn no_line_above(data: &[u8], limit: usize, max: usize) -> (r: bool)
    requires
        limit <= data@.len(),
    ensures
        r == lines_within(data@, limit as int, max as int),
{
    let mut i: usize = 0;
    while i < limit
        invariant
            i <= limit,
            limit <= data@.len(),
            i < limit ==> starts_line(data@, i as int),
            forall|j: int|
                0 <= j < i && starts_line(data@, j) ==> #[trigger] line_end(
                    data@,
                    j,
                    limit as int,
                ) - j <= max,
        decreases limit - i,
    {
        let end = find_line_end(data, i, limit);
        proof {
            lemma_line_end(data@, i as int, limit as int);
        }
        if end - i > max {
            return false;
        }
        proof {
            assert forall|j: int| i < j <= end implies !starts_line(data@, j) by {
                assert(data@[j - 1] != LF);
            }
        }
        i = if end < limit {
            end + 1
        } else {
            limit
        };
    }
    true
}

/// What a scan for line starts reports.
pub enum IndexMsg {
    /// A batch of line starts.
    Lines(Vec<usize>),
    /// The scan has ended, and the tail starts here.
    Done(usize),
}

/// The value of an [`IndexMsg`].
#[verifier::ext_equal]
pub enum IndexReport {
    Lines(Seq<usize>),
    Done(usize),
}

impl View for IndexMsg {
    type V = IndexReport;

    open spec fn view(&self) -> IndexReport {
        match *self {
            IndexMsg::Lines(v) => IndexReport::Lines(v@),
            IndexMsg::Done(pos) => IndexReport::Done(pos),
        }
    }
}

/// Line starts in batches of [`INDEX_CHUNK`]; only the last batch may be smaller.
pub open spec fn batches(starts: Seq<usize>) -> Seq<IndexReport>
    decreases starts.len(),
{
    if starts.len() == 0 {
        Seq::empty()
    } else if starts.len() <= INDEX_CHUNK {
        seq![IndexReport::Lines(starts)]
    } else {
        seq![IndexReport::Lines(starts.take(INDEX_CHUNK as int))] + batches(
            starts.skip(INDEX_CHUNK as int),
        )
    }
}

/// What a scan from `i` to `limit` reports: the batches, then where the tail starts.
pub open spec fn scan_reports(data: Seq<u8>, i: int, limit: int) -> Seq<IndexReport> {
    batches(line_starts(data, i, limit)).push(
        IndexReport::Done(tail_start(data, i, limit) as usize),
    )
}

/// A scan for line starts, under way.
pub struct LineScan {
    pos: usize,
    limit: usize,
    done: bool,
}

impl LineScan {
    /// The reports that are still to come.
    pub closed spec fn to_come(self, data: Seq<u8>) -> Seq<IndexReport> {
        if self.done {
            Seq::empty()
        } else {
            scan_reports(data, self.pos as int, self.limit as int)
        }
    }

    /// The scan stays within `data`.
    pub closed spec fn within(self, data: Seq<u8>) -> bool {
        self.pos <= self.limit <= data.len()
    }

    /// A scan of `data` from `start` to `limit`, as far as `data` reaches.
    pub fn new(data: &[u8], start: usize, limit: usize) -> (scan: LineScan)
        ensures
            scan.within(data@),
            scan.to_come(data@) == scan_reports(
                data@,
                vstd::math::min(start as int, vstd::math::min(limit as int, data@.len() as int)),
                vstd::math::min(limit as int, data@.len() as int),
            ),
    {
        let limit: usize = if limit < data.len() {
            limit
        } else {
            data.len()
        };
        let pos: usize = if start < limit {
            start
        } else {
            limit
        };
        LineScan { pos, limit, done: false }
    }

    /// The next report, or nothing once all have come.
    pub fn next_msg(&mut self, data: &[u8]) -> (r: Option<IndexMsg>)
        requires
            old(self).within(data@),
        ensures
            final(self).within(data@),
            r matches Some(msg) ==> {
                &&& old(self).to_come(data@).len() > 0
                &&& msg@ == old(self).to_come(data@)[0]
                &&& final(self).to_come(data@) == old(self).to_come(data@).drop_first()
            },
            r is None ==> old(self).to_come(data@).len() == 0 && final(self).to_come(data@).len()
                == 0,
    {
        if self.done {
            return None;
        }
        let limit: usize = self.limit;
        let ghost all = line_starts(data@, self.pos as int, limit as int);
        let ghost tail = tail_start(data@, self.pos as int, limit as int);
        let mut i: usize = self.pos;
        let mut batch: Vec<usize> = Vec::new();
        let mut more: bool = i < limit;
        while more && batch.len() < INDEX_CHUNK
            invariant
                i <= limit <= data@.len(),
                batch@.len() <= INDEX_CHUNK,
                all == batch@ + line_starts(data@, i as int, limit as int),
                tail == tail_start(data@, i as int, limit as int),
                !more ==> line_starts(data@, i as int, limit as int).len() == 0,
            decreases limit - i, (if more { 1int } else { 0 }),
        {
            let e = find_line_end(data, i, limit);
            if e < limit {
                let ghost rest = line_starts(data@, e + 1, limit as int);
                assert(all =~= batch@.push(i) + rest);
                batch.push(i);
                i = e + 1;
                more = i < limit;
            } else {
                more = false;
            }
        }
        let ghost rest = line_starts(data@, i as int, limit as int);
        self.pos = i;
        if batch.len() == 0 {
            assert(all =~= rest);
            self.done = true;
            assert(scan_reports(data@, old(self).pos as int, limit as int) =~= seq![
                IndexReport::Done(i),
            ]);
            assert(old(self).to_come(data@).drop_first() =~= Seq::empty());
            return Some(IndexMsg::Done(i));
        }
        proof {
            assert(all.take(batch@.len() as int) =~= batch@);
            assert(all.skip(batch@.len() as int) =~= rest);
            if rest.len() == 0 {
                assert(all =~= batch@);
                assert(batches(rest) =~= Seq::empty());
                assert(batches(all) =~= seq![IndexReport::Lines(batch@)] + batches(rest));
            }
            assert(batches(all) =~= seq![IndexReport::Lines(batch@)] + batches(rest));
            assert(old(self).to_come(data@).drop_first() =~= self.to_come(data@));
        }
        Some(IndexMsg::Lines(batch))
    }
}

/// Everything that a scan of `data` from `start` to `limit` reports.
pub fn scan_lines(data: &[u8], start: usize, limit: usize) -> (r: Vec<IndexMsg>)
    ensures
        r@.map_values(|m: IndexMsg| m@) == scan_reports(
            data@,
            vstd::math::min(start as int, vstd::math::min(limit as int, data@.len() as int)),
            vstd::math::min(limit as int, data@.len() as int),
        ),
{
    let mut scan = LineScan::new(data, start, limit);
    let ghost all = scan.to_come(data@);
    let ghost f = |m: IndexMsg| m@;
    let mut out: Vec<IndexMsg> = Vec::new();
    let mut more: bool = true;
    assert(out@.map_values(f) + scan.to_come(data@) =~= all);
    while more
        invariant
            scan.within(data@),
            f == |m: IndexMsg| m@,
            out@.map_values(f) + scan.to_come(data@) == all,
            !more ==> scan.to_come(data@).len() == 0,
        decreases scan.to_come(data@).len(), (if more { 1int } else { 0 }),
    {
        let ghost before = scan.to_come(data@);
        match scan.next_msg(data) {
            Some(msg) => {
                proof {
                    assert(out@.push(msg).map_values(f) =~= out@.map_values(f).push(msg@));
                    assert(before =~= seq![msg@] + scan.to_come(data@));
                    assert(out@.map_values(f).push(msg@) + scan.to_come(data@) =~= all);
                }
                out.push(msg);
            },
            None => {
                more = false;
            },
        }
    }
    assert(out@.map_values(f) =~= all);
    out
}

/// The end of a line is cut off: all line feeds and carriage returns at its end, and nothing
/// else.
pub proof fn law_end_of_line(s: Seq<u8>)
    ensures
        ({
            let t = without_eol(s);
            &&& t.len() <= s.len()
            &&& t == s.take(t.len() as int)
            &&& forall|j: int| t.len() <= j < s.len() ==> #[trigger] s[j] == 10 || s[j] == 13
            &&& t.len() > 0 ==> t.last() != 10 && t.last() != 13
        }),
{
    lemma_eol_start(s);
    assert(without_eol(s) =~= s.take(without_eol(s).len() as int));
}

/// A finished line starts at the beginning and behind each line feed that another one follows;
/// what stands behind the last line feed is the tail.
pub proof fn law_line_starts(data: Seq<u8>, limit: int, p: int)
    requires
        0 <= limit <= data.len() <= usize::MAX,
        0 <= p <= limit,
    ensures
        line_starts(data, 0, limit).contains(p as usize) <==> (p == 0 || data[p - 1] == 10)
            && exists|j: int| p <= j < limit && #[trigger] data[j] == 10,
        tail_start(data, 0, limit) == p <==> (p == 0 || data[p - 1] == 10) && forall|j: int|
            p <= j < limit ==> #[trigger] data[j] != 10,
{
    lemma_starts_from(data, 0, limit, p);
}

proof fn lemma_starts_from(data: Seq<u8>, i: int, limit: int, p: int)
    requires
        0 <= i <= p <= limit <= data.len() <= usize::MAX,
    ensures
        line_starts(data, i, limit).contains(p as usize) <==> (p == i || data[p - 1] == LF)
            && exists|j: int| p <= j < limit && #[trigger] data[j] == LF,
        tail_start(data, i, limit) == p <==> (p == i || data[p - 1] == LF) && forall|j: int|
            p <= j < limit ==> #[trigger] data[j] != LF,
    decreases limit - i,
{
    let e = line_end(data, i, limit);
    lemma_line_end(data, i, limit);
    law_lines_adjoin(data, i, limit);
    let starts = line_starts(data, i, limit);
    if e < limit {
        let rest = line_starts(data, e + 1, limit);
        law_lines_adjoin(data, e + 1, limit);
        assert(starts[0] == i);
        if p <= e {
            if p > i {
                assert(data[p - 1] != LF);
                if starts.contains(p as usize) {
                    let k = choose|k: int| 0 <= k < starts.len() && starts[k] == p as usize;
                    assert(k > 0);
                    assert(rest[k - 1] == p);
                    assert(rest[0] == e + 1);
                }
            }
        } else {
            lemma_starts_from(data, e + 1, limit, p);
            if rest.contains(p as usize) {
                let k = choose|k: int| 0 <= k < rest.len() && rest[k] == p as usize;
                assert(starts[k + 1] == p);
            }
            if starts.contains(p as usize) {
                let k = choose|k: int| 0 <= k < starts.len() && starts[k] == p as usize;
                assert(k > 0);
                assert(rest[k - 1] == p);
            }
        }
    } else {
        if p > i {
            assert(data[p - 1] != LF);
        }
    }
}

} // verus!
