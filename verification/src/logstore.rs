//! A log file: the index of its lines, and the search in it.
//!
//! The store does not hold the bytes of the file. What reads them takes them as an argument.
//! What takes long, the scan for lines and the search, is handed out as a job; what comes of
//! it is handed back to [`LogStore::pump`].

use crate::encoding;
use crate::lines;
use crate::lines::LF;
use crate::outside;
use crate::search;
use vstd::prelude::*;

pub use crate::encoding::{encoding_name, is_utf8, Encoding};
pub use crate::lines::{scan_lines, IndexMsg, INDEX_CHUNK};
pub use crate::search::{
    run_search, SearchHits, SearchMsg, SearchRequest, MAX_NAVIGABLE_LINES,
};

verus! {

/// A scan for line starts that is to be run.
#[derive(Clone, Copy, Debug, PartialEq, Eq, Structural)]
pub struct IndexJob {
    pub start: usize,
    pub limit: usize,
}

/// A search that is to be run.
pub struct SearchJob {
    pub request: SearchRequest,
    pub limit: usize,
    pub encoding: Encoding,
}

/// The value of a [`SearchJob`].
pub struct SearchTask {
    pub request: search::Request,
    pub limit: usize,
    pub encoding: Encoding,
}

impl View for SearchJob {
    type V = SearchTask;

    open spec fn view(&self) -> SearchTask {
        SearchTask { request: self.request@, limit: self.limit, encoding: self.encoding }
    }
}

/// What became of the attempt to map a file that has changed.
#[derive(Clone, Copy, Debug, PartialEq, Eq, Structural)]
pub enum Remap {
    /// The file could not be opened.
    Unopened,
    /// The file was opened and could not be mapped.
    Unmapped,
    /// The file was mapped, and is this long.
    Mapped(usize),
}

/// The view of a log file that is shown.
pub struct LogStore {
    /// The path of the file, as it is shown.
    pub path: String,
    /// The starts of the finished lines, in ascending order.
    line_starts: Vec<usize>,
    /// How far the file has been scanned: where the tail starts.
    scanned: usize,
    /// How long the file is.
    real_len: usize,
    pub encoding: Encoding,
    /// A scan is under way.
    pub indexing: bool,
    /// A search has been handed out, and its answer has not come yet.
    awaiting: bool,
    pub searching: bool,
    /// The lines that the last search found, in ascending order.
    matches: Vec<u32>,
    search_truncated: bool,
    search_total: usize,
    /// A search that waits for the scan to end.
    pending_search: Option<SearchRequest>,
    regex_error: Option<String>,
    /// How far the scan that was handed out last reaches.
    scan_limit: usize,
    index_job: Option<IndexJob>,
    search_job: Option<SearchJob>,
}

/// The value of a [`LogStore`].
pub struct Store {
    pub path: Seq<char>,
    pub line_starts: Seq<usize>,
    pub scanned: usize,
    pub real_len: usize,
    pub encoding: Encoding,
    pub indexing: bool,
    pub awaiting: bool,
    pub searching: bool,
    pub matches: Seq<u32>,
    pub truncated: bool,
    pub total: usize,
    pub pending: Option<search::Request>,
    pub regex_error: Option<Seq<char>>,
    pub scan_limit: usize,
    pub index_job: Option<IndexJob>,
    pub search_job: Option<SearchTask>,
}

impl View for LogStore {
    type V = Store;

    closed spec fn view(&self) -> Store {
        Store {
            path: self.path@,
            line_starts: self.line_starts@,
            scanned: self.scanned,
            real_len: self.real_len,
            encoding: self.encoding,
            indexing: self.indexing,
            awaiting: self.awaiting,
            searching: self.searching,
            matches: self.matches@,
            truncated: self.search_truncated,
            total: self.search_total,
            pending: match self.pending_search {
                Some(req) => Some(req@),
                None => None,
            },
            regex_error: match self.regex_error {
                Some(reason) => Some(reason@),
                None => None,
            },
            scan_limit: self.scan_limit,
            index_job: self.index_job,
            search_job: match self.search_job {
                Some(job) => Some(job@),
                None => None,
            },
        }
    }
}

/// Each number is greater than those before it.
pub open spec fn ascending(s: Seq<usize>) -> bool {
    forall|j: int, k: int| 0 <= j < k < s.len() ==> s[j] < s[k]
}

/// All the line starts in a row of reports.
pub open spec fn reported_lines(msgs: Seq<lines::IndexReport>) -> Seq<usize>
    decreases msgs.len(),
{
    if msgs.len() == 0 {
        Seq::empty()
    } else {
        let before = reported_lines(msgs.drop_last());
        match msgs.last() {
            lines::IndexReport::Lines(v) => before + v,
            lines::IndexReport::Done(_) => before,
        }
    }
}

/// Where the last report of the end of a scan says that the tail starts.
pub open spec fn reported_end(msgs: Seq<lines::IndexReport>) -> Option<usize>
    decreases msgs.len(),
{
    if msgs.len() == 0 {
        None
    } else {
        match msgs.last() {
            lines::IndexReport::Lines(_) => reported_end(msgs.drop_last()),
            lines::IndexReport::Done(pos) => Some(pos),
        }
    }
}

/// The values of a row of messages.
pub open spec fn reports(msgs: Seq<IndexMsg>) -> Seq<lines::IndexReport> {
    msgs.map_values(|m: IndexMsg| m@)
}

/// The last of the lines that start at or before `offset`.
pub open spec fn line_at(starts: Seq<usize>, offset: usize) -> Option<usize>
    decreases starts.len(),
{
    if starts.len() == 0 {
        None
    } else if starts.last() <= offset {
        Some((starts.len() - 1) as usize)
    } else {
        line_at(starts.drop_last(), offset)
    }
}

/// The line that a hit at `pos` falls into. What stands at or behind the tail is in the line
/// behind the finished ones, unless a scan has found line starts there since.
pub open spec fn hit_line(starts: Seq<usize>, scanned: usize, pos: usize) -> int {
    if pos >= scanned && (starts.len() == 0 || starts.last() < scanned) {
        starts.len() as int
    } else {
        match line_at(starts, pos) {
            Some(k) => k as int,
            None => 0,
        }
    }
}

/// The lines that hits at `positions` fall into, each line once in a row.
pub open spec fn lines_hit(
    starts: Seq<usize>,
    scanned: usize,
    positions: Seq<usize>,
) -> Seq<u32>
    decreases positions.len(),
{
    if positions.len() == 0 {
        Seq::empty()
    } else {
        let before = lines_hit(starts, scanned, positions.drop_last());
        let line = hit_line(starts, scanned, positions.last()) as u32;
        if before.len() > 0 && before.last() == line {
            before
        } else {
            before.push(line)
        }
    }
}

/// The bytes of the line around `offset`, without its end of line. They are found without the
/// index of the lines.
pub open spec fn line_around(data: Seq<u8>, offset: int) -> Seq<u8> {
    lines::without_eol(
        data.subrange(back_to_start(data, offset), lines::line_end(data, offset, data.len() as int)),
    )
}

/// The position behind the last line feed before `i`, or the beginning.
pub open spec fn back_to_start(data: Seq<u8>, i: int) -> int
    decreases i,
{
    if 0 < i <= data.len() && data[i - 1] != LF {
        back_to_start(data, i - 1)
    } else {
        i
    }
}

impl Store {
    /// The line starts are in order, and their number leaves room for the tail.
    pub open spec fn wf(self) -> bool {
        ascending(self.line_starts) && self.line_starts.len() < usize::MAX
    }

    /// The reports are those of a scan that goes on where the line starts end.
    pub open spec fn continued_by(self, msgs: Seq<lines::IndexReport>) -> bool {
        let starts = self.line_starts + reported_lines(msgs);
        self.indexing ==> ascending(starts) && starts.len() < usize::MAX
    }

    /// A store for a file that has just been opened, with its scan handed out.
    pub open spec fn opened(path: Seq<char>, data: Seq<u8>, real_len: usize) -> Store {
        Store {
            path,
            line_starts: Seq::empty(),
            scanned: 0,
            real_len,
            encoding: encoding::sniffed(data, real_len as int),
            indexing: true,
            awaiting: false,
            searching: false,
            matches: Seq::empty(),
            truncated: false,
            total: 0,
            pending: None,
            regex_error: None,
            scan_limit: real_len,
            index_job: Some(IndexJob { start: 0, limit: real_len }),
            search_job: None,
        }
    }

    /// The tail is a line of its own: the scan has ended, and bytes are left.
    pub open spec fn has_tail(self) -> bool {
        !self.indexing && self.scanned < self.real_len
    }

    /// How many lines there are to show.
    pub open spec fn line_count(self) -> nat {
        if self.has_tail() {
            self.line_starts.len() + 1
        } else {
            self.line_starts.len()
        }
    }

    /// From where up to where line `idx` reaches.
    pub open spec fn line_range(self, idx: int) -> Option<(usize, usize)> {
        let n = self.line_starts.len();
        if 0 <= idx < n {
            let stop = if idx + 1 < n {
                self.line_starts[idx + 1]
            } else if self.scanned < self.real_len {
                self.scanned
            } else {
                self.real_len
            };
            Some((self.line_starts[idx], stop))
        } else if idx == n && self.has_tail() {
            Some((self.scanned, self.real_len))
        } else {
            None
        }
    }

    /// The bytes of line `idx` without its end of line, if they are all there.
    pub open spec fn line_bytes(self, data: Seq<u8>, idx: int) -> Option<Seq<u8>> {
        match self.line_range(idx) {
            Some((s, e)) => if s <= e <= data.len() {
                Some(lines::without_eol(data.subrange(s as int, e as int)))
            } else {
                None
            },
            None => None,
        }
    }

    /// The text of line `idx`.
    pub open spec fn line_text(self, data: Seq<u8>, idx: int) -> Option<Seq<char>> {
        match self.line_bytes(data, idx) {
            Some(raw) => Some(encoding::text_of(raw, self.encoding)),
            None => None,
        }
    }

    /// Where line `idx` starts, if it is finished.
    pub open spec fn line_offset(self, idx: int) -> Option<usize> {
        if 0 <= idx < self.line_starts.len() && self.line_starts[idx] < self.real_len {
            Some(self.line_starts[idx])
        } else {
            None
        }
    }

    /// The line that `offset` falls into, if the scan has come that far.
    pub open spec fn line_index_at(self, offset: usize) -> Option<usize> {
        if offset >= self.scanned {
            None
        } else {
            line_at(self.line_starts, offset)
        }
    }

    /// The bytes of the line around `offset`.
    pub open spec fn bytes_at(self, data: Seq<u8>, offset: usize) -> Option<Seq<u8>> {
        if self.real_len <= data.len() && offset < self.real_len {
            Some(line_around(data.take(self.real_len as int), offset as int))
        } else {
            None
        }
    }

    /// The line around `offset` can be decoded, if there is one.
    pub open spec fn reads_at(self, data: Seq<u8>, offset: usize) -> bool {
        self.bytes_at(data, offset) matches Some(raw) ==> encoding::decodable(raw, self.encoding)
    }

    /// Every line can be decoded.
    pub open spec fn every_line_reads(self, data: Seq<u8>) -> bool {
        forall|offset: usize| #[trigger] self.reads_at(data, offset)
    }

    /// Line `idx` can be decoded, if there is one.
    pub open spec fn reads_line(self, data: Seq<u8>, idx: int) -> bool {
        self.line_bytes(data, idx) matches Some(raw) ==> encoding::decodable(raw, self.encoding)
    }

    /// The text of the line around `offset`.
    pub open spec fn line_text_at(self, data: Seq<u8>, offset: usize) -> Option<Seq<char>> {
        match self.bytes_at(data, offset) {
            Some(raw) => Some(encoding::text_of(raw, self.encoding)),
            None => None,
        }
    }

    /// Where a text first stands in the file.
    pub open spec fn find_offset_of(self, data: Seq<u8>, needle: Seq<char>) -> Option<usize> {
        if needle.len() == 0 || self.real_len > data.len() {
            None
        } else {
            search::first_occurrence(
                data.take(self.real_len as int),
                encoding::bytes_of(needle, self.encoding),
                0,
            )
        }
    }

    /// A scan from `start` on is handed out.
    pub open spec fn with_scan(self, start: usize) -> Store {
        Store {
            indexing: true,
            scan_limit: self.real_len,
            index_job: Some(IndexJob { start, limit: self.real_len }),
            ..self
        }
    }

    /// A search of the whole file is handed out.
    pub open spec fn with_search(self, req: search::Request) -> Store {
        Store {
            awaiting: true,
            searching: true,
            pending: None,
            regex_error: None,
            search_job: Some(
                SearchTask { request: req, limit: self.real_len, encoding: self.encoding },
            ),
            ..self
        }
    }

    /// No search, and nothing found.
    pub open spec fn without_search(self) -> Store {
        Store {
            matches: Seq::empty(),
            searching: false,
            awaiting: false,
            truncated: false,
            total: 0,
            pending: None,
            regex_error: None,
            search_job: None,
            ..self
        }
    }

    /// A search is asked for. It waits while a scan is under way.
    pub open spec fn with_request(self, req: search::Request) -> Store {
        if req.query.len() == 0 {
            self.without_search()
        } else if self.indexing {
            Store { pending: Some(req), searching: true, ..self }
        } else {
            self.with_search(req)
        }
    }

    /// The file has grown since the scan was handed out.
    pub open spec fn outgrown(self) -> bool {
        self.scan_limit < self.real_len
    }

    /// The reports of the scan are taken in. When it has ended, a scan of what was appended
    /// meanwhile is handed out; or, if nothing was, the search that waits for the index.
    pub open spec fn indexed(self, msgs: Seq<lines::IndexReport>) -> Store {
        if !self.indexing {
            self
        } else {
            let line_starts = self.line_starts + reported_lines(msgs);
            match reported_end(msgs) {
                None => Store { line_starts, ..self },
                Some(pos) => if self.outgrown() {
                    Store { line_starts, scanned: pos, ..self }.with_scan(pos)
                } else {
                    let s = Store { line_starts, scanned: pos, indexing: false, ..self };
                    match self.pending {
                        Some(req) => s.with_search(req),
                        None => s,
                    }
                },
            }
        }
    }

    /// Taking in these reports hands out the search that waits.
    pub open spec fn launches(self, msgs: Seq<lines::IndexReport>) -> bool {
        self.indexing && reported_end(msgs) is Some && self.pending is Some && !self.outgrown()
    }

    /// The hits of a search are taken in.
    pub open spec fn with_hits(self, hits: SearchHits) -> Store {
        Store {
            truncated: hits.dropped,
            total: hits.total,
            matches: lines_hit(self.line_starts, self.scanned, hits.positions@),
            ..self
        }
    }

    /// The answer to a search is taken in.
    pub open spec fn answered(self, reply: SearchMsg) -> Store {
        let s = match reply {
            SearchMsg::Hits(hits) => self.with_hits(hits),
            SearchMsg::RegexError(reason) => Store { regex_error: Some(reason@), ..self },
        };
        Store { searching: false, awaiting: false, ..s }
    }

    /// An answer that came for the search handed out last is taken in: not one that came for
    /// a search before it, and not one that nobody waits for.
    pub open spec fn heeds(
        self,
        msgs: Seq<lines::IndexReport>,
        reply: Option<SearchMsg>,
    ) -> bool {
        self.awaiting && reply is Some && !self.launches(msgs)
    }

    /// What came from the scan and from the search is taken in.
    pub open spec fn pumped(
        self,
        msgs: Seq<lines::IndexReport>,
        reply: Option<SearchMsg>,
    ) -> Store {
        let s = self.indexed(msgs);
        if self.heeds(msgs, reply) {
            s.answered(reply->0)
        } else {
            s
        }
    }

    /// Taking this in changes what is shown.
    pub open spec fn stirred(
        self,
        msgs: Seq<lines::IndexReport>,
        reply: Option<SearchMsg>,
    ) -> bool {
        (self.indexing && msgs.len() > 0) || self.heeds(msgs, reply)
    }

    /// What follows from a change of the file's length to `len`.
    pub open spec fn refreshed(self, len: usize, remap: Remap) -> Store {
        if len == self.real_len || remap is Unopened {
            self
        } else if len < self.real_len {
            let s = Store {
                line_starts: Seq::empty(),
                scanned: 0,
                matches: Seq::empty(),
                truncated: false,
                total: 0,
                pending: None,
                ..self
            };
            match remap {
                Remap::Mapped(real_len) => Store { real_len, ..s }.with_scan(0),
                _ => s,
            }
        } else {
            match remap {
                Remap::Mapped(real_len) => {
                    let s = Store { real_len, ..self };
                    if self.indexing {
                        s
                    } else {
                        s.with_scan(self.scanned)
                    }
                },
                _ => self,
            }
        }
    }
}

/// The start of a line is the only position with what [`back_to_start`] promises.
pub proof fn lemma_back_to_start(data: Seq<u8>, i: int, s: int)
    requires
        0 <= s <= i <= data.len(),
        forall|j: int| s <= j < i ==> #[trigger] data[j] != LF,
        s > 0 ==> data[s - 1] == LF,
    ensures
        back_to_start(data, i) == s,
    decreases i,
{
    if s < i {
        assert(data[i - 1] != LF);
        lemma_back_to_start(data, i - 1, s);
    }
}

/// Where the starts ascend, the line at a position is the one that holds it.
pub proof fn lemma_line_at_above(starts: Seq<usize>, offset: usize, k: int)
    requires
        ascending(starts),
        0 <= k < starts.len(),
        starts[k] <= offset,
        k + 1 < starts.len() ==> offset < starts[k + 1],
    ensures
        line_at(starts, offset) == Some(k as usize),
    decreases starts.len(),
{
    if k + 1 < starts.len() {
        assert(starts.last() > offset) by {
            if k + 1 < starts.len() - 1 {
                assert(starts[k + 1] < starts[starts.len() - 1]);
            }
        }
        let front = starts.drop_last();
        assert forall|i: int, j: int| 0 <= i < j < front.len() implies front[i] < front[j] by {
            assert(starts[i] < starts[j]);
        }
        lemma_line_at_above(front, offset, k);
    }
}

proof fn lemma_line_at_none(starts: Seq<usize>, offset: usize)
    requires
        ascending(starts),
        starts.len() > 0 ==> offset < starts[0],
    ensures
        line_at(starts, offset) is None,
    decreases starts.len(),
{
    if starts.len() > 0 {
        assert(starts.last() > offset) by {
            if starts.len() > 1 {
                assert(starts[0] < starts[starts.len() - 1]);
            }
        }
        let front = starts.drop_last();
        assert forall|i: int, j: int| 0 <= i < j < front.len() implies front[i] < front[j] by {
            assert(starts[i] < starts[j]);
        }
        lemma_line_at_none(front, offset);
    }
}

/// Where the line around a position is no longer than one piece, it can be decoded.
pub proof fn law_short_lines_read(s: Store, data: Seq<u8>)
    requires
        s.real_len <= data.len(),
        lines::lines_within(
            data.take(s.real_len as int),
            s.real_len as int,
            outside::PIECE_MAX as int,
        ),
    ensures
        s.every_line_reads(data),
{
    let hay = data.take(s.real_len as int);
    assert forall|offset: usize| #[trigger] s.reads_at(data, offset) by {
        if offset < s.real_len {
            let start = back_to_start(hay, offset as int);
            let end = lines::line_end(hay, offset as int, hay.len() as int);
            lemma_back_starts_line(hay, offset as int);
            lines::lemma_line_end(hay, offset as int, hay.len() as int);
            lines::lemma_line_end_is(hay, start, hay.len() as int, end);
            lines::lemma_eol_start(hay.subrange(start, end));
        }
    }
}

proof fn lemma_back_starts_line(data: Seq<u8>, i: int)
    requires
        0 <= i <= data.len(),
    ensures
        0 <= back_to_start(data, i) <= i,
        lines::starts_line(data, back_to_start(data, i)),
        forall|j: int| back_to_start(data, i) <= j < i ==> #[trigger] data[j] != LF,
    decreases i,
{
    if 0 < i && data[i - 1] != LF {
        lemma_back_starts_line(data, i - 1);
    }
}

/// All the line starts in a row of reports.
fn lines_told(msgs: &Vec<IndexMsg>) -> (r: Vec<usize>)
    ensures
        r@ == reported_lines(reports(msgs@)),
{
    let mut r: Vec<usize> = Vec::new();
    let ghost told = reports(msgs@);
    let mut k: usize = 0;
    assert(told.take(0) =~= Seq::empty());
    while k < msgs.len()
        invariant
            k <= msgs@.len(),
            told == reports(msgs@),
            r@ == reported_lines(told.take(k as int)),
        decreases msgs@.len() - k,
    {
        proof {
            let now = told.take(k + 1);
            assert(now.drop_last() =~= told.take(k as int));
            assert(now.last() == msgs@[k as int]@);
        }
        if let IndexMsg::Lines(v) = &msgs[k] {
            let mut more: Vec<usize> = v.clone();
            assert(more@ =~= v@);
            r.append(&mut more);
        }
        k += 1;
    }
    assert(told.take(k as int) =~= told);
    r
}

impl LogStore {
    /// A store for a file with the bytes `data`, of which the first `real_len` count.
    pub fn open(path: &str, data: &[u8], real_len: usize) -> (r: LogStore)
        requires
            real_len <= data@.len() || data@.len() >= encoding::SNIFF_LEN,
        ensures
            r@ == Store::opened(path@, data@, real_len),
            r@.wf(),
    {
        let mut s = LogStore::from_file(path, data, real_len);
        s.spawn_index(0);
        s
    }

    fn from_file(path: &str, data: &[u8], real_len: usize) -> (r: LogStore)
        requires
            real_len <= data@.len() || data@.len() >= encoding::SNIFF_LEN,
        ensures
            r@ == (Store {
                indexing: false,
                index_job: None,
                ..Store::opened(path@, data@, real_len)
            }),
    {
        LogStore {
            path: path.to_owned(),
            line_starts: Vec::new(),
            scanned: 0,
            real_len,
            encoding: encoding::sniff_encoding(data, real_len),
            indexing: false,
            awaiting: false,
            searching: false,
            matches: Vec::new(),
            search_truncated: false,
            search_total: 0,
            pending_search: None,
            regex_error: None,
            scan_limit: real_len,
            index_job: None,
            search_job: None,
        }
    }

    /// The path of the file, as it is shown.
    pub fn path_str(&self) -> (r: String)
        ensures
            r@ == self@.path,
    {
        self.path.clone()
    }

    /// Whether a scan is under way.
    pub fn is_indexing(&self) -> (r: bool)
        ensures
            r == self@.indexing,
    {
        self.indexing
    }

    /// Whether a search is under way, or waits for the scan to end.
    pub fn is_searching(&self) -> (r: bool)
        ensures
            r == self@.searching,
    {
        self.searching
    }

    /// The encoding of the file.
    pub fn text_encoding(&self) -> (r: Encoding)
        ensures
            r == self@.encoding,
    {
        self.encoding
    }

    /// How long the file is.
    pub fn len_bytes(&self) -> (r: usize)
        ensures
            r == self@.real_len,
    {
        self.real_len
    }

    /// How many lines there are to show. What stands behind the last line feed counts as a
    /// line once the scan has ended.
    pub fn line_count(&self) -> (r: usize)
        requires
            self@.wf(),
        ensures
            r == self@.line_count(),
    {
        let n = self.line_starts.len();
        if !self.indexing && self.scanned < self.real_len {
            n + 1
        } else {
            n
        }
    }

    /// From where up to where line `idx` reaches.
    pub fn line_range(&self, idx: usize) -> (r: Option<(usize, usize)>)
        ensures
            r == self@.line_range(idx as int),
    {
        let n = self.line_starts.len();
        if idx < n {
            let s: usize = self.line_starts[idx];
            let e: usize = if idx < n - 1 {
                self.line_starts[idx + 1]
            } else if self.scanned < self.real_len {
                self.scanned
            } else {
                self.real_len
            };
            Some((s, e))
        } else if idx == n && !self.indexing && self.scanned < self.real_len {
            Some((self.scanned, self.real_len))
        } else {
            None
        }
    }

    /// Where line `idx` starts. Nothing comes back for a line that the index does not hold.
    pub fn line_offset(&self, idx: usize) -> (r: Option<usize>)
        ensures
            r == self@.line_offset(idx as int),
    {
        if idx < self.line_starts.len() && self.line_starts[idx] < self.real_len {
            Some(self.line_starts[idx])
        } else {
            None
        }
    }

    /// The line that the byte at `offset` belongs to. Nothing comes back where the scan has not
    /// come that far.
    pub fn line_index_at(&self, offset: usize) -> (r: Option<usize>)
        requires
            self@.wf(),
        ensures
            r == self@.line_index_at(offset),
    {
        if offset >= self.scanned {
            return None;
        }
        let mut lo: usize = 0;
        let mut hi: usize = self.line_starts.len();
        while lo < hi
            invariant
                ascending(self.line_starts@),
                lo <= hi <= self.line_starts@.len(),
                forall|k: int| 0 <= k < lo ==> self.line_starts@[k] <= offset,
                forall|k: int| hi <= k < self.line_starts@.len() ==> self.line_starts@[k] > offset,
            decreases hi - lo,
        {
            let mid: usize = lo + (hi - lo) / 2;
            if self.line_starts[mid] <= offset {
                lo = mid + 1;
            } else {
                hi = mid;
            }
        }
        if lo == 0 {
            proof {
                lemma_line_at_none(self.line_starts@, offset);
            }
            None
        } else {
            proof {
                lemma_line_at_above(self.line_starts@, offset, lo - 1);
            }
            Some(lo - 1)
        }
    }

    /// The text of the line around `offset`. It does not need the index: the line is found
    /// from the line feeds on both sides, so it can be read before the scan has ended, and
    /// from a position in its middle.
    pub fn line_text_at(&self, data: &[u8], offset: usize) -> (r: Option<String>)
        requires
            self@.reads_at(data@, offset),
        ensures
            match r {
                Some(text) => self@.line_text_at(data@, offset) == Some(text@),
                None => self@.line_text_at(data@, offset) is None,
            },
    {
        if self.real_len > data.len() || offset >= self.real_len {
            return None;
        }
        let bytes: &[u8] = &data[0..self.real_len];
        assert(bytes@ =~= data@.take(self.real_len as int));
        let front: &[u8] = &bytes[0..offset];
        let start: usize = match memchr::memrchr(LF, front) {
            Some(i) => i + 1,
            None => 0,
        };
        let end = lines::find_line_end(bytes, offset, self.real_len);
        proof {
            assert forall|j: int| start <= j < offset implies #[trigger] bytes@[j] != LF by {
                assert(front@[j] == bytes@[j]);
            }
            if start > 0 {
                assert(front@[start - 1] == bytes@[start - 1]);
            }
            lemma_back_to_start(bytes@, offset as int, start as int);
        }
        let raw = lines::trim_eol(&bytes[start..end]);
        let mut out = String::new();
        encoding::decode_into(raw, self.encoding, &mut out);
        assert(out@ =~= encoding::text_of(raw@, self.encoding));
        Some(out)
    }

    /// Where a text first stands in the file, in the encoding of the file.
    pub fn find_offset_of(&self, data: &[u8], needle: &str) -> (r: Option<usize>)
        requires
            encoding::encodable(needle@, self@.encoding),
        ensures
            r == self@.find_offset_of(data@, needle@),
    {
        if needle.is_empty() || self.real_len > data.len() {
            return None;
        }
        let bytes: &[u8] = &data[0..self.real_len];
        assert(bytes@ =~= data@.take(self.real_len as int));
        let encoded = encoding::encode(needle, self.encoding);
        search::find_bytes(bytes, encoded.as_slice())
    }

    /// Appends the text of line `idx` to `out`, and tells whether there is such a line.
    pub fn read_line_into(&self, data: &[u8], idx: usize, out: &mut String) -> (r: bool)
        requires
            self@.reads_line(data@, idx as int),
        ensures
            match self@.line_text(data@, idx as int) {
                Some(text) => r && final(out)@ == old(out)@ + text,
                None => !r && final(out)@ == old(out)@,
            },
    {
        match self.line_range(idx) {
            Some((s, e)) => {
                if s > e || e > data.len() {
                    return false;
                }
                encoding::decode_into(lines::trim_eol(&data[s..e]), self.encoding, out);
                true
            },
            None => false,
        }
    }

    /// Whether the reports are those of a scan that goes on where the line starts end. What
    /// [`lines::LineScan`] reports of the scan that was handed out always is.
    pub fn is_continued_by(&self, msgs: &Vec<IndexMsg>) -> (r: bool)
        requires
            self@.wf(),
        ensures
            r == self@.continued_by(reports(msgs@)),
    {
        if !self.indexing {
            return true;
        }
        let more = lines_told(msgs);
        let n: usize = self.line_starts.len();
        let ghost all = self@.line_starts + more@;
        if more.len() == 0 {
            assert(all =~= self@.line_starts);
            return true;
        }
        if more.len() >= usize::MAX - n {
            return false;
        }
        if n > 0 && self.line_starts[n - 1] >= more[0] {
            assert(all[n - 1] >= all[n as int]);
            return false;
        }
        let mut k: usize = 1;
        while k < more.len()
            invariant
                1 <= k <= more@.len(),
                self.indexing,
                more@ == reported_lines(reports(msgs@)),
                all == self@.line_starts + more@,
                n == self@.line_starts.len(),
                forall|i: int, j: int| 0 <= i < j < k ==> more@[i] < more@[j],
            decreases more@.len() - k,
        {
            if more[k - 1] >= more[k] {
                assert(all[n + k - 1] >= all[n + k]);
                return false;
            }
            k += 1;
        }
        proof {
            assert forall|i: int, j: int| 0 <= i < j < all.len() implies all[i] < all[j] by {
                if i < n && j >= n {
                    assert(i == n - 1 || all[i] < all[n - 1]);
                    assert(j == n || more@[0] < more@[j - n]);
                }
            }
        }
        true
    }

    /// Takes in what the scan has reported and what the search has answered, and tells whether
    /// anything has changed. Reports count while a scan is under way; an answer counts if it
    /// is for the search that was handed out last.
    pub fn pump(&mut self, msgs: Vec<IndexMsg>, reply: Option<SearchMsg>) -> (changed: bool)
        requires
            old(self)@.wf(),
            old(self)@.continued_by(reports(msgs@)),
        ensures
            final(self)@ == old(self)@.pumped(reports(msgs@), reply),
            final(self)@.wf(),
            changed == old(self)@.stirred(reports(msgs@), reply),
    {
        let mut changed: bool = false;
        let mut launched: bool = false;
        let ghost told = reports(msgs@);
        if self.indexing {
            let mut done_at: Option<usize> = None;
            let mut k: usize = 0;
            assert(told.take(0) =~= Seq::empty());
            assert(self@.line_starts =~= old(self)@.line_starts + reported_lines(told.take(0)));
            while k < msgs.len()
                invariant
                    k <= msgs@.len(),
                    told == reports(msgs@),
                    self@ == (Store {
                        line_starts: old(self)@.line_starts + reported_lines(told.take(k as int)),
                        ..old(self)@
                    }),
                    done_at == reported_end(told.take(k as int)),
                    changed == (k > 0),
                decreases msgs@.len() - k,
            {
                proof {
                    let now = told.take(k + 1);
                    assert(now.drop_last() =~= told.take(k as int));
                    assert(now.last() == msgs@[k as int]@);
                }
                match &msgs[k] {
                    IndexMsg::Lines(v) => {
                        let mut more: Vec<usize> = v.clone();
                        assert(more@ =~= v@);
                        self.line_starts.append(&mut more);
                    },
                    IndexMsg::Done(pos) => {
                        done_at = Some(*pos);
                    },
                }
                changed = true;
                k += 1;
                assert(self@.line_starts =~= old(self)@.line_starts + reported_lines(
                    told.take(k as int),
                ));
            }
            assert(told.take(k as int) =~= told);
            if let Some(pos) = done_at {
                self.scanned = pos;
                if self.scan_limit < self.real_len {
                    self.spawn_index(pos);
                } else {
                    self.indexing = false;
                    if let Some(req) = self.pending_search.take() {
                        launched = true;
                        self.spawn_search(req);
                    }
                }
            }
        }
        if self.awaiting && !launched {
            if let Some(msg) = reply {
                match msg {
                    SearchMsg::Hits(hits) => {
                        self.apply_hits(hits);
                    },
                    SearchMsg::RegexError(reason) => {
                        self.regex_error = Some(reason);
                    },
                }
                self.searching = false;
                self.awaiting = false;
                changed = true;
            }
        }
        changed
    }

    /// Lists the lines of the hits. The hits come in order, so one pass over the line starts
    /// finds them all.
    fn apply_hits(&mut self, hits: SearchHits)
        requires
            old(self)@.wf(),
        ensures
            final(self)@ == old(self)@.with_hits(hits),
    {
        self.search_truncated = hits.truncated();
        self.search_total = hits.total;
        let mut found: Vec<u32> = Vec::new();
        let ghost starts = self.line_starts@;
        let ghost positions = hits.positions@;
        let n: usize = self.line_starts.len();
        let scanned: usize = self.scanned;
        let open_tail: bool = n == 0 || self.line_starts[n - 1] < scanned;
        let mut line: usize = 0;
        let mut k: usize = 0;
        assert(positions.take(0) =~= Seq::empty());
        while k < hits.positions.len()
            invariant
                starts == self.line_starts@,
                n == starts.len(),
                ascending(starts),
                open_tail == (n == 0 || starts.last() < scanned),
                positions == hits.positions@,
                k <= positions.len(),
                line == 0 || line < n,
                found@ == lines_hit(starts, scanned, positions.take(k as int)),
            decreases positions.len() - k,
        {
            let pos: usize = hits.positions[k];
            let mut at: usize = n;
            if !(pos >= scanned && open_tail) {
                line = self.seek_line(line, pos);
                at = line;
            }
            proof {
                let now = positions.take(k + 1);
                assert(now.drop_last() =~= positions.take(k as int));
                assert(now.last() == pos);
            }
            let last: Option<u32> = if found.len() > 0 {
                Some(found[found.len() - 1])
            } else {
                None
            };
            let number: u32 = #[verifier::truncate]
            (at as u32);
            if last != Some(number) {
                found.push(number);
            }
            k += 1;
        }
        assert(positions.take(k as int) =~= positions);
        self.matches = found;
    }

    /// The line that `pos` falls into, looked for from `line` on.
    fn seek_line(&self, line: usize, pos: usize) -> (r: usize)
        requires
            ascending(self.line_starts@),
            line == 0 || line < self.line_starts@.len(),
        ensures
            r == (match line_at(self.line_starts@, pos) {
                Some(k) => k,
                None => 0,
            }),
            r == 0 || r < self.line_starts@.len(),
    {
        let n: usize = self.line_starts.len();
        let mut r: usize = line;
        if n == 0 {
            return r;
        }
        while r > 0 && self.line_starts[r] > pos
            invariant
                n == self.line_starts@.len(),
                r < n,
            decreases r,
        {
            r -= 1;
        }
        while r < n - 1 && self.line_starts[r + 1] <= pos
            invariant
                n == self.line_starts@.len(),
                r < n,
                r == 0 || self.line_starts@[r as int] <= pos,
            decreases n - r,
        {
            r += 1;
        }
        proof {
            if self.line_starts@[r as int] <= pos {
                lemma_line_at_above(self.line_starts@, pos, r as int);
            } else {
                lemma_line_at_none(self.line_starts@, pos);
            }
        }
        r
    }

    /// Whether the file has another length than the store knows of.
    pub fn needs_refresh(&self, len: usize) -> (r: bool)
        ensures
            r == (len != self@.real_len),
    {
        len != self.real_len
    }

    /// Takes note that the file is `len` long now, and of what became of mapping it again. A
    /// file that has shrunk is scanned from its beginning, and all that was known of it is
    /// dropped; a file that has grown is scanned from the tail on, once the scan that is under
    /// way has ended.
    pub fn refresh(&mut self, len: usize, remap: Remap)
        ensures
            final(self)@ == old(self)@.refreshed(len, remap),
            old(self)@.wf() ==> final(self)@.wf(),
    {
        if len == self.real_len {
            return;
        }
        if let Remap::Unopened = remap {
            return;
        }
        if len < self.real_len {
            self.line_starts.clear();
            self.scanned = 0;
            self.matches.clear();
            self.search_truncated = false;
            self.search_total = 0;
            self.pending_search = None;
            if let Remap::Mapped(real_len) = remap {
                self.real_len = real_len;
                self.spawn_index(0);
            }
            return;
        }
        if let Remap::Mapped(real_len) = remap {
            self.real_len = real_len;
            if !self.indexing {
                let start: usize = self.scanned;
                self.spawn_index(start);
            }
        }
    }

    fn spawn_index(&mut self, start: usize)
        ensures
            final(self)@ == old(self)@.with_scan(start),
    {
        self.indexing = true;
        self.scan_limit = self.real_len;
        self.index_job = Some(IndexJob { start, limit: self.real_len });
    }

    /// Asks for a search, and tells whether there is one. While a scan is under way the search
    /// waits for its end: a search in a part of the lines would find too little, and nothing
    /// would show it.
    pub fn start_search(&mut self, req: SearchRequest) -> (r: bool)
        ensures
            final(self)@ == old(self)@.with_request(req@),
            r == (req@.query.len() > 0),
    {
        if req.query.as_str().is_empty() {
            self.clear_search();
            return false;
        }
        if self.indexing {
            self.pending_search = Some(req);
            self.searching = true;
            return true;
        }
        self.spawn_search(req)
    }

    /// Whether a search waits for the scan to end.
    pub fn search_pending(&self) -> (r: bool)
        ensures
            r == (self@.pending is Some),
    {
        self.pending_search.is_some()
    }

    /// Why the last regular expression did not compile.
    pub fn regex_error(&self) -> (r: Option<&str>)
        ensures
            match r {
                Some(reason) => self@.regex_error == Some(reason@),
                None => self@.regex_error is None,
            },
    {
        match &self.regex_error {
            Some(reason) => Some(reason.as_str()),
            None => None,
        }
    }

    fn spawn_search(&mut self, req: SearchRequest) -> (r: bool)
        ensures
            final(self)@ == old(self)@.with_search(req@),
            r,
    {
        self.awaiting = true;
        self.searching = true;
        self.pending_search = None;
        self.regex_error = None;
        self.search_job = Some(
            SearchJob { request: req, limit: self.real_len, encoding: self.encoding },
        );
        true
    }

    /// The lines that the last search found.
    pub fn matches(&self) -> (r: &[u32])
        ensures
            r@ == self@.matches,
    {
        self.matches.as_slice()
    }

    /// Drops the search and what it found.
    pub fn clear_search(&mut self)
        ensures
            final(self)@ == old(self)@.without_search(),
    {
        self.matches.clear();
        self.searching = false;
        self.awaiting = false;
        self.search_truncated = false;
        self.search_total = 0;
        self.pending_search = None;
        self.regex_error = None;
        self.search_job = None;
    }

    /// Whether some of the matching lines cannot be jumped to. They are counted all the same.
    pub fn search_truncated(&self) -> (r: bool)
        ensures
            r == self@.truncated,
    {
        self.search_truncated
    }

    /// How often the last search matched in the whole file.
    pub fn search_total(&self) -> (r: usize)
        ensures
            r == self@.total,
    {
        self.search_total
    }

    /// Hands out the scan that is to be run. What it reports goes to [`LogStore::pump`], and
    /// the reports of the scan before it are to be thrown away.
    pub fn take_index_job(&mut self) -> (r: Option<IndexJob>)
        ensures
            r == old(self)@.index_job,
            final(self)@ == (Store { index_job: None, ..old(self)@ }),
    {
        self.index_job.take()
    }

    /// Hands out the search that is to be run. Its answer goes to [`LogStore::pump`], and that
    /// of the search before it is to be thrown away.
    pub fn take_search_job(&mut self) -> (r: Option<SearchJob>)
        ensures
            match r {
                Some(job) => old(self)@.search_job == Some(job@),
                None => old(self)@.search_job is None,
            },
            final(self)@ == (Store { search_job: None, ..old(self)@ }),
    {
        self.search_job.take()
    }
}

} // verus!
