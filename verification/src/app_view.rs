//! What is shown: the rows of the log, the list of marks, the status.

use crate::app::{LogViewApp, Session};
use crate::app_marks;
use crate::bookmarks;
use crate::encoding;
use crate::labels;
use crate::logstore;
use crate::logstore::Store;
use crate::marks;
use crate::marks::{AnchorState, Mark, MarkNow};
use crate::text;
use vstd::prelude::*;
use vstd::string::*;

verus! {

/// How long the query has to stay as it is before it is searched for, in milliseconds.
pub const SEARCH_PAUSE_MS: u64 = 250;

/// How long it takes at least until the file is looked at again.
pub const REFRESH_PAUSE_MS: u64 = 250;

/// How long a notice is shown.
pub const NOTICE_MS: u64 = 4000;

/// Whether a query that was changed so long ago is to be searched for. A part of a millisecond
/// counts as a whole one.
pub fn search_is_due(waited_ms: u64) -> (r: bool)
    ensures
        r == (waited_ms > 250),
{
    waited_ms > SEARCH_PAUSE_MS
}

/// Whether a file that was looked at so long ago is to be looked at again. A part of a
/// millisecond counts as a whole one.
pub fn refresh_is_due(waited_ms: u64) -> (r: bool)
    ensures
        r == (waited_ms > 250),
{
    waited_ms > REFRESH_PAUSE_MS
}

/// Whether a notice that has been shown so long is still shown. A part of a millisecond does
/// not count.
pub fn notice_is_shown(shown_ms: u64) -> (r: bool)
    ensures
        r == (shown_ms < 4000),
{
    shown_ms < NOTICE_MS
}

impl Session {
    /// How many rows there are: the lines that were found, or all lines.
    pub open spec fn row_count(self) -> nat {
        match self.store {
            Some(s) => if self.only_matched {
                s.matches.len()
            } else {
                s.line_count()
            },
            None => 0,
        }
    }

    /// The line in row `r`.
    pub open spec fn line_in_row(self, r: int) -> Option<usize> {
        if self.only_matched {
            if 0 <= r < self.matches().len() {
                Some(self.matches()[r] as usize)
            } else {
                None
            }
        } else {
            Some(r as usize)
        }
    }

    /// What is shown in place of rows, if there are none.
    pub open spec fn placeholder(self) -> Option<Seq<char>> {
        match self.store {
            Some(s) => if self.row_count() > 0 {
                None
            } else if s.indexing {
                Some("正在建立索引…"@)
            } else {
                Some("文件为空"@)
            },
            None => Some("把日志文件拖到这里"@),
        }
    }

    /// A line is marked.
    pub open spec fn is_marked(self, line: usize) -> bool {
        match self.store {
            Some(s) => match s.line_offset(line as int) {
                Some(offset) => app_marks::mark_at(self.marks, offset, 0) is Some,
                None => false,
            },
            None => false,
        }
    }

    /// The view has been scrolled: row `top` is at its top, and it holds `rows` rows.
    pub open spec fn scrolled_to(self, top: usize, rows: usize) -> Session {
        Session {
            top_line: match self.line_in_row(top as int) {
                Some(line) => line,
                None => 0,
            },
            visible_rows: rows,
            ..self
        }
    }

    /// The end is gone to, if that was asked for and there are rows.
    pub open spec fn at_end_if_asked(self) -> Session {
        if self.jump_to_end && self.row_count() > 0 {
            Session { jump_to_end: false, ..self }.at_row((self.row_count() - 1) as usize)
        } else {
            self
        }
    }
}

/// One mark in the list.
pub struct MarkRow {
    pub offset: u64,
    /// The line of the mark, as far as it is known.
    pub line: Option<usize>,
    pub head: String,
    pub note: String,
    /// When the line was marked, in words.
    pub time: String,
    pub state: AnchorState,
}

/// The value of a [`MarkRow`].
#[verifier::ext_equal]
pub struct MarkLine {
    pub offset: u64,
    pub line: Option<usize>,
    pub head: Seq<char>,
    pub note: Seq<char>,
    pub time: Seq<char>,
    pub state: AnchorState,
}

impl View for MarkRow {
    type V = MarkLine;

    open spec fn view(&self) -> MarkLine {
        MarkLine {
            offset: self.offset,
            line: self.line,
            head: self.head@,
            note: self.note@,
            time: self.time@,
            state: self.state,
        }
    }
}

/// What can be done in the list of marks.
#[derive(Clone, Copy, Debug, PartialEq, Eq, Structural)]
pub enum MarkAct {
    Goto(u64),
    Delete(u64),
    StartNote(u64),
    CommitNote,
    RefindAll,
    DropStale,
    Export,
    Hide,
}

/// How a mark is listed.
pub open spec fn listed(store: Option<Store>, m: MarkNow, now: u64) -> MarkLine {
    MarkLine {
        offset: m.bm.offset,
        line: match store {
            Some(s) => s.line_index_at(m.bm.offset as usize),
            None => None,
        },
        head: m.bm.head,
        note: m.bm.note,
        time: bookmarks::time_in_words(m.bm.at, now),
        state: m.anchor,
    }
}

impl MarkRow {
    /// The number of the line, as it is shown.
    pub fn number(&self) -> (r: String)
        requires
            self.line matches Some(l) ==> l < usize::MAX,
        ensures
            r@ == (match self.line {
                Some(l) => text::decimal((l + 1) as nat),
                None => "—"@,
            }),
    {
        match self.line {
            Some(l) => {
                let mut r = String::new();
                text::push_decimal(&mut r, (l + 1) as u64);
                assert(r@ =~= text::decimal((l + 1) as nat));
                r
            },
            None => "—".to_owned(),
        }
    }

    /// What a click on the mark does: it is gone to if it holds.
    pub fn on_click(&self) -> (r: Option<MarkAct>)
        ensures
            r == (if self.state is Fresh {
                Some(MarkAct::Goto(self.offset))
            } else {
                None
            }),
    {
        if self.state == AnchorState::Fresh {
            Some(MarkAct::Goto(self.offset))
        } else {
            None
        }
    }

    /// Why the mark does not hold.
    pub fn why(&self) -> (r: Option<&'static str>)
        ensures
            match self.state {
                AnchorState::Fresh => r is None,
                AnchorState::Lost => r matches Some(t) && t@ == "超出文件尾"@,
                AnchorState::Stale => r matches Some(t) && t@ == "内容已变"@,
            },
    {
        match self.state {
            AnchorState::Fresh => None,
            AnchorState::Lost => Some("超出文件尾"),
            AnchorState::Stale => Some("内容已变"),
        }
    }

    /// What stands for the note: the note itself, or the offer to write one.
    pub fn note_text(&self) -> (r: String)
        ensures
            r@ == (if self.note@.len() == 0 {
                "＋备注"@
            } else {
                self.note@
            }),
    {
        if self.note.as_str().is_empty() {
            "＋备注".to_owned()
        } else {
            self.note.clone()
        }
    }

    /// Whether this is the mark that was jumped to last.
    pub fn is_focused(&self, focused_mark: Option<usize>) -> (r: bool)
        ensures
            r == (self.line is Some && self.line == focused_mark),
    {
        self.line.is_some() && self.line == focused_mark
    }
}

/// How something in the status is meant.
#[derive(Clone, Copy, Debug, PartialEq, Eq, Structural)]
pub enum Tone {
    Plain,
    Warn,
    Error,
}

/// One piece of the status.
pub struct StatusItem {
    pub text: String,
    pub tone: Tone,
}

/// The value of a [`StatusItem`].
pub open spec fn item_value(i: StatusItem) -> (Seq<char>, Tone) {
    (i.text@, i.tone)
}

/// The values of a row of items.
pub open spec fn item_values(items: Seq<StatusItem>) -> Seq<(Seq<char>, Tone)> {
    items.map_values(|i: StatusItem| item_value(i))
}

/// What the store is doing.
pub open spec fn work_text(s: Store) -> Seq<char> {
    if s.indexing {
        if s.pending is Some {
            "索引中（完成后自动检索）…"@
        } else {
            "索引中…"@
        }
    } else if s.searching {
        "搜索中…"@
    } else {
        "就绪"@
    }
}

/// What is said of the search: why it cannot run, or what it found.
pub open spec fn search_status(s: Store, query: Seq<char>) -> Option<(Seq<char>, Tone)> {
    match s.regex_error {
        Some(reason) => Some(("正则无效："@ + reason, Tone::Error)),
        None => if query.len() == 0 {
            None
        } else if s.truncated {
            Some(
                (
                    labels::truncated_text(
                        s.matches.len(),
                        if s.matches.len() == 0 {
                            0
                        } else {
                            (s.matches.last() + 1) as nat
                        },
                        s.total as nat,
                    ),
                    Tone::Warn,
                ),
            )
        } else {
            Some((text::decimal(s.matches.len()) + " 匹配"@, Tone::Plain))
        },
    }
}

/// What is said of the marks.
pub open spec fn marks_status(marks: Seq<MarkNow>) -> Option<(Seq<char>, Tone)> {
    let stale = marks::stale_count(marks);
    if marks.len() == 0 {
        None
    } else if stale == 0 {
        Some(("标记 "@ + text::decimal(marks.len()), Tone::Plain))
    } else {
        Some(
            (
                "标记 "@ + text::decimal(marks.len()) + "（"@ + text::decimal(stale) + " 条失效）"@,
                Tone::Plain,
            ),
        )
    }
}

/// The name of an encoding.
pub open spec fn name_of_encoding(e: encoding::Encoding) -> Seq<char> {
    if e is Utf8 {
        "UTF-8"@
    } else {
        "GB18030"@
    }
}

/// `items`, and one more if there is one.
pub open spec fn and_maybe(
    items: Seq<(Seq<char>, Tone)>,
    more: Option<(Seq<char>, Tone)>,
) -> Seq<(Seq<char>, Tone)> {
    match more {
        Some(i) => items.push(i),
        None => items,
    }
}

/// A text said plainly, if there is one.
pub open spec fn said(t: Option<Seq<char>>, tone: Tone) -> Option<(Seq<char>, Tone)> {
    match t {
        Some(s) => Some((s, tone)),
        None => None,
    }
}

/// The status: how many lines and bytes the file has, in which encoding, what is going on, what
/// was found and marked, and what else is to be said.
pub open spec fn status_of(app: Session, notice: Option<Seq<char>>) -> Seq<(Seq<char>, Tone)> {
    match app.store {
        Some(s) => {
            let facts = seq![
                (text::decimal(s.line_count()) + " 行"@, Tone::Plain),
                (labels::size_text(s.real_len as nat), Tone::Plain),
                (name_of_encoding(s.encoding), Tone::Plain),
                (work_text(s), Tone::Plain),
            ];
            and_maybe(
                and_maybe(
                    and_maybe(
                        and_maybe(facts, search_status(s, app.query)),
                        marks_status(app.marks),
                    ),
                    said(notice, Tone::Plain),
                ),
                said(app.error, Tone::Error),
            )
        },
        None => seq![("就绪"@, Tone::Plain)],
    }
}

fn push_item(items: &mut Vec<StatusItem>, text: String, tone: Tone)
    ensures
        item_values(final(items)@) == item_values(old(items)@).push((text@, tone)),
{
    let ghost before = items@;
    let i = StatusItem { text, tone };
    items.push(i);
    assert(item_values(items@) =~= item_values(before).push(item_value(i)));
}

/// A part of the status that may be missing.
pub open spec fn maybe_value(i: Option<StatusItem>) -> Option<(Seq<char>, Tone)> {
    match i {
        Some(s) => Some(item_value(s)),
        None => None,
    }
}

fn push_maybe(items: &mut Vec<StatusItem>, more: Option<StatusItem>)
    ensures
        item_values(final(items)@) == and_maybe(item_values(old(items)@), maybe_value(more)),
{
    if let Some(i) = more {
        push_item(items, i.text, i.tone);
    }
}

fn search_item(s: &logstore::LogStore, query: &str) -> (r: Option<StatusItem>)
    ensures
        maybe_value(r) == search_status(s@, query@),
{
    match s.regex_error() {
        Some(reason) => {
            let mut t = String::new();
            t.push_str("正则无效：");
            t.push_str(reason);
            assert(t@ =~= "正则无效："@ + reason@);
            Some(StatusItem { text: t, tone: Tone::Error })
        },
        None => {
            if query.is_empty() {
                return None;
            }
            let matches = s.matches();
            let n: usize = matches.len();
            if s.search_truncated() {
                let reach: u64 = if n == 0 {
                    0
                } else {
                    matches[n - 1] as u64 + 1
                };
                let t = labels::truncated_label(n as u64, reach, s.search_total() as u64);
                Some(StatusItem { text: t, tone: Tone::Warn })
            } else {
                let t = app_marks::with_number("", n as u64, " 匹配");
                proof {
                    reveal_strlit("");
                    assert(t@ =~= text::decimal(n as nat) + " 匹配"@);
                }
                Some(StatusItem { text: t, tone: Tone::Plain })
            }
        },
    }
}

fn marks_item(items: &Vec<Mark>) -> (r: Option<StatusItem>)
    ensures
        maybe_value(r) == marks_status(marks::marks_now(items@)),
{
    let n: usize = items.len();
    if n == 0 {
        return None;
    }
    let stale = marks::count_stale(items);
    let t = if stale == 0 {
        let t = app_marks::with_number("标记 ", n as u64, "");
        proof {
            reveal_strlit("");
            assert(t@ =~= "标记 "@ + text::decimal(n as nat));
        }
        t
    } else {
        app_marks::with_numbers("标记 ", n as u64, "（", stale as u64, " 条失效）")
    };
    Some(StatusItem { text: t, tone: Tone::Plain })
}

fn work_item(s: &logstore::LogStore) -> (r: &'static str)
    ensures
        r@ == work_text(s@),
{
    if s.is_indexing() {
        if s.search_pending() {
            "索引中（完成后自动检索）…"
        } else {
            "索引中…"
        }
    } else if s.is_searching() {
        "搜索中…"
    } else {
        "就绪"
    }
}

fn fact_items(s: &logstore::LogStore) -> (r: Vec<StatusItem>)
    requires
        s@.wf(),
    ensures
        item_values(r@) == seq![
            (text::decimal(s@.line_count()) + " 行"@, Tone::Plain),
            (labels::size_text(s@.real_len as nat), Tone::Plain),
            (name_of_encoding(s@.encoding), Tone::Plain),
            (work_text(s@), Tone::Plain),
        ],
{
    let mut r: Vec<StatusItem> = Vec::new();
    let lines = app_marks::with_number("", s.line_count() as u64, " 行");
    proof {
        reveal_strlit("");
        assert(lines@ =~= text::decimal(s@.line_count()) + " 行"@);
        assert(item_values(r@) =~= Seq::empty());
    }
    push_item(&mut r, lines, Tone::Plain);
    push_item(&mut r, labels::human_size(s.len_bytes()), Tone::Plain);
    push_item(&mut r, encoding::encoding_name(s.text_encoding()).to_owned(), Tone::Plain);
    push_item(&mut r, work_item(s).to_owned(), Tone::Plain);
    assert(item_values(r@) =~= seq![
        (text::decimal(s@.line_count()) + " 行"@, Tone::Plain),
        (labels::size_text(s@.real_len as nat), Tone::Plain),
        (name_of_encoding(s@.encoding), Tone::Plain),
        (work_text(s@), Tone::Plain),
    ]);
    r
}

fn said_item(t: Option<&str>, tone: Tone) -> (r: Option<StatusItem>)
    ensures
        maybe_value(r) == said(
            match t {
                Some(s) => Some(s@),
                None => None,
            },
            tone,
        ),
{
    match t {
        Some(s) => Some(StatusItem { text: s.to_owned(), tone }),
        None => None,
    }
}

impl LogViewApp {
    /// How many rows there are.
    pub fn row_count(&self) -> (r: usize)
        requires
            self@.wf(),
        ensures
            r == self@.row_count(),
    {
        match &self.store {
            Some(s) => if self.only_matched {
                s.matches().len()
            } else {
                s.line_count()
            },
            None => 0,
        }
    }

    /// The line in row `row`.
    pub fn line_in_row(&self, row: usize) -> (r: Option<usize>)
        ensures
            r == self@.line_in_row(row as int),
    {
        if self.only_matched {
            match &self.store {
                Some(s) => {
                    let matches = s.matches();
                    if row < matches.len() {
                        Some(matches[row] as usize)
                    } else {
                        None
                    }
                },
                None => None,
            }
        } else {
            Some(row)
        }
    }

    /// What is shown in place of rows, if there are none.
    pub fn placeholder(&self) -> (r: Option<&'static str>)
        requires
            self@.wf(),
        ensures
            match r {
                Some(t) => self@.placeholder() == Some(t@),
                None => self@.placeholder() is None,
            },
    {
        let n = self.row_count();
        match &self.store {
            Some(s) => if n > 0 {
                None
            } else if s.is_indexing() {
                Some("正在建立索引…")
            } else {
                Some("文件为空")
            },
            None => Some("把日志文件拖到这里"),
        }
    }

    /// Goes to the end, if that was asked for and there are rows.
    pub fn settle_jump_to_end(&mut self)
        requires
            old(self)@.wf(),
        ensures
            final(self)@ == old(self)@.at_end_if_asked(),
            final(self).highlight_regex == old(self).highlight_regex,
            final(self)@.wf(),
    {
        let n = self.row_count();
        if self.jump_to_end && n > 0 {
            self.jump_to_end = false;
            self.jump_to_line(n - 1);
        }
    }

    /// The row to go to, which is then no longer waited for.
    pub fn take_jump(&mut self) -> (r: Option<usize>)
        ensures
            r == old(self)@.pending_jump,
            final(self)@ == (Session { pending_jump: None, ..old(self)@ }),
            final(self).highlight_regex == old(self).highlight_regex,
            old(self)@.wf() ==> final(self)@.wf(),
    {
        let r = self.pending_jump;
        self.pending_jump = None;
        r
    }

    /// Whether the view stays at the end of the file.
    pub fn sticks(&self) -> (r: bool)
        ensures
            r == (self@.follow && !self@.only_matched),
    {
        self.follow && !self.only_matched
    }

    /// Takes note of where the view is: row `top` is at its top, and it holds `rows` rows.
    pub fn scrolled(&mut self, top: usize, rows: usize)
        ensures
            final(self)@ == old(self)@.scrolled_to(top, rows),
            final(self).highlight_regex == old(self).highlight_regex,
            old(self)@.wf() ==> final(self)@.wf(),
    {
        let line: usize = match self.line_in_row(top) {
            Some(l) => l,
            None => 0,
        };
        self.top_line = line;
        self.visible_rows = rows;
    }

    /// Takes note that only matching lines are to be shown, or all: the view goes to the first
    /// row.
    pub fn filter_changed(&mut self)
        ensures
            final(self)@ == (Session { pending_jump: Some(0), ..old(self)@ }),
            final(self).highlight_regex == old(self).highlight_regex,
            old(self)@.wf() ==> final(self)@.wf(),
    {
        self.pending_jump = Some(0);
    }

    /// What is to be shown for a moment, which is then no longer waited for.
    pub fn take_flash(&mut self) -> (r: Option<String>)
        ensures
            crate::app::text_of(r) == old(self)@.flash,
            final(self)@ == (Session { flash: None, ..old(self)@ }),
            final(self).highlight_regex == old(self).highlight_regex,
            old(self)@.wf() ==> final(self)@.wf(),
    {
        self.flash.take()
    }

    /// Whether a line is marked.
    pub fn is_marked(&self, line: usize) -> (r: bool)
        ensures
            r == self@.is_marked(line),
    {
        match &self.store {
            Some(s) => match s.line_offset(line) {
                Some(offset) => app_marks::find_mark_at(&self.marks, offset).is_some(),
                None => false,
            },
            None => false,
        }
    }

    /// Which hit is the current one, of how many.
    pub fn match_label(&self) -> (r: String)
        requires
            self.match_cursor < usize::MAX,
        ensures
            r@ == text::decimal((self.match_cursor + 1) as nat) + " / "@ + text::decimal(
                self@.matches().len(),
            ),
    {
        let n: usize = match &self.store {
            Some(s) => s.matches().len(),
            None => 0,
        };
        let r = app_marks::with_numbers(
            "",
            (self.match_cursor + 1) as u64,
            " / ",
            n as u64,
            "",
        );
        proof {
            reveal_strlit("");
            assert(r@ =~= text::decimal((self.match_cursor + 1) as nat) + " / "@ + text::decimal(
                self@.matches().len(),
            ));
        }
        r
    }

    /// The status. `notice` is what is still to be shown for a moment.
    pub fn status_items(&self, notice: Option<&str>) -> (r: Vec<StatusItem>)
        requires
            self@.wf(),
        ensures
            item_values(r@) == status_of(
                self@,
                match notice {
                    Some(t) => Some(t@),
                    None => None,
                },
            ),
    {
        match &self.store {
            Some(s) => {
                let mut r = fact_items(s);
                push_maybe(&mut r, search_item(s, self.query.as_str()));
                push_maybe(&mut r, marks_item(&self.marks));
                push_maybe(&mut r, said_item(notice, Tone::Plain));
                let error: Option<&str> = match &self.error {
                    Some(e) => Some(e.as_str()),
                    None => None,
                };
                push_maybe(&mut r, said_item(error, Tone::Error));
                r
            },
            None => {
                let mut r: Vec<StatusItem> = Vec::new();
                assert(item_values(r@) =~= Seq::empty());
                push_item(&mut r, "就绪".to_owned(), Tone::Plain);
                assert(item_values(r@) =~= seq![("就绪"@, Tone::Plain)]);
                r
            },
        }
    }

    /// How a mark is listed.
    fn mark_row(&self, m: &Mark, now: u64) -> (r: MarkRow)
        requires
            self@.wf(),
        ensures
            r@ == listed(self@.store, m@, now),
    {
        let offset: usize = #[verifier::truncate]
        (m.bm.offset as usize);
        let line: Option<usize> = match &self.store {
            Some(s) => s.line_index_at(offset),
            None => None,
        };
        MarkRow {
            offset: m.bm.offset,
            line,
            head: m.bm.head.clone(),
            note: m.bm.note.clone(),
            time: m.bm.relative_time(now),
            state: m.anchor,
        }
    }

    /// The list of marks, at the time `now`.
    pub fn mark_rows(&self, now: u64) -> (r: Vec<MarkRow>)
        requires
            self@.wf(),
        ensures
            r@.map_values(|row: MarkRow| row@) == self@.marks.map_values(
                |m: MarkNow| listed(self@.store, m, now),
            ),
    {
        let mut r: Vec<MarkRow> = Vec::new();
        let ghost value = |row: MarkRow| row@;
        let ghost all = self@.marks.map_values(|m: MarkNow| listed(self@.store, m, now));
        let mut i: usize = 0;
        assert(r@.map_values(value) =~= all.take(0));
        while i < self.marks.len()
            invariant
                i <= self.marks@.len(),
                self@.wf(),
                value == |row: MarkRow| row@,
                all == self@.marks.map_values(|m: MarkNow| listed(self@.store, m, now)),
                r@.map_values(value) == all.take(i as int),
            decreases self.marks@.len() - i,
        {
            let row = self.mark_row(&self.marks[i], now);
            let ghost before = r@;
            r.push(row);
            i += 1;
            proof {
                assert(r@.map_values(value) =~= before.map_values(value).push(row@));
                assert(self@.marks[i - 1] == self.marks@[i - 1]@);
                assert(all.take(i as int) =~= all.take(i - 1).push(all[i - 1]));
            }
        }
        assert(all.take(i as int) =~= all);
        r
    }

    /// How many of the marks do not hold.
    pub fn stale_marks(&self) -> (r: usize)
        ensures
            r == marks::stale_count(self@.marks),
    {
        marks::count_stale(&self.marks)
    }

    /// Where the marks are kept, or why they are not.
    pub fn marks_footer(&self) -> (r: String)
        ensures
            r@ == (match self@.marks_path {
                Some(path) => "侧车："@ + path,
                None => match self@.marks_warning {
                    Some(w) => w,
                    None => "未打开文件"@,
                },
            }),
    {
        match &self.marks_path {
            Some(path) => {
                let mut r = String::new();
                r.push_str("侧车：");
                r.push_str(path.as_str());
                assert(r@ =~= "侧车："@ + path@);
                r
            },
            None => match &self.marks_warning {
                Some(w) => w.clone(),
                None => "未打开文件".to_owned(),
            },
        }
    }

    /// Begins to edit the note of the mark at `offset`.
    fn start_note(&mut self, offset: u64)
        ensures
            final(self)@ == old(self)@.editing(offset),
            final(self).highlight_regex == old(self).highlight_regex,
            old(self)@.wf() ==> final(self)@.wf(),
    {
        let note = match app_marks::find_mark_with(&self.marks, offset) {
            Some(k) => {
                assert(self@.marks[k as int] == self.marks@[k as int]@);
                self.marks[k].bm.note.clone()
            },
            None => {
                let t = String::new();
                assert(t@ =~= Seq::empty());
                t
            },
        };
        self.note_buf = note;
        self.editing_note = Some(offset);
    }

    /// Goes to the mark at `offset`, if its line is known.
    fn goto_offset(&mut self, offset: u64)
        requires
            old(self)@.wf(),
        ensures
            final(self)@ == old(self)@.at_offset(offset),
            final(self).highlight_regex == old(self).highlight_regex,
            final(self)@.wf(),
    {
        let at: usize = #[verifier::truncate]
        (offset as usize);
        let line: Option<usize> = match &self.store {
            Some(s) => s.line_index_at(at),
            None => None,
        };
        if let Some(l) = line {
            self.jump_to_file_line(l);
        }
    }

    /// Does what was asked for in the list of marks. What has to do with files is left to the
    /// caller.
    pub fn apply_mark_act(&mut self, act: MarkAct, data: &[u8])
        requires
            old(self)@.wf(),
            act is RefindAll ==> (old(self)@.store matches Some(s) ==> marks::can_refind(
                s,
                data@,
                None,
                old(self)@.marks,
            )),
        ensures
            final(self)@ == old(self)@.after_act(act, data@),
            final(self).highlight_regex == old(self).highlight_regex,
            final(self)@.wf(),
    {
        match act {
            MarkAct::Goto(offset) => {
                self.goto_offset(offset);
            },
            MarkAct::Delete(offset) => {
                self.remove_mark(offset);
            },
            MarkAct::StartNote(offset) => {
                self.start_note(offset);
            },
            MarkAct::CommitNote => {
                self.commit_note();
            },
            MarkAct::RefindAll => {
                self.refind_marks(None, data);
            },
            MarkAct::DropStale => {
                self.drop_stale_marks();
            },
            MarkAct::Export => {},
            MarkAct::Hide => {
                self.show_marks = false;
            },
        }
    }
}

impl Session {
    /// The note of the mark at `offset` is being edited.
    pub open spec fn editing(self, offset: u64) -> Session {
        Session {
            note_buf: match app_marks::mark_with(self.marks, offset, 0) {
                Some(k) => self.marks[k].bm.note,
                None => Seq::empty(),
            },
            editing_note: Some(offset),
            ..self
        }
    }

    /// The line at `offset` is gone to, if it is known.
    pub open spec fn at_offset(self, offset: u64) -> Session {
        match self.store {
            Some(s) => match s.line_index_at(offset as usize) {
                Some(line) => self.at_file_line(line),
                None => self,
            },
            None => self,
        }
    }

    /// After something was asked for in the list of marks.
    pub open spec fn after_act(self, act: MarkAct, data: Seq<u8>) -> Session {
        match act {
            MarkAct::Goto(offset) => self.at_offset(offset),
            MarkAct::Delete(offset) => self.without_mark(offset),
            MarkAct::StartNote(offset) => self.editing(offset),
            MarkAct::CommitNote => self.with_note(),
            MarkAct::RefindAll => self.with_marks_refound(None, data),
            MarkAct::DropStale => self.without_stale(),
            MarkAct::Export => self,
            MarkAct::Hide => Session { show_marks: false, ..self },
        }
    }
}

} // verus!
