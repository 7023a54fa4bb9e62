//! What the viewer does with marks.

use crate::app::{LogViewApp, Session};
use crate::bookmarks;
use crate::bookmarks::{Bookmark, Entry};
use crate::logstore::{LogStore, Store};
use crate::marks;
use crate::marks::{AnchorState, Mark, MarkNow};
use crate::paths;
use crate::startup::Platform;
use crate::text;
use vstd::prelude::*;
use vstd::string::*;

verus! {

/// A number between two texts.
pub(crate) fn with_number(before: &str, n: u64, after: &str) -> (r: String)
    ensures
        r@ == before@ + text::decimal(n as nat) + after@,
{
    let mut r = String::new();
    r.push_str(before);
    text::push_decimal(&mut r, n);
    r.push_str(after);
    assert(r@ =~= before@ + text::decimal(n as nat) + after@);
    r
}

/// Two numbers between three texts.
pub(crate) fn with_numbers(a: &str, m: u64, b: &str, n: u64, c: &str) -> (r: String)
    ensures
        r@ == a@ + text::decimal(m as nat) + b@ + text::decimal(n as nat) + c@,
{
    let mut r = with_number(a, m, b);
    text::push_decimal(&mut r, n);
    r.push_str(c);
    assert(r@ =~= a@ + text::decimal(m as nat) + b@ + text::decimal(n as nat) + c@);
    r
}

/// The first of the marks at or after place `i` that stands at `offset`.
pub open spec fn mark_at(marks: Seq<MarkNow>, offset: usize, i: int) -> Option<int>
    decreases marks.len() - i,
{
    if i < 0 || i >= marks.len() {
        None
    } else if marks[i].bm.offset as usize == offset {
        Some(i)
    } else {
        mark_at(marks, offset, i + 1)
    }
}

/// The first of the marks at or after place `i` whose offset is `offset`.
pub open spec fn mark_with(marks: Seq<MarkNow>, offset: u64, i: int) -> Option<int>
    decreases marks.len() - i,
{
    if i < 0 || i >= marks.len() {
        None
    } else if marks[i].bm.offset == offset {
        Some(i)
    } else {
        mark_with(marks, offset, i + 1)
    }
}

/// The smallest of the numbers above `from`.
pub open spec fn least_above(lines: Seq<usize>, from: int) -> Option<usize>
    decreases lines.len(),
{
    if lines.len() == 0 {
        None
    } else {
        let best = least_above(lines.drop_last(), from);
        if lines.last() > from && (best matches Some(b) ==> lines.last() < b) {
            Some(lines.last())
        } else {
            best
        }
    }
}

/// The greatest of the numbers below `bound`.
pub open spec fn greatest_below(lines: Seq<usize>, bound: int) -> Option<usize>
    decreases lines.len(),
{
    if lines.len() == 0 {
        None
    } else {
        let best = greatest_below(lines.drop_last(), bound);
        if lines.last() < bound && (best matches Some(b) ==> lines.last() > b) {
            Some(lines.last())
        } else {
            best
        }
    }
}

/// The line to go to from `from`: the next one, or the first if there is none; or back, the one
/// before, or the last if there is none.
pub open spec fn next_line(lines: Seq<usize>, from: usize, forward: bool) -> Option<usize> {
    if forward {
        match least_above(lines, from as int) {
            Some(l) => Some(l),
            None => least_above(lines, -1),
        }
    } else {
        match greatest_below(lines, from as int) {
            Some(l) => Some(l),
            None => greatest_below(lines, usize::MAX + 1),
        }
    }
}

impl Session {
    /// The line of a mark: where its offset falls, or the number it had if that is not known
    /// yet.
    pub open spec fn line_of(self, m: MarkNow) -> usize {
        match self.store {
            Some(s) => match s.line_index_at(m.bm.offset as usize) {
                Some(l) => l,
                None => m.bm.line as usize,
            },
            None => m.bm.line as usize,
        }
    }

    /// The lines of those of the marks that hold.
    pub open spec fn fresh_lines(self, marks: Seq<MarkNow>) -> Seq<usize>
        decreases marks.len(),
    {
        if marks.len() == 0 {
            Seq::empty()
        } else if marks.last().anchor is Fresh {
            self.fresh_lines(marks.drop_last()).push(self.line_of(marks.last()))
        } else {
            self.fresh_lines(marks.drop_last())
        }
    }

    /// Line `line`, which starts at `offset` and reads `line_text`, is marked; or, if it was, no
    /// longer.
    pub open spec fn with_line_toggled(
        self,
        line: usize,
        offset: usize,
        line_text: Seq<char>,
        now: u64,
    ) -> Session {
        match mark_at(self.marks, offset, 0) {
            Some(k) => Session {
                marks: self.marks.remove(k),
                marks_dirty: true,
                focused_mark: if self.focused_mark == Some(line) {
                    None
                } else {
                    self.focused_mark
                },
                flash: Some("已取消第 "@ + text::decimal((line + 1) as nat) + " 行的标记"@),
                ..self
            },
            None => {
                let marks = marks::placed(
                    self.marks,
                    MarkNow {
                        bm: Entry::made(offset, line, line_text, now),
                        anchor: AnchorState::Fresh,
                    },
                );
                Session {
                    marks,
                    marks_dirty: true,
                    cursor_line: Some(line),
                    focused_mark: Some(line),
                    flash: Some(
                        "已标记第 "@ + text::decimal((line + 1) as nat) + " 行（共 "@ + text::decimal(
                            marks.len(),
                        ) + " 条）"@,
                    ),
                    ..self
                }
            },
        }
    }

    /// The line that a key acts on is marked, or no longer marked. A line that the index does
    /// not hold cannot be marked.
    pub open spec fn toggled(self, data: Seq<u8>, now: u64) -> Session {
        match self.mark_target() {
            Some(line) => match self.store->0.line_offset(line as int) {
                Some(offset) => match self.store->0.line_text(data, line as int) {
                    Some(t) => self.with_line_toggled(line, offset, t, now),
                    None => self.flashing("这一行还没进索引，稍后再试"@),
                },
                None => self.flashing("这一行还没进索引，稍后再试"@),
            },
            None => self,
        }
    }

    /// The line that a key acts on can be decoded, if there is one.
    pub open spec fn target_reads(self, data: Seq<u8>) -> bool {
        self.mark_target() matches Some(line) ==> self.store->0.reads_line(data, line as int)
    }

    /// The marks that a sidecar file holds are taken in, in place of those that were there.
    pub open spec fn with_marks_of(
        self,
        p: Platform,
        content: Seq<char>,
        data: Seq<u8>,
    ) -> Session {
        let s = Session {
            marks: Seq::empty(),
            marks_warning: None,
            editing_note: None,
            cursor_line: None,
            focused_mark: None,
            marks_dirty: false,
            ..self
        };
        match self.store {
            Some(store) => {
                let now = marks::checked(Some(store), data, bookmarks::sidecar_marks(content));
                let stale = marks::stale_count(now);
                Session {
                    marks: now,
                    marks_path: Some(bookmarks::sidecar_of(p, store.path)),
                    show_marks: now.len() > 0,
                    flash: if now.len() == 0 {
                        self.flash
                    } else if stale == 0 {
                        Some("读回 "@ + text::decimal(now.len()) + " 条标记"@)
                    } else {
                        Some(
                            "读回 "@ + text::decimal(now.len()) + " 条标记，其中 "@ + text::decimal(
                                stale,
                            ) + " 条已失效"@,
                        )
                    },
                    ..s
                }
            },
            None => Session { marks_path: None, ..s },
        }
    }

    /// A file is shown. What is searched for is searched for in it, and its marks are taken in.
    pub open spec fn showing(
        self,
        p: Platform,
        store: Store,
        content: Seq<char>,
        data: Seq<u8>,
    ) -> Session {
        Session {
            store: Some(
                if self.query.len() > 0 {
                    store.with_request(self.request())
                } else {
                    store
                },
            ),
            match_cursor: 0,
            error: None,
            ..self
        }.with_marks_of(p, content, data)
    }

    /// A line is gone to as that of a mark. If only matching lines are shown and it is none of
    /// them, all lines are shown again.
    pub open spec fn at_file_line(self, line: usize) -> Session {
        let i = crate::app::place_of(self.matches(), line as u32, 0);
        let s = Session {
            follow: false,
            cursor_line: Some(line),
            focused_mark: Some(line),
            pending_jump: Some(line),
            ..self
        };
        if self.only_matched {
            if i < self.matches().len() {
                Session { pending_jump: Some(i as usize), ..s }
            } else {
                Session {
                    only_matched: false,
                    flash: Some("已关闭「只显示匹配行」以显示这条标记"@),
                    ..s
                }
            }
        } else {
            s
        }
    }

    /// The next mark that holds is gone to, or the one before.
    pub open spec fn at_next_mark(self, forward: bool) -> Session {
        let from = match self.cursor_line {
            Some(l) => l,
            None => self.top_line,
        };
        match next_line(self.fresh_lines(self.marks), from, forward) {
            Some(line) => self.at_file_line(line),
            None => self.flashing(
                if self.marks.len() == 0 {
                    "还没有标记"@
                } else {
                    "没有可定位的标记（都失效了，可以试「按原文回找」）"@
                },
            ),
        }
    }

    /// The line of the mark at `offset`.
    pub open spec fn line_with(self, offset: u64) -> Option<usize> {
        match mark_with(self.marks, offset, 0) {
            Some(k) => Some(self.line_of(self.marks[k])),
            None => None,
        }
    }

    /// The mark at `offset` is gone.
    pub open spec fn without_mark(self, offset: u64) -> Session {
        Session {
            focused_mark: if self.line_with(offset) == self.focused_mark {
                None
            } else {
                self.focused_mark
            },
            marks: marks::without_offset(self.marks, offset),
            marks_dirty: true,
            flash: Some("已删除该标记"@),
            ..self
        }
    }

    /// The note that was being edited is that of its mark.
    pub open spec fn with_note(self) -> Session {
        match self.editing_note {
            Some(offset) => Session {
                editing_note: None,
                note_buf: Seq::empty(),
                marks: match mark_with(self.marks, offset, 0) {
                    Some(k) => self.marks.update(
                        k,
                        MarkNow {
                            bm: Entry { note: self.note_buf, ..self.marks[k].bm },
                            ..self.marks[k]
                        },
                    ),
                    None => self.marks,
                },
                marks_dirty: true,
                ..self
            },
            None => self,
        }
    }

    /// The name of the log.
    pub open spec fn log_name(self, p: Platform) -> Seq<char> {
        match self.store {
            Some(s) => match paths::name_of(p, s.path) {
                Some(name) => name,
                None => "logview"@,
            },
            None => "logview"@,
        }
    }

    /// The marks that do not hold are looked for by their text.
    pub open spec fn with_marks_refound(self, only: Option<u64>, data: Seq<u8>) -> Session {
        match self.store {
            Some(s) => Session {
                marks: marks::gathered(marks::all_refound(s, data, only, self.marks)),
                focused_mark: None,
                marks_dirty: true,
                flash: Some(
                    "回找完成：重定位 "@ + text::decimal(
                        marks::found_count(s, data, only, self.marks),
                    ) + " 条，未找到 "@ + text::decimal(
                        marks::missed_count(s, data, only, self.marks),
                    ) + " 条"@,
                ),
                ..self
            },
            None => self,
        }
    }

    /// The marks that do not hold are gone.
    pub open spec fn without_stale(self) -> Session {
        let kept = marks::fresh_only(self.marks);
        if kept.len() < self.marks.len() {
            Session {
                marks: kept,
                focused_mark: None,
                marks_dirty: true,
                flash: Some(
                    "清掉 "@ + text::decimal((self.marks.len() - kept.len()) as nat)
                        + " 条失效标记"@,
                ),
                ..self
            }
        } else {
            Session { marks: kept, ..self }
        }
    }
}

/// Taking a mark out leaves the rest in order.
pub proof fn lemma_removed(marks: Seq<MarkNow>, k: int)
    requires
        bookmarks::rising(marks::offsets_now(marks)),
        0 <= k < marks.len(),
    ensures
        bookmarks::rising(marks::offsets_now(marks.remove(k))),
{
    let offs = marks::offsets_now(marks);
    let after = marks::offsets_now(marks.remove(k));
    assert forall|i: int, j: int| 0 <= i < j < after.len() implies after[i] < after[j] by {
        let a: int = if i < k {
            i
        } else {
            i + 1
        };
        let b: int = if j < k {
            j
        } else {
            j + 1
        };
        assert(after[i] == offs[a] && after[j] == offs[b]);
    }
}

/// Another note leaves the marks in order.
pub proof fn lemma_noted(marks: Seq<MarkNow>, k: int, m: MarkNow)
    requires
        bookmarks::rising(marks::offsets_now(marks)),
        0 <= k < marks.len(),
        m.bm.offset == marks[k].bm.offset,
    ensures
        bookmarks::rising(marks::offsets_now(marks.update(k, m))),
{
    assert(marks::offsets_now(marks.update(k, m)) =~= marks::offsets_now(marks));
}

pub(crate) fn find_mark_at(items: &Vec<Mark>, offset: usize) -> (r: Option<usize>)
    ensures
        match r {
            Some(k) => mark_at(marks::marks_now(items@), offset, 0) == Some(k as int) && k
                < items@.len(),
            None => mark_at(marks::marks_now(items@), offset, 0) is None,
        },
{
    let ghost marks = marks::marks_now(items@);
    let mut i: usize = 0;
    while i < items.len()
        invariant
            i <= items@.len(),
            marks == marks::marks_now(items@),
            mark_at(marks, offset, 0) == mark_at(marks, offset, i as int),
        decreases items@.len() - i,
    {
        assert(marks[i as int] == items@[i as int]@);
        let at: usize = #[verifier::truncate]
        (items[i].bm.offset as usize);
        if at == offset {
            return Some(i);
        }
        i += 1;
    }
    None
}

pub(crate) fn find_mark_with(items: &Vec<Mark>, offset: u64) -> (r: Option<usize>)
    ensures
        match r {
            Some(k) => mark_with(marks::marks_now(items@), offset, 0) == Some(k as int) && k
                < items@.len() && items@[k as int].bm.offset == offset,
            None => mark_with(marks::marks_now(items@), offset, 0) is None,
        },
{
    let ghost marks = marks::marks_now(items@);
    let mut i: usize = 0;
    while i < items.len()
        invariant
            i <= items@.len(),
            marks == marks::marks_now(items@),
            mark_with(marks, offset, 0) == mark_with(marks, offset, i as int),
        decreases items@.len() - i,
    {
        assert(marks[i as int] == items@[i as int]@);
        if items[i].bm.offset == offset {
            return Some(i);
        }
        i += 1;
    }
    None
}

/// The number above `from` that is the smallest of `lines`.
fn find_least_above(lines: &Vec<usize>, from: Option<usize>) -> (r: Option<usize>)
    ensures
        r == least_above(
            lines@,
            match from {
                Some(f) => f as int,
                None => -1,
            },
        ),
{
    let ghost bound: int = match from {
        Some(f) => f as int,
        None => -1,
    };
    let mut best: Option<usize> = None;
    let mut i: usize = 0;
    assert(lines@.take(0) =~= Seq::empty());
    while i < lines.len()
        invariant
            i <= lines@.len(),
            bound == (match from {
                Some(f) => f as int,
                None => -1,
            }),
            best == least_above(lines@.take(i as int), bound),
        decreases lines@.len() - i,
    {
        let l: usize = lines[i];
        proof {
            assert(lines@.take(i + 1).drop_last() =~= lines@.take(i as int));
        }
        let above: bool = match from {
            Some(f) => l > f,
            None => true,
        };
        let better: bool = match best {
            Some(b) => l < b,
            None => true,
        };
        if above && better {
            best = Some(l);
        }
        i += 1;
    }
    assert(lines@.take(i as int) =~= lines@);
    best
}

/// The number below `bound` that is the greatest of `lines`.
fn find_greatest_below(lines: &Vec<usize>, bound: Option<usize>) -> (r: Option<usize>)
    ensures
        r == greatest_below(
            lines@,
            match bound {
                Some(f) => f as int,
                None => usize::MAX + 1,
            },
        ),
{
    let ghost limit: int = match bound {
        Some(f) => f as int,
        None => usize::MAX + 1,
    };
    let mut best: Option<usize> = None;
    let mut i: usize = 0;
    assert(lines@.take(0) =~= Seq::empty());
    while i < lines.len()
        invariant
            i <= lines@.len(),
            limit == (match bound {
                Some(f) => f as int,
                None => usize::MAX + 1,
            }),
            best == greatest_below(lines@.take(i as int), limit),
        decreases lines@.len() - i,
    {
        let l: usize = lines[i];
        proof {
            assert(lines@.take(i + 1).drop_last() =~= lines@.take(i as int));
        }
        let below: bool = match bound {
            Some(f) => l < f,
            None => true,
        };
        let better: bool = match best {
            Some(b) => l > b,
            None => true,
        };
        if below && better {
            best = Some(l);
        }
        i += 1;
    }
    assert(lines@.take(i as int) =~= lines@);
    best
}

/// The line to go to from `from`, forward or back. There is one if there are lines at all.
pub fn find_next_line(lines: &Vec<usize>, from: usize, forward: bool) -> (r: Option<usize>)
    ensures
        r == next_line(lines@, from, forward),
{
    if forward {
        match find_least_above(lines, Some(from)) {
            Some(l) => Some(l),
            None => find_least_above(lines, None),
        }
    } else {
        match find_greatest_below(lines, Some(from)) {
            Some(l) => Some(l),
            None => find_greatest_below(lines, None),
        }
    }
}

impl LogViewApp {
    /// The line of a mark.
    pub fn mark_line(&self, m: &Mark) -> (r: usize)
        requires
            self@.wf(),
        ensures
            r == self@.line_of(m@),
    {
        let offset: usize = #[verifier::truncate]
        (m.bm.offset as usize);
        match &self.store {
            Some(s) => match s.line_index_at(offset) {
                Some(l) => l,
                None => m.bm.line as usize,
            },
            None => m.bm.line as usize,
        }
    }

    /// Where the line that a key acts on starts, and what it reads.
    fn line_to_mark(&self, data: &[u8], line: usize) -> (r: Option<(usize, String)>)
        requires
            self@.store is Some,
            self@.store->0.reads_line(data@, line as int),
        ensures
            ({
                let s = self@.store->0;
                match r {
                    Some((offset, t)) => s.line_offset(line as int) == Some(offset) && s.line_text(
                        data@,
                        line as int,
                    ) == Some(t@),
                    None => s.line_offset(line as int) is None || s.line_text(
                        data@,
                        line as int,
                    ) is None,
                }
            }),
    {
        match &self.store {
            Some(s) => match s.line_offset(line) {
                Some(offset) => {
                    let mut buf = String::new();
                    if s.read_line_into(data, line, &mut buf) {
                        proof {
                            let t = s@.line_text(data@, line as int)->0;
                            assert(buf@ =~= t);
                        }
                        Some((offset, buf))
                    } else {
                        None
                    }
                },
                None => None,
            },
            None => None,
        }
    }

    fn toggle_line(&mut self, line: usize, offset: usize, line_text: &str, now: u64)
        requires
            old(self)@.wf(),
            line < usize::MAX,
        ensures
            final(self)@ == old(self)@.with_line_toggled(line, offset, line_text@, now),
            final(self).highlight_regex == old(self).highlight_regex,
            final(self)@.wf(),
    {
        match find_mark_at(&self.marks, offset) {
            Some(k) => {
                let ghost before = self@.marks;
                proof {
                    lemma_removed(before, k as int);
                }
                let _ = self.marks.remove(k);
                assert(marks::marks_now(self.marks@) =~= before.remove(k as int));
                self.marks_dirty = true;
                if self.focused_mark == Some(line) {
                    self.focused_mark = None;
                }
                self.flash = Some(with_number("已取消第 ", (line + 1) as u64, " 行的标记"));
            },
            None => {
                let bm = Bookmark::new(offset, line, line_text, now);
                let m = Mark { bm, anchor: AnchorState::Fresh };
                marks::place_mark(&mut self.marks, m);
                self.marks_dirty = true;
                self.cursor_line = Some(line);
                self.focused_mark = Some(line);
                let n: usize = self.marks.len();
                self.flash = Some(
                    with_numbers("已标记第 ", (line + 1) as u64, " 行（共 ", n as u64, " 条）"),
                );
            },
        }
    }

    /// Marks the line that a key acts on, at the time `now`, or takes its mark away.
    pub fn toggle_mark(&mut self, data: &[u8], now: u64)
        requires
            old(self)@.wf(),
            old(self)@.target_reads(data@),
        ensures
            final(self)@ == old(self)@.toggled(data@, now),
            final(self).highlight_regex == old(self).highlight_regex,
            final(self)@.wf(),
    {
        match self.mark_target() {
            Some(line) => match self.line_to_mark(data, line) {
                Some((offset, t)) => {
                    self.toggle_line(line, offset, t.as_str(), now);
                },
                None => {
                    self.flash = Some("这一行还没进索引，稍后再试".to_owned());
                },
            },
            None => {},
        }
    }

    /// What is told of marks that were read back.
    fn marks_notice(&self) -> (r: Option<String>)
        ensures
            crate::app::text_of(r) == (if self@.marks.len() == 0 {
                None
            } else if marks::stale_count(self@.marks) == 0 {
                Some("读回 "@ + text::decimal(self@.marks.len()) + " 条标记"@)
            } else {
                Some(
                    "读回 "@ + text::decimal(self@.marks.len()) + " 条标记，其中 "@ + text::decimal(
                        marks::stale_count(self@.marks),
                    ) + " 条已失效"@,
                )
            }),
    {
        let n: usize = self.marks.len();
        if n == 0 {
            return None;
        }
        let stale = marks::count_stale(&self.marks);
        if stale == 0 {
            Some(with_number("读回 ", n as u64, " 条标记"))
        } else {
            Some(with_numbers("读回 ", n as u64, " 条标记，其中 ", stale as u64, " 条已失效"))
        }
    }

    fn sidecar_of_store(&self, p: Platform) -> (r: Option<String>)
        ensures
            crate::app::text_of(r) == (match self@.store {
                Some(s) => Some(bookmarks::sidecar_of(p, s.path)),
                None => None,
            }),
    {
        match &self.store {
            Some(s) => {
                let path = s.path_str();
                Some(bookmarks::sidecar_path(p, path.as_str()))
            },
            None => None,
        }
    }

    /// Takes in the marks that the sidecar file of the log holds, and tells of each whether it
    /// still holds. If there are any, they are shown.
    pub fn load_marks(&mut self, p: Platform, content: &str, data: &[u8])
        requires
            old(self)@.wf(),
            marks::reads_for_all(old(self)@.store, data@, bookmarks::sidecar_marks(content@)),
        ensures
            final(self)@ == old(self)@.with_marks_of(p, content@, data@),
            final(self).highlight_regex == old(self).highlight_regex,
            final(self)@.wf(),
    {
        self.marks_warning = None;
        self.editing_note = None;
        self.cursor_line = None;
        self.focused_mark = None;
        self.marks_dirty = false;
        self.marks_path = self.sidecar_of_store(p);
        if self.marks_path.is_none() {
            self.marks = Vec::new();
            assert(marks::marks_now(self.marks@) =~= Seq::empty());
            return;
        }
        let items = bookmarks::parse_sidecar(content);
        self.marks = marks::check_all(&self.store, data, &items);
        proof {
            assert(marks::offsets_now(marks::marks_now(self.marks@)) =~= bookmarks::offsets(
                bookmarks::marks_of(items@),
            ));
        }
        self.show_marks = self.marks.len() > 0;
        if self.marks.len() > 0 {
            self.flash = self.marks_notice();
        }
    }

    /// Shows a file that was opened, with the content of its sidecar file, or says why it could
    /// not be opened. A sidecar file that cannot be read has no content.
    pub fn open_path(
        &mut self,
        p: Platform,
        opened: Result<LogStore, String>,
        content: &str,
        data: &[u8],
    )
        requires
            old(self)@.wf(),
            opened matches Ok(s) ==> s@.wf(),
            opened matches Ok(s) ==> marks::reads_for_all(
                Some(s@),
                data@,
                bookmarks::sidecar_marks(content@),
            ),
        ensures
            match opened {
                Ok(s) => {
                    &&& final(self)@ == old(self)@.showing(p, s@, content@, data@)
                    &&& final(self).highlights_query()
                },
                Err(reason) => {
                    &&& final(self)@ == (Session { error: Some(reason@), ..old(self)@ })
                    &&& final(self).highlight_regex == old(self).highlight_regex
                },
            },
            final(self)@.wf(),
    {
        match opened {
            Ok(mut s) => {
                let ghost given = s@;
                if !self.query.as_str().is_empty() {
                    let _ = s.start_search(self.search_request());
                }
                self.highlight_regex = self.compiled_highlight_regex();
                self.match_cursor = 0;
                self.store = Some(s);
                self.error = None;
                proof {
                    let list = bookmarks::sidecar_marks(content@);
                    assert forall|i: int| 0 <= i < list.len() implies #[trigger] marks::reads_for(
                        self@.store,
                        data@,
                        list[i],
                    ) by {
                        assert(marks::reads_for(Some(given), data@, list[i]));
                    }
                }
                self.load_marks(p, content, data);
            },
            Err(reason) => {
                self.error = Some(reason);
            },
        }
    }

    /// Tells anew of each mark whether it holds.
    pub fn validate_marks(&mut self, data: &[u8])
        requires
            old(self)@.wf(),
            marks::reads_for_all(
                old(self)@.store,
                data@,
                marks::entries(old(self)@.marks),
            ),
        ensures
            final(self)@ == (Session {
                marks: marks::checked(
                    old(self)@.store,
                    data@,
                    marks::entries(old(self)@.marks),
                ),
                ..old(self)@
            }),
            final(self).highlight_regex == old(self).highlight_regex,
            final(self)@.wf(),
    {
        let items = self.bookmarks();
        let ghost before = self@.marks;
        self.marks = marks::check_all(&self.store, data, &items);
        proof {
            assert(marks::offsets_now(marks::marks_now(self.marks@)) =~= marks::offsets_now(
                before,
            ));
        }
    }

    /// The marks, without whether they hold.
    pub fn bookmarks(&self) -> (r: Vec<Bookmark>)
        ensures
            bookmarks::marks_of(r@) == marks::entries(self@.marks),
    {
        let mut r: Vec<Bookmark> = Vec::new();
        let ghost all = marks::entries(self@.marks);
        let mut i: usize = 0;
        assert(bookmarks::marks_of(r@) =~= all.take(0));
        while i < self.marks.len()
            invariant
                i <= self.marks@.len(),
                all == marks::entries(self@.marks),
                bookmarks::marks_of(r@) == all.take(i as int),
            decreases self.marks@.len() - i,
        {
            let b = self.marks[i].bm.clone();
            let ghost before = r@;
            r.push(b);
            i += 1;
            proof {
                assert(bookmarks::marks_of(r@) =~= bookmarks::marks_of(before).push(b@));
                assert(all[i - 1] == self.marks@[i - 1].bm@);
                assert(all.take(i as int) =~= all.take(i - 1).push(all[i - 1]));
            }
        }
        assert(all.take(i as int) =~= all);
        r
    }

    /// Looks for the marks that do not hold, or for one of them, by the text of their heads,
    /// and moves them to where it stands.
    pub fn refind_marks(&mut self, only: Option<u64>, data: &[u8])
        requires
            old(self)@.wf(),
            old(self)@.store matches Some(s) ==> marks::can_refind(
                s,
                data@,
                only,
                old(self)@.marks,
            ),
        ensures
            final(self)@ == old(self)@.with_marks_refound(only, data@),
            final(self).highlight_regex == old(self).highlight_regex,
            final(self)@.wf(),
    {
        let (items, moved, missed) = match &self.store {
            Some(s) => marks::refind(s, data, only, &self.marks),
            None => {
                return;
            },
        };
        self.marks = items;
        self.focused_mark = None;
        self.marks_dirty = true;
        self.flash = Some(
            with_numbers(
                "回找完成：重定位 ",
                moved as u64,
                " 条，未找到 ",
                missed as u64,
                " 条",
            ),
        );
    }

    /// Takes away the marks that do not hold.
    pub fn drop_stale_marks(&mut self)
        requires
            old(self)@.wf(),
        ensures
            final(self)@ == old(self)@.without_stale(),
            final(self).highlight_regex == old(self).highlight_regex,
            final(self)@.wf(),
    {
        let before: usize = self.marks.len();
        proof {
            marks::lemma_kept_in_order(self@.marks, 0);
        }
        self.marks = marks::keep_fresh(&self.marks);
        let dropped: usize = before - self.marks.len();
        if dropped > 0 {
            self.focused_mark = None;
            self.marks_dirty = true;
            self.flash = Some(with_number("清掉 ", dropped as u64, " 条失效标记"));
        }
    }

    /// Where a line stands among those that were found.
    fn place_among_matches(&self, line: usize) -> (r: Option<usize>)
        ensures
            ({
                let i = crate::app::place_of(self@.matches(), line as u32, 0);
                match r {
                    Some(k) => k == i && i < self@.matches().len(),
                    None => i >= self@.matches().len(),
                }
            }),
    {
        let wanted: u32 = #[verifier::truncate]
        (line as u32);
        match &self.store {
            Some(s) => {
                let matches = s.matches();
                let n: usize = matches.len();
                let mut i: usize = 0;
                while i < n && matches[i] != wanted
                    invariant
                        n == matches@.len(),
                        i <= n,
                        crate::app::place_of(matches@, wanted, 0) == crate::app::place_of(
                            matches@,
                            wanted,
                            i as int,
                        ),
                    decreases n - i,
                {
                    i += 1;
                }
                if i < n {
                    Some(i)
                } else {
                    None
                }
            },
            None => None,
        }
    }

    /// Goes to a line as that of a mark. Where only matching lines are shown, a row is not a
    /// line: if the line is not among them, all lines are shown again.
    pub fn jump_to_file_line(&mut self, line: usize)
        ensures
            final(self)@ == old(self)@.at_file_line(line),
            final(self).highlight_regex == old(self).highlight_regex,
            old(self)@.wf() ==> final(self)@.wf(),
    {
        if self.only_matched {
            match self.place_among_matches(line) {
                Some(i) => {
                    self.follow = false;
                    self.cursor_line = Some(line);
                    self.focused_mark = Some(line);
                    self.pending_jump = Some(i);
                },
                None => {
                    self.only_matched = false;
                    self.flash = Some("已关闭「只显示匹配行」以显示这条标记".to_owned());
                    self.follow = false;
                    self.cursor_line = Some(line);
                    self.focused_mark = Some(line);
                    self.pending_jump = Some(line);
                },
            }
        } else {
            self.follow = false;
            self.cursor_line = Some(line);
            self.focused_mark = Some(line);
            self.pending_jump = Some(line);
        }
    }

    /// The lines of the marks that hold.
    fn lines_of_fresh(&self) -> (r: Vec<usize>)
        requires
            self@.wf(),
        ensures
            r@ == self@.fresh_lines(self@.marks),
    {
        let mut r: Vec<usize> = Vec::new();
        let ghost all = self@.marks;
        let mut i: usize = 0;
        assert(all.take(0) =~= Seq::empty());
        while i < self.marks.len()
            invariant
                i <= self.marks@.len(),
                self@.wf(),
                all == self@.marks,
                r@ == self@.fresh_lines(all.take(i as int)),
            decreases self.marks@.len() - i,
        {
            proof {
                assert(all.take(i + 1).drop_last() =~= all.take(i as int));
                assert(all.take(i + 1).last() == self.marks@[i as int]@);
            }
            if self.marks[i].anchor == AnchorState::Fresh {
                let l = self.mark_line(&self.marks[i]);
                r.push(l);
            }
            i += 1;
        }
        assert(all.take(i as int) =~= all);
        r
    }

    /// Goes to the next mark that holds, or back to the one before; behind the last comes the
    /// first. A mark that does not hold is never gone to.
    pub fn goto_mark(&mut self, delta: isize)
        requires
            old(self)@.wf(),
        ensures
            final(self)@ == old(self)@.at_next_mark(delta >= 0),
            final(self).highlight_regex == old(self).highlight_regex,
            final(self)@.wf(),
    {
        let lines = self.lines_of_fresh();
        let from: usize = match self.cursor_line {
            Some(l) => l,
            None => self.top_line,
        };
        match find_next_line(&lines, from, delta >= 0) {
            Some(line) => {
                self.jump_to_file_line(line);
            },
            None => {
                if self.marks.len() == 0 {
                    self.flash = Some("还没有标记".to_owned());
                } else {
                    self.flash = Some(
                        "没有可定位的标记（都失效了，可以试「按原文回找」）".to_owned(),
                    );
                }
            },
        }
    }

    fn find_line_with(&self, offset: u64) -> (r: Option<usize>)
        requires
            self@.wf(),
        ensures
            r == self@.line_with(offset),
    {
        match find_mark_with(&self.marks, offset) {
            Some(k) => {
                assert(self@.marks[k as int] == self.marks@[k as int]@);
                Some(self.mark_line(&self.marks[k]))
            },
            None => None,
        }
    }

    /// Takes away the mark at `offset`. If it was the one that was jumped to last, nothing is
    /// left of that.
    pub fn remove_mark(&mut self, offset: u64)
        requires
            old(self)@.wf(),
        ensures
            final(self)@ == old(self)@.without_mark(offset),
            final(self).highlight_regex == old(self).highlight_regex,
            final(self)@.wf(),
    {
        let hit: Option<usize> = self.find_line_with(offset);
        let focused: Option<usize> = if hit == self.focused_mark {
            None
        } else {
            self.focused_mark
        };
        proof {
            marks::lemma_kept_in_order(self@.marks, offset);
        }
        self.focused_mark = focused;
        self.marks = marks::keep_others(&self.marks, offset);
        self.marks_dirty = true;
        self.flash = Some("已删除该标记".to_owned());
    }

    /// Makes a line the current one.
    pub fn select_line(&mut self, line: usize)
        ensures
            final(self)@ == (Session {
                cursor_line: Some(line),
                focused_mark: None,
                ..old(self)@
            }),
            final(self).highlight_regex == old(self).highlight_regex,
            old(self)@.wf() ==> final(self)@.wf(),
    {
        self.cursor_line = Some(line);
        self.focused_mark = None;
    }

    /// Gives the mark whose note was being edited that note.
    pub fn commit_note(&mut self)
        requires
            old(self)@.wf(),
        ensures
            final(self)@ == old(self)@.with_note(),
            final(self).highlight_regex == old(self).highlight_regex,
            final(self)@.wf(),
    {
        match self.editing_note {
            Some(offset) => {
                let note = self.note_buf.clone();
                self.editing_note = None;
                self.note_buf = String::new();
                assert(self@.note_buf =~= Seq::empty());
                let ghost before = self@.marks;
                match find_mark_with(&self.marks, offset) {
                    Some(k) => {
                        let mut m = self.marks[k].clone();
                        m.bm.note = note;
                        proof {
                            assert(before[k as int] == self.marks@[k as int]@);
                            lemma_noted(before, k as int, m@);
                        }
                        self.marks.set(k, m);
                        assert(marks::marks_now(self.marks@) =~= before.update(k as int, m@));
                    },
                    None => {},
                }
                self.marks_dirty = true;
            },
            None => {},
        }
    }

    /// Hands out the path and the content of the sidecar file, if it is to be written. Without
    /// a path the marks are not kept.
    pub fn marks_to_write(&mut self) -> (r: Option<(String, String)>)
        ensures
            match r {
                Some((path, content)) => {
                    &&& old(self)@.marks_dirty
                    &&& old(self)@.marks_path == Some(path@)
                    &&& content@ == bookmarks::sidecar_text(marks::entries(old(self)@.marks))
                    &&& final(self)@ == old(self)@
                },
                None => {
                    &&& !old(self)@.marks_dirty || old(self)@.marks_path is None
                    &&& final(self)@ == (Session { marks_dirty: false, ..old(self)@ })
                },
            },
            final(self).highlight_regex == old(self).highlight_regex,
    {
        if !self.marks_dirty {
            return None;
        }
        let path: Option<String> = self.marks_path.clone();
        match path {
            Some(p) => {
                let items = self.bookmarks();
                let content = bookmarks::render_sidecar(items.as_slice());
                Some((p, content))
            },
            None => {
                self.marks_dirty = false;
                None
            },
        }
    }

    /// Takes note of whether the sidecar file was written. If not, the marks are kept only as
    /// long as the viewer runs, and it is said why.
    pub fn marks_written(&mut self, outcome: Result<(), String>)
        ensures
            final(self)@ == (match outcome {
                Ok(_) => Session { marks_dirty: false, ..old(self)@ },
                Err(reason) => Session {
                    marks_dirty: false,
                    marks_path: None,
                    marks_warning: Some(
                        "日志目录写不进去（"@ + reason@ + "），标记只在本次会话有效"@,
                    ),
                    ..old(self)@
                },
            }),
            final(self).highlight_regex == old(self).highlight_regex,
            old(self)@.wf() ==> final(self)@.wf(),
    {
        match outcome {
            Ok(_) => {
                self.marks_dirty = false;
            },
            Err(reason) => {
                let mut w = String::new();
                w.push_str("日志目录写不进去（");
                w.push_str(reason.as_str());
                w.push_str("），标记只在本次会话有效");
                assert(w@ =~= "日志目录写不进去（"@ + reason@ + "），标记只在本次会话有效"@);
                self.marks_path = None;
                self.marks_warning = Some(w);
                self.marks_dirty = false;
            },
        }
    }

    /// The name under which marks are exported: that of the log. Nothing comes back if there
    /// are no marks.
    pub fn export_name(&mut self, p: Platform) -> (r: Option<String>)
        ensures
            old(self)@.marks.len() == 0 ==> r is None && final(self)@ == old(self)@.flashing(
                "还没有标记"@,
            ),
            old(self)@.marks.len() > 0 ==> {
                &&& final(self)@ == old(self)@
                &&& crate::app::text_of(r) == Some(old(self)@.log_name(p))
            },
            final(self).highlight_regex == old(self).highlight_regex,
            old(self)@.wf() ==> final(self)@.wf(),
    {
        if self.marks.len() == 0 {
            self.flash = Some("还没有标记".to_owned());
            return None;
        }
        match &self.store {
            Some(s) => {
                let path = s.path_str();
                match paths::file_name(p, path.as_str()) {
                    Some(name) => Some(name),
                    None => Some("logview".to_owned()),
                }
            },
            None => Some("logview".to_owned()),
        }
    }

    /// The marks as they are exported.
    pub fn export_text(&self, name: &str, now: u64) -> (r: String)
        requires
            forall|i: int| 0 <= i < self.marks@.len() ==> (#[trigger] self.marks@[i]).bm.line < u32::MAX,
        ensures
            r@ == bookmarks::markdown(name@, marks::entries(self@.marks), now),
    {
        let items = self.bookmarks();
        proof {
            let all = bookmarks::marks_of(items@);
            assert(all.len() == items@.len() && all.len() == self.marks@.len());
            assert forall|i: int| 0 <= i < items@.len() implies (#[trigger] items@[i]).line
                < u32::MAX by {
                assert(all[i] == items@[i]@);
                assert(all[i] == self.marks@[i].bm@);
                assert(self.marks@[i].bm.line < u32::MAX);
            }
        }
        bookmarks::render_markdown(name, items.as_slice(), now)
    }

    /// Takes note of whether the marks were exported.
    pub fn exported(&mut self, outcome: Result<(), String>)
        ensures
            final(self)@ == old(self)@.flashing(
                match outcome {
                    Ok(_) => "已导出 "@ + text::decimal(old(self)@.marks.len()) + " 条标记"@,
                    Err(reason) => "导出失败："@ + reason@,
                },
            ),
            final(self).highlight_regex == old(self).highlight_regex,
            old(self)@.wf() ==> final(self)@.wf(),
    {
        match outcome {
            Ok(_) => {
                let n: usize = self.marks.len();
                self.flash = Some(with_number("已导出 ", n as u64, " 条标记"));
            },
            Err(reason) => {
                let mut t = String::new();
                t.push_str("导出失败：");
                t.push_str(reason.as_str());
                assert(t@ =~= "导出失败："@ + reason@);
                self.flash = Some(t);
            },
        }
    }
}

} // verus!
