//! What holds of a session: of its rows, its keys and its marks.

use crate::app::{OnSearchDone, Session};
use crate::app_keys::Keys;
use crate::app_laws;
use crate::app_marks;
use crate::app_view;
use crate::app_view::{MarkAct, Tone};
use crate::bookmarks;
use crate::bookmarks::Entry;
use crate::logstore::Store;
use crate::mark_list_laws;
use crate::marks::{AnchorState, MarkNow};
use crate::search;
use crate::startup::Platform;
use crate::text;
use vstd::prelude::*;

verus! {

/// The rows are all lines, one for each in order, or those that were found, in their order.
pub proof fn law_rows_hold_lines(s: Session, r: int)
    requires
        s.store is Some,
        0 <= r <= usize::MAX,
    ensures
        s.only_matched ==> s.row_count() == (s.store->0).matches.len(),
        !s.only_matched ==> s.row_count() == (s.store->0).line_count(),
        !s.only_matched ==> s.line_in_row(r) == Some(r as usize),
        s.only_matched && r < s.row_count() ==> s.line_in_row(r) == Some(
            (s.store->0).matches[r] as usize,
        ),
        s.only_matched && r >= s.row_count() ==> s.line_in_row(r) is None,
{
}

/// Without a file there are no rows. Something is said in their place exactly where there are
/// none.
pub proof fn law_something_is_said_in_place_of_rows(s: Session)
    ensures
        s.store is None ==> s.row_count() == 0,
        s.placeholder() is None <==> s.row_count() > 0,
        s.store is None ==> s.placeholder() == Some("把日志文件拖到这里"@),
        s.store is Some && s.row_count() == 0 && (s.store->0).indexing ==> s.placeholder() == Some(
            "正在建立索引…"@,
        ),
        s.store is Some && s.row_count() == 0 && !(s.store->0).indexing ==> s.placeholder()
            == Some("文件为空"@),
{
}

/// After scrolling, the line at the top is the one in the row at the top.
pub proof fn law_scrolling(s: Session, top: usize, rows: usize)
    ensures
        s.scrolled_to(top, rows).visible_rows == rows,
        !s.only_matched ==> s.scrolled_to(top, rows).top_line == top,
        s.only_matched && top < s.matches().len() ==> s.scrolled_to(top, rows).top_line
            == s.matches()[top as int],
        s.scrolled_to(top, rows).cursor_line == s.cursor_line,
        s.scrolled_to(top, rows).match_cursor == s.match_cursor,
{
}

/// The end is the last row. It is gone to once, and only if it was asked for and there is one.
pub proof fn law_end_is_the_last_row(s: Session)
    requires
        s.row_count() <= usize::MAX,
    ensures
        ({
            let t = s.at_end_if_asked();
            &&& s.jump_to_end && s.row_count() > 0 ==> t.pending_jump == Some(
                (s.row_count() - 1) as usize,
            ) && !t.jump_to_end && !t.follow
            &&& !s.jump_to_end || s.row_count() == 0 ==> t == s
        }),
{
}

/// A key acts on the current line while that is in view: not above the top, and less than the
/// rows of the view below it. Else it acts on the line at the top.
pub proof fn law_line_that_a_key_acts_on(s: Session)
    ensures
        s.store is None ==> s.mark_target() is None,
        s.store is Some ==> {
            let rows: int = if s.visible_rows == 0 {
                1
            } else {
                s.visible_rows as int
            };
            let in_view = s.cursor_line is Some && 0 <= s.cursor_line->0 - s.top_line < rows;
            &&& in_view ==> s.mark_target() == s.cursor_line
            &&& !in_view ==> s.mark_target() == Some(s.top_line)
        },
{
}

/// A line is marked exactly if one of the marks stands where the line starts.
pub proof fn law_marked_lines(s: Session, line: usize)
    requires
        s.store is Some,
        (s.store->0).line_offset(line as int) is Some,
    ensures
        s.is_marked(line) <==> exists|k: int|
            0 <= k < s.marks.len() && (#[trigger] s.marks[k]).bm.offset as usize
                == (s.store->0).line_offset(line as int)->0,
{
    app_laws::lemma_mark_at(s.marks, (s.store->0).line_offset(line as int)->0, 0);
}

/// No key was pressed that is more than a letter, and nothing is being typed.
pub open spec fn letters_are_keys(s: Session, keys: Keys) -> bool {
    s.editing_note is None && !s.search_has_focus && !keys.escape && !keys.find && !keys.slash
        && !keys.panel
}

/// `n` leads to the next hit and `N` to the one before: from hit `c` to `c + 1` or `c - 1`.
pub proof fn law_n_leads_to_the_next_hit(s: Session, keys: Keys, data: Seq<u8>, now: u64)
    requires
        letters_are_keys(s, keys),
        keys.n,
        !keys.g && !keys.b && !keys.f2,
        s.matches().len() <= usize::MAX,
        s.match_cursor < s.matches().len(),
    ensures
        ({
            let n = s.matches().len();
            let c = s.match_cursor;
            let t = s.after_keys(keys, data, now);
            &&& !keys.shift && c + 1 < n ==> t.match_cursor == c + 1
            &&& !keys.shift && c + 1 == n ==> t.match_cursor == c
            &&& keys.shift && c > 0 ==> t.match_cursor == c - 1
            &&& keys.shift && c == 0 ==> t.match_cursor == 0
            &&& t.cursor_line == Some(s.matches()[t.match_cursor as int] as usize)
            &&& t.query == s.query && t.marks == s.marks
        }),
{
}

/// `g` leads to the first row, and `G` asks for the last.
pub proof fn law_g_leads_to_the_ends(s: Session, keys: Keys, data: Seq<u8>, now: u64)
    requires
        letters_are_keys(s, keys),
        keys.g,
        !keys.n && !keys.b && !keys.f2,
    ensures
        ({
            let t = s.after_keys(keys, data, now);
            &&& !keys.shift ==> t.pending_jump == Some(0usize) && !t.follow && t.jump_to_end
                == s.jump_to_end
            &&& keys.shift ==> t.jump_to_end && t.pending_jump == s.pending_jump
            &&& t.focused_mark is None && t.marks == s.marks && t.match_cursor == s.match_cursor
        }),
{
}

/// `b` marks the line that a key acts on, or takes its mark away; `F2` leads to the next mark,
/// with shift to the one before.
pub proof fn law_keys_for_marks(s: Session, keys: Keys, data: Seq<u8>, now: u64)
    requires
        letters_are_keys(s, keys),
        !keys.n && !keys.g,
    ensures
        keys.b && !keys.f2 ==> s.after_keys(keys, data, now) == s.toggled(data, now),
        keys.f2 && !keys.b && !keys.shift ==> s.after_keys(keys, data, now) == s.at_next_mark(true),
        keys.f2 && !keys.b && keys.shift ==> s.after_keys(keys, data, now) == s.at_next_mark(false),
        !keys.f2 && !keys.b ==> s.after_keys(keys, data, now) == s,
{
}

/// Escape drops what is searched for and what was found, and leaves the search box. Marks and
/// the place in the file stay.
pub proof fn law_escape_ends_the_search(s: Session, keys: Keys, data: Seq<u8>, now: u64)
    requires
        keys.escape,
        s.editing_note is None,
    ensures
        ({
            let t = s.after_keys(keys, data, now);
            &&& t.query.len() == 0 && t.matches().len() == 0 && !t.search_has_focus
            &&& t.store is Some <==> s.store is Some
            &&& t.store is Some ==> !(t.store->0).searching && (t.store->0).pending is None
                && (t.store->0).total == 0 && (t.store->0).regex_error is None
                && (t.store->0).line_starts == (s.store->0).line_starts
            &&& t.marks == s.marks && t.cursor_line == s.cursor_line && t.top_line == s.top_line
        }),
{
}

/// The search box is asked for by command and `F` from everywhere but a note, and by a slash
/// where no text is typed. Nothing but that changes, and the panel if it was asked for too.
pub proof fn law_search_box_is_asked_for(s: Session, keys: Keys, data: Seq<u8>, now: u64)
    requires
        s.editing_note is None,
        !keys.escape,
        keys.find || keys.slash && !s.search_has_focus,
    ensures
        s.after_keys(keys, data, now).focus_search,
        s.after_keys(keys, data, now).query == s.query,
        s.after_keys(keys, data, now).marks == s.marks,
        s.after_keys(keys, data, now).match_cursor == s.match_cursor,
        s.after_keys(keys, data, now).pending_jump == s.pending_jump,
{
}

/// Command and `B` shows the list of marks or hides it, and twice leaves it as it was.
pub proof fn law_panel_key(s: Session, keys: Keys, data: Seq<u8>, now: u64)
    requires
        s.editing_note is None,
        keys.panel,
        !keys.escape && !keys.find && !keys.slash && !keys.n && !keys.g && !keys.b && !keys.f2,
    ensures
        s.after_keys(keys, data, now).show_marks == !s.show_marks,
        s.after_keys(keys, data, now).after_keys(keys, data, now).show_marks == s.show_marks,
        s.after_keys(keys, data, now).marks == s.marks,
{
}

/// A search is for what is in the box, with the settings beside it.
pub proof fn law_search_is_for_what_was_typed(s: Session, on_done: OnSearchDone)
    ensures
        s.request().query == s.query,
        s.request().case_sensitive == s.case_sensitive,
        s.request().use_regex == s.use_regex,
        ({
            let t = s.searching_for(on_done);
            &&& s.store is None ==> t.store is None && t.pending_after_search
                == s.pending_after_search
            &&& s.store is Some ==> t.store == Some(
                (s.store->0).with_request(
                    search::Request {
                        query: s.query,
                        case_sensitive: s.case_sensitive,
                        use_regex: s.use_regex,
                    },
                ),
            )
            &&& s.store is Some && s.query.len() > 0 ==> t.pending_after_search == Some(on_done)
            &&& on_done is GotoFirstMatch ==> t.match_cursor == 0
            &&& on_done is StayAtView ==> t.match_cursor == s.match_cursor
            &&& t.query == s.query && t.marks == s.marks && t.pending_jump == s.pending_jump
        }),
{
}

/// While a search runs, nothing is gone to.
pub proof fn law_running_search_moves_nothing(s: Session)
    requires
        s.store is Some,
        (s.store->0).searching,
    ensures
        s.after_search() == s,
{
}

/// The line of a mark is the one that its offset falls in, or the one it had if that is not
/// known.
pub proof fn law_line_of_a_mark(s: Session, m: MarkNow)
    ensures
        s.store is Some && (s.store->0).line_index_at(m.bm.offset as usize) is Some ==> s.line_of(m)
            == (s.store->0).line_index_at(m.bm.offset as usize)->0,
        s.store is None || (s.store->0).line_index_at(m.bm.offset as usize) is None ==> s.line_of(m)
            == m.bm.line,
{
}

/// `l` is the line of a mark that holds.
pub open spec fn has_fresh_mark(s: Session, l: usize) -> bool {
    exists|k: int|
        0 <= k < s.marks.len() && (#[trigger] s.marks[k]).anchor == AnchorState::Fresh && s.line_of(
            s.marks[k],
        ) == l
}

proof fn lemma_fresh_lines(s: Session, list: Seq<MarkNow>, l: usize)
    ensures
        s.fresh_lines(list).contains(l) <==> exists|k: int|
            0 <= k < list.len() && (#[trigger] list[k]).anchor == AnchorState::Fresh && s.line_of(
                list[k],
            ) == l,
    decreases list.len(),
{
    if list.len() > 0 {
        let front = list.drop_last();
        lemma_fresh_lines(s, front, l);
        let before = s.fresh_lines(front);
        let all = s.fresh_lines(list);
        if before.contains(l) {
            let k = choose|k: int|
                0 <= k < front.len() && (#[trigger] front[k]).anchor == AnchorState::Fresh
                    && s.line_of(front[k]) == l;
            assert(list[k] == front[k]);
            let j = choose|j: int| 0 <= j < before.len() && before[j] == l;
            assert(all[j] == l);
        }
        if all.contains(l) {
            let j = choose|j: int| 0 <= j < all.len() && all[j] == l;
            if j < before.len() {
                assert(before[j] == l);
            } else {
                assert(list[list.len() - 1].anchor == AnchorState::Fresh);
            }
        }
        if exists|k: int|
            0 <= k < list.len() && (#[trigger] list[k]).anchor == AnchorState::Fresh && s.line_of(
                list[k],
            ) == l {
            let k = choose|k: int|
                0 <= k < list.len() && (#[trigger] list[k]).anchor == AnchorState::Fresh
                    && s.line_of(list[k]) == l;
            if k < front.len() {
                assert(front[k] == list[k]);
            } else {
                assert(all[before.len() as int] == l);
            }
        }
    }
}

/// From mark to mark: forward to the nearest mark that holds below the current line, or if there
/// is none to the topmost; back to the nearest above it, or if there is none to the lowest.
pub proof fn law_nearest_mark_is_gone_to(s: Session, forward: bool, l: usize)
    requires
        has_fresh_mark(s, l),
    ensures
        ({
            let from = if s.cursor_line is Some {
                s.cursor_line->0
            } else {
                s.top_line
            };
            let t = s.at_next_mark(forward);
            let to = t.cursor_line->0;
            &&& t.cursor_line is Some && t.focused_mark == t.cursor_line
            &&& has_fresh_mark(s, to)
            &&& forward && l > from ==> from < to <= l
            &&& forward && to <= from ==> to <= l <= from
            &&& !forward && l < from ==> l <= to < from
            &&& !forward && to >= from ==> from <= l <= to
        }),
{
    let from = match s.cursor_line {
        Some(l) => l,
        None => s.top_line,
    };
    let lines = s.fresh_lines(s.marks);
    lemma_fresh_lines(s, s.marks, l);
    let j = choose|j: int| 0 <= j < lines.len() && lines[j] == l;
    assert(lines[j] > -1 && lines[j] < usize::MAX + 1);
    app_laws::law_least_above(lines, from as int);
    app_laws::law_least_above(lines, -1);
    app_laws::law_greatest_below(lines, from as int);
    app_laws::law_greatest_below(lines, usize::MAX + 1);
    let to = app_marks::next_line(lines, from, forward)->0;
    assert(app_marks::next_line(lines, from, forward) is Some);
    lemma_fresh_lines(s, s.marks, to);
    assert(s.at_next_mark(forward) == s.at_file_line(to));
    let t = s.at_file_line(to);
    assert(t.cursor_line == Some(to) && t.focused_mark == Some(to));
}

proof fn lemma_mark_with(list: Seq<MarkNow>, offset: u64, i: int)
    requires
        0 <= i <= list.len(),
    ensures
        match app_marks::mark_with(list, offset, i) {
            Some(k) => {
                &&& i <= k < list.len()
                &&& list[k].bm.offset == offset
                &&& forall|j: int| i <= j < k ==> (#[trigger] list[j]).bm.offset != offset
            },
            None => forall|j: int| i <= j < list.len() ==> (#[trigger] list[j]).bm.offset != offset,
        },
    decreases list.len() - i,
{
    if i < list.len() && list[i].bm.offset != offset {
        lemma_mark_with(list, offset, i + 1);
    }
}

/// Editing a note begins with the note that the mark has, and ends with what was typed as its
/// note. No other mark changes, nor anything else of this one.
pub proof fn law_note_is_edited(s: Session, typed: Seq<char>, k: int)
    requires
        mark_list_laws::in_order(s.marks),
        0 <= k < s.marks.len(),
    ensures
        ({
            let offset = s.marks[k].bm.offset;
            let t = s.editing(offset);
            let u = (Session { note_buf: typed, ..t }).with_note();
            &&& t.editing_note == Some(offset) && t.note_buf == s.marks[k].bm.note && t.marks
                == s.marks
            &&& u.editing_note is None && u.note_buf.len() == 0 && u.marks_dirty
            &&& u.marks.len() == s.marks.len()
            &&& u.marks[k] == (MarkNow {
                bm: Entry { note: typed, ..s.marks[k].bm },
                anchor: s.marks[k].anchor,
            })
            &&& forall|j: int|
                0 <= j < s.marks.len() && j != k ==> #[trigger] u.marks[j] == s.marks[j]
        }),
{
    let offset = s.marks[k].bm.offset;
    lemma_mark_with(s.marks, offset, 0);
    let i = app_marks::mark_with(s.marks, offset, 0)->0;
    assert(s.marks[k].bm.offset == offset);
    if i < k {
        assert(s.marks[i].bm.offset < s.marks[k].bm.offset);
    }
}

/// A note that is left as it was leaves the marks as they were.
pub proof fn law_note_left_alone(s: Session, offset: u64)
    ensures
        s.editing(offset).with_note().marks == s.marks,
{
    lemma_mark_with(s.marks, offset, 0);
    if app_marks::mark_with(s.marks, offset, 0) is Some {
        let k = app_marks::mark_with(s.marks, offset, 0)->0;
        assert(s.marks.update(
            k,
            MarkNow {
                bm: Entry { note: s.marks[k].bm.note, ..s.marks[k].bm },
                anchor: s.marks[k].anchor,
            },
        ) =~= s.marks);
    }
}

/// To delete a mark takes out the one at its offset, and no other. To drop the stale ones takes
/// out those that do not hold, and no other.
pub proof fn law_marks_are_taken_out(s: Session, offset: u64)
    ensures
        s.without_mark(offset).marks == s.marks.filter(|m: MarkNow| m.bm.offset != offset),
        s.without_mark(offset).marks_dirty,
        s.without_stale().marks == s.marks.filter(|m: MarkNow| m.anchor == AnchorState::Fresh),
        s.without_stale().marks.len() < s.marks.len() ==> s.without_stale().marks_dirty,
{
    mark_list_laws::law_others_are_left(s.marks, offset);
    mark_list_laws::law_fresh_marks_are_kept(s.marks);
}

/// A line without a mark gets one among the others, with its offset, its number, its text and
/// the time, and no other mark changes.
pub proof fn law_line_is_marked(
    s: Session,
    line: usize,
    offset: usize,
    line_text: Seq<char>,
    now: u64,
)
    requires
        mark_list_laws::in_order(s.marks),
        !mark_list_laws::has_mark(s.marks, offset as u64),
        forall|k: int| 0 <= k < s.marks.len() ==> (#[trigger] s.marks[k]).bm.offset <= usize::MAX,
    ensures
        ({
            let t = s.with_line_toggled(line, offset, line_text, now);
            &&& t.cursor_line == Some(line) && t.focused_mark == Some(line) && t.marks_dirty
            &&& mark_list_laws::in_order(t.marks)
            &&& exists|k: int|
                0 <= k <= s.marks.len() && t.marks == #[trigger] s.marks.insert(
                    k,
                    MarkNow {
                        bm: Entry::made(offset, line, line_text, now),
                        anchor: AnchorState::Fresh,
                    },
                )
        }),
{
    app_laws::lemma_mark_at(s.marks, offset, 0);
    let m = MarkNow {
        bm: Entry::made(offset, line, line_text, now),
        anchor: AnchorState::Fresh,
    };
    if app_marks::mark_at(s.marks, offset, 0) is Some {
        let k = app_marks::mark_at(s.marks, offset, 0)->0;
        assert(s.marks[k].bm.offset == offset);
    }
    mark_list_laws::law_mark_is_put_at_its_place(s.marks, m);
}

/// A line with a mark loses it, and no other mark changes.
pub proof fn law_line_is_unmarked(s: Session, line: usize, line_text: Seq<char>, now: u64, k: int)
    requires
        mark_list_laws::in_order(s.marks),
        0 <= k < s.marks.len(),
        forall|j: int| 0 <= j < s.marks.len() ==> (#[trigger] s.marks[j]).bm.offset <= usize::MAX,
    ensures
        ({
            let t = s.with_line_toggled(line, s.marks[k].bm.offset as usize, line_text, now);
            &&& t.marks == s.marks.remove(k)
            &&& t.marks_dirty
            &&& s.focused_mark == Some(line) ==> t.focused_mark is None
            &&& s.focused_mark != Some(line) ==> t.focused_mark == s.focused_mark
        }),
{
    let offset = s.marks[k].bm.offset as usize;
    app_laws::lemma_mark_at(s.marks, offset, 0);
    assert(s.marks[k].bm.offset as usize == offset);
    let i = app_marks::mark_at(s.marks, offset, 0)->0;
    assert(s.marks[i].bm.offset == s.marks[k].bm.offset);
    if i < k {
        assert(s.marks[i].bm.offset < s.marks[k].bm.offset);
    }
}

/// What is asked for in the list of marks is done to the mark it was asked for.
pub proof fn law_list_does_what_it_is_asked(s: Session, offset: u64, data: Seq<u8>)
    ensures
        s.after_act(MarkAct::Delete(offset), data).marks == s.marks.filter(
            |m: MarkNow| m.bm.offset != offset,
        ),
        s.after_act(MarkAct::DropStale, data).marks == s.marks.filter(
            |m: MarkNow| m.anchor == AnchorState::Fresh,
        ),
        s.after_act(MarkAct::StartNote(offset), data).editing_note == Some(offset),
        s.after_act(MarkAct::StartNote(offset), data).marks == s.marks,
        s.after_act(MarkAct::CommitNote, data).editing_note is None,
        !s.after_act(MarkAct::Hide, data).show_marks,
        s.after_act(MarkAct::Hide, data).marks == s.marks,
        s.after_act(MarkAct::Export, data) == s,
        s.store is Some && (s.store->0).line_index_at(offset as usize) is Some ==> s.after_act(
            MarkAct::Goto(offset),
            data,
        ).cursor_line == (s.store->0).line_index_at(offset as usize),
        s.after_act(MarkAct::Goto(offset), data).marks == s.marks,
{
    law_marks_are_taken_out(s, offset);
    if s.store is Some && (s.store->0).line_index_at(offset as usize) is Some {
        let line = (s.store->0).line_index_at(offset as usize)->0;
        assert(s.at_file_line(line).cursor_line == Some(line));
        assert(s.at_file_line(line).marks == s.marks);
    }
}

/// A mark is listed with what it holds, with the line that its offset falls in if that is known,
/// and with the time since it was made.
pub proof fn law_marks_are_listed(store: Option<Store>, m: MarkNow, now: u64)
    ensures
        ({
            let l = app_view::listed(store, m, now);
            &&& l.offset == m.bm.offset && l.head == m.bm.head && l.note == m.bm.note && l.state
                == m.anchor
            &&& store is None ==> l.line is None
            &&& store is Some ==> l.line == (store->0).line_index_at(m.bm.offset as usize)
            &&& l.time == bookmarks::time_in_words(m.bm.at, now)
        }),
{
}

/// A file that is shown brings its own marks. What was marked, edited or gone to in another file
/// is no longer there; what was searched for is searched for in the new one.
pub proof fn law_another_file_is_shown(
    s: Session,
    p: Platform,
    store: Store,
    content: Seq<char>,
    data: Seq<u8>,
)
    ensures
        ({
            let t = s.showing(p, store, content, data);
            let list = bookmarks::sidecar_marks(content);
            &&& t.store is Some
            &&& s.query.len() == 0 ==> t.store == Some(store)
            &&& s.query.len() > 0 ==> t.store == Some(
                store.with_request(
                    search::Request {
                        query: s.query,
                        case_sensitive: s.case_sensitive,
                        use_regex: s.use_regex,
                    },
                ),
            )
            &&& t.error is None && t.match_cursor == 0
            &&& t.cursor_line is None && t.focused_mark is None && t.editing_note is None
                && t.marks_warning is None && !t.marks_dirty
            &&& t.marks.len() == list.len()
            &&& forall|i: int| 0 <= i < list.len() ==> (#[trigger] t.marks[i]).bm == list[i]
            &&& t.show_marks <==> list.len() > 0
            &&& t.marks_path == Some(bookmarks::sidecar_of(p, (t.store->0).path))
            &&& t.query == s.query && t.only_matched == s.only_matched && t.follow == s.follow
        }),
{
}

/// The status counts the lines of the file, says how long it is and in which encoding, and what
/// is going on; then it says what was found, what is marked, what is to be said for a moment and
/// what went wrong, as far as there is something to say.
pub proof fn law_status(s: Session, notice: Option<Seq<char>>)
    ensures
        s.store is None ==> app_view::status_of(s, notice) == seq![("就绪"@, Tone::Plain)],
        s.store is Some ==> {
            let all = app_view::status_of(s, notice);
            let store = s.store->0;
            &&& all.len() >= 4
            &&& all[0].0 == text::decimal(store.line_count()) + " 行"@
            &&& all[1].0 == crate::labels::size_text(store.real_len as nat)
            &&& store.encoding is Utf8 ==> all[2].0 == "UTF-8"@
            &&& store.encoding is Gb18030 ==> all[2].0 == "GB18030"@
            &&& !store.indexing && !store.searching ==> all[3].0 == "就绪"@
            &&& !store.indexing && store.searching ==> all[3].0 == "搜索中…"@
            &&& store.indexing && store.pending is None ==> all[3].0 == "索引中…"@
            &&& store.indexing && store.pending is Some ==> all[3].0 == "索引中（完成后自动检索）…"@
            &&& s.error is Some ==> all.last() == (s.error->0, Tone::Error)
            &&& notice is Some && s.error is None ==> all.last() == (notice->0, Tone::Plain)
        },
{
}

/// What is said of a search: that its pattern is wrong, or how many lines were found, or which
/// can be gone to if not all can.
pub proof fn law_search_status(s: Store, query: Seq<char>)
    ensures
        ({
            let t = app_view::search_status(s, query);
            &&& s.regex_error is Some ==> t == Some(("正则无效："@ + s.regex_error->0, Tone::Error))
            &&& s.regex_error is None && query.len() == 0 ==> t is None
            &&& s.regex_error is None && query.len() > 0 && !s.truncated ==> t == Some(
                (text::decimal(s.matches.len()) + " 匹配"@, Tone::Plain),
            )
            &&& s.regex_error is None && query.len() > 0 && s.truncated ==> t is Some && (t->0).1
                == Tone::Warn
            &&& s.regex_error is None && query.len() > 0 && s.truncated && s.matches.len() > 0
                ==> (t->0).0 == crate::labels::truncated_text(
                s.matches.len(),
                (s.matches[s.matches.len() - 1] + 1) as nat,
                s.total as nat,
            )
        }),
{
}

/// What is said of the marks: how many there are, and how many of them do not hold if any.
pub proof fn law_marks_status(list: Seq<MarkNow>)
    ensures
        ({
            let t = app_view::marks_status(list);
            let stale = list.filter(|m: MarkNow| m.anchor != AnchorState::Fresh).len();
            &&& list.len() == 0 ==> t is None
            &&& list.len() > 0 && stale == 0 ==> t == Some(
                ("标记 "@ + text::decimal(list.len()), Tone::Plain),
            )
            &&& list.len() > 0 && stale > 0 ==> t == Some(
                (
                    "标记 "@ + text::decimal(list.len()) + "（"@ + text::decimal(stale)
                        + " 条失效）"@,
                    Tone::Plain,
                ),
            )
        }),
{
    mark_list_laws::law_stale_marks_are_counted(list);
}

/// Looking for the marks that do not hold leaves those that do, and the marks stay in order.
pub proof fn law_marks_are_looked_for(s: Session, only: Option<u64>, data: Seq<u8>)
    ensures
        s.store is None ==> s.with_marks_refound(only, data) == s,
        s.store is Some ==> {
            let t = s.with_marks_refound(only, data);
            &&& mark_list_laws::in_order(t.marks)
            &&& t.marks_dirty && t.focused_mark is None && t.store == s.store
            &&& forall|i: int|
                0 <= i < s.marks.len() ==> mark_list_laws::has_mark(
                    t.marks,
                    (#[trigger] crate::marks::refound(s.store->0, data, only, s.marks[i])).bm.offset,
                )
        },
{
    if s.store is Some {
        let now = crate::marks::all_refound(s.store->0, data, only, s.marks);
        let t = s.with_marks_refound(only, data);
        assert forall|i: int| 0 <= i < s.marks.len() implies mark_list_laws::has_mark(
            t.marks,
            (#[trigger] crate::marks::refound(s.store->0, data, only, s.marks[i])).bm.offset,
        ) by {
            let o = crate::marks::refound(s.store->0, data, only, s.marks[i]).bm.offset;
            assert(now[i].bm.offset == o);
            assert(mark_list_laws::has_mark(now, o));
            mark_list_laws::lemma_gathered_offsets(now, o);
        }
        mark_list_laws::lemma_gathered_offsets(now, 0);
    }
}

/// Before anything was done there is no file, nothing is searched for and nothing is marked.
pub proof fn law_nothing_was_done_yet()
    ensures
        ({
            let s = Session::initial();
            &&& s.store is None && s.query.len() == 0 && s.marks.len() == 0
            &&& !s.case_sensitive && !s.use_regex && !s.only_matched && !s.follow && !s.wrap
            &&& s.dark is None && s.error is None && s.flash is None
            &&& s.row_count() == 0 && s.wf()
        }),
{
}

/// Marks are exported under the name of the log.
pub proof fn law_name_of_the_log(s: Session, p: Platform)
    ensures
        s.store is None ==> s.log_name(p) == "logview"@,
        s.store is Some && crate::paths::name_of(p, (s.store->0).path) is Some ==> s.log_name(p)
            == crate::paths::name_of(p, (s.store->0).path)->0,
        s.store is Some && crate::paths::name_of(p, (s.store->0).path) is None ==> s.log_name(p)
            == "logview"@,
{
}

/// What is said for a moment counts lines from one, and counts the marks as they are then.
pub proof fn law_what_is_said_of_marks(
    s: Session,
    line: usize,
    offset: usize,
    line_text: Seq<char>,
    now: u64,
    data: Seq<u8>,
)
    ensures
        ({
            let t = s.with_line_toggled(line, offset, line_text, now);
            let n = text::decimal((line + 1) as nat);
            &&& t.flash == Some("已取消第 "@ + n + " 行的标记"@) || t.flash == Some(
                "已标记第 "@ + n + " 行（共 "@ + text::decimal(t.marks.len()) + " 条）"@,
            )
            &&& t.marks.len() > s.marks.len() ==> t.flash == Some(
                "已标记第 "@ + n + " 行（共 "@ + text::decimal(t.marks.len()) + " 条）"@,
            )
        }),
        ({
            let t = s.without_stale();
            t.marks.len() < s.marks.len() ==> t.flash == Some(
                "清掉 "@ + text::decimal((s.marks.len() - t.marks.len()) as nat) + " 条失效标记"@,
            )
        }),
        s.store is Some ==> s.with_marks_refound(None, data).flash == Some(
            "回找完成：重定位 "@ + text::decimal(
                crate::marks::found_count(s.store->0, data, None, s.marks),
            ) + " 条，未找到 "@ + text::decimal(
                crate::marks::missed_count(s.store->0, data, None, s.marks),
            ) + " 条"@,
        ),
        s.without_mark(offset as u64).flash == Some("已删除该标记"@),
        s.marks.len() == 0 ==> s.at_next_mark(true).flash == Some("还没有标记"@),
        s.marks.len() == 0 ==> s.at_next_mark(false).flash == Some("还没有标记"@),
{
    app_laws::lemma_mark_at(s.marks, offset, 0);
    let k = app_marks::mark_at(s.marks, offset, 0);
    if k is Some {
        assert(s.marks.remove(k->0).len() == s.marks.len() - 1);
    }
    if s.marks.len() == 0 {
        assert(s.fresh_lines(s.marks).len() == 0);
        let from = match s.cursor_line {
            Some(l) => l,
            None => s.top_line,
        };
        assert(app_marks::next_line(s.fresh_lines(s.marks), from, true) is None);
        assert(app_marks::next_line(s.fresh_lines(s.marks), from, false) is None);
    }
}

/// A row that is gone to is waited for by the view, which no longer follows the end of the file.
/// The current line and the current hit stay.
pub proof fn law_row_is_gone_to(s: Session, row: usize)
    ensures
        ({
            let t = s.at_row(row);
            &&& t.pending_jump == Some(row) && !t.follow && t.focused_mark is None
            &&& t.cursor_line == s.cursor_line && t.match_cursor == s.match_cursor && t.marks
                == s.marks && t.only_matched == s.only_matched
        }),
{
}

/// A mark that is deleted is no longer in focus, and one that is not deleted stays in focus.
pub proof fn law_deleted_mark_loses_the_focus(s: Session, k: int)
    requires
        mark_list_laws::in_order(s.marks),
        0 <= k < s.marks.len(),
    ensures
        ({
            let line = s.line_of(s.marks[k]);
            let t = s.without_mark(s.marks[k].bm.offset);
            &&& s.focused_mark == Some(line) ==> t.focused_mark is None
            &&& s.focused_mark != Some(line) ==> t.focused_mark == s.focused_mark
        }),
{
    let offset = s.marks[k].bm.offset;
    lemma_mark_with(s.marks, offset, 0);
    assert(s.marks[k].bm.offset == offset);
    let i = app_marks::mark_with(s.marks, offset, 0)->0;
    if i < k {
        assert(s.marks[i].bm.offset < s.marks[k].bm.offset);
    }
}

/// Without a file there are no marks and no place to keep them.
pub proof fn law_no_marks_without_a_file(
    s: Session,
    p: Platform,
    content: Seq<char>,
    data: Seq<u8>,
)
    requires
        s.store is None,
    ensures
        s.with_marks_of(p, content, data).marks.len() == 0,
        s.with_marks_of(p, content, data).marks_path is None,
        s.with_marks_of(p, content, data).show_marks == s.show_marks,
        s.toggled(data, 0) == s,
{
}

/// What is said when marks are read: how many there are, and how many of them do not hold.
pub proof fn law_what_is_said_of_marks_read(
    s: Session,
    p: Platform,
    content: Seq<char>,
    data: Seq<u8>,
)
    requires
        s.store is Some,
    ensures
        ({
            let t = s.with_marks_of(p, content, data);
            let stale = t.marks.filter(|m: MarkNow| m.anchor != AnchorState::Fresh).len();
            let n = text::decimal(t.marks.len());
            &&& t.marks.len() == 0 ==> t.flash == s.flash
            &&& t.marks.len() > 0 && stale == 0 ==> t.flash == Some("读回 "@ + n + " 条标记"@)
            &&& t.marks.len() > 0 && stale > 0 ==> t.flash == Some(
                "读回 "@ + n + " 条标记，其中 "@ + text::decimal(stale) + " 条已失效"@,
            )
        }),
{
    mark_list_laws::law_stale_marks_are_counted(s.with_marks_of(p, content, data).marks);
}

} // verus!
