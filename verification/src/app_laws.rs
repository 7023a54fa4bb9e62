//! What holds of the viewer whatever is done with it.

use crate::app;
use crate::app::{OnSearchDone, Session};
use crate::app_keys::Keys;
use crate::app_marks;
use crate::bookmarks;
use crate::bookmarks::Entry;
use crate::logstore::Store;
use crate::mark_laws;
use crate::marks;
use crate::marks::{AnchorState, MarkNow};
use crate::outside;
use crate::search;
use crate::startup::Platform;
use crate::store_laws;
use vstd::prelude::*;

verus! {

/// While something is typed into the search box, plain keys do nothing.
pub proof fn law_typing_in_the_search_box(s: Session, keys: Keys, data: Seq<u8>, now: u64)
    requires
        s.search_has_focus,
        !keys.escape,
        !keys.find,
        !keys.panel,
    ensures
        s.after_keys(keys, data, now) == s,
{
}

/// While a note is edited, no key does anything but the one that ends the editing, and that
/// one changes nothing else.
pub proof fn law_typing_a_note(s: Session, keys: Keys, data: Seq<u8>, now: u64)
    requires
        s.editing_note is Some,
    ensures
        !keys.escape ==> s.after_keys(keys, data, now) == s,
        keys.escape ==> s.after_keys(keys, data, now) == (Session {
            editing_note: None,
            note_buf: Seq::empty(),
            ..s
        }),
{
}

/// The hit that is gone to is one of those that were found, and the row that is gone to holds
/// its line. At the last hit there is no further one to go to, nor one before the first.
pub proof fn law_hits_are_gone_to(s: Session, delta: int)
    requires
        s.matches().len() > 0,
        s.matches().len() <= usize::MAX,
    ensures
        ({
            let t = s.at_match(delta);
            &&& t.match_cursor < s.matches().len()
            &&& t.cursor_line == Some(s.matches()[t.match_cursor as int] as usize)
            &&& t.pending_jump is Some
            &&& t.line_in_row(t.pending_jump->0 as int) == t.cursor_line
            &&& !t.follow
            &&& s.match_cursor >= s.matches().len() - 1 && delta >= 0 ==> t.match_cursor
                == s.matches().len() - 1
            &&& s.match_cursor == 0 && delta <= 0 ==> t.match_cursor == 0
        }),
{
}

/// A step from one hit to another leads exactly as far as it says, if there is a hit that far;
/// else it leads to the end that lies in its way. Nothing else changes but where one stands.
pub proof fn law_step_leads_as_far_as_it_says(s: Session, delta: int)
    requires
        s.matches().len() > 0,
        s.matches().len() <= usize::MAX,
    ensures
        ({
            let n = s.matches().len();
            let c = s.match_cursor as int;
            let t = s.at_match(delta);
            &&& 0 <= c + delta < n ==> t.match_cursor == c + delta
            &&& c + delta >= n ==> t.match_cursor == n - 1
            &&& c + delta < 0 ==> t.match_cursor == 0
            &&& t.cursor_line == Some(s.matches()[t.match_cursor as int] as usize)
            &&& t.pending_jump == (if s.only_matched {
                Some(t.match_cursor)
            } else {
                t.cursor_line
            })
            &&& t.matches() == s.matches() && t.store == s.store && t.marks == s.marks && t.query
                == s.query && t.only_matched == s.only_matched
        }),
{
}

/// One step on and one step back lead to the hit where they began, and so does any number of
/// them, if there are hits that far.
pub proof fn law_steps_lead_back(s: Session, delta: int)
    requires
        s.matches().len() <= usize::MAX,
        0 <= s.match_cursor < s.matches().len(),
        0 <= s.match_cursor + delta < s.matches().len(),
    ensures
        s.at_match(delta).at_match(-delta).match_cursor == s.match_cursor,
        s.at_match(delta).at_match(-delta).cursor_line == Some(
            s.matches()[s.match_cursor as int] as usize,
        ),
{
    law_step_leads_as_far_as_it_says(s, delta);
    law_step_leads_as_far_as_it_says(s.at_match(delta), -delta);
}

/// Two steps one after the other lead as far as one of both lengths.
pub proof fn law_steps_add_up(s: Session, a: int, b: int)
    requires
        s.matches().len() <= usize::MAX,
        0 <= s.match_cursor + a < s.matches().len(),
        0 <= s.match_cursor + a + b < s.matches().len(),
    ensures
        s.at_match(a).at_match(b).match_cursor == s.match_cursor + a + b,
{
    law_step_leads_as_far_as_it_says(s, a);
    law_step_leads_as_far_as_it_says(s.at_match(a), b);
}

proof fn lemma_first_at_least(m: Seq<u32>, bound: u32, i: int)
    requires
        0 <= i <= m.len(),
    ensures
        i <= app::first_at_least(m, bound, i) <= m.len(),
        forall|j: int| i <= j < app::first_at_least(m, bound, i) ==> #[trigger] m[j] < bound,
        app::first_at_least(m, bound, i) < m.len() ==> m[app::first_at_least(m, bound, i)]
            >= bound,
    decreases m.len() - i,
{
    if i < m.len() && m[i] < bound {
        lemma_first_at_least(m, bound, i + 1);
    }
}

/// A word that is looked up while reading does not move the view: nothing is gone to when the
/// search has ended, and the current hit is the first that does not lie above the view, or the
/// last if all do.
pub proof fn law_word_search_keeps_the_view(s: Session)
    requires
        s.pending_after_search == Some(OnSearchDone::StayAtView),
        s.matches().len() <= usize::MAX,
    ensures
        ({
            let t = s.after_search();
            &&& t.pending_jump == s.pending_jump
            &&& t.top_line == s.top_line
            &&& t.cursor_line == s.cursor_line
            &&& t.follow == s.follow
            &&& (s.store matches Some(store) && !store.searching && s.matches().len() > 0) ==> {
                let top = s.top_line as u32;
                let c = t.match_cursor as int;
                &&& c < s.matches().len()
                &&& forall|j: int| 0 <= j < c ==> #[trigger] s.matches()[j] < top
                &&& s.matches()[c] >= top || c == s.matches().len() - 1
            }
        }),
{
    lemma_first_at_least(s.matches(), s.top_line as u32, 0);
}

/// What is typed into the search box is gone to: when the search has ended, the view goes to
/// the row that holds the first hit.
pub proof fn law_typed_search_goes_to_the_first_hit(s: Session)
    requires
        s.store matches Some(store) && !store.searching,
        s.pending_after_search == Some(OnSearchDone::GotoFirstMatch),
        s.match_cursor == 0,
        s.matches().len() > 0,
    ensures
        ({
            let t = s.after_search();
            &&& t.match_cursor == 0
            &&& t.cursor_line == Some(s.matches()[0] as usize)
            &&& t.pending_jump is Some
            &&& t.line_in_row(t.pending_jump->0 as int) == t.cursor_line
            &&& t.pending_after_search is None
        }),
{
}

proof fn lemma_place_of(m: Seq<u32>, v: u32, i: int)
    requires
        0 <= i <= m.len(),
    ensures
        i <= app::place_of(m, v, i) <= m.len(),
        app::place_of(m, v, i) < m.len() ==> m[app::place_of(m, v, i)] == v,
        app::place_of(m, v, i) == m.len() ==> forall|j: int| i <= j < m.len() ==> #[trigger] m[j]
            != v,
    decreases m.len() - i,
{
    if i < m.len() && m[i] != v {
        lemma_place_of(m, v, i + 1);
    }
}

/// The row that is gone to for a line is the row that holds the line, whether all lines are
/// shown or only those that match. The filter is turned off only for a line that it hides.
pub proof fn law_marks_are_found_in_the_list(s: Session, line: usize)
    requires
        line <= u32::MAX,
        s.matches().len() <= usize::MAX,
    ensures
        ({
            let t = s.at_file_line(line);
            &&& t.pending_jump is Some
            &&& t.line_in_row(t.pending_jump->0 as int) == Some(line)
            &&& t.cursor_line == Some(line)
            &&& t.focused_mark == Some(line)
            &&& !t.follow
            &&& s.only_matched ==> (t.only_matched <==> s.matches().contains(line as u32))
            &&& !s.only_matched ==> !t.only_matched
        }),
{
    let m = s.matches();
    lemma_place_of(m, line as u32, 0);
    let i = app::place_of(m, line as u32, 0);
    if i < m.len() {
        assert(m.contains(line as u32));
    } else if m.contains(line as u32) {
        let j = choose|j: int| 0 <= j < m.len() && m[j] == line as u32;
        assert(m[j] != line as u32);
    }
}

/// [`app_marks::least_above`] is one of the numbers, lies above, and none of those above is
/// smaller.
pub proof fn law_least_above(lines: Seq<usize>, from: int)
    ensures
        match app_marks::least_above(lines, from) {
            Some(l) => {
                &&& lines.contains(l)
                &&& l > from
                &&& forall|j: int| 0 <= j < lines.len() && #[trigger] lines[j] > from ==> l
                    <= lines[j]
            },
            None => forall|j: int| 0 <= j < lines.len() ==> #[trigger] lines[j] <= from,
        },
    decreases lines.len(),
{
    if lines.len() > 0 {
        let front = lines.drop_last();
        law_least_above(front, from);
        if let Some(l) = app_marks::least_above(front, from) {
            let j = choose|j: int| 0 <= j < front.len() && front[j] == l;
            assert(lines[j] == l);
        }
        assert(lines[lines.len() - 1] == lines.last());
        assert forall|j: int| 0 <= j < lines.len() - 1 implies lines[j] == front[j] by {}
    }
}

/// [`app_marks::greatest_below`] is one of the numbers, lies below, and none of those below is
/// greater.
pub proof fn law_greatest_below(lines: Seq<usize>, bound: int)
    ensures
        match app_marks::greatest_below(lines, bound) {
            Some(l) => {
                &&& lines.contains(l)
                &&& l < bound
                &&& forall|j: int| 0 <= j < lines.len() && #[trigger] lines[j] < bound ==> l
                    >= lines[j]
            },
            None => forall|j: int| 0 <= j < lines.len() ==> #[trigger] lines[j] >= bound,
        },
    decreases lines.len(),
{
    if lines.len() > 0 {
        let front = lines.drop_last();
        law_greatest_below(front, bound);
        if let Some(l) = app_marks::greatest_below(front, bound) {
            let j = choose|j: int| 0 <= j < front.len() && front[j] == l;
            assert(lines[j] == l);
        }
        assert(lines[lines.len() - 1] == lines.last());
        assert forall|j: int| 0 <= j < lines.len() - 1 implies lines[j] == front[j] by {}
    }
}

proof fn lemma_fresh_line(s: Session, list: Seq<MarkNow>, i: int)
    requires
        0 <= i < s.fresh_lines(list).len(),
    ensures
        exists|k: int|
            0 <= k < list.len() && (#[trigger] list[k]).anchor is Fresh && s.line_of(list[k])
                == s.fresh_lines(list)[i],
    decreases list.len(),
{
    let front = list.drop_last();
    let before = s.fresh_lines(front);
    if i < before.len() {
        lemma_fresh_line(s, front, i);
        let k = choose|k: int|
            0 <= k < front.len() && (#[trigger] front[k]).anchor is Fresh && s.line_of(front[k])
                == before[i];
        assert(list[k] == front[k]);
    } else {
        assert(list[list.len() - 1].anchor is Fresh);
    }
}

/// From every line there is a next one and one before, if there are lines at all, and it is
/// one of them.
pub proof fn law_next_line_is_a_line(lines: Seq<usize>, from: usize, forward: bool)
    ensures
        lines.len() == 0 ==> app_marks::next_line(lines, from, forward) is None,
        lines.len() > 0 ==> (app_marks::next_line(lines, from, forward) matches Some(l)
            && lines.contains(l)),
{
    if forward {
        law_least_above(lines, from as int);
        law_least_above(lines, -1);
    } else {
        law_greatest_below(lines, from as int);
        law_greatest_below(lines, usize::MAX + 1);
    }
    if lines.len() > 0 {
        assert(lines[0] > -1);
        assert(lines[0] < usize::MAX + 1);
    }
}

/// Going from mark to mark never ends at a mark that does not hold: either nothing is gone to,
/// or the line of a mark that holds is. If one holds, one is gone to.
pub proof fn law_stale_marks_are_not_gone_to(s: Session, forward: bool)
    ensures
        ({
            let t = s.at_next_mark(forward);
            if s.fresh_lines(s.marks).len() == 0 {
                &&& t.pending_jump == s.pending_jump
                &&& t.cursor_line == s.cursor_line
                &&& t.focused_mark == s.focused_mark
            } else {
                &&& t.cursor_line is Some
                &&& exists|k: int|
                    0 <= k < s.marks.len() && (#[trigger] s.marks[k]).anchor is Fresh && s.line_of(
                        s.marks[k],
                    ) == t.cursor_line->0
            }
        }),
{
    let lines = s.fresh_lines(s.marks);
    let from = match s.cursor_line {
        Some(l) => l,
        None => s.top_line,
    };
    law_next_line_is_a_line(lines, from, forward);
    if lines.len() > 0 {
        let l = app_marks::next_line(lines, from, forward)->0;
        let i = choose|i: int| 0 <= i < lines.len() && lines[i] == l;
        lemma_fresh_line(s, s.marks, i);
        assert(s.at_next_mark(forward) == s.at_file_line(l));
        assert(s.at_file_line(l).cursor_line == Some(l));
    }
}

/// What [`app_marks::mark_at`] promises.
pub proof fn lemma_mark_at(list: Seq<MarkNow>, offset: usize, i: int)
    requires
        0 <= i <= list.len(),
    ensures
        match app_marks::mark_at(list, offset, i) {
            Some(k) => {
                &&& i <= k < list.len()
                &&& list[k].bm.offset as usize == offset
                &&& forall|j: int| i <= j < k ==> (#[trigger] list[j]).bm.offset as usize != offset
            },
            None => forall|j: int|
                i <= j < list.len() ==> (#[trigger] list[j]).bm.offset as usize != offset,
        },
    decreases list.len() - i,
{
    if i < list.len() && list[i].bm.offset as usize != offset {
        lemma_mark_at(list, offset, i + 1);
    }
}

proof fn lemma_mark_at_is(list: Seq<MarkNow>, offset: usize, i: int, k: int)
    requires
        0 <= i <= k < list.len(),
        list[k].bm.offset as usize == offset,
        forall|j: int| i <= j < k ==> (#[trigger] list[j]).bm.offset as usize != offset,
    ensures
        app_marks::mark_at(list, offset, i) == Some(k),
    decreases k - i,
{
    if i < k {
        assert(list[i].bm.offset as usize != offset);
        lemma_mark_at_is(list, offset, i + 1, k);
    }
}

/// The key that marks a line takes its mark away again. The first time, the line gets one mark,
/// at its place among the others, and is the one in focus; the second time, the marks are as
/// they were, and none is in focus.
pub proof fn law_marking_twice_gives_the_marks_back(
    s: Session,
    data: Seq<u8>,
    line: usize,
    now: u64,
    later: u64,
)
    requires
        s.wf(),
        s.mark_target() == Some(line),
        s.store->0.line_offset(line as int) is Some,
        s.store->0.line_text(data, line as int) is Some,
        !s.is_marked(line),
    ensures
        ({
            let offset = s.store->0.line_offset(line as int)->0;
            let line_text = s.store->0.line_text(data, line as int)->0;
            let one = s.toggled(data, now);
            let k = bookmarks::slot(marks::offsets_now(s.marks), offset as u64);
            let m = MarkNow {
                bm: Entry {
                    offset: offset as u64,
                    line: line as u32,
                    head: bookmarks::head(line_text),
                    note: Seq::empty(),
                    at: now,
                },
                anchor: AnchorState::Fresh,
            };
            &&& 0 <= k <= s.marks.len()
            &&& one.marks == s.marks.insert(k, m)
            &&& bookmarks::rising(marks::offsets_now(one.marks))
            &&& one.is_marked(line)
            &&& one.focused_mark == Some(line)
            &&& one.marks_dirty
        }),
        ({
            let two = s.toggled(data, now).toggled(data, later);
            &&& two.marks == s.marks
            &&& !two.is_marked(line)
            &&& two.focused_mark is None
            &&& two.marks_dirty
        }),
{
    let store = s.store->0;
    let offset = store.line_offset(line as int)->0;
    let t = store.line_text(data, line as int)->0;
    let m = MarkNow { bm: Entry::made(offset, line, t, now), anchor: AnchorState::Fresh };
    let offs = marks::offsets_now(s.marks);
    lemma_mark_at(s.marks, offset, 0);
    assert((offset as u64) as usize == offset);
    assert(!bookmarks::has_offset(offs, offset as u64)) by {
        if bookmarks::has_offset(offs, offset as u64) {
            let k = bookmarks::slot(offs, offset as u64);
            bookmarks::lemma_slot(offs, offset as u64, 0);
            assert(s.marks[k].bm.offset == offset as u64);
        }
    }
    marks::lemma_placed(s.marks, m);
    let k = bookmarks::slot(offs, offset as u64);
    let one = s.toggled(data, now);
    assert(one.marks == s.marks.insert(k, m));
    assert forall|j: int| 0 <= j < k implies (#[trigger] one.marks[j]).bm.offset as usize
        != offset by {
        assert(one.marks[j] == s.marks[j]);
    }
    lemma_mark_at_is(one.marks, offset, 0, k);
    assert(one.mark_target() == Some(line));
    assert(one.store == s.store);
    let two = one.toggled(data, later);
    assert(two.marks == one.marks.remove(k));
    assert(two.marks =~= s.marks);
}

/// Marks that were written to the sidecar file are read back from it, in the same order, and
/// each is told to hold or not by what the file says now.
pub proof fn law_marks_survive_reopening(s: Session, p: Platform, data: Seq<u8>)
    requires
        s.wf(),
        s.store is Some,
    ensures
        ({
            let content = bookmarks::sidecar_text(marks::entries(s.marks));
            let t = s.with_marks_of(p, content, data);
            &&& marks::entries(t.marks) == marks::entries(s.marks)
            &&& t.marks == marks::checked(s.store, data, marks::entries(s.marks))
            &&& t.show_marks == (s.marks.len() > 0)
        }),
{
    let list = marks::entries(s.marks);
    assert(bookmarks::offsets(list) =~= marks::offsets_now(s.marks));
    mark_laws::law_sidecar_round_trip(list);
    assert(marks::entries(marks::checked(s.store, data, list)) =~= list);
}

/// A mark holds as long as its line stays: one that was made for a line of a file is told to
/// hold while the file is the same.
pub proof fn law_new_mark_holds(store: Store, data: Seq<u8>, line: int, now: u64)
    requires
        store_laws::describes(store, data),
        data.len() <= usize::MAX,
        0 <= line < store.line_starts.len(),
        line <= usize::MAX,
    ensures
        store.line_text(data, line) is Some,
        marks::anchor_now(
            Some(store),
            data,
            Entry::made(
                store.line_starts[line],
                line as usize,
                store.line_text(data, line)->0,
                now,
            ),
        ) is Fresh,
{
    let offset = store.line_starts[line];
    store_laws::law_lines_cover_the_file(store, data, line);
    store_laws::law_line_text_without_index(store, data, line, offset);
    let t = store.line_text(data, line)->0;
    mark_laws::law_mark_holds_as_line_grows(offset, line as usize, t, Seq::empty(), now);
    assert(t + Seq::<char>::empty() =~= t);
    assert((offset as u64) as usize == offset);
}

/// A mark that was looked for and found stands where its head stands in the file.
pub proof fn law_refound_mark_stands_at_its_head(
    store: Store,
    data: Seq<u8>,
    only: Option<u64>,
    m: MarkNow,
)
    requires
        marks::is_sought(m, only),
        marks::head_place(store, data, m) is Some,
        data.len() <= usize::MAX,
    ensures
        ({
            let n = marks::refound(store, data, only, m);
            &&& outside::occurs_at(
                data.take(store.real_len as int),
                crate::encoding::bytes_of(m.bm.head, store.encoding),
                n.bm.offset as int,
            )
            &&& n.bm.head == m.bm.head
            &&& n.bm.note == m.bm.note
            &&& n.bm.at == m.bm.at
        }),
{
    let o = marks::head_place(store, data, m)->0;
    search::lemma_first_occurrence(
        data.take(store.real_len as int),
        crate::encoding::bytes_of(m.bm.head, store.encoding),
        0,
    );
    assert((o as u64) as int == o as int);
}

} // verus!
