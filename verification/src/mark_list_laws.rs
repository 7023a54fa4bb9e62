//! What holds of the marks of a file as a list.

use crate::bookmarks;
use crate::bookmarks::Entry;
use crate::logstore::Store;
use crate::marks;
use crate::marks::{AnchorState, MarkNow};
use crate::text;
use vstd::prelude::*;

verus! {

/// A line begins, behind its white space, with every character of `head`.
pub open spec fn begins_with(line: Seq<char>, head: Seq<char>) -> bool {
    head.len() <= text::trim(line).len() && forall|k: int|
        0 <= k < head.len() ==> text::trim(line)[k] == #[trigger] head[k]
}

/// A mark holds if the file still has a line at its offset and that line begins as it did. It is
/// stale if another line stands there, and lost if there is none.
pub proof fn law_when_a_mark_holds(store: Option<Store>, data: Seq<u8>, e: Entry)
    ensures
        store is None ==> marks::anchor_now(store, data, e) is Lost,
        store is Some ==> {
            let line = store->0.line_text_at(data, e.offset as usize);
            let now = marks::anchor_now(store, data, e);
            &&& now is Lost <==> line is None
            &&& now is Fresh <==> line is Some && (e.head.len() == 0 || begins_with(
                line->0,
                e.head,
            ))
            &&& now is Stale <==> line is Some && e.head.len() > 0 && !begins_with(line->0, e.head)
        },
{
    if store is Some {
        let line = store->0.line_text_at(data, e.offset as usize);
        if line is Some {
            crate::mark_laws::law_mark_holds_by_every_character(e, line->0);
        }
    }
}

/// To check the marks changes none of them: each is told whether it holds, and that is all.
pub proof fn law_checking_keeps_the_marks(store: Option<Store>, data: Seq<u8>, list: Seq<Entry>)
    ensures
        marks::checked(store, data, list).len() == list.len(),
        forall|i: int|
            0 <= i < list.len() ==> (#[trigger] marks::checked(store, data, list)[i]).bm == list[i]
                && marks::checked(store, data, list)[i].anchor == marks::anchor_now(
                store,
                data,
                list[i],
            ),
        marks::entries(marks::checked(store, data, list)) == list,
{
    assert(marks::entries(marks::checked(store, data, list)) =~= list);
}

/// The marks that do not hold are counted, each once.
pub proof fn law_stale_marks_are_counted(list: Seq<MarkNow>)
    ensures
        marks::stale_count(list) == list.filter(|m: MarkNow| m.anchor != AnchorState::Fresh).len(),
    decreases list.len(),
{
    reveal(Seq::filter);
    if list.len() > 0 {
        law_stale_marks_are_counted(list.drop_last());
    }
}

/// Of the marks, those that hold are kept, in their order, and no others.
pub proof fn law_fresh_marks_are_kept(list: Seq<MarkNow>)
    ensures
        marks::fresh_only(list) == list.filter(|m: MarkNow| m.anchor == AnchorState::Fresh),
        marks::fresh_only(list).len() + marks::stale_count(list) == list.len(),
    decreases list.len(),
{
    reveal(Seq::filter);
    if list.len() > 0 {
        law_fresh_marks_are_kept(list.drop_last());
    }
}

/// Taking out the mark at an offset leaves all others, in their order.
pub proof fn law_others_are_left(list: Seq<MarkNow>, offset: u64)
    ensures
        marks::without_offset(list, offset) == list.filter(|m: MarkNow| m.bm.offset != offset),
    decreases list.len(),
{
    reveal(Seq::filter);
    if list.len() > 0 {
        law_others_are_left(list.drop_last(), offset);
    }
}

/// There is a mark at `offset`.
pub open spec fn has_mark(list: Seq<MarkNow>, offset: u64) -> bool {
    exists|i: int| 0 <= i < list.len() && (#[trigger] list[i]).bm.offset == offset
}

/// The marks stand in the order of their offsets, and no two have the same.
pub open spec fn in_order(list: Seq<MarkNow>) -> bool {
    forall|i: int, j: int|
        0 <= i < j < list.len() ==> (#[trigger] list[i]).bm.offset < (
        #[trigger] list[j]).bm.offset
}

proof fn lemma_has_mark(list: Seq<MarkNow>, offset: u64)
    requires
        in_order(list),
    ensures
        has_mark(list, offset) <==> bookmarks::has_offset(marks::offsets_now(list), offset),
{
    let offs = marks::offsets_now(list);
    lemma_in_order(list);
    bookmarks::lemma_slot(offs, offset, 0);
    let k = bookmarks::slot(offs, offset);
    if has_mark(list, offset) {
        let i = choose|i: int| 0 <= i < list.len() && (#[trigger] list[i]).bm.offset == offset;
        assert(offs[i] == offset);
        if k < i {
            assert(offs[k] < offs[i]);
        }
    }
    if bookmarks::has_offset(offs, offset) {
        assert(list[k].bm.offset == offset);
    }
}

proof fn lemma_in_order(list: Seq<MarkNow>)
    ensures
        in_order(list) <==> bookmarks::rising(marks::offsets_now(list)),
{
    let offs = marks::offsets_now(list);
    if in_order(list) {
        assert forall|i: int, j: int| 0 <= i < j < offs.len() implies offs[i] < offs[j] by {
            assert(list[i].bm.offset < list[j].bm.offset);
        }
    }
    if bookmarks::rising(offs) {
        assert forall|i: int, j: int| 0 <= i < j < list.len() implies (#[trigger] list[i]).bm.offset
            < (#[trigger] list[j]).bm.offset by {
            assert(offs[i] < offs[j]);
        }
    }
}

/// A new mark is put among the others where its offset belongs, and changes none of them. Where
/// there is a mark already, none is added.
pub proof fn law_mark_is_put_at_its_place(list: Seq<MarkNow>, m: MarkNow)
    requires
        in_order(list),
    ensures
        in_order(marks::placed(list, m)),
        has_mark(list, m.bm.offset) ==> marks::placed(list, m) == list,
        !has_mark(list, m.bm.offset) ==> exists|k: int|
            0 <= k <= list.len() && marks::placed(list, m) == #[trigger] list.insert(k, m),
{
    lemma_in_order(list);
    lemma_in_order(marks::placed(list, m));
    lemma_has_mark(list, m.bm.offset);
    marks::lemma_placed(list, m);
    if !has_mark(list, m.bm.offset) {
        let k = bookmarks::slot(marks::offsets_now(list), m.bm.offset);
        assert(marks::placed(list, m) == list.insert(k, m));
    }
}

/// Mark `i` is the first of the list at its offset.
pub open spec fn first_there(list: Seq<MarkNow>, i: int) -> bool {
    0 <= i < list.len() && forall|j: int|
        0 <= j < i ==> (#[trigger] list[j]).bm.offset != list[i].bm.offset
}

/// Marks that are gathered stand in order, and they are exactly those that are the first at
/// their offset.
pub proof fn law_marks_are_gathered(list: Seq<MarkNow>, m: MarkNow)
    ensures
        in_order(marks::gathered(list)),
        marks::gathered(list).contains(m) <==> exists|i: int| #[trigger]
            first_there(list, i) && list[i] == m,
    decreases list.len(),
{
    let all = marks::gathered(list);
    if list.len() > 0 {
        let front = list.drop_last();
        let last = list.last();
        let n = front.len() as int;
        law_marks_are_gathered(front, m);
        let before = marks::gathered(front);
        law_mark_is_put_at_its_place(before, last);
        assert forall|i: int| 0 <= i < n implies #[trigger] first_there(front, i) == first_there(
            list,
            i,
        ) by {
            assert forall|j: int| 0 <= j < i implies (#[trigger] front[j]) == list[j] by {}
            if first_there(list, i) {
                assert forall|j: int| 0 <= j < i implies (#[trigger] front[j]).bm.offset
                    != front[i].bm.offset by {
                    assert(list[j].bm.offset != list[i].bm.offset);
                }
            }
            if first_there(front, i) {
                assert forall|j: int| 0 <= j < i implies (#[trigger] list[j]).bm.offset
                    != list[i].bm.offset by {
                    assert(front[j].bm.offset != front[i].bm.offset);
                }
            }
        }
        lemma_gathered_offsets(front, last.bm.offset);
        if has_mark(before, last.bm.offset) {
            assert(!first_there(list, n)) by {
                let j = choose|j: int|
                    0 <= j < front.len() && (#[trigger] front[j]).bm.offset == last.bm.offset;
                assert(list[j].bm.offset == last.bm.offset);
            }
        } else {
            assert(first_there(list, n)) by {
                assert forall|j: int| 0 <= j < n implies (#[trigger] list[j]).bm.offset
                    != list[n].bm.offset by {
                    assert(front[j].bm.offset != last.bm.offset);
                }
            }
            let k = choose|k: int|
                0 <= k <= before.len() && all == #[trigger] before.insert(k, last);
            assert(all[k] == last);
            if all.contains(m) {
                let j = choose|j: int| 0 <= j < all.len() && all[j] == m;
                if j < k {
                    assert(before[j] == m);
                } else if j > k {
                    assert(before[j - 1] == m);
                }
            }
            if before.contains(m) {
                let j = choose|j: int| 0 <= j < before.len() && before[j] == m;
                if j < k {
                    assert(all[j] == m);
                } else {
                    assert(all[j + 1] == m);
                }
            }
        }
        if exists|i: int| #[trigger] first_there(list, i) && list[i] == m {
            let i = choose|i: int| #[trigger] first_there(list, i) && list[i] == m;
            if i < n {
                assert(first_there(front, i) && front[i] == m);
            }
        }
        if exists|i: int| #[trigger] first_there(front, i) && front[i] == m {
            let i = choose|i: int| #[trigger] first_there(front, i) && front[i] == m;
            assert(first_there(list, i) && list[i] == m);
        }
    }
}

/// Gathering marks loses no offset.
pub proof fn lemma_gathered_offsets(list: Seq<MarkNow>, offset: u64)
    ensures
        has_mark(marks::gathered(list), offset) <==> has_mark(list, offset),
        in_order(marks::gathered(list)),
    decreases list.len(),
{
    if list.len() > 0 {
        let front = list.drop_last();
        let last = list.last();
        lemma_gathered_offsets(front, offset);
        lemma_gathered_offsets(front, last.bm.offset);
        let before = marks::gathered(front);
        let all = marks::gathered(list);
        law_mark_is_put_at_its_place(before, last);
        if has_mark(front, offset) {
            let j = choose|j: int| 0 <= j < front.len() && (#[trigger] front[j]).bm.offset == offset;
            assert(list[j].bm.offset == offset);
        }
        if has_mark(list, offset) && last.bm.offset != offset {
            let j = choose|j: int| 0 <= j < list.len() && (#[trigger] list[j]).bm.offset == offset;
            assert(front[j].bm.offset == offset);
        }
        if last.bm.offset == offset {
            assert(list[list.len() - 1].bm.offset == offset);
        }
        if !has_mark(before, last.bm.offset) {
            let k = choose|k: int|
                0 <= k <= before.len() && all == #[trigger] before.insert(k, last);
            assert(all[k] == last);
            if has_mark(all, offset) {
                let j = choose|j: int|
                    0 <= j < all.len() && (#[trigger] all[j]).bm.offset == offset;
                if j < k {
                    assert(before[j] == all[j]);
                } else if j > k {
                    assert(before[j - 1] == all[j]);
                }
            }
            if has_mark(before, offset) {
                let j = choose|j: int|
                    0 <= j < before.len() && (#[trigger] before[j]).bm.offset == offset;
                if j < k {
                    assert(all[j] == before[j]);
                } else {
                    assert(all[j + 1] == before[j]);
                }
            }
        }
    }
}

/// The mark has to be looked for: it does not hold, and it is the one that was asked for or all
/// were.
pub open spec fn looked_for(m: MarkNow, only: Option<u64>) -> bool {
    m.anchor != AnchorState::Fresh && (only is None || only == Some(m.bm.offset))
}

/// Where the text of the mark stands now.
pub open spec fn text_place(store: Store, data: Seq<u8>, m: MarkNow) -> Option<usize> {
    if m.bm.head.len() > 0 {
        store.find_offset_of(data, m.bm.head)
    } else {
        None
    }
}

/// A mark that holds, or that was not asked for, stays as it is, and so does one whose text is
/// nowhere. One whose text is found is moved there and keeps its text, its note and its time; it
/// holds if the line there begins with its text.
pub proof fn law_marks_are_moved_to_their_text(
    store: Store,
    data: Seq<u8>,
    only: Option<u64>,
    m: MarkNow,
)
    ensures
        ({
            let now = marks::refound(store, data, only, m);
            let o = text_place(store, data, m);
            &&& !looked_for(m, only) || o is None ==> now == m
            &&& looked_for(m, only) && o is Some ==> {
                let line = store.line_text_at(data, o->0);
                &&& now.bm.offset == o->0
                &&& now.bm.head == m.bm.head && now.bm.note == m.bm.note && now.bm.at == m.bm.at
                &&& now.anchor is Fresh <==> line is Some && begins_with(line->0, m.bm.head)
                &&& now.anchor is Fresh || now.anchor is Stale
                &&& store.line_index_at(o->0) is Some && store.line_index_at(o->0)->0 <= u32::MAX
                    ==> now.bm.line == store.line_index_at(o->0)->0
                &&& store.line_index_at(o->0) is None ==> now.bm.line == m.bm.line
            }
        }),
{
    let o = text_place(store, data, m);
    if o is Some && store.line_text_at(data, o->0) is Some {
        crate::mark_laws::law_mark_holds_by_every_character(
            m.bm,
            store.line_text_at(data, o->0)->0,
        );
    }
}

/// The marks that were looked for are counted: those that were found and those that were not.
pub proof fn law_what_was_looked_for_is_counted(
    store: Store,
    data: Seq<u8>,
    only: Option<u64>,
    list: Seq<MarkNow>,
)
    ensures
        marks::found_count(store, data, only, list) == list.filter(
            |m: MarkNow| looked_for(m, only) && text_place(store, data, m) is Some,
        ).len(),
        marks::missed_count(store, data, only, list) == list.filter(
            |m: MarkNow| looked_for(m, only) && text_place(store, data, m) is None,
        ).len(),
    decreases list.len(),
{
    reveal(Seq::filter);
    if list.len() > 0 {
        law_what_was_looked_for_is_counted(store, data, only, list.drop_last());
    }
}

proof fn lemma_gathered_entries(list: Seq<MarkNow>)
    ensures
        marks::entries(marks::gathered(list)) == bookmarks::collected(marks::entries(list)),
        in_order(marks::gathered(list)),
    decreases list.len(),
{
    if list.len() == 0 {
        assert(marks::entries(marks::gathered(list)) =~= Seq::empty());
        assert(marks::entries(list) =~= Seq::empty());
    } else {
        let front = list.drop_last();
        let last = list.last();
        lemma_gathered_entries(front);
        let before = marks::gathered(front);
        law_mark_is_put_at_its_place(before, last);
        assert(marks::entries(list).drop_last() =~= marks::entries(front));
        assert(marks::entries(list).last() == last.bm);
        let offs = marks::offsets_now(before);
        assert(bookmarks::offsets(marks::entries(before)) =~= offs);
        bookmarks::lemma_slot(offs, last.bm.offset, 0);
        let k = bookmarks::slot(offs, last.bm.offset);
        assert(marks::entries(before.insert(k, last)) =~= marks::entries(before).insert(k, last.bm));
    }
}

/// Entry `i` is the first of the list at its offset.
pub open spec fn first_entry(list: Seq<Entry>, i: int) -> bool {
    0 <= i < list.len() && forall|j: int|
        0 <= j < i ==> (#[trigger] list[j]).offset != list[i].offset
}

/// Of the marks that a sidecar file holds, those that are the first at their offset are kept,
/// and no others.
pub proof fn law_first_marks_are_kept(list: Seq<Entry>, m: Entry)
    ensures
        bookmarks::collected(list).contains(m) <==> exists|i: int| #[trigger]
            first_entry(list, i) && list[i] == m,
{
    let now = Seq::new(list.len(), |i: int| MarkNow { bm: list[i], anchor: AnchorState::Fresh });
    let one = MarkNow { bm: m, anchor: AnchorState::Fresh };
    assert(marks::entries(now) =~= list);
    lemma_gathered_entries(now);
    law_marks_are_gathered(now, one);
    let all = marks::gathered(now);
    assert forall|i: int| #[trigger] first_entry(list, i) == first_there(now, i) by {
        if first_entry(list, i) {
            assert forall|j: int| 0 <= j < i implies (#[trigger] now[j]).bm.offset
                != now[i].bm.offset by {
                assert(list[j].offset != list[i].offset);
            }
        }
        if first_there(now, i) {
            assert forall|j: int| 0 <= j < i implies (#[trigger] list[j]).offset
                != list[i].offset by {
                assert(now[j].bm.offset != now[i].bm.offset);
            }
        }
    }
    if all.contains(one) {
        let k = choose|k: int| 0 <= k < all.len() && all[k] == one;
        assert(bookmarks::collected(list)[k] == m);
        let i = choose|i: int| #[trigger] first_there(now, i) && now[i] == one;
        assert(first_entry(list, i) && list[i] == m);
    }
    if bookmarks::collected(list).contains(m) {
        let k = choose|k: int|
            0 <= k < bookmarks::collected(list).len() && bookmarks::collected(list)[k] == m;
        let x = all[k];
        assert(x.bm == m);
        assert(all.contains(x));
        law_marks_are_gathered(now, x);
        let i = choose|i: int| #[trigger] first_there(now, i) && now[i] == x;
        assert(x == one);
    }
    if exists|i: int| #[trigger] first_entry(list, i) && list[i] == m {
        let i = choose|i: int| #[trigger] first_entry(list, i) && list[i] == m;
        assert(first_there(now, i) && now[i] == one);
    }
}

} // verus!
