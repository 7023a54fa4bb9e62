//! Marks, and whether they hold for the file as it is now.

use crate::bookmarks;
use crate::bookmarks::{Bookmark, Entry};
use crate::encoding;
use crate::logstore::{LogStore, Store};
use vstd::prelude::*;
use vstd::string::*;

verus! {

/// Whether a mark still holds.
#[derive(Clone, Copy, Debug, PartialEq, Eq, Structural)]
pub enum AnchorState {
    /// The line is the one that was marked.
    Fresh,
    /// Another line stands there now.
    Stale,
    /// The file does not reach that far.
    Lost,
}

/// A mark, and whether it holds now.
#[derive(Debug)]
pub struct Mark {
    pub bm: Bookmark,
    pub anchor: AnchorState,
}

/// The value of a [`Mark`].
#[verifier::ext_equal]
pub struct MarkNow {
    pub bm: Entry,
    pub anchor: AnchorState,
}

impl View for Mark {
    type V = MarkNow;

    open spec fn view(&self) -> MarkNow {
        MarkNow { bm: self.bm@, anchor: self.anchor }
    }
}

impl Clone for Mark {
    fn clone(&self) -> (r: Mark)
        ensures
            r@ == self@,
    {
        Mark { bm: self.bm.clone(), anchor: self.anchor }
    }
}

/// The values of a row of marks.
pub open spec fn marks_now(items: Seq<Mark>) -> Seq<MarkNow> {
    items.map_values(|m: Mark| m@)
}

/// The offsets of a row of marks.
pub open spec fn offsets_now(marks: Seq<MarkNow>) -> Seq<u64> {
    marks.map_values(|m: MarkNow| m.bm.offset)
}

/// The marks without whether they hold.
pub open spec fn entries(marks: Seq<MarkNow>) -> Seq<Entry> {
    marks.map_values(|m: MarkNow| m.bm)
}

/// Whether a mark holds for what is at its offset now. None holds without a file.
pub open spec fn anchor_now(store: Option<Store>, data: Seq<u8>, e: Entry) -> AnchorState {
    match store {
        Some(s) => match s.line_text_at(data, e.offset as usize) {
            Some(line) => if e.holds_for(line) {
                AnchorState::Fresh
            } else {
                AnchorState::Stale
            },
            None => AnchorState::Lost,
        },
        None => AnchorState::Lost,
    }
}

/// The value of a store that may be missing.
pub open spec fn store_of(store: Option<LogStore>) -> Option<Store> {
    match store {
        Some(s) => Some(s@),
        None => None,
    }
}

/// The line at the offset of a mark can be decoded, if there is one.
pub open spec fn reads_for(store: Option<Store>, data: Seq<u8>, e: Entry) -> bool {
    store matches Some(s) ==> s.reads_at(data, e.offset as usize)
}

/// The lines at the offsets of the marks can be decoded.
pub open spec fn reads_for_all(store: Option<Store>, data: Seq<u8>, list: Seq<Entry>) -> bool {
    forall|i: int| 0 <= i < list.len() ==> #[trigger] reads_for(store, data, list[i])
}

/// Tells whether a mark holds for what is at its offset now. It does not need the index.
pub fn check_anchor(store: &Option<LogStore>, data: &[u8], b: &Bookmark) -> (r: AnchorState)
    requires
        reads_for(store_of(*store), data@, b@),
    ensures
        r == anchor_now(store_of(*store), data@, b@),
{
    match store {
        Some(s) => {
            let offset: usize = #[verifier::truncate]
            (b.offset as usize);
            match s.line_text_at(data, offset) {
                Some(line) => if b.matches_head(line.as_str()) {
                    AnchorState::Fresh
                } else {
                    AnchorState::Stale
                },
                None => AnchorState::Lost,
            }
        },
        None => AnchorState::Lost,
    }
}

/// The marks, each with whether it holds now.
pub open spec fn checked(store: Option<Store>, data: Seq<u8>, marks: Seq<Entry>) -> Seq<MarkNow> {
    marks.map_values(|e: Entry| MarkNow { bm: e, anchor: anchor_now(store, data, e) })
}

/// Tells of each mark whether it holds now.
pub fn check_all(store: &Option<LogStore>, data: &[u8], items: &Vec<Bookmark>) -> (r: Vec<Mark>)
    requires
        reads_for_all(store_of(*store), data@, bookmarks::marks_of(items@)),
    ensures
        marks_now(r@) == checked(store_of(*store), data@, bookmarks::marks_of(items@)),
{
    let mut r: Vec<Mark> = Vec::new();
    let ghost all = checked(store_of(*store), data@, bookmarks::marks_of(items@));
    let mut i: usize = 0;
    assert(marks_now(r@) =~= all.take(0));
    while i < items.len()
        invariant
            i <= items@.len(),
            reads_for_all(store_of(*store), data@, bookmarks::marks_of(items@)),
            all == checked(store_of(*store), data@, bookmarks::marks_of(items@)),
            marks_now(r@) == all.take(i as int),
        decreases items@.len() - i,
    {
        assert(reads_for(store_of(*store), data@, bookmarks::marks_of(items@)[i as int]));
        let anchor = check_anchor(store, data, &items[i]);
        let m = Mark { bm: items[i].clone(), anchor };
        let ghost before = r@;
        r.push(m);
        i += 1;
        assert(marks_now(r@) =~= marks_now(before).push(m@));
        assert(all.take(i as int) =~= all.take(i - 1).push(all[i - 1]));
    }
    assert(all.take(i as int) =~= all);
    r
}

/// How many of the marks do not hold.
pub open spec fn stale_count(marks: Seq<MarkNow>) -> nat
    decreases marks.len(),
{
    if marks.len() == 0 {
        0
    } else {
        stale_count(marks.drop_last()) + (if marks.last().anchor is Fresh {
            0nat
        } else {
            1nat
        })
    }
}

/// Counts the marks that do not hold.
pub fn count_stale(items: &Vec<Mark>) -> (r: usize)
    ensures
        r == stale_count(marks_now(items@)),
        r <= items@.len(),
{
    let mut r: usize = 0;
    let mut i: usize = 0;
    let ghost marks = marks_now(items@);
    assert(marks.take(0) =~= Seq::empty());
    while i < items.len()
        invariant
            i <= items@.len(),
            marks == marks_now(items@),
            r == stale_count(marks.take(i as int)),
            r <= i,
        decreases items@.len() - i,
    {
        proof {
            assert(marks.take(i + 1).drop_last() =~= marks.take(i as int));
            assert(marks.take(i + 1).last() == items@[i as int]@);
        }
        if items[i].anchor != AnchorState::Fresh {
            r += 1;
        }
        i += 1;
    }
    assert(marks.take(i as int) =~= marks);
    r
}

/// Those of the marks that hold.
pub open spec fn fresh_only(marks: Seq<MarkNow>) -> Seq<MarkNow>
    decreases marks.len(),
{
    if marks.len() == 0 {
        Seq::empty()
    } else if marks.last().anchor is Fresh {
        fresh_only(marks.drop_last()).push(marks.last())
    } else {
        fresh_only(marks.drop_last())
    }
}

/// The marks without those at `offset`.
pub open spec fn without_offset(marks: Seq<MarkNow>, offset: u64) -> Seq<MarkNow>
    decreases marks.len(),
{
    if marks.len() == 0 {
        Seq::empty()
    } else if marks.last().bm.offset != offset {
        without_offset(marks.drop_last(), offset).push(marks.last())
    } else {
        without_offset(marks.drop_last(), offset)
    }
}

proof fn lemma_rising_front(marks: Seq<MarkNow>)
    requires
        bookmarks::rising(offsets_now(marks)),
        marks.len() > 0,
    ensures
        bookmarks::rising(offsets_now(marks.drop_last())),
{
    let offs = offsets_now(marks);
    let front = offsets_now(marks.drop_last());
    assert forall|i: int, j: int| 0 <= i < j < front.len() implies front[i] < front[j] by {
        assert(front[i] == offs[i] && front[j] == offs[j]);
    }
}

/// Leaving marks out leaves the rest in order.
pub proof fn lemma_kept_in_order(marks: Seq<MarkNow>, offset: u64)
    requires
        bookmarks::rising(offsets_now(marks)),
    ensures
        bookmarks::rising(offsets_now(fresh_only(marks))),
        bookmarks::rising(offsets_now(without_offset(marks, offset))),
        fresh_only(marks).len() <= marks.len(),
        without_offset(marks, offset).len() <= marks.len(),
        forall|i: int|
            0 <= i < fresh_only(marks).len() ==> marks.len() > 0 && (#[trigger] fresh_only(
                marks,
            )[i]).bm.offset <= marks.last().bm.offset,
        forall|i: int|
            0 <= i < without_offset(marks, offset).len() ==> marks.len() > 0 && (
            #[trigger] without_offset(marks, offset)[i]).bm.offset <= marks.last().bm.offset,
    decreases marks.len(),
{
    if marks.len() > 0 {
        let front = marks.drop_last();
        lemma_rising_front(marks);
        lemma_kept_in_order(front, offset);
        let offs = offsets_now(marks);
        if front.len() > 0 {
            assert(offs[front.len() - 1] < offs[marks.len() - 1]);
        }
        let a = offsets_now(fresh_only(marks));
        let a0 = fresh_only(front);
        assert forall|i: int, j: int| 0 <= i < j < a.len() implies a[i] < a[j] by {
            if j < a0.len() {
                assert(offsets_now(a0)[i] < offsets_now(a0)[j]);
            } else {
                assert(a0[i].bm.offset <= front.last().bm.offset);
            }
        }
        let b = offsets_now(without_offset(marks, offset));
        let b0 = without_offset(front, offset);
        assert forall|i: int, j: int| 0 <= i < j < b.len() implies b[i] < b[j] by {
            if j < b0.len() {
                assert(offsets_now(b0)[i] < offsets_now(b0)[j]);
            } else {
                assert(b0[i].bm.offset <= front.last().bm.offset);
            }
        }
        assert forall|i: int| 0 <= i < fresh_only(marks).len() implies (#[trigger] fresh_only(
            marks,
        )[i]).bm.offset <= marks.last().bm.offset by {
            if i < a0.len() {
                assert(a0[i].bm.offset <= front.last().bm.offset);
            }
        }
        assert forall|i: int| 0 <= i < without_offset(marks, offset).len() implies (
        #[trigger] without_offset(marks, offset)[i]).bm.offset <= marks.last().bm.offset by {
            if i < b0.len() {
                assert(b0[i].bm.offset <= front.last().bm.offset);
            }
        }
    }
}

/// Copies the marks that hold.
pub fn keep_fresh(items: &Vec<Mark>) -> (r: Vec<Mark>)
    ensures
        marks_now(r@) == fresh_only(marks_now(items@)),
{
    let mut r: Vec<Mark> = Vec::new();
    let ghost marks = marks_now(items@);
    let mut i: usize = 0;
    assert(marks.take(0) =~= Seq::empty());
    assert(marks_now(r@) =~= Seq::empty());
    while i < items.len()
        invariant
            i <= items@.len(),
            marks == marks_now(items@),
            marks_now(r@) == fresh_only(marks.take(i as int)),
        decreases items@.len() - i,
    {
        let ghost before = r@;
        proof {
            assert(marks.take(i + 1).drop_last() =~= marks.take(i as int));
            assert(marks.take(i + 1).last() == items@[i as int]@);
        }
        if items[i].anchor == AnchorState::Fresh {
            let m = items[i].clone();
            r.push(m);
            assert(marks_now(r@) =~= marks_now(before).push(m@));
        }
        i += 1;
    }
    assert(marks.take(i as int) =~= marks);
    r
}

/// Copies the marks but those at `offset`.
pub fn keep_others(items: &Vec<Mark>, offset: u64) -> (r: Vec<Mark>)
    ensures
        marks_now(r@) == without_offset(marks_now(items@), offset),
{
    let mut r: Vec<Mark> = Vec::new();
    let ghost marks = marks_now(items@);
    let mut i: usize = 0;
    assert(marks.take(0) =~= Seq::empty());
    assert(marks_now(r@) =~= Seq::empty());
    while i < items.len()
        invariant
            i <= items@.len(),
            marks == marks_now(items@),
            marks_now(r@) == without_offset(marks.take(i as int), offset),
        decreases items@.len() - i,
    {
        let ghost before = r@;
        proof {
            assert(marks.take(i + 1).drop_last() =~= marks.take(i as int));
            assert(marks.take(i + 1).last() == items@[i as int]@);
        }
        if items[i].bm.offset != offset {
            let m = items[i].clone();
            r.push(m);
            assert(marks_now(r@) =~= marks_now(before).push(m@));
        }
        i += 1;
    }
    assert(marks.take(i as int) =~= marks);
    r
}

/// `marks` with `m` at its place. A mark that is there already stays.
pub open spec fn placed(marks: Seq<MarkNow>, m: MarkNow) -> Seq<MarkNow> {
    if bookmarks::has_offset(offsets_now(marks), m.bm.offset) {
        marks
    } else {
        marks.insert(bookmarks::slot(offsets_now(marks), m.bm.offset), m)
    }
}

/// The marks in order; of those with the same offset, the first.
pub open spec fn gathered(marks: Seq<MarkNow>) -> Seq<MarkNow>
    decreases marks.len(),
{
    if marks.len() == 0 {
        Seq::empty()
    } else {
        placed(gathered(marks.drop_last()), marks.last())
    }
}

/// A mark at its place leaves the marks in order.
pub proof fn lemma_placed(marks: Seq<MarkNow>, m: MarkNow)
    requires
        bookmarks::rising(offsets_now(marks)),
    ensures
        bookmarks::rising(offsets_now(placed(marks, m))),
        !bookmarks::has_offset(offsets_now(marks), m.bm.offset) ==> 0 <= bookmarks::slot(
            offsets_now(marks),
            m.bm.offset,
        ) <= marks.len(),
{
    let offs = offsets_now(marks);
    if !bookmarks::has_offset(offs, m.bm.offset) {
        bookmarks::lemma_insert_offset(offs, m.bm.offset);
        let k = bookmarks::slot(offs, m.bm.offset);
        assert(offsets_now(marks.insert(k, m)) =~= offs.insert(k, m.bm.offset));
    }
}

/// Puts a mark at its place, unless there is one with its offset.
pub fn place_mark(items: &mut Vec<Mark>, m: Mark)
    requires
        bookmarks::rising(offsets_now(marks_now(old(items)@))),
    ensures
        marks_now(final(items)@) == placed(marks_now(old(items)@), m@),
        bookmarks::rising(offsets_now(marks_now(final(items)@))),
{
    let ghost marks = marks_now(items@);
    let ghost offs = offsets_now(marks);
    let offset: u64 = m.bm.offset;
    let mut i: usize = items.len();
    proof {
        lemma_placed(marks, m@);
    }
    while i > 0 && items[i - 1].bm.offset >= offset
        invariant
            i <= items@.len(),
            offs == offsets_now(marks_now(items@)),
            forall|k: int| i <= k < offs.len() ==> #[trigger] offs[k] >= offset,
        decreases i,
    {
        assert(offs[i - 1] == items@[i - 1].bm.offset);
        i -= 1;
    }
    proof {
        if i > 0 {
            assert(offs[i - 1] == items@[i - 1].bm.offset);
            assert forall|k: int| 0 <= k < i implies #[trigger] offs[k] < offset by {
                if k < i - 1 {
                    assert(offs[k] < offs[i - 1]);
                }
            }
        }
        bookmarks::lemma_slot_is(offs, offset, 0, i as int);
        if i < items@.len() {
            assert(offs[i as int] == items@[i as int].bm.offset);
        }
    }
    if i < items.len() && items[i].bm.offset == offset {
        return;
    }
    items.insert(i, m);
    assert(marks_now(items@) =~= marks.insert(i as int, m@));
}

/// The mark has to be looked for: it does not hold, and it is the one that was asked for, if
/// one was.
pub open spec fn is_sought(m: MarkNow, only: Option<u64>) -> bool {
    !(m.anchor is Fresh) && (only matches Some(o) ==> o == m.bm.offset)
}

/// Where the head of a mark stands now. A mark without a head cannot be found.
pub open spec fn head_place(store: Store, data: Seq<u8>, m: MarkNow) -> Option<usize> {
    if m.bm.head.len() == 0 {
        None
    } else {
        store.find_offset_of(data, m.bm.head)
    }
}

/// The mark, moved to where its head stands now if it had to be looked for and was found.
pub open spec fn refound(store: Store, data: Seq<u8>, only: Option<u64>, m: MarkNow) -> MarkNow {
    if is_sought(m, only) {
        match head_place(store, data, m) {
            Some(o) => MarkNow {
                bm: Entry {
                    offset: o as u64,
                    line: match store.line_index_at(o) {
                        Some(idx) => idx as u32,
                        None => m.bm.line,
                    },
                    ..m.bm
                },
                anchor: match store.line_text_at(data, o) {
                    Some(line) => if m.bm.holds_for(line) {
                        AnchorState::Fresh
                    } else {
                        AnchorState::Stale
                    },
                    None => AnchorState::Stale,
                },
            },
            None => m,
        }
    } else {
        m
    }
}

/// How many of the marks had to be looked for and were found.
pub open spec fn found_count(
    store: Store,
    data: Seq<u8>,
    only: Option<u64>,
    marks: Seq<MarkNow>,
) -> nat
    decreases marks.len(),
{
    if marks.len() == 0 {
        0
    } else {
        found_count(store, data, only, marks.drop_last()) + (if is_sought(marks.last(), only)
            && head_place(store, data, marks.last()) is Some {
            1nat
        } else {
            0nat
        })
    }
}

/// How many of the marks had to be looked for and were not found.
pub open spec fn missed_count(
    store: Store,
    data: Seq<u8>,
    only: Option<u64>,
    marks: Seq<MarkNow>,
) -> nat
    decreases marks.len(),
{
    if marks.len() == 0 {
        0
    } else {
        missed_count(store, data, only, marks.drop_last()) + (if is_sought(marks.last(), only)
            && head_place(store, data, marks.last()) is None {
            1nat
        } else {
            0nat
        })
    }
}

/// Each of the marks, moved if it had to be looked for and was found.
pub open spec fn all_refound(
    store: Store,
    data: Seq<u8>,
    only: Option<u64>,
    marks: Seq<MarkNow>,
) -> Seq<MarkNow> {
    marks.map_values(|m: MarkNow| refound(store, data, only, m))
}

/// Every line can be decoded, and the heads of the marks that have to be looked for can be
/// encoded.
pub open spec fn can_refind(
    store: Store,
    data: Seq<u8>,
    only: Option<u64>,
    marks: Seq<MarkNow>,
) -> bool {
    &&& store.every_line_reads(data)
    &&& forall|i: int|
        0 <= i < marks.len() && is_sought(#[trigger] marks[i], only) ==> encoding::encodable(
            marks[i].bm.head,
            store.encoding,
        )
}

/// Looks for one mark that does not hold, and tells whether it was found.
fn refind_one(s: &LogStore, data: &[u8], m: &Mark) -> (r: Option<Mark>)
    requires
        s@.wf(),
        s@.every_line_reads(data@),
        encoding::encodable(m.bm.head@, s@.encoding),
        !(m.anchor is Fresh),
    ensures
        match r {
            Some(n) => head_place(s@, data@, m@) is Some && n@ == refound(s@, data@, None, m@),
            None => head_place(s@, data@, m@) is None,
        },
{
    if m.bm.head.as_str().is_empty() {
        return None;
    }
    match s.find_offset_of(data, m.bm.head.as_str()) {
        Some(offset) => {
            assert(s@.reads_at(data@, offset));
            let mut bm = m.bm.clone();
            let anchor = match s.line_text_at(data, offset) {
                Some(line) => if bm.matches_head(line.as_str()) {
                    AnchorState::Fresh
                } else {
                    AnchorState::Stale
                },
                None => AnchorState::Stale,
            };
            bm.offset = offset as u64;
            if let Some(idx) = s.line_index_at(offset) {
                bm.line = #[verifier::truncate]
                (idx as u32);
            }
            Some(Mark { bm, anchor })
        },
        None => None,
    }
}

/// Looks for the marks that do not hold by the text of their heads, and moves those that are
/// found. Two that come to stand at the same place become one.
pub fn refind(s: &LogStore, data: &[u8], only: Option<u64>, items: &Vec<Mark>) -> (r: (
    Vec<Mark>,
    usize,
    usize,
))
    requires
        s@.wf(),
        can_refind(s@, data@, only, marks_now(items@)),
    ensures
        marks_now(r.0@) == gathered(all_refound(s@, data@, only, marks_now(items@))),
        bookmarks::rising(offsets_now(marks_now(r.0@))),
        r.1 == found_count(s@, data@, only, marks_now(items@)),
        r.2 == missed_count(s@, data@, only, marks_now(items@)),
        r.1 + r.2 <= items@.len(),
{
    let mut out: Vec<Mark> = Vec::new();
    let mut moved: usize = 0;
    let mut missed: usize = 0;
    let mut i: usize = 0;
    let ghost marks = marks_now(items@);
    let ghost all = all_refound(s@, data@, only, marks);
    proof {
        assert(marks.take(0) =~= Seq::empty());
        assert(all.take(0) =~= Seq::empty());
        assert(marks_now(out@) =~= Seq::empty());
    }
    while i < items.len()
        invariant
            i <= items@.len(),
            s@.wf(),
            can_refind(s@, data@, only, marks),
            marks == marks_now(items@),
            all == all_refound(s@, data@, only, marks),
            marks_now(out@) == gathered(all.take(i as int)),
            bookmarks::rising(offsets_now(marks_now(out@))),
            moved == found_count(s@, data@, only, marks.take(i as int)),
            missed == missed_count(s@, data@, only, marks.take(i as int)),
            moved + missed <= i,
        decreases items@.len() - i,
    {
        let m: &Mark = &items[i];
        proof {
            assert(marks.take(i + 1).drop_last() =~= marks.take(i as int));
            assert(marks.take(i + 1).last() == m@);
            assert(all.take(i + 1).drop_last() =~= all.take(i as int));
            assert(all.take(i + 1).last() == refound(s@, data@, only, m@));
            assert(marks[i as int] == m@);
        }
        let sought: bool = m.anchor != AnchorState::Fresh && (match only {
            Some(o) => o == m.bm.offset,
            None => true,
        });
        if sought {
            match refind_one(s, data, m) {
                Some(n) => {
                    place_mark(&mut out, n);
                    moved += 1;
                },
                None => {
                    place_mark(&mut out, m.clone());
                    missed += 1;
                },
            }
        } else {
            place_mark(&mut out, m.clone());
        }
        i += 1;
    }
    proof {
        assert(marks.take(i as int) =~= marks);
        assert(all.take(i as int) =~= all);
    }
    (out, moved, missed)
}

} // verus!
