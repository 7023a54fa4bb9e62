//! What stands at the beginning of a line: a date, a time, and how serious the line is.

use crate::boundaries;
use crate::style::Level;
use vstd::prelude::*;
use vstd::string::*;
use vstd::utf8::*;

verus! {

/// How many words behind the timestamp may be the level. A word further on belongs to the
/// message.
pub const LEVEL_MAX_TOKENS: usize = 3;

/// The bytes from `start` up to `end`.
#[derive(Clone, Copy, Debug, PartialEq, Eq, Structural)]
pub struct Span {
    pub start: usize,
    pub end: usize,
}

impl Span {
    /// The position lies inside the span.
    pub open spec fn holds(self, i: int) -> bool {
        self.start <= i < self.end
    }

    /// Whether the position lies inside the span.
    pub fn contains(&self, i: usize) -> (r: bool)
        ensures
            r == self.holds(i as int),
    {
        self.start <= i && i < self.end
    }
}

/// What was found at the beginning of a line.
#[derive(Clone, Copy, Debug, PartialEq, Eq)]
pub struct LineHead {
    pub date: Option<Span>,
    /// The time, with the fraction of a second.
    pub time: Option<Span>,
    pub level: Option<(Span, Level)>,
}

impl LineHead {
    /// How serious the line is.
    pub fn level_of(&self) -> (r: Option<Level>)
        ensures
            r == (match self.level {
                Some(found) => Some(found.1),
                None => None,
            }),
    {
        match self.level {
            Some(found) => Some(found.1),
            None => None,
        }
    }
}

/// A byte that stands for a digit.
pub open spec fn digit_byte(c: u8) -> bool {
    48 <= c <= 57
}

fn is_digit_byte(c: u8) -> (r: bool)
    ensures
        r == digit_byte(c),
{
    48 <= c && c <= 57
}

/// A date stands at `s`: four digits, two and two, parted by two dashes or two slashes.
pub open spec fn date_at(b: Seq<u8>, s: int) -> bool {
    &&& s + 10 <= b.len()
    &&& (b[s + 4] == 45 || b[s + 4] == 47)
    &&& b[s + 7] == b[s + 4]
    &&& forall|k: int| 0 <= k < 10 && k != 4 && k != 7 ==> digit_byte(#[trigger] b[s + k])
}

/// A time stands at `s`: three times two digits, parted by colons.
pub open spec fn clock_at(b: Seq<u8>, s: int) -> bool {
    &&& s + 8 <= b.len()
    &&& b[s + 2] == 58
    &&& b[s + 5] == 58
    &&& forall|k: int| 0 <= k < 8 && k != 2 && k != 5 ==> digit_byte(#[trigger] b[s + k])
}

/// The end of the digits from `i` on.
pub open spec fn digits_stop(b: Seq<u8>, i: int) -> int
    decreases b.len() - i,
{
    if 0 <= i < b.len() && digit_byte(b[i]) {
        digits_stop(b, i + 1)
    } else {
        i
    }
}

/// The end of the fraction of a second that may stand at `i`: behind a dot or a comma, with at
/// least one digit.
pub open spec fn fraction_stop(b: Seq<u8>, i: int) -> int {
    if i < b.len() && (b[i] == 46 || b[i] == 44) && digits_stop(b, i + 1) > i + 1 {
        digits_stop(b, i + 1)
    } else {
        i
    }
}

/// The end of the date and the end of the time of a timestamp at `s`. A blank or a `T` stands
/// between the two.
pub open spec fn timestamp(b: Seq<u8>, s: int) -> Option<(usize, usize)> {
    if date_at(b, s) && s + 10 < b.len() && (b[s + 10] == 32 || b[s + 10] == 84) && clock_at(
        b,
        s + 11,
    ) {
        Some(((s + 10) as usize, fraction_stop(b, s + 19) as usize))
    } else {
        None
    }
}

/// Looks for a timestamp at `start`.
pub fn scan_timestamp(b: &[u8], start: usize) -> (r: Option<(usize, usize)>)
    ensures
        r == timestamp(b@, start as int),
        r matches Some((date_end, end)) ==> date_end == start + 10 && start + 19 <= end
            <= b@.len(),
{
    let n: usize = b.len();
    if start > n || n - start < 10 {
        return None;
    }
    let sep: u8 = b[start + 4];
    if sep != 45 && sep != 47 {
        return None;
    }
    if b[start + 7] != sep {
        return None;
    }
    let mut k: usize = 0;
    while k < 10
        invariant
            k <= 10,
            n == b@.len(),
            start + 10 <= n,
            forall|j: int| 0 <= j < k && j != 4 && j != 7 ==> digit_byte(#[trigger] b@[start + j]),
        decreases 10 - k,
    {
        if k != 4 && k != 7 && !is_digit_byte(b[start + k]) {
            assert(!date_at(b@, start as int));
            return None;
        }
        k += 1;
    }
    assert(date_at(b@, start as int));
    let date_end: usize = start + 10;
    if date_end >= n || (b[date_end] != 32 && b[date_end] != 84) {
        return None;
    }
    let t: usize = date_end + 1;
    if n - t < 8 || b[t + 2] != 58 || b[t + 5] != 58 {
        return None;
    }
    let mut k: usize = 0;
    while k < 8
        invariant
            k <= 8,
            n == b@.len(),
            t == start + 11,
            t + 8 <= n,
            forall|j: int| 0 <= j < k && j != 2 && j != 5 ==> digit_byte(#[trigger] b@[t + j]),
        decreases 8 - k,
    {
        if k != 2 && k != 5 && !is_digit_byte(b[t + k]) {
            assert(!clock_at(b@, start + 11));
            return None;
        }
        k += 1;
    }
    assert(clock_at(b@, start + 11));
    let i: usize = t + 8;
    if i < n && (b[i] == 46 || b[i] == 44) {
        let mut e: usize = i + 1;
        while e < n && is_digit_byte(b[e])
            invariant
                n == b@.len(),
                i < e <= n,
                digits_stop(b@, i + 1) == digits_stop(b@, e as int),
            decreases n - e,
        {
            e += 1;
        }
        if e > i + 1 {
            return Some((date_end, e));
        }
    }
    Some((date_end, i))
}

/// A byte that parts words: white space, a bracket, or a bar.
pub open spec fn parts_words(c: u8) -> bool {
    c == 32 || c == 9 || c == 10 || c == 12 || c == 13 || c == 91 || c == 93 || c == 124
}

fn is_separator(c: u8) -> (r: bool)
    ensures
        r == parts_words(c),
{
    c == 32 || c == 9 || c == 10 || c == 12 || c == 13 || c == 91 || c == 93 || c == 124
}

/// The first position from `i` on at which a word stands, or the end.
pub open spec fn word_start(b: Seq<u8>, i: int) -> int
    decreases b.len() - i,
{
    if 0 <= i < b.len() && parts_words(b[i]) {
        word_start(b, i + 1)
    } else {
        i
    }
}

/// The end of the word at `i`.
pub open spec fn word_stop(b: Seq<u8>, i: int) -> int
    decreases b.len() - i,
{
    if 0 <= i < b.len() && !parts_words(b[i]) {
        word_stop(b, i + 1)
    } else {
        i
    }
}

/// Every byte stands for a character of ASCII.
pub open spec fn all_ascii(s: Seq<u8>) -> bool {
    forall|k: int| 0 <= k < s.len() ==> #[trigger] s[k] < 128
}

/// The level that a word stands for. The whole word has to be the name of a level.
pub open spec fn word_level(word: Seq<u8>) -> Option<Level> {
    if word == encode_utf8("CRITICAL"@) || word == encode_utf8("FATAL"@) || word == encode_utf8(
        "SEVERE"@,
    ) || word == encode_utf8("ERROR"@) {
        Some(Level::Error)
    } else if word == encode_utf8("WARNING"@) || word == encode_utf8("WARN"@) {
        Some(Level::Warn)
    } else if word == encode_utf8("NOTICE"@) || word == encode_utf8("INFO"@) {
        Some(Level::Info)
    } else if word == encode_utf8("DEBUG"@) || word == encode_utf8("TRACE"@) {
        Some(Level::Debug)
    } else {
        None
    }
}

/// The first name of a level among the next `left` words from `i` on. A word that is not ASCII
/// ends the search: the message has begun.
pub open spec fn level_from(b: Seq<u8>, i: int, left: nat) -> Option<(Span, Level)>
    decreases left,
{
    let s = word_start(b, i);
    let e = word_stop(b, s);
    if left == 0 || s >= b.len() || !all_ascii(b.subrange(s, e)) {
        None
    } else {
        match word_level(b.subrange(s, e)) {
            Some(level) => Some((Span { start: s as usize, end: e as usize }, level)),
            None => level_from(b, e, (left - 1) as nat),
        }
    }
}

fn same_bytes(a: &[u8], b: &[u8]) -> (r: bool)
    ensures
        r == (a@ == b@),
{
    if a.len() != b.len() {
        return false;
    }
    let mut i: usize = 0;
    while i < a.len()
        invariant
            i <= a@.len(),
            a@.len() == b@.len(),
            forall|k: int| 0 <= k < i ==> a@[k] == b@[k],
        decreases a@.len() - i,
    {
        if a[i] != b[i] {
            return false;
        }
        i += 1;
    }
    assert(a@ =~= b@);
    true
}

fn level_of_word(word: &[u8]) -> (r: Option<Level>)
    ensures
        r == word_level(word@),
{
    if same_bytes(word, "CRITICAL".as_bytes()) || same_bytes(word, "FATAL".as_bytes())
        || same_bytes(word, "SEVERE".as_bytes()) || same_bytes(word, "ERROR".as_bytes()) {
        Some(Level::Error)
    } else if same_bytes(word, "WARNING".as_bytes()) || same_bytes(word, "WARN".as_bytes()) {
        Some(Level::Warn)
    } else if same_bytes(word, "NOTICE".as_bytes()) || same_bytes(word, "INFO".as_bytes()) {
        Some(Level::Info)
    } else if same_bytes(word, "DEBUG".as_bytes()) || same_bytes(word, "TRACE".as_bytes()) {
        Some(Level::Debug)
    } else {
        None
    }
}

/// Looks for the level among the first words from `start` on.
pub fn find_level(b: &[u8], start: usize) -> (r: Option<(Span, Level)>)
    ensures
        r == level_from(b@, start as int, LEVEL_MAX_TOKENS as nat),
        r matches Some(found) ==> start <= found.0.start < found.0.end <= b@.len() && all_ascii(
            b@.subrange(found.0.start as int, found.0.end as int),
        ),
{
    let n: usize = b.len();
    if start > n {
        return None;
    }
    let mut i: usize = start;
    let mut left: usize = LEVEL_MAX_TOKENS;
    while left > 0
        invariant
            n == b@.len(),
            start <= i <= n,
            level_from(b@, start as int, LEVEL_MAX_TOKENS as nat) == level_from(
                b@,
                i as int,
                left as nat,
            ),
        decreases left,
    {
        let mut s: usize = i;
        while s < n && is_separator(b[s])
            invariant
                n == b@.len(),
                i <= s <= n,
                word_start(b@, i as int) == word_start(b@, s as int),
            decreases n - s,
        {
            s += 1;
        }
        if s >= n {
            return None;
        }
        let mut e: usize = s;
        let mut ascii: bool = true;
        while e < n && !is_separator(b[e])
            invariant
                n == b@.len(),
                s <= e <= n,
                word_stop(b@, s as int) == word_stop(b@, e as int),
                ascii == all_ascii(b@.subrange(s as int, e as int)),
            decreases n - e,
        {
            let ghost before = b@.subrange(s as int, e as int);
            if b[e] >= 128 {
                ascii = false;
            }
            e += 1;
            proof {
                let now = b@.subrange(s as int, e as int);
                assert(now =~= before.push(b@[e - 1]));
                assert(now[e - 1 - s] == b@[e - 1]);
                if all_ascii(now) {
                    assert forall|k: int| 0 <= k < before.len() implies #[trigger] before[k]
                        < 128 by {
                        assert(now[k] < 128);
                    }
                }
            }
        }
        if !ascii {
            return None;
        }
        let word: &[u8] = &b[s..e];
        if let Some(level) = level_of_word(word) {
            return Some((Span { start: s, end: e }, level));
        }
        i = e;
        left -= 1;
    }
    None
}

/// The position behind the brackets and blanks at the beginning of a line.
pub open spec fn lead_stop(b: Seq<u8>, i: int) -> int
    decreases b.len() - i,
{
    if 0 <= i < b.len() && (b[i] == 91 || b[i] == 32) {
        lead_stop(b, i + 1)
    } else {
        i
    }
}

/// What stands at the beginning of a line.
pub open spec fn line_head(b: Seq<u8>) -> LineHead {
    let i = lead_stop(b, 0);
    match timestamp(b, i) {
        Some((date_end, end)) => LineHead {
            date: Some(Span { start: i as usize, end: date_end }),
            time: Some(Span { start: (date_end + 1) as usize, end }),
            level: level_from(b, end as int, LEVEL_MAX_TOKENS as nat),
        },
        None => LineHead {
            date: None,
            time: None,
            level: level_from(b, i, LEVEL_MAX_TOKENS as nat),
        },
    }
}

/// Finds the date, the time and the level at the beginning of a line. The date and the time
/// come first, the level behind them.
pub fn parse_line_head(line: &str) -> (r: LineHead)
    ensures
        r == line_head(line.spec_bytes()),
{
    let b: &[u8] = line.as_bytes();
    let n: usize = b.len();
    let mut i: usize = 0;
    while i < n && (b[i] == 91 || b[i] == 32)
        invariant
            n == b@.len(),
            i <= n,
            lead_stop(b@, 0) == lead_stop(b@, i as int),
        decreases n - i,
    {
        i += 1;
    }
    match scan_timestamp(b, i) {
        Some((date_end, end)) => LineHead {
            date: Some(Span { start: i, end: date_end }),
            time: Some(Span { start: date_end + 1, end }),
            level: find_level(b, end),
        },
        None => LineHead { date: None, time: None, level: find_level(b, i) },
    }
}

/// The span lies in the text, and begins and ends between two characters.
pub open spec fn span_fits(span: Span, b: Seq<u8>) -> bool {
    &&& span.start <= span.end <= b.len()
    &&& is_char_boundary(b, span.start as int)
    &&& is_char_boundary(b, span.end as int)
}

/// All that was found lies in the text, and begins and ends between two characters.
pub open spec fn head_fits(head: LineHead, b: Seq<u8>) -> bool {
    &&& head.date matches Some(d) ==> span_fits(d, b)
    &&& head.time matches Some(t) ==> span_fits(t, b)
    &&& head.level matches Some(found) ==> span_fits(found.0, b)
}

proof fn lemma_digits_stop(b: Seq<u8>, i: int)
    requires
        0 <= i <= b.len(),
    ensures
        i <= digits_stop(b, i) <= b.len(),
        forall|k: int| i <= k < digits_stop(b, i) ==> digit_byte(#[trigger] b[k]),
    decreases b.len() - i,
{
    if i < b.len() && digit_byte(b[i]) {
        lemma_digits_stop(b, i + 1);
    }
}

proof fn lemma_word(b: Seq<u8>, i: int)
    requires
        0 <= i <= b.len(),
    ensures
        i <= word_start(b, i) <= b.len(),
        i <= word_stop(b, i) <= b.len(),
        i < b.len() && !parts_words(b[i]) ==> i < word_stop(b, i),
        word_start(b, i) < b.len() ==> !parts_words(b[word_start(b, i)]),
    decreases b.len() - i,
{
    if i < b.len() {
        lemma_word(b, i + 1);
    }
}

proof fn lemma_level_in_place(b: Seq<u8>, i: int, left: nat)
    requires
        valid_utf8(b),
        0 <= i <= b.len() <= usize::MAX,
    ensures
        level_from(b, i, left) matches Some(found) ==> {
            &&& i <= found.0.start < found.0.end
            &&& span_fits(found.0, b)
        },
    decreases left,
{
    let s = word_start(b, i);
    lemma_word(b, i);
    lemma_word(b, s);
    let e = word_stop(b, s);
    if left > 0 && s < b.len() && all_ascii(b.subrange(s, e)) {
        assert(b.subrange(s, e)[0] == b[s]);
        assert(b.subrange(s, e)[e - 1 - s] == b[e - 1]);
        if word_level(b.subrange(s, e)) is Some {
            boundaries::lemma_before_ascii(b, s);
            boundaries::lemma_after_ascii(b, e);
        } else {
            lemma_level_in_place(b, e, (left - 1) as nat);
        }
    }
}

proof fn lemma_lead_stop(b: Seq<u8>, i: int)
    requires
        0 <= i <= b.len(),
    ensures
        i <= lead_stop(b, i) <= b.len(),
    decreases b.len() - i,
{
    if i < b.len() {
        lemma_lead_stop(b, i + 1);
    }
}

/// What is found at the beginning of a line lies in the line, none of it in the middle of a
/// character, with the date before the time and the level behind both.
pub proof fn law_head_in_place(b: Seq<u8>)
    requires
        valid_utf8(b),
        b.len() <= usize::MAX,
    ensures
        ({
            let head = line_head(b);
            &&& head_fits(head, b)
            &&& head.date is Some <==> head.time is Some
            &&& head.date matches Some(d) ==> head.time matches Some(t) && d.end - d.start == 10
                && t.start == d.end + 1 && t.end - t.start >= 8
            &&& (head.time matches Some(t) && head.level matches Some(found)) ==> (head.time->0).end
                <= (head.level->0).0.start
        }),
{
    let i = lead_stop(b, 0);
    lemma_lead_stop(b, 0);
    match timestamp(b, i) {
        Some((date_end, end)) => {
            let j = i + 19;
            if j < b.len() {
                lemma_digits_stop(b, j + 1);
            }
            assert(digit_byte(b[i + 0]));
            assert(digit_byte(b[i + 11 + 0]));
            assert(digit_byte(b[i + 11 + 7]));
            boundaries::lemma_before_ascii(b, i);
            boundaries::lemma_before_ascii(b, i + 10);
            boundaries::lemma_before_ascii(b, i + 11);
            if end > j {
                assert(digit_byte(b[end - 1]));
            }
            boundaries::lemma_after_ascii(b, end as int);
            lemma_level_in_place(b, end as int, LEVEL_MAX_TOKENS as nat);
        },
        None => {
            lemma_level_in_place(b, i, LEVEL_MAX_TOKENS as nat);
        },
    }
}

/// How many words begin from `i` on and before `to`.
pub open spec fn words_begun(b: Seq<u8>, i: int, to: int) -> nat
    decreases to - i,
{
    if to <= i {
        0
    } else {
        words_begun(b, i, to - 1) + (if !parts_words(b[to - 1]) && (to - 1 == i || parts_words(
            b[to - 2],
        )) {
            1nat
        } else {
            0
        })
    }
}

/// Where the search for the level begins: behind the date and the time, if there are any.
pub open spec fn level_search_start(b: Seq<u8>) -> int {
    match line_head(b).time {
        Some(t) => t.end as int,
        None => lead_stop(b, 0),
    }
}

/// The span is a whole word among the first `left` words from `i` on, and up to its end there is
/// nothing but ASCII.
pub open spec fn early_word(b: Seq<u8>, i: int, left: nat, span: Span) -> bool {
    &&& i <= span.start < span.end <= b.len()
    &&& span.start == i || parts_words(b[span.start - 1])
    &&& span.end == b.len() || parts_words(b[span.end as int])
    &&& forall|k: int| span.start <= k < span.end ==> !parts_words(#[trigger] b[k])
    &&& words_begun(b, i, span.start as int) < left
    &&& forall|k: int| i <= k < span.end ==> #[trigger] b[k] < 128
}

proof fn lemma_word_bytes(b: Seq<u8>, i: int)
    requires
        0 <= i <= b.len(),
    ensures
        forall|k: int| i <= k < word_start(b, i) ==> parts_words(#[trigger] b[k]),
        forall|k: int| i <= k < word_stop(b, i) ==> !parts_words(#[trigger] b[k]),
        word_stop(b, i) < b.len() ==> parts_words(b[word_stop(b, i)]),
    decreases b.len() - i,
{
    if i < b.len() {
        lemma_word_bytes(b, i + 1);
    }
}

proof fn lemma_no_word_begun(b: Seq<u8>, i: int, to: int)
    requires
        0 <= i <= to <= b.len(),
        forall|k: int| i <= k < to ==> parts_words(#[trigger] b[k]),
    ensures
        words_begun(b, i, to) == 0,
    decreases to - i,
{
    if i < to {
        lemma_no_word_begun(b, i, to - 1);
    }
}

proof fn lemma_one_word_begun(b: Seq<u8>, i: int, s: int, to: int)
    requires
        0 <= i <= s < to <= b.len(),
        forall|k: int| i <= k < s ==> parts_words(#[trigger] b[k]),
        forall|k: int| s <= k < to ==> !parts_words(#[trigger] b[k]),
    ensures
        words_begun(b, i, to) == 1,
    decreases to - s,
{
    if s < to - 1 {
        lemma_one_word_begun(b, i, s, to - 1);
    } else {
        lemma_no_word_begun(b, i, s);
    }
}

proof fn lemma_more_words_begun(b: Seq<u8>, i: int, e: int, to: int)
    requires
        0 <= i < e <= to <= b.len(),
        e < to ==> parts_words(b[e]),
    ensures
        words_begun(b, i, to) == words_begun(b, i, e) + words_begun(b, e, to),
    decreases to - e,
{
    if e < to {
        lemma_more_words_begun(b, i, e, to - 1);
    }
}

proof fn lemma_level_is_early(b: Seq<u8>, i: int, left: nat)
    requires
        0 <= i <= b.len() <= usize::MAX,
    ensures
        level_from(b, i, left) matches Some(found) ==> {
            &&& early_word(b, i, left, found.0)
            &&& word_level(b.subrange(found.0.start as int, found.0.end as int)) == Some(found.1)
        },
    decreases left,
{
    let s = word_start(b, i);
    lemma_word(b, i);
    lemma_word(b, s);
    lemma_word_bytes(b, i);
    lemma_word_bytes(b, s);
    let e = word_stop(b, s);
    if left > 0 && s < b.len() && all_ascii(b.subrange(s, e)) {
        assert forall|k: int| i <= k < e implies #[trigger] b[k] < 128 by {
            if k >= s {
                assert(b.subrange(s, e)[k - s] == b[k]);
            } else {
                assert(parts_words(b[k]));
            }
        }
        if word_level(b.subrange(s, e)) is Some {
            lemma_no_word_begun(b, i, s);
        } else {
            lemma_level_is_early(b, e, (left - 1) as nat);
            if let Some(found) = level_from(b, e, (left - 1) as nat) {
                let start = found.0.start as int;
                assert(!parts_words(b[start]));
                lemma_one_word_begun(b, i, s, e);
                lemma_more_words_begun(b, i, e, start);
            }
        }
    }
}

/// The level is a whole word with the name of a level, one of the first few behind the date and
/// the time, and nothing but ASCII stands before it: what the message says is never taken for
/// the level.
pub proof fn law_level_is_an_early_word(b: Seq<u8>)
    requires
        b.len() <= usize::MAX,
    ensures
        line_head(b).level matches Some(found) ==> {
            &&& early_word(b, level_search_start(b), LEVEL_MAX_TOKENS as nat, found.0)
            &&& word_level(b.subrange(found.0.start as int, found.0.end as int)) == Some(found.1)
        },
{
    let i = lead_stop(b, 0);
    lemma_lead_stop(b, 0);
    match timestamp(b, i) {
        Some((date_end, end)) => {
            if i + 19 < b.len() {
                lemma_digits_stop(b, i + 20);
            }
            lemma_level_is_early(b, end as int, LEVEL_MAX_TOKENS as nat);
        },
        None => {
            lemma_level_is_early(b, i, LEVEL_MAX_TOKENS as nat);
        },
    }
}

/// `b` has a digit at `k`.
pub open spec fn digit_in(b: Seq<u8>, k: int) -> bool {
    0x30 <= b[k] <= 0x39
}

/// A date and a time are found where they are written `dddd-dd-dd dd:dd:dd`, with dashes or with
/// slashes, and with a blank or a `T` between the two; and only there.
pub proof fn law_timestamp_is_written_so(b: Seq<u8>, s: int)
    requires
        0 <= s <= b.len() <= usize::MAX,
    ensures
        timestamp(b, s) is Some <==> {
            &&& s + 19 <= b.len()
            &&& digit_in(b, s) && digit_in(b, s + 1) && digit_in(b, s + 2) && digit_in(b, s + 3)
            &&& b[s + 4] == 0x2d && b[s + 7] == 0x2d || b[s + 4] == 0x2f && b[s + 7] == 0x2f
            &&& digit_in(b, s + 5) && digit_in(b, s + 6)
            &&& digit_in(b, s + 8) && digit_in(b, s + 9)
            &&& b[s + 10] == 0x20 || b[s + 10] == 0x54
            &&& digit_in(b, s + 11) && digit_in(b, s + 12)
            &&& b[s + 13] == 0x3a && b[s + 16] == 0x3a
            &&& digit_in(b, s + 14) && digit_in(b, s + 15)
            &&& digit_in(b, s + 17) && digit_in(b, s + 18)
        },
        timestamp(b, s) is Some ==> (timestamp(b, s)->0).0 == s + 10 && s + 19 <= (timestamp(
            b,
            s,
        )->0).1 <= b.len(),
{
    assert(s + 10 <= b.len() ==> b[s + 0] == b[s]);
    if timestamp(b, s) is Some {
        let t = s + 11;
        assert(digit_byte(b[s + 0]) && digit_byte(b[s + 1]) && digit_byte(b[s + 2]) && digit_byte(
            b[s + 3],
        ));
        assert(digit_byte(b[s + 5]) && digit_byte(b[s + 6]) && digit_byte(b[s + 8]) && digit_byte(
            b[s + 9],
        ));
        assert(digit_byte(b[t + 0]) && digit_byte(b[t + 1]) && digit_byte(b[t + 3]) && digit_byte(
            b[t + 4],
        ));
        assert(digit_byte(b[t + 6]) && digit_byte(b[t + 7]));
        if s + 19 < b.len() {
            lemma_digits_stop(b, s + 20);
        }
    }
}

/// A fraction of a second belongs to the time: a dot or a comma and every digit behind it. A dot
/// or a comma without a digit does not.
pub proof fn law_fraction_belongs_to_the_time(b: Seq<u8>, s: int)
    requires
        0 <= s <= b.len() <= usize::MAX,
        timestamp(b, s) is Some,
    ensures
        ({
            let end = (timestamp(b, s)->0).1 as int;
            let fraction = s + 20 < b.len() && (b[s + 19] == 0x2e || b[s + 19] == 0x2c)
                && digit_in(b, s + 20);
            &&& fraction <==> end > s + 19
            &&& !fraction ==> end == s + 19
            &&& fraction ==> end > s + 20 && (forall|k: int|
                s + 20 <= k < end ==> #[trigger] digit_in(b, k)) && (end < b.len() ==> !digit_in(
                b,
                end,
            ))
        }),
{
    if s + 19 < b.len() {
        lemma_digits_stop(b, s + 20);
        lemma_digits_end(b, s + 20);
        assert forall|k: int| s + 20 <= k < digits_stop(b, s + 20) implies #[trigger] digit_in(
            b,
            k,
        ) by {
            assert(digit_byte(b[k]));
        }
    }
}

proof fn lemma_digits_end(b: Seq<u8>, i: int)
    requires
        0 <= i <= b.len(),
    ensures
        digits_stop(b, i) < b.len() ==> !digit_byte(b[digits_stop(b, i)]),
        i < b.len() && digit_byte(b[i]) ==> digits_stop(b, i) > i,
    decreases b.len() - i,
{
    if i < b.len() && digit_byte(b[i]) {
        lemma_digits_end(b, i + 1);
        lemma_digits_stop(b, i + 1);
    }
}

/// `i` is the first position of `b` that holds neither a blank nor an opening bracket.
pub open spec fn begins_at(b: Seq<u8>, i: int) -> bool {
    &&& 0 <= i <= b.len()
    &&& forall|k: int| 0 <= k < i ==> #[trigger] b[k] == 0x5b || b[k] == 0x20
    &&& i < b.len() ==> b[i] != 0x5b && b[i] != 0x20
}

proof fn lemma_lead_is(b: Seq<u8>, from: int, i: int)
    requires
        0 <= from <= i,
        begins_at(b, i),
    ensures
        lead_stop(b, from) == i,
    decreases i - from,
{
    if from < i {
        assert(b[from] == 0x5b || b[from] == 0x20);
        lemma_lead_is(b, from + 1, i);
    }
}

/// The date stands at the beginning of the line, behind blanks and opening brackets, and the
/// time behind it. A line that does not begin so has neither.
pub proof fn law_date_and_time_begin_the_line(b: Seq<u8>, i: int)
    requires
        b.len() <= usize::MAX,
        begins_at(b, i),
    ensures
        timestamp(b, i) is Some ==> line_head(b).date == Some(
            Span { start: i as usize, end: (i + 10) as usize },
        ) && line_head(b).time == Some(
            Span { start: (i + 11) as usize, end: (timestamp(b, i)->0).1 },
        ),
        timestamp(b, i) is None ==> line_head(b).date is None && line_head(b).time is None,
{
    lemma_lead_is(b, 0, i);
    law_timestamp_is_written_so(b, i);
}

/// The names of the levels. Nothing else is one, neither in another case nor as a part of a word.
pub proof fn law_names_of_levels(word: Seq<u8>)
    ensures
        word_level(word) == Some(Level::Error) <==> word == seq![
            0x43u8,
            0x52,
            0x49,
            0x54,
            0x49,
            0x43,
            0x41,
            0x4c,
        ] || word == seq![0x46u8, 0x41, 0x54, 0x41, 0x4c] || word == seq![
            0x53u8,
            0x45,
            0x56,
            0x45,
            0x52,
            0x45,
        ] || word == seq![0x45u8, 0x52, 0x52, 0x4f, 0x52],
        word_level(word) == Some(Level::Warn) <==> word == seq![
            0x57u8,
            0x41,
            0x52,
            0x4e,
            0x49,
            0x4e,
            0x47,
        ] || word == seq![0x57u8, 0x41, 0x52, 0x4e],
        word_level(word) == Some(Level::Info) <==> word == seq![
            0x4eu8,
            0x4f,
            0x54,
            0x49,
            0x43,
            0x45,
        ] || word == seq![0x49u8, 0x4e, 0x46, 0x4f],
        word_level(word) == Some(Level::Debug) <==> word == seq![0x44u8, 0x45, 0x42, 0x55, 0x47]
            || word == seq![0x54u8, 0x52, 0x41, 0x43, 0x45],
{
    reveal_strlit("CRITICAL");
    reveal_strlit("FATAL");
    reveal_strlit("SEVERE");
    reveal_strlit("ERROR");
    reveal_strlit("WARNING");
    reveal_strlit("WARN");
    reveal_strlit("NOTICE");
    reveal_strlit("INFO");
    reveal_strlit("DEBUG");
    reveal_strlit("TRACE");
    lemma_ascii_bytes("CRITICAL"@, seq![0x43u8, 0x52, 0x49, 0x54, 0x49, 0x43, 0x41, 0x4c]);
    lemma_ascii_bytes("FATAL"@, seq![0x46u8, 0x41, 0x54, 0x41, 0x4c]);
    lemma_ascii_bytes("SEVERE"@, seq![0x53u8, 0x45, 0x56, 0x45, 0x52, 0x45]);
    lemma_ascii_bytes("ERROR"@, seq![0x45u8, 0x52, 0x52, 0x4f, 0x52]);
    lemma_ascii_bytes("WARNING"@, seq![0x57u8, 0x41, 0x52, 0x4e, 0x49, 0x4e, 0x47]);
    lemma_ascii_bytes("WARN"@, seq![0x57u8, 0x41, 0x52, 0x4e]);
    lemma_ascii_bytes("NOTICE"@, seq![0x4eu8, 0x4f, 0x54, 0x49, 0x43, 0x45]);
    lemma_ascii_bytes("INFO"@, seq![0x49u8, 0x4e, 0x46, 0x4f]);
    lemma_ascii_bytes("DEBUG"@, seq![0x44u8, 0x45, 0x42, 0x55, 0x47]);
    lemma_ascii_bytes("TRACE"@, seq![0x54u8, 0x52, 0x41, 0x43, 0x45]);
}

proof fn lemma_ascii_bytes(chars: Seq<char>, bytes: Seq<u8>)
    requires
        bytes.len() == chars.len(),
        forall|i: int|
            0 <= i < chars.len() ==> '\0' <= chars[i] <= '\u{7f}' && chars[i] as u8
                == #[trigger] bytes[i],
    ensures
        encode_utf8(chars) == bytes,
{
    assert forall|i: int| 0 <= i < chars.len() implies '\0' <= #[trigger] chars[i]
        <= '\u{7f}' by {
        assert(chars[i] as u8 == bytes[i]);
    }
    is_ascii_chars_encode_utf8(chars);
    assert(encode_utf8(chars) =~= bytes);
}

/// Words are parted by white space of ASCII, by square brackets and by bars, and by nothing else.
pub proof fn law_what_parts_words(c: u8)
    ensures
        parts_words(c) <==> c == 0x20 || 0x09 <= c <= 0x0a || 0x0c <= c <= 0x0d || c == 0x5b || c
            == 0x5d || c == 0x7c,
{
}

proof fn lemma_level_is_found(b: Seq<u8>, i: int, left: nat, span: Span)
    requires
        0 <= i <= b.len() <= usize::MAX,
        early_word(b, i, left, span),
        word_level(b.subrange(span.start as int, span.end as int)) is Some,
    ensures
        level_from(b, i, left) is Some,
        (level_from(b, i, left)->0).0.start <= span.start,
    decreases left,
{
    let s = word_start(b, i);
    lemma_word(b, i);
    lemma_word(b, s);
    lemma_word_bytes(b, i);
    lemma_word_bytes(b, s);
    let e = word_stop(b, s);
    assert(!parts_words(b[span.start as int]));
    assert(s <= span.start) by {
        if s > span.start {
            assert(parts_words(b[span.start as int]));
        }
    }
    if span.start == s {
        assert(e == span.end) by {
            if e < span.end {
                assert(!parts_words(b[e]));
            } else if span.end < e {
                assert(!parts_words(b[span.end as int]));
            }
        }
        assert forall|k: int| 0 <= k < b.subrange(s, e).len() implies #[trigger] b.subrange(
            s,
            e,
        )[k] < 128 by {
            assert(b[s + k] < 128);
        }
    } else {
        assert(e <= span.start - 1) by {
            if e > span.start - 1 {
                assert(span.start > i);
                assert(parts_words(b[span.start - 1]));
            }
        }
        lemma_one_word_begun(b, i, s, e);
        lemma_more_words_begun(b, i, e, span.start as int);
        assert forall|k: int| 0 <= k < b.subrange(s, e).len() implies #[trigger] b.subrange(
            s,
            e,
        )[k] < 128 by {
            assert(b[s + k] < 128);
        }
        if word_level(b.subrange(s, e)) is None {
            assert(words_begun(b, e, span.start as int) < left - 1);
            lemma_level_is_found(b, e, (left - 1) as nat, span);
        }
    }
}

/// The name of a level among the first three words behind the date and the time is found, if
/// nothing but ASCII stands before it; and of several the first.
pub proof fn law_early_level_is_found(b: Seq<u8>, span: Span)
    requires
        b.len() <= usize::MAX,
        early_word(b, level_search_start(b), 3, span),
        word_level(b.subrange(span.start as int, span.end as int)) is Some,
    ensures
        line_head(b).level is Some,
        (line_head(b).level->0).0.start <= span.start,
{
    let i = lead_stop(b, 0);
    lemma_lead_stop(b, 0);
    law_timestamp_is_written_so(b, i);
    lemma_level_is_found(b, level_search_start(b), 3, span);
}

/// No word behind the third one is taken for the level.
pub proof fn law_late_words_are_no_level(b: Seq<u8>)
    requires
        b.len() <= usize::MAX,
    ensures
        line_head(b).level is Some ==> words_begun(
            b,
            level_search_start(b),
            (line_head(b).level->0).0.start as int,
        ) < 3,
{
    law_level_is_an_early_word(b);
}

} // verus!
