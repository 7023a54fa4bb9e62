//! Marks: lines worth coming back to.
//!
//! A mark is anchored at the byte at which its line starts, and at the beginning of the line's
//! text. Line numbers change when a log is cut off or rotated; the text tells whether the
//! anchor still holds, and a mark that no longer holds is never jumped to.
//!
//! Marks are kept next to the log, in a file with one JSON object per line.

use crate::outside;
use crate::paths;
use crate::startup::Platform;
use crate::text;
use vstd::prelude::*;
use vstd::string::*;

verus! {

/// How many characters of a line identify it.
pub const HEAD_CHARS: usize = 48;

/// A marked line.
#[derive(Debug, PartialEq, Eq)]
pub struct Bookmark {
    /// Where the line starts.
    pub offset: u64,
    /// The number the line had when it was marked. It is shown, and may be out of date.
    pub line: u32,
    /// The beginning of the line's text.
    pub head: String,
    pub note: String,
    /// When the line was marked, in seconds since 1970.
    pub at: u64,
}

/// The value of a [`Bookmark`].
#[verifier::ext_equal]
pub struct Entry {
    pub offset: u64,
    pub line: u32,
    pub head: Seq<char>,
    pub note: Seq<char>,
    pub at: u64,
}

impl View for Bookmark {
    type V = Entry;

    open spec fn view(&self) -> Entry {
        Entry {
            offset: self.offset,
            line: self.line,
            head: self.head@,
            note: self.note@,
            at: self.at,
        }
    }
}

impl Clone for Bookmark {
    fn clone(&self) -> (r: Bookmark)
        ensures
            r@ == self@,
    {
        Bookmark {
            offset: self.offset,
            line: self.line,
            head: self.head.clone(),
            note: self.note.clone(),
            at: self.at,
        }
    }
}

/// The values of a row of marks.
pub open spec fn marks_of(items: Seq<Bookmark>) -> Seq<Entry> {
    items.map_values(|b: Bookmark| b@)
}

/// The characters that identify a line: the first ones of its trimmed text.
pub open spec fn head(line: Seq<char>) -> Seq<char> {
    let t = text::trim(line);
    if t.len() > HEAD_CHARS {
        t.take(HEAD_CHARS as int)
    } else {
        t
    }
}

impl Entry {
    /// The mark for a line, made at the time `at`.
    pub open spec fn made(offset: usize, line: usize, line_text: Seq<char>, at: u64) -> Entry {
        Entry {
            offset: offset as u64,
            line: line as u32,
            head: head(line_text),
            note: Seq::empty(),
            at,
        }
    }

    /// The line still begins as it did when it was marked. A line without text has nothing to
    /// go by.
    pub open spec fn holds_for(self, line: Seq<char>) -> bool {
        self.head.len() == 0 || text::starts_with(text::trim(line), self.head)
    }
}

/// The time from `at` to `now` in words.
pub open spec fn time_in_words(at: u64, now: u64) -> Seq<char> {
    let s = (now - at) as nat;
    if now < at {
        "更早"@
    } else if s < 60 {
        "刚刚"@
    } else if s < 3600 {
        text::decimal(s / 60) + " 分钟前"@
    } else if s < 86_400 {
        text::decimal(s / 3600) + " 小时前"@
    } else if s < 2_592_000 {
        text::decimal(s / 86_400) + " 天前"@
    } else {
        "更早"@
    }
}

impl Bookmark {
    /// Marks a line. Its head is taken from its text.
    pub fn new(offset: usize, line: usize, line_text: &str, at: u64) -> (r: Bookmark)
        ensures
            r@ == Entry::made(offset, line, line_text@, at),
    {
        Bookmark {
            offset: offset as u64,
            line: #[verifier::truncate]
            (line as u32),
            head: head_of(line_text),
            note: String::new(),
            at,
        }
    }

    /// Whether the line is still the one that was marked: it begins with the head. What comes
    /// behind the head may change, so that a line may be finished after it was marked.
    pub fn matches_head(&self, current_line: &str) -> (r: bool)
        ensures
            r == self@.holds_for(current_line@),
    {
        if self.head.as_str().is_empty() {
            return true;
        }
        let line = text::chars_of(current_line);
        let head = text::chars_of(self.head.as_str());
        let (from, to) = text::trimmed_bounds(line.as_slice());
        let trimmed: &[char] = &line[from..to];
        let r = text::is_at(trimmed, head.as_slice(), 0);
        proof {
            if head@.len() <= trimmed@.len() {
                assert(trimmed@.subrange(0, head@.len() as int) =~= trimmed@.take(
                    head@.len() as int,
                ));
            }
        }
        r
    }

    /// When the line was marked, in words.
    pub fn relative_time(&self, now: u64) -> (r: String)
        ensures
            r@ == time_in_words(self.at, now),
    {
        relative_time(self.at, now)
    }
}

/// The characters that identify a line. It is cut between characters, so that none is cut in
/// two.
pub fn head_of(line_text: &str) -> (r: String)
    ensures
        r@ == head(line_text@),
{
    let line = text::chars_of(line_text);
    let (from, to) = text::trimmed_bounds(line.as_slice());
    let end: usize = if to - from > HEAD_CHARS {
        from + HEAD_CHARS
    } else {
        to
    };
    let r = text::string_of(line.as_slice(), from, end);
    assert(r@ =~= head(line_text@));
    r
}

/// The time from `at` to `now` in words. A time that lies ahead, or long ago, is only said to
/// be earlier.
pub fn relative_time(at: u64, now: u64) -> (r: String)
    ensures
        r@ == time_in_words(at, now),
{
    if now < at {
        return "更早".to_owned();
    }
    let s: u64 = now - at;
    if s < 60 {
        return "刚刚".to_owned();
    }
    let mut r = String::new();
    if s < 3600 {
        text::push_decimal(&mut r, s / 60);
        r.push_str(" 分钟前");
    } else if s < 86_400 {
        text::push_decimal(&mut r, s / 3600);
        r.push_str(" 小时前");
    } else if s < 2_592_000 {
        text::push_decimal(&mut r, s / 86_400);
        r.push_str(" 天前");
    } else {
        r.push_str("更早");
    }
    assert(r@ =~= time_in_words(at, now));
    r
}

/// The digit for a value below 16.
pub open spec fn hex_digit(d: nat) -> char {
    if d < 10 {
        text::digit(d)
    } else {
        ('a' as u32 + (d - 10)) as char
    }
}

/// How a character is written inside a JSON string.
pub open spec fn escape_char(c: char) -> Seq<char> {
    if c == '"' {
        seq!['\\', '"']
    } else if c == '\\' {
        seq!['\\', '\\']
    } else if c == '\n' {
        seq!['\\', 'n']
    } else if c == '\r' {
        seq!['\\', 'r']
    } else if c == '\t' {
        seq!['\\', 't']
    } else if (c as u32) < 0x20 {
        seq!['\\', 'u', '0', '0', hex_digit((c as u32 / 16) as nat), hex_digit((c as u32 % 16) as nat)]
    } else {
        seq![c]
    }
}

/// How a text is written inside a JSON string.
pub open spec fn escaped(s: Seq<char>) -> Seq<char>
    decreases s.len(),
{
    if s.len() == 0 {
        Seq::empty()
    } else {
        escaped(s.drop_last()) + escape_char(s.last())
    }
}

fn push_hex(out: &mut String, d: u8)
    requires
        d < 16,
    ensures
        final(out)@ == old(out)@.push(hex_digit(d as nat)),
{
    let c: char = if d < 10 {
        (48u8 + d) as char
    } else {
        (87u8 + d) as char
    };
    out.push(c);
}

/// Appends a text as it is written inside a JSON string.
pub fn escape_json(out: &mut String, s: &str)
    ensures
        final(out)@ == old(out)@ + escaped(s@),
{
    let chars = text::chars_of(s);
    let mut i: usize = 0;
    assert(out@ =~= old(out)@ + escaped(chars@.take(0)));
    while i < chars.len()
        invariant
            i <= chars@.len(),
            chars@ == s@,
            out@ == old(out)@ + escaped(chars@.take(i as int)),
        decreases chars@.len() - i,
    {
        let c: char = chars[i];
        let ghost before = out@;
        if c == '"' {
            out.push('\\');
            out.push('"');
        } else if c == '\\' {
            out.push('\\');
            out.push('\\');
        } else if c == '\n' {
            out.push('\\');
            out.push('n');
        } else if c == '\r' {
            out.push('\\');
            out.push('r');
        } else if c == '\t' {
            out.push('\\');
            out.push('t');
        } else if (c as u32) < 0x20 {
            let code: u32 = c as u32;
            out.push('\\');
            out.push('u');
            out.push('0');
            out.push('0');
            push_hex(out, (code / 16) as u8);
            push_hex(out, (code % 16) as u8);
        } else {
            out.push(c);
        }
        i += 1;
        proof {
            assert(out@ =~= before + escape_char(c));
            assert(chars@.take(i as int).drop_last() =~= chars@.take(i - 1));
            assert(out@ =~= old(out)@ + escaped(chars@.take(i as int)));
        }
    }
    assert(chars@.take(i as int) =~= s@);
}

/// A mark as a JSON object.
#[verifier::opaque]
pub open spec fn json(m: Entry) -> Seq<char> {
    "{\"offset\":"@ + text::decimal(m.offset as nat) + ",\"line\":"@ + text::decimal(m.line as nat)
        + ",\"at\":"@ + text::decimal(m.at as nat) + ",\"head\":\""@ + escaped(m.head)
        + "\",\"note\":\""@ + escaped(m.note) + "\"}"@
}

/// Writes a mark as a JSON object.
pub fn to_json(b: &Bookmark) -> (r: String)
    ensures
        r@ == json(b@),
{
    let mut r = String::new();
    r.push_str("{\"offset\":");
    text::push_decimal(&mut r, b.offset);
    r.push_str(",\"line\":");
    text::push_decimal(&mut r, b.line as u64);
    r.push_str(",\"at\":");
    text::push_decimal(&mut r, b.at);
    r.push_str(",\"head\":\"");
    escape_json(&mut r, b.head.as_str());
    r.push_str("\",\"note\":\"");
    escape_json(&mut r, b.note.as_str());
    r.push_str("\"}");
    proof {
        reveal(json);
        assert(r@ =~= json(b@));
    }
    r
}

/// The key of a field as it stands in a JSON object.
pub open spec fn quoted(key: Seq<char>) -> Seq<char> {
    seq!['"'] + key + seq!['"']
}

/// What stands behind the colon of the field `key`, from the value on.
pub open spec fn field_value(line: Seq<char>, key: Seq<char>) -> Option<Seq<char>> {
    match text::find_from(line, quoted(key), 0) {
        Some(i) => {
            let rest = line.skip(i + key.len() + 2);
            let colon = text::index_from(rest, ':', 0);
            if colon < rest.len() {
                Some(text::trim_start(rest.skip(colon + 1)))
            } else {
                None
            }
        },
        None => None,
    }
}

/// How many digits stand at position `i` and behind it.
pub open spec fn digits_end(s: Seq<char>, i: int) -> int
    decreases s.len() - i,
{
    if 0 <= i < s.len() && text::is_digit(s[i]) {
        digits_end(s, i + 1)
    } else {
        i
    }
}

/// The number in the field `key`. There is none without digits, or if it is too large.
pub open spec fn number_in(line: Seq<char>, key: Seq<char>) -> Option<u64> {
    match field_value(line, key) {
        Some(value) => {
            let digits = value.take(digits_end(value, 0));
            if digits.len() > 0 && text::number(digits) <= u64::MAX {
                Some(text::number(digits) as u64)
            } else {
                None
            }
        },
        None => None,
    }
}

/// The character that a backslash before `c` stands for.
pub open spec fn unescaped(c: char) -> char {
    if c == 'n' {
        '\n'
    } else if c == 'r' {
        '\r'
    } else if c == 't' {
        '\t'
    } else {
        c
    }
}

/// The value of a digit that [`hex_digit`] gives.
pub open spec fn hex_value(c: char) -> int {
    if c <= '9' {
        c as int - 48
    } else {
        c as int - 87
    }
}

/// The character with the number that the last two digits of `\u00xx` stand for.
pub open spec fn coded_char(s: Seq<char>) -> char {
    (hex_value(s[4]) * 16 + hex_value(s[5])) as char
}

/// The text begins with a control character as it is written by its number.
#[verifier::opaque]
pub open spec fn is_coded(s: Seq<char>) -> bool {
    s.len() >= 6 && escape_char(coded_char(s)) == s.take(6)
}

/// The text up to the closing quote. There is none without a closing quote.
pub open spec fn read_string(s: Seq<char>) -> Option<Seq<char>>
    decreases s.len(),
{
    if s.len() == 0 {
        None
    } else if s[0] == '"' {
        Some(Seq::empty())
    } else if s[0] == '\\' {
        if s.len() < 2 {
            None
        } else if s.len() >= 6 && is_coded(s) {
            match read_string(s.skip(6)) {
                Some(rest) => Some(seq![coded_char(s)] + rest),
                None => None,
            }
        } else {
            match read_string(s.skip(2)) {
                Some(rest) => Some(seq![unescaped(s[1])] + rest),
                None => None,
            }
        }
    } else {
        match read_string(s.skip(1)) {
            Some(rest) => Some(seq![s[0]] + rest),
            None => None,
        }
    }
}

/// The text in the field `key`.
pub open spec fn string_in(line: Seq<char>, key: Seq<char>) -> Option<Seq<char>> {
    match field_value(line, key) {
        Some(value) => if value.len() > 0 && value[0] == '"' {
            read_string(value.skip(1))
        } else {
            None
        },
        None => None,
    }
}

/// The mark that a line stands for. Only the offset has to be there.
pub open spec fn mark_in(line: Seq<char>) -> Option<Entry> {
    match number_in(line, "offset"@) {
        Some(offset) => Some(
            Entry {
                offset,
                line: (match number_in(line, "line"@) {
                    Some(n) => n,
                    None => 0u64,
                }) as u32,
                head: match string_in(line, "head"@) {
                    Some(t) => t,
                    None => Seq::empty(),
                },
                note: match string_in(line, "note"@) {
                    Some(t) => t,
                    None => Seq::empty(),
                },
                at: match number_in(line, "at"@) {
                    Some(n) => n,
                    None => 0u64,
                },
            },
        ),
        None => None,
    }
}

/// Where the value of the field `key` begins.
fn find_value(line: &[char], key: &str) -> (r: Option<usize>)
    ensures
        match r {
            Some(i) => i <= line@.len() && field_value(line@, key@) == Some(line@.skip(i as int)),
            None => field_value(line@, key@) is None,
        },
{
    let mut pattern: Vec<char> = Vec::new();
    pattern.push('"');
    let mut name = text::chars_of(key);
    let n: usize = name.len();
    pattern.append(&mut name);
    pattern.push('"');
    assert(pattern@ =~= quoted(key@));
    match text::find(line, pattern.as_slice()) {
        Some(i) => {
            assert(i + pattern@.len() <= line.len());
            let start: usize = i + n + 2;
            let rest: &[char] = &line[start..line.len()];
            assert(rest@ =~= line@.skip(start as int));
            let colon = text::find_char(rest, ':', 0);
            if colon >= rest.len() {
                return None;
            }
            let tail: &[char] = &rest[colon + 1..rest.len()];
            assert(tail@ =~= rest@.skip(colon + 1));
            let skipped = text::after_white(tail, 0);
            let at: usize = start + colon + 1 + skipped;
            assert(line@.skip(at as int) =~= text::trim_start(tail@));
            Some(at)
        },
        None => None,
    }
}

/// The control character that is written by its number at position `i`.
fn coded_at(line: &[char], i: usize) -> (r: Option<char>)
    requires
        i < line@.len(),
        line@[i as int] == '\\',
    ensures
        match r {
            Some(c) => i + 6 <= line@.len() && is_coded(line@.skip(i as int)) && c == coded_char(
                line@.skip(i as int),
            ),
            None => !is_coded(line@.skip(i as int)),
        },
{
    reveal(is_coded);
    let ghost here = line@.skip(i as int);
    if line.len() - i < 6 {
        return None;
    }
    let high: char = line[i + 4];
    let low: char = line[i + 5];
    let digit: bool = '0' <= low && low <= '9';
    proof {
        let first = here.take(6);
        assert(first[1] == line@[i + 1] && first[2] == line@[i + 2] && first[3] == line@[i + 3]);
        assert(first[4] == high && first[5] == low);
        if is_coded(here) {
            let code = coded_char(here) as u32;
            let written = escape_char(coded_char(here));
            assert(written == first);
            assert(first.len() == 6);
            assert(code < 0x20);
            assert(written[1] == 'u' && written[2] == '0' && written[3] == '0');
            assert(written[4] == hex_digit((code / 16) as nat));
            assert(written[5] == hex_digit((code % 16) as nat));
        }
    }
    if line[i + 1] != 'u' || line[i + 2] != '0' || line[i + 3] != '0' || (high != '0' && high
        != '1') || !(digit || ('a' <= low && low <= 'f')) {
        return None;
    }
    let tens: u8 = if high == '1' {
        16
    } else {
        0
    };
    let ones: u8 = if digit {
        (low as u32 - 48) as u8
    } else {
        (low as u32 - 87) as u8
    };
    let c: char = (tens + ones) as char;
    if c == '\n' || c == '\r' || c == '\t' {
        return None;
    }
    assert(escape_char(c) =~= here.take(6));
    Some(c)
}

fn string_field(line: &[char], key: &str) -> (r: Option<String>)
    ensures
        match r {
            Some(t) => string_in(line@, key@) == Some(t@),
            None => string_in(line@, key@) is None,
        },
{
    let start = match find_value(line, key) {
        Some(i) => i,
        None => {
            return None;
        },
    };
    let ghost value = line@.skip(start as int);
    if start >= line.len() || line[start] != '"' {
        return None;
    }
    let ghost body = value.skip(1);
    let mut out = String::new();
    let mut i: usize = start + 1;
    let n: usize = line.len();
    proof {
        assert(body =~= line@.skip(i as int));
        match read_string(body) {
            Some(all) => {
                assert(all =~= out@ + all);
            },
            None => {},
        }
    }
    while i < n
        invariant
            n == line@.len(),
            i <= n,
            string_in(line@, key@) == read_string(body),
            read_string(body) == (match read_string(line@.skip(i as int)) {
                Some(rest) => Some(out@ + rest),
                None => None,
            }),
        decreases n - i,
    {
        let c: char = line[i];
        let ghost here = line@.skip(i as int);
        let ghost before = out@;
        if c == '\\' {
            if i + 1 >= n {
                return None;
            }
            match coded_at(line, i) {
                Some(meant) => {
                    out.push(meant);
                    i += 6;
                    proof {
                        assert(here.skip(6) =~= line@.skip(i as int));
                        if let Some(rest) = read_string(line@.skip(i as int)) {
                            assert(before + (seq![meant] + rest) =~= out@ + rest);
                        }
                    }
                },
                None => {
                    let next: char = line[i + 1];
                    let meant: char = if next == 'n' {
                        '\n'
                    } else if next == 'r' {
                        '\r'
                    } else if next == 't' {
                        '\t'
                    } else {
                        next
                    };
                    out.push(meant);
                    i += 2;
                    proof {
                        assert(here[1] == next);
                        assert(here.skip(2) =~= line@.skip(i as int));
                        if let Some(rest) = read_string(line@.skip(i as int)) {
                            assert(before + (seq![meant] + rest) =~= out@ + rest);
                        }
                    }
                },
            }
        } else if c == '"' {
            assert(out@ =~= out@ + Seq::<char>::empty());
            return Some(out);
        } else {
            out.push(c);
            i += 1;
            proof {
                assert(here.skip(1) =~= line@.skip(i as int));
                if let Some(rest) = read_string(line@.skip(i as int)) {
                    assert(before + (seq![c] + rest) =~= out@ + rest);
                }
            }
        }
    }
    None
}

proof fn lemma_number_grows(s: Seq<char>, i: int)
    requires
        0 <= i <= s.len(),
        forall|j: int| 0 <= j < s.len() ==> text::is_digit(#[trigger] s[j]),
    ensures
        text::number(s.take(i)) <= text::number(s),
    decreases s.len() - i,
{
    if i < s.len() {
        lemma_number_grows(s, i + 1);
        assert(s.take(i + 1).drop_last() =~= s.take(i));
        assert(s.take(i + 1).last() == s[i]);
    } else {
        assert(s.take(i) =~= s);
    }
}

proof fn lemma_digits_end(s: Seq<char>, i: int)
    requires
        0 <= i <= s.len(),
    ensures
        i <= digits_end(s, i) <= s.len(),
        forall|j: int| i <= j < digits_end(s, i) ==> text::is_digit(#[trigger] s[j]),
        digits_end(s, i) < s.len() ==> !text::is_digit(s[digits_end(s, i)]),
    decreases s.len() - i,
{
    if i < s.len() && text::is_digit(s[i]) {
        lemma_digits_end(s, i + 1);
    }
}

fn number_field(line: &[char], key: &str) -> (r: Option<u64>)
    ensures
        r == number_in(line@, key@),
{
    let start = match find_value(line, key) {
        Some(i) => i,
        None => {
            return None;
        },
    };
    let ghost value = line@.skip(start as int);
    let ghost end = digits_end(value, 0);
    let ghost digits = value.take(end);
    proof {
        lemma_digits_end(value, 0);
    }
    let mut i: usize = start;
    let mut sum: u64 = 0;
    assert(digits.take(0) =~= Seq::empty());
    while i < line.len() && '0' <= line[i] && line[i] <= '9'
        invariant
            start <= i <= line@.len(),
            start <= line@.len(),
            value == line@.skip(start as int),
            digits == value.take(end),
            0 <= end <= value.len(),
            end == digits_end(value, 0),
            digits_end(value, i - start) == end,
            i - start <= end,
            forall|j: int| 0 <= j < digits.len() ==> text::is_digit(#[trigger] digits[j]),
            number_in(line@, key@) == (if digits.len() > 0 && text::number(digits) <= u64::MAX {
                Some(text::number(digits) as u64)
            } else {
                None
            }),
            sum == text::number(digits.take(i - start)),
        decreases line@.len() - i,
    {
        let d: u64 = line[i] as u64 - 48;
        proof {
            let k = i - start;
            assert(value[k] == line@[i as int]);
            assert(digits_end(value, k + 1) == end);
            lemma_digits_end(value, k + 1);
            assert(digits.take(k + 1).drop_last() =~= digits.take(k));
            assert(digits.take(k + 1).last() == value[k]);
            assert(text::number(digits.take(k + 1)) == sum * 10 + d);
            lemma_number_grows(digits, k + 1);
        }
        if sum > (u64::MAX - d) / 10 {
            return None;
        }
        sum = sum * 10 + d;
        i += 1;
    }
    proof {
        if i < line@.len() {
            assert(value[i - start] == line@[i as int]);
        }
        assert(i - start == end);
        assert(digits.take(end) =~= digits);
    }
    if i == start {
        None
    } else {
        Some(sum)
    }
}

fn mark_from(line: &[char]) -> (r: Option<Bookmark>)
    ensures
        match r {
            Some(b) => mark_in(line@) == Some(b@),
            None => mark_in(line@) is None,
        },
{
    let offset: u64 = match number_field(line, "offset") {
        Some(n) => n,
        None => {
            return None;
        },
    };
    let number: u64 = match number_field(line, "line") {
        Some(n) => n,
        None => 0,
    };
    let head = match string_field(line, "head") {
        Some(t) => t,
        None => String::new(),
    };
    let note = match string_field(line, "note") {
        Some(t) => t,
        None => String::new(),
    };
    let at: u64 = match number_field(line, "at") {
        Some(n) => n,
        None => 0,
    };
    let b = Bookmark {
        offset,
        line: #[verifier::truncate]
        (number as u32),
        head,
        note,
        at,
    };
    assert(mark_in(line@) == Some(b@));
    Some(b)
}

/// Reads a mark from a line. The fields may come in any order, and those that are not known
/// are passed over; a line without an offset is no mark.
pub fn from_json(line: &str) -> (r: Option<Bookmark>)
    ensures
        match r {
            Some(b) => mark_in(line@) == Some(b@),
            None => mark_in(line@) is None,
        },
{
    let chars = text::chars_of(line);
    mark_from(chars.as_slice())
}

/// The offsets of a row of marks.
pub open spec fn offsets(marks: Seq<Entry>) -> Seq<u64> {
    marks.map_values(|m: Entry| m.offset)
}

/// Each offset is greater than those before it.
pub open spec fn rising(offsets: Seq<u64>) -> bool {
    forall|j: int, k: int| 0 <= j < k < offsets.len() ==> offsets[j] < offsets[k]
}

/// The marks are in the order of their offsets, and no two have the same.
pub open spec fn in_order(marks: Seq<Entry>) -> bool {
    rising(offsets(marks))
}

/// The first place at or after `i` whose offset does not come before `offset`.
pub open spec fn slot_from(offsets: Seq<u64>, offset: u64, i: int) -> int
    decreases offsets.len() - i,
{
    if 0 <= i < offsets.len() && offsets[i] < offset {
        slot_from(offsets, offset, i + 1)
    } else {
        i
    }
}

/// The place of `offset` among offsets in order.
pub open spec fn slot(offsets: Seq<u64>, offset: u64) -> int {
    slot_from(offsets, offset, 0)
}

/// `offset` is one of the offsets, which are in order.
pub open spec fn has_offset(offsets: Seq<u64>, offset: u64) -> bool {
    slot(offsets, offset) < offsets.len() && offsets[slot(offsets, offset)] == offset
}

/// `marks` with `m` at its place. A mark that is there already stays.
pub open spec fn with_mark(marks: Seq<Entry>, m: Entry) -> Seq<Entry> {
    if has_offset(offsets(marks), m.offset) {
        marks
    } else {
        marks.insert(slot(offsets(marks), m.offset), m)
    }
}

/// The marks in order; of those with the same offset, the first.
pub open spec fn collected(marks: Seq<Entry>) -> Seq<Entry>
    decreases marks.len(),
{
    if marks.len() == 0 {
        Seq::empty()
    } else {
        with_mark(collected(marks.drop_last()), marks.last())
    }
}

/// The marks that lines stand for; the other lines are passed over.
pub open spec fn marks_in(lines: Seq<Seq<char>>) -> Seq<Entry>
    decreases lines.len(),
{
    if lines.len() == 0 {
        Seq::empty()
    } else {
        match mark_in(lines.last()) {
            Some(m) => marks_in(lines.drop_last()).push(m),
            None => marks_in(lines.drop_last()),
        }
    }
}

/// The marks that a sidecar file holds.
pub open spec fn sidecar_marks(content: Seq<char>) -> Seq<Entry> {
    collected(marks_in(text::text_lines(content)))
}

/// A place is the one with smaller offsets before it and none behind it.
pub proof fn lemma_slot_is(offsets: Seq<u64>, offset: u64, i: int, k: int)
    requires
        0 <= i <= k <= offsets.len(),
        forall|j: int| i <= j < k ==> #[trigger] offsets[j] < offset,
        k < offsets.len() ==> offsets[k] >= offset,
    ensures
        slot_from(offsets, offset, i) == k,
    decreases k - i,
{
    if i < k {
        assert(offsets[i] < offset);
        lemma_slot_is(offsets, offset, i + 1, k);
    }
}

/// What [`slot`] promises.
pub proof fn lemma_slot(offsets: Seq<u64>, offset: u64, i: int)
    requires
        0 <= i <= offsets.len(),
    ensures
        i <= slot_from(offsets, offset, i) <= offsets.len(),
        forall|j: int| i <= j < slot_from(offsets, offset, i) ==> #[trigger] offsets[j] < offset,
        slot_from(offsets, offset, i) < offsets.len() ==> offsets[slot_from(offsets, offset, i)]
            >= offset,
    decreases offsets.len() - i,
{
    if i < offsets.len() && offsets[i] < offset {
        lemma_slot(offsets, offset, i + 1);
    }
}

/// An offset that is new leaves the offsets in order, if it is put at its place.
pub proof fn lemma_insert_offset(offs: Seq<u64>, offset: u64)
    requires
        rising(offs),
        !has_offset(offs, offset),
    ensures
        0 <= slot(offs, offset) <= offs.len(),
        rising(offs.insert(slot(offs, offset), offset)),
        has_offset(offs.insert(slot(offs, offset), offset), offset),
        slot(offs.insert(slot(offs, offset), offset), offset) == slot(offs, offset),
{
    lemma_slot(offs, offset, 0);
    let k = slot(offs, offset);
    let after = offs.insert(k, offset);
    assert forall|i: int, j: int| 0 <= i < j < after.len() implies after[i] < after[j] by {
        if i < k && j == k {
            assert(offs[i] < offset);
        } else if i == k {
            if j - 1 > k {
                assert(offs[k] < offs[j - 1]);
            }
        } else if i > k {
            assert(offs[i - 1] < offs[j - 1]);
        } else if j > k {
            assert(offs[i] < offs[j - 1]);
        }
    }
    assert forall|j: int| 0 <= j < k implies #[trigger] after[j] < offset by {
        assert(offs[j] < offset);
    }
    lemma_slot_is(after, offset, 0, k);
}

/// A mark at its place leaves the marks in order.
pub proof fn lemma_with_mark(marks: Seq<Entry>, m: Entry)
    requires
        in_order(marks),
    ensures
        in_order(with_mark(marks, m)),
        has_offset(offsets(with_mark(marks, m)), m.offset),
{
    if !has_offset(offsets(marks), m.offset) {
        lemma_insert_offset(offsets(marks), m.offset);
        let k = slot(offsets(marks), m.offset);
        assert(offsets(marks.insert(k, m)) =~= offsets(marks).insert(k, m.offset));
    }
}

/// The place of a mark at `offset`.
pub fn find_slot(items: &Vec<Bookmark>, offset: u64) -> (r: usize)
    requires
        in_order(marks_of(items@)),
    ensures
        r == slot(offsets(marks_of(items@)), offset),
        r <= items@.len(),
{
    let ghost offs = offsets(marks_of(items@));
    let mut lo: usize = 0;
    let mut hi: usize = items.len();
    while lo < hi
        invariant
            offs == offsets(marks_of(items@)),
            rising(offs),
            lo <= hi <= items@.len(),
            forall|k: int| 0 <= k < lo ==> #[trigger] offs[k] < offset,
            forall|k: int| hi <= k < offs.len() ==> #[trigger] offs[k] >= offset,
        decreases hi - lo,
    {
        let mid: usize = lo + (hi - lo) / 2;
        assert(offs[mid as int] == items@[mid as int].offset);
        if items[mid].offset < offset {
            lo = mid + 1;
        } else {
            hi = mid;
        }
    }
    proof {
        lemma_slot_is(offs, offset, 0, lo as int);
    }
    lo
}

/// Puts a mark at its place, unless there is one with its offset.
pub fn insert_mark(items: &mut Vec<Bookmark>, b: Bookmark)
    requires
        in_order(marks_of(old(items)@)),
    ensures
        marks_of(final(items)@) == with_mark(marks_of(old(items)@), b@),
        in_order(marks_of(final(items)@)),
{
    let ghost marks = marks_of(items@);
    let i = find_slot(items, b.offset);
    proof {
        lemma_with_mark(marks, b@);
        if i < items@.len() {
            assert(offsets(marks)[i as int] == items@[i as int].offset);
        }
    }
    if i < items.len() && items[i].offset == b.offset {
        return;
    }
    items.insert(i, b);
    assert(marks_of(items@) =~= marks.insert(i as int, b@));
}

/// Reads the marks in a sidecar file. A line that is no mark is passed over; of marks with the
/// same offset, the first stays.
pub fn parse_sidecar(content: &str) -> (r: Vec<Bookmark>)
    ensures
        marks_of(r@) == sidecar_marks(content@),
        in_order(marks_of(r@)),
{
    let chars = text::chars_of(content);
    let n: usize = chars.len();
    let mut r: Vec<Bookmark> = Vec::new();
    let mut i: usize = 0;
    let ghost all = text::text_lines(chars@);
    let ghost mut done: Seq<Seq<char>> = Seq::empty();
    proof {
        assert(chars@.skip(0) =~= chars@);
        assert(all =~= done + all);
        assert(marks_of(r@) =~= Seq::empty());
    }
    while i < n
        invariant
            n == chars@.len(),
            i <= n,
            all == done + text::text_lines(chars@.skip(i as int)),
            marks_of(r@) == collected(marks_in(done)),
            in_order(marks_of(r@)),
        decreases n - i,
    {
        let ghost here = chars@.skip(i as int);
        let ghost rest = text::text_lines(here);
        let e = text::find_char(chars.as_slice(), '\n', i);
        proof {
            text::lemma_index_from(chars@, '\n', i as int);
            text::lemma_index_is(here, '\n', 0, e - i);
        }
        let mut stop: usize = e;
        if e < n && e > i && chars[e - 1] == '\r' {
            stop = e - 1;
        }
        let line: &[char] = &chars[i..stop];
        proof {
            if e < n {
                assert(here.take(e - i) =~= chars@.subrange(i as int, e as int));
                assert(line@ =~= text::strip_return(here.take(e - i)));
                assert(here.skip(e - i + 1) =~= chars@.skip(e + 1));
            } else {
                assert(line@ =~= here);
                assert(chars@.skip(n as int) =~= Seq::empty());
            }
            assert(rest =~= seq![line@] + text::text_lines(
                chars@.skip(if e < n { e + 1 } else { n as int }),
            ));
            assert(done.push(line@).drop_last() =~= done);
        }
        if let Some(b) = mark_from(line) {
            let ghost before = marks_in(done);
            assert(before.push(b@).drop_last() =~= before);
            insert_mark(&mut r, b);
        }
        i = if e < n {
            e + 1
        } else {
            n
        };
        proof {
            assert(all =~= done.push(line@) + text::text_lines(chars@.skip(i as int)));
            done = done.push(line@);
        }
    }
    proof {
        assert(chars@.skip(n as int) =~= Seq::empty());
        assert(all =~= done);
    }
    r
}

/// What a sidecar file holds for these marks: each on a line of its own.
pub open spec fn sidecar_text(marks: Seq<Entry>) -> Seq<char>
    decreases marks.len(),
{
    if marks.len() == 0 {
        Seq::empty()
    } else {
        sidecar_text(marks.drop_last()) + json(marks.last()).push('\n')
    }
}

/// Writes the content of a sidecar file.
pub fn render_sidecar(items: &[Bookmark]) -> (r: String)
    ensures
        r@ == sidecar_text(marks_of(items@)),
{
    let mut r = String::new();
    let ghost marks = marks_of(items@);
    let mut i: usize = 0;
    assert(marks.take(0) =~= Seq::empty());
    while i < items.len()
        invariant
            i <= items@.len(),
            marks == marks_of(items@),
            r@ == sidecar_text(marks.take(i as int)),
        decreases items@.len() - i,
    {
        let line = to_json(&items[i]);
        let ghost before = r@;
        r.push_str(line.as_str());
        r.push('\n');
        i += 1;
        proof {
            assert(marks.take(i as int).drop_last() =~= marks.take(i - 1));
            assert(marks.take(i as int).last() == items@[i - 1]@);
            assert(r@ =~= before + line@.push('\n'));
        }
    }
    assert(marks.take(i as int) =~= marks);
    r
}

/// One mark in the exported list.
pub open spec fn markdown_item(m: Entry, now: u64) -> Seq<char> {
    "- **第 "@ + text::decimal((m.line + 1) as nat) + " 行**　`"@ + m.head + "`\n"@ + (
    if m.note.len() > 0 {
        "  - 备注："@ + m.note + "\n"@
    } else {
        Seq::empty()
    }) + "  - 标记于 "@ + time_in_words(m.at, now) + "\n"@
}

/// The exported list of marks, without its beginning.
pub open spec fn markdown_items(marks: Seq<Entry>, now: u64) -> Seq<char>
    decreases marks.len(),
{
    if marks.len() == 0 {
        Seq::empty()
    } else {
        markdown_items(marks.drop_last(), now) + markdown_item(marks.last(), now)
    }
}

/// The exported list of marks.
pub open spec fn markdown(log_name: Seq<char>, marks: Seq<Entry>, now: u64) -> Seq<char> {
    "# 标记 · "@ + log_name + "\n\n共 "@ + text::decimal(marks.len()) + " 条。\n\n"@
        + markdown_items(marks, now)
}

/// Writes the marks as a list in Markdown.
pub fn render_markdown(log_name: &str, items: &[Bookmark], now: u64) -> (r: String)
    requires
        forall|i: int| 0 <= i < items@.len() ==> (#[trigger] items@[i]).line < u32::MAX,
    ensures
        r@ == markdown(log_name@, marks_of(items@), now),
{
    let mut r = String::new();
    r.push_str("# 标记 · ");
    r.push_str(log_name);
    r.push_str("\n\n共 ");
    text::push_decimal(&mut r, items.len() as u64);
    r.push_str(" 条。\n\n");
    let ghost start = r@;
    let ghost marks = marks_of(items@);
    let mut i: usize = 0;
    assert(marks.take(0) =~= Seq::empty());
    assert(r@ =~= start + markdown_items(marks.take(0), now));
    while i < items.len()
        invariant
            i <= items@.len(),
            marks == marks_of(items@),
            forall|k: int| 0 <= k < items@.len() ==> (#[trigger] items@[k]).line < u32::MAX,
            r@ == start + markdown_items(marks.take(i as int), now),
        decreases items@.len() - i,
    {
        let b: &Bookmark = &items[i];
        let ghost before = r@;
        r.push_str("- **第 ");
        text::push_decimal(&mut r, (b.line + 1) as u64);
        r.push_str(" 行**　`");
        r.push_str(b.head.as_str());
        r.push_str("`\n");
        if !b.note.as_str().is_empty() {
            r.push_str("  - 备注：");
            r.push_str(b.note.as_str());
            r.push_str("\n");
        }
        r.push_str("  - 标记于 ");
        let when = b.relative_time(now);
        r.push_str(when.as_str());
        r.push_str("\n");
        i += 1;
        proof {
            assert(r@ =~= before + markdown_item(b@, now));
            assert(marks.take(i as int).drop_last() =~= marks.take(i - 1));
            assert(marks.take(i as int).last() == b@);
            assert(r@ =~= start + markdown_items(marks.take(i as int), now));
        }
    }
    assert(marks.take(i as int) =~= marks);
    assert(r@ =~= markdown(log_name@, marks, now));
    r
}

/// The name of the sidecar file of a log: that of the log, with an ending.
pub open spec fn sidecar_name(p: Platform, log: Seq<char>) -> Seq<char> {
    match paths::name_of(p, log) {
        Some(name) => name + ".logview.jsonl"@,
        None => ".logview.jsonl"@,
    }
}

/// The path of the sidecar file of a log: in the same directory. A path without a name is taken
/// for the directory.
pub open spec fn sidecar_of(p: Platform, log: Seq<char>) -> Seq<char> {
    paths::sibling(p, log, sidecar_name(p, log))
}

/// The path of the sidecar file of a log, such as `app.log.logview.jsonl` next to `app.log`.
pub fn sidecar_path(p: Platform, log: &str) -> (r: String)
    ensures
        r@ == sidecar_of(p, log@),
{
    let mut name = match paths::file_name(p, log) {
        Some(name) => name,
        None => String::new(),
    };
    name.push_str(".logview.jsonl");
    assert(name@ =~= sidecar_name(p, log@));
    paths::next_to(p, log, name.as_str())
}

/// The seconds that a clock shows, or zero where it stands before 1970.
pub fn seconds_or_zero(seconds: Option<u64>) -> (r: u64)
    ensures
        r == (match seconds {
            Some(s) => s,
            None => 0u64,
        }),
{
    match seconds {
        Some(s) => s,
        None => 0,
    }
}

/// The time now, in seconds since 1970. What the clock of the machine shows is left open.
pub fn now_secs() -> u64 {
    let now = std::time::SystemTime::now();
    match now.duration_since(outside::unix_epoch()) {
        Ok(d) => seconds_or_zero(Some(d.as_secs())),
        Err(_) => seconds_or_zero(None),
    }
}

} // verus!
