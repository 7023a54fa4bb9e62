//! What holds of marks, and of the files they are kept in.

use crate::bookmarks;
use crate::bookmarks::Entry;
use crate::paths;
use crate::startup::Platform;
use crate::text;
use crate::text_laws;
use vstd::prelude::*;

verus! {

proof fn lemma_escaped_head(c: char, s: Seq<char>)
    ensures
        bookmarks::escaped(seq![c] + s) == bookmarks::escape_char(c) + bookmarks::escaped(s),
    decreases s.len(),
{
    reveal_with_fuel(bookmarks::escaped, 2);
    let all = seq![c] + s;
    if s.len() == 0 {
        assert(all.drop_last() =~= Seq::empty());
        assert(bookmarks::escaped(all) =~= bookmarks::escape_char(c) + bookmarks::escaped(s));
    } else {
        assert(all.drop_last() =~= seq![c] + s.drop_last());
        lemma_escaped_head(c, s.drop_last());
        assert(bookmarks::escaped(all) =~= bookmarks::escape_char(c) + bookmarks::escaped(s));
    }
}

proof fn lemma_escaped_chars(s: Seq<char>)
    ensures
        forall|t: int|
            0 <= t < bookmarks::escaped(s).len() ==> {
                &&& (#[trigger] bookmarks::escaped(s)[t]) as u32 >= 0x20
                &&& bookmarks::escaped(s)[t] == '"' ==> t > 0 && bookmarks::escaped(s)[t - 1]
                    == '\\'
            },
    decreases s.len(),
{
    if s.len() > 0 {
        lemma_escaped_chars(s.drop_last());
        let before = bookmarks::escaped(s.drop_last());
        let last = bookmarks::escape_char(s.last());
        let all = bookmarks::escaped(s);
        assert forall|t: int| 0 <= t < all.len() implies {
            &&& (#[trigger] all[t]) as u32 >= 0x20
            &&& all[t] == '"' ==> t > 0 && all[t - 1] == '\\'
        } by {
            if t < before.len() {
                assert(all[t] == before[t]);
                if t > 0 {
                    assert(all[t - 1] == before[t - 1]);
                }
            } else {
                assert(all[t] == last[t - before.len()]);
                if t > before.len() {
                    assert(all[t - 1] == last[t - 1 - before.len()]);
                }
            }
        }
    }
}

proof fn lemma_escaped_quote(s: Seq<char>, t: int)
    requires
        0 <= t < bookmarks::escaped(s).len(),
        bookmarks::escaped(s)[t] == '"',
    ensures
        t > 0,
        bookmarks::escaped(s)[t - 1] == '\\',
{
    lemma_escaped_chars(s);
}

/// A control character that has no letter of its own is written by its number, and read by it.
proof fn lemma_control_is_coded(c: char, tail: Seq<char>)
    requires
        bookmarks::escape_char(c).len() == 6,
    ensures
        bookmarks::is_coded(bookmarks::escape_char(c) + tail),
        bookmarks::coded_char(bookmarks::escape_char(c) + tail) == c,
{
    reveal(bookmarks::is_coded);
    let all = bookmarks::escape_char(c) + tail;
    let code = c as u32;
    assert(all[4] == bookmarks::hex_digit((code / 16) as nat));
    assert(all[5] == bookmarks::hex_digit((code % 16) as nat));
    assert(bookmarks::hex_value(all[4]) == code / 16);
    assert(bookmarks::hex_value(all[5]) == code % 16);
    assert(all.take(6) =~= bookmarks::escape_char(c));
}

proof fn lemma_short_is_not_coded(s: Seq<char>)
    requires
        s.len() >= 2,
        s[1] != 'u',
    ensures
        !bookmarks::is_coded(s),
{
    reveal(bookmarks::is_coded);
    if bookmarks::is_coded(s) {
        assert(bookmarks::escape_char(bookmarks::coded_char(s)).len() == 6);
        assert(s.take(6)[1] == s[1]);
    }
}

/// A text that was written into a JSON string is read back as it was, whatever comes behind
/// the closing quote.
pub proof fn law_string_round_trip(s: Seq<char>, rest: Seq<char>)
    ensures
        bookmarks::read_string(bookmarks::escaped(s) + (seq!['"'] + rest)) == Some(s),
    decreases s.len(),
{
    let behind = seq!['"'] + rest;
    let all = bookmarks::escaped(s) + behind;
    if s.len() == 0 {
        assert(all =~= behind);
        assert(bookmarks::read_string(all) =~= Some(s));
    } else {
        let c = s[0];
        let t = s.skip(1);
        assert(s =~= seq![c] + t);
        lemma_escaped_head(c, t);
        law_string_round_trip(t, rest);
        let tail = bookmarks::escaped(t) + behind;
        assert(all =~= bookmarks::escape_char(c) + tail);
        if bookmarks::escape_char(c).len() == 2 {
            assert(all.skip(2) =~= tail);
            lemma_short_is_not_coded(all);
        } else if bookmarks::escape_char(c).len() == 6 {
            lemma_control_is_coded(c, tail);
            assert(all.skip(6) =~= tail);
        } else {
            assert(bookmarks::escape_char(c) =~= seq![c]);
            assert(all.skip(1) =~= tail);
        }
        assert(seq![c] + t =~= s);
    }
}

proof fn lemma_number_field(line: Seq<char>, key: Seq<char>, k: int, n: u64, tail: Seq<char>)
    requires
        text::find_from(line, bookmarks::quoted(key), 0) == Some(k),
        line.skip(k + key.len() + 2) == seq![':'] + (text::decimal(n as nat) + tail),
        tail.len() > 0,
        !text::is_digit(tail[0]),
    ensures
        bookmarks::number_in(line, key) == Some(n),
{
    let rest = line.skip(k + key.len() + 2);
    let d = text::decimal(n as nat);
    text::lemma_decimal(n as nat);
    text::lemma_index_is(rest, ':', 0, 0);
    let value = rest.skip(1);
    assert(value =~= d + tail);
    assert(text::is_digit(d[0]));
    assert(value[0] == d[0]);
    assert(text::skip_white(value, 0) == 0);
    assert(text::trim_start(value) =~= value);
    lemma_digits_end_is(value, 0, d.len() as int);
    assert(value.take(d.len() as int) =~= d);
}

proof fn lemma_digits_end_is(s: Seq<char>, i: int, k: int)
    requires
        0 <= i <= k < s.len(),
        forall|j: int| i <= j < k ==> text::is_digit(#[trigger] s[j]),
        !text::is_digit(s[k]),
    ensures
        bookmarks::digits_end(s, i) == k,
    decreases k - i,
{
    if i < k {
        assert(text::is_digit(s[i]));
        lemma_digits_end_is(s, i + 1, k);
    }
}

proof fn lemma_string_field(
    line: Seq<char>,
    key: Seq<char>,
    k: int,
    colon: int,
    s: Seq<char>,
    tail: Seq<char>,
)
    requires
        text::find_from(line, bookmarks::quoted(key), 0) == Some(k),
        0 <= k,
        k + key.len() + 2 <= colon < line.len(),
        forall|j: int| k + key.len() + 2 <= j < colon ==> #[trigger] line[j] != ':',
        line[colon] == ':',
        line.skip(colon + 1) == seq!['"'] + (bookmarks::escaped(s) + (seq!['"'] + tail)),
    ensures
        bookmarks::string_in(line, key) == Some(s),
{
    let start = k + key.len() + 2;
    let rest = line.skip(start);
    assert forall|j: int| 0 <= j < colon - start implies #[trigger] rest[j] != ':' by {
        assert(rest[j] == line[start + j]);
    }
    text::lemma_index_is(rest, ':', 0, colon - start);
    let value = rest.skip(colon - start + 1);
    assert(value =~= line.skip(colon + 1));
    assert(value[0] == '"');
    assert(text::skip_white(value, 0) == 0);
    assert(text::trim_start(value) =~= value);
    assert(value.skip(1) =~= bookmarks::escaped(s) + (seq!['"'] + tail));
    law_string_round_trip(s, tail);
}

proof fn lemma_not_at(line: Seq<char>, part: Seq<char>, q: int)
    requires
        part.len() >= 2,
        0 <= q,
        q + part.len() <= line.len() ==> (line[q] != part[0] || line[q + 1] != part[1]),
    ensures
        !text::stands_at(line, part, q),
{
    if text::stands_at(line, part, q) {
        assert(line.subrange(q, q + part.len())[0] == part[0]);
        assert(line.subrange(q, q + part.len())[1] == part[1]);
    }
}

spec fn from_note(m: Entry) -> Seq<char> {
    "\",\"note\":\""@ + (bookmarks::escaped(m.note) + "\"}"@)
}

spec fn from_head(m: Entry) -> Seq<char> {
    ",\"head\":\""@ + (bookmarks::escaped(m.head) + from_note(m))
}

spec fn from_time(m: Entry) -> Seq<char> {
    ",\"at\":"@ + (text::decimal(m.at as nat) + from_head(m))
}

spec fn from_line(m: Entry) -> Seq<char> {
    ",\"line\":"@ + (text::decimal(m.line as nat) + from_time(m))
}

spec fn line_pos(m: Entry) -> int {
    10int + text::decimal(m.offset as nat).len()
}

spec fn time_pos(m: Entry) -> int {
    line_pos(m) + 8 + text::decimal(m.line as nat).len()
}

spec fn head_pos(m: Entry) -> int {
    time_pos(m) + 6 + text::decimal(m.at as nat).len()
}

spec fn note_pos(m: Entry) -> int {
    head_pos(m) + 9 + bookmarks::escaped(m.head).len()
}

proof fn lemma_joined(a: Seq<char>, b: Seq<char>, c: Seq<char>, d: Seq<char>)
    ensures
        a + b + c + d == a + (b + (c + d)),
        (a + (b + (c + d))).skip(a.len() as int) == b + (c + d),
{
    assert(a + b + c + d =~= a + (b + (c + d)));
    assert((a + (b + (c + d))).skip(a.len() as int) =~= b + (c + d));
}

/// Which part of a mark's JSON object stands where.
proof fn lemma_layout(m: Entry)
    ensures
        bookmarks::json(m) == "{\"offset\":"@ + (text::decimal(m.offset as nat) + from_line(m)),
        bookmarks::json(m).skip(line_pos(m)) == from_line(m),
        bookmarks::json(m).skip(time_pos(m)) == from_time(m),
        bookmarks::json(m).skip(head_pos(m)) == from_head(m),
        bookmarks::json(m).skip(note_pos(m)) == from_note(m),
        bookmarks::json(m).len() == note_pos(m) + from_note(m).len(),
        0 <= line_pos(m) <= time_pos(m) <= head_pos(m) <= note_pos(m),
{
    reveal(bookmarks::json);
    reveal_strlit("{\"offset\":");
    reveal_strlit(",\"line\":");
    reveal_strlit(",\"at\":");
    reveal_strlit(",\"head\":\"");
    let d1 = text::decimal(m.offset as nat);
    let d2 = text::decimal(m.line as nat);
    let d3 = text::decimal(m.at as nat);
    let e1 = bookmarks::escaped(m.head);
    let e2 = bookmarks::escaped(m.note);
    let a = "{\"offset\":"@ + d1;
    let b = a + ",\"line\":"@ + d2;
    let c = b + ",\"at\":"@ + d3;
    let d = c + ",\"head\":\""@ + e1;
    lemma_joined(d, "\",\"note\":\""@, e2, "\"}"@);
    lemma_joined(c, ",\"head\":\""@, e1, from_note(m));
    lemma_joined(b, ",\"at\":"@, d3, from_head(m));
    lemma_joined(a, ",\"line\":"@, d2, from_time(m));
    assert(a + from_line(m) =~= "{\"offset\":"@ + (d1 + from_line(m)));
}

/// A quote before the head's value opens a key or closes one.
proof fn lemma_quote(m: Entry, q: int)
    requires
        0 <= q < head_pos(m) + 8,
        bookmarks::json(m)[q] == '"',
    ensures
        ({
            let next = bookmarks::json(m)[q + 1];
            ||| next == 'o'
            ||| next == ':'
            ||| next == 'l' && q == line_pos(m) + 1
            ||| next == 'a' && q == time_pos(m) + 1
            ||| next == 'h' && q == head_pos(m) + 1
        }),
{
    let line = bookmarks::json(m);
    let d1 = text::decimal(m.offset as nat);
    let d2 = text::decimal(m.line as nat);
    let d3 = text::decimal(m.at as nat);
    lemma_layout(m);
    reveal_strlit("{\"offset\":");
    reveal_strlit(",\"line\":");
    reveal_strlit(",\"at\":");
    reveal_strlit(",\"head\":\"");
    text::lemma_decimal(m.offset as nat);
    text::lemma_decimal(m.line as nat);
    text::lemma_decimal(m.at as nat);
    let p0 = "{\"offset\":"@;
    let p1 = ",\"line\":"@;
    let p2 = ",\"at\":"@;
    let p3 = ",\"head\":\""@;
    let a1 = line_pos(m);
    let a3 = time_pos(m);
    let a5 = head_pos(m);
    if q < 10 {
        assert(line[q] == p0[q]);
        if q < 9 {
            assert(line[q + 1] == p0[q + 1]);
        }
    } else if q < a1 {
        assert(line[q] == d1[q - 10]);
        assert(text::is_digit(d1[q - 10]));
    } else if q < a3 {
        let part = from_line(m);
        assert(line[q] == part[q - a1]);
        assert(line[q + 1] == line.skip(a1)[q + 1 - a1]);
        if q < a1 + 8 {
            assert(line[q] == p1[q - a1]);
            if q < a1 + 7 {
                assert(line[q + 1] == p1[q + 1 - a1]);
            }
        } else {
            assert(line[q] == d2[q - a1 - 8]);
            assert(text::is_digit(d2[q - a1 - 8]));
        }
    } else if q < a5 {
        let part = from_time(m);
        assert(line[q] == part[q - a3]);
        assert(line[q + 1] == line.skip(a3)[q + 1 - a3]);
        if q < a3 + 6 {
            assert(line[q] == p2[q - a3]);
            if q < a3 + 5 {
                assert(line[q + 1] == p2[q + 1 - a3]);
            }
        } else {
            assert(line[q] == d3[q - a3 - 6]);
            assert(text::is_digit(d3[q - a3 - 6]));
        }
    } else {
        let part = from_head(m);
        assert(line[q] == part[q - a5]);
        assert(line[q + 1] == line.skip(a5)[q + 1 - a5]);
        assert(line[q] == p3[q - a5]);
        assert(line[q + 1] == p3[q + 1 - a5]);
    }
}

proof fn lemma_offset_back(m: Entry)
    ensures
        bookmarks::number_in(bookmarks::json(m), "offset"@) == Some(m.offset),
{
    let line = bookmarks::json(m);
    let d = text::decimal(m.offset as nat);
    lemma_layout(m);
    reveal_strlit("{\"offset\":");
    reveal_strlit("offset");
    reveal_strlit(",\"line\":");
    let part = bookmarks::quoted("offset"@);
    assert(line.subrange(1, 9) =~= part);
    lemma_not_at(line, part, 0);
    text::lemma_find_is(line, part, 0, 1);
    assert(line.skip(9) =~= seq![':'] + (d + from_line(m)));
    lemma_number_field(line, "offset"@, 1, m.offset, from_line(m));
}

/// A key that stands at its own place stands nowhere before.
proof fn lemma_key_is_first(m: Entry, part: Seq<char>, k: int)
    requires
        part.len() >= 2,
        part[0] == '"',
        ({
            ||| part[1] == 'l' && k == line_pos(m) + 1
            ||| part[1] == 'a' && k == time_pos(m) + 1
            ||| part[1] == 'h' && k == head_pos(m) + 1
        }),
        text::stands_at(bookmarks::json(m), part, k),
    ensures
        text::find_from(bookmarks::json(m), part, 0) == Some(k),
{
    let line = bookmarks::json(m);
    lemma_layout(m);
    assert forall|q: int| 0 <= q < k implies !text::stands_at(line, part, q) by {
        if line[q] == '"' {
            lemma_quote(m, q);
        }
        lemma_not_at(line, part, q);
    }
    text::lemma_find_is(line, part, 0, k);
}

/// The key `key` stands behind the comma at the front of `rest`, and its colon behind it.
proof fn lemma_key_in(line: Seq<char>, at: int, key: Seq<char>, rest: Seq<char>)
    requires
        0 <= at <= line.len(),
        line.skip(at) == rest,
        key.len() + 4 <= rest.len(),
        rest[1] == '"',
        forall|i: int| 0 <= i < key.len() ==> rest[i + 2] == #[trigger] key[i],
        rest[key.len() as int + 2] == '"',
        rest[key.len() as int + 3] == ':',
    ensures
        text::stands_at(line, bookmarks::quoted(key), at + 1),
        line[at + 1 + key.len() + 2] == ':',
        line.skip(at + 1 + key.len() + 2) == rest.skip(key.len() as int + 3),
        line.skip(at + 1 + key.len() + 3) == rest.skip(key.len() as int + 4),
{
    let part = bookmarks::quoted(key);
    let here = line.subrange(at + 1, at + 1 + part.len());
    assert forall|i: int| 0 <= i < part.len() implies here[i] == part[i] by {
        assert(here[i] == rest[i + 1]);
        if 0 < i < part.len() - 1 {
            assert(rest[i - 1 + 2] == key[i - 1]);
        }
    }
    assert(here =~= part);
    assert(line[at + 1 + key.len() + 2] == rest[key.len() as int + 3]);
    assert(line.skip(at + 1 + key.len() + 2) =~= rest.skip(key.len() as int + 3));
    assert(line.skip(at + 1 + key.len() + 3) =~= rest.skip(key.len() as int + 4));
}

proof fn lemma_skip_into(front: Seq<char>, n: int, body: Seq<char>)
    requires
        0 <= n < front.len(),
        n == front.len() - 1,
    ensures
        (front + body).skip(n) == seq![front[n]] + body,
{
    assert((front + body).skip(n) =~= seq![front[n]] + body);
}

proof fn lemma_line_back(m: Entry)
    ensures
        bookmarks::number_in(bookmarks::json(m), "line"@) == Some(m.line as u64),
{
    let line = bookmarks::json(m);
    let d = text::decimal(m.line as nat);
    lemma_layout(m);
    reveal_strlit(",\"line\":");
    reveal_strlit("line");
    reveal_strlit(",\"at\":");
    lemma_key_in(line, line_pos(m), "line"@, from_line(m));
    lemma_key_is_first(m, bookmarks::quoted("line"@), line_pos(m) + 1);
    lemma_skip_into(",\"line\":"@, 7, d + from_time(m));
    lemma_number_field(line, "line"@, line_pos(m) + 1, m.line as u64, from_time(m));
}

proof fn lemma_time_back(m: Entry)
    ensures
        bookmarks::number_in(bookmarks::json(m), "at"@) == Some(m.at),
{
    let line = bookmarks::json(m);
    let d = text::decimal(m.at as nat);
    lemma_layout(m);
    reveal_strlit(",\"at\":");
    reveal_strlit("at");
    reveal_strlit(",\"head\":\"");
    lemma_key_in(line, time_pos(m), "at"@, from_time(m));
    lemma_key_is_first(m, bookmarks::quoted("at"@), time_pos(m) + 1);
    lemma_skip_into(",\"at\":"@, 5, d + from_head(m));
    lemma_number_field(line, "at"@, time_pos(m) + 1, m.at, from_head(m));
}

proof fn lemma_head_back(m: Entry)
    ensures
        bookmarks::string_in(bookmarks::json(m), "head"@) == Some(m.head),
{
    let line = bookmarks::json(m);
    let e = bookmarks::escaped(m.head);
    let k = head_pos(m) + 1;
    lemma_layout(m);
    reveal_strlit(",\"head\":\"");
    reveal_strlit("head");
    lemma_key_in(line, head_pos(m), "head"@, from_head(m));
    lemma_key_is_first(m, bookmarks::quoted("head"@), k);
    lemma_skip_into(",\"head\":\""@, 8, e + from_note(m));
    let tail = from_note(m).skip(1);
    assert(from_note(m) =~= seq!['"'] + tail) by {
        reveal_strlit("\",\"note\":\"");
    }
    lemma_string_field(line, "head"@, k, k + 6, m.head, tail);
}

/// What stands in the head's value, and where it ends.
proof fn lemma_head_value(m: Entry, i: int)
    requires
        head_pos(m) + 9 <= i < note_pos(m) + 3,
    ensures
        i < note_pos(m) ==> bookmarks::json(m)[i] == bookmarks::escaped(m.head)[i - head_pos(m) - 9],
        i == note_pos(m) ==> bookmarks::json(m)[i] == '"',
        i == note_pos(m) + 1 ==> bookmarks::json(m)[i] == ',',
{
    let line = bookmarks::json(m);
    lemma_layout(m);
    reveal_strlit("\",\"note\":\"");
    reveal_strlit(",\"head\":\"");
    if i < note_pos(m) {
        assert(line[i] == line.skip(head_pos(m))[i - head_pos(m)]);
        assert(from_head(m)[i - head_pos(m)] == bookmarks::escaped(m.head)[i - head_pos(m) - 9]);
    } else {
        assert(line[i] == line.skip(note_pos(m))[i - note_pos(m)]);
    }
}

proof fn lemma_note_key(line: Seq<char>, q: int)
    requires
        text::stands_at(line, bookmarks::quoted("note"@), q),
    ensures
        line[q] == '"',
        line[q + 1] == 'n',
        line[q + 2] == 'o',
        line[q + 3] == 't',
        line[q + 4] == 'e',
        line[q + 5] == '"',
{
    reveal_strlit("note");
    let here = line.subrange(q, q + 6);
    let part = bookmarks::quoted("note"@);
    assert(part.len() == 6);
    assert(here == part);
    assert(here[0] == part[0] && here[1] == part[1] && here[2] == part[2] && here[3] == part[3]
        && here[4] == part[4] && here[5] == part[5]);
}

/// A place of the note's key before the key itself ends at the quote that closes the head.
proof fn lemma_note_places(m: Entry, q: int)
    requires
        0 <= q < note_pos(m) + 2,
        text::stands_at(bookmarks::json(m), bookmarks::quoted("note"@), q),
    ensures
        q + 5 == note_pos(m),
{
    let line = bookmarks::json(m);
    let a6 = head_pos(m) + 9;
    let a7 = note_pos(m);
    lemma_note_key(line, q);
    if q < a6 - 1 {
        lemma_quote(m, q);
    } else if q >= a7 {
        lemma_head_value(m, q);
        lemma_head_value(m, q + 1);
    } else if q + 5 < a7 {
        lemma_head_value(m, q + 5);
        lemma_head_value(m, q + 4);
        lemma_escaped_quote(m.head, q + 5 - a6);
    } else if q + 5 > a7 {
        lemma_head_value(m, a7);
        assert(a7 == q + 1 || a7 == q + 2 || a7 == q + 3 || a7 == q + 4);
    }
}

proof fn lemma_note_back(m: Entry)
    ensures
        bookmarks::string_in(bookmarks::json(m), "note"@) == Some(m.note),
{
    let line = bookmarks::json(m);
    let e = bookmarks::escaped(m.note);
    lemma_layout(m);
    reveal_strlit("note");
    reveal_strlit("\",\"note\":\"");
    reveal_strlit("\"}");
    let part = bookmarks::quoted("note"@);
    let a7 = note_pos(m);
    let rest = line.skip(a7);
    let colon = a7 + 8;
    let tail = "\"}"@.skip(1);
    assert("\"}"@ =~= seq!['"'] + tail);
    assert(line.skip(colon + 1) =~= rest.skip(9));
    assert(rest.skip(9) =~= seq!['"'] + (e + (seq!['"'] + tail)));
    assert forall|j: int| a7 <= j < colon implies #[trigger] line[j] != ':' by {
        assert(line[j] == rest[j - a7]);
    }
    assert(line[colon] == rest[8]);
    assert(rest.subrange(2, 8) =~= part);
    assert(line.subrange(a7 + 2, a7 + 8) =~= rest.subrange(2, 8));
    if text::stands_at(line, part, a7 - 5) {
        assert forall|q: int| 0 <= q < a7 - 5 implies !text::stands_at(line, part, q) by {
            if text::stands_at(line, part, q) {
                lemma_note_places(m, q);
            }
        }
        text::lemma_find_is(line, part, 0, a7 - 5);
        lemma_string_field(line, "note"@, a7 - 5, colon, m.note, tail);
    } else {
        assert forall|q: int| 0 <= q < a7 + 2 implies !text::stands_at(line, part, q) by {
            if text::stands_at(line, part, q) {
                lemma_note_places(m, q);
            }
        }
        text::lemma_find_is(line, part, 0, a7 + 2);
        lemma_string_field(line, "note"@, a7 + 2, colon, m.note, tail);
    }
}

/// A mark that was written comes back as it was, whatever its head and its note hold.
pub proof fn law_mark_round_trip(m: Entry)
    ensures
        bookmarks::mark_in(bookmarks::json(m)) == Some(m),
{
    lemma_offset_back(m);
    lemma_line_back(m);
    lemma_time_back(m);
    lemma_head_back(m);
    lemma_note_back(m);
    assert((m.line as u64) as u32 == m.line);
}

/// A mark is written on one line: no control character stands in it.
pub proof fn law_mark_is_one_line(m: Entry)
    ensures
        forall|i: int|
            0 <= i < bookmarks::json(m).len() ==> (#[trigger] bookmarks::json(m)[i]) as u32 >= 0x20,
        bookmarks::json(m).len() > 0,
        bookmarks::json(m).last() == '}',
{
    reveal(bookmarks::json);
    reveal_strlit("{\"offset\":");
    reveal_strlit(",\"line\":");
    reveal_strlit(",\"at\":");
    reveal_strlit(",\"head\":\"");
    reveal_strlit("\",\"note\":\"");
    reveal_strlit("\"}");
    text::lemma_decimal(m.offset as nat);
    text::lemma_decimal(m.line as nat);
    text::lemma_decimal(m.at as nat);
    lemma_escaped_chars(m.head);
    lemma_escaped_chars(m.note);
    let visible = |s: Seq<char>| forall|i: int| 0 <= i < s.len() ==> (#[trigger] s[i]) as u32 >= 0x20;
    assert(visible(text::decimal(m.offset as nat)));
    assert(visible(text::decimal(m.line as nat)));
    assert(visible(text::decimal(m.at as nat)));
    let j1 = "{\"offset\":"@ + text::decimal(m.offset as nat) + ",\"line\":"@;
    assert(visible(j1));
    let j2 = j1 + text::decimal(m.line as nat) + ",\"at\":"@;
    assert(visible(j2));
    let j3 = j2 + text::decimal(m.at as nat) + ",\"head\":\""@;
    assert(visible(j3));
    let j4 = j3 + bookmarks::escaped(m.head) + "\",\"note\":\""@;
    assert(visible(j4));
    let j5 = j4 + bookmarks::escaped(m.note) + "\"}"@;
    assert(visible(j5));
    assert(j5 == bookmarks::json(m));
}

proof fn lemma_lines_joined(front: Seq<char>, line: Seq<char>)
    requires
        front.len() == 0 || front.last() == '\n',
        forall|i: int| 0 <= i < line.len() ==> (#[trigger] line[i]) as u32 >= 0x20,
        line.len() > 0,
    ensures
        text::text_lines(front + line.push('\n')) == text::text_lines(front).push(line),
    decreases front.len(),
{
    let all = front + line.push('\n');
    if front.len() == 0 {
        assert(all =~= line.push('\n'));
        text::lemma_index_is(all, '\n', 0, line.len() as int);
        assert(all.take(line.len() as int) =~= line);
        assert(all.skip(line.len() as int + 1) =~= Seq::empty());
        reveal_with_fuel(text::text_lines, 2);
        assert(text::text_lines(all) =~= seq![line]);
        assert(text::text_lines(front).push(line) =~= seq![line]);
    } else {
        text::lemma_index_from(front, '\n', 0);
        let e = text::index_from(front, '\n', 0);
        assert(e < front.len()) by {
            assert(front[front.len() - 1] == '\n');
        }
        text::lemma_index_is(all, '\n', 0, e);
        let rest = front.skip(e + 1);
        assert(all.take(e) =~= front.take(e));
        assert(all.skip(e + 1) =~= rest + line.push('\n'));
        lemma_lines_joined(rest, line);
        assert(text::text_lines(all) =~= text::text_lines(front).push(line));
    }
}

proof fn lemma_sidecar_lines(marks: Seq<Entry>)
    ensures
        text::text_lines(bookmarks::sidecar_text(marks)) == marks.map_values(
            |m: Entry| bookmarks::json(m),
        ),
        bookmarks::sidecar_text(marks).len() == 0 || bookmarks::sidecar_text(marks).last() == '\n',
    decreases marks.len(),
{
    let write = |m: Entry| bookmarks::json(m);
    if marks.len() == 0 {
        assert(text::text_lines(bookmarks::sidecar_text(marks)) =~= marks.map_values(write));
    } else {
        let front = marks.drop_last();
        lemma_sidecar_lines(front);
        law_mark_is_one_line(marks.last());
        lemma_lines_joined(bookmarks::sidecar_text(front), bookmarks::json(marks.last()));
        assert(marks.map_values(write) =~= front.map_values(write).push(
            bookmarks::json(marks.last()),
        ));
    }
}

proof fn lemma_all_back(marks: Seq<Entry>)
    ensures
        bookmarks::marks_in(marks.map_values(|m: Entry| bookmarks::json(m))) == marks,
    decreases marks.len(),
{
    let write = |m: Entry| bookmarks::json(m);
    let written = marks.map_values(write);
    if marks.len() > 0 {
        let front = marks.drop_last();
        lemma_all_back(front);
        assert(written.drop_last() =~= front.map_values(write));
        law_mark_round_trip(marks[marks.len() - 1]);
        assert(marks =~= front.push(marks.last()));
    } else {
        assert(bookmarks::marks_in(written) =~= marks);
    }
}

proof fn lemma_collected_in_order(marks: Seq<Entry>)
    requires
        bookmarks::in_order(marks),
    ensures
        bookmarks::collected(marks) == marks,
    decreases marks.len(),
{
    if marks.len() > 0 {
        let front = marks.drop_last();
        let offs = bookmarks::offsets(marks);
        let before = bookmarks::offsets(front);
        assert forall|i: int, j: int| 0 <= i < j < before.len() implies before[i] < before[j] by {
            assert(offs[i] < offs[j]);
        }
        lemma_collected_in_order(front);
        let last = marks.last();
        assert forall|j: int| 0 <= j < before.len() implies #[trigger] before[j] < last.offset by {
            assert(offs[j] < offs[offs.len() - 1]);
        }
        bookmarks::lemma_slot_is(before, last.offset, 0, before.len() as int);
        assert(front.insert(front.len() as int, last) =~= marks);
    }
}

/// What is read from a sidecar file is what was written to it, for marks in order.
pub proof fn law_sidecar_round_trip(marks: Seq<Entry>)
    requires
        bookmarks::in_order(marks),
    ensures
        bookmarks::sidecar_marks(bookmarks::sidecar_text(marks)) == marks,
{
    lemma_sidecar_lines(marks);
    lemma_all_back(marks);
    lemma_collected_in_order(marks);
}

/// Whatever a sidecar file holds, the marks read from it are in order, with no offset twice.
pub proof fn law_sidecar_marks_in_order(content: Seq<char>)
    ensures
        bookmarks::in_order(bookmarks::sidecar_marks(content)),
{
    lemma_collected_is_in_order(bookmarks::marks_in(text::text_lines(content)));
}

proof fn lemma_collected_is_in_order(marks: Seq<Entry>)
    ensures
        bookmarks::in_order(bookmarks::collected(marks)),
    decreases marks.len(),
{
    if marks.len() > 0 {
        lemma_collected_is_in_order(marks.drop_last());
        bookmarks::lemma_with_mark(bookmarks::collected(marks.drop_last()), marks.last());
    }
}

proof fn lemma_skip_white_is(s: Seq<char>, i: int, k: int)
    requires
        0 <= i <= k <= s.len(),
        forall|j: int| i <= j < k ==> text::white_space(#[trigger] s[j]),
        k < s.len() ==> !text::white_space(s[k]),
    ensures
        text::skip_white(s, i) == k,
    decreases k - i,
{
    if i < k {
        assert(text::white_space(s[i]));
        lemma_skip_white_is(s, i + 1, k);
    }
}

proof fn lemma_drop_white_from(s: Seq<char>, e: int, k: int)
    requires
        0 < k <= e <= s.len(),
        !text::white_space(s[k - 1]),
    ensures
        k <= text::drop_white(s, e) <= e,
    decreases e,
{
    if k < e && text::white_space(s[e - 1]) {
        lemma_drop_white_from(s, e - 1, k);
    }
}

/// A mark holds for the line it was made for, and goes on holding when more is written to the
/// end of the line.
pub proof fn law_mark_holds_as_line_grows(
    offset: usize,
    line: usize,
    line_text: Seq<char>,
    more: Seq<char>,
    at: u64,
)
    ensures
        Entry::made(offset, line, line_text, at).holds_for(line_text + more),
{
    let m = Entry::made(offset, line, line_text, at);
    let all = line_text + more;
    let k = text::skip_white(line_text, 0);
    text::lemma_skip_white(line_text, 0);
    let rest = text::trim_start(line_text);
    text::lemma_drop_white(rest, rest.len() as int);
    let e = text::drop_white(rest, rest.len() as int);
    let t = text::trim(line_text);
    if m.head.len() > 0 {
        assert(k < line_text.len());
        assert forall|j: int| 0 <= j < k implies text::white_space(#[trigger] all[j]) by {
            assert(all[j] == line_text[j]);
        }
        assert(all[k] == line_text[k]);
        lemma_skip_white_is(all, 0, k);
        let grown = text::trim_start(all);
        assert(grown =~= rest + more);
        assert(grown[e - 1] == rest[e - 1]);
        lemma_drop_white_from(grown, grown.len() as int, e);
        let n = m.head.len() as int;
        assert(text::trim(all).take(n) =~= m.head);
    }
}

/// A mark holds for a line if, and only if, the text of the line, without the white space around
/// it, has every character of the mark's head at its place. A mark without a head holds for
/// every line.
pub proof fn law_mark_holds_by_every_character(m: Entry, line: Seq<char>)
    ensures
        m.holds_for(line) <==> m.head.len() == 0 || (m.head.len() <= text::trim(line).len()
            && forall|k: int| 0 <= k < m.head.len() ==> text::trim(line)[k] == #[trigger] m.head[k]),
{
    crate::text_laws::law_starts_with(text::trim(line), m.head);
}

/// The head of a line is the first 48 characters of its text without the white space around it,
/// or all of it where it has no more.
pub proof fn law_head_is_the_first_characters(line: Seq<char>)
    ensures
        bookmarks::head(line).len() <= 48,
        bookmarks::head(line).len() <= text::trim(line).len(),
        bookmarks::head(line).len() < 48 ==> bookmarks::head(line).len() == text::trim(line).len(),
        forall|k: int|
            0 <= k < bookmarks::head(line).len() ==> #[trigger] bookmarks::head(line)[k]
                == text::trim(line)[k],
{
}

/// Two lines that differ somewhere in their first 48 characters are told apart: the mark made
/// for one of them does not hold for the other.
pub proof fn law_marks_tell_lines_apart(
    offset: usize,
    line: usize,
    a: Seq<char>,
    b: Seq<char>,
    at: u64,
    k: int,
)
    requires
        0 <= k < 48,
        k < text::trim(a).len(),
        k >= text::trim(b).len() || text::trim(a)[k] != text::trim(b)[k],
    ensures
        !Entry::made(offset, line, a, at).holds_for(b),
{
    let m = Entry::made(offset, line, a, at);
    assert(m.head[k] == text::trim(a)[k]);
    law_mark_holds_by_every_character(m, b);
}

/// A mark says where its line starts and which one it is, when it was made, and has no note yet.
pub proof fn law_new_mark_says_where_it_stands(
    offset: usize,
    line: usize,
    line_text: Seq<char>,
    at: u64,
)
    ensures
        ({
            let m = Entry::made(offset, line, line_text, at);
            &&& m.offset == offset
            &&& line <= u32::MAX ==> m.line == line
            &&& m.at == at
            &&& m.note.len() == 0
            &&& m.head.len() > 0 <==> text::trim(line_text).len() > 0
        }),
{
}

/// The time since a mark was made is told in the largest unit of which one has passed; the
/// number is that of the whole units. After thirty days, as for a time to come, it is not told.
pub proof fn law_time_in_words(at: u64, now: u64)
    ensures
        ({
            let w = bookmarks::time_in_words(at, now);
            let s = now - at;
            &&& s < 0 || s >= 30 * 24 * 60 * 60 ==> w == seq!['更', '早']
            &&& 0 <= s < 60 ==> w == seq!['刚', '刚']
            &&& 60 <= s < 60 * 60 ==> exists|n: nat|
                n * 60 <= s < (n + 1) * 60 && w == #[trigger] text::decimal(n)
                    + seq![' ', '分', '钟', '前']
            &&& 60 * 60 <= s < 24 * 60 * 60 ==> exists|n: nat|
                n * 3600 <= s < (n + 1) * 3600 && w == #[trigger] text::decimal(n)
                    + seq![' ', '小', '时', '前']
            &&& 24 * 60 * 60 <= s < 30 * 24 * 60 * 60 ==> exists|n: nat|
                n * 86_400 <= s < (n + 1) * 86_400 && w == #[trigger] text::decimal(n)
                    + seq![' ', '天', '前']
        }),
{
    reveal_strlit("更早");
    reveal_strlit("刚刚");
    reveal_strlit(" 分钟前");
    reveal_strlit(" 小时前");
    reveal_strlit(" 天前");
    let w = bookmarks::time_in_words(at, now);
    let s = now - at;
    assert("更早"@ =~= seq!['更', '早']);
    assert("刚刚"@ =~= seq!['刚', '刚']);
    assert(" 分钟前"@ =~= seq![' ', '分', '钟', '前']);
    assert(" 小时前"@ =~= seq![' ', '小', '时', '前']);
    assert(" 天前"@ =~= seq![' ', '天', '前']);
    if 60 <= s < 60 * 60 {
        let n = (s as nat / 60) as nat;
        assert(w == text::decimal(n) + seq![' ', '分', '钟', '前']);
        assert(n * 60 <= s < (n + 1) * 60);
    } else if 60 * 60 <= s < 24 * 60 * 60 {
        let n = (s as nat / 3600) as nat;
        assert(w == text::decimal(n) + seq![' ', '小', '时', '前']);
        assert(n * 3600 <= s < (n + 1) * 3600);
    } else if 24 * 60 * 60 <= s < 30 * 24 * 60 * 60 {
        let n = (s as nat / 86_400) as nat;
        assert(w == text::decimal(n) + seq![' ', '天', '前']);
        assert(n * 86_400 <= s < (n + 1) * 86_400);
    }
}

/// How characters are written in a JSON string: a quote, a backslash, and the three that have a
/// letter of their own, behind a backslash; the other control characters by their number; all
/// others as they are.
pub proof fn law_escapes(c: char)
    ensures
        c as u32 == 0x22 ==> bookmarks::escape_char(c) == seq!['\\', '"'],
        c as u32 == 0x5c ==> bookmarks::escape_char(c) == seq!['\\', '\\'],
        c as u32 == 0x0a ==> bookmarks::escape_char(c) == seq!['\\', 'n'],
        c as u32 == 0x0d ==> bookmarks::escape_char(c) == seq!['\\', 'r'],
        c as u32 == 0x09 ==> bookmarks::escape_char(c) == seq!['\\', 't'],
        (c as u32) < 0x20 && c as u32 != 0x0a && c as u32 != 0x0d && c as u32 != 0x09 ==> {
            let e = bookmarks::escape_char(c);
            let low = c as u32 % 16;
            &&& e.len() == 6 && e[0] == '\\' && e[1] == 'u' && e[2] == '0' && e[3] == '0'
            &&& e[4] as u32 == (if c as u32 >= 16 {
                0x31
            } else {
                0x30int
            })
            &&& e[5] as u32 == (if low < 10 {
                0x30 + low
            } else {
                0x61 + low - 10
            })
        },
        c as u32 >= 0x20 && c as u32 != 0x22 && c as u32 != 0x5c ==> bookmarks::escape_char(c)
            == seq![c],
{
    assert(c == ((c as u32) as char));
}

/// A mark is written as an object with its offset, its line, its time, its head and its note, in
/// this order and under these names.
pub proof fn law_mark_is_written_so(m: Entry)
    ensures
        bookmarks::json(m) == "{\"offset\":"@ + text::decimal(m.offset as nat) + ",\"line\":"@
            + text::decimal(m.line as nat) + ",\"at\":"@ + text::decimal(m.at as nat)
            + ",\"head\":\""@ + bookmarks::escaped(m.head) + "\",\"note\":\""@
            + bookmarks::escaped(m.note) + "\"}"@,
{
    reveal(bookmarks::json);
}

/// A line is a mark if it has an offset. What else is missing is zero, or empty.
pub proof fn law_only_the_offset_has_to_be_there(line: Seq<char>)
    ensures
        bookmarks::mark_in(line) is Some <==> bookmarks::number_in(line, "offset"@) is Some,
        bookmarks::mark_in(line) is Some ==> {
            let m = bookmarks::mark_in(line)->0;
            let n = bookmarks::number_in(line, "line"@);
            let at = bookmarks::number_in(line, "at"@);
            let head = bookmarks::string_in(line, "head"@);
            let note = bookmarks::string_in(line, "note"@);
            &&& m.offset == bookmarks::number_in(line, "offset"@)->0
            &&& n is None ==> m.line == 0
            &&& n is Some && n->0 <= u32::MAX ==> m.line == n->0
            &&& at is None ==> m.at == 0
            &&& at is Some ==> m.at == at->0
            &&& head is None ==> m.head.len() == 0
            &&& head is Some ==> m.head == head->0
            &&& note is None ==> m.note.len() == 0
            &&& note is Some ==> m.note == note->0
        },
{
}

/// The lines of a sidecar file that are marks are taken, in their order, and the others passed
/// over.
pub proof fn law_other_lines_are_passed_over(lines: Seq<Seq<char>>)
    ensures
        bookmarks::marks_in(lines) == lines.filter_map(|l: Seq<char>| bookmarks::mark_in(l)),
    decreases lines.len(),
{
    if lines.len() > 0 {
        law_other_lines_are_passed_over(lines.drop_last());
        let before = bookmarks::marks_in(lines.drop_last());
        if bookmarks::mark_in(lines.last()) is Some {
            let m = bookmarks::mark_in(lines.last())->0;
            assert(before.push(m) =~= before + seq![m]);
        }
    }
}

/// The exported list names the log and the number of marks, and then each mark in its order.
pub proof fn law_export_lists_the_marks(
    name: Seq<char>,
    a: Seq<Entry>,
    b: Seq<Entry>,
    now: u64,
)
    ensures
        bookmarks::markdown(name, a, now) == "# 标记 · "@ + name + "\n\n共 "@ + text::decimal(
            a.len(),
        ) + " 条。\n\n"@ + bookmarks::markdown_items(a, now),
        bookmarks::markdown_items(a + b, now) == bookmarks::markdown_items(a, now)
            + bookmarks::markdown_items(b, now),
        a.len() == 1 ==> bookmarks::markdown_items(a, now) == bookmarks::markdown_item(a[0], now),
    decreases b.len(),
{
    if a.len() == 1 {
        reveal_with_fuel(bookmarks::markdown_items, 2);
        assert(a.drop_last() =~= Seq::empty());
        assert(bookmarks::markdown_items(a, now) =~= bookmarks::markdown_item(a[0], now));
    }
    if b.len() == 0 {
        assert(a + b =~= a);
        assert(bookmarks::markdown_items(a, now) + Seq::<char>::empty()
            =~= bookmarks::markdown_items(a, now));
    } else {
        law_export_lists_the_marks(name, a, b.drop_last(), now);
        assert((a + b).drop_last() =~= a + b.drop_last());
        assert(bookmarks::markdown_items(a + b, now) =~= bookmarks::markdown_items(a, now)
            + bookmarks::markdown_items(b, now));
    }
}

/// An exported mark names its line, counted from one, its text, its note if it has one, and when
/// it was made.
pub proof fn law_exported_mark(m: Entry, now: u64)
    ensures
        ({
            let n = text::decimal((m.line + 1) as nat);
            let first = "- **第 "@ + n + " 行**　`"@ + m.head + "`\n"@;
            let last = "  - 标记于 "@ + bookmarks::time_in_words(m.at, now) + "\n"@;
            &&& m.note.len() == 0 ==> bookmarks::markdown_item(m, now) == first + last
            &&& m.note.len() > 0 ==> bookmarks::markdown_item(m, now) == first + ("  - 备注："@
                + m.note + "\n"@) + last
        }),
{
    let n = text::decimal((m.line + 1) as nat);
    let first = "- **第 "@ + n + " 行**　`"@ + m.head + "`\n"@;
    let last = "  - 标记于 "@ + bookmarks::time_in_words(m.at, now) + "\n"@;
    if m.note.len() == 0 {
        assert(bookmarks::markdown_item(m, now) =~= first + last);
    } else {
        assert(bookmarks::markdown_item(m, now) =~= first + ("  - 备注："@ + m.note + "\n"@)
            + last);
    }
}

/// The marks of `dir/name` are kept in `dir/name.logview.jsonl`.
pub proof fn law_sidecar_lies_next_to_the_log(p: Platform, dir: Seq<char>, name: Seq<char>)
    requires
        !(p is Windows),
        paths::plain_name(name),
        dir.len() > 0,
        dir.last() != '/',
        dir.last() != '.',
    ensures
        bookmarks::sidecar_of(p, dir + seq!['/'] + name) == dir + seq!['/'] + (name + seq![
            '.',
            'l',
            'o',
            'g',
            'v',
            'i',
            'e',
            'w',
            '.',
            'j',
            's',
            'o',
            'n',
            'l',
        ]),
{
    reveal_strlit(".logview.jsonl");
    let end = seq!['.', 'l', 'o', 'g', 'v', 'i', 'e', 'w', '.', 'j', 's', 'o', 'n', 'l'];
    assert(".logview.jsonl"@ =~= end);
    let other = name + end;
    assert forall|k: int| 0 <= k < other.len() implies #[trigger] other[k] != '/' by {
        if k < name.len() {
            assert(other[k] == name[k]);
        } else {
            assert(other[k] == end[k - name.len()]);
        }
    }
    assert(paths::plain_name(other));
    paths::law_name_of_a_file(p, dir, name);
    assert(dir.push('/') + name =~= dir + seq!['/'] + name);
    paths::law_file_next_to_another(p, dir, name, other);
}

/// A string in a line is read up to its closing quote. A backslash before `n`, `r` or `t` stands
/// for the character that has this letter; before any other character but `u` it stands for that
/// character.
pub proof fn law_strings_are_read(c: char, rest: Seq<char>)
    requires
        bookmarks::read_string(rest) is Some,
    ensures
        bookmarks::read_string(seq!['"'] + rest) == Some(Seq::<char>::empty()),
        c != '"' && c != '\\' ==> bookmarks::read_string(seq![c] + rest) == Some(
            seq![c] + bookmarks::read_string(rest)->0,
        ),
        c != 'u' ==> ({
            let stands_for = if c == 'n' {
                0x0au32
            } else if c == 'r' {
                0x0du32
            } else if c == 't' {
                0x09u32
            } else {
                c as u32
            };
            let t = bookmarks::read_string(seq!['\\', c] + rest);
            &&& t is Some
            &&& (t->0).len() == (bookmarks::read_string(rest)->0).len() + 1
            &&& (t->0)[0] as u32 == stands_for
            &&& (t->0).skip(1) == bookmarks::read_string(rest)->0
        }),
        bookmarks::read_string(Seq::empty()) is None,
{
    let quote = seq!['"'] + rest;
    assert(quote[0] == '"');
    let plain = seq![c] + rest;
    assert(plain[0] == c);
    assert(plain.skip(1) =~= rest);
    if c != 'u' {
        let s = seq!['\\', c] + rest;
        assert(s[0] == '\\' && s[1] == c);
        assert(s.skip(2) =~= rest);
        assert(!bookmarks::is_coded(s)) by {
            reveal(bookmarks::is_coded);
            if bookmarks::is_coded(s) {
                let d = bookmarks::coded_char(s);
                let six = s.take(6);
                assert(bookmarks::escape_char(d).len() == 6);
                assert(bookmarks::escape_char(d)[1] == 'u');
                assert(six[1] == s[1]);
            }
        }
        let t = bookmarks::read_string(s);
        assert(t == Some(seq![bookmarks::unescaped(c)] + bookmarks::read_string(rest)->0));
        assert((t->0).skip(1) =~= bookmarks::read_string(rest)->0);
    }
}

/// The value of the field `key` starts at `v`: the name of the field stands in quotes at `i`, at
/// the first such place, the first colon behind it at `c`, and only white space stands between
/// that and the value.
pub open spec fn value_at(line: Seq<char>, key: Seq<char>, i: int, c: int, v: int) -> bool {
    let name = seq!['"'] + key + seq!['"'];
    &&& text_laws::spelled_at(line, name, i)
    &&& forall|q: int| 0 <= q < i ==> !#[trigger] text_laws::spelled_at(line, name, q)
    &&& i + key.len() + 2 <= c < line.len() && line[c] == ':'
    &&& forall|j: int| i + key.len() + 2 <= j < c ==> #[trigger] line[j] != ':'
    &&& c < v <= line.len()
    &&& forall|j: int| c < j < v ==> text::white_space(#[trigger] line[j])
    &&& v < line.len() ==> !text::white_space(line[v])
}

/// The value of a field is what stands behind the first colon behind its name, up to the end of
/// the line and without the white space before it. There is none without such a colon.
pub proof fn law_value_of_a_field(line: Seq<char>, key: Seq<char>)
    ensures
        bookmarks::field_value(line, key) is Some ==> exists|i: int, c: int, v: int| #[trigger]
            value_at(line, key, i, c, v) && bookmarks::field_value(line, key)->0 == line.skip(v),
        forall|i: int, c: int, v: int| #[trigger]
            value_at(line, key, i, c, v) ==> bookmarks::field_value(line, key) == Some(
                line.skip(v),
            ),
{
    let name = seq!['"'] + key + seq!['"'];
    assert(bookmarks::quoted(key) == name);
    text_laws::law_find(line, name, 0);
    let found = text::find_from(line, name, 0);
    if found is Some {
        let i = found->0;
        let from = i + key.len() + 2;
        let rest = line.skip(from);
        text::lemma_index_from(rest, ':', 0);
        let k = text::index_from(rest, ':', 0);
        if k < rest.len() {
            let c = from + k;
            let tail = rest.skip(k + 1);
            text::lemma_skip_white(tail, 0);
            let v = c + 1 + text::skip_white(tail, 0);
            assert forall|j: int| from <= j < c implies #[trigger] line[j] != ':' by {
                assert(rest[j - from] == line[j]);
            }
            assert forall|j: int| c < j < v implies text::white_space(#[trigger] line[j]) by {
                assert(tail[j - c - 1] == line[j]);
            }
            if v < line.len() {
                assert(tail[v - c - 1] == line[v]);
            }
            assert(text::trim_start(tail) =~= line.skip(v));
            assert(value_at(line, key, i, c, v));
        }
        assert forall|a: int, c: int, v: int| #[trigger]
            value_at(line, key, a, c, v) implies bookmarks::field_value(line, key) == Some(
            line.skip(v),
        ) by {
            if a < i {
                assert(!text_laws::spelled_at(line, name, a));
            } else if i < a {
                assert(!text_laws::spelled_at(line, name, i));
            }
            assert(rest[c - from] == ':');
            if k < c - from {
                assert(line[from + k] != ':');
            } else if c - from < k {
                assert(rest[c - from] != ':');
            }
            let tail = rest.skip(k + 1);
            text::lemma_skip_white(tail, 0);
            let w = text::skip_white(tail, 0);
            if c + 1 + w < v {
                assert(text::white_space(line[c + 1 + w]));
                assert(tail[w] == line[c + 1 + w]);
            } else if v < c + 1 + w {
                assert(text::white_space(tail[v - c - 1]));
                assert(tail[v - c - 1] == line[v]);
            }
            assert(text::trim_start(tail) =~= line.skip(v));
        }
    } else {
        assert forall|a: int, c: int, v: int| #[trigger] value_at(line, key, a, c, v) implies false by {
            assert(!text_laws::spelled_at(line, name, a));
        }
    }
}

proof fn lemma_digits_reach(s: Seq<char>, i: int, k: int)
    requires
        0 <= i <= k <= s.len(),
        forall|j: int| i <= j < k ==> text::is_digit(#[trigger] s[j]),
        k < s.len() ==> !text::is_digit(s[k]),
    ensures
        bookmarks::digits_end(s, i) == k,
    decreases k - i,
{
    if i < k {
        assert(text::is_digit(s[i]));
        lemma_digits_reach(s, i + 1, k);
    }
}

/// The number in a field is that of all the digits at the beginning of its value. There is none
/// without a digit, or if it takes more than 64 bits. The text in a field stands in quotes.
pub proof fn law_what_a_field_holds(line: Seq<char>, key: Seq<char>, k: int)
    requires
        bookmarks::field_value(line, key) is Some,
        0 <= k <= (bookmarks::field_value(line, key)->0).len(),
        forall|j: int|
            0 <= j < k ==> '0' <= #[trigger] (bookmarks::field_value(line, key)->0)[j] <= '9',
        k < (bookmarks::field_value(line, key)->0).len() ==> !('0' <= (bookmarks::field_value(
            line,
            key,
        )->0)[k] <= '9'),
    ensures
        ({
            let value = bookmarks::field_value(line, key)->0;
            let n = text::number(value.take(k));
            &&& k == 0 || n > 0xffff_ffff_ffff_ffff ==> bookmarks::number_in(line, key) is None
            &&& k > 0 && n <= 0xffff_ffff_ffff_ffff ==> bookmarks::number_in(line, key) == Some(
                n as u64,
            )
            &&& value.len() > 0 && value[0] == '"' ==> bookmarks::string_in(line, key)
                == bookmarks::read_string(value.skip(1))
            &&& value.len() == 0 || value[0] != '"' ==> bookmarks::string_in(line, key) is None
        }),
{
    let value = bookmarks::field_value(line, key)->0;
    assert forall|j: int| 0 <= j < k implies text::is_digit(#[trigger] value[j]) by {}
    lemma_digits_reach(value, 0, k);
}

} // verus!
