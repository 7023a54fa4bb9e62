//! Characters and strings: white space, trimming, decimal numbers, lines.

use vstd::prelude::*;

verus! {

/// The code points with the Unicode property `White_Space`.
pub open spec fn white_space(c: char) -> bool {
    let u = c as u32;
    ||| 0x9 <= u <= 0xd
    ||| u == 0x20
    ||| u == 0x85
    ||| u == 0xa0
    ||| u == 0x1680
    ||| 0x2000 <= u <= 0x200a
    ||| u == 0x2028
    ||| u == 0x2029
    ||| u == 0x202f
    ||| u == 0x205f
    ||| u == 0x3000
}

/// Whether `c` is white space.
pub fn is_white_space(c: char) -> (r: bool)
    ensures
        r == white_space(c),
{
    let u: u32 = c as u32;
    (0x9 <= u && u <= 0xd) || u == 0x20 || u == 0x85 || u == 0xa0 || u == 0x1680 || (0x2000 <= u && u
        <= 0x200a) || u == 0x2028 || u == 0x2029 || u == 0x202f || u == 0x205f || u == 0x3000
}

/// The first position at or after `i` that holds no white space, or the end.
pub open spec fn skip_white(s: Seq<char>, i: int) -> int
    decreases s.len() - i,
{
    if 0 <= i < s.len() && white_space(s[i]) {
        skip_white(s, i + 1)
    } else {
        i
    }
}

/// The end of `s` once the white space before position `e` is dropped.
pub open spec fn drop_white(s: Seq<char>, e: int) -> int
    decreases e,
{
    if 0 < e <= s.len() && white_space(s[e - 1]) {
        drop_white(s, e - 1)
    } else {
        e
    }
}

/// `s` without its leading white space.
pub open spec fn trim_start(s: Seq<char>) -> Seq<char> {
    s.skip(skip_white(s, 0))
}

/// `s` without the white space at its end.
pub open spec fn trim_end(s: Seq<char>) -> Seq<char> {
    s.take(drop_white(s, s.len() as int))
}

/// `s` without the white space on either side.
pub open spec fn trim(s: Seq<char>) -> Seq<char> {
    trim_end(trim_start(s))
}

/// `prefix` stands at the beginning of `s`.
pub open spec fn starts_with(s: Seq<char>, prefix: Seq<char>) -> bool {
    prefix.len() <= s.len() && s.take(prefix.len() as int) == prefix
}

pub proof fn lemma_skip_white(s: Seq<char>, i: int)
    requires
        0 <= i <= s.len(),
    ensures
        i <= skip_white(s, i) <= s.len(),
        forall|j: int| i <= j < skip_white(s, i) ==> white_space(#[trigger] s[j]),
        skip_white(s, i) < s.len() ==> !white_space(s[skip_white(s, i)]),
    decreases s.len() - i,
{
    if i < s.len() && white_space(s[i]) {
        lemma_skip_white(s, i + 1);
    }
}

pub proof fn lemma_drop_white(s: Seq<char>, e: int)
    requires
        0 <= e <= s.len(),
    ensures
        0 <= drop_white(s, e) <= e,
        forall|j: int| drop_white(s, e) <= j < e ==> white_space(#[trigger] s[j]),
        drop_white(s, e) > 0 ==> !white_space(s[drop_white(s, e) - 1]),
    decreases e,
{
    if 0 < e && white_space(s[e - 1]) {
        lemma_drop_white(s, e - 1);
    }
}

/// The characters of `s`, in order.
pub fn chars_of(s: &str) -> (out: Vec<char>)
    ensures
        out@ == s@,
{
    let mut out: Vec<char> = Vec::new();
    for c in it: s.chars()
        invariant
            out@ == s@.take(it.index()),
            it.seq() == s@,
    {
        out.push(c);
    }
    assert(s@.take(s@.len() as int) =~= s@);
    out
}

/// The string of the characters from position `from` up to `to`.
pub fn string_of(chars: &[char], from: usize, to: usize) -> (out: String)
    requires
        from <= to <= chars@.len(),
    ensures
        out@ == chars@.subrange(from as int, to as int),
{
    let mut out = String::new();
    let mut i: usize = from;
    while i < to
        invariant
            from <= i <= to <= chars@.len(),
            out@ == chars@.subrange(from as int, i as int),
        decreases to - i,
    {
        out.push(chars[i]);
        i += 1;
        assert(chars@.subrange(from as int, i as int) =~= chars@.subrange(
            from as int,
            i - 1,
        ).push(chars@[i - 1]));
    }
    out
}

/// The first position at or after `from` that holds no white space.
pub fn after_white(chars: &[char], from: usize) -> (r: usize)
    requires
        from <= chars@.len(),
    ensures
        r == skip_white(chars@, from as int),
        from <= r <= chars@.len(),
{
    let mut i: usize = from;
    while i < chars.len() && is_white_space(chars[i])
        invariant
            from <= i <= chars@.len(),
            skip_white(chars@, from as int) == skip_white(chars@, i as int),
        decreases chars@.len() - i,
    {
        i += 1;
    }
    i
}

/// Where the trimmed part of `chars` begins and ends.
pub fn trimmed_bounds(chars: &[char]) -> (r: (usize, usize))
    ensures
        r.0 <= r.1 <= chars@.len(),
        chars@.subrange(r.0 as int, r.1 as int) == trim(chars@),
{
    let from = after_white(chars, 0);
    let ghost rest = trim_start(chars@);
    let mut to: usize = chars.len();
    proof {
        lemma_skip_white(chars@, 0);
    }
    while to > from && is_white_space(chars[to - 1])
        invariant
            from <= to <= chars@.len(),
            rest == chars@.skip(from as int),
            drop_white(rest, rest.len() as int) == drop_white(rest, to - from),
        decreases to,
    {
        assert(rest[to - from - 1] == chars@[to - 1]);
        to -= 1;
    }
    proof {
        if to > from {
            assert(rest[to - from - 1] == chars@[to - 1]);
        }
        assert(chars@.subrange(from as int, to as int) =~= rest.take(to - from));
    }
    (from, to)
}

/// The decimal digit for a value below ten.
pub open spec fn digit(d: nat) -> char {
    ('0' as u32 + d) as char
}

/// The decimal notation of `n`.
pub open spec fn decimal(n: nat) -> Seq<char>
    decreases n,
{
    if n < 10 {
        seq![digit(n)]
    } else {
        decimal(n / 10).push(digit(n % 10))
    }
}

/// A character that `0` to `9` stands for.
pub open spec fn is_digit(c: char) -> bool {
    '0' <= c <= '9'
}

/// The number that a row of digits stands for.
pub open spec fn number(s: Seq<char>) -> nat
    decreases s.len(),
{
    if s.len() == 0 {
        0
    } else {
        number(s.drop_last()) * 10 + (s.last() as u32 - '0' as u32) as nat
    }
}

/// Decimal notation is made of digits and stands for the number it was made from.
pub proof fn lemma_decimal(n: nat)
    ensures
        decimal(n).len() > 0,
        forall|i: int| 0 <= i < decimal(n).len() ==> is_digit(#[trigger] decimal(n)[i]),
        number(decimal(n)) == n,
    decreases n,
{
    reveal_with_fuel(number, 2);
    if n < 10 {
        assert(decimal(n).drop_last() =~= Seq::empty());
        assert(is_digit(digit(n)));
    } else {
        lemma_decimal(n / 10);
        assert(decimal(n).drop_last() =~= decimal(n / 10));
        assert(is_digit(digit(n % 10)));
    }
}

/// Appends the decimal notation of `n`.
pub fn push_decimal(out: &mut String, n: u64)
    ensures
        final(out)@ == old(out)@ + decimal(n as nat),
    decreases n,
{
    if n >= 10 {
        push_decimal(out, n / 10);
    }
    let d: u8 = (n % 10) as u8;
    let c: char = (48u8 + d) as char;
    out.push(c);
    assert(c == digit((n % 10) as nat));
    assert(out@ =~= old(out)@ + decimal(n as nat));
}

/// The position of the first `c` at or after `i`, or the end.
pub open spec fn index_from(s: Seq<char>, c: char, i: int) -> int
    decreases s.len() - i,
{
    if 0 <= i < s.len() && s[i] != c {
        index_from(s, c, i + 1)
    } else {
        i
    }
}

pub proof fn lemma_index_from(s: Seq<char>, c: char, i: int)
    requires
        0 <= i <= s.len(),
    ensures
        i <= index_from(s, c, i) <= s.len(),
        forall|j: int| i <= j < index_from(s, c, i) ==> #[trigger] s[j] != c,
        index_from(s, c, i) < s.len() ==> s[index_from(s, c, i)] == c,
    decreases s.len() - i,
{
    if i < s.len() && s[i] != c {
        lemma_index_from(s, c, i + 1);
    }
}

/// The first place of a character is the one with no place before it.
pub proof fn lemma_index_is(s: Seq<char>, c: char, i: int, k: int)
    requires
        0 <= i <= k <= s.len(),
        forall|j: int| i <= j < k ==> #[trigger] s[j] != c,
        k < s.len() ==> s[k] == c,
    ensures
        index_from(s, c, i) == k,
    decreases k - i,
{
    if i < k {
        assert(s[i] != c);
        lemma_index_is(s, c, i + 1, k);
    }
}

/// The position of the first `c` at or after `from`, or the end.
pub fn find_char(chars: &[char], c: char, from: usize) -> (r: usize)
    requires
        from <= chars@.len(),
    ensures
        r == index_from(chars@, c, from as int),
        from <= r <= chars@.len(),
{
    let mut i: usize = from;
    while i < chars.len() && chars[i] != c
        invariant
            from <= i <= chars@.len(),
            index_from(chars@, c, from as int) == index_from(chars@, c, i as int),
        decreases chars@.len() - i,
    {
        i += 1;
    }
    i
}

/// One line without the carriage return that may stand before its line feed.
pub open spec fn strip_return(line: Seq<char>) -> Seq<char> {
    if line.len() > 0 && line.last() == '\r' {
        line.drop_last()
    } else {
        line
    }
}

/// The lines of a text. Each ends at a line feed or at the end of the text, and nothing
/// comes after the last line feed if the text ends there.
pub open spec fn text_lines(s: Seq<char>) -> Seq<Seq<char>>
    decreases s.len(),
{
    let e = index_from(s, '\n', 0);
    if s.len() == 0 {
        Seq::empty()
    } else if e < 0 || e >= s.len() {
        seq![s]
    } else {
        seq![strip_return(s.take(e))] + text_lines(s.skip(e + 1))
    }
}

/// `part` stands in `s` at position `i`.
pub open spec fn stands_at(s: Seq<char>, part: Seq<char>, i: int) -> bool {
    &&& 0 <= i
    &&& i + part.len() <= s.len()
    &&& s.subrange(i, i + part.len()) == part
}

/// Whether `part` stands in `chars` at position `i`.
pub fn is_at(chars: &[char], part: &[char], i: usize) -> (r: bool)
    ensures
        r == stands_at(chars@, part@, i as int),
{
    if part.len() > chars.len() || i > chars.len() - part.len() {
        return false;
    }
    let mut k: usize = 0;
    while k < part.len()
        invariant
            k <= part@.len(),
            i + part@.len() <= chars.len(),
            forall|j: int| 0 <= j < k ==> chars@[i + j] == part@[j],
        decreases part@.len() - k,
    {
        if chars[i + k] != part[k] {
            proof {
                if stands_at(chars@, part@, i as int) {
                    assert(chars@.subrange(i as int, i + part@.len())[k as int] == part@[k as int]);
                }
            }
            return false;
        }
        k += 1;
    }
    assert(chars@.subrange(i as int, i + part@.len()) =~= part@);
    true
}

/// Whether two texts are equal.
pub fn is_text(a: &str, b: &str) -> (r: bool)
    ensures
        r == (a@ == b@),
{
    let x = chars_of(a);
    let y = chars_of(b);
    if x.len() != y.len() {
        return false;
    }
    let r = is_at(x.as_slice(), y.as_slice(), 0);
    assert(x@.subrange(0, y@.len() as int) =~= x@);
    r
}

/// The first position at or after `i` at which `part` stands.
pub open spec fn find_from(s: Seq<char>, part: Seq<char>, i: int) -> Option<int>
    decreases s.len() - i,
{
    if i < 0 || i + part.len() > s.len() {
        None
    } else if stands_at(s, part, i) {
        Some(i)
    } else if i < s.len() {
        find_from(s, part, i + 1)
    } else {
        None
    }
}

/// The first position at which `part` stands in `chars`.
pub fn find(chars: &[char], part: &[char]) -> (r: Option<usize>)
    ensures
        match r {
            Some(i) => find_from(chars@, part@, 0) == Some(i as int) && i + part@.len()
                <= chars@.len(),
            None => find_from(chars@, part@, 0) is None,
        },
{
    if part.len() > chars.len() {
        return None;
    }
    let last: usize = chars.len() - part.len();
    let mut i: usize = 0;
    while i < last
        invariant
            i <= last,
            last + part@.len() == chars@.len(),
            find_from(chars@, part@, 0) == find_from(chars@, part@, i as int),
        decreases last - i,
    {
        if is_at(chars, part, i) {
            return Some(i);
        }
        i += 1;
    }
    if is_at(chars, part, i) {
        Some(i)
    } else {
        proof {
            if i < chars@.len() {
                assert(find_from(chars@, part@, i + 1) is None);
            }
        }
        None
    }
}

/// The first place is the one with no place before it.
pub proof fn lemma_find_is(s: Seq<char>, part: Seq<char>, i: int, k: int)
    requires
        0 <= i <= k,
        stands_at(s, part, k),
        forall|q: int| i <= q < k ==> !stands_at(s, part, q),
    ensures
        find_from(s, part, i) == Some(k),
    decreases k - i,
{
    if i < k {
        assert(!stands_at(s, part, i));
        lemma_find_is(s, part, i + 1, k);
    }
}

} // verus!
