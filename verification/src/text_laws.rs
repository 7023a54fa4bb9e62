//! What holds of characters and strings.

use crate::text;
use vstd::prelude::*;

verus! {

/// White space is the blank, the characters that move the cursor, and the blanks of other
/// widths and scripts. No letter, digit or mark is.
pub proof fn law_white_space(c: char)
    ensures
        text::white_space(c) <==> {
            ||| c == ' '
            ||| c == '\t'
            ||| c == '\n'
            ||| c == '\u{b}'
            ||| c == '\u{c}'
            ||| c == '\r'
            ||| c == '\u{85}'
            ||| c == '\u{a0}'
            ||| c == '\u{1680}'
            ||| '\u{2000}' <= c <= '\u{200a}'
            ||| c == '\u{2028}'
            ||| c == '\u{2029}'
            ||| c == '\u{202f}'
            ||| c == '\u{205f}'
            ||| c == '\u{3000}'
        },
        '!' <= c <= '~' ==> !text::white_space(c),
{
}

/// `t` is what is left of `s` once `a` characters are cut off in front, and those from `b` on:
/// all that is cut off is white space, and neither end of what is left is.
pub open spec fn is_trimmed(s: Seq<char>, t: Seq<char>, a: int, b: int) -> bool {
    &&& 0 <= a <= b <= s.len()
    &&& t == s.subrange(a, b)
    &&& forall|i: int| 0 <= i < a ==> text::white_space(#[trigger] s[i])
    &&& forall|i: int| b <= i < s.len() ==> text::white_space(#[trigger] s[i])
    &&& a < b ==> !text::white_space(s[a]) && !text::white_space(s[b - 1])
}

/// Trimming takes white space off both ends, all of it and nothing else.
pub proof fn law_trim(s: Seq<char>)
    ensures
        exists|a: int, b: int| #[trigger] is_trimmed(s, text::trim(s), a, b),
        text::trim(text::trim(s)) == text::trim(s),
{
    lemma_trimmed(s);
    let t = text::trim(s);
    lemma_trimmed(t);
    let (a, b) = choose|a: int, b: int| #[trigger] is_trimmed(s, t, a, b);
    let (c, d) = choose|c: int, d: int| #[trigger] is_trimmed(t, text::trim(t), c, d);
    if t.len() > 0 {
        assert(t[0] == s[a] && t[t.len() - 1] == s[b - 1]);
        assert(c == 0) by {
            if c > 0 {
                assert(text::white_space(t[0]));
            }
        }
        assert(d == t.len()) by {
            if d < t.len() {
                assert(text::white_space(t[t.len() - 1]));
            }
        }
    }
    assert(text::trim(t) =~= t);
}

proof fn lemma_trimmed(s: Seq<char>)
    ensures
        exists|a: int, b: int| #[trigger] is_trimmed(s, text::trim(s), a, b),
{
    let a = text::skip_white(s, 0);
    text::lemma_skip_white(s, 0);
    let rest = text::trim_start(s);
    let n = text::drop_white(rest, rest.len() as int);
    text::lemma_drop_white(rest, rest.len() as int);
    let b = a + n;
    assert forall|i: int| b <= i < s.len() implies text::white_space(#[trigger] s[i]) by {
        assert(rest[i - a] == s[i]);
    }
    if n > 0 {
        assert(rest[n - 1] == s[b - 1]);
    }
    assert(text::trim(s) =~= s.subrange(a, b));
    assert(is_trimmed(s, text::trim(s), a, b));
}

/// What is cut off does not depend on how it is cut: two trimmed forms of a text are equal.
pub proof fn law_trimmed_is_unique(
    s: Seq<char>,
    t: Seq<char>,
    a: int,
    b: int,
    u: Seq<char>,
    c: int,
    d: int,
)
    requires
        is_trimmed(s, t, a, b),
        is_trimmed(s, u, c, d),
    ensures
        t == u,
{
    if a < b {
        assert(c <= a) by {
            if a < c {
                assert(text::white_space(s[a]));
            }
        }
        assert(d >= b) by {
            if d < b {
                assert(text::white_space(s[b - 1]));
            }
        }
        assert(a <= c) by {
            if c < a {
                assert(text::white_space(s[c]));
            }
        }
        assert(b >= d) by {
            if b < d {
                assert(text::white_space(s[d - 1]));
            }
        }
    } else if c < d {
        if c < a {
            assert(text::white_space(s[c]));
        } else {
            assert(text::white_space(s[c]));
        }
    }
    assert(t =~= u);
}

/// A text begins with another if its first characters are those of the other.
pub proof fn law_starts_with(s: Seq<char>, prefix: Seq<char>)
    ensures
        text::starts_with(s, prefix) <==> prefix.len() <= s.len() && forall|k: int|
            0 <= k < prefix.len() ==> #[trigger] s[k] == prefix[k],
{
    if prefix.len() <= s.len() {
        let front = s.take(prefix.len() as int);
        if text::starts_with(s, prefix) {
            assert forall|k: int| 0 <= k < prefix.len() implies #[trigger] s[k] == prefix[k] by {
                assert(front[k] == s[k]);
            }
        }
        if forall|k: int| 0 <= k < prefix.len() ==> #[trigger] s[k] == prefix[k] {
            assert(front =~= prefix);
        }
    }
}

/// `part` stands in `s` from `k` on, character by character.
pub open spec fn spelled_at(s: Seq<char>, part: Seq<char>, k: int) -> bool {
    &&& 0 <= k
    &&& k + part.len() <= s.len()
    &&& forall|i: int| 0 <= i < part.len() ==> s[k + i] == #[trigger] part[i]
}

proof fn lemma_spelled(s: Seq<char>, part: Seq<char>, k: int)
    ensures
        text::stands_at(s, part, k) <==> spelled_at(s, part, k),
{
    if 0 <= k && k + part.len() <= s.len() {
        let here = s.subrange(k, k + part.len());
        if text::stands_at(s, part, k) {
            assert forall|i: int| 0 <= i < part.len() implies s[k + i] == #[trigger] part[i] by {
                assert(here[i] == s[k + i]);
            }
        }
        if spelled_at(s, part, k) {
            assert(here =~= part);
        }
    }
}

/// A text is found at the first place at which it stands, and nowhere if it stands nowhere.
pub proof fn law_find(s: Seq<char>, part: Seq<char>, from: int)
    requires
        0 <= from,
    ensures
        match text::find_from(s, part, from) {
            Some(k) => from <= k && spelled_at(s, part, k) && forall|q: int|
                from <= q < k ==> !#[trigger] spelled_at(s, part, q),
            None => forall|q: int| from <= q ==> !#[trigger] spelled_at(s, part, q),
        },
    decreases s.len() - from,
{
    lemma_spelled(s, part, from);
    if from + part.len() <= s.len() && !text::stands_at(s, part, from) && from < s.len() {
        law_find(s, part, from + 1);
    } else if from + part.len() <= s.len() && !text::stands_at(s, part, from) {
        assert(spelled_at(s, part, from));
    }
}

/// A number is written with the digits `0` to `9`, the ones last and the rest before them, and
/// without a zero in front.
pub proof fn law_decimal(n: nat)
    ensures
        text::decimal(n).len() > 0,
        text::decimal(n).last() as int == 48 + n % 10,
        n >= 10 ==> text::decimal(n).drop_last() == text::decimal(n / 10),
        n < 10 ==> text::decimal(n).len() == 1,
        n > 0 ==> text::decimal(n)[0] != '0',
    decreases n,
{
    if n >= 10 {
        law_decimal(n / 10);
        assert(text::decimal(n).drop_last() =~= text::decimal(n / 10));
        assert(text::decimal(n)[0] == text::decimal(n / 10)[0]);
    }
}

/// Different numbers are written differently.
pub proof fn law_decimals_differ(m: nat, n: nat)
    requires
        text::decimal(m) == text::decimal(n),
    ensures
        m == n,
{
    text::lemma_decimal(m);
    text::lemma_decimal(n);
}

/// Digits are read from the left: one more digit makes ten times the number, and that digit.
pub proof fn law_number(s: Seq<char>, c: char)
    requires
        '0' <= c <= '9',
    ensures
        text::number(Seq::empty()) == 0,
        text::number(s.push(c)) == 10 * text::number(s) + (c as int - 48),
{
    assert(s.push(c).drop_last() =~= s);
}

/// A text is parted at its line feeds: each line is what stands before one, without a carriage
/// return at its end, and the rest is parted likewise.
pub proof fn law_text_lines(front: Seq<char>, rest: Seq<char>)
    requires
        forall|i: int| 0 <= i < front.len() ==> #[trigger] front[i] != '\n',
    ensures
        text::text_lines(front + seq!['\n'] + rest) == seq![
            if front.len() > 0 && front.last() == '\r' {
                front.drop_last()
            } else {
                front
            },
        ] + text::text_lines(rest),
        front.len() > 0 ==> text::text_lines(front) == seq![front],
        text::text_lines(Seq::empty()).len() == 0,
{
    let all = front + seq!['\n'] + rest;
    let n = front.len() as int;
    assert forall|j: int| 0 <= j < n implies #[trigger] all[j] != '\n' by {
        assert(all[j] == front[j]);
    }
    assert(all[n] == '\n');
    text::lemma_index_is(all, '\n', 0, n);
    assert(all.take(n) =~= front);
    assert(all.skip(n + 1) =~= rest);
    text::lemma_index_is(front, '\n', 0, n);
}

} // verus!
