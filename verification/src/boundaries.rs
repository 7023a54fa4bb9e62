//! Where the characters of a text in UTF-8 begin and end.

use crate::search;
use vstd::prelude::*;
use vstd::utf8::*;

verus! {

/// A boundary behind a boundary: what is one in the rest of a text is one in the text.
pub proof fn lemma_boundary_in_rest(b: Seq<u8>, a: int, k: int)
    requires
        valid_utf8(b),
        is_char_boundary(b, a),
        0 <= a <= b.len(),
        0 <= k <= b.len() - a,
        is_char_boundary(b.subrange(a, b.len() as int), k),
    ensures
        is_char_boundary(b, a + k),
    decreases b.len(),
{
    if a == 0 {
        assert(b.subrange(0, b.len() as int) =~= b);
    } else {
        let n = length_of_first_scalar(b);
        let rest = pop_first_scalar(b);
        reveal_with_fuel(is_char_boundary, 2);
        assert(n <= a) by {
            if a < n {
                assert(!is_char_boundary(rest, a - n));
            }
        }
        assert(rest.subrange(a - n, rest.len() as int) =~= b.subrange(a, b.len() as int));
        lemma_boundary_in_rest(rest, a - n, k);
    }
}

/// A character of ASCII ends where it is followed.
pub proof fn lemma_after_ascii(b: Seq<u8>, i: int)
    requires
        valid_utf8(b),
        0 < i <= b.len(),
        b[i - 1] < 128,
    ensures
        is_char_boundary(b, i),
{
    is_char_boundary_iff_not_is_continuation_byte(b, i - 1);
    valid_utf8_split(b, i - 1);
    let rest = b.subrange(i - 1, b.len() as int);
    assert(rest[0] == b[i - 1]);
    reveal_with_fuel(is_char_boundary, 2);
    assert(is_char_boundary(rest, 1));
    lemma_boundary_in_rest(b, i - 1, 1);
}

/// A character of ASCII begins a boundary.
pub proof fn lemma_before_ascii(b: Seq<u8>, i: int)
    requires
        valid_utf8(b),
        0 <= i < b.len(),
        b[i] < 128,
    ensures
        is_char_boundary(b, i),
{
    is_char_boundary_iff_not_is_continuation_byte(b, i);
}

/// Where a text begins with another, up to case, the other ends between two characters.
pub proof fn lemma_prefix_ends_between(b: Seq<u8>, needle: Seq<u8>)
    requires
        valid_utf8(b),
        valid_utf8(needle),
        needle.len() <= b.len(),
        search::lowered(b.take(needle.len() as int)) == search::lowered(needle),
    ensures
        is_char_boundary(b, needle.len() as int),
    decreases needle.len(),
{
    if needle.len() > 0 {
        let m = needle.len() as int;
        let low_b = search::lowered(b.take(m));
        let low_n = search::lowered(needle);
        assert(low_b[0] == search::lower(b[0]));
        assert(low_n[0] == search::lower(needle[0]));
        let n = length_of_first_scalar(needle);
        assert(length_of_first_scalar(b) == n);
        let rest_b = pop_first_scalar(b);
        let rest_n = pop_first_scalar(needle);
        assert(search::lowered(rest_b.take(m - n)) =~= search::lowered(rest_n)) by {
            assert forall|k: int| 0 <= k < m - n implies search::lower(rest_b[k]) == search::lower(
                rest_n[k],
            ) by {
                assert(low_b[k + n] == search::lower(b[k + n]));
                assert(low_n[k + n] == search::lower(needle[k + n]));
            }
        }
        lemma_prefix_ends_between(rest_b, rest_n);
    }
}

/// Where one text stands in another, up to case, it begins and ends between two characters.
pub proof fn lemma_place_between(b: Seq<u8>, needle: Seq<u8>, p: int)
    requires
        valid_utf8(b),
        valid_utf8(needle),
        needle.len() > 0,
        0 <= p,
        p + needle.len() <= b.len(),
        search::lowered(b.subrange(p, p + needle.len())) == search::lowered(needle),
    ensures
        is_char_boundary(b, p),
        is_char_boundary(b, p + needle.len()),
{
    let m = needle.len() as int;
    let here = b.subrange(p, p + m);
    assert(search::lowered(here)[0] == search::lower(b[p]));
    assert(search::lowered(needle)[0] == search::lower(needle[0]));
    is_char_boundary_iff_not_is_continuation_byte(b, p);
    valid_utf8_split(b, p);
    let rest = b.subrange(p, b.len() as int);
    assert(rest.take(m) =~= here);
    lemma_prefix_ends_between(rest, needle);
    lemma_boundary_in_rest(b, p, m);
}

/// What is a boundary in a text is one in a beginning of it that reaches that far.
pub proof fn lemma_boundary_in_front(b: Seq<u8>, m: int, i: int)
    requires
        valid_utf8(b),
        0 <= i <= m <= b.len(),
        is_char_boundary(b, m),
        is_char_boundary(b, i),
    ensures
        valid_utf8(b.take(m)),
        is_char_boundary(b.take(m), i),
{
    valid_utf8_split(b, m);
    assert(b.take(m) =~= b.subrange(0, m));
    if i < m {
        assert(b.take(m)[i] == b[i]);
        is_char_boundary_iff_not_is_continuation_byte(b, i);
        is_char_boundary_iff_not_is_continuation_byte(b.take(m), i);
    } else {
        is_char_boundary_start_end_of_seq(b.take(m));
    }
}

} // verus!
