//! From the bytes of a file to text and back.

use crate::outside;
use vstd::prelude::*;
use vstd::string::*;
use vstd::utf8::*;

verus! {

/// How many bytes at the beginning of a file tell its encoding.
pub const SNIFF_LEN: usize = 65_536;

/// The encoding of a file.
#[derive(Clone, Copy, Debug, PartialEq, Eq, Structural)]
pub enum Encoding {
    Utf8,
    /// The encoding of Chinese text on Windows; it covers GBK.
    Gb18030,
}

/// Whether the encoding is UTF-8.
pub fn is_utf8(e: Encoding) -> (r: bool)
    ensures
        r == (e is Utf8),
{
    match e {
        Encoding::Utf8 => true,
        Encoding::Gb18030 => false,
    }
}

/// The name of an encoding, as it is shown.
pub fn encoding_name(e: Encoding) -> (r: &'static str)
    ensures
        e is Utf8 ==> r@ == "UTF-8"@,
        e is Gb18030 ==> r@ == "GB18030"@,
{
    if is_utf8(e) {
        "UTF-8"
    } else {
        "GB18030"
    }
}

/// `head` begins with the byte order mark of UTF-8.
pub open spec fn has_mark(head: Seq<u8>) -> bool {
    head.len() >= 3 && head[0] == 0xef && head[1] == 0xbb && head[2] == 0xbf
}

/// The bytes are the beginning of one character, and not all of it.
pub open spec fn begins_char(t: Seq<u8>) -> bool {
    exists|rest: Seq<u8>| #[trigger] completes(t, rest)
}

/// The bytes and those behind them are one character.
pub open spec fn completes(t: Seq<u8>, rest: Seq<u8>) -> bool {
    rest.len() > 0 && valid_first_scalar(t + rest) && length_of_first_scalar(t + rest) == t.len()
        + rest.len()
}

/// All but the last `k` bytes are valid, and those are the beginning of a character.
pub open spec fn cut_by(head: Seq<u8>, k: int) -> bool {
    k <= head.len() && valid_utf8(head.take(head.len() - k)) && begins_char(
        head.skip(head.len() - k),
    )
}

/// The first `len` bytes of `data`, but no more than [`SNIFF_LEN`].
pub open spec fn sample(data: Seq<u8>, len: int) -> Seq<u8> {
    data.take(
        if len < SNIFF_LEN {
            len
        } else {
            SNIFF_LEN as int
        },
    )
}

/// The encoding that the first bytes of a file of `len` bytes tell. A character that goes on
/// behind them does not count against UTF-8.
pub open spec fn sniffed(data: Seq<u8>, len: int) -> Encoding {
    let head = sample(data, len);
    if has_mark(head) || valid_utf8(head) || (len > SNIFF_LEN && exists|k: int|
        1 <= k <= 3 && #[trigger] cut_by(head, k)) {
        Encoding::Utf8
    } else {
        Encoding::Gb18030
    }
}

/// The first byte of a character of two bytes.
pub open spec fn leads_two(b: u8) -> bool {
    0xc2 <= b <= 0xdf
}

/// The first two bytes of a character of three.
pub open spec fn leads_three(a: u8, b: u8) -> bool {
    &&& 0xe0 <= a <= 0xef
    &&& is_continuation_byte(b)
    &&& a == 0xe0 ==> b >= 0xa0
    &&& a == 0xed ==> b <= 0x9f
}

/// The first two bytes of a character of four.
pub open spec fn leads_four(a: u8, b: u8) -> bool {
    &&& 0xf0 <= a <= 0xf4
    &&& is_continuation_byte(b)
    &&& a == 0xf0 ==> b >= 0x90
    &&& a == 0xf4 ==> b <= 0x8f
}

proof fn lemma_two(a: u8, b: u8)
    by (bit_vector)
    requires
        0xc0 <= a <= 0xdf,
        0x80 <= b <= 0xbf,
    ensures
        0x80u32 <= codepoint_width_2(a, b) <==> 0xc2 <= a,
        codepoint_width_2(a, b) < 0xd800u32,
{
}

proof fn lemma_three(a: u8, b: u8, c: u8)
    by (bit_vector)
    requires
        0xe0 <= a <= 0xef,
        0x80 <= b <= 0xbf,
        0x80 <= c <= 0xbf,
    ensures
        (0x800u32 <= codepoint_width_3(a, b, c) && !(0xd800u32 <= codepoint_width_3(a, b, c)
            && codepoint_width_3(a, b, c) <= 0xdfffu32)) <==> ((a == 0xe0 ==> b >= 0xa0) && (a
            == 0xed ==> b <= 0x9f)),
{
}

proof fn lemma_four(a: u8, b: u8, c: u8, d: u8)
    by (bit_vector)
    requires
        0xf0 <= a <= 0xf7,
        0x80 <= b <= 0xbf,
        0x80 <= c <= 0xbf,
        0x80 <= d <= 0xbf,
    ensures
        (0x10000u32 <= codepoint_width_4(a, b, c, d) && codepoint_width_4(a, b, c, d)
            <= 0x10ffffu32) <==> (a <= 0xf4 && (a == 0xf0 ==> b >= 0x90) && (a == 0xf4 ==> b
            <= 0x8f)),
{
}

/// The beginnings of characters, byte by byte.
pub open spec fn begins_char_bytes(t: Seq<u8>) -> bool {
    ||| t.len() == 1 && (leads_two(t[0]) || 0xe0 <= t[0] <= 0xf4)
    ||| t.len() == 2 && (leads_three(t[0], t[1]) || leads_four(t[0], t[1]))
    ||| t.len() == 3 && leads_four(t[0], t[1]) && is_continuation_byte(t[2])
}

proof fn lemma_begins_char_has_bytes(t: Seq<u8>, rest: Seq<u8>)
    requires
        t.len() > 0,
        completes(t, rest),
    ensures
        begins_char_bytes(t),
{
    let all = t + rest;
    assert(all[0] == t[0]);
    if all.len() == 2 {
        lemma_two(all[0], all[1]);
    } else if all.len() == 3 {
        lemma_three(all[0], all[1], all[2]);
        assert(t.len() == 2 ==> all[1] == t[1]);
    } else if all.len() == 4 {
        lemma_four(all[0], all[1], all[2], all[3]);
        assert(t.len() >= 2 ==> all[1] == t[1]);
        assert(t.len() == 3 ==> all[2] == t[2]);
    }
}

proof fn lemma_bytes_begin_char(t: Seq<u8>)
    requires
        begins_char_bytes(t),
    ensures
        begins_char(t),
{
    let b: u8 = if t.len() > 1 {
        t[1]
    } else if t[0] == 0xe0 || t[0] == 0xf0 {
        0xa0
    } else {
        0x80
    };
    let c: u8 = if t.len() > 2 {
        t[2]
    } else {
        0x80
    };
    let whole = if t[0] <= 0xdf {
        lemma_two(t[0], b);
        seq![t[0], b]
    } else if t[0] <= 0xef {
        lemma_three(t[0], b, c);
        seq![t[0], b, c]
    } else {
        lemma_four(t[0], b, c, 0x80);
        seq![t[0], b, c, 0x80u8]
    };
    let rest = whole.skip(t.len() as int);
    assert(t + rest =~= whole);
    assert(completes(t, rest));
}

fn is_begun_char(t: &[u8]) -> (r: bool)
    requires
        t@.len() > 0,
    ensures
        r == begins_char(t@),
{
    let n: usize = t.len();
    let a: u8 = t[0];
    let r: bool = if n == 1 {
        0xc2 <= a && a <= 0xf4
    } else if n == 2 || n == 3 {
        let b: u8 = t[1];
        let cont: bool = 0x80 <= b && b <= 0xbf;
        let four: bool = 0xf0 <= a && a <= 0xf4 && cont && (a != 0xf0 || b >= 0x90) && (a != 0xf4
            || b <= 0x8f);
        if n == 2 {
            four || (0xe0 <= a && a <= 0xef && cont && (a != 0xe0 || b >= 0xa0) && (a != 0xed || b
                <= 0x9f))
        } else {
            four && 0x80 <= t[2] && t[2] <= 0xbf
        }
    } else {
        false
    };
    proof {
        assert(r == begins_char_bytes(t@));
        if r {
            lemma_bytes_begin_char(t@);
        }
        if begins_char(t@) {
            let rest = choose|rest: Seq<u8>| #[trigger] completes(t@, rest);
            lemma_begins_char_has_bytes(t@, rest);
        }
    }
    r
}

/// Tells the encoding of a file from its first bytes: UTF-8 where they begin with its byte
/// order mark or are valid, else GB18030.
pub fn sniff_encoding(data: &[u8], len: usize) -> (r: Encoding)
    requires
        len <= data@.len() || data@.len() >= SNIFF_LEN,
    ensures
        r == sniffed(data@, len as int),
{
    let n: usize = if len < SNIFF_LEN {
        len
    } else {
        SNIFF_LEN
    };
    let head: &[u8] = &data[0..n];
    assert(head@ =~= sample(data@, len as int));
    if head.len() >= 3 && head[0] == 0xef && head[1] == 0xbb && head[2] == 0xbf {
        return Encoding::Utf8;
    }
    if std::str::from_utf8(head).is_ok() {
        return Encoding::Utf8;
    }
    if len > SNIFF_LEN {
        let mut k: usize = 1;
        while k <= 3
            invariant
                1 <= k <= 4,
                n == SNIFF_LEN,
                head@.len() == n,
                len > SNIFF_LEN,
                head@ == sample(data@, len as int),
                forall|j: int| 1 <= j < k ==> !#[trigger] cut_by(head@, j),
            decreases 4 - k,
        {
            let front: &[u8] = &head[0..n - k];
            let tail: &[u8] = &head[n - k..n];
            proof {
                assert(front@ =~= head@.take(n - k));
                assert(tail@ =~= head@.skip(n - k));
            }
            if std::str::from_utf8(front).is_ok() && is_begun_char(tail) {
                assert(cut_by(head@, k as int));
                return Encoding::Utf8;
            }
            k += 1;
        }
    }
    Encoding::Gb18030
}

proof fn lemma_cut(b: Seq<u8>, m: int)
    requires
        valid_utf8(b),
        0 <= m <= b.len(),
    ensures
        valid_utf8(b.take(m)) || exists|k: int| 1 <= k <= 3 && #[trigger] cut_by(b.take(m), k),
    decreases b.len(),
{
    if m == 0 {
        assert(valid_utf8(b.take(0)));
    } else {
        let n = length_of_first_scalar(b);
        let first = take_first_scalar(b);
        let rest = pop_first_scalar(b);
        if m < n {
            let head = b.take(m);
            let tail = b.subrange(m, n);
            assert(head + tail =~= first);
            assert(completes(head, tail));
            assert(head.skip(0) =~= head);
            assert(cut_by(head, m));
        } else {
            lemma_cut(rest, m - n);
            reveal_with_fuel(valid_utf8, 2);
            assert(valid_utf8(first));
            let head = b.take(m);
            let later = rest.take(m - n);
            assert(head =~= first + later);
            if valid_utf8(later) {
                valid_utf8_concat(first, later);
            } else {
                let k = choose|k: int| 1 <= k <= 3 && #[trigger] cut_by(later, k);
                valid_utf8_concat(first, later.take(later.len() - k));
                assert(head.take(m - k) =~= first + later.take(later.len() - k));
                assert(head.skip(m - k) =~= later.skip(later.len() - k));
                assert(cut_by(head, k));
            }
        }
    }
}

/// A file in UTF-8 is taken for one, wherever its first bytes are cut off.
pub proof fn law_utf8_comes_first(data: Seq<u8>, len: int)
    requires
        0 <= len <= data.len(),
        valid_utf8(data.take(len)),
    ensures
        sniffed(data, len) is Utf8,
{
    let all = data.take(len);
    if len <= SNIFF_LEN {
        assert(sample(data, len) =~= all);
    } else {
        lemma_cut(all, SNIFF_LEN as int);
        assert(all.take(SNIFF_LEN as int) =~= sample(data, len));
    }
}

/// The text that bytes stand for. What is not valid in the encoding is replaced.
pub open spec fn text_of(raw: Seq<u8>, e: Encoding) -> Seq<char> {
    match e {
        Encoding::Utf8 => if valid_utf8(raw) {
            decode_utf8(raw)
        } else {
            outside::lossy_text(raw)
        },
        Encoding::Gb18030 => outside::gb18030_text(raw),
    }
}

/// The bytes that stand for a text.
pub open spec fn bytes_of(text: Seq<char>, e: Encoding) -> Seq<u8> {
    match e {
        Encoding::Utf8 => encode_utf8(text),
        Encoding::Gb18030 => outside::gb18030_bytes(text),
    }
}

/// The bytes can be decoded: only valid UTF-8 may be longer than one piece.
pub open spec fn decodable(raw: Seq<u8>, e: Encoding) -> bool {
    raw.len() <= outside::PIECE_MAX || (e is Utf8 && valid_utf8(raw))
}

/// The text can be encoded: only for UTF-8 may it be longer than one piece.
pub open spec fn encodable(text: Seq<char>, e: Encoding) -> bool {
    encode_utf8(text).len() <= outside::PIECE_MAX || e is Utf8
}

/// Appends the text that `raw` stands for.
pub fn decode_into(raw: &[u8], e: Encoding, out: &mut String)
    requires
        decodable(raw@, e),
    ensures
        final(out)@ == old(out)@ + text_of(raw@, e),
{
    match e {
        Encoding::Utf8 => match std::str::from_utf8(raw) {
            Ok(t) => {
                proof {
                    encode_utf8_decode_utf8(t@);
                }
                out.push_str(t);
            },
            Err(_) => {
                let t = outside::decode_lossy(raw);
                out.push_str(t.as_str());
            },
        },
        Encoding::Gb18030 => {
            let t = outside::decode_gb18030(raw);
            out.push_str(t.as_str());
        },
    }
}

/// The bytes that stand for `text`.
pub fn encode(text: &str, e: Encoding) -> (r: Vec<u8>)
    requires
        encodable(text@, e),
    ensures
        r@ == bytes_of(text@, e),
{
    match e {
        Encoding::Utf8 => vstd::slice::slice_to_vec(text.as_bytes()),
        Encoding::Gb18030 => outside::encode_gb18030(text),
    }
}

/// In UTF-8, decoding gives back every text that was encoded.
pub proof fn law_utf8_round_trip(text: Seq<char>)
    ensures
        text_of(bytes_of(text, Encoding::Utf8), Encoding::Utf8) == text,
{
    encode_utf8_valid_utf8(text);
    encode_utf8_decode_utf8(text);
}

/// A file is taken for UTF-8 if, and only if, it begins with the byte order mark, or its first
/// 65536 bytes are valid, or can be made so by more bytes where the file has more. Else it is
/// taken for GB18030.
pub proof fn law_what_is_taken_for_utf8(data: Seq<u8>, len: int, head: Seq<u8>)
    requires
        0 <= len <= data.len(),
        head.len() == len || len > 65536 && head.len() == 65536,
        head.len() <= 65536,
        head == data.take(head.len() as int),
    ensures
        sniffed(data, len) is Utf8 <==> {
            ||| head.len() >= 3 && head[0] == 0xef && head[1] == 0xbb && head[2] == 0xbf
            ||| valid_utf8(head)
            ||| len > 65536 && exists|more: Seq<u8>| #[trigger] valid_utf8(head + more)
        },
        sniffed(data, len) is Utf8 || sniffed(data, len) is Gb18030,
{
    assert(sample(data, len) =~= head);
    if len > 65536 {
        if exists|k: int| 1 <= k <= 3 && #[trigger] cut_by(head, k) {
            let k = choose|k: int| 1 <= k <= 3 && #[trigger] cut_by(head, k);
            let front = head.take(head.len() - k);
            let tail = head.skip(head.len() - k);
            let rest = choose|rest: Seq<u8>| #[trigger] completes(tail, rest);
            let one = tail + rest;
            reveal_with_fuel(valid_utf8, 2);
            assert(pop_first_scalar(one) =~= Seq::empty());
            assert(valid_utf8(one));
            valid_utf8_concat(front, one);
            assert(head + rest =~= front + one);
            assert(valid_utf8(head + rest));
        }
        if exists|more: Seq<u8>| #[trigger] valid_utf8(head + more) {
            let more = choose|more: Seq<u8>| #[trigger] valid_utf8(head + more);
            lemma_cut(head + more, head.len() as int);
            assert((head + more).take(head.len() as int) =~= head);
            assert(valid_utf8(head) || exists|k: int| 1 <= k <= 3 && #[trigger] cut_by(head, k));
        }
    }
}

/// `t` is the text that bytes stand for in an encoding.
pub open spec fn reads_as(raw: Seq<u8>, e: Encoding, t: Seq<char>) -> bool {
    &&& e is Utf8 && valid_utf8(raw) ==> encode_utf8(t) == raw
    &&& e is Utf8 && !valid_utf8(raw) ==> t == outside::lossy_text(raw)
    &&& e is Gb18030 ==> t == outside::gb18030_text(raw)
}

/// Bytes are read, and texts written, in the encoding that is asked for.
pub proof fn law_bytes_and_texts(raw: Seq<u8>, text: Seq<char>, e: Encoding)
    ensures
        reads_as(raw, e, text_of(raw, e)),
        e is Utf8 ==> bytes_of(text, e) == encode_utf8(text),
        e is Gb18030 ==> bytes_of(text, e) == outside::gb18030_bytes(text),
{
    if e is Utf8 && valid_utf8(raw) {
        decode_utf8_encode_utf8(raw);
    }
}

} // verus!
