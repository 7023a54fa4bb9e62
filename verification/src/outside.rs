//! What the library has from other crates, each call with the facts the rest of
//! the library relies on.

use memchr::memmem::{FindIter, Finder};
use regex::Regex;
use vstd::prelude::*;
use vstd::string::*;
use vstd::utf8::*;

verus! {

/// `needle` stands in `hay` at position `i`.
pub open spec fn occurs_at(hay: Seq<u8>, needle: Seq<u8>, i: int) -> bool {
    &&& 0 <= i
    &&& i + needle.len() <= hay.len()
    &&& hay.subrange(i, i + needle.len()) == needle
}

/// The positions of the leftmost non-overlapping occurrences of `needle` in `hay`,
/// looking from position `from` on. An empty needle occurs at every position.
pub open spec fn occurrences(hay: Seq<u8>, needle: Seq<u8>, from: int) -> Seq<usize>
    decreases hay.len() + 1 - from,
{
    if from < 0 || from + needle.len() > hay.len() {
        Seq::empty()
    } else if occurs_at(hay, needle, from) {
        let step: int = if needle.len() == 0 {
            1
        } else {
            needle.len() as int
        };
        seq![from as usize] + occurrences(hay, needle, from + step)
    } else {
        occurrences(hay, needle, from + 1)
    }
}

/// `memchr::memchr` gives the first position of a byte, and nothing if the byte is absent.
pub assume_specification[ memchr::memchr ](needle: u8, haystack: &[u8]) -> (r: Option<usize>)
    ensures
        match r {
            Some(i) => {
                &&& i < haystack@.len()
                &&& haystack@[i as int] == needle
                &&& forall|j: int| 0 <= j < i ==> haystack@[j] != needle
            },
            None => forall|j: int| 0 <= j < haystack@.len() ==> haystack@[j] != needle,
        },
;

/// `memchr::memrchr` gives the last position of a byte, and nothing if the byte is absent.
pub assume_specification[ memchr::memrchr ](needle: u8, haystack: &[u8]) -> (r: Option<usize>)
    ensures
        match r {
            Some(i) => {
                &&& i < haystack@.len()
                &&& haystack@[i as int] == needle
                &&& forall|j: int| i < j < haystack@.len() ==> haystack@[j] != needle
            },
            None => forall|j: int| 0 <= j < haystack@.len() ==> haystack@[j] != needle,
        },
;

/// `memchr::memmem::find` gives the position of the first occurrence of the needle, and
/// nothing if there is none.
pub assume_specification[ memchr::memmem::find ](haystack: &[u8], needle: &[u8]) -> (r: Option<
    usize,
>)
    ensures
        match r {
            Some(i) => {
                &&& occurs_at(haystack@, needle@, i as int)
                &&& forall|j: int| 0 <= j < i ==> !occurs_at(haystack@, needle@, j)
            },
            None => forall|j: int| !occurs_at(haystack@, needle@, j),
        },
;

/// A substring searcher, made for one needle.
#[verifier::external_type_specification]
#[verifier::external_body]
pub struct ExFinder<'n>(Finder<'n>);

/// The occurrences that are still to come out of a running search.
#[verifier::external_type_specification]
#[verifier::external_body]
pub struct ExFindIter<'h, 'n>(FindIter<'h, 'n>);

/// The needle that a searcher was made for.
pub uninterp spec fn needle_of(finder: Finder<'_>) -> Seq<u8>;

/// The positions that a running search has yet to hand out, in the order in which they come.
pub uninterp spec fn hits_to_come(search: FindIter<'_, '_>) -> Seq<usize>;

/// `Finder::new` makes a searcher for the needle it is given.
#[verifier::external_body]
pub(crate) fn finder_for<'n>(needle: &'n [u8]) -> (finder: Finder<'n>)
    ensures
        needle_of(finder) == needle@,
{
    Finder::new(needle)
}

/// `Finder::find_iter` starts a search that hands out the non-overlapping occurrences of
/// the needle, from the left.
#[verifier::external_body]
pub(crate) fn search_with<'h, 'n>(finder: &'n Finder<'n>, hay: &'h [u8]) -> (search: FindIter<
    'h,
    'n,
>)
    ensures
        hits_to_come(search) == occurrences(hay@, needle_of(*finder), 0),
{
    finder.find_iter(hay)
}

/// `FindIter::next` hands out the next position, and nothing once all have come.
#[verifier::external_body]
pub(crate) fn next_hit(search: &mut FindIter<'_, '_>) -> (hit: Option<usize>)
    ensures
        match hit {
            Some(pos) => {
                &&& hits_to_come(*old(search)).len() > 0
                &&& pos == hits_to_come(*old(search))[0]
                &&& hits_to_come(*final(search)) == hits_to_come(*old(search)).drop_first()
            },
            None => {
                &&& hits_to_come(*old(search)).len() == 0
                &&& hits_to_come(*final(search)).len() == 0
            },
        },
{
    search.next()
}

/// A compiled regular expression.
#[verifier::external_type_specification]
#[verifier::external_body]
pub struct ExRegex(Regex);

/// The pattern that a compiled regular expression holds.
pub uninterp spec fn pattern_of(re: Regex) -> Seq<char>;

/// Whether a pattern matches somewhere in a text.
pub uninterp spec fn pattern_matches(pattern: Seq<char>, text: Seq<char>) -> bool;

/// Where a pattern matches in a text: the bytes from and up to which each match reaches.
pub uninterp spec fn pattern_spans(pattern: Seq<char>, text: Seq<char>) -> Seq<(usize, usize)>;

/// What is wrong with the way a pattern is written, if anything is.
pub uninterp spec fn syntax_error(pattern: Seq<char>) -> Option<Seq<char>>;

/// Why a pattern does not compile.
#[derive(Debug)]
pub enum RegexFault {
    /// It is not written as a regular expression.
    Syntax(String),
    /// Its compiled form would be too large.
    Size(String),
}

/// `Regex::new` compiles a pattern, or gives the reason why it does not. A pattern that is not
/// written as a regular expression never compiles, and what is said of it depends on the
/// pattern alone. Which of the others do not compile is left open: how large the compiled form
/// becomes depends on the machine.
#[verifier::external_body]
pub(crate) fn compile_regex(pattern: &str) -> (r: Result<Regex, RegexFault>)
    ensures
        match r {
            Ok(re) => pattern_of(re) == pattern@ && syntax_error(pattern@) is None,
            Err(RegexFault::Syntax(reason)) => syntax_error(pattern@) == Some(reason@),
            Err(RegexFault::Size(_)) => syntax_error(pattern@) is None,
        },
{
    match Regex::new(pattern) {
        Ok(re) => Ok(re),
        Err(regex::Error::Syntax(reason)) => Err(RegexFault::Syntax(reason)),
        Err(e) => Err(RegexFault::Size(e.to_string())),
    }
}

/// `Regex::is_match` tells whether the pattern matches somewhere in the text.
#[verifier::external_body]
pub(crate) fn regex_is_match(re: &Regex, text: &str) -> (r: bool)
    ensures
        r == pattern_matches(pattern_of(*re), text@),
{
    re.is_match(text)
}

/// `Regex::find_iter` gives the matches in the text, each from its first byte up to the byte
/// behind it. They come from the left, none overlaps the one before it, and each begins and
/// ends between two characters.
#[verifier::external_body]
pub(crate) fn regex_spans(re: &Regex, text: &str) -> (r: Vec<(usize, usize)>)
    ensures
        r@ == pattern_spans(pattern_of(*re), text@),
        forall|k: int|
            0 <= k < r@.len() ==> {
                &&& (#[trigger] r@[k]).0 <= r@[k].1 <= text.spec_bytes().len()
                &&& is_char_boundary(text.spec_bytes(), r@[k].0 as int)
                &&& is_char_boundary(text.spec_bytes(), r@[k].1 as int)
            },
        forall|j: int, k: int| 0 <= j < k < r@.len() ==> (#[trigger] r@[j]).1 <= (#[trigger] r@[k]).0,
{
    re.find_iter(text).map(|m| (m.start(), m.end())).collect()
}

/// The most bytes that are decoded or encoded in one piece. The buffer that the result needs
/// is several times as large, and its size has to fit into a `usize`.
pub const PIECE_MAX: usize = usize::MAX / 16;

/// The text that GB18030 bytes stand for.
pub uninterp spec fn gb18030_text(raw: Seq<u8>) -> Seq<char>;

/// The GB18030 bytes that stand for a text.
pub uninterp spec fn gb18030_bytes(text: Seq<char>) -> Seq<u8>;

/// `Encoding::decode` of `encoding_rs::GB18030` turns bytes into text. A byte order mark at
/// the beginning is taken off and decides how the rest is read; what cannot be read becomes
/// replacement characters.
#[verifier::external_body]
pub(crate) fn decode_gb18030(raw: &[u8]) -> (r: String)
    requires
        raw@.len() <= PIECE_MAX,
    ensures
        r@ == gb18030_text(raw@),
{
    encoding_rs::GB18030.decode(raw).0.into_owned()
}

/// `Encoding::encode` of `encoding_rs::GB18030` turns text into bytes.
#[verifier::external_body]
pub(crate) fn encode_gb18030(text: &str) -> (r: Vec<u8>)
    requires
        text.spec_bytes().len() <= PIECE_MAX,
    ensures
        r@ == gb18030_bytes(text@),
{
    encoding_rs::GB18030.encode(text).0.into_owned()
}

/// Why bytes are not UTF-8.
#[verifier::external_type_specification]
#[verifier::external_body]
pub struct ExUtf8Error(std::str::Utf8Error);

/// `std::str::from_utf8` takes bytes for text if they are valid UTF-8, and only then.
pub assume_specification[ std::str::from_utf8 ](v: &[u8]) -> (r: Result<&str, std::str::Utf8Error>)
    ensures
        r is Ok <==> valid_utf8(v@),
        r matches Ok(t) ==> t.spec_bytes() == v@,
;

/// The text that bytes stand for in UTF-8, with a replacement character for each piece that
/// is not valid.
pub uninterp spec fn lossy_text(raw: Seq<u8>) -> Seq<char>;

/// `String::from_utf8_lossy` turns bytes into text and replaces what is not valid UTF-8.
#[verifier::external_body]
pub(crate) fn decode_lossy(raw: &[u8]) -> (r: String)
    requires
        raw@.len() <= PIECE_MAX,
    ensures
        r@ == lossy_text(raw@),
{
    String::from_utf8_lossy(raw).into_owned()
}

/// A text in lower case.
pub uninterp spec fn lowercase_text(t: Seq<char>) -> Seq<char>;

/// `str::to_lowercase` turns a text into lower case.
#[verifier::external_body]
pub(crate) fn lowercase(t: &str) -> (r: String)
    ensures
        r@ == lowercase_text(t@),
{
    t.to_lowercase()
}

/// `String::push` appends one character.
pub assume_specification[ String::push ](s: &mut String, c: char)
    ensures
        final(s)@ == old(s)@.push(c),
;

/// `String::push_str` appends a text.
pub assume_specification[ String::push_str ](s: &mut String, t: &str)
    ensures
        final(s)@ == old(s)@ + t@,
;

/// A reading of the machine's clock.
#[verifier::external_type_specification]
#[verifier::external_body]
pub struct ExSystemTime(std::time::SystemTime);

/// How far one reading of the clock lies before another.
#[verifier::external_type_specification]
#[verifier::external_body]
pub struct ExSystemTimeError(std::time::SystemTimeError);

/// `SystemTime::now` reads the clock; nothing is said of what it shows.
pub assume_specification[ std::time::SystemTime::now ]() -> std::time::SystemTime;

/// `SystemTime::duration_since` gives the time between two readings of the clock, or an error
/// if they are in the wrong order; nothing is said of how long it is.
pub assume_specification[ std::time::SystemTime::duration_since ](
    later: &std::time::SystemTime,
    earlier: std::time::SystemTime,
) -> Result<std::time::Duration, std::time::SystemTimeError>;

/// `Duration::as_secs` gives the whole seconds of a duration; nothing is said of how many.
pub assume_specification[ std::time::Duration::as_secs ](d: &std::time::Duration) -> u64;

/// `std::time::UNIX_EPOCH` is the beginning of 1970.
#[verifier::external_body]
pub(crate) fn unix_epoch() -> std::time::SystemTime {
    std::time::UNIX_EPOCH
}

} // verus!
