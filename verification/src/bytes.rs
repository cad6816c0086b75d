//! Byte primitives: the model every scan is stated over.
//!
//! A source is a `&str` of UTF-8 text; scans read it as the sequence of its bytes and speak of byte
//! offsets. A cursor may overshoot the end by the second byte of an escape, so reads past the end
//! give `None` rather than fail.

use vstd::prelude::*;
use vstd::string::StringSliceAdditionalSpecFns;
use vstd::slice::slice_subrange;
use crate::ascii::{
    COLON, DIGIT_0, DIGIT_9, DOLLAR, DOT, HYPHEN, LOWER_A, LOWER_Z, NEWLINE, RETURN, SPACE, TAB,
    UNDERSCORE, UPPER_A, UPPER_Z,
};

verus! {

/// A half-open range of byte offsets into a source.
#[derive(Clone, Copy, Debug, PartialEq, Eq, Structural)]
pub struct Span {
    /// First byte of the range.
    pub start: u32,
    /// One past the last byte of the range.
    pub end: u32,
}

impl Span {
    /// The range from `start` up to, not including, `end`.
    pub fn new(start: u32, end: u32) -> (span: Span)
        ensures
            span == (Span { start, end }),
    {
        Span { start, end }
    }
}

/// The bytes of a source.
pub open spec fn utf8(source: &str) -> Seq<u8> {
    source.spec_bytes()
}

/// Offsets into `s` fit a `u32`, with room for a cursor that oversteps the end by an escape.
pub open spec fn addressable(s: Seq<u8>) -> bool {
    s.len() + 2 <= u32::MAX
}

/// The byte at `i`, if there is one.
pub open spec fn at(s: Seq<u8>, i: int) -> Option<u8> {
    if 0 <= i < s.len() {
        Some(s[i])
    } else {
        None
    }
}

/// An ASCII letter.
pub open spec fn is_letter(b: u8) -> bool {
    LOWER_A <= b <= LOWER_Z || UPPER_A <= b <= UPPER_Z
}

/// An ASCII digit.
pub open spec fn is_digit(b: u8) -> bool {
    DIGIT_0 <= b <= DIGIT_9
}

/// An ASCII letter or digit.
pub open spec fn is_alnum(b: u8) -> bool {
    is_letter(b) || is_digit(b)
}

/// An ASCII whitespace byte: space, tab, line feed, form feed or carriage return.
pub open spec fn is_space(b: u8) -> bool {
    b == SPACE || b == TAB || b == NEWLINE || b == 0x0c || b == RETURN
}

/// The byte classes the scans run over.
#[derive(Clone, Copy, PartialEq, Eq, Structural)]
pub enum ByteClass {
    /// Space or tab.
    InlineSpace,
    /// Space, tab or carriage return.
    LineTail,
    /// Space, tab, carriage return or line feed.
    Blank,
    /// A letter, digit or `_`.
    Word,
    /// A letter, digit, `_`, `:` or `-`.
    Label,
    /// A letter, digit, `_` or `$`.
    Ident,
    /// A letter, digit, `_`, `$`, `.` or any byte of a non-ASCII character.
    Head,
    /// A digit.
    Digit,
}

/// Does `b` belong to class `c`?
pub open spec fn in_class(c: ByteClass, b: u8) -> bool {
    match c {
        ByteClass::InlineSpace => b == SPACE || b == TAB,
        ByteClass::LineTail => b == SPACE || b == TAB || b == RETURN,
        ByteClass::Blank => b == SPACE || b == TAB || b == RETURN || b == NEWLINE,
        ByteClass::Word => is_alnum(b) || b == UNDERSCORE,
        ByteClass::Label => is_alnum(b) || b == UNDERSCORE || b == COLON || b == HYPHEN,
        ByteClass::Ident => is_alnum(b) || b == UNDERSCORE || b == DOLLAR,
        ByteClass::Head => is_alnum(b) || b == UNDERSCORE || b == DOLLAR || b == DOT || b >= 0x80,
        ByteClass::Digit => is_digit(b),
    }
}

/// The end of the longest run of class-`c` bytes that starts at `i`.
pub open spec fn skip(s: Seq<u8>, i: int, c: ByteClass) -> int
    decreases s.len() - i,
{
    if 0 <= i < s.len() && in_class(c, s[i]) {
        skip(s, i + 1, c)
    } else {
        i
    }
}

/// The end of the longest run of the byte `b` that starts at `i`.
pub open spec fn run_end(s: Seq<u8>, i: int, b: u8) -> int
    decreases s.len() - i,
{
    if 0 <= i < s.len() && s[i] == b {
        run_end(s, i + 1, b)
    } else {
        i
    }
}

/// The first offset at or after `i` that holds `b`, or the end of `s`.
pub open spec fn next_byte(s: Seq<u8>, i: int, b: u8) -> int
    decreases s.len() - i,
{
    if 0 <= i < s.len() && s[i] != b {
        next_byte(s, i + 1, b)
    } else if i < s.len() {
        i
    } else {
        s.len() as int
    }
}

/// The first offset at or after `i` where the bytes `a`, `b` stand side by side, if any.
pub open spec fn next_pair(s: Seq<u8>, i: int, a: u8, b: u8) -> Option<int>
    decreases s.len() - i,
{
    if 0 <= i && i + 1 < s.len() {
        if s[i] == a && s[i + 1] == b {
            Some(i)
        } else {
            next_pair(s, i + 1, a, b)
        }
    } else {
        None
    }
}

/// `i`, brought back to the end of `s` when it lies past it.
pub open spec fn clamp(s: Seq<u8>, i: int) -> int {
    if i <= s.len() {
        i
    } else {
        s.len() as int
    }
}

/// A run of a class stays inside `s`, holds only that class, and ends where the class does.
pub proof fn skip_bounds(s: Seq<u8>, i: int, c: ByteClass)
    requires
        0 <= i,
    ensures
        i <= skip(s, i, c),
        i <= s.len() ==> skip(s, i, c) <= s.len(),
        i > s.len() ==> skip(s, i, c) == i,
        forall|k: int| i <= k < skip(s, i, c) ==> in_class(c, #[trigger] s[k]),
        skip(s, i, c) < s.len() ==> !in_class(c, s[skip(s, i, c)]),
    decreases s.len() - i,
{
    if 0 <= i < s.len() && in_class(c, s[i]) {
        skip_bounds(s, i + 1, c);
    }
}

/// A run of one byte stays inside `s`, holds only that byte, and ends where the byte does.
pub proof fn run_bounds(s: Seq<u8>, i: int, b: u8)
    requires
        0 <= i,
    ensures
        i <= run_end(s, i, b),
        i <= s.len() ==> run_end(s, i, b) <= s.len(),
        i > s.len() ==> run_end(s, i, b) == i,
        forall|k: int| i <= k < run_end(s, i, b) ==> #[trigger] s[k] == b,
        at(s, run_end(s, i, b)) != Some(b),
    decreases s.len() - i,
{
    if 0 <= i < s.len() && s[i] == b {
        run_bounds(s, i + 1, b);
    }
}

/// `next_byte` finds the first `b` at or after `i`.
pub proof fn next_byte_first(s: Seq<u8>, i: int, b: u8)
    requires
        0 <= i <= s.len(),
    ensures
        i <= next_byte(s, i, b) <= s.len(),
        forall|k: int| i <= k < next_byte(s, i, b) ==> #[trigger] s[k] != b,
        next_byte(s, i, b) < s.len() ==> s[next_byte(s, i, b)] == b,
    decreases s.len() - i,
{
    if i < s.len() && s[i] != b {
        next_byte_first(s, i + 1, b);
    }
}

/// The offset of the first `b` is the only one with nothing equal to `b` before it.
pub proof fn next_byte_unique(s: Seq<u8>, i: int, b: u8, j: int)
    requires
        0 <= i <= j <= s.len(),
        forall|k: int| i <= k < j ==> #[trigger] s[k] != b,
        j < s.len() ==> s[j] == b,
    ensures
        next_byte(s, i, b) == j,
    decreases s.len() - i,
{
    next_byte_first(s, i, b);
    let n = next_byte(s, i, b);
    if n < j {
        assert(s[n] != b);
    }
    if j < n {
        assert(s[j] != b);
    }
}

/// `next_pair` finds the first such pair at or after `i`, and misses none.
pub proof fn next_pair_first(s: Seq<u8>, i: int, a: u8, b: u8)
    requires
        0 <= i,
    ensures
        next_pair(s, i, a, b) matches Some(j) ==> i <= j && j + 1 < s.len() && s[j] == a && s[j + 1]
            == b,
        forall|k: int|
            i <= k && k + 1 < s.len() && (next_pair(s, i, a, b) matches Some(j) ==> k < j) ==> !(
            #[trigger] s[k] == a && s[k + 1] == b),
    decreases s.len() - i,
{
    if i + 1 < s.len() && !(s[i] == a && s[i + 1] == b) {
        next_pair_first(s, i + 1, a, b);
    }
}

/// `memchr::memchr` gives the index of the first `needle` in `haystack`, or `None` when there is
/// none.
pub assume_specification[ memchr::memchr ](needle: u8, haystack: &[u8]) -> (found: Option<usize>)
    ensures
        match found {
            Some(k) => k < haystack@.len() && haystack@[k as int] == needle && forall|j: int|
                0 <= j < k ==> #[trigger] haystack@[j] != needle,
            None => forall|j: int| 0 <= j < haystack@.len() ==> #[trigger] haystack@[j] != needle,
        },
;

/// `memchr::memmem::find` gives the index of the first place where `needle` stands in `haystack`,
/// or `None` when it stands nowhere.
pub assume_specification[ memchr::memmem::find ](haystack: &[u8], needle: &[u8]) -> (found: Option<
    usize,
>)
    ensures
        match found {
            Some(k) => k + needle@.len() <= haystack@.len() && haystack@.subrange(
                k as int,
                k + needle@.len(),
            ) == needle@ && forall|j: int|
                0 <= j < k ==> #[trigger] haystack@.subrange(j, j + needle@.len()) != needle@,
            None => forall|j: int|
                0 <= j <= haystack@.len() - needle@.len() ==> #[trigger] haystack@.subrange(
                    j,
                    j + needle@.len(),
                ) != needle@,
        },
;

/// Is `b` an ASCII letter?
pub fn ascii_letter(b: u8) -> (yes: bool)
    ensures
        yes == is_letter(b),
{
    (LOWER_A <= b && b <= LOWER_Z) || (UPPER_A <= b && b <= UPPER_Z)
}

/// Is `b` an ASCII letter or digit?
pub fn ascii_alnum(b: u8) -> (yes: bool)
    ensures
        yes == is_alnum(b),
{
    ascii_letter(b) || (DIGIT_0 <= b && b <= DIGIT_9)
}

/// Is `b` ASCII whitespace?
pub fn ascii_space(b: u8) -> (yes: bool)
    ensures
        yes == is_space(b),
{
    b == SPACE || b == TAB || b == NEWLINE || b == 0x0c || b == RETURN
}

/// Does `b` belong to class `c`?
pub fn class_holds(c: ByteClass, b: u8) -> (yes: bool)
    ensures
        yes == in_class(c, b),
{
    match c {
        ByteClass::InlineSpace => b == SPACE || b == TAB,
        ByteClass::LineTail => b == SPACE || b == TAB || b == RETURN,
        ByteClass::Blank => b == SPACE || b == TAB || b == RETURN || b == NEWLINE,
        ByteClass::Word => ascii_alnum(b) || b == UNDERSCORE,
        ByteClass::Label => ascii_alnum(b) || b == UNDERSCORE || b == COLON || b == HYPHEN,
        ByteClass::Ident => ascii_alnum(b) || b == UNDERSCORE || b == DOLLAR,
        ByteClass::Head => ascii_alnum(b) || b == UNDERSCORE || b == DOLLAR || b == DOT || b >= 0x80,
        ByteClass::Digit => DIGIT_0 <= b && b <= DIGIT_9,
    }
}

/// The byte of `s` at `i`, or `None` at or past the end.
pub fn get(s: &[u8], i: usize) -> (byte: Option<u8>)
    ensures
        byte == at(s@, i as int),
{
    if i < s.len() {
        Some(s[i])
    } else {
        None
    }
}

/// Are the two bytes at `i` exactly `a`, `b`?
pub fn at_pair(s: &[u8], i: usize, a: u8, b: u8) -> (yes: bool)
    ensures
        yes == (at(s@, i as int) == Some(a) && at(s@, i + 1) == Some(b)),
{
    i < s.len() && s[i] == a && i + 1 < s.len() && s[i + 1] == b
}

/// The end of the run of class-`c` bytes at `i`.
pub fn skip_class(s: &[u8], i: usize, c: ByteClass) -> (end: usize)
    ensures
        end == skip(s@, i as int, c),
        i <= end,
        i <= s.len() ==> end <= s.len(),
        i > s.len() ==> end == i,
{
    let mut j: usize = i;
    while j < s.len() && class_holds(c, s[j])
        invariant
            i <= j,
            i <= s.len() ==> j <= s.len(),
            i > s.len() ==> j == i,
            skip(s@, j as int, c) == skip(s@, i as int, c),
        decreases s.len() - j,
    {
        j = j + 1;
    }
    j
}

/// The end of the run of the byte `b` at `i`.
pub fn skip_run(s: &[u8], i: usize, b: u8) -> (end: usize)
    ensures
        end == run_end(s@, i as int, b),
        i <= end,
        i <= s.len() ==> end <= s.len(),
        i > s.len() ==> end == i,
{
    let mut j: usize = i;
    while j < s.len() && s[j] == b
        invariant
            i <= j,
            i <= s.len() ==> j <= s.len(),
            i > s.len() ==> j == i,
            run_end(s@, j as int, b) == run_end(s@, i as int, b),
        decreases s.len() - j,
    {
        j = j + 1;
    }
    j
}

/// The first `b` at or after `i`, or the end of `s`.
pub fn find_byte(s: &[u8], i: usize, b: u8) -> (found: usize)
    requires
        i <= s.len(),
    ensures
        found == next_byte(s@, i as int, b),
        i <= found <= s.len(),
{
    let rest = slice_subrange(s, i, s.len());
    match memchr::memchr(b, rest) {
        Some(k) => {
            proof {
                assert forall|j: int| i <= j < i + k implies #[trigger] s@[j] != b by {
                    assert(rest@[j - i] != b);
                }
                assert(rest@[k as int] == s@[i + k]);
                next_byte_unique(s@, i as int, b, i + k);
            }
            i + k
        },
        None => {
            proof {
                assert forall|j: int| i <= j < s@.len() implies #[trigger] s@[j] != b by {
                    assert(rest@[j - i] != b);
                }
                next_byte_unique(s@, i as int, b, s@.len() as int);
            }
            s.len()
        },
    }
}

/// The first place at or after `i` where `a`, `b` stand side by side.
pub fn find_pair(s: &[u8], i: usize, a: u8, b: u8) -> (found: Option<usize>)
    requires
        i <= s.len(),
    ensures
        match found {
            Some(k) => next_pair(s@, i as int, a, b) == Some(k as int) && i <= k && k + 1 < s.len(),
            None => next_pair(s@, i as int, a, b) is None,
        },
{
    let rest = slice_subrange(s, i, s.len());
    let needle: [u8; 2] = [a, b];
    let found = memchr::memmem::find(rest, needle.as_slice());
    proof {
        next_pair_first(s@, i as int, a, b);
        let want = needle@;
        assert forall|j: int| 0 <= j && j + 2 <= rest@.len() implies (#[trigger] rest@.subrange(
            j,
            j + 2,
        ) == want) == (s@[i + j] == a && s@[i + j + 1] == b) by {
            let sub = rest@.subrange(j, j + 2);
            assert(sub[0] == s@[i + j]);
            assert(sub[1] == s@[i + j + 1]);
            if s@[i + j] == a && s@[i + j + 1] == b {
                assert(sub =~= want);
            }
        }
        if let Some(k) = found {
            assert(rest@.subrange(k as int, k + 2) == want);
            match next_pair(s@, i as int, a, b) {
                Some(n) => {
                    if n < i + k {
                        assert(rest@.subrange(n - i, n - i + 2) != want);
                    }
                },
                None => {},
            }
            assert(s@[i + k] == a);
        } else {
            match next_pair(s@, i as int, a, b) {
                Some(n) => {
                    assert(rest@.subrange(n - i, n - i + 2) != want);
                },
                None => {},
            }
        }
    }
    match found {
        Some(k) => Some(i + k),
        None => None,
    }
}

/// Peek the raw byte at `offset`, or `None` at or after the end of the source.
pub fn byte_at(source: &str, offset: u32) -> (byte: Option<u8>)
    ensures
        byte == at(utf8(source), offset as int),
{
    get(source.as_bytes(), offset as usize)
}

/// The end of the run of `byte` starting at `off`, brought back to the source end.
pub fn sigil_run_end(source: &str, off: u32, byte: u8) -> (end: u32)
    requires
        addressable(utf8(source)),
    ensures
        end == clamp(utf8(source), run_end(utf8(source), off as int, byte)),
{
    let s = source.as_bytes();
    let end: usize = skip_run(s, off as usize, byte);
    if end <= s.len() {
        end as u32
    } else {
        s.len() as u32
    }
}

} // verus!
