//! JavaScript string literals: what a literal spells.

use vstd::prelude::*;
use vstd::slice::slice_subrange;
use vstd::utf8::{
    encode_scalar, encode_utf8, encode_utf8_valid_utf8, is_scalar, valid_utf8, valid_utf8_concat,
};
use crate::ascii::{
    BACKSLASH, DIGIT_0, DIGIT_9, DQUOTE, LBRACE, LOWER_A, LOWER_B, LOWER_F, LOWER_N, LOWER_R,
    LOWER_T, LOWER_U, LOWER_V, LOWER_X, NEWLINE, RBRACE, RETURN, SQUOTE, UPPER_A, UPPER_F,
};
use crate::bytes::{at, get};
use crate::unicode::{
    ascii_is_valid, ascii_splits, ascii_then_boundary, boundary, char_bounds, cut_is_valid,
};

verus! {

/// The value of a hexadecimal digit.
pub open spec fn hex_digit(b: u8) -> Option<int> {
    if DIGIT_0 <= b <= DIGIT_9 {
        Some(b - DIGIT_0)
    } else if LOWER_A <= b <= LOWER_F {
        Some(b - LOWER_A + 10)
    } else if UPPER_A <= b <= UPPER_F {
        Some(b - UPPER_A + 10)
    } else {
        None
    }
}

/// The value of the hexadecimal digits from `i` to `j`, if they are all digits and the value is that
/// of a character at most.
pub open spec fn hex_value(t: Seq<u8>, i: int, j: int) -> Option<int>
    decreases j - i,
{
    if i >= j {
        Some(0)
    } else {
        match (hex_value(t, i, j - 1), at(t, j - 1)) {
            (Some(high), Some(b)) => match hex_digit(b) {
                Some(low) => if high * 16 + low <= 0x10ffff {
                    Some(high * 16 + low)
                } else {
                    None
                },
                None => None,
            },
            _ => None,
        }
    }
}

/// The first `}` at or after `i`, or the end.
pub open spec fn brace_after(t: Seq<u8>, i: int) -> int
    decreases t.len() - i,
{
    if 0 <= i < t.len() && t[i] != RBRACE {
        brace_after(t, i + 1)
    } else {
        i
    }
}

/// The code that the `\u` escape at `i` names, and where the escape ends.
pub open spec fn unicode_escape(t: Seq<u8>, i: int) -> Option<(int, int)> {
    if at(t, i) == Some(BACKSLASH) && at(t, i + 1) == Some(LOWER_U) {
        if at(t, i + 2) == Some(LBRACE) {
            let close = brace_after(t, i + 3);
            match hex_value(t, i + 3, close) {
                Some(code) => if i + 3 < close < t.len() {
                    Some((code, close + 1))
                } else {
                    None
                },
                None => None,
            }
        } else {
            match hex_value(t, i + 2, i + 6) {
                Some(code) => Some((code, i + 6)),
                None => None,
            }
        }
    } else {
        None
    }
}

/// A character as UTF-8.
pub open spec fn encoded(code: int) -> Seq<u8> {
    encode_scalar(code as u32)
}

/// The character that the `\u` escapes at `i` spell, and where they end. Two surrogates spell one
/// character; one alone spells none.
pub open spec fn escaped_char(t: Seq<u8>, i: int) -> Option<(int, int)> {
    match unicode_escape(t, i) {
        Some((code, end)) => if 0xd800 <= code < 0xdc00 {
            match unicode_escape(t, end) {
                Some((low, after)) => if 0xdc00 <= low < 0xe000 {
                    Some((0x10000 + (code - 0xd800) * 1024 + (low - 0xdc00), after))
                } else {
                    None
                },
                None => None,
            }
        } else if 0xdc00 <= code < 0xe000 {
            None
        } else {
            Some((code, end))
        },
        None => None,
    }
}

/// The byte that a backslash and the letter `b` stand for.
pub open spec fn control_byte(b: u8) -> Option<u8> {
    if b == LOWER_N {
        Some(0x0a)
    } else if b == LOWER_T {
        Some(0x09)
    } else if b == LOWER_R {
        Some(0x0d)
    } else if b == LOWER_B {
        Some(0x08)
    } else if b == LOWER_V {
        Some(0x0b)
    } else if b == LOWER_F {
        Some(0x0c)
    } else {
        None
    }
}

/// Is `b` a decimal digit?
pub open spec fn is_digit(b: u8) -> bool {
    DIGIT_0 <= b <= DIGIT_9
}

/// What the escape whose backslash stands at `i` spells, and where it ends; none where it is not an
/// escape of a module's strings.
pub open spec fn escape_at(t: Seq<u8>, i: int) -> Option<(Seq<u8>, int)> {
    match at(t, i + 1) {
        None => None,
        Some(b) => if control_byte(b) is Some {
            Some((seq![control_byte(b)->0], i + 2))
        } else if is_digit(b) {
            if b == DIGIT_0 && !(at(t, i + 2) matches Some(d) && is_digit(d)) {
                Some((seq![0u8], i + 2))
            } else {
                None
            }
        } else if b == LOWER_X {
            match hex_value(t, i + 2, i + 4) {
                Some(code) => Some((encoded(code), i + 4)),
                None => None,
            }
        } else if b == LOWER_U {
            match escaped_char(t, i) {
                Some((code, end)) => Some((encoded(code), end)),
                None => None,
            }
        } else if b == NEWLINE {
            Some((Seq::empty(), i + 2))
        } else if b == RETURN {
            Some((Seq::empty(), if at(t, i + 2) == Some(NEWLINE) {
                i + 3
            } else {
                i + 2
            }))
        } else if b == 0xe2 && at(t, i + 2) == Some(0x80u8) && (at(t, i + 3) == Some(0xa8u8) || at(
            t,
            i + 3,
        ) == Some(0xa9u8)) {
            Some((Seq::empty(), i + 4))
        } else {
            Some((seq![b], i + 2))
        },
    }
}

/// An escape ends past its backslash, inside the text.
pub proof fn escape_bounds(t: Seq<u8>, i: int)
    requires
        0 <= i,
    ensures
        escape_at(t, i) matches Some((v, end)) ==> i + 2 <= end <= t.len(),
{
    if let Some((code, end)) = unicode_escape(t, i) {
        unicode_bounds(t, i);
        unicode_bounds(t, end);
    }
    hex_bounds(t, i + 2, i + 4);
}

proof fn hex_bounds(t: Seq<u8>, i: int, j: int)
    requires
        0 <= i < j,
    ensures
        hex_value(t, i, j) is Some ==> j <= t.len(),
        hex_value(t, i, j) matches Some(v) ==> 0 <= v <= 0x10ffff,
    decreases j - i,
{
    if i < j - 1 {
        hex_bounds(t, i, j - 1);
    } else {
        assert(hex_value(t, i, j - 1) == Some(0int));
    }
}

proof fn brace_bounds(t: Seq<u8>, i: int)
    requires
        0 <= i,
    ensures
        i <= brace_after(t, i),
        i <= t.len() ==> brace_after(t, i) <= t.len(),
        brace_after(t, i) < t.len() ==> t[brace_after(t, i)] == RBRACE,
    decreases t.len() - i,
{
    if i < t.len() && t[i] != RBRACE {
        brace_bounds(t, i + 1);
    }
}

proof fn unicode_bounds(t: Seq<u8>, i: int)
    requires
        0 <= i,
    ensures
        unicode_escape(t, i) matches Some((code, end)) ==> i + 2 < end <= t.len() && 0 <= code
            <= 0x10ffff,
{
    brace_bounds(t, i + 3);
    if brace_after(t, i + 3) > i + 3 {
        hex_bounds(t, i + 3, brace_after(t, i + 3));
    }
    hex_bounds(t, i + 2, i + 6);
}

/// What the text of a literal from `i` on spells, after `acc`; none where it is not the text of one
/// literal in `quote`s.
pub open spec fn spelled_after(acc: Seq<u8>, t: Seq<u8>, i: int, quote: u8) -> Option<Seq<u8>>
    decreases t.len() - i,
{
    if 0 <= i < t.len() {
        if t[i] == quote || t[i] == NEWLINE || t[i] == RETURN {
            None
        } else if t[i] == BACKSLASH {
            proof {
                escape_bounds(t, i);
            }
            match escape_at(t, i) {
                Some((v, end)) => spelled_after(acc + v, t, end, quote),
                None => None,
            }
        } else {
            spelled_after(acc.push(t[i]), t, i + 1, quote)
        }
    } else {
        Some(acc)
    }
}

/// What `t` spells, if it is a string literal. A literal with half a surrogate pair spells no text.
pub open spec fn literal(t: Seq<u8>) -> Option<Seq<u8>> {
    if t.len() >= 2 && (t[0] == DQUOTE || t[0] == SQUOTE) && t.last() == t[0] {
        spelled_after(Seq::empty(), t.subrange(1, t.len() - 1), 0, t[0])
    } else {
        None
    }
}

/// A character as UTF-8 is valid.
proof fn encoded_is_valid(code: int)
    requires
        0 <= code <= 0x10ffff,
        is_scalar(code as u32),
    ensures
        valid_utf8(encoded(code)),
{
    let c = (code as u32) as char;
    let one = seq![c];
    encode_utf8_valid_utf8(one);
    assert(one.drop_first() =~= Seq::<char>::empty());
    assert(encode_utf8(one.drop_first()) =~= Seq::<u8>::empty());
    assert(encode_utf8(one) =~= encoded(code));
}

/// What an escape spells is valid, and it ends where a character does.
proof fn escape_is_valid(t: Seq<u8>, i: int)
    requires
        valid_utf8(t),
        0 <= i < t.len(),
        t[i] == BACKSLASH,
    ensures
        escape_at(t, i) matches Some((v, end)) ==> {
            ||| valid_utf8(v) && boundary(t, end)
            ||| end == i + 2 && v == seq![t[i + 1]]
        },
{
    escape_bounds(t, i);
    if let Some((v, end)) = escape_at(t, i) {
        let b = t[i + 1];
        if control_byte(b) is Some {
            ascii_is_valid(v);
            ascii_then_boundary(t, i + 1);
        } else if is_digit(b) {
            ascii_is_valid(v);
            ascii_then_boundary(t, i + 1);
        } else if b == LOWER_X {
            hex_bounds(t, i + 2, i + 4);
            hex_is_small(t, i + 2);
            encoded_is_valid(hex_value(t, i + 2, i + 4)->0);
            ascii_then_boundary(t, i + 3);
        } else if b == LOWER_U {
            unicode_bounds(t, i);
            let (code, at) = unicode_escape(t, i)->0;
            unicode_ends(t, i);
            if 0xd800 <= code < 0xdc00 {
                unicode_bounds(t, at);
                unicode_ends(t, at);
            }
            if let Some((spelled, after)) = escaped_char(t, i) {
                encoded_is_valid(spelled);
            }
        } else if b == NEWLINE {
            ascii_then_boundary(t, i + 1);
        } else if b == RETURN {
            ascii_then_boundary(t, i + 1);
            if at(t, i + 2) == Some(NEWLINE) {
                ascii_then_boundary(t, i + 2);
            }
        } else if b == 0xe2 && at(t, i + 2) == Some(0x80u8) && (at(t, i + 3) == Some(0xa8u8) || at(
            t,
            i + 3,
        ) == Some(0xa9u8)) {
            char_bounds(t, i + 1);
        }
    }
}

/// Two hexadecimal digits are no surrogate.
proof fn hex_is_small(t: Seq<u8>, i: int)
    requires
        0 <= i,
    ensures
        hex_value(t, i, i + 2) matches Some(v) ==> 0 <= v < 256 && i + 1 < t.len() && t[i + 1] < 0x80,
{
    assert(hex_value(t, i, i) == Some(0int));
    assert(hex_value(t, i, i + 1) matches Some(v) ==> 0 <= v < 16);
}

/// A `\u` escape ends where a character does.
proof fn unicode_ends(t: Seq<u8>, i: int)
    requires
        valid_utf8(t),
        0 <= i,
    ensures
        unicode_escape(t, i) matches Some((code, end)) ==> boundary(t, end),
{
    if let Some((code, end)) = unicode_escape(t, i) {
        unicode_bounds(t, i);
        brace_bounds(t, i + 3);
        assert(t[end - 1] < 0x80);
        ascii_then_boundary(t, end - 1);
    }
}

/// What the text of a literal spells is valid.
proof fn spelled_is_valid(acc: Seq<u8>, t: Seq<u8>, i: int, quote: u8)
    requires
        valid_utf8(t),
        0 <= i <= t.len(),
        valid_utf8(acc + t.skip(i)),
    ensures
        spelled_after(acc, t, i, quote) matches Some(v) ==> valid_utf8(v),
    decreases t.len() - i,
{
    if i < t.len() {
        if t[i] == quote || t[i] == NEWLINE || t[i] == RETURN {
        } else if t[i] == BACKSLASH {
            escape_bounds(t, i);
            if let Some((v, end)) = escape_at(t, i) {
                let rest = t.skip(i + 1);
                assert(acc + t.skip(i) =~= acc + seq![t[i]] + rest);
                ascii_splits(acc, t[i], rest);
                escape_is_valid(t, i);
                if valid_utf8(v) && boundary(t, end) {
                    cut_is_valid(t, end, t.len() as int);
                    assert(t.skip(end) =~= t.subrange(end, t.len() as int));
                    valid_utf8_concat(acc, v);
                    valid_utf8_concat(acc + v, t.skip(end));
                } else {
                    valid_utf8_concat(acc, rest);
                    assert((acc + v) + t.skip(end) =~= acc + rest);
                }
                spelled_is_valid(acc + v, t, end, quote);
            }
        } else {
            assert(acc.push(t[i]) + t.skip(i + 1) =~= acc + t.skip(i));
            spelled_is_valid(acc.push(t[i]), t, i + 1, quote);
        }
    } else {
        assert(acc + t.skip(i) =~= acc);
    }
}

/// What a literal spells is valid UTF-8.
pub proof fn literals_are_valid(t: Seq<u8>)
    requires
        valid_utf8(t),
    ensures
        literal(t) matches Some(v) ==> valid_utf8(v),
{
    if literal(t) is Some {
        let body = t.subrange(1, t.len() - 1);
        ascii_then_boundary(t, 0);
        ascii_then_boundary(t, t.len() - 1);
        cut_is_valid(t, 1, t.len() - 1);
        assert(Seq::<u8>::empty() + body.skip(0) =~= body);
        spelled_is_valid(Seq::empty(), body, 0, t[0]);
    }
}

/// The value of a hexadecimal digit.
fn digit_value(b: u8) -> (v: Option<u32>)
    ensures
        match v {
            Some(n) => hex_digit(b) == Some(n as int) && n < 16,
            None => hex_digit(b) is None,
        },
{
    if DIGIT_0 <= b && b <= DIGIT_9 {
        Some((b - DIGIT_0) as u32)
    } else if LOWER_A <= b && b <= LOWER_F {
        Some((b - LOWER_A) as u32 + 10)
    } else if UPPER_A <= b && b <= UPPER_F {
        Some((b - UPPER_A) as u32 + 10)
    } else {
        None
    }
}

/// Digits that do not come to a character do not come to one with more digits.
proof fn hex_stays_none(t: Seq<u8>, i: int, k: int, j: int)
    requires
        i <= k <= j,
        hex_value(t, i, k) is None,
    ensures
        hex_value(t, i, j) is None,
    decreases j - k,
{
    if k < j {
        hex_stays_none(t, i, k, j - 1);
    }
}

/// The value of the hexadecimal digits from `i` to `j`.
fn read_hex(t: &[u8], i: usize, j: usize) -> (v: Option<u32>)
    requires
        i <= j,
    ensures
        match v {
            Some(n) => hex_value(t@, i as int, j as int) == Some(n as int) && n <= 0x10ffff,
            None => hex_value(t@, i as int, j as int) is None,
        },
{
    let mut n: u32 = 0;
    let mut k: usize = i;
    while k < j
        invariant
            i <= k <= j,
            n <= 0x10ffff,
            hex_value(t@, i as int, k as int) == Some(n as int),
        decreases j - k,
    {
        let low = match get(t, k) {
            Some(b) => digit_value(b),
            None => None,
        };
        match low {
            Some(d) if n * 16 + d <= 0x10ffff => {
                n = n * 16 + d;
            },
            _ => {
                proof {
                    hex_stays_none(t@, i as int, k + 1, j as int);
                }
                return None;
            },
        }
        k = k + 1;
    }
    Some(n)
}

/// The code that the `\u` escape at `i` names, and where the escape ends.
fn read_unicode(t: &[u8], i: usize) -> (v: Option<(u32, usize)>)
    requires
        t@.len() + 4 <= usize::MAX,
        i <= t@.len(),
    ensures
        match v {
            Some((code, end)) => unicode_escape(t@, i as int) == Some((code as int, end as int))
                && code <= 0x10ffff && i < end <= t@.len(),
            None => unicode_escape(t@, i as int) is None,
        },
{
    proof {
        unicode_bounds(t@, i as int);
    }
    if get(t, i) != Some(BACKSLASH) || get(t, i + 1) != Some(LOWER_U) {
        return None;
    }
    if get(t, i + 2) == Some(LBRACE) {
        let mut close: usize = i + 3;
        while close < t.len() && t[close] != RBRACE
            invariant
                i + 3 <= close <= t@.len(),
                brace_after(t@, close as int) == brace_after(t@, i + 3),
            decreases t@.len() - close,
        {
            close = close + 1;
        }
        match read_hex(t, i + 3, close) {
            Some(code) => if i + 3 < close && close < t.len() {
                Some((code, close + 1))
            } else {
                None
            },
            None => None,
        }
    } else {
        match read_hex(t, i + 2, i + 6) {
            Some(code) => Some((code, i + 6)),
            None => None,
        }
    }
}

/// The character that the `\u` escapes at `i` spell, and where they end.
fn read_char(t: &[u8], i: usize) -> (v: Option<(u32, usize)>)
    requires
        t@.len() + 4 <= usize::MAX,
        i <= t@.len(),
    ensures
        match v {
            Some((code, end)) => escaped_char(t@, i as int) == Some((code as int, end as int))
                && is_scalar(code) && end <= t@.len(),
            None => escaped_char(t@, i as int) is None,
        },
{
    match read_unicode(t, i) {
        Some((code, end)) => {
            if 0xd800 <= code && code < 0xdc00 {
                match read_unicode(t, end) {
                    Some((low, after)) => if 0xdc00 <= low && low < 0xe000 {
                        Some((0x10000 + (code - 0xd800) * 1024 + (low - 0xdc00), after))
                    } else {
                        None
                    },
                    None => None,
                }
            } else if 0xdc00 <= code && code < 0xe000 {
                None
            } else {
                Some((code, end))
            }
        },
        None => None,
    }
}

/// Append a character as UTF-8.
fn push_char(out: &mut Vec<u8>, code: u32)
    requires
        is_scalar(code),
    ensures
        final(out)@ == old(out)@ + encoded(code as int),
{
    if code < 0x80 {
        out.push((code & 0x7F) as u8);
    } else if code < 0x800 {
        out.push(0xC0 | ((code >> 6) & 0x1F) as u8);
        out.push(0x80 | (code & 0x3F) as u8);
    } else if code < 0x10000 {
        out.push(0xE0 | ((code >> 12) & 0x0F) as u8);
        out.push(0x80 | ((code >> 6) & 0x3F) as u8);
        out.push(0x80 | (code & 0x3F) as u8);
    } else {
        out.push(0xF0 | ((code >> 18) & 0x7) as u8);
        out.push(0x80 | ((code >> 12) & 0x3F) as u8);
        out.push(0x80 | ((code >> 6) & 0x3F) as u8);
        out.push(0x80 | (code & 0x3F) as u8);
    }
    assert(out@ =~= old(out)@ + encoded(code as int));
}

/// The byte that a backslash and a letter stand for.
fn control_of(b: u8) -> (v: Option<u8>)
    ensures
        v == control_byte(b),
{
    if b == LOWER_N {
        Some(0x0a)
    } else if b == LOWER_T {
        Some(0x09)
    } else if b == LOWER_R {
        Some(0x0d)
    } else if b == LOWER_B {
        Some(0x08)
    } else if b == LOWER_V {
        Some(0x0b)
    } else if b == LOWER_F {
        Some(0x0c)
    } else {
        None
    }
}

/// Append what the escape at `i` spells, and give where it ends.
fn push_escape(out: &mut Vec<u8>, t: &[u8], i: usize) -> (end: Option<usize>)
    requires
        t@.len() + 4 <= usize::MAX,
        i < t@.len(),
    ensures
        match end {
            Some(e) => escape_at(t@, i as int) matches Some((v, want)) && e == want && final(out)@
                == old(out)@ + v && i < e <= t@.len(),
            None => escape_at(t@, i as int) is None,
        },
{
    proof {
        escape_bounds(t@, i as int);
    }
    let ghost start = out@;
    let b: u8 = match get(t, i + 1) {
        Some(b) => b,
        None => {
            return None;
        },
    };
    if let Some(c) = control_of(b) {
        out.push(c);
        assert(out@ =~= start + seq![c]);
        Some(i + 2)
    } else if DIGIT_0 <= b && b <= DIGIT_9 {
        let more = match get(t, i + 2) {
            Some(d) => DIGIT_0 <= d && d <= DIGIT_9,
            None => false,
        };
        if b == DIGIT_0 && !more {
            out.push(0);
            assert(out@ =~= start + seq![0u8]);
            Some(i + 2)
        } else {
            None
        }
    } else if b == LOWER_X {
        proof {
            hex_is_small(t@, i + 2);
        }
        match read_hex(t, i + 2, i + 4) {
            Some(code) => {
                push_char(out, code);
                Some(i + 4)
            },
            None => None,
        }
    } else if b == LOWER_U {
        match read_char(t, i) {
            Some((code, end)) => {
                push_char(out, code);
                Some(end)
            },
            None => None,
        }
    } else if b == NEWLINE {
        assert(out@ =~= start + Seq::<u8>::empty());
        Some(i + 2)
    } else if b == RETURN {
        assert(out@ =~= start + Seq::<u8>::empty());
        if get(t, i + 2) == Some(NEWLINE) {
            Some(i + 3)
        } else {
            Some(i + 2)
        }
    } else if b == 0xe2 && get(t, i + 2) == Some(0x80u8) && (get(t, i + 3) == Some(0xa8u8) || get(
        t,
        i + 3,
    ) == Some(0xa9u8)) {
        assert(out@ =~= start + Seq::<u8>::empty());
        Some(i + 4)
    } else {
        out.push(b);
        assert(out@ =~= start + seq![b]);
        Some(i + 2)
    }
}

/// What `t` spells, if it is a string literal.
pub fn literal_of(t: &[u8]) -> (text: Option<Vec<u8>>)
    requires
        t@.len() + 2 <= usize::MAX,
    ensures
        text matches Some(v) ==> literal(t@) == Some(v@),
        text is None ==> literal(t@) is None,
        valid_utf8(t@) ==> (text matches Some(v) ==> valid_utf8(v@)),
{
    proof {
        if valid_utf8(t@) {
            literals_are_valid(t@);
        }
    }
    let n: usize = t.len();
    if n < 2 || !(t[0] == DQUOTE || t[0] == SQUOTE) || t[n - 1] != t[0] {
        return None;
    }
    let quote: u8 = t[0];
    let body = slice_subrange(t, 1, n - 1);
    let mut out: Vec<u8> = Vec::new();
    let mut i: usize = 0;
    assert(out@ =~= Seq::<u8>::empty());
    while i < body.len()
        invariant
            body@.len() + 4 <= usize::MAX,
            i <= body@.len(),
            spelled_after(out@, body@, i as int, quote) == literal(t@),
        decreases body@.len() - i,
    {
        let b: u8 = body[i];
        if b == quote || b == NEWLINE || b == RETURN {
            return None;
        }
        if b == BACKSLASH {
            match push_escape(&mut out, body, i) {
                Some(end) => {
                    i = end;
                },
                None => {
                    return None;
                },
            }
        } else {
            out.push(b);
            i = i + 1;
        }
    }
    Some(out)
}

} // verus!
