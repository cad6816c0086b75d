//! Links `[text](url)` and images `![alt](src)`, and trailing attribute groups.

use vstd::prelude::*;
use crate::ascii::{
    AT_SIGN, BACKSLASH, BACKTICK, COLON, DOLLAR, DOT, DQUOTE, LBRACE, LBRACK, LPAREN, PIPE,
    RBRACE, RBRACK, RPAREN, SLASH, SQUOTE, STAR, UNDERSCORE,
};
use crate::bytes::{
    addressable, ascii_letter, at, clamp, get, is_letter, skip, skip_class, utf8, ByteClass, Span,
};
use crate::embedded::{at_form_bounds, at_form_end, group_end, skip_at_form, skip_balanced};
use crate::escapes::{block_comment_bounds, markup_comment_end, skip_markup_comment};
use crate::lines::{line_content_end, line_end, next_line_bounds};
use crate::raw::{raw_span_bounds, raw_span_end, skip_raw_span};

verus! {

/// The spans of a scanned `[text](url)` shape ([`lex_link_span`]).
#[derive(Clone, Copy, Debug, PartialEq, Eq, Structural)]
pub struct LinkSpans {
    /// The text extent, inside the brackets.
    pub text: Span,
    /// The url extent, inside the parentheses.
    pub url: Span,
    /// One past the closing parenthesis.
    pub resume: u32,
}

/// The `]` that closes a link text whose scan stands at `i` inside `bracket` open brackets and
/// `brace` open braces, before `bound`. Escapes, raw spans, `@`-forms and block comments are opaque;
/// a `}` without its `{` and a `//` comment end the search.
pub open spec fn link_text_end(s: Seq<u8>, i: int, bracket: int, brace: int, bound: int) -> Option<int>
    decreases s.len() + 2 - i,
{
    if 0 <= i < bound && i < s.len() {
        if s[i] == BACKSLASH {
            link_text_end(s, i + 2, bracket, brace, bound)
        } else if s[i] == LBRACK {
            link_text_end(s, i + 1, bracket + 1, brace, bound)
        } else if s[i] == RBRACK {
            if bracket == 0 {
                Some(i)
            } else {
                link_text_end(s, i + 1, bracket - 1, brace, bound)
            }
        } else if s[i] == LBRACE {
            link_text_end(s, i + 1, bracket, brace + 1, bound)
        } else if s[i] == RBRACE {
            if brace == 0 {
                None
            } else {
                link_text_end(s, i + 1, bracket, brace - 1, bound)
            }
        } else if s[i] == BACKTICK || s[i] == DOLLAR || (s[i] == PIPE && at(s, i + 1) == Some(LBRACE)) {
            proof {
                raw_span_bounds(s, i);
            }
            link_text_end(s, raw_span_end(s, i), bracket, brace, bound)
        } else if s[i] == AT_SIGN {
            proof {
                at_form_bounds(s, i);
            }
            link_text_end(s, at_form_end(s, i), bracket, brace, bound)
        } else if s[i] == SLASH && at(s, i + 1) == Some(SLASH) {
            None
        } else if s[i] == SLASH && at(s, i + 1) == Some(STAR) {
            proof {
                block_comment_bounds(s, i + 2, 1, 0, s.len() as int);
            }
            link_text_end(s, markup_comment_end(s, i), bracket, brace, bound)
        } else {
            link_text_end(s, i + 1, bracket, brace, bound)
        }
    } else {
        None
    }
}

/// The `)` that closes a url whose scan stands at `i` inside `paren` open parentheses and `brace`
/// open braces, before `bound`. Escapes are opaque; a `}` without its `{` ends the search.
pub open spec fn link_url_end(s: Seq<u8>, i: int, paren: int, brace: int, bound: int) -> Option<int>
    decreases s.len() + 2 - i,
{
    if 0 <= i < bound && i < s.len() {
        if s[i] == BACKSLASH {
            link_url_end(s, i + 2, paren, brace, bound)
        } else if s[i] == LPAREN {
            link_url_end(s, i + 1, paren + 1, brace, bound)
        } else if s[i] == RPAREN {
            if paren == 0 {
                Some(i)
            } else {
                link_url_end(s, i + 1, paren - 1, brace, bound)
            }
        } else if s[i] == LBRACE {
            link_url_end(s, i + 1, paren, brace + 1, bound)
        } else if s[i] == RBRACE {
            if brace == 0 {
                None
            } else {
                link_url_end(s, i + 1, paren, brace - 1, bound)
            }
        } else {
            link_url_end(s, i + 1, paren, brace, bound)
        }
    } else {
        None
    }
}

/// Where a link that opens at `lbrack` must have closed: the end of its line, `limit`, or the
/// source end.
pub open spec fn link_bound(s: Seq<u8>, lbrack: int, limit: int) -> int {
    if line_end(s, lbrack) <= limit {
        line_end(s, lbrack)
    } else {
        clamp(s, limit)
    }
}

/// The `]` and the `)` of the link whose `[` stands at `lbrack`.
pub open spec fn link_closers(s: Seq<u8>, lbrack: int, limit: int) -> Option<(int, int)> {
    let bound = link_bound(s, lbrack, limit);
    match link_text_end(s, lbrack + 1, 0, 0, bound) {
        Some(text_end) => if text_end + 1 < bound && at(s, text_end + 1) == Some(LPAREN) {
            match link_url_end(s, text_end + 2, 0, 0, bound) {
                Some(url_end) => Some((text_end, url_end)),
                None => None,
            }
        } else {
            None
        },
        None => None,
    }
}

/// The link whose `[` stands at `lbrack`: text and url closed on its own line, before `limit`.
pub open spec fn link_span(s: Seq<u8>, lbrack: int, limit: int) -> Option<LinkSpans> {
    match link_closers(s, lbrack, limit) {
        Some((text_end, url_end)) => Some(
            LinkSpans {
                text: Span { start: (lbrack + 1) as u32, end: text_end as u32 },
                url: Span { start: (text_end + 2) as u32, end: url_end as u32 },
                resume: (url_end + 1) as u32,
            },
        ),
        None => None,
    }
}

/// Does the group whose `[` stands at `lbrack` open like attributes: with `...`, a quoted key, or
/// a name with a `:` right behind it?
pub open spec fn attrs_shaped(s: Seq<u8>, lbrack: int) -> bool {
    let i = skip(s, lbrack + 1, ByteClass::InlineSpace);
    match at(s, i) {
        None => false,
        Some(b) => if b == DOT {
            at(s, i + 1) == Some(DOT) && at(s, i + 2) == Some(DOT)
        } else if b == DQUOTE || b == SQUOTE {
            true
        } else if is_letter(b) || b == UNDERSCORE || b == DOLLAR {
            at(s, skip(s, i, ByteClass::Ident)) == Some(COLON)
        } else {
            false
        },
    }
}

/// Does nothing but white space follow `after` on its line or before `limit`, or, where `closer_ok`,
/// before a `}`?
pub open spec fn trails(s: Seq<u8>, after: int, limit: int, closer_ok: bool) -> bool {
    let t = skip(s, after, ByteClass::InlineSpace);
    t >= line_end(s, after) || t >= limit || (closer_ok && at(s, t) == Some(RBRACE))
}

/// The offset past the trailing attribute group whose `[` stands at `lbrack`.
pub open spec fn attrs_group(s: Seq<u8>, lbrack: int, limit: int, closer_ok: bool) -> Option<u32> {
    let after = group_end(s, lbrack);
    if attrs_shaped(s, lbrack) && after > lbrack + 1 && s[after - 1] == RBRACK && after <= limit
        && trails(s, after, limit, closer_ok) {
        Some(after as u32)
    } else {
        None
    }
}

/// A link text closes at or after the start of its scan, before the bound.
pub proof fn link_text_bounds(s: Seq<u8>, i: int, bracket: int, brace: int, bound: int)
    requires
        0 <= i,
    ensures
        link_text_end(s, i, bracket, brace, bound) matches Some(e) ==> i <= e < bound && e
            < s.len(),
    decreases s.len() + 2 - i,
{
    if i < bound && i < s.len() {
        if s[i] == BACKSLASH {
            link_text_bounds(s, i + 2, bracket, brace, bound);
        } else if s[i] == LBRACK {
            link_text_bounds(s, i + 1, bracket + 1, brace, bound);
        } else if s[i] == RBRACK {
            if bracket != 0 {
                link_text_bounds(s, i + 1, bracket - 1, brace, bound);
            }
        } else if s[i] == LBRACE {
            link_text_bounds(s, i + 1, bracket, brace + 1, bound);
        } else if s[i] == RBRACE {
            if brace != 0 {
                link_text_bounds(s, i + 1, bracket, brace - 1, bound);
            }
        } else if s[i] == BACKTICK || s[i] == DOLLAR || (s[i] == PIPE && at(s, i + 1) == Some(LBRACE)) {
            raw_span_bounds(s, i);
            link_text_bounds(s, raw_span_end(s, i), bracket, brace, bound);
        } else if s[i] == AT_SIGN {
            at_form_bounds(s, i);
            link_text_bounds(s, at_form_end(s, i), bracket, brace, bound);
        } else if s[i] == SLASH && at(s, i + 1) == Some(SLASH) {
        } else if s[i] == SLASH && at(s, i + 1) == Some(STAR) {
            block_comment_bounds(s, i + 2, 1, 0, s.len() as int);
            link_text_bounds(s, markup_comment_end(s, i), bracket, brace, bound);
        } else {
            link_text_bounds(s, i + 1, bracket, brace, bound);
        }
    }
}

/// A url closes at or after the start of its scan, before the bound.
pub proof fn link_url_bounds(s: Seq<u8>, i: int, paren: int, brace: int, bound: int)
    requires
        0 <= i,
    ensures
        link_url_end(s, i, paren, brace, bound) matches Some(e) ==> i <= e < bound && e < s.len(),
    decreases s.len() + 2 - i,
{
    if i < bound && i < s.len() {
        if s[i] == BACKSLASH {
            link_url_bounds(s, i + 2, paren, brace, bound);
        } else if s[i] == LPAREN {
            link_url_bounds(s, i + 1, paren + 1, brace, bound);
        } else if s[i] == RPAREN {
            if paren != 0 {
                link_url_bounds(s, i + 1, paren - 1, brace, bound);
            }
        } else if s[i] == LBRACE {
            link_url_bounds(s, i + 1, paren, brace + 1, bound);
        } else if s[i] == RBRACE {
            if brace != 0 {
                link_url_bounds(s, i + 1, paren, brace - 1, bound);
            }
        } else {
            link_url_bounds(s, i + 1, paren, brace, bound);
        }
    }
}

/// A link closes on the line it opens on, and before its limit.
pub proof fn link_on_one_line(s: Seq<u8>, lbrack: int, limit: int)
    requires
        0 <= lbrack <= s.len(),
    ensures
        link_closers(s, lbrack, limit) matches Some((text_end, url_end)) ==> lbrack < text_end
            && text_end + 1 < url_end && url_end < line_end(s, lbrack) && url_end < limit && url_end
            < s.len(),
{
    next_line_bounds(s, lbrack);
    let bound = link_bound(s, lbrack, limit);
    link_text_bounds(s, lbrack + 1, 0, 0, bound);
    if let Some(text_end) = link_text_end(s, lbrack + 1, 0, 0, bound) {
        link_url_bounds(s, text_end + 2, 0, 0, bound);
    }
}

/// The `]` that closes the link text from `from` on, before `bound`.
fn find_text_end(source: &str, from: usize, bound: usize) -> (found: Option<usize>)
    requires
        addressable(utf8(source)),
        bound <= utf8(source).len(),
    ensures
        match found {
            Some(e) => link_text_end(utf8(source), from as int, 0, 0, bound as int) == Some(
                e as int,
            ),
            None => link_text_end(utf8(source), from as int, 0, 0, bound as int) is None,
        },
{
    let s = source.as_bytes();
    let mut i: usize = from;
    let mut bracket: usize = 0;
    let mut brace: usize = 0;
    while i < bound
        invariant
            s@ == utf8(source),
            addressable(s@),
            bound <= s@.len(),
            from <= i,
            bracket <= i - from,
            brace <= i - from,
            link_text_end(s@, i as int, bracket as int, brace as int, bound as int)
                == link_text_end(s@, from as int, 0, 0, bound as int),
        decreases s@.len() + 2 - i,
    {
        let b: u8 = s[i];
        if b == BACKSLASH {
            i = i + 2;
        } else if b == LBRACK {
            bracket = bracket + 1;
            i = i + 1;
        } else if b == RBRACK {
            if bracket == 0 {
                return Some(i);
            }
            bracket = bracket - 1;
            i = i + 1;
        } else if b == LBRACE {
            brace = brace + 1;
            i = i + 1;
        } else if b == RBRACE {
            if brace == 0 {
                return None;
            }
            brace = brace - 1;
            i = i + 1;
        } else if b == BACKTICK || b == DOLLAR || (b == PIPE && get(s, i + 1) == Some(LBRACE)) {
            i = skip_raw_span(source, i);
        } else if b == AT_SIGN {
            i = skip_at_form(s, i);
        } else if b == SLASH && get(s, i + 1) == Some(SLASH) {
            return None;
        } else if b == SLASH && get(s, i + 1) == Some(STAR) {
            i = skip_markup_comment(source, i);
        } else {
            i = i + 1;
        }
    }
    None
}

/// The `)` that closes the url from `from` on, before `bound`.
fn find_url_end(s: &[u8], from: usize, bound: usize) -> (found: Option<usize>)
    requires
        s@.len() + 2 <= usize::MAX,
        bound <= s@.len(),
    ensures
        match found {
            Some(e) => link_url_end(s@, from as int, 0, 0, bound as int) == Some(e as int),
            None => link_url_end(s@, from as int, 0, 0, bound as int) is None,
        },
{
    let mut i: usize = from;
    let mut paren: usize = 0;
    let mut brace: usize = 0;
    while i < bound
        invariant
            s@.len() + 2 <= usize::MAX,
            bound <= s@.len(),
            from <= i,
            paren <= i - from,
            brace <= i - from,
            link_url_end(s@, i as int, paren as int, brace as int, bound as int) == link_url_end(
                s@,
                from as int,
                0,
                0,
                bound as int,
            ),
        decreases s@.len() + 2 - i,
    {
        let b: u8 = s[i];
        if b == BACKSLASH {
            i = i + 2;
        } else if b == LPAREN {
            paren = paren + 1;
            i = i + 1;
        } else if b == RPAREN {
            if paren == 0 {
                return Some(i);
            }
            paren = paren - 1;
            i = i + 1;
        } else if b == LBRACE {
            brace = brace + 1;
            i = i + 1;
        } else if b == RBRACE {
            if brace == 0 {
                return None;
            }
            brace = brace - 1;
            i = i + 1;
        } else {
            i = i + 1;
        }
    }
    None
}

/// Scan a `[text](url)` shape whose `[` sits at `lbrack`, within `limit`. The whole shape must close
/// on its opening line. The text scan pairs nested brackets and steps over escapes, `@`-forms, raw
/// spans and comments; it fails at a `}` that closes the enclosing body and at a `//` comment. The
/// `(` must be glued to the `]`; the url scan pairs nested parentheses and braces and steps over
/// escapes only.
pub fn lex_link_span(source: &str, lbrack: u32, limit: u32) -> (found: Option<LinkSpans>)
    requires
        addressable(utf8(source)),
        lbrack <= utf8(source).len(),
    ensures
        found == link_span(utf8(source), lbrack as int, limit as int),
        found matches Some(l) ==> lbrack < l.text.end && l.url.end + 1 == l.resume && l.resume
            <= limit && l.resume <= utf8(source).len(),
{
    let s = source.as_bytes();
    proof {
        link_on_one_line(s@, lbrack as int, limit as int);
    }
    let line: u32 = line_content_end(source, lbrack);
    let bound: u32 = if line <= limit {
        line
    } else {
        limit
    };
    match find_text_end(source, lbrack as usize + 1, bound as usize) {
        None => None,
        Some(text_end) => {
            proof {
                link_text_bounds(s@, lbrack + 1, 0, 0, bound as int);
            }
            if text_end + 1 >= bound as usize || get(s, text_end + 1) != Some(LPAREN) {
                return None;
            }
            match find_url_end(s, text_end + 2, bound as usize) {
                None => None,
                Some(url_end) => Some(
                    LinkSpans {
                        text: Span::new(lbrack + 1, text_end as u32),
                        url: Span::new((text_end + 2) as u32, url_end as u32),
                        resume: (url_end + 1) as u32,
                    },
                ),
            }
        },
    }
}

/// Does the group whose `[` stands at `lbrack` open like attributes?
fn attrs_gate(s: &[u8], lbrack: usize) -> (yes: bool)
    requires
        s@.len() + 2 <= usize::MAX,
        lbrack < s@.len(),
    ensures
        yes == attrs_shaped(s@, lbrack as int),
{
    let i: usize = skip_class(s, lbrack + 1, ByteClass::InlineSpace);
    match get(s, i) {
        None => false,
        Some(b) => {
            if b == DOT {
                get(s, i + 1) == Some(DOT) && get(s, i + 2) == Some(DOT)
            } else if b == DQUOTE || b == SQUOTE {
                true
            } else if ascii_letter(b) || b == UNDERSCORE || b == DOLLAR {
                get(s, skip_class(s, i, ByteClass::Ident)) == Some(COLON)
            } else {
                false
            }
        },
    }
}

/// Detect a trailing bare attribute group `[k: v, …]` at `lbrack`. The interior must open with
/// `...`, a quoted key, or a name glued to its `:`; after the group's `]` only spaces and tabs may follow
/// up to the line end or `limit`, or, where `closer_ok`, up to the enclosing body's `}`. Gives the
/// offset past the `]`.
pub fn attrs_group_at(source: &str, lbrack: u32, limit: u32, closer_ok: bool) -> (found: Option<u32>)
    requires
        addressable(utf8(source)),
        lbrack < utf8(source).len(),
        utf8(source)[lbrack as int] == LBRACK,
    ensures
        found == attrs_group(utf8(source), lbrack as int, limit as int, closer_ok),
        found matches Some(after) ==> lbrack + 1 < after <= limit && after <= utf8(source).len(),
{
    let s = source.as_bytes();
    if !attrs_gate(s, lbrack as usize) {
        return None;
    }
    let after: usize = skip_balanced(s, lbrack as usize);
    if after <= lbrack as usize + 1 || s[after - 1] != RBRACK || after > limit as usize {
        return None;
    }
    let line: u32 = line_content_end(source, after as u32);
    let t: usize = skip_class(s, after, ByteClass::InlineSpace);
    if t >= line as usize || t >= limit as usize || (closer_ok && get(s, t) == Some(RBRACE)) {
        Some(after as u32)
    } else {
        None
    }
}

} // verus!
