//! Characters: reading one at a byte offset, and the Unicode properties the notation asks about.

use vstd::prelude::*;
use vstd::utf8::{
    char_u32_cast, decode_first_scalar, encode_utf8, encode_utf8_first_scalar, encode_utf8_valid_utf8,
    is_char_boundary, is_char_boundary_iff_not_is_continuation_byte,
    is_char_boundary_start_end_of_seq, is_continuation_byte, length_of_first_scalar,
    pop_first_scalar, valid_first_scalar, valid_utf8, valid_utf8_split,
};
use unicode_script::{Script, UnicodeScript};
use crate::bytes::{addressable, utf8, Span};
use crate::lines::starts_line;

verus! {

/// Does a character start at `i`, or is `i` the end of `s`?
pub open spec fn boundary(s: Seq<u8>, i: int) -> bool {
    0 <= i <= s.len() && (i < s.len() ==> !is_continuation_byte(s[i]))
}

/// The number of bytes of the character that the byte `b` leads.
pub open spec fn width(b: u8) -> int {
    if b < 0x80 {
        1
    } else if b < 0xe0 {
        2
    } else if b < 0xf0 {
        3
    } else {
        4
    }
}

/// The character that starts at `i`, if one does.
pub open spec fn char_from(s: Seq<u8>, i: int) -> Option<char> {
    if boundary(s, i) && i < s.len() {
        Some(decode_first_scalar(s.subrange(i, s.len() as int)) as char)
    } else {
        None
    }
}

/// The start of the character that ends just before `i`.
pub open spec fn char_start_before(s: Seq<u8>, i: int) -> int
    decreases i,
{
    if 0 < i <= s.len() {
        if is_continuation_byte(s[i - 1]) {
            char_start_before(s, i - 1)
        } else {
            i - 1
        }
    } else {
        0
    }
}

/// The character that ends just before `i`, if one does.
pub open spec fn char_until(s: Seq<u8>, i: int) -> Option<char> {
    if 0 < i && boundary(s, i) {
        char_from(s, char_start_before(s, i))
    } else {
        None
    }
}

/// The Unicode `White_Space` property.
pub open spec fn white_space(c: char) -> bool {
    ||| '\u{9}' <= c <= '\u{d}'
    ||| c == '\u{20}' || c == '\u{85}' || c == '\u{a0}' || c == '\u{1680}'
    ||| '\u{2000}' <= c <= '\u{200a}'
    ||| c == '\u{2028}' || c == '\u{2029}' || c == '\u{202f}' || c == '\u{205f}' || c == '\u{3000}'
}

/// The end of the white space that starts at `i`, not past `end`.
pub open spec fn skip_white(s: Seq<u8>, i: int, end: int) -> int
    decreases end + 4 - i,
{
    if i < end && (char_from(s, i) matches Some(c) && white_space(c)) {
        skip_white(s, i + width(s[i]), end)
    } else {
        i
    }
}

/// The end of the run of characters other than white space that starts at `i`, not past `end`.
pub open spec fn skip_dark(s: Seq<u8>, i: int, end: int) -> int
    decreases end + 4 - i,
{
    if i < end && (char_from(s, i) matches Some(c) && !white_space(c)) {
        skip_dark(s, i + width(s[i]), end)
    } else {
        i
    }
}

/// The first run of characters other than white space in the text from `i` to `end`.
pub open spec fn token_span(s: Seq<u8>, i: int, end: int) -> Option<Span> {
    let start = skip_white(s, i, end);
    if start < end {
        Some(Span { start: start as u32, end: skip_dark(s, start, end) as u32 })
    } else {
        None
    }
}

/// Whether `char::is_alphanumeric` holds of `c`: the Unicode `Alphabetic` property or one of the
/// numeric categories.
pub uninterp spec fn alphanumeric_char(c: char) -> bool;

/// `char::is_alphanumeric` is a function of the character alone; which characters it holds of is
/// Unicode's table and is left unsaid.
pub assume_specification[ char::is_alphanumeric ](c: char) -> (yes: bool)
    ensures
        yes == alphanumeric_char(c),
;

/// `char::is_whitespace` holds of exactly the characters with the Unicode `White_Space` property.
pub assume_specification[ char::is_whitespace ](c: char) -> (yes: bool)
    ensures
        yes == white_space(c),
;

/// The scripts without word boundaries, and all the others together.
#[derive(Clone, Copy, PartialEq, Eq, Structural)]
pub enum WordScript {
    /// Han.
    Han,
    /// Hiragana.
    Hiragana,
    /// Katakana.
    Katakana,
    /// Hangul.
    Hangul,
    /// Any other script, or none.
    Other,
}

/// The Unicode `Script` property of `c`, as `unicode_script` has it.
pub uninterp spec fn script_of_char(c: char) -> WordScript;

/// `unicode_script`'s `UnicodeScript::script` of a character is a function of the character alone,
/// here with every script but the four that have no word boundaries taken together; which
/// character has which script is Unicode's table and is left unsaid.
#[verifier::external_body]
fn script_of(c: char) -> (script: WordScript)
    ensures
        script == script_of_char(c),
{
    match c.script() {
        Script::Han => WordScript::Han,
        Script::Hiragana => WordScript::Hiragana,
        Script::Katakana => WordScript::Katakana,
        Script::Hangul => WordScript::Hangul,
        _ => WordScript::Other,
    }
}

/// Whether a character has the Unicode `ID_Start` property, as `unicode_id_start` has it.
pub uninterp spec fn id_start_char(c: char) -> bool;

/// Whether a character has the Unicode `ID_Continue` property, as `unicode_id_start` has it.
pub uninterp spec fn id_continue_char(c: char) -> bool;

/// `unicode_id_start::is_id_start_unicode` is a function of the character alone; which characters
/// it holds of is Unicode's table and is left unsaid.
pub assume_specification[ unicode_id_start::is_id_start_unicode ](ch: char) -> (yes: bool)
    ensures
        yes == id_start_char(ch),
;

/// `unicode_id_start::is_id_continue_unicode` is a function of the character alone; which
/// characters it holds of is Unicode's table and is left unsaid.
pub assume_specification[ unicode_id_start::is_id_continue_unicode ](ch: char) -> (yes: bool)
    ensures
        yes == id_continue_char(ch),
;

/// Can `c` start a JavaScript identifier: a letter, `$`, `_`, or a non-ASCII character with the
/// `ID_Start` property?
pub open spec fn identifier_start(c: char) -> bool {
    if '\u{80}' <= c {
        id_start_char(c)
    } else {
        'a' <= c <= 'z' || 'A' <= c <= 'Z' || c == '$' || c == '_'
    }
}

/// Can `c` continue a JavaScript identifier: as a start, or a digit, or a non-ASCII character with
/// the `ID_Continue` property, or one of the two zero-width joiners?
pub open spec fn identifier_part(c: char) -> bool {
    if '\u{80}' <= c {
        id_continue_char(c) || c == '\u{200c}' || c == '\u{200d}'
    } else {
        'a' <= c <= 'z' || 'A' <= c <= 'Z' || '0' <= c <= '9' || c == '$' || c == '_'
    }
}

/// The end of the run of identifier characters that starts at `i`.
pub open spec fn identifier_end(s: Seq<u8>, i: int) -> int
    decreases s.len() + 4 - i,
{
    if char_from(s, i) matches Some(c) && identifier_part(c) {
        identifier_end(s, i + width(s[i]))
    } else {
        i
    }
}

/// Is `c` "wordy": alphanumeric, and of a script that has word boundaries?
pub open spec fn wordy(c: Option<char>) -> bool {
    match c {
        Some(c) => alphanumeric_char(c) && script_of_char(c) == WordScript::Other,
        None => false,
    }
}

/// A character of a valid text fits in it, its bytes past the first are continuation bytes, and
/// another character or the end follows it.
pub proof fn char_bounds(s: Seq<u8>, i: int)
    requires
        valid_utf8(s),
        boundary(s, i),
        i < s.len(),
    ensures
        i + width(s[i]) <= s.len(),
        forall|k: int| i < k < i + width(s[i]) ==> is_continuation_byte(#[trigger] s[k]),
        boundary(s, i + width(s[i])),
        is_char_boundary(s, i),
        valid_utf8(s.subrange(i, s.len() as int)),
        valid_first_scalar(s.subrange(i, s.len() as int)),
        length_of_first_scalar(s.subrange(i, s.len() as int)) == width(s[i]),
{
    is_char_boundary_iff_not_is_continuation_byte(s, i);
    valid_utf8_split(s, i);
    let sub = s.subrange(i, s.len() as int);
    assert(valid_utf8(sub));
    assert(valid_first_scalar(sub));
    assert(sub[0] == s[i]);
    let w = width(s[i]);
    assert(length_of_first_scalar(sub) == w);
    assert forall|k: int| i < k < i + w implies is_continuation_byte(#[trigger] s[k]) by {
        assert(sub[k - i] == s[k]);
    }
    let rest = pop_first_scalar(sub);
    assert(valid_utf8(rest));
    if i + w < s.len() {
        assert(rest[0] == s[i + w]);
        assert(valid_first_scalar(rest));
    }
}

/// After an ASCII byte of a valid text a character starts, or the text ends.
pub proof fn ascii_then_boundary(s: Seq<u8>, i: int)
    requires
        valid_utf8(s),
        0 <= i < s.len(),
        s[i] < 0x80,
    ensures
        boundary(s, i),
        boundary(s, i + 1),
{
    char_bounds(s, i);
}

/// A line starts where a character does.
pub proof fn line_start_boundary(s: Seq<u8>, i: int)
    requires
        valid_utf8(s),
        starts_line(s, i),
    ensures
        boundary(s, i),
{
    if i == 0 && s.len() > 0 {
        is_char_boundary_start_end_of_seq(s);
        is_char_boundary_iff_not_is_continuation_byte(s, 0);
    } else if 0 < i < s.len() {
        ascii_then_boundary(s, i - 1);
    }
}

/// A boundary is what `str::is_char_boundary` says it is.
pub proof fn boundary_is_char_boundary(s: Seq<u8>, i: int)
    requires
        valid_utf8(s),
        boundary(s, i),
    ensures
        is_char_boundary(s, i),
{
    if i < s.len() {
        is_char_boundary_iff_not_is_continuation_byte(s, i);
    } else {
        is_char_boundary_start_end_of_seq(s);
    }
}

/// A stretch of a valid text from one boundary to another is valid.
pub proof fn cut_is_valid(s: Seq<u8>, a: int, b: int)
    requires
        valid_utf8(s),
        boundary(s, a),
        boundary(s, b),
        a <= b,
    ensures
        valid_utf8(s.subrange(a, b)),
{
    boundary_is_char_boundary(s, b);
    valid_utf8_split(s, b);
    let head = s.subrange(0, b);
    assert(boundary(head, a));
    boundary_is_char_boundary(head, a);
    valid_utf8_split(head, a);
    assert(head.subrange(a, b) =~= s.subrange(a, b));
}

/// Around an ASCII byte of a valid text both sides are valid.
pub proof fn ascii_splits(a: Seq<u8>, b: u8, c: Seq<u8>)
    requires
        valid_utf8(a + seq![b] + c),
        b < 0x80,
    ensures
        valid_utf8(a),
        valid_utf8(c),
{
    let s = a + seq![b] + c;
    let n = a.len() as int;
    assert(s[n] == b);
    ascii_then_boundary(s, n);
    line_start_boundary(s, 0);
    cut_is_valid(s, 0, n);
    cut_is_valid(s, n + 1, s.len() as int);
    assert(s.subrange(0, n) =~= a);
    assert(s.subrange(n + 1, s.len() as int) =~= c);
}

/// ASCII is valid.
pub proof fn ascii_is_valid(t: Seq<u8>)
    requires
        forall|i: int| 0 <= i < t.len() ==> #[trigger] t[i] < 0x80,
    ensures
        valid_utf8(t),
    decreases t.len(),
{
    if t.len() > 0 {
        let rest = pop_first_scalar(t);
        assert(codepoint_is_small(t[0])) by {
            small_codepoint(t[0]);
        }
        assert(length_of_first_scalar(t) == 1);
        assert forall|i: int| 0 <= i < rest.len() implies #[trigger] rest[i] < 0x80 by {
            assert(rest[i] == t[i + 1]);
        }
        ascii_is_valid(rest);
    }
}

/// The character of an ASCII byte is that byte.
pub proof fn ascii_char(s: Seq<u8>, i: int)
    requires
        valid_utf8(s),
        0 <= i < s.len(),
        s[i] < 0x80,
    ensures
        char_from(s, i) == Some((s[i] as u32) as char),
{
    ascii_then_boundary(s, i);
    let b = s[i];
    assert((b & 0x7f) as u32 == b as u32) by (bit_vector)
        requires
            b < 0x80,
    ;
    assert(s.subrange(i, s.len() as int)[0] == b);
}

/// Is the code of an ASCII byte no surrogate?
spec fn codepoint_is_small(b: u8) -> bool {
    vstd::utf8::codepoint_width_1(b) < 0x80
}

proof fn small_codepoint(b: u8)
    requires
        b < 0x80,
    ensures
        codepoint_is_small(b),
{
    assert(b & 0x7f < 0x80) by (bit_vector);
}

/// The text of a source is valid UTF-8.
pub proof fn utf8_valid(source: &str)
    ensures
        valid_utf8(utf8(source)),
{
    encode_utf8_valid_utf8(source@);
}

/// `String::from_utf8` gives the text that bytes encode, and refuses bytes that are not UTF-8.
#[verifier::external_body]
fn text_from(bytes: Vec<u8>) -> (text: Option<String>)
    ensures
        match text {
            Some(t) => valid_utf8(bytes@) && encode_utf8(t@) == bytes@,
            None => !valid_utf8(bytes@),
        },
{
    String::from_utf8(bytes).ok()
}

/// The text that bytes encode.
pub fn string_of(bytes: &[u8]) -> (text: String)
    requires
        valid_utf8(bytes@),
    ensures
        encode_utf8(text@) == bytes@,
{
    let mut copy: Vec<u8> = Vec::new();
    copy.extend_from_slice(bytes);
    assert(copy@ =~= bytes@);
    match text_from(copy) {
        Some(text) => text,
        None => {
            assert(false);
            String::new()
        },
    }
}

/// The UTF-8 of texts.
pub open spec fn spellings(texts: Seq<String>) -> Seq<Seq<u8>> {
    Seq::new(texts.len(), |i: int| encode_utf8(texts[i]@))
}

/// Are all of these UTF-8?
pub open spec fn all_valid(found: Seq<Seq<u8>>) -> bool {
    forall|i: int| 0 <= i < found.len() ==> valid_utf8(#[trigger] found[i])
}

/// The texts that bytes encode, one for one.
pub fn strings_of(found: &Vec<Vec<u8>>) -> (texts: Vec<String>)
    requires
        forall|i: int| 0 <= i < found@.len() ==> valid_utf8((#[trigger] found@[i])@),
    ensures
        texts@.len() == found@.len(),
        forall|i: int| 0 <= i < found@.len() ==> #[trigger] spellings(texts@)[i] == found@[i]@,
{
    let mut texts: Vec<String> = Vec::new();
    let mut i: usize = 0;
    while i < found.len()
        invariant
            i <= found@.len(),
            texts@.len() == i,
            forall|k: int| 0 <= k < found@.len() ==> valid_utf8((#[trigger] found@[k])@),
            forall|k: int| 0 <= k < i ==> #[trigger] spellings(texts@)[k] == found@[k]@,
        decreases found@.len() - i,
    {
        let ghost before = texts@;
        assert(valid_utf8(found@[i as int]@));
        texts.push(string_of(found[i].as_slice()));
        proof {
            assert forall|k: int| 0 <= k < i + 1 implies #[trigger] spellings(texts@)[k]
                == found@[k]@ by {
                if k < i {
                    assert(spellings(before)[k] == found@[k]@);
                    assert(texts@[k] == before[k]);
                }
            }
        }
        i = i + 1;
    }
    texts
}

/// The bytes of a source.
pub fn bytes_of_source<'a>(source: &'a str) -> (s: &'a [u8])
    ensures
        s@ == utf8(source),
        valid_utf8(s@),
{
    proof {
        utf8_valid(source);
    }
    source.as_bytes()
}

/// White space skipped on a stretch that ends at a boundary stays inside the stretch.
pub proof fn skip_white_bounds(s: Seq<u8>, i: int, end: int)
    requires
        valid_utf8(s),
        boundary(s, i),
        boundary(s, end),
        i <= end,
    ensures
        i <= skip_white(s, i, end) <= end,
        boundary(s, skip_white(s, i, end)),
    decreases end - i,
{
    if i < end && (char_from(s, i) matches Some(c) && white_space(c)) {
        char_bounds(s, i);
        char_within(s, i, end);
        skip_white_bounds(s, i + width(s[i]), end);
    }
}

/// Text skipped on a stretch that ends at a boundary stays inside the stretch.
pub proof fn skip_dark_bounds(s: Seq<u8>, i: int, end: int)
    requires
        valid_utf8(s),
        boundary(s, i),
        boundary(s, end),
        i <= end,
    ensures
        i <= skip_dark(s, i, end) <= end,
        boundary(s, skip_dark(s, i, end)),
    decreases end - i,
{
    if i < end && (char_from(s, i) matches Some(c) && !white_space(c)) {
        char_bounds(s, i);
        char_within(s, i, end);
        skip_dark_bounds(s, i + width(s[i]), end);
    }
}

/// A character that starts before a boundary ends no later than it.
pub proof fn char_within(s: Seq<u8>, i: int, end: int)
    requires
        valid_utf8(s),
        boundary(s, i),
        boundary(s, end),
        i < end,
    ensures
        i + width(s[i]) <= end,
{
    char_bounds(s, i);
    if end < i + width(s[i]) {
        assert(is_continuation_byte(s[end]));
    }
}

/// An identifier run stays inside the text and ends at a boundary.
pub proof fn identifier_end_bounds(s: Seq<u8>, i: int)
    requires
        valid_utf8(s),
        boundary(s, i),
    ensures
        i <= identifier_end(s, i) <= s.len(),
        boundary(s, identifier_end(s, i)),
    decreases s.len() - i,
{
    if char_from(s, i) matches Some(c) && identifier_part(c) {
        char_bounds(s, i);
        identifier_end_bounds(s, i + width(s[i]));
    }
}

/// The number of bytes of the character that the byte `b` leads.
pub fn char_width(b: u8) -> (n: usize)
    ensures
        n == width(b),
{
    if b < 0x80 {
        1
    } else if b < 0xe0 {
        2
    } else if b < 0xf0 {
        3
    } else {
        4
    }
}

/// The character starting at byte `off`, or `None` where none starts.
pub fn char_at(source: &str, off: usize) -> (c: Option<char>)
    ensures
        c == char_from(utf8(source), off as int),
{
    let s = source.as_bytes();
    if off >= s.len() || (0x80 <= s[off] && s[off] < 0xc0) {
        return None;
    }
    proof {
        utf8_valid(source);
        char_bounds(s@, off as int);
    }
    let (_, rest) = source.split_at(off);
    proof {
        assert(utf8(rest) == s@.subrange(off as int, s@.len() as int));
        assert(utf8(rest).len() > 0);
        assert(rest@.len() > 0);
        encode_utf8_first_scalar(rest@);
        char_u32_cast(rest@[0], decode_first_scalar(utf8(rest)));
    }
    Some(rest.get_char(0))
}

/// The character ending at byte `off`, or `None` where none ends.
pub fn char_before(source: &str, off: usize) -> (c: Option<char>)
    ensures
        c == char_until(utf8(source), off as int),
{
    let s = source.as_bytes();
    if off == 0 || off > s.len() || (off < s.len() && 0x80 <= s[off] && s[off] < 0xc0) {
        return None;
    }
    let mut i: usize = off - 1;
    while i > 0 && 0x80 <= s[i] && s[i] < 0xc0
        invariant
            i < off <= s@.len(),
            char_start_before(s@, off as int) == char_start_before(s@, i + 1),
        decreases i,
    {
        i = i - 1;
    }
    if i == 0 && 0x80 <= s[0] && s[0] < 0xc0 {
        assert(char_start_before(s@, 1) == char_start_before(s@, 0));
        return None;
    }
    char_at(source, i)
}

/// Is the character at `off` one that can start an identifier? This decides whether an `@`-head is
/// read by the notation's own identifier rule.
pub fn is_ident_start_at(source: &str, off: u32) -> (yes: bool)
    requires
        boundary(utf8(source), off as int),
    ensures
        yes == (char_from(utf8(source), off as int) matches Some(c) && identifier_start(c)),
{
    match char_at(source, off as usize) {
        Some(c) => is_identifier_start(c),
        None => false,
    }
}

/// Can `c` start a JavaScript identifier?
pub fn is_identifier_start(c: char) -> (yes: bool)
    ensures
        yes == identifier_start(c),
{
    if '\u{80}' <= c {
        unicode_id_start::is_id_start_unicode(c)
    } else {
        ('a' <= c && c <= 'z') || ('A' <= c && c <= 'Z') || c == '$' || c == '_'
    }
}

/// Can `c` continue a JavaScript identifier?
pub fn is_identifier_part(c: char) -> (yes: bool)
    ensures
        yes == identifier_part(c),
{
    if '\u{80}' <= c {
        unicode_id_start::is_id_continue_unicode(c) || c == '\u{200c}' || c == '\u{200d}'
    } else {
        ('a' <= c && c <= 'z') || ('A' <= c && c <= 'Z') || ('0' <= c && c <= '9') || c == '$' || c
            == '_'
    }
}

/// The end of the run of identifier characters at `off`.
pub fn skip_identifier(source: &str, off: u32) -> (end: u32)
    requires
        addressable(utf8(source)),
        boundary(utf8(source), off as int),
    ensures
        end == identifier_end(utf8(source), off as int),
        off <= end <= utf8(source).len(),
        boundary(utf8(source), end as int),
{
    let s = source.as_bytes();
    let mut i: usize = off as usize;
    proof {
        utf8_valid(source);
    }
    loop
        invariant
            s@ == utf8(source),
            valid_utf8(s@),
            addressable(s@),
            boundary(s@, i as int),
            off <= i,
            identifier_end(s@, i as int) == identifier_end(s@, off as int),
        decreases s@.len() - i,
    {
        match char_at(source, i) {
            Some(c) => {
                if !is_identifier_part(c) {
                    return i as u32;
                }
                proof {
                    char_bounds(s@, i as int);
                }
                i = i + char_width(s[i]);
            },
            None => {
                return i as u32;
            },
        }
    }
}

/// Is `c` of a script without word boundaries (Han, Hiragana, Katakana, Hangul)?
pub fn is_cjk(c: char) -> (yes: bool)
    ensures
        yes == (script_of_char(c) != WordScript::Other),
{
    match script_of(c) {
        WordScript::Other => false,
        _ => true,
    }
}

/// Is `c` "wordy" for the emphasis word-boundary rule? The start and the end of the source are not.
pub fn is_wordy(c: Option<char>) -> (yes: bool)
    ensures
        yes == wordy(c),
{
    match c {
        None => false,
        Some(c) => c.is_alphanumeric() && !is_cjk(c),
    }
}

/// The first run of characters other than white space between `from` and `end`.
pub fn first_token(source: &str, from: u32, end: u32) -> (token: Option<Span>)
    requires
        addressable(utf8(source)),
        boundary(utf8(source), from as int),
        boundary(utf8(source), end as int),
        from <= end,
    ensures
        token == token_span(utf8(source), from as int, end as int),
        token matches Some(t) ==> from <= t.start <= t.end <= end,
{
    let s = source.as_bytes();
    proof {
        utf8_valid(source);
        skip_white_bounds(s@, from as int, end as int);
        skip_dark_bounds(s@, skip_white(s@, from as int, end as int), end as int);
    }
    let mut i: usize = from as usize;
    let mut white: bool = true;
    while white && i < end as usize
        invariant
            s@ == utf8(source),
            valid_utf8(s@),
            boundary(s@, i as int),
            boundary(s@, end as int),
            from <= i <= end,
            skip_white(s@, i as int, end as int) == skip_white(s@, from as int, end as int),
            white || skip_white(s@, i as int, end as int) == i,
        decreases end - i, (if white { 1int } else { 0int }),
    {
        let c = char_at(source, i);
        match c {
            Some(c) => {
                if c.is_whitespace() {
                    proof {
                        char_bounds(s@, i as int);
                        char_within(s@, i as int, end as int);
                    }
                    i = i + char_width(s[i]);
                } else {
                    white = false;
                }
            },
            None => {
                white = false;
            },
        }
    }
    if i >= end as usize {
        return None;
    }
    let start: usize = i;
    let mut dark: bool = true;
    while dark && i < end as usize
        invariant
            s@ == utf8(source),
            valid_utf8(s@),
            boundary(s@, i as int),
            boundary(s@, end as int),
            start <= i <= end,
            skip_dark(s@, i as int, end as int) == skip_dark(s@, start as int, end as int),
            dark || skip_dark(s@, i as int, end as int) == i,
        decreases end - i, (if dark { 1int } else { 0int }),
    {
        let c = char_at(source, i);
        match c {
            Some(c) => {
                if c.is_whitespace() {
                    dark = false;
                } else {
                    proof {
                        char_bounds(s@, i as int);
                        char_within(s@, i as int, end as int);
                    }
                    i = i + char_width(s[i]);
                }
            },
            None => {
                dark = false;
            },
        }
    }
    Some(Span::new(start as u32, i as u32))
}

/// The span of the literal that a backslash escape at `esc_off` produces: the character after the
/// backslash, or the backslash itself at the end of the source.
pub open spec fn escape(s: Seq<u8>, esc_off: int) -> Span {
    if esc_off + 1 < s.len() {
        Span { start: (esc_off + 1) as u32, end: (esc_off + 1 + width(s[esc_off + 1])) as u32 }
    } else {
        Span { start: esc_off as u32, end: (esc_off + 1) as u32 }
    }
}

/// The span of the literal a backslash escape at `esc_off` produces; markup resumes at its end.
pub fn escape_span(source: &str, esc_off: u32) -> (span: Span)
    requires
        addressable(utf8(source)),
        esc_off < utf8(source).len(),
        boundary(utf8(source), esc_off + 1),
    ensures
        span == escape(utf8(source), esc_off as int),
        esc_off <= span.start < span.end <= utf8(source).len(),
        boundary(utf8(source), span.end as int),
{
    let s = source.as_bytes();
    let start: usize = esc_off as usize + 1;
    if start < s.len() {
        proof {
            utf8_valid(source);
            char_bounds(s@, start as int);
        }
        Span::new(start as u32, (start + char_width(s[start])) as u32)
    } else {
        Span::new(esc_off, start as u32)
    }
}

/// Is there nothing but white space from `a` to `b`?
pub fn is_white_run(source: &str, a: u32, b: u32) -> (yes: bool)
    ensures
        yes == (skip_white(utf8(source), a as int, b as int) >= b),
{
    let s = source.as_bytes();
    let mut i: usize = a as usize;
    while i < b as usize
        invariant
            s@ == utf8(source),
            skip_white(s@, i as int, b as int) == skip_white(s@, a as int, b as int),
        decreases b + 4 - i,
    {
        match char_at(source, i) {
            Some(c) => {
                if !c.is_whitespace() {
                    return false;
                }
                proof {
                    utf8_valid(source);
                    char_bounds(s@, i as int);
                }
                i = i + char_width(s[i]);
            },
            None => {
                return false;
            },
        }
    }
    true
}

} // verus!
