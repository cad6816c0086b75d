//! Generated text, and the log of what was copied into it from the source.

use vstd::prelude::*;
use vstd::slice::slice_subrange;
use vstd::utf8::{valid_utf8, valid_utf8_concat};
use crate::ascii::{
    BACKSLASH, BACKTICK, DOLLAR, DQUOTE, LOWER_N, LOWER_R, NEWLINE, RETURN, SQUOTE, UNDERSCORE,
};
use crate::bytes::{ascii_alnum, is_alnum, utf8, Span};
use crate::embedded::{skip_js_string, string_body_end, string_end};
use crate::mapping::{byte_exact, LogEntry};
use crate::unicode::{ascii_is_valid, ascii_splits, boundary, cut_is_valid, utf8_valid};

verus! {

/// Generated text under way.
pub struct Output {
    /// The text, as UTF-8.
    pub code: Vec<u8>,
    /// What was copied from the source: where it stands there, and where it went.
    pub log: Vec<LogEntry>,
    /// What stands in the source for a place in the text that nothing was copied to.
    pub anchors: Vec<LogEntry>,
}

/// The mathematical view of an [`Output`].
pub struct Written {
    /// The text.
    pub code: Seq<u8>,
    /// What was copied from the source.
    pub log: Seq<LogEntry>,
    /// What stands for a place that nothing was copied to.
    pub anchors: Seq<LogEntry>,
}

impl Output {
    /// What has been written.
    pub open spec fn written(self) -> Written {
        Written { code: self.code@, log: self.log@, anchors: self.anchors@ }
    }
}

/// Nothing written.
pub open spec fn blank() -> Written {
    Written { code: Seq::empty(), log: Seq::empty(), anchors: Seq::empty() }
}

/// `text` written after `w`.
pub open spec fn put(w: Written, text: Seq<u8>) -> Written {
    Written { code: w.code + text, ..w }
}

/// Is `b` a byte of a name or a number in code?
pub open spec fn is_word(b: u8) -> bool {
    is_alnum(b) || b == UNDERSCORE || b == DOLLAR || b >= 0x80
}

/// The end of the run of word bytes that reaches from `p`, no further than `e`.
pub open spec fn word_end(s: Seq<u8>, p: int, e: int) -> int
    decreases e - p,
{
    if 0 <= p < e <= s.len() && is_word(s[p]) {
        word_end(s, p + 1, e)
    } else {
        p
    }
}

/// The end of the leaf of code that starts at `p`: a string literal, or a name or a number. A leaf
/// ends no further than `e`, and where none starts its end is `p`.
pub open spec fn leaf_end(s: Seq<u8>, p: int, e: int) -> int {
    if s[p] == DQUOTE || s[p] == SQUOTE || s[p] == BACKTICK {
        if string_end(s, p) < e {
            string_end(s, p)
        } else {
            e
        }
    } else {
        word_end(s, p, e)
    }
}

/// The leaves of the code from `p` to `e`, logged after `log`, with the code copied so that it
/// starts at offset `to`. A leaf is logged as long as its offset fits.
pub open spec fn log_leaves(log: Seq<LogEntry>, s: Seq<u8>, p: int, e: int, to: int) -> Seq<LogEntry>
    decreases e - p,
{
    if 0 <= p < e <= s.len() {
        let q = leaf_end(s, p, e);
        if p < q <= e {
            let more = if to + 2 <= u32::MAX {
                log.push((p as u32, q as u32, to as u32))
            } else {
                log
            };
            log_leaves(more, s, q, e, to + (q - p))
        } else {
            log_leaves(log, s, p + 1, e, to + 1)
        }
    } else {
        log
    }
}

/// What is logged stays logged.
proof fn logged_leaves_stay(log: Seq<LogEntry>, s: Seq<u8>, p: int, e: int, to: int, x: LogEntry)
    requires
        log.contains(x),
    ensures
        log_leaves(log, s, p, e, to).contains(x),
    decreases e - p,
{
    if 0 <= p < e <= s.len() {
        let q = leaf_end(s, p, e);
        if p < q <= e {
            let more = if to + 2 <= u32::MAX {
                log.push((p as u32, q as u32, to as u32))
            } else {
                log
            };
            let i = choose|i: int| 0 <= i < log.len() && log[i] == x;
            assert(more[i] == x);
            logged_leaves_stay(more, s, q, e, to + (q - p), x);
        } else {
            logged_leaves_stay(log, s, p + 1, e, to + 1, x);
        }
    }
}

/// A run of word bytes ends where the word does.
proof fn words_end(s: Seq<u8>, p: int, e: int, b: int)
    requires
        0 <= p <= b <= e <= s.len(),
        forall|i: int| p <= i < b ==> is_word(#[trigger] s[i]),
        b == e || !is_word(s[b]),
    ensures
        word_end(s, p, e) == b,
    decreases b - p,
{
    if p < b {
        words_end(s, p + 1, e, b);
    }
}

/// A run of word bytes ends before a byte that is none.
proof fn words_stop(s: Seq<u8>, p: int, e: int, i: int)
    requires
        0 <= p <= i < e <= s.len(),
        !is_word(s[i]),
    ensures
        p <= word_end(s, p, e) <= i,
    decreases i - p,
{
    if p < i && is_word(s[p]) {
        words_stop(s, p + 1, e, i);
    }
}

/// Every name and number of copied code, up to the first string literal, is logged: where it stands
/// in the source, and where it went.
pub proof fn copied_words_are_logged(
    log: Seq<LogEntry>,
    s: Seq<u8>,
    p: int,
    e: int,
    to: int,
    a: int,
    b: int,
)
    requires
        0 <= p <= a < b <= e <= s.len(),
        s.len() <= u32::MAX,
        0 <= to,
        to + (a - p) + 2 <= u32::MAX,
        forall|i: int|
            p <= i < b ==> #[trigger] s[i] != DQUOTE && s[i] != SQUOTE && s[i] != BACKTICK,
        forall|i: int| a <= i < b ==> is_word(#[trigger] s[i]),
        a == p || !is_word(s[a - 1]),
        b == e || !is_word(s[b]),
    ensures
        log_leaves(log, s, p, e, to).contains((a as u32, b as u32, (to + (a - p)) as u32)),
    decreases a - p,
{
    let q = leaf_end(s, p, e);
    assert(s[p] != DQUOTE);
    if p == a {
        words_end(s, p, e, b);
        let x = (a as u32, b as u32, to as u32);
        let more = log.push(x);
        assert(more[log.len() as int] == x);
        logged_leaves_stay(more, s, q, e, to + (q - p), x);
    } else if p < q <= e {
        words_stop(s, p, e, a - 1);
        let more = if to + 2 <= u32::MAX {
            log.push((p as u32, q as u32, to as u32))
        } else {
            log
        };
        copied_words_are_logged(more, s, q, e, to + (q - p), a, b);
    } else {
        copied_words_are_logged(log, s, p + 1, e, to + 1, a, b);
    }
}

/// The source from `a` to `b` copied after `w`, and its leaves logged.
pub open spec fn put_source(w: Written, s: Seq<u8>, a: int, b: int) -> Written {
    if a < b && boundary(s, a) && boundary(s, b) {
        Written {
            code: w.code + s.subrange(a, b),
            log: log_leaves(w.log, s, a, b, w.code.len() as int),
            anchors: w.anchors,
        }
    } else {
        w
    }
}

/// The place where the text stands, as where `span` went.
pub open spec fn put_anchor(w: Written, span: Span) -> Written {
    if w.code.len() + 2 <= u32::MAX {
        Written { anchors: w.anchors.push((span.start, span.end, w.code.len() as u32)), ..w }
    } else {
        w
    }
}

/// The bytes that stand for `b` inside a double-quoted string literal.
pub open spec fn escape_byte(b: u8) -> Seq<u8> {
    if b == DQUOTE || b == BACKSLASH {
        seq![BACKSLASH, b]
    } else if b == NEWLINE {
        seq![BACKSLASH, LOWER_N]
    } else if b == RETURN {
        seq![BACKSLASH, LOWER_R]
    } else {
        seq![b]
    }
}

/// The text from `i` on, escaped, after `code`.
pub open spec fn escaped_after(code: Seq<u8>, t: Seq<u8>, i: int) -> Seq<u8>
    decreases t.len() - i,
{
    if 0 <= i < t.len() {
        escaped_after(code + escape_byte(t[i]), t, i + 1)
    } else {
        code
    }
}

/// `t` as a string literal written after `w`.
pub open spec fn put_quoted(w: Written, t: Seq<u8>) -> Written {
    Written {
        code: escaped_after(w.code + utf8("\""), t, 0) + utf8("\""),
        ..w
    }
}

/// Is what was written UTF-8, and everything that was logged the same text in the source and where
/// it went?
#[verifier::opaque]
pub open spec fn is_faithful(s: Seq<u8>, w: Written) -> bool {
    &&& valid_utf8(w.code)
    &&& forall|k: int| 0 <= k < w.log.len() ==> byte_exact(s, w.code, #[trigger] w.log[k])
}

/// What is exact stays so as text is added.
pub proof fn exact_after(s: Seq<u8>, w: Written, more: Written)
    requires
        is_faithful(s, w),
        valid_utf8(more.code),
        more.log == w.log,
        more.code.len() >= w.code.len(),
        more.code.take(w.code.len() as int) == w.code,
    ensures
        is_faithful(s, more),
{
    reveal(is_faithful);
    assert forall|k: int| 0 <= k < more.log.len() implies byte_exact(
        s,
        more.code,
        #[trigger] more.log[k],
    ) by {
        let x = w.log[k];
        assert(byte_exact(s, w.code, x));
        let len = x.1 - x.0;
        assert(more.code.subrange(x.2 as int, x.2 + len) =~= w.code.subrange(
            x.2 as int,
            x.2 + len,
        )) by {
            assert forall|i: int| x.2 <= i < x.2 + len implies more.code[i] == w.code[i] by {
                assert(more.code.take(w.code.len() as int)[i] == more.code[i]);
            }
        }
    }
}

/// The leaves of copied code are logged exactly.
proof fn leaves_are_exact(w: Written, s: Seq<u8>, a: int, p: int, e: int, log: Seq<LogEntry>)
    requires
        0 <= a <= p <= e <= s.len(),
        s.len() <= u32::MAX,
        w.code.len() >= e - a,
        w.code.skip(w.code.len() - (e - a)) == s.subrange(a, e),
        is_faithful(s, Written { log, ..w }),
    ensures
        is_faithful(
            s,
            Written { log: log_leaves(log, s, p, e, w.code.len() - (e - p)), ..w },
        ),
    decreases e - p,
{
    let to = w.code.len() - (e - p);
    if p < e {
        let q = leaf_end(s, p, e);
        if p < q <= e {
            let x = (p as u32, q as u32, to as u32);
            let more = if to + 2 <= u32::MAX {
                log.push(x)
            } else {
                log
            };
            assert(is_faithful(s, Written { log: more, ..w })) by {
                reveal(is_faithful);
                if to + 2 <= u32::MAX {
                    let copied = w.code.skip(w.code.len() - (e - a));
                    assert(s.subrange(p, q) =~= w.code.subrange(to, to + (q - p))) by {
                        assert forall|i: int| 0 <= i < q - p implies s.subrange(p, q)[i]
                            == w.code.subrange(to, to + (q - p))[i] by {
                            assert(copied[p - a + i] == w.code[to + i]);
                            assert(s.subrange(a, e)[p - a + i] == s[p + i]);
                        }
                    }
                    assert(byte_exact(s, w.code, x));
                    assert forall|k: int| 0 <= k < more.len() implies byte_exact(
                        s,
                        w.code,
                        #[trigger] more[k],
                    ) by {
                        if k < log.len() {
                            let before = Written { log, ..w };
                            assert(byte_exact(s, before.code, before.log[k]));
                        }
                    }
                }
            }
            leaves_are_exact(w, s, a, q, e, more);
        } else {
            leaves_are_exact(w, s, a, p + 1, e, log);
        }
    }
}

/// Copying from the source is logged exactly.
proof fn copies_are_exact(w: Written, s: Seq<u8>, a: int, b: int)
    requires
        is_faithful(s, w),
        valid_utf8(s),
        s.len() <= u32::MAX,
    ensures
        is_faithful(s, put_source(w, s, a, b)),
{
    if a < b && boundary(s, a) && boundary(s, b) {
        let grown = Written { code: w.code + s.subrange(a, b), ..w };
        reveal(is_faithful);
        cut_is_valid(s, a, b);
        valid_utf8_concat(w.code, s.subrange(a, b));
        assert(grown.code.take(w.code.len() as int) =~= w.code);
        exact_after(s, w, grown);
        assert(grown.code.skip(grown.code.len() - (b - a)) =~= s.subrange(a, b));
        leaves_are_exact(grown, s, a, a, b, w.log);
    }
}

/// The bytes of `span`, or nothing where it is not a range of characters of `s`.
pub open spec fn slice(s: Seq<u8>, span: Span) -> Seq<u8> {
    if span.start <= span.end && boundary(s, span.start as int) && boundary(s, span.end as int) {
        s.subrange(span.start as int, span.end as int)
    } else {
        Seq::empty()
    }
}

/// Does a character start at `i`, or is `i` the end of `s`?
pub fn is_boundary(s: &[u8], i: u32) -> (yes: bool)
    ensures
        yes == boundary(s@, i as int),
{
    let i: usize = i as usize;
    i == s.len() || (i < s.len() && !(0x80 <= s[i] && s[i] <= 0xbf))
}

/// The bytes of `span`, or nothing where it is not a range of characters of `s`.
pub fn slice_of<'a>(s: &'a [u8], span: Span) -> (t: &'a [u8])
    ensures
        t@ == slice(s@, span),
        t@.len() <= s@.len(),
        valid_utf8(s@) ==> valid_utf8(t@),
{
    if span.start <= span.end && is_boundary(s, span.start) && is_boundary(s, span.end) {
        proof {
            if valid_utf8(s@) {
                cut_is_valid(s@, span.start as int, span.end as int);
            }
        }
        slice_subrange(s, span.start as usize, span.end as usize)
    } else {
        let none = slice_subrange(s, 0, 0);
        assert(none@ =~= Seq::<u8>::empty());
        none
    }
}

/// Are two byte strings the same?
pub fn same_bytes(a: &[u8], b: &[u8]) -> (yes: bool)
    ensures
        yes == (a@ == b@),
{
    if a.len() != b.len() {
        return false;
    }
    let mut i: usize = 0;
    while i < a.len()
        invariant
            a@.len() == b@.len(),
            i <= a@.len(),
            forall|k: int| 0 <= k < i ==> #[trigger] a@[k] == b@[k],
        decreases a@.len() - i,
    {
        if a[i] != b[i] {
            assert(a@[i as int] != b@[i as int]);
            return false;
        }
        i = i + 1;
    }
    assert(a@ =~= b@);
    true
}

/// The end of the leaf of code that starts at `p`.
fn end_of_leaf(s: &[u8], p: usize, e: usize) -> (end: usize)
    requires
        p < e <= s@.len(),
        s@.len() + 2 <= usize::MAX,
    ensures
        end == leaf_end(s@, p as int, e as int),
        p <= end <= e,
{
    let b: u8 = s[p];
    if b == DQUOTE || b == SQUOTE || b == BACKTICK {
        let end: usize = skip_js_string(s, p);
        if end < e {
            end
        } else {
            e
        }
    } else {
        let mut q: usize = p;
        while q < e && (ascii_alnum(s[q]) || s[q] == UNDERSCORE || s[q] == DOLLAR || s[q] >= 0x80)
            invariant
                p <= q <= e <= s@.len(),
                word_end(s@, q as int, e as int) == word_end(s@, p as int, e as int),
            decreases e - q,
        {
            q = q + 1;
        }
        q
    }
}

impl Output {
    /// Nothing written yet.
    pub fn new() -> (o: Output)
        ensures
            o.written() == blank(),
            forall|s: Seq<u8>| #[trigger] is_faithful(s, o.written()),
    {
        proof {
            reveal(is_faithful);
        }
        let o = Output { code: Vec::new(), log: Vec::new(), anchors: Vec::new() };
        assert(o.code@ =~= Seq::<u8>::empty());
        assert(o.log@ =~= Seq::<LogEntry>::empty());
        assert(o.anchors@ =~= Seq::<LogEntry>::empty());
        o
    }

    /// What was exact stays so as text is added.
    proof fn stays_exact(&self, before: Written)
        requires
            valid_utf8(before.code) ==> valid_utf8(self.code@),
            self.log@ == before.log,
            self.code@.len() >= before.code.len(),
            self.code@.take(before.code.len() as int) == before.code,
        ensures
            forall|s: Seq<u8>| #[trigger] is_faithful(s, before) ==> is_faithful(s, self.written()),
    {
        assert forall|s: Seq<u8>| #[trigger] is_faithful(s, before) implies is_faithful(
            s,
            self.written(),
        ) by {
            reveal(is_faithful);
            exact_after(s, before, self.written());
        }
    }

    /// Write bytes.
    pub fn bytes(&mut self, text: &[u8])
        requires
            valid_utf8(text@),
        ensures
            final(self).written() == put(old(self).written(), text@),
            forall|s: Seq<u8>| #[trigger]
                is_faithful(s, old(self).written()) ==> is_faithful(s, final(self).written()),
    {
        self.code.extend_from_slice(text);
        assert(self.code@ =~= old(self).code@ + text@);
        proof {
            assert(self.code@.take(old(self).code@.len() as int) =~= old(self).code@);
            if valid_utf8(old(self).code@) {
                valid_utf8_concat(old(self).code@, text@);
            }
            self.stays_exact(old(self).written());
        }
    }

    /// Write a piece of text.
    pub fn text(&mut self, text: &str)
        ensures
            final(self).written() == put(old(self).written(), utf8(text)),
            forall|s: Seq<u8>| #[trigger]
                is_faithful(s, old(self).written()) ==> is_faithful(s, final(self).written()),
    {
        proof {
            utf8_valid(text);
        }
        self.bytes(text.as_bytes());
    }

    /// Copy the source from `a` to `b`.
    pub fn source(&mut self, s: &[u8], a: u32, b: u32)
        requires
            s@.len() + 2 <= u32::MAX,
            valid_utf8(s@),
        ensures
            final(self).written() == put_source(old(self).written(), s@, a as int, b as int),
            is_faithful(s@, old(self).written()) ==> is_faithful(s@, final(self).written()),
    {
        proof {
            if is_faithful(s@, old(self).written()) {
                copies_are_exact(old(self).written(), s@, a as int, b as int);
            }
        }
        if a < b && is_boundary(s, a) && is_boundary(s, b) {
            let mut to: usize = self.code.len();
            let ghost first = to as int;
            self.code.extend_from_slice(slice_subrange(s, a as usize, b as usize));
            assert(self.code@ =~= old(self).code@ + s@.subrange(a as int, b as int));
            let total: usize = self.code.len();
            let mut p: usize = a as usize;
            while p < b as usize
                invariant
                    a <= p <= b <= s@.len(),
                    s@.len() + 2 <= usize::MAX,
                    first + (b - a) == total,
                    to == first + (p - a),
                    self.code@ == old(self).code@ + s@.subrange(a as int, b as int),
                    self.anchors@ == old(self).anchors@,
                    log_leaves(self.log@, s@, p as int, b as int, to as int) == log_leaves(
                        old(self).log@,
                        s@,
                        a as int,
                        b as int,
                        first,
                    ),
                decreases b - p,
            {
                let q: usize = end_of_leaf(s, p, b as usize);
                if p < q {
                    if to <= (u32::MAX - 2) as usize {
                        self.log.push((p as u32, q as u32, to as u32));
                    }
                    to = to + (q - p);
                    p = q;
                } else {
                    to = to + 1;
                    p = p + 1;
                }
            }
        }
    }

    /// Keep the place where the text stands as where `span` went.
    pub fn anchor(&mut self, span: Span)
        ensures
            final(self).written() == put_anchor(old(self).written(), span),
            forall|s: Seq<u8>| #[trigger]
                is_faithful(s, old(self).written()) ==> is_faithful(s, final(self).written()),
    {
        let at: usize = self.code.len();
        if at <= (u32::MAX - 2) as usize {
            self.anchors.push((span.start, span.end, at as u32));
        }
        proof {
            assert(self.code@.take(self.code@.len() as int) =~= self.code@);
            self.stays_exact(old(self).written());
        }
    }

    /// Write a string literal.
    pub fn quoted(&mut self, t: &[u8])
        requires
            valid_utf8(t@),
        ensures
            final(self).written() == put_quoted(old(self).written(), t@),
            forall|s: Seq<u8>| #[trigger]
                is_faithful(s, old(self).written()) ==> is_faithful(s, final(self).written()),
    {
        self.text("\"");
        let ghost start = self.code@;
        let mut i: usize = 0;
        while i < t.len()
            invariant
                i <= t@.len(),
                self.log@ == old(self).log@,
                self.anchors@ == old(self).anchors@,
                escaped_after(self.code@, t@, i as int) == escaped_after(start, t@, 0),
            decreases t@.len() - i,
        {
            let b: u8 = t[i];
            let ghost before = self.code@;
            if b == DQUOTE || b == BACKSLASH {
                self.code.push(BACKSLASH);
                self.code.push(b);
            } else if b == NEWLINE {
                self.code.push(BACKSLASH);
                self.code.push(LOWER_N);
            } else if b == RETURN {
                self.code.push(BACKSLASH);
                self.code.push(LOWER_R);
            } else {
                self.code.push(b);
            }
            assert(self.code@ =~= before + escape_byte(b));
            i = i + 1;
        }
        self.text("\"");
        proof {
            escaped_goes_behind(start, t@, 0);
            if valid_utf8(old(self).code@) {
                quoting_is_valid(old(self).written(), t@);
            }
            assert(self.code@.take(old(self).code@.len() as int) =~= old(self).code@);
            self.stays_exact(old(self).written());
        }
    }
}

/// Text stays valid as it is escaped.
proof fn escaping_is_valid(code: Seq<u8>, t: Seq<u8>, i: int)
    requires
        0 <= i <= t.len(),
        valid_utf8(code + t.skip(i)),
    ensures
        valid_utf8(escaped_after(code, t, i)),
    decreases t.len() - i,
{
    if i < t.len() {
        let rest = t.skip(i + 1);
        let esc = escape_byte(t[i]);
        assert(code + t.skip(i) =~= code + seq![t[i]] + rest);
        if esc.len() == 2 {
            ascii_splits(code, t[i], rest);
            ascii_is_valid(esc);
            valid_utf8_concat(code, esc);
            valid_utf8_concat(code + esc, rest);
        }
        escaping_is_valid(code + esc, t, i + 1);
    } else {
        assert(code + t.skip(i) =~= code);
    }
}

/// A string literal written after valid text leaves it valid.
proof fn quoting_is_valid(w: Written, t: Seq<u8>)
    requires
        valid_utf8(w.code),
        valid_utf8(t),
    ensures
        valid_utf8(put_quoted(w, t).code),
{
    utf8_valid("\"");
    let open = w.code + utf8("\"");
    valid_utf8_concat(w.code, utf8("\""));
    valid_utf8_concat(open, t);
    assert(t.skip(0) =~= t);
    escaping_is_valid(open, t, 0);
    valid_utf8_concat(escaped_after(open, t, 0), utf8("\""));
}

/// What the byte behind a backslash stands for.
pub open spec fn escape_value(b: u8) -> u8 {
    if b == LOWER_N {
        NEWLINE
    } else if b == LOWER_R {
        RETURN
    } else {
        b
    }
}

/// What the body of a string literal spells.
pub open spec fn literal_value(body: Seq<u8>) -> Seq<u8>
    decreases body.len(),
{
    if body.len() == 0 {
        Seq::empty()
    } else if body[0] == BACKSLASH && body.len() >= 2 {
        seq![escape_value(body[1])] + literal_value(body.skip(2))
    } else {
        seq![body[0]] + literal_value(body.skip(1))
    }
}

/// The body of the literal that stands for `t`.
pub open spec fn literal_body(t: Seq<u8>) -> Seq<u8> {
    escaped_after(Seq::empty(), t, 0)
}

/// What is escaped goes behind what is there.
proof fn escaped_goes_behind(code: Seq<u8>, t: Seq<u8>, i: int)
    requires
        0 <= i <= t.len(),
    ensures
        escaped_after(code, t, i) == code + escaped_after(Seq::empty(), t, i),
        i < t.len() ==> escaped_after(Seq::empty(), t, i) == escape_byte(t[i]) + escaped_after(
            Seq::empty(),
            t,
            i + 1,
        ),
    decreases t.len() - i,
{
    if i < t.len() {
        escaped_goes_behind(code + escape_byte(t[i]), t, i + 1);
        escaped_goes_behind(Seq::<u8>::empty() + escape_byte(t[i]), t, i + 1);
        assert(Seq::<u8>::empty() + escape_byte(t[i]) =~= escape_byte(t[i]));
        assert(escaped_after(code, t, i) =~= code + escaped_after(Seq::empty(), t, i));
    } else {
        assert(code =~= code + Seq::<u8>::empty());
    }
}

/// The escaped text from `i` on spells the text from `i` on.
proof fn escaped_spells(t: Seq<u8>, i: int)
    requires
        0 <= i <= t.len(),
    ensures
        literal_value(escaped_after(Seq::empty(), t, i)) == t.skip(i),
    decreases t.len() - i,
{
    if i < t.len() {
        let rest = escaped_after(Seq::<u8>::empty(), t, i + 1);
        escaped_goes_behind(Seq::empty(), t, i);
        escaped_spells(t, i + 1);
        let all = escape_byte(t[i]) + rest;
        let n = escape_byte(t[i]).len() as int;
        assert(all.skip(n) =~= rest);
        assert(t.skip(i) =~= seq![t[i]] + t.skip(i + 1));
    } else {
        assert(t.skip(i) =~= Seq::<u8>::empty());
    }
}

/// The escaped text from `i` on, at `p` in `s` with a quote behind it, ends the literal with that
/// quote.
proof fn escaped_ends(s: Seq<u8>, p: int, t: Seq<u8>, i: int)
    requires
        0 <= i <= t.len(),
        0 <= p <= s.len(),
        s.skip(p) == escaped_after(Seq::empty(), t, i) + seq![DQUOTE],
    ensures
        string_body_end(s, p, DQUOTE) == s.len(),
    decreases t.len() - i,
{
    if i < t.len() {
        let rest = escaped_after(Seq::<u8>::empty(), t, i + 1);
        escaped_goes_behind(Seq::empty(), t, i);
        let n = escape_byte(t[i]).len() as int;
        assert(s.skip(p).len() >= n);
        assert(s.skip(p)[0] == s[p]);
        assert(s.skip(p + n) =~= rest + seq![DQUOTE]) by {
            assert(s.skip(p + n) =~= s.skip(p).skip(n));
            assert(s.skip(p) == escape_byte(t[i]) + rest + seq![DQUOTE]);
        }
        escaped_ends(s, p + n, t, i + 1);
    } else {
        assert(s.skip(p) =~= seq![DQUOTE]);
        assert(s.skip(p).len() == 1);
        assert(p < s.len());
        assert(s[p] == s.skip(p)[0]);
    }
}

/// A text written as a string literal reads back as itself, whatever it holds, and the literal ends
/// where it is meant to: with its last byte.
pub proof fn literals_read_back(t: Seq<u8>)
    ensures
        literal_value(literal_body(t)) == t,
        put_quoted(blank(), t).code == seq![DQUOTE] + literal_body(t) + seq![DQUOTE],
        string_end(put_quoted(blank(), t).code, 0) == put_quoted(blank(), t).code.len(),
{
    escaped_spells(t, 0);
    assert(t.skip(0) =~= t);
    assert(utf8("\"") =~= seq![DQUOTE]) by {
        reveal_strlit("\"");
        vstd::string::is_ascii_spec_bytes("\"");
    }
    let s = put_quoted(blank(), t).code;
    escaped_goes_behind(Seq::<u8>::empty() + utf8("\""), t, 0);
    assert(Seq::<u8>::empty() + utf8("\"") =~= seq![DQUOTE]);
    assert(s =~= seq![DQUOTE] + literal_body(t) + seq![DQUOTE]);
    assert(s.skip(1) =~= literal_body(t) + seq![DQUOTE]);
    escaped_ends(s, 1, t, 0);
}

} // verus!
