//! Code mappings: which ranges of the source stand verbatim in the generated code.
//!
//! The lowering marks source ranges; the printer logs, for every node it prints, the node's source
//! range and where its text starts in the output. The join keeps, for each mark, the innermost
//! logged ranges inside it whose source text and generated text are the same bytes.

use vstd::prelude::*;
use crate::ascii::{DOLLAR, HYPHEN, SPACE, UNDERSCORE};
use crate::bytes::{addressable, ascii_alnum, at, get, is_alnum, utf8, Span};

verus! {

/// What kind of source range a mark is, which decides what an editor may do with it.
#[derive(Clone, Copy, Debug, PartialEq, Eq, Structural)]
pub enum NotaMappingKind {
    /// Embedded JavaScript.
    EmbeddedJs,
    /// The name of a component.
    ComponentIdentifier,
    /// The `[` of a property group that runs into the end of the file.
    PropsAnchor,
}

/// A marked source range.
#[derive(Clone, Copy, Debug, PartialEq, Eq, Structural)]
pub struct NotaMappingMark {
    /// The range.
    pub span: Span,
    /// Its kind.
    pub kind: NotaMappingKind,
}

impl NotaMappingMark {
    /// A mark.
    pub fn new(span: Span, kind: NotaMappingKind) -> (mark: NotaMappingMark)
        ensures
            mark == (NotaMappingMark { span, kind }),
    {
        NotaMappingMark { span, kind }
    }
}

/// What an editor may do with a mapped range.
#[derive(Clone, Copy, Debug, PartialEq, Eq, Structural)]
pub struct MappingCapabilities {
    /// Autocomplete in this range.
    pub completion: bool,
    /// Formatting and document edits cross this range.
    pub format: bool,
    /// Definitions, references and renames cross this range.
    pub navigation: bool,
    /// Semantic tokens and hover for this range.
    pub semantic: bool,
    /// The range is part of the document outline.
    pub structure: bool,
    /// Diagnostics surface in this range.
    pub verification: bool,
}

/// What an editor may do with a range of each kind: everything with embedded code; navigation,
/// hover and diagnostics with a component's name; completion alone at an anchor.
pub open spec fn capabilities(kind: NotaMappingKind) -> MappingCapabilities {
    match kind {
        NotaMappingKind::EmbeddedJs => MappingCapabilities {
            completion: true,
            format: true,
            navigation: true,
            semantic: true,
            structure: true,
            verification: true,
        },
        NotaMappingKind::ComponentIdentifier => MappingCapabilities {
            completion: false,
            format: false,
            navigation: true,
            semantic: true,
            structure: false,
            verification: true,
        },
        NotaMappingKind::PropsAnchor => MappingCapabilities {
            completion: true,
            format: false,
            navigation: false,
            semantic: false,
            structure: false,
            verification: false,
        },
    }
}

/// An editor may do everything with embedded code, and less with any other range: at an anchor it
/// completes and does nothing else, and a component's name it follows, explains and checks, but
/// neither completes nor formats.
pub proof fn capabilities_are_graded(kind: NotaMappingKind)
    ensures
        ({
            let c = capabilities(kind);
            &&& c.completion <==> kind != NotaMappingKind::ComponentIdentifier
            &&& c.format <==> kind == NotaMappingKind::EmbeddedJs
            &&& c.structure <==> kind == NotaMappingKind::EmbeddedJs
            &&& c.navigation <==> kind != NotaMappingKind::PropsAnchor
            &&& c.semantic <==> kind != NotaMappingKind::PropsAnchor
            &&& c.verification <==> kind != NotaMappingKind::PropsAnchor
        }),
{
}

impl MappingCapabilities {
    /// Everything: for embedded JavaScript.
    pub fn full() -> (data: MappingCapabilities)
        ensures
            data == capabilities(NotaMappingKind::EmbeddedJs),
    {
        MappingCapabilities {
            completion: true,
            format: true,
            navigation: true,
            semantic: true,
            structure: true,
            verification: true,
        }
    }

    /// Navigation, hover and diagnostics: for a component's name.
    pub fn navigation_hover() -> (data: MappingCapabilities)
        ensures
            data == capabilities(NotaMappingKind::ComponentIdentifier),
    {
        MappingCapabilities {
            completion: false,
            format: false,
            navigation: true,
            semantic: true,
            structure: false,
            verification: true,
        }
    }

    /// Completion alone: for the anchor of an unclosed property group.
    pub fn props_anchor() -> (data: MappingCapabilities)
        ensures
            data == capabilities(NotaMappingKind::PropsAnchor),
    {
        MappingCapabilities {
            completion: true,
            format: false,
            navigation: false,
            semantic: false,
            structure: false,
            verification: false,
        }
    }

    /// The capabilities of a kind of range.
    fn from_kind(kind: NotaMappingKind) -> (data: MappingCapabilities)
        ensures
            data == capabilities(kind),
    {
        match kind {
            NotaMappingKind::EmbeddedJs => MappingCapabilities::full(),
            NotaMappingKind::ComponentIdentifier => MappingCapabilities::navigation_hover(),
            NotaMappingKind::PropsAnchor => MappingCapabilities::props_anchor(),
        }
    }
}

/// A source range and the generated range that corresponds to it, segment by segment.
#[derive(Debug)]
pub struct CodeMapping {
    /// Source offsets, one for each segment.
    pub source_offsets: Vec<u32>,
    /// Generated offsets, one for each segment.
    pub generated_offsets: Vec<u32>,
    /// Segment lengths in the source.
    pub lengths: Vec<u32>,
    /// Segment lengths in the generated code, where they differ.
    pub generated_lengths: Option<Vec<u32>>,
    /// What an editor may do with the range.
    pub data: MappingCapabilities,
}

/// The mathematical view of a [`CodeMapping`].
pub struct MappingView {
    /// Source offsets, one for each segment.
    pub source_offsets: Seq<u32>,
    /// Generated offsets, one for each segment.
    pub generated_offsets: Seq<u32>,
    /// Segment lengths in the source.
    pub lengths: Seq<u32>,
    /// Segment lengths in the generated code, where they differ.
    pub generated_lengths: Option<Seq<u32>>,
    /// What an editor may do with the range.
    pub data: MappingCapabilities,
}

impl CodeMapping {
    /// The mathematical view of this mapping.
    pub open spec fn model(self) -> MappingView {
        MappingView {
            source_offsets: self.source_offsets@,
            generated_offsets: self.generated_offsets@,
            lengths: self.lengths@,
            generated_lengths: match self.generated_lengths {
                Some(v) => Some(v@),
                None => None,
            },
            data: self.data,
        }
    }
}

/// The views of a sequence of mappings.
pub open spec fn models(mappings: Seq<CodeMapping>) -> Seq<MappingView> {
    Seq::new(mappings.len(), |i: int| mappings[i].model())
}

/// One entry of the printer's log: where a node starts and ends in the source, and where its text
/// starts in the generated code.
pub type LogEntry = (u32, u32, u32);

/// Does entry `a` come before entry `b`: by its start, the longer first, then by its generated
/// start? A node comes before everything inside it.
pub open spec fn precedes(a: LogEntry, b: LogEntry) -> bool {
    a.0 < b.0 || (a.0 == b.0 && (a.1 > b.1 || (a.1 == b.1 && a.2 < b.2)))
}

/// Is the log in order, with no entry twice?
pub open spec fn in_order(log: Seq<LogEntry>) -> bool {
    forall|i: int, j: int| 0 <= i < j < log.len() ==> precedes(#[trigger] log[i], #[trigger] log[j])
}

/// Is `log` what `raw` holds of non-empty ranges, in order and with no entry twice?
pub open spec fn ordered_log(raw: Seq<LogEntry>, log: Seq<LogEntry>) -> bool {
    &&& in_order(log)
    &&& forall|x: LogEntry| #[trigger] log.contains(x) <==> raw.contains(x) && x.0 < x.1
}

/// The next entry after `k` with another source range than entry `k`, sought from `j` on.
pub open spec fn next_other(log: Seq<LogEntry>, k: int, j: int) -> Option<LogEntry>
    decreases log.len() - j,
{
    if 0 <= j < log.len() {
        if log[j].0 != log[k].0 || log[j].1 != log[k].1 {
            Some(log[j])
        } else {
            next_other(log, k, j + 1)
        }
    } else {
        None
    }
}

/// Is entry `k` a leaf: does the next entry with another range start past its end?
pub open spec fn is_leaf(log: Seq<LogEntry>, k: int) -> bool {
    match next_other(log, k, k + 1) {
        Some(other) => other.0 >= log[k].1,
        None => true,
    }
}

/// Is the text of an entry the same in the source and in the generated code?
pub open spec fn byte_exact(source: Seq<u8>, code: Seq<u8>, x: LogEntry) -> bool {
    let len = x.1 - x.0;
    x.0 <= x.1 && x.1 <= source.len() && x.2 + len <= code.len() && source.subrange(
        x.0 as int,
        x.1 as int,
    ) == code.subrange(x.2 as int, x.2 + len)
}

/// Does entry `k` belong to a mark over `span`: a leaf inside it whose text is exact?
pub open spec fn chosen(source: Seq<u8>, code: Seq<u8>, log: Seq<LogEntry>, span: Span, k: int) -> bool {
    is_leaf(log, k) && span.start <= log[k].0 < span.end && log[k].1 <= span.end && byte_exact(
        source,
        code,
        log[k],
    )
}

/// The entries among the first `n` that belong to a mark over `span`, in order.
pub open spec fn segments(source: Seq<u8>, code: Seq<u8>, log: Seq<LogEntry>, span: Span, n: int) -> Seq<
    LogEntry,
>
    decreases n,
{
    if 0 < n <= log.len() {
        if chosen(source, code, log, span, n - 1) {
            segments(source, code, log, span, n - 1).push(log[n - 1])
        } else {
            segments(source, code, log, span, n - 1)
        }
    } else {
        Seq::empty()
    }
}

/// The mapping of the segments `segs`.
pub open spec fn segment_mapping(segs: Seq<LogEntry>, data: MappingCapabilities) -> MappingView {
    MappingView {
        source_offsets: segs.map_values(|x: LogEntry| x.0),
        generated_offsets: segs.map_values(|x: LogEntry| x.2),
        lengths: segs.map_values(|x: LogEntry| (x.1 - x.0) as u32),
        generated_lengths: None,
        data,
    }
}

/// The first entry from `i` on whose source range is `span`.
pub open spec fn logged_at(raw: Seq<LogEntry>, span: Span, i: int) -> Option<LogEntry>
    decreases raw.len() - i,
{
    if 0 <= i < raw.len() {
        if raw[i].0 == span.start && raw[i].1 == span.end {
            Some(raw[i])
        } else {
            logged_at(raw, span, i + 1)
        }
    } else {
        None
    }
}

/// The end of the tag name that starts at `i` in the generated code.
pub open spec fn tag_name_end(code: Seq<u8>, i: int) -> int
    decreases code.len() - i,
{
    if 0 <= i < code.len() && (is_alnum(code[i]) || code[i] == HYPHEN || code[i] == UNDERSCORE || code[i]
        == DOLLAR) {
        tag_name_end(code, i + 1)
    } else {
        i
    }
}

/// Where an anchor whose opening `<` was generated at `open` points: past the tag name and one space
/// after it.
pub open spec fn anchor_at(code: Seq<u8>, open: int) -> int {
    let name = tag_name_end(code, open + 1);
    if at(code, name) == Some(SPACE) {
        name + 1
    } else {
        name
    }
}

/// The mapping of one mark, if it has any.
pub open spec fn mark_mapping(
    source: Seq<u8>,
    code: Seq<u8>,
    raw: Seq<LogEntry>,
    log: Seq<LogEntry>,
    mark: NotaMappingMark,
) -> Option<MappingView> {
    if mark.kind == NotaMappingKind::PropsAnchor {
        match logged_at(raw, mark.span, 0) {
            Some(entry) => Some(
                MappingView {
                    source_offsets: seq![mark.span.end],
                    generated_offsets: seq![anchor_at(code, entry.2 as int) as u32],
                    lengths: seq![0u32],
                    generated_lengths: Some(seq![0u32]),
                    data: capabilities(mark.kind),
                },
            ),
            None => None,
        }
    } else {
        let segs = segments(source, code, log, mark.span, log.len() as int);
        if segs.len() == 0 {
            None
        } else {
            Some(segment_mapping(segs, capabilities(mark.kind)))
        }
    }
}

/// The mappings of the first `n` marks, in order.
pub open spec fn mark_mappings(
    source: Seq<u8>,
    code: Seq<u8>,
    raw: Seq<LogEntry>,
    log: Seq<LogEntry>,
    marks: Seq<NotaMappingMark>,
    n: int,
) -> Seq<MappingView>
    decreases n,
{
    if 0 < n <= marks.len() {
        let before = mark_mappings(source, code, raw, log, marks, n - 1);
        match mark_mapping(source, code, raw, log, marks[n - 1]) {
            Some(mapping) => before.push(mapping),
            None => before,
        }
    } else {
        Seq::empty()
    }
}

/// An ordered log is determined by what it holds.
pub proof fn ordered_log_unique(raw: Seq<LogEntry>, a: Seq<LogEntry>, b: Seq<LogEntry>)
    requires
        ordered_log(raw, a),
        ordered_log(raw, b),
    ensures
        a == b,
{
    same_elements_same_order(a, b);
}

/// Two logs in order with the same entries are the same log.
proof fn same_elements_same_order(a: Seq<LogEntry>, b: Seq<LogEntry>)
    requires
        in_order(a),
        in_order(b),
        forall|x: LogEntry| #[trigger] a.contains(x) <==> b.contains(x),
    ensures
        a == b,
    decreases a.len(),
{
    if a.len() == 0 {
        if b.len() > 0 {
            assert(b.contains(b[0]));
            assert(a.contains(b[0]));
        }
        assert(a =~= b);
    } else {
        assert(a.contains(a.last()));
        assert(b.contains(a.last()));
        let j = choose|j: int| 0 <= j < b.len() && b[j] == a.last();
        assert(b.contains(b.last()));
        assert(a.contains(b.last()));
        let i = choose|i: int| 0 <= i < a.len() && a[i] == b.last();
        if j < b.len() - 1 {
            assert(precedes(b[j], b[b.len() - 1]));
            if i < a.len() - 1 {
                assert(precedes(a[i], a[a.len() - 1]));
            }
        }
        let a1 = a.drop_last();
        let b1 = b.drop_last();
        assert(a.last() == b.last());
        assert forall|x: LogEntry| #[trigger] a1.contains(x) <==> b1.contains(x) by {
            if a1.contains(x) {
                let k = choose|k: int| 0 <= k < a1.len() && a1[k] == x;
                assert(a[k] == x);
                assert(precedes(a[k], a[a.len() - 1]));
                assert(a.contains(x));
                assert(b.contains(x));
                let l = choose|l: int| 0 <= l < b.len() && b[l] == x;
                assert(b1[l] == x);
            }
            if b1.contains(x) {
                let k = choose|k: int| 0 <= k < b1.len() && b1[k] == x;
                assert(b[k] == x);
                assert(precedes(b[k], b[b.len() - 1]));
                assert(b.contains(x));
                assert(a.contains(x));
                let l = choose|l: int| 0 <= l < a.len() && a[l] == x;
                assert(a1[l] == x);
            }
        }
        same_elements_same_order(a1, b1);
        assert(a =~= a1.push(a.last()));
        assert(b =~= b1.push(b.last()));
    }
}

/// Every segment of a mapping that is not an anchor stands verbatim in the generated code, inside
/// its mark: what the source holds there, the generated code holds at the segment's generated
/// offset, byte for byte.
pub proof fn mapped_segments_are_exact(
    source: Seq<u8>,
    code: Seq<u8>,
    raw: Seq<LogEntry>,
    log: Seq<LogEntry>,
    mark: NotaMappingMark,
    i: int,
)
    requires
        mark.kind != NotaMappingKind::PropsAnchor,
        mark_mapping(source, code, raw, log, mark) is Some,
        0 <= i < mark_mapping(source, code, raw, log, mark)->0.lengths.len(),
    ensures
        ({
            let m = mark_mapping(source, code, raw, log, mark)->0;
            let from = m.source_offsets[i] as int;
            let to = m.generated_offsets[i] as int;
            let len = m.lengths[i] as int;
            &&& m.source_offsets.len() == m.lengths.len()
            &&& m.generated_offsets.len() == m.lengths.len()
            &&& mark.span.start <= from
            &&& from + len <= mark.span.end
            &&& from + len <= source.len()
            &&& to + len <= code.len()
            &&& source.subrange(from, from + len) == code.subrange(to, to + len)
        }),
{
    segments_are_chosen(source, code, log, mark.span, log.len() as int, i);
}

/// Every segment is an entry that belongs to its mark.
proof fn segments_are_chosen(
    source: Seq<u8>,
    code: Seq<u8>,
    log: Seq<LogEntry>,
    span: Span,
    n: int,
    i: int,
)
    requires
        0 <= n <= log.len(),
        0 <= i < segments(source, code, log, span, n).len(),
    ensures
        exists|k: int|
            0 <= k < n && segments(source, code, log, span, n)[i] == log[k] && #[trigger] chosen(
                source,
                code,
                log,
                span,
                k,
            ),
    decreases n,
{
    let before = segments(source, code, log, span, n - 1);
    if i < before.len() {
        segments_are_chosen(source, code, log, span, n - 1, i);
    } else {
        assert(chosen(source, code, log, span, n - 1));
    }
}

/// Does entry `a` come before entry `b`?
fn comes_before(a: LogEntry, b: LogEntry) -> (yes: bool)
    ensures
        yes == precedes(a, b),
{
    a.0 < b.0 || (a.0 == b.0 && (a.1 > b.1 || (a.1 == b.1 && a.2 < b.2)))
}

/// Add an entry to a log, in its place, unless it is there already.
fn insert_entry(log: &mut Vec<LogEntry>, x: LogEntry)
    requires
        in_order(old(log)@),
    ensures
        in_order(final(log)@),
        forall|y: LogEntry| #[trigger] final(log)@.contains(y) <==> old(log)@.contains(y) || y == x,
{
    let ghost before = log@;
    let mut i: usize = log.len();
    while i > 0 && comes_before(x, log[i - 1])
        invariant
            i <= log@.len(),
            log@ == before,
            forall|k: int| i <= k < log@.len() ==> precedes(x, #[trigger] log@[k]),
        decreases i,
    {
        i = i - 1;
    }
    if i > 0 && log[i - 1].0 == x.0 && log[i - 1].1 == x.1 && log[i - 1].2 == x.2 {
        assert(before[i - 1] == x);
        assert(before.contains(x));
        return ;
    }
    proof {
        if i > 0 {
            assert(precedes(before[i - 1], x));
            assert forall|k: int| 0 <= k < i implies precedes(#[trigger] before[k], x) by {
                if k < i - 1 {
                    assert(precedes(before[k], before[i - 1]));
                }
            }
        }
    }
    log.insert(i, x);
    proof {
        let after = log@;
        assert(after == before.insert(i as int, x));
        assert forall|a: int, b: int| 0 <= a < b < after.len() implies precedes(
            #[trigger] after[a],
            #[trigger] after[b],
        ) by {
            let oa = if a < i {
                a
            } else {
                a - 1
            };
            let ob = if b < i {
                b
            } else {
                b - 1
            };
            if a == i {
                assert(after[b] == before[ob]);
            } else if b == i {
                assert(after[a] == before[oa]);
            } else {
                assert(after[a] == before[oa]);
                assert(after[b] == before[ob]);
            }
        }
        assert forall|y: LogEntry| #[trigger] after.contains(y) <==> before.contains(y) || y == x by {
            if after.contains(y) {
                let k = choose|k: int| 0 <= k < after.len() && after[k] == y;
                if k != i {
                    assert(before[if k < i {
                        k
                    } else {
                        k - 1
                    }] == y);
                }
            }
            if before.contains(y) {
                let k = choose|k: int| 0 <= k < before.len() && before[k] == y;
                assert(after[if k < i {
                    k
                } else {
                    k + 1
                }] == y);
            }
            if y == x {
                assert(after[i as int] == x);
            }
        }
    }
}

/// The log in order, without empty ranges and without an entry twice.
fn sort_log(raw: &[LogEntry]) -> (log: Vec<LogEntry>)
    ensures
        ordered_log(raw@, log@),
{
    let mut log: Vec<LogEntry> = Vec::new();
    let mut i: usize = 0;
    while i < raw.len()
        invariant
            i <= raw@.len(),
            in_order(log@),
            forall|x: LogEntry| #[trigger]
                log@.contains(x) <==> (exists|k: int| 0 <= k < i && #[trigger] raw@[k] == x) && x.0
                    < x.1,
        decreases raw@.len() - i,
    {
        let x = raw[i];
        let ghost before = log@;
        if x.0 < x.1 {
            insert_entry(&mut log, x);
        }
        proof {
            assert forall|y: LogEntry| #[trigger] log@.contains(y) <==> (exists|k: int|
                0 <= k < i + 1 && #[trigger] raw@[k] == y) && y.0 < y.1 by {
                if log@.contains(y) {
                    if before.contains(y) {
                        let k = choose|k: int| 0 <= k < i && #[trigger] raw@[k] == y;
                        assert(raw@[k] == y);
                    } else {
                        assert(raw@[i as int] == y);
                    }
                }
                if (exists|k: int| 0 <= k < i + 1 && #[trigger] raw@[k] == y) && y.0 < y.1 {
                    let k = choose|k: int| 0 <= k < i + 1 && #[trigger] raw@[k] == y;
                    if k < i {
                        assert(before.contains(y));
                    }
                }
            }
        }
        i = i + 1;
    }
    proof {
        assert forall|x: LogEntry| #[trigger] log@.contains(x) <==> raw@.contains(x) && x.0 < x.1 by {
            if raw@.contains(x) {
                let k = choose|k: int| 0 <= k < raw@.len() && raw@[k] == x;
                assert(raw@[k] == x);
            }
        }
    }
    log
}

/// Is entry `k` a leaf?
fn entry_is_leaf(log: &Vec<LogEntry>, k: usize) -> (yes: bool)
    requires
        k < log@.len(),
    ensures
        yes == is_leaf(log@, k as int),
{
    let n: usize = log.len();
    let mut j: usize = k + 1;
    while j < n
        invariant
            n == log@.len(),
            k < j <= n,
            next_other(log@, k as int, j as int) == next_other(log@, k as int, k + 1),
        decreases log@.len() - j,
    {
        if log[j].0 != log[k].0 || log[j].1 != log[k].1 {
            return log[j].0 >= log[k].1;
        }
        j = j + 1;
    }
    true
}

/// Is the text of an entry the same in the source and in the generated code?
fn is_byte_exact(source: &[u8], code: &[u8], x: LogEntry) -> (yes: bool)
    requires
        source@.len() <= u32::MAX,
        code@.len() <= u32::MAX,
        x.0 <= x.1,
    ensures
        yes == byte_exact(source@, code@, x),
{
    let from: usize = x.0 as usize;
    let to: usize = x.2 as usize;
    let len: usize = (x.1 - x.0) as usize;
    let source_len: usize = source.len();
    let code_len: usize = code.len();
    if x.1 as usize > source_len || to > code_len || len > code_len - to {
        return false;
    }
    let ghost a = source@.subrange(from as int, from + len);
    let ghost b = code@.subrange(to as int, to + len);
    let mut i: usize = 0;
    while i < len
        invariant
            i <= len,
            x.0 <= x.1,
            from == x.0,
            to == x.2,
            len == x.1 - x.0,
            source_len == source@.len(),
            code_len == code@.len(),
            from + len <= source_len,
            to + len <= code_len,
            a == source@.subrange(from as int, from + len),
            b == code@.subrange(to as int, to + len),
            forall|k: int| 0 <= k < i ==> #[trigger] a[k] == b[k],
        decreases len - i,
    {
        if source[from + i] != code[to + i] {
            assert(a[i as int] != b[i as int]);
            return false;
        }
        i = i + 1;
    }
    assert(a =~= b);
    true
}

/// The mapping of the entries that belong to a mark.
fn map_segments(source: &[u8], code: &[u8], log: &Vec<LogEntry>, mark: NotaMappingMark) -> (mapping:
    Option<CodeMapping>)
    requires
        source@.len() <= u32::MAX,
        code@.len() <= u32::MAX,
        forall|k: int| 0 <= k < log@.len() ==> (#[trigger] log@[k]).0 < log@[k].1,
    ensures
        ({
            let segs = segments(source@, code@, log@, mark.span, log@.len() as int);
            match mapping {
                Some(m) => segs.len() > 0 && m.model() == segment_mapping(
                    segs,
                    capabilities(mark.kind),
                ),
                None => segs.len() == 0,
            }
        }),
{
    let mut source_offsets: Vec<u32> = Vec::new();
    let mut generated_offsets: Vec<u32> = Vec::new();
    let mut lengths: Vec<u32> = Vec::new();
    let mut k: usize = 0;
    let data = MappingCapabilities::from_kind(mark.kind);
    let ghost span = mark.span;
    while k < log.len()
        invariant
            k <= log@.len(),
            span == mark.span,
            source@.len() <= u32::MAX,
            code@.len() <= u32::MAX,
            forall|j: int| 0 <= j < log@.len() ==> (#[trigger] log@[j]).0 < log@[j].1,
            source_offsets@ == segment_mapping(
                segments(source@, code@, log@, span, k as int),
                data,
            ).source_offsets,
            generated_offsets@ == segment_mapping(
                segments(source@, code@, log@, span, k as int),
                data,
            ).generated_offsets,
            lengths@ == segment_mapping(
                segments(source@, code@, log@, span, k as int),
                data,
            ).lengths,
        decreases log@.len() - k,
    {
        let x = log[k];
        let ghost before = segments(source@, code@, log@, span, k as int);
        if mark.span.start <= x.0 && x.0 < mark.span.end && x.1 <= mark.span.end && entry_is_leaf(
            log,
            k,
        ) && is_byte_exact(source, code, x) {
            source_offsets.push(x.0);
            generated_offsets.push(x.2);
            lengths.push(x.1 - x.0);
            proof {
                let after = segments(source@, code@, log@, span, k + 1);
                assert(after == before.push(x));
                assert(source_offsets@ =~= segment_mapping(after, data).source_offsets);
                assert(generated_offsets@ =~= segment_mapping(after, data).generated_offsets);
                assert(lengths@ =~= segment_mapping(after, data).lengths);
            }
        }
        k = k + 1;
    }
    if source_offsets.len() == 0 {
        return None;
    }
    Some(
        CodeMapping { source_offsets, generated_offsets, lengths, generated_lengths: None, data },
    )
}

/// The zero-width mapping of an anchor.
fn map_anchor(code: &[u8], raw: &[LogEntry], mark: NotaMappingMark) -> (mapping: Option<CodeMapping>)
    requires
        code@.len() + 2 <= u32::MAX,
    ensures
        match (mapping, logged_at(raw@, mark.span, 0)) {
            (Some(m), Some(entry)) => m.model() == (MappingView {
                source_offsets: seq![mark.span.end],
                generated_offsets: seq![anchor_at(code@, entry.2 as int) as u32],
                lengths: seq![0u32],
                generated_lengths: Some(seq![0u32]),
                data: capabilities(NotaMappingKind::PropsAnchor),
            }),
            (None, None) => true,
            _ => false,
        },
{
    let mut i: usize = 0;
    while i < raw.len()
        invariant
            i <= raw@.len(),
            code@.len() + 2 <= u32::MAX,
            logged_at(raw@, mark.span, i as int) == logged_at(raw@, mark.span, 0),
        decreases raw@.len() - i,
    {
        if raw[i].0 == mark.span.start && raw[i].1 == mark.span.end {
            let open: u64 = raw[i].2 as u64;
            let mut p: u64 = open + 1;
            while p < code.len() as u64 && (ascii_alnum(code[p as usize]) || code[p as usize]
                == HYPHEN || code[p as usize] == UNDERSCORE || code[p as usize] == DOLLAR)
                invariant
                    open <= u32::MAX,
                    open < p,
                    p == open + 1 || p <= code@.len(),
                    code@.len() + 2 <= u32::MAX,
                    tag_name_end(code@, p as int) == tag_name_end(code@, open + 1),
                decreases code@.len() - p,
            {
                p = p + 1;
            }
            if p < code.len() as u64 && code[p as usize] == SPACE {
                p = p + 1;
            }
            let mut source_offsets: Vec<u32> = Vec::new();
            source_offsets.push(mark.span.end);
            let mut generated_offsets: Vec<u32> = Vec::new();
            generated_offsets.push(#[verifier::truncate] (p as u32));
            let mut lengths: Vec<u32> = Vec::new();
            lengths.push(0);
            let mut generated: Vec<u32> = Vec::new();
            generated.push(0);
            assert(source_offsets@ =~= seq![mark.span.end]);
            assert(generated_offsets@ =~= seq![p as u32]);
            assert(lengths@ =~= seq![0u32]);
            assert(generated@ =~= seq![0u32]);
            return Some(
                CodeMapping {
                    source_offsets,
                    generated_offsets,
                    lengths,
                    generated_lengths: Some(generated),
                    data: MappingCapabilities::props_anchor(),
                },
            );
        }
        i = i + 1;
    }
    None
}

/// Every mapping is that of a mark.
proof fn mappings_are_marked(
    source: Seq<u8>,
    code: Seq<u8>,
    raw: Seq<LogEntry>,
    log: Seq<LogEntry>,
    marks: Seq<NotaMappingMark>,
    n: int,
    i: int,
) -> (j: int)
    requires
        0 <= n <= marks.len(),
        0 <= i < mark_mappings(source, code, raw, log, marks, n).len(),
    ensures
        0 <= j < n,
        mark_mapping(source, code, raw, log, marks[j]) == Some(
            mark_mappings(source, code, raw, log, marks, n)[i],
        ),
    decreases n,
{
    if n > 0 {
        let before = mark_mappings(source, code, raw, log, marks, n - 1);
        if i < before.len() {
            mappings_are_marked(source, code, raw, log, marks, n - 1, i)
        } else {
            n - 1
        }
    } else {
        0
    }
}

/// Every segment of every mapping is empty, or the same text in the source and in the generated
/// code.
pub proof fn mappings_are_exact(
    source: Seq<u8>,
    code: Seq<u8>,
    raw: Seq<LogEntry>,
    log: Seq<LogEntry>,
    marks: Seq<NotaMappingMark>,
    i: int,
    k: int,
)
    requires
        0 <= i < mark_mappings(source, code, raw, log, marks, marks.len() as int).len(),
        0 <= k < mark_mappings(source, code, raw, log, marks, marks.len() as int)[i].lengths.len(),
    ensures
        ({
            let m = mark_mappings(source, code, raw, log, marks, marks.len() as int)[i];
            let from = m.source_offsets[k] as int;
            let to = m.generated_offsets[k] as int;
            let len = m.lengths[k] as int;
            &&& m.source_offsets.len() == m.lengths.len()
            &&& m.generated_offsets.len() == m.lengths.len()
            &&& len == 0 || (from + len <= source.len() && to + len <= code.len()
                && source.subrange(from, from + len) == code.subrange(to, to + len))
        }),
{
    let j = mappings_are_marked(source, code, raw, log, marks, marks.len() as int, i);
    if marks[j].kind != NotaMappingKind::PropsAnchor {
        mapped_segments_are_exact(source, code, raw, log, marks[j], k);
    }
}

/// A mark that is no anchor maps text, and only text: each of its segments has a length.
pub proof fn plain_marks_map_text(
    source: Seq<u8>,
    code: Seq<u8>,
    raw: Seq<LogEntry>,
    log: Seq<LogEntry>,
    marks: Seq<NotaMappingMark>,
    i: int,
    k: int,
)
    requires
        ordered_log(raw, log),
        forall|j: int|
            0 <= j < marks.len() ==> (#[trigger] marks[j]).kind != NotaMappingKind::PropsAnchor,
        0 <= i < mark_mappings(source, code, raw, log, marks, marks.len() as int).len(),
        0 <= k < mark_mappings(source, code, raw, log, marks, marks.len() as int)[i].lengths.len(),
    ensures
        mark_mappings(source, code, raw, log, marks, marks.len() as int)[i].lengths[k] > 0,
{
    let j = mappings_are_marked(source, code, raw, log, marks, marks.len() as int, i);
    let span = marks[j].span;
    segments_are_chosen(source, code, log, span, log.len() as int, k);
    let n = choose|n: int|
        0 <= n < log.len() && segments(source, code, log, span, log.len() as int)[k] == log[n]
            && #[trigger] chosen(source, code, log, span, n);
    assert(log.contains(log[n]));
}

/// An entry with nothing else inside it is a leaf.
proof fn lone_entries_are_leaves(log: Seq<LogEntry>, k: int, j: int)
    requires
        0 <= k < j,
        forall|i: int|
            k < i < log.len() && ((#[trigger] log[i]).0 != log[k].0 || log[i].1 != log[k].1)
                ==> log[i].0 >= log[k].1,
    ensures
        next_other(log, k, j) matches Some(other) ==> other.0 >= log[k].1,
    decreases log.len() - j,
{
    if j < log.len() && !(log[j].0 != log[k].0 || log[j].1 != log[k].1) {
        lone_entries_are_leaves(log, k, j + 1);
    }
}

/// Every entry that belongs to a mark is one of its segments.
proof fn chosen_entries_are_segments(
    source: Seq<u8>,
    code: Seq<u8>,
    log: Seq<LogEntry>,
    span: Span,
    n: int,
    k: int,
)
    requires
        0 <= k < n <= log.len(),
        chosen(source, code, log, span, k),
    ensures
        segments(source, code, log, span, n).contains(log[k]),
    decreases n,
{
    let before = segments(source, code, log, span, n - 1);
    let all = segments(source, code, log, span, n);
    if k == n - 1 {
        assert(all[before.len() as int] == log[k]);
    } else {
        chosen_entries_are_segments(source, code, log, span, n - 1, k);
        let i = choose|i: int| 0 <= i < before.len() && before[i] == log[k];
        assert(all[i] == log[k]);
    }
}

/// Every mark that has a mapping has it among the mappings.
proof fn marks_keep_their_mappings(
    source: Seq<u8>,
    code: Seq<u8>,
    raw: Seq<LogEntry>,
    log: Seq<LogEntry>,
    marks: Seq<NotaMappingMark>,
    n: int,
    j: int,
)
    requires
        0 <= j < n <= marks.len(),
        mark_mapping(source, code, raw, log, marks[j]) is Some,
    ensures
        mark_mappings(source, code, raw, log, marks, n).contains(
            mark_mapping(source, code, raw, log, marks[j])->0,
        ),
    decreases n,
{
    let m = mark_mapping(source, code, raw, log, marks[j])->0;
    let before = mark_mappings(source, code, raw, log, marks, n - 1);
    let all = mark_mappings(source, code, raw, log, marks, n);
    if j == n - 1 {
        assert(all[before.len() as int] == m);
    } else {
        marks_keep_their_mappings(source, code, raw, log, marks, n - 1, j);
        let i = choose|i: int| 0 <= i < before.len() && before[i] == m;
        assert(all[i] == m);
    }
}

/// Is the `n`-th segment of the `i`-th mapping that of an entry, with every capability or with those
/// that the name of a component has?
pub open spec fn maps_segment(
    all: Seq<MappingView>,
    i: int,
    n: int,
    x: LogEntry,
    kind: NotaMappingKind,
) -> bool {
    let full = kind == NotaMappingKind::EmbeddedJs;
    &&& 0 <= i < all.len()
    &&& 0 <= n < all[i].lengths.len()
    &&& all[i].source_offsets[n] == x.0
    &&& all[i].generated_offsets[n] == x.2
    &&& all[i].lengths[n] == x.1 - x.0
    &&& all[i].data == MappingCapabilities {
        completion: full,
        format: full,
        navigation: true,
        semantic: true,
        structure: full,
        verification: true,
    }
}

/// Marked text that was copied into the module is mapped: from where it stands in the source to
/// where it went, over its whole length. Embedded JavaScript gets every capability, and the name of
/// a component navigation, hover and diagnostics, but neither completion nor formatting.
pub proof fn copied_text_is_mapped(
    source: Seq<u8>,
    code: Seq<u8>,
    raw: Seq<LogEntry>,
    log: Seq<LogEntry>,
    marks: Seq<NotaMappingMark>,
    j: int,
    k: int,
)
    requires
        0 <= j < marks.len(),
        marks[j].kind != NotaMappingKind::PropsAnchor,
        0 <= k < log.len(),
        marks[j].span.start <= log[k].0 < log[k].1 <= marks[j].span.end,
        byte_exact(source, code, log[k]),
        forall|i: int|
            k < i < log.len() && ((#[trigger] log[i]).0 != log[k].0 || log[i].1 != log[k].1)
                ==> log[i].0 >= log[k].1,
    ensures
        exists|i: int, n: int| #[trigger]
            maps_segment(
                mark_mappings(source, code, raw, log, marks, marks.len() as int),
                i,
                n,
                log[k],
                marks[j].kind,
            ),
{
    let n = log.len() as int;
    let span = marks[j].span;
    lone_entries_are_leaves(log, k, k + 1);
    assert(chosen(source, code, log, span, k));
    chosen_entries_are_segments(source, code, log, span, n, k);
    let segs = segments(source, code, log, span, n);
    let x = choose|x: int| 0 <= x < segs.len() && segs[x] == log[k];
    let m = segment_mapping(segs, capabilities(marks[j].kind));
    assert(mark_mapping(source, code, raw, log, marks[j]) == Some(m));
    marks_keep_their_mappings(source, code, raw, log, marks, marks.len() as int, j);
    let all = mark_mappings(source, code, raw, log, marks, marks.len() as int);
    let i = choose|i: int| 0 <= i < all.len() && all[i] == m;
    assert(maps_segment(all, i, x, log[k], marks[j].kind));
}

/// Join the marks with the printer's log. For each mark: one segment for every leaf of the log
/// inside it whose source text and generated text are the same; an anchor instead maps to the point
/// just inside the generated opening tag. A mark without a segment has no mapping.
pub fn build_code_mappings(
    source: &str,
    code: &[u8],
    marks: &[NotaMappingMark],
    offset_log: &[LogEntry],
) -> (mappings: Vec<CodeMapping>)
    requires
        addressable(utf8(source)),
        addressable(code@),
    ensures
        exists|log: Seq<LogEntry>| #[trigger]
            ordered_log(offset_log@, log) && models(mappings@) == mark_mappings(
                utf8(source),
                code@,
                offset_log@,
                log,
                marks@,
                marks@.len() as int,
            ),
{
    let s = source.as_bytes();
    let log = sort_log(offset_log);
    proof {
        assert forall|k: int| 0 <= k < log@.len() implies (#[trigger] log@[k]).0 < log@[k].1 by {
            assert(log@.contains(log@[k]));
        }
    }
    let mut out: Vec<CodeMapping> = Vec::new();
    let mut i: usize = 0;
    assert(models(out@) =~= Seq::<MappingView>::empty());
    while i < marks.len()
        invariant
            i <= marks@.len(),
            s@ == utf8(source),
            s@.len() <= u32::MAX,
            code@.len() + 2 <= u32::MAX,
            forall|k: int| 0 <= k < log@.len() ==> (#[trigger] log@[k]).0 < log@[k].1,
            models(out@) == mark_mappings(s@, code@, offset_log@, log@, marks@, i as int),
        decreases marks@.len() - i,
    {
        let mark = marks[i];
        let ghost before = models(out@);
        let mapping = if mark.kind == NotaMappingKind::PropsAnchor {
            map_anchor(code, offset_log, mark)
        } else {
            map_segments(s, code, &log, mark)
        };
        if let Some(m) = mapping {
            let ghost model = m.model();
            out.push(m);
            assert(models(out@) =~= before.push(model));
        }
        i = i + 1;
    }
    out
}

} // verus!
