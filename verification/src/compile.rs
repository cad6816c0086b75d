//! From a source to a module: read, lower, and report.
//!
//! [`compile`] is strict: a faulty source, or a binding that the emitted module cannot have, is
//! refused. [`analyze`] is for editors: it goes on with what could be read, and reports what is
//! wrong beside the module, its mappings and its highlighting. Both stop where the table of facts
//! about the embedded JavaScript lacks an answer, and say which question it is; and both hand the
//! lowered module to the host, whose JavaScript tools strip its types and resolve its references,
//! before they give their result.

use vstd::prelude::*;
use vstd::string::StringExecFns;
use vstd::utf8::{encode_utf8, valid_utf8};
use crate::bytes::{addressable, utf8, Span};
use crate::grammar::{document, first_lines, Fault, FaultKind, Input, Stop};
use crate::highlight::{fits, NotaHighlightSpan};
use crate::js::{answer, JsFact, JsQuery};
use crate::lexemes::{flatten, highlighted, in_paint_order, triples};
use crate::lower::{document_collisions, lowered_document, NotaLowering, NotaLoweringReturn};
use crate::mapping::{
    build_code_mappings, mappings_are_exact, mark_mappings, models, ordered_log,
    plain_marks_map_text, CodeMapping, LogEntry, MappingView,
};
use crate::marks::{
    are_free_names, document_marks, forest_langs, free_names, texts, whole_documents_have_no_anchor,
    NameUse,
};
use crate::names::{
    collisions_are_exact, reserved_names, spelled, spells_reserved, surface_names, Collision,
    CollisionKind, Surface,
};
use crate::output::{same_bytes, slice, slice_of};
use crate::prologue::{
    answers_let, first_binding_collides, is_let_document, let_document_collides_iff,
    let_document_reads, opens_by_binding,
};
use crate::reader::Scope;
use crate::statements::{is_statement_line, opens_statement};
use crate::tree::{keeps_first, trees, whole, Node};
use crate::unicode::{all_valid, spellings, string_of, strings_of, utf8_valid};

verus! {

/// Something wrong with a source.
#[derive(Debug)]
pub struct NotaDiagnostic {
    /// What.
    pub message: String,
    /// Where it starts.
    pub start: u32,
    /// How far it reaches.
    pub len: u32,
}

/// The mathematical view of a [`NotaDiagnostic`].
pub struct DiagnosticView {
    /// What is wrong.
    pub message: Seq<char>,
    /// Where it starts.
    pub start: u32,
    /// How far it reaches.
    pub len: u32,
}

impl NotaDiagnostic {
    /// The view.
    pub open spec fn model(self) -> DiagnosticView {
        DiagnosticView { message: self.message@, start: self.start, len: self.len }
    }
}

/// The views.
pub open spec fn diagnostics(found: Seq<NotaDiagnostic>) -> Seq<DiagnosticView> {
    found.map_values(|d: NotaDiagnostic| d.model())
}

/// How a source is compiled.
#[derive(Clone, Copy, Debug, PartialEq, Eq, Structural)]
pub enum CompileMode {
    /// For a build: what is wrong is refused.
    Build,
    /// For an editor: what is wrong is reported.
    Analyze,
}

/// What the host's JavaScript tools make of a lowered module: its types stripped, and its
/// references resolved.
pub struct Finished {
    /// The module.
    pub module: String,
    /// The module without its types.
    pub code: String,
    /// The references that nothing in the module binds.
    pub uses: Vec<NameUse>,
    /// What is wrong with the types.
    pub errors: Vec<NotaDiagnostic>,
}

/// What the host's JavaScript parser and tools have said so far.
#[derive(Clone, Copy)]
pub struct Known<'a> {
    /// The answers of the parser.
    pub facts: &'a [JsFact],
    /// Why embedded code is not JavaScript, where an answer says that it is not.
    pub reasons: &'a [NotaDiagnostic],
    /// What the parser complains of in embedded code that it could go on with.
    pub complaints: &'a [NotaDiagnostic],
    /// What the tools have made of the lowered module, once it was handed to them.
    pub finished: Option<&'a Finished>,
}

impl<'a> Known<'a> {
    /// What the reader is given.
    pub open spec fn input(self, source: &str) -> Input {
        Input { s: utf8(source), facts: self.facts@ }
    }

    /// Have the tools finished the module `code`?
    pub open spec fn has_finished(self, code: Seq<u8>) -> bool {
        self.finished matches Some(f) && encode_utf8(f.module@) == code
    }
}

/// What compiling gives.
pub struct NotaOutput {
    /// The module: for a build, without its types.
    pub code: String,
    /// The names that the module refers to as values and does not bind, in order and without
    /// repetition.
    pub free_names: Vec<String>,
    /// The languages of the fenced code blocks, in order and without repetition.
    pub fence_langs: Vec<String>,
    /// What of the source went where in the module. Only an editor gets them.
    pub mappings: Vec<CodeMapping>,
    /// What is wrong. Only an editor gets it this way.
    pub errors: Vec<NotaDiagnostic>,
    /// The highlighting: start, end and kind, three numbers for each span. Only an editor gets it.
    pub highlights: Vec<u32>,
}

/// How compiling ends.
pub enum Compiled {
    /// With a module.
    Done {
        /// The module.
        output: NotaOutput,
    },
    /// Without one, since the source is wrong.
    Refused {
        /// What is wrong.
        errors: Vec<NotaDiagnostic>,
    },
    /// At a question about the embedded JavaScript.
    Asks {
        /// The question.
        query: JsQuery,
    },
    /// At a module that the host's JavaScript tools are to finish.
    Finishes {
        /// The module.
        module: String,
    },
}

/// How highlighting ends.
pub enum Highlighted {
    /// With the spans, outer first.
    Done {
        /// The spans.
        spans: Vec<NotaHighlightSpan>,
    },
    /// Without any, since the source is wrong.
    Refused {
        /// What is wrong.
        errors: Vec<NotaDiagnostic>,
    },
    /// At a question about the embedded JavaScript.
    Asks {
        /// The question.
        query: JsQuery,
    },
}

/// How compiling ends, before its contents.
pub enum Verdict {
    /// With a module.
    Done,
    /// At a fault in the source.
    Faulty {
        /// The fault.
        fault: Fault,
    },
    /// At what the JavaScript parser complains of.
    Complains,
    /// At bindings that the emitted module cannot have.
    Collides,
    /// At a module that is to be finished.
    Finishes,
    /// At types that are wrong.
    Mistyped,
    /// At a question.
    Asks {
        /// The question.
        query: JsQuery,
    },
}

/// What a fault is called.
pub open spec fn fault_text(kind: FaultKind) -> Seq<char> {
    match kind {
        FaultKind::UnexpectedHead => "Unexpected token: `@` needs a name, `(` or `{` after it"@,
        FaultKind::ExpectedBrace => "Expected `}` to close this body"@,
        FaultKind::ExpectedBracket => "Expected `]` to close this property group"@,
        FaultKind::ExpectedParen => "Expected `(` or `)`"@,
        FaultKind::ExpectedColon => "Expected `:` after a quoted property name"@,
        FaultKind::ControlExpectsBody => "Expected a `{ … }` body"@,
        FaultKind::ForExpectsOf => "Expected `of` in the head of `@for`"@,
        FaultKind::UnterminatedVerbatim => "Unterminated verbatim body: expected `}|`"@,
        FaultKind::UnterminatedComment => "Unterminated comment: expected `*/`"@,
        FaultKind::ArmedFormOverruns => "A `|@` form runs past the raw span that it stands in"@,
        FaultKind::InvalidJs { reason: _ } => "The embedded code is not valid JavaScript"@,
    }
}

/// What may be why a fault is there.
pub open spec fn note_text() -> Seq<char> {
    "a blank line ends a `%` statement — remove the blank line, or move the code into a `%%% … %%%` fence"@
}

/// The length of a span.
pub open spec fn span_len(span: Span) -> u32 {
    if span.start <= span.end {
        (span.end - span.start) as u32
    } else {
        0
    }
}

/// A fault, reported.
pub open spec fn fault_diagnostic(fault: Fault, reasons: Seq<NotaDiagnostic>) -> DiagnosticView {
    match fault.kind {
        FaultKind::InvalidJs { reason } if reason < reasons.len() => reasons[reason as int].model(),
        _ => DiagnosticView {
            message: fault_text(fault.kind),
            start: fault.span.start,
            len: span_len(fault.span),
        },
    }
}

/// What a second default export is called.
pub open spec fn duplicate_text() -> Seq<char> {
    "a Nota document already emits `export default function Doc(…)`, so this `% export default` would be a second default export (a module may have only one). Remove it."@
}

/// What a reserved name is called, after the name.
pub open spec fn reserved_text(surface: Surface) -> Seq<char> {
    match surface {
        Surface::Jsx => "` collides with a name the Nota emit declares or references: `Doc` (the default-export document component), the structural components (`NotaDoc`/`Reforest`/…), and the ambient prelude the markup lowers to (`Tex`/`Heading`/…). A module binding of the same name shadows it and breaks the emit. Rename the binding."@,
        Surface::Hyperscript => "` collides with a name the Nota emit declares or references: `Doc` (the default-export document component) and the runtime functions the markup calls (`h`/`Fragment`/`decode`/…). A module binding of the same name shadows it and breaks the emit. Rename the binding."@,
    }
}

/// Is `name` what the bytes spell?
pub open spec fn names_bytes(name: &str, bytes: Seq<u8>) -> bool {
    utf8(name) == bytes
}

/// Does a diagnostic report a collision? It gives its place, and names the name.
pub open spec fn reports(s: Seq<u8>, surface: Surface, c: Collision, d: DiagnosticView) -> bool {
    d.start == c.span.start && d.len == span_len(c.span) && match c.kind {
        CollisionKind::DuplicateDefault => d.message == duplicate_text(),
        CollisionKind::ReservedName => exists|name: &str| #[trigger]
            names_bytes(name, slice(s, c.span)) && d.message == "`"@ + name@ + reserved_text(
                surface,
            ),
    }
}

/// Do diagnostics report collisions, one each, in order?
pub open spec fn reports_all(
    s: Seq<u8>,
    surface: Surface,
    found: Seq<Collision>,
    ds: Seq<DiagnosticView>,
) -> bool {
    ds.len() == found.len() && forall|i: int|
        0 <= i < found.len() ==> reports(s, surface, #[trigger] found[i], ds[i])
}

/// How compiling ends.
pub open spec fn verdict(
    source: &str,
    known: Known<'_>,
    surface: Surface,
    mode: CompileMode,
) -> Verdict {
    let d = known.input(source);
    let r = document(d);
    let finished = known.has_finished(lowered_document(surface, d.s, r.nodes).code);
    match r.stop {
        Some(Stop::Ask { query }) => Verdict::Asks { query },
        Some(Stop::Faulty { fault }) if mode == CompileMode::Build => Verdict::Faulty { fault },
        _ => match mode {
            CompileMode::Build => if known.complaints@.len() > 0 {
                Verdict::Complains
            } else if document_collisions(surface, d.s, r.nodes).len() > 0 {
                Verdict::Collides
            } else if !finished {
                Verdict::Finishes
            } else if known.finished->0.errors@.len() > 0 {
                Verdict::Mistyped
            } else {
                Verdict::Done
            },
            CompileMode::Analyze => match highlighted(d, r.nodes) {
                Err(query) => Verdict::Asks { query },
                Ok(_) => if finished {
                    Verdict::Done
                } else {
                    Verdict::Finishes
                },
            },
        },
    }
}

/// What an editor is told of before the collisions: the complaints, and the fault that stopped the
/// reading.
pub open spec fn reading_errors(stop: Option<Stop>, known: Known<'_>) -> Seq<DiagnosticView> {
    let complaints = diagnostics(known.complaints@);
    match stop {
        Some(Stop::Faulty { fault }) => complaints.push(fault_diagnostic(fault, known.reasons@)),
        _ => complaints,
    }
}

/// Are the mappings those of a module? A module too long for offsets has none.
pub open spec fn maps(d: Input, surface: Surface, mappings: Seq<MappingView>) -> bool {
    let nodes = document(d).nodes;
    let w = lowered_document(surface, d.s, nodes);
    let marks = document_marks(nodes);
    if addressable(w.code) {
        exists|log: Seq<LogEntry>| #[trigger]
            ordered_log(w.log + w.anchors, log) && mappings == mark_mappings(
                d.s,
                w.code,
                w.log + w.anchors,
                log,
                marks,
                marks.len() as int,
            )
    } else {
        mappings == Seq::<MappingView>::empty()
    }
}

/// Is `o` what compiling a source gives?
pub open spec fn is_output(
    source: &str,
    known: Known<'_>,
    surface: Surface,
    mode: CompileMode,
    o: NotaOutput,
) -> bool {
    let d = known.input(source);
    let r = document(d);
    let found = document_collisions(surface, d.s, r.nodes);
    let faults = reading_errors(r.stop, known);
    &&& spellings(o.fence_langs@) == forest_langs(d.s, Seq::empty(), r.nodes, 0)
    &&& known.finished matches Some(f) && are_free_names(f.uses@, spellings(o.free_names@))
    &&& match mode {
        CompileMode::Build => {
            &&& known.finished matches Some(f) && o.code@ == f.code@
            &&& models(o.mappings@) == Seq::<MappingView>::empty()
            &&& diagnostics(o.errors@) == Seq::<DiagnosticView>::empty()
            &&& o.highlights@ == Seq::<u32>::empty()
        },
        CompileMode::Analyze => {
            let ds = diagnostics(o.errors@);
            &&& encode_utf8(o.code@) == lowered_document(surface, d.s, r.nodes).code
            &&& maps(d, surface, models(o.mappings@))
            &&& ds.len() == faults.len() + found.len()
            &&& ds.take(faults.len() as int) == faults
            &&& reports_all(d.s, surface, found, ds.skip(faults.len() as int))
            &&& highlighted(d, r.nodes) matches Ok(spans) && o.highlights@ == triples(
                spans,
                spans.len() as int,
            )
        },
    }
}

/// Does a result carry out the verdict?
pub open spec fn carries_out(
    source: &str,
    known: Known<'_>,
    surface: Surface,
    mode: CompileMode,
    result: Compiled,
) -> bool {
    let d = known.input(source);
    match (verdict(source, known, surface, mode), result) {
        (Verdict::Asks { query }, Compiled::Asks { query: asked }) => asked == query,
        (Verdict::Faulty { fault }, Compiled::Refused { errors }) => diagnostics(errors@) == seq![
            fault_diagnostic(fault, known.reasons@),
        ],
        (Verdict::Complains, Compiled::Refused { errors }) => diagnostics(errors@) == diagnostics(
            known.complaints@,
        ),
        (Verdict::Mistyped, Compiled::Refused { errors }) => known.finished matches Some(f)
            && diagnostics(errors@) == diagnostics(f.errors@),
        (Verdict::Finishes, Compiled::Finishes { module }) => encode_utf8(module@)
            == lowered_document(surface, d.s, document(d).nodes).code,
        (Verdict::Collides, Compiled::Refused { errors }) => reports_all(
            d.s,
            surface,
            document_collisions(surface, d.s, document(d).nodes),
            diagnostics(errors@),
        ),
        (Verdict::Done, Compiled::Done { output }) => is_output(
            source,
            known,
            surface,
            mode,
            output,
        ),
        _ => false,
    }
}

/// Every segment that an analysis maps is empty, or the same text in the source and in the module.
pub proof fn analysis_maps_exactly(
    d: Input,
    surface: Surface,
    mappings: Seq<MappingView>,
    i: int,
    k: int,
)
    requires
        maps(d, surface, mappings),
        0 <= i < mappings.len(),
        0 <= k < mappings[i].lengths.len(),
    ensures
        ({
            let code = lowered_document(surface, d.s, document(d).nodes).code;
            let m = mappings[i];
            let from = m.source_offsets[k] as int;
            let to = m.generated_offsets[k] as int;
            let len = m.lengths[k] as int;
            &&& m.source_offsets.len() == m.lengths.len()
            &&& m.generated_offsets.len() == m.lengths.len()
            &&& len == 0 || (from + len <= d.s.len() && to + len <= code.len() && d.s.subrange(
                from,
                from + len,
            ) == code.subrange(to, to + len))
        }),
{
    let nodes = document(d).nodes;
    let w = lowered_document(surface, d.s, nodes);
    let marks = document_marks(nodes);
    let log = choose|log: Seq<LogEntry>| #[trigger]
        ordered_log(w.log + w.anchors, log) && mappings == mark_mappings(
            d.s,
            w.code,
            w.log + w.anchors,
            log,
            marks,
            marks.len() as int,
        );
    mappings_are_exact(d.s, w.code, w.log + w.anchors, log, marks, i, k);
}

/// Is `result` how a source is highlighted? A faulty one is refused with its fault, and one that the
/// JavaScript parser complains of with its complaints; a question of the reading or of the painting
/// is asked, and otherwise the spans are given.
pub open spec fn highlights(source: &str, known: Known<'_>, result: Highlighted) -> bool {
    let d = known.input(source);
    match document(d).stop {
        Some(Stop::Faulty { fault }) => result matches Highlighted::Refused { errors }
            && diagnostics(errors@) == seq![fault_diagnostic(fault, known.reasons@)],
        Some(Stop::Ask { query }) => result == (Highlighted::Asks { query }),
        None => if known.complaints@.len() > 0 {
            result matches Highlighted::Refused { errors } && diagnostics(errors@) == diagnostics(
                known.complaints@,
            )
        } else {
            match highlighted(d, document(d).nodes) {
                Ok(want) => result matches Highlighted::Done { spans } && spans@ == want,
                Err(query) => result == (Highlighted::Asks { query }),
            }
        },
    }
}

/// Is a source whose first line binds a reserved name not compiled? It is refused with an error, as
/// soon as all questions about it are answered.
pub open spec fn refuses_reserved(
    source: &str,
    known: Known<'_>,
    surface: Surface,
    result: Compiled,
) -> bool {
    let d = known.input(source);
    forall|name: Span| #[trigger]
        opens_by_binding(d, name) && surface_names(surface).contains(slice(d.s, name)) ==> {
            result is Asks || (result matches Compiled::Refused { errors } && errors@.len() > 0)
        }
}

/// Does every mapping map text? None then is the empty anchor of an unclosed property group.
pub open spec fn maps_text(mappings: Seq<MappingView>) -> bool {
    forall|i: int, k: int|
        0 <= i < mappings.len() && 0 <= k < mappings[i].lengths.len()
            ==> #[trigger] mappings[i].lengths[k] > 0
}

/// The mappings of a document without a trace of an unclosed property group map text.
proof fn whole_documents_map_text(d: Input, surface: Surface, mappings: Seq<MappingView>)
    requires
        maps(d, surface, mappings),
        whole(document(d).nodes),
    ensures
        maps_text(mappings),
{
    let nodes = document(d).nodes;
    let w = lowered_document(surface, d.s, nodes);
    let marks = document_marks(nodes);
    whole_documents_have_no_anchor(nodes);
    assert forall|i: int, k: int|
        0 <= i < mappings.len() && 0 <= k < mappings[i].lengths.len() implies #[trigger]
        mappings[i].lengths[k] > 0 by {
        let log = choose|log: Seq<LogEntry>| #[trigger]
            ordered_log(w.log + w.anchors, log) && mappings == mark_mappings(
                d.s,
                w.code,
                w.log + w.anchors,
                log,
                marks,
                marks.len() as int,
            );
        plain_marks_map_text(d.s, w.code, w.log + w.anchors, log, marks, i, k);
    }
}

/// A build gives a module exactly where an editor has nothing to report: where all questions are
/// answered and the tools have found nothing wrong, a source builds if and only if it reads without
/// a fault, the JavaScript parser does not complain, and nothing collides.
pub proof fn builds_iff_clean(source: &str, known: Known<'_>, surface: Surface)
    requires
        !(verdict(source, known, surface, CompileMode::Build) is Asks),
        !(verdict(source, known, surface, CompileMode::Analyze) is Asks),
        ({
            let d = known.input(source);
            known.has_finished(lowered_document(surface, d.s, document(d).nodes).code)
        }),
        known.finished->0.errors@.len() == 0,
    ensures
        ({
            let d = known.input(source);
            let found = document_collisions(surface, d.s, document(d).nodes);
            &&& verdict(source, known, surface, CompileMode::Analyze) is Done
            &&& verdict(source, known, surface, CompileMode::Build) is Done <==> reading_errors(
                document(d).stop,
                known,
            ).len() + found.len() == 0
        }),
{
}

/// A document of the two lines `%let name = 1` and `@p{x}` is refused with an error if the name is
/// reserved, and builds if it is not, where the JavaScript parser and the tools say of it what they
/// say of such a document.
pub proof fn let_documents_build_unless_reserved(
    source: &str,
    known: Known<'_>,
    surface: Surface,
    name: Seq<u8>,
    result: Compiled,
)
    requires
        addressable(utf8(source)),
        is_let_document(utf8(source), name),
        answers_let(known.input(source), name.len() as int),
        known.complaints@.len() == 0,
        ({
            let d = known.input(source);
            known.has_finished(lowered_document(surface, d.s, document(d).nodes).code)
        }),
        known.finished->0.errors@.len() == 0,
        carries_out(source, known, surface, CompileMode::Build, result),
    ensures
        surface_names(surface).contains(name) ==> (result matches Compiled::Refused { errors }
            && errors@.len() > 0),
        !surface_names(surface).contains(name) ==> result is Done,
{
    let d = known.input(source);
    utf8_valid(source);
    let_document_reads(d, name);
    let_document_collides_iff(d, name, surface_names(surface));
    if let Compiled::Refused { errors } = result {
        assert(diagnostics(errors@).len() == errors@.len());
    }
}

/// A build gives the module that an editor sees, without its types, and both report the same
/// languages and the same free names.
pub proof fn one_module(
    source: &str,
    known: Known<'_>,
    surface: Surface,
    built: NotaOutput,
    edited: NotaOutput,
)
    requires
        verdict(source, known, surface, CompileMode::Build) is Done,
        is_output(source, known, surface, CompileMode::Build, built),
        is_output(source, known, surface, CompileMode::Analyze, edited),
    ensures
        known.has_finished(encode_utf8(edited.code@)),
        built.code@ == known.finished->0.code@,
        spellings(built.fence_langs@) == spellings(edited.fence_langs@),
        forall|name: Seq<u8>| #[trigger]
            spellings(built.free_names@).contains(name) <==> spellings(
                edited.free_names@,
            ).contains(name),
{
}

/// What a fault is called.
pub fn fault_message(kind: FaultKind) -> (text: &'static str)
    ensures
        text@ == fault_text(kind),
{
    match kind {
        FaultKind::UnexpectedHead => "Unexpected token: `@` needs a name, `(` or `{` after it",
        FaultKind::ExpectedBrace => "Expected `}` to close this body",
        FaultKind::ExpectedBracket => "Expected `]` to close this property group",
        FaultKind::ExpectedParen => "Expected `(` or `)`",
        FaultKind::ExpectedColon => "Expected `:` after a quoted property name",
        FaultKind::ControlExpectsBody => "Expected a `{ … }` body",
        FaultKind::ForExpectsOf => "Expected `of` in the head of `@for`",
        FaultKind::UnterminatedVerbatim => "Unterminated verbatim body: expected `}|`",
        FaultKind::UnterminatedComment => "Unterminated comment: expected `*/`",
        FaultKind::ArmedFormOverruns => "A `|@` form runs past the raw span that it stands in",
        FaultKind::InvalidJs { reason: _ } => "The embedded code is not valid JavaScript",
    }
}

/// What may be why a fault is there: the blank line that its statement ends at.
pub fn fault_note(fault: Fault) -> (note: Option<&'static str>)
    ensures
        match note {
            Some(text) => fault.at_blank_line && text@ == note_text(),
            None => !fault.at_blank_line,
        },
{
    if fault.at_blank_line {
        Some(
            "a blank line ends a `%` statement — remove the blank line, or move the code into a `%%% … %%%` fence",
        )
    } else {
        None
    }
}

/// What is complained of beside a complaint about the code of a `%` statement that ends at `bound`:
/// that a blank line ends it, where one does.
pub fn statement_complaint(source: &str, bound: u32) -> (d: Option<NotaDiagnostic>)
    requires
        addressable(utf8(source)),
        bound <= utf8(source).len(),
    ensures
        match d {
            Some(d) => bound < utf8(source).len() && !opens_statement(utf8(source), bound as int)
                && d.model() == (DiagnosticView { message: note_text(), start: bound, len: 1 }),
            None => bound == utf8(source).len() || opens_statement(utf8(source), bound as int),
        },
{
    if (bound as usize) < source.len() && !is_statement_line(source, bound) {
        Some(
            NotaDiagnostic {
                message: "a blank line ends a `%` statement — remove the blank line, or move the code into a `%%% … %%%` fence".to_owned(),
                start: bound,
                len: 1,
            },
        )
    } else {
        None
    }
}

/// The length of a span.
fn len_of(span: Span) -> (len: u32)
    ensures
        len == span_len(span),
{
    if span.start <= span.end {
        span.end - span.start
    } else {
        0
    }
}

/// The same diagnostic.
fn copied(d: &NotaDiagnostic) -> (copy: NotaDiagnostic)
    ensures
        copy.model() == d.model(),
{
    NotaDiagnostic { message: d.message.as_str().to_owned(), start: d.start, len: d.len }
}

/// The same diagnostics.
fn copies(found: &[NotaDiagnostic]) -> (out: Vec<NotaDiagnostic>)
    ensures
        diagnostics(out@) == diagnostics(found@),
{
    let mut out: Vec<NotaDiagnostic> = Vec::new();
    let mut i: usize = 0;
    assert(diagnostics(out@) =~= diagnostics(found@).take(0));
    while i < found.len()
        invariant
            i <= found@.len(),
            diagnostics(out@) == diagnostics(found@).take(i as int),
        decreases found@.len() - i,
    {
        let ghost before = diagnostics(out@);
        out.push(copied(&found[i]));
        assert(diagnostics(out@) =~= before.push(diagnostics(found@)[i as int]));
        assert(diagnostics(out@) =~= diagnostics(found@).take(i + 1));
        i = i + 1;
    }
    assert(diagnostics(found@).take(i as int) =~= diagnostics(found@));
    out
}

/// Report a fault. Where the embedded code is no JavaScript, the parser's own reason says why.
pub fn report_fault(fault: Fault, reasons: &[NotaDiagnostic]) -> (d: NotaDiagnostic)
    ensures
        d.model() == fault_diagnostic(fault, reasons@),
{
    if let FaultKind::InvalidJs { reason } = fault.kind {
        if (reason as usize) < reasons.len() {
            return copied(&reasons[reason as usize]);
        }
    }
    NotaDiagnostic {
        message: fault_message(fault.kind).to_owned(),
        start: fault.span.start,
        len: len_of(fault.span),
    }
}

/// The reserved name that bytes spell.
fn listed_name(names: &Vec<&'static str>, bytes: &[u8]) -> (name: &'static str)
    requires
        spelled(names@).contains(bytes@),
    ensures
        names_bytes(name, bytes@),
{
    let mut i: usize = 0;
    while i < names.len()
        invariant
            i <= names@.len(),
            spelled(names@).contains(bytes@),
            forall|k: int| 0 <= k < i ==> #[trigger] spelled(names@)[k] != bytes@,
        decreases names@.len() - i,
    {
        if same_bytes(names[i].as_bytes(), bytes) {
            return names[i];
        }
        i = i + 1;
    }
    assert(false);
    ""
}

/// Report a collision.
pub fn report_collision(source: &str, surface: Surface, c: Collision) -> (d: NotaDiagnostic)
    requires
        c.kind == CollisionKind::ReservedName ==> surface_names(surface).contains(
            slice(utf8(source), c.span),
        ),
    ensures
        reports(utf8(source), surface, c, d.model()),
{
    let message = match c.kind {
        CollisionKind::DuplicateDefault => "a Nota document already emits `export default function Doc(…)`, so this `% export default` would be a second default export (a module may have only one). Remove it.".to_owned(),
        CollisionKind::ReservedName => {
            let name = listed_name(&reserved_names(surface), slice_of(source.as_bytes(), c.span));
            let mut text = "`".to_owned();
            text.append(name);
            text.append(
                match surface {
                    Surface::Jsx => "` collides with a name the Nota emit declares or references: `Doc` (the default-export document component), the structural components (`NotaDoc`/`Reforest`/…), and the ambient prelude the markup lowers to (`Tex`/`Heading`/…). A module binding of the same name shadows it and breaks the emit. Rename the binding.",
                    Surface::Hyperscript => "` collides with a name the Nota emit declares or references: `Doc` (the default-export document component) and the runtime functions the markup calls (`h`/`Fragment`/`decode`/…). A module binding of the same name shadows it and breaks the emit. Rename the binding.",
                },
            );
            assert(names_bytes(name, slice(utf8(source), c.span)));
            text
        },
    };
    NotaDiagnostic { message, start: c.span.start, len: len_of(c.span) }
}

/// Report collisions, after what is reported already.
fn report_collisions(
    source: &str,
    surface: Surface,
    found: &Vec<Collision>,
    out: &mut Vec<NotaDiagnostic>,
)
    requires
        forall|i: int|
            0 <= i < found@.len() ==> spells_reserved(
                utf8(source),
                surface_names(surface),
                #[trigger] found@[i],
            ),
    ensures
        final(out)@.len() == old(out)@.len() + found@.len(),
        diagnostics(final(out)@).take(old(out)@.len() as int) == diagnostics(old(out)@),
        reports_all(
            utf8(source),
            surface,
            found@,
            diagnostics(final(out)@).skip(old(out)@.len() as int),
        ),
{
    let ghost start = out@;
    let mut i: usize = 0;
    while i < found.len()
        invariant
            i <= found@.len(),
            forall|k: int|
                0 <= k < found@.len() ==> spells_reserved(
                    utf8(source),
                    surface_names(surface),
                    #[trigger] found@[k],
                ),
            out@.len() == start.len() + i,
            forall|k: int| 0 <= k < start.len() ==> #[trigger] out@[k] == start[k],
            forall|k: int|
                0 <= k < i ==> reports(
                    utf8(source),
                    surface,
                    #[trigger] found@[k],
                    out@[start.len() + k].model(),
                ),
        decreases found@.len() - i,
    {
        let c = found[i];
        assert(spells_reserved(utf8(source), surface_names(surface), found@[i as int]));
        let d = report_collision(source, surface, c);
        let ghost before = out@;
        out.push(d);
        proof {
            assert forall|k: int| 0 <= k < i + 1 implies reports(
                utf8(source),
                surface,
                #[trigger] found@[k],
                out@[start.len() + k].model(),
            ) by {
                if k < i {
                    assert(out@[start.len() + k] == before[start.len() + k]);
                }
            }
        }
        i = i + 1;
    }
    proof {
        let ds = diagnostics(out@);
        assert(ds.take(start.len() as int) =~= diagnostics(start));
        assert forall|k: int| 0 <= k < found@.len() implies reports(
            utf8(source),
            surface,
            #[trigger] found@[k],
            ds.skip(start.len() as int)[k],
        ) by {
            assert(ds.skip(start.len() as int)[k] == out@[start.len() + k].model());
        }
    }
}

/// Add entries to a log.
fn add_entries(log: &mut Vec<LogEntry>, more: &Vec<LogEntry>)
    ensures
        final(log)@ == old(log)@ + more@,
{
    let ghost start = log@;
    let mut i: usize = 0;
    assert(start + more@.take(0) =~= start);
    while i < more.len()
        invariant
            i <= more@.len(),
            log@ == start + more@.take(i as int),
        decreases more@.len() - i,
    {
        log.push(more[i]);
        assert(log@ =~= start + more@.take(i + 1));
        i = i + 1;
    }
    assert(more@.take(i as int) =~= more@);
}

/// The mappings of a lowered document.
fn map_output(scope: &Scope<'_>, made: &NotaLoweringReturn) -> (mappings: Vec<CodeMapping>)
    requires
        addressable(utf8(scope.source)),
    ensures
        ({
            let w = made.output.written();
            if addressable(w.code) {
                exists|log: Seq<LogEntry>| #[trigger]
                    ordered_log(w.log + w.anchors, log) && models(mappings@) == mark_mappings(
                        utf8(scope.source),
                        w.code,
                        w.log + w.anchors,
                        log,
                        made.mappings@,
                        made.mappings@.len() as int,
                    )
            } else {
                models(mappings@) == Seq::<MappingView>::empty()
            }
        }),
{
    if made.output.code.len() <= (u32::MAX - 2) as usize {
        let code = made.output.code.as_slice();
        let marks = made.mappings.as_slice();
        let mut raw: Vec<LogEntry> = Vec::new();
        add_entries(&mut raw, &made.output.log);
        add_entries(&mut raw, &made.output.anchors);
        let log = raw.as_slice();
        assert(code@ == made.output.written().code);
        assert(log@ =~= made.output.written().log + made.output.written().anchors);
        assert(marks@ == made.mappings@);
        build_code_mappings(scope.source, code, marks, log)
    } else {
        let none: Vec<CodeMapping> = Vec::new();
        assert(models(none@) =~= Seq::<MappingView>::empty());
        none
    }
}

/// What the tools have made of a module, if it is the one that they were given.
fn finished_for<'a>(known: &Known<'a>, code: &Vec<u8>) -> (found: Option<&'a Finished>)
    ensures
        found is Some <==> known.has_finished(code@),
        found is Some ==> found == known.finished,
{
    match known.finished {
        Some(f) => if same_bytes(f.module.as_str().as_bytes(), code.as_slice()) {
            Some(f)
        } else {
            None
        },
        None => None,
    }
}

/// The texts of the languages of a lowered document.
fn langs_of(made: &NotaLoweringReturn) -> (langs: Vec<String>)
    requires
        all_valid(texts(made.fence_langs@)),
    ensures
        spellings(langs@) == texts(made.fence_langs@),
{
    proof {
        assert forall|i: int| 0 <= i < made.fence_langs@.len() implies valid_utf8(
            (#[trigger] made.fence_langs@[i])@,
        ) by {
            assert(texts(made.fence_langs@)[i] == made.fence_langs@[i]@);
        }
    }
    let langs = strings_of(&made.fence_langs);
    assert(spellings(langs@) =~= texts(made.fence_langs@));
    langs
}

/// Compile a source for a build.
fn build(source: &str, known: &Known<'_>, surface: Surface, nodes: &Vec<Node>) -> (result: Compiled)
    requires
        addressable(utf8(source)),
        document(known.input(source)).nodes == trees(nodes@),
        document(known.input(source)).stop is None,
    ensures
        carries_out(source, *known, surface, CompileMode::Build, result),
        !(result is Asks),
        keeps_first(first_lines(known.input(source)).nodes, trees(nodes@)) ==> refuses_reserved(
            source,
            *known,
            surface,
            result,
        ),
{
    proof {
        if keeps_first(first_lines(known.input(source)).nodes, trees(nodes@)) {
            let d = known.input(source);
            let names = surface_names(surface);
            collisions_are_exact(d.s, surface, trees(nodes@));
            assert forall|name: Span| #[trigger]
                opens_by_binding(d, name) && names.contains(slice(d.s, name)) implies
                document_collisions(surface, d.s, trees(nodes@)).len() > 0 by {
                first_binding_collides(d, names, trees(nodes@), name);
            }
        }
    }
    if known.complaints.len() > 0 {
        let errors = copies(known.complaints);
        assert(errors@.len() == diagnostics(errors@).len());
        assert(known.complaints@.len() == diagnostics(known.complaints@).len());
        return Compiled::Refused { errors };
    }
    let made = NotaLowering::new(source, surface, false).lower_document_program(nodes);
    if made.diagnostics.len() > 0 {
        proof {
            collisions_are_exact(utf8(source), surface, trees(nodes@));
        }
        let mut errors: Vec<NotaDiagnostic> = Vec::new();
        report_collisions(source, surface, &made.diagnostics, &mut errors);
        assert(diagnostics(errors@).skip(0) =~= diagnostics(errors@));
        return Compiled::Refused { errors };
    }
    match finished_for(known, &made.output.code) {
        None => Compiled::Finishes { module: string_of(made.output.code.as_slice()) },
        Some(f) => {
            if f.errors.len() > 0 {
                return Compiled::Refused { errors: copies(f.errors.as_slice()) };
            }
            let mappings: Vec<CodeMapping> = Vec::new();
            let errors: Vec<NotaDiagnostic> = Vec::new();
            let highlights: Vec<u32> = Vec::new();
            assert(models(mappings@) =~= Seq::<MappingView>::empty());
            assert(diagnostics(errors@) =~= Seq::<DiagnosticView>::empty());
            assert(highlights@ =~= Seq::<u32>::empty());
            Compiled::Done {
                output: NotaOutput {
                    code: f.code.as_str().to_owned(),
                    free_names: free_names(&f.uses),
                    fence_langs: langs_of(&made),
                    mappings,
                    errors,
                    highlights,
                },
            }
        },
    }
}

/// Report what stands in the way of reading: the complaints, and the fault that stopped it.
fn report_reading(known: &Known<'_>, fault: Option<Fault>) -> (errors: Vec<NotaDiagnostic>)
    ensures
        diagnostics(errors@) == reading_errors(
            match fault {
                Some(f) => Some(Stop::Faulty { fault: f }),
                None => None,
            },
            *known,
        ),
{
    let mut errors = copies(known.complaints);
    if let Some(f) = fault {
        let ghost before = diagnostics(errors@);
        errors.push(report_fault(f, known.reasons));
        assert(diagnostics(errors@) =~= before.push(fault_diagnostic(f, known.reasons@)));
    }
    errors
}

/// Compile a source for an editor.
fn edit(
    source: &str,
    scope: &Scope<'_>,
    known: &Known<'_>,
    surface: Surface,
    nodes: &Vec<Node>,
    fault: Option<Fault>,
) -> (result: Compiled)
    requires
        scope.wf(),
        scope.input() == known.input(source),
        document(scope.input()).nodes == trees(nodes@),
        document(scope.input()).stop == (match fault {
            Some(f) => Some(Stop::Faulty { fault: f }),
            None => None,
        }),
    ensures
        carries_out(source, *known, surface, CompileMode::Analyze, result),
        result matches Compiled::Asks { query } ==> answer(
            utf8(source),
            known.facts@,
            query,
        ) is None,
        whole(trees(nodes@)) ==> (result matches Compiled::Done { output } ==> maps_text(
            models(output.mappings@),
        )),
{
    let spans = match scope.highlight(nodes) {
        Ok(spans) => spans,
        Err(query) => {
            return Compiled::Asks { query };
        },
    };
    let made = NotaLowering::new(source, surface, true).lower_document_program(nodes);
    match finished_for(known, &made.output.code) {
        None => Compiled::Finishes { module: string_of(made.output.code.as_slice()) },
        Some(f) => {
            let mappings = map_output(scope, &made);
            let mut errors = report_reading(known, fault);
            proof {
                assert(errors@.len() == diagnostics(errors@).len());
                collisions_are_exact(utf8(source), surface, trees(nodes@));
            }
            report_collisions(source, surface, &made.diagnostics, &mut errors);
            proof {
                if whole(trees(nodes@)) {
                    whole_documents_map_text(scope.input(), surface, models(mappings@));
                }
            }
            let highlights = flatten(&spans);
            Compiled::Done {
                output: NotaOutput {
                    code: string_of(made.output.code.as_slice()),
                    free_names: free_names(&f.uses),
                    fence_langs: langs_of(&made),
                    mappings,
                    errors,
                    highlights,
                },
            }
        },
    }
}

/// Read, lower, report, and take what the tools have made of the module.
fn compile_internal(source: &str, known: &Known<'_>, surface: Surface, mode: CompileMode) -> (result:
    Compiled)
    requires
        addressable(utf8(source)),
    ensures
        carries_out(source, *known, surface, mode, result),
        result matches Compiled::Asks { query } ==> answer(
            utf8(source),
            known.facts@,
            query,
        ) is None,
        mode == CompileMode::Build ==> refuses_reserved(source, *known, surface, result),
        mode == CompileMode::Analyze && document(known.input(source)).stop is None ==> (
        result matches Compiled::Done { output } ==> maps_text(models(output.mappings@))),
{
    let scope = Scope::whole(source, known.facts);
    assert(scope.input() == known.input(source));
    let (nodes, ended) = scope.parse_document_body();
    match ended.stop {
        Some(Stop::Ask { query }) => Compiled::Asks { query },
        Some(Stop::Faulty { fault }) => match mode {
            CompileMode::Build => Compiled::Refused { errors: one_fault(fault, known) },
            CompileMode::Analyze => edit(source, &scope, known, surface, &nodes, Some(fault)),
        },
        None => match mode {
            CompileMode::Build => build(source, known, surface, &nodes),
            CompileMode::Analyze => edit(source, &scope, known, surface, &nodes, None),
        },
    }
}

/// Report one fault and nothing else.
fn one_fault(fault: Fault, known: &Known<'_>) -> (errors: Vec<NotaDiagnostic>)
    ensures
        diagnostics(errors@) == seq![fault_diagnostic(fault, known.reasons@)],
        errors@.len() == 1,
{
    let mut errors: Vec<NotaDiagnostic> = Vec::new();
    errors.push(report_fault(fault, known.reasons));
    assert(diagnostics(errors@) =~= seq![fault_diagnostic(fault, known.reasons@)]);
    errors
}

/// Highlight a source: its spans outer first, or the question that stops the reading or the
/// painting. A faulty source has no spans, so that an editor keeps what it has painted.
pub fn highlight_source(source: &str, known: &Known<'_>) -> (result: Highlighted)
    requires
        addressable(utf8(source)),
    ensures
        highlights(source, *known, result),
        result matches Highlighted::Done { spans } ==> in_paint_order(spans@) && fits(
            utf8(source),
            spans@,
        ),
        result matches Highlighted::Asks { query } ==> answer(
            utf8(source),
            known.facts@,
            query,
        ) is None,
{
    let scope = Scope::whole(source, known.facts);
    assert(scope.input() == known.input(source));
    let (nodes, ended) = scope.parse_document_body();
    match ended.stop {
        Some(Stop::Ask { query }) => Highlighted::Asks { query },
        Some(Stop::Faulty { fault }) => Highlighted::Refused { errors: one_fault(fault, known) },
        None => {
            if known.complaints.len() > 0 {
                return Highlighted::Refused { errors: copies(known.complaints) };
            }
            match scope.highlight(&nodes) {
                Ok(spans) => Highlighted::Done { spans },
                Err(query) => Highlighted::Asks { query },
            }
        },
    }
}

/// Compile a source to a module, for a build. What is wrong is refused; a source whose first line
/// binds a reserved name always is. The module has no types: it is handed to the host's tools, and
/// what they make of it is the result.
pub fn compile(source: &str, known: &Known<'_>, surface: Surface) -> (result: Compiled)
    requires
        addressable(utf8(source)),
    ensures
        carries_out(source, *known, surface, CompileMode::Build, result),
        refuses_reserved(source, *known, surface, result),
        result matches Compiled::Asks { query } ==> answer(
            utf8(source),
            known.facts@,
            query,
        ) is None,
{
    compile_internal(source, known, surface, CompileMode::Build)
}

/// Compile a source to a module, for an editor. What is wrong is reported beside the module; nothing
/// is refused. A source that builds is one of which nothing is reported, and all its mappings map
/// text: recovery leaves no trace in it.
pub fn analyze(source: &str, known: &Known<'_>, surface: Surface) -> (result: Compiled)
    requires
        addressable(utf8(source)),
    ensures
        carries_out(source, *known, surface, CompileMode::Analyze, result),
        !(result is Refused),
        result matches Compiled::Asks { query } ==> answer(
            utf8(source),
            known.facts@,
            query,
        ) is None,
        verdict(source, *known, surface, CompileMode::Build) is Done ==> (
        result matches Compiled::Done { output } ==> output.errors@.len() == 0 && maps_text(
            models(output.mappings@),
        )),
{
    proof {
        assert(diagnostics(known.complaints@).len() == known.complaints@.len());
    }
    compile_internal(source, known, surface, CompileMode::Analyze)
}

} // verus!
