//! Documents: read, lowered, compiled and highlighted.

use nota::bytes::Span;
use nota::compile::{
    fault_message, fault_note, highlight_source, statement_complaint, Compiled, Finished,
    Highlighted, Known, NotaDiagnostic, NotaOutput,
};
use nota::grammar::{Fault, FaultKind, Stop};
use nota::highlight::{highlight_kind_names, NotaHighlightKind as K, NotaHighlightSpan};
use nota::hyper::Hyper;
use nota::js::{JsAnswer, JsAsk, JsFact, JsLexeme, JsQuery, JsTokenKind};
use nota::jsx::Jsx;
use nota::lexemes::flatten;
use nota::literals::literal_of;
use nota::lower::NotaLowering;
use nota::mapping::{
    build_code_mappings, CodeMapping, MappingCapabilities, NotaMappingKind, NotaMappingMark,
};
use nota::marks::{free_names, NameUse};
use nota::names::{
    check_reserved_collisions, emit_surface, is_reserved_emit_name, reserved_emit_names, Surface,
};
use nota::reader::Scope;
use nota::statements::line_classifiers;
use nota::token::{next_markup_text, Kind};
use nota::tree::{ExprTier, NameAttach, Node, NodeKind, StatementClass};

// A JavaScript parser of the size these documents need. It stands in for the one that an
// application puts beside the reader: it answers the reader's questions, and measures the forms
// that stand inside code by asking the reader back.

/// Where code goes wrong.
type Bad = u32;

struct Host<'a> {
    source: &'a str,
    facts: Vec<JsFact>,
    reasons: Vec<NotaDiagnostic>,
    complaints: Vec<NotaDiagnostic>,
    finished: Option<Finished>,
    forms: Vec<usize>,
    names: Vec<(usize, Span)>,
    statement: usize,
    depth: usize,
    attach: Option<NameAttach>,
}

const OPERATORS: [&str; 27] = [
    "===", "!==", ">>>", "**", "&&", "||", "??", "==", "!=", "<=", ">=", "<<", ">>", "+", "-", "*",
    "/", "%", "<", ">", "&", "|", "^", "instanceof", "in", "as", "satisfies",
];
const ASSIGNS: [&str; 16] = [
    ">>>=", "**=", "<<=", ">>=", "&&=", "||=", "??=", "+=", "-=", "*=", "/=", "%=", "&=", "|=",
    "^=", "=",
];
const KEYWORDS: [&str; 25] = [
    "const", "var", "if", "else", "for", "while", "do", "return", "switch", "case", "default",
    "break", "continue", "throw", "try", "catch", "finally", "export", "with", "extends", "enum",
    "in", "instanceof", "debugger", "let",
];

impl<'a> Host<'a> {
    fn new(source: &'a str) -> Self {
        Host {
            source,
            facts: Vec::new(),
            reasons: Vec::new(),
            complaints: Vec::new(),
            finished: None,
            forms: Vec::new(),
            names: Vec::new(),
            statement: 0,
            depth: 0,
            attach: None,
        }
    }

    fn byte(&self, p: usize, end: usize) -> u8 {
        if p < end { self.source.as_bytes()[p] } else { 0 }
    }

    fn starts(&self, p: usize, end: usize, text: &str) -> bool {
        p + text.len() <= end && self.source.as_bytes()[p..].starts_with(text.as_bytes())
    }

    fn fail<T>(&self, p: usize) -> Result<T, Bad> {
        Err(p as u32)
    }

    fn expect(&self, p: usize, end: usize, text: &str) -> Result<usize, Bad> {
        let p = self.trivia(p, end);
        if self.starts(p, end, text) { Ok(p + text.len()) } else { self.fail(p) }
    }

    fn trivia(&self, mut p: usize, end: usize) -> usize {
        loop {
            if self.starts(p, end, "//") {
                p = self.source[p..end]
                    .find(['\n', '\r', '\u{2028}', '\u{2029}'])
                    .map_or(end, |line| p + line);
            } else if self.starts(p, end, "/*") {
                p += 2;
                while p < end && !self.starts(p, end, "*/") {
                    p += 1;
                }
                p = (p + 2).min(end);
            } else if p < end && self.source[p..end].chars().next().is_some_and(|c| c.is_whitespace())
            {
                p += self.source[p..end].chars().next().map_or(1, |c| c.len_utf8());
            } else {
                return p;
            }
        }
    }

    fn word(&self, p: usize, end: usize) -> usize {
        let mut q = p;
        for c in self.source[p..end].chars() {
            let start = c.is_alphabetic() || c == '_' || c == '$' || c == '#' && q == p;
            if !(start || q > p && c.is_alphanumeric()) {
                break;
            }
            q += c.len_utf8();
        }
        q
    }

    fn at_word(&self, p: usize, end: usize, text: &str) -> bool {
        &self.source[p..self.word(p, end)] == text
    }

    fn string(&self, p: usize, end: usize) -> Result<usize, Bad> {
        let quote = self.byte(p, end);
        let mut q = p + 1;
        while q < end && self.byte(q, end) != quote {
            if self.byte(q, end) == b'\n' {
                return self.fail(p);
            }
            q += if self.byte(q, end) == b'\\' { 2 } else { 1 };
        }
        if q < end { Ok(q + 1) } else { self.fail(p) }
    }

    fn template(&mut self, p: usize, end: usize) -> Result<usize, Bad> {
        let mut q = p + 1;
        while q < end && self.byte(q, end) != b'`' {
            if self.byte(q, end) == b'\\' {
                q += 2;
            } else if self.starts(q, end, "${") {
                let (_, e, _) = self.sequence(q + 2, end)?;
                q = self.expect(e, end, "}")?;
            } else {
                q += 1;
            }
        }
        if q < end { Ok(q + 1) } else { self.fail(p) }
    }

    fn regex(&self, p: usize, end: usize) -> Result<usize, Bad> {
        let mut q = p + 1;
        let mut class = false;
        while q < end && (class || self.byte(q, end) != b'/') {
            match self.byte(q, end) {
                b'\n' => return self.fail(p),
                b'\\' => q += 1,
                b'[' => class = true,
                b']' => class = false,
                _ => {}
            }
            q += 1;
        }
        if q < end { Ok(self.word(q + 1, end)) } else { self.fail(p) }
    }

    /// The end of the form at `p`, measured by the reader.
    fn form(&mut self, p: usize, end: usize) -> Result<usize, Bad> {
        loop {
            let facts = self.facts.clone();
            let scope = Scope { source: self.source, view: &self.source[..end], facts: &facts };
            let (_, ended) = scope.parse_nota_form(p as u32);
            match ended.stop {
                None => {
                    self.forms.push(p);
                    return Ok(ended.at as usize);
                }
                Some(Stop::Ask { query }) => self.learn(query),
                Some(Stop::Faulty { fault }) => return self.fail(fault.span.start as usize),
            }
        }
    }

    fn sequence(&mut self, p: usize, end: usize) -> Result<(usize, usize, ExprTier), Bad> {
        let (start, mut e, mut tier) = self.assignment(p, end)?;
        while self.byte(self.trivia(e, end), end) == b',' {
            let (_, next, _) = self.assignment(self.trivia(e, end) + 1, end)?;
            e = next;
            tier = ExprTier::Sequence;
        }
        Ok((start, e, tier))
    }

    fn arrow_body(&mut self, p: usize, end: usize) -> Result<usize, Bad> {
        let p = self.trivia(p, end);
        if self.byte(p, end) == b'{' { self.block(p, end) } else { Ok(self.assignment(p, end)?.1) }
    }

    /// A binding list in parentheses, with an arrow behind it.
    fn arrow_head(&mut self, p: usize, end: usize) -> Result<usize, Bad> {
        if self.byte(p, end) == b'(' {
            let e = self.params(p, end)?;
            self.expect(e, end, "=>")
        } else {
            let e = self.word(p, end);
            if e == p { self.fail(p) } else { self.expect(e, end, "=>") }
        }
    }

    fn assignment(&mut self, p: usize, end: usize) -> Result<(usize, usize, ExprTier), Bad> {
        let start = self.trivia(p, end);
        let mut head = start;
        if self.at_word(start, end, "async") {
            head = self.trivia(start + 5, end);
        }
        self.depth += 1;
        let arrow = self.arrow_head(head, end);
        self.depth -= 1;
        if let Ok(body) = arrow {
            self.depth += 1;
            let e = self.arrow_body(body, end);
            self.depth -= 1;
            return Ok((start, e?, ExprTier::Assignment));
        }
        let (mut e, mut tier) = self.binary(start, end)?;
        let next = self.trivia(e, end);
        if self.byte(next, end) == b'?' {
            let (_, yes, _) = self.assignment(next + 1, end)?;
            let colon = self.expect(yes, end, ":")?;
            e = self.assignment(colon, end)?.1;
            tier = ExprTier::Assignment;
        } else if !self.starts(next, end, "=>") && !self.starts(next, end, "==") {
            for op in ASSIGNS {
                if self.starts(next, end, op) {
                    e = self.assignment(next + op.len(), end)?.1;
                    tier = ExprTier::Assignment;
                    break;
                }
            }
        }
        Ok((start, e, tier))
    }

    fn operator(&self, p: usize, end: usize) -> Option<usize> {
        for op in ASSIGNS {
            if self.starts(p, end, op) && !(op == "=" && self.starts(p, end, "==")) {
                return None;
            }
        }
        for op in OPERATORS {
            let wordy = op.as_bytes()[0].is_ascii_alphabetic();
            if self.starts(p, end, op) && !(wordy && self.word(p, end) != p + op.len()) {
                return Some(op.len());
            }
        }
        None
    }

    fn binary(&mut self, p: usize, end: usize) -> Result<(usize, ExprTier), Bad> {
        let (mut e, mut tier) = self.unary(p, end)?;
        while let Some(len) = self.operator(self.trivia(e, end), end) {
            let op = self.trivia(e, end);
            let right = self.trivia(op + len, end);
            e = if self.at_word(op, end, "as") || self.at_word(op, end, "satisfies") {
                self.type_end(right, end)
            } else {
                self.unary(right, end)?.0
            };
            tier = ExprTier::Operator;
        }
        Ok((e, tier))
    }

    fn unary(&mut self, p: usize, end: usize) -> Result<(usize, ExprTier), Bad> {
        let p = self.trivia(p, end);
        for op in ["++", "--", "!", "~", "+", "-", "typeof", "void", "delete", "await"] {
            let wordy = op.as_bytes()[0].is_ascii_alphabetic();
            if self.starts(p, end, op) && !(wordy && self.word(p, end) != p + op.len()) {
                return Ok((self.unary(p + op.len(), end)?.0, ExprTier::Operator));
            }
        }
        if let Some(e) = self.jsx(p, end) {
            return Ok((e, ExprTier::Element));
        }
        let e = self.chain(p, end)?;
        if self.starts(e, end, "++") || self.starts(e, end, "--") {
            return Ok((e + 2, ExprTier::Operator));
        }
        Ok((e, ExprTier::Primary))
    }

    /// `<name … />`, or `<name …>…</name>` with no element of that name inside.
    fn jsx(&self, p: usize, end: usize) -> Option<usize> {
        if self.byte(p, end) != b'<' {
            return None;
        }
        let open = p + self.source[p..end].find('>')? + 1;
        if self.source[..open].ends_with("/>") {
            return Some(open);
        }
        let close = format!("</{}>", &self.source[p + 1..self.word(p + 1, end)]);
        Some(open + self.source[open..end].find(&close)? + close.len())
    }

    fn chain(&mut self, p: usize, end: usize) -> Result<usize, Bad> {
        let mut e = self.primary(p, end)?;
        loop {
            let next = self.trivia(e, end);
            if self.starts(next, end, "?.") && !self.byte(next + 2, end).is_ascii_digit() {
                e = self.word(next + 2, end);
            } else if self.byte(next, end) == b'.' && !self.starts(next, end, "...") {
                let name = self.trivia(next + 1, end);
                e = self.word(name, end);
                if e == name {
                    return self.fail(name);
                }
            } else if self.byte(next, end) == b'[' {
                let inner = self.sequence(next + 1, end)?.1;
                e = self.expect(inner, end, "]")?;
            } else if self.byte(next, end) == b'(' {
                e = self.list(next, end, b')')?;
            } else if self.byte(next, end) == b'`' {
                e = self.template(next, end)?;
            } else if self.byte(next, end) == b'!' && self.byte(next + 1, end) != b'=' {
                e = next + 1;
            } else if let Some(call) = self.type_arguments(next, end) {
                e = call;
            } else {
                return Ok(e);
            }
        }
    }

    /// `<T>` with a call behind it.
    fn type_arguments(&self, p: usize, end: usize) -> Option<usize> {
        if self.byte(p, end) != b'<' {
            return None;
        }
        let mut q = p + 1;
        while q < end && (self.byte(q, end).is_ascii_alphanumeric() || b" ,._[]".contains(&self.byte(q, end)))
        {
            q += 1;
        }
        if self.starts(q, end, ">(") { Some(q + 1) } else { None }
    }

    /// Elements or arguments up to `close`.
    fn list(&mut self, p: usize, end: usize, close: u8) -> Result<usize, Bad> {
        let mut q = p + 1;
        loop {
            q = self.trivia(q, end);
            if self.byte(q, end) == close {
                return Ok(q + 1);
            } else if self.byte(q, end) == b',' && close == b']' {
                q += 1;
                continue;
            } else if self.starts(q, end, "...") {
                q += 3;
            }
            q = self.assignment(q, end)?.1;
            q = self.trivia(q, end);
            if self.byte(q, end) == b',' {
                q += 1;
            } else if self.byte(q, end) != close {
                return self.fail(q);
            }
        }
    }

    fn object(&mut self, p: usize, end: usize) -> Result<usize, Bad> {
        let mut q = p + 1;
        loop {
            q = self.trivia(q, end);
            if self.byte(q, end) == b'}' {
                return Ok(q + 1);
            } else if self.starts(q, end, "...") {
                q = self.assignment(q + 3, end)?.1;
            } else {
                let key = q;
                q = self.key(q, end)?;
                let word = &self.source[key..q];
                let next = self.trivia(q, end);
                if (word == "get" || word == "set" || word == "async")
                    && !b":,}(".contains(&self.byte(next, end))
                {
                    q = self.key(next, end)?;
                }
                let next = self.trivia(q, end);
                if self.byte(next, end) == b':' {
                    q = self.assignment(next + 1, end)?.1;
                } else if self.byte(next, end) == b'(' {
                    q = self.params(next, end)?;
                    q = self.block(self.trivia(q, end), end)?;
                }
            }
            q = self.trivia(q, end);
            if self.byte(q, end) == b',' {
                q += 1;
            } else if self.byte(q, end) != b'}' {
                return self.fail(q);
            }
        }
    }

    fn key(&mut self, p: usize, end: usize) -> Result<usize, Bad> {
        match self.byte(p, end) {
            b'"' | b'\'' => self.string(p, end),
            b'[' => {
                let e = self.assignment(p + 1, end)?.1;
                self.expect(e, end, "]")
            }
            b'*' => self.key(p + 1, end),
            _ => {
                let e = self.word(p, end).max(self.number(p, end));
                if e == p { self.fail(p) } else { Ok(e) }
            }
        }
    }

    fn number(&self, p: usize, end: usize) -> usize {
        let mut q = p;
        if self.byte(p, end).is_ascii_digit() || self.byte(p, end) == b'.' && self.byte(p + 1, end).is_ascii_digit()
        {
            while self.byte(q, end).is_ascii_alphanumeric() || b"._".contains(&self.byte(q, end)) && q < end
            {
                q += 1;
            }
        }
        q
    }

    fn params(&mut self, p: usize, end: usize) -> Result<usize, Bad> {
        let mut q = self.expect(p, end, "(")?;
        loop {
            q = self.trivia(q, end);
            if self.byte(q, end) == b')' {
                return Ok(q + 1);
            }
            if self.starts(q, end, "...") {
                q += 3;
            }
            q = self.pattern(q, end)?.1;
            q = self.annotation(q, end);
            q = self.trivia(q, end);
            if self.byte(q, end) == b'=' {
                q = self.assignment(q + 1, end)?.1;
                q = self.trivia(q, end);
            }
            if self.byte(q, end) == b',' {
                q += 1;
            } else if self.byte(q, end) != b')' {
                return self.fail(q);
            }
        }
    }

    fn function(&mut self, p: usize, end: usize) -> Result<usize, Bad> {
        self.depth += 1;
        let q = self.params(p, end).and_then(|q| self.block(self.trivia(q, end), end));
        self.depth -= 1;
        q
    }

    fn class(&mut self, p: usize, end: usize) -> Result<usize, Bad> {
        let mut q = self.trivia(p, end);
        if self.at_word(q, end, "extends") {
            q = self.chain(self.trivia(q + 7, end), end)?;
            q = self.trivia(q, end);
        }
        q = self.expect(q, end, "{")?;
        self.depth += 1;
        loop {
            q = self.trivia(q, end);
            if self.byte(q, end) == b'}' {
                self.depth -= 1;
                return Ok(q + 1);
            }
            q = self.key(q, end)?;
            q = self.trivia(q, end);
            if self.byte(q, end) == b'(' {
                q = self.params(q, end)?;
                q = self.block(self.trivia(q, end), end)?;
            } else {
                if self.byte(q, end) == b'=' {
                    q = self.assignment(q + 1, end)?.1;
                }
                q = self.trivia(q, end);
                if self.byte(q, end) == b';' {
                    q += 1;
                }
            }
        }
    }

    fn primary(&mut self, p: usize, end: usize) -> Result<usize, Bad> {
        let p = self.trivia(p, end);
        match self.byte(p, end) {
            b'@' => return self.form(p, end),
            b'"' | b'\'' => return self.string(p, end),
            b'`' => return self.template(p, end),
            b'/' => return self.regex(p, end),
            b'[' => return self.list(p, end, b']'),
            b'{' => return self.object(p, end),
            b'(' => {
                let e = self.sequence(p + 1, end)?.1;
                return self.expect(e, end, ")");
            }
            _ => {}
        }
        let digits = self.number(p, end);
        if digits > p {
            return Ok(digits);
        }
        let e = self.word(p, end);
        let word = &self.source[p..e];
        match word {
            "" => self.fail(p),
            "new" => self.chain(self.trivia(e, end), end),
            "async" if self.at_word(self.trivia(e, end), end, "function") => {
                self.primary(self.trivia(e, end), end)
            }
            "function" => {
                let star = self.trivia(e, end);
                let star = if self.byte(star, end) == b'*' { star + 1 } else { star };
                let name = self.trivia(star, end);
                self.function(self.word(name, end), end)
            }
            "class" => {
                let name = self.trivia(e, end);
                let q = if self.at_word(name, end, "extends") { name } else { self.word(name, end) };
                self.class(q, end)
            }
            _ if KEYWORDS.contains(&word) => self.fail(p),
            _ => Ok(e),
        }
    }

    fn bind(&mut self, p: usize, e: usize) {
        if self.depth == 0 {
            self.names.push((self.statement, Span::new(p as u32, e as u32)));
        }
    }

    fn pattern(&mut self, p: usize, end: usize) -> Result<(usize, usize), Bad> {
        let start = self.trivia(p, end);
        let object = match self.byte(start, end) {
            b'[' => false,
            b'{' => true,
            _ => {
                let e = self.word(start, end);
                if e == start || KEYWORDS.contains(&&self.source[start..e]) {
                    return self.fail(start);
                }
                self.bind(start, e);
                return Ok((start, e));
            }
        };
        let close = if object { b'}' } else { b']' };
        let mut q = start + 1;
        loop {
            q = self.trivia(q, end);
            if self.byte(q, end) == close {
                return Ok((start, q + 1));
            } else if self.byte(q, end) == b',' {
                q += 1;
                continue;
            } else if self.starts(q, end, "...") {
                q = self.pattern(q + 3, end)?.1;
            } else if object {
                let e = self.key(q, end)?;
                let next = self.trivia(e, end);
                if self.byte(next, end) == b':' {
                    q = self.pattern(next + 1, end)?.1;
                } else {
                    self.bind(q, e);
                    q = e;
                }
            } else {
                q = self.pattern(q, end)?.1;
            }
            q = self.trivia(q, end);
            if self.byte(q, end) == b'=' {
                q = self.assignment(q + 1, end)?.1;
                q = self.trivia(q, end);
            }
            if self.byte(q, end) != b',' && self.byte(q, end) != close {
                return self.fail(q);
            }
        }
    }

    /// A name of a type, or a list type of one.
    fn type_end(&self, p: usize, end: usize) -> usize {
        let mut q = self.word(p, end);
        while self.starts(q, end, "[]") {
            q += 2;
        }
        q
    }

    /// A type behind a colon: a name, or an object type.
    fn annotation(&self, p: usize, end: usize) -> usize {
        let q = self.trivia(p, end);
        if self.byte(q, end) != b':' {
            return p;
        }
        let start = self.trivia(q + 1, end);
        if self.byte(start, end) == b'{' {
            let mut q = start;
            while q < end && self.byte(q, end) != b'}' {
                q += 1;
            }
            return (q + 1).min(end);
        }
        self.type_end(start, end)
    }

    fn block(&mut self, p: usize, end: usize) -> Result<usize, Bad> {
        let mut q = self.expect(p, end, "{")?;
        let (statement, attach) = (self.statement, self.attach);
        self.depth += 1;
        loop {
            q = self.trivia(q, end);
            if self.byte(q, end) == b'}' {
                self.depth -= 1;
                self.statement = statement;
                self.attach = attach;
                return Ok(q + 1);
            }
            match self.one_statement(q, end) {
                Ok(e) => q = e,
                Err(bad) => {
                    self.depth -= 1;
                    return Err(bad);
                }
            }
        }
    }

    /// The end of a statement whose last token ends at `p`.
    fn semicolon(&self, p: usize, end: usize) -> Result<usize, Bad> {
        let q = self.trivia(p, end);
        if self.byte(q, end) == b';' {
            Ok(q + 1)
        } else if q >= end || self.byte(q, end) == b'}' || self.source[p..q].contains('\n') {
            Ok(p)
        } else {
            self.fail(q)
        }
    }

    fn declarators(&mut self, p: usize, end: usize) -> Result<usize, Bad> {
        let mut q = p;
        loop {
            let (start, e) = self.pattern(q, end)?;
            q = self.annotation(e, end);
            let eq = self.trivia(q, end);
            if self.byte(eq, end) == b'=' {
                let (from, init, _) = self.assignment(eq + 1, end)?;
                let callee = self.word(from, end);
                let callee_name = &self.source[from..callee];
                if (callee_name == "inlineComponent" || callee_name == "blockComponent")
                    && self.byte(callee, end) == b'('
                {
                    let arg_end = self.assignment(callee + 1, end)?.1;
                    if self.depth == 0 {
                        self.attach = Some(NameAttach {
                            name: Span::new(start as u32, e as u32),
                            arg_end: arg_end as u32,
                            close: init as u32 - 1,
                        });
                    }
                }
                q = init;
            }
            let comma = self.trivia(q, end);
            if self.byte(comma, end) != b',' {
                return self.semicolon(q, end);
            }
            q = comma + 1;
        }
    }

    fn group(&mut self, p: usize, end: usize) -> Result<usize, Bad> {
        let p = self.trivia(p, end);
        self.list(p, end, b')')
    }

    fn one_statement(&mut self, p: usize, end: usize) -> Result<usize, Bad> {
        let p = self.trivia(p, end);
        match self.byte(p, end) {
            b'@' => return self.fail(p),
            b'{' => return self.block(p, end),
            b';' => return Ok(p + 1),
            _ => {}
        }
        let e = self.word(p, end);
        let next = self.trivia(e, end);
        match &self.source[p..e] {
            "const" | "let" | "var" => self.declarators(e, end),
            "return" | "throw" => {
                if self.source[e..next].contains('\n') || b";}".contains(&self.byte(next, end)) {
                    self.semicolon(e, end)
                } else {
                    let q = self.sequence(next, end)?.1;
                    self.semicolon(q, end)
                }
            }
            "if" => {
                let q = self.group(next, end)?;
                let q = self.one_statement(q, end)?;
                let other = self.trivia(q, end);
                if self.at_word(other, end, "else") { self.one_statement(other + 4, end) } else { Ok(q) }
            }
            "function" => {
                let name = if self.byte(next, end) == b'*' { self.trivia(next + 1, end) } else { next };
                let q = self.word(name, end);
                self.bind(name, q);
                self.function(q, end)
            }
            "async" if self.at_word(next, end, "function") => self.one_statement(next, end),
            "class" => {
                let q = self.word(next, end);
                self.bind(next, q);
                self.class(q, end)
            }
            "import" if !b"(.".contains(&self.byte(next, end)) => {
                let mut q = next;
                while q < end && !b"\"'".contains(&self.byte(q, end)) {
                    if self.byte(q, end) == b'{' {
                        q = self.pattern(q, end)?.1;
                    } else if self.word(q, end) > q {
                        let to = self.word(q, end);
                        if !["from", "as", "type"].contains(&&self.source[q..to]) {
                            self.bind(q, to);
                        }
                        q = to;
                    } else if b"*,".contains(&self.byte(q, end)) {
                        q += 1;
                    } else {
                        return self.fail(q);
                    }
                    q = self.trivia(q, end);
                }
                let q = self.string(q, end)?;
                self.semicolon(q, end)
            }
            "export" => {
                if self.at_word(next, end, "default") {
                    let q = self.assignment(next + 7, end)?.1;
                    self.semicolon(q, end)
                } else {
                    self.one_statement(next, end)
                }
            }
            _ => {
                let q = self.sequence(p, end)?.1;
                self.semicolon(q, end)
            }
        }
    }

    /// The end of the template text from `p` on, and whether a substitution follows it.
    fn template_part(&self, p: usize, end: usize) -> (usize, bool) {
        let mut q = p;
        while q < end {
            if self.starts(q, end, "${") {
                return (q + 2, true);
            } else if self.byte(q, end) == b'`' {
                return (q + 1, false);
            }
            q += if self.byte(q, end) == b'\\' { 2 } else { 1 };
        }
        (end, false)
    }

    /// The token at `p`, as a highlighter sees it.
    fn lexeme(&self, p: usize, end: usize) -> Option<(usize, usize, JsLexeme)> {
        if p >= end {
            return None;
        }
        let word = self.word(p, end);
        if word > p {
            let text = &self.source[p..word];
            let literal = ["true", "false", "null", "function", "class", "new", "import"];
            let keyword = KEYWORDS.contains(&text) || literal.contains(&text);
            let what = if keyword { JsLexeme::Keyword } else { JsLexeme::Name };
            return Some((p, word, what));
        }
        let digits = self.number(p, end);
        if digits > p {
            return Some((p, digits, JsLexeme::Number));
        }
        match self.byte(p, end) {
            b'"' | b'\'' => self.string(p, end).ok().map(|e| (p, e, JsLexeme::Text)),
            b'`' => {
                let (e, open) = self.template_part(p + 1, end);
                let what = if open { JsLexeme::TemplateHead } else { JsLexeme::Text };
                Some((p, e, what))
            }
            b'{' => Some((p, p + 1, JsLexeme::OpenBrace)),
            b'}' => Some((p, p + 1, JsLexeme::CloseBrace)),
            _ => {
                let len = self.source[p..].chars().next().map_or(1, |c| c.len_utf8());
                Some((p, p + len, JsLexeme::Operator))
            }
        }
    }

    /// Code that is not JavaScript, with the reason.
    fn invalid(&mut self, at: u32) -> JsAnswer {
        let reason = self.reasons.len() as u32;
        let message = format!("Unexpected code at {at}");
        self.reasons.push(NotaDiagnostic { message, start: at, len: 1 });
        JsAnswer::Invalid { at, reason }
    }

    /// What is known so far.
    fn known(&self) -> Known<'_> {
        Known {
            facts: &self.facts,
            reasons: &self.reasons,
            complaints: &self.complaints,
            finished: self.finished.as_ref(),
        }
    }

    /// Finish a module: these have no types, and their references are not resolved.
    fn finish(&mut self, module: String) {
        assert!(self.finished.is_none());
        let code = module.clone();
        self.finished = Some(Finished { module, code, uses: Vec::new(), errors: Vec::new() });
    }

    fn answer(&mut self, query: JsQuery) -> JsAnswer {
        let (p, end) = (query.at as usize, query.end as usize);
        let extent = |s: usize, e: usize, tier: ExprTier| JsAnswer::Extent {
            span: Span::new(s as u32, e as u32),
            tier,
        };
        match query.ask {
            JsAsk::Token => {
                let start = self.trivia(p, end);
                if start >= end {
                    return JsAnswer::Nothing;
                }
                let e = self.word(start, end);
                let (e, kind) = if e > start {
                    (e, JsTokenKind::Name)
                } else if b"\"'".contains(&self.byte(start, end)) {
                    match self.string(start, end) {
                        Ok(e) => (e, JsTokenKind::Str),
                        Err(at) => return self.invalid(at),
                    }
                } else if self.starts(start, end, "...") {
                    (start + 3, JsTokenKind::Other)
                } else if self.byte(start, end) == b'\\' {
                    return self.invalid(start as u32);
                } else {
                    let len = self.source[start..].chars().next().map_or(1, |c| c.len_utf8());
                    (start + len, JsTokenKind::Other)
                };
                JsAnswer::Token { span: Span::new(start as u32, e as u32), kind }
            }
            JsAsk::Expression => match self.sequence(p, end) {
                Ok((s, e, tier)) => extent(s, e, tier),
                Err(at) => self.invalid(at),
            },
            JsAsk::Assignment => match self.assignment(p, end) {
                Ok((s, e, tier)) => extent(s, e, tier),
                Err(at) => self.invalid(at),
            },
            JsAsk::Pattern => {
                self.depth += 1;
                let found = self.pattern(p, end);
                self.depth -= 1;
                match found {
                    Ok((s, e)) => extent(s, e, ExprTier::Primary),
                    Err(at) => self.invalid(at),
                }
            }
            JsAsk::Statement => {
                let start = self.trivia(p, end);
                let (statement, depth, attach) = (self.statement, self.depth, self.attach);
                self.statement = start;
                self.depth = 0;
                self.attach = None;
                let found = self.one_statement(start, end);
                let made = self.attach;
                self.statement = statement;
                self.depth = depth;
                self.attach = attach;
                match found {
                    Ok(e) => {
                        let class = if self.at_word(start, end, "import") {
                            StatementClass::Import
                        } else if self.at_word(start, end, "export") {
                            let next = self.trivia(start + 6, end);
                            if self.at_word(next, end, "default") {
                                StatementClass::ExportDefault
                            } else {
                                StatementClass::Export
                            }
                        } else {
                            StatementClass::Plain
                        };
                        JsAnswer::Statement {
                            span: Span::new(start as u32, e as u32),
                            class,
                            attach: made,
                        }
                    }
                    Err(at) => self.invalid(at),
                }
            }
            JsAsk::Form => {
                match self.forms.iter().filter(|&&f| p <= f && f < end).min() {
                    Some(&at) => JsAnswer::Form { at: at as u32 },
                    None => JsAnswer::Nothing,
                }
            }
            JsAsk::Lexeme => match self.lexeme(self.trivia(p, end), end) {
                Some((s, e, what)) => {
                    JsAnswer::Lexeme { span: Span::new(s as u32, e as u32), what }
                }
                None => JsAnswer::Nothing,
            },
            JsAsk::Resume => {
                let (e, open) = self.template_part(p + 1, end);
                let what = if open { JsLexeme::TemplateMiddle } else { JsLexeme::TemplateTail };
                JsAnswer::Lexeme { span: Span::new(p as u32, e as u32), what }
            }
            JsAsk::Binding => {
                let owner = self.facts.iter().find_map(|fact| match fact.answer {
                    JsAnswer::Statement { span, .. }
                        if span.end as usize == end && span.start as usize <= p =>
                    {
                        Some(span.start as usize)
                    }
                    _ => None,
                });
                let name = self
                    .names
                    .iter()
                    .filter(|(from, name)| Some(*from) == owner && name.start as usize >= p)
                    .map(|(_, name)| *name)
                    .min_by_key(|name| name.start);
                match name {
                    Some(span) => JsAnswer::Binding { span },
                    None => JsAnswer::Nothing,
                }
            }
        }
    }

    fn learn(&mut self, query: JsQuery) {
        assert!(!self.facts.iter().any(|f| f.query == query), "asked twice: {query:?}");
        let answer = self.answer(query);
        self.facts.push(JsFact { query, answer });
    }

    /// Read a document, or the fault that stops it.
    fn document(&mut self) -> Result<Vec<Node>, Fault> {
        loop {
            let facts = self.facts.clone();
            let (nodes, ended) = Scope::whole(self.source, &facts).parse_document_body();
            match ended.stop {
                None => return Ok(nodes),
                Some(Stop::Ask { query }) => self.learn(query),
                Some(Stop::Faulty { fault }) => return Err(fault),
            }
        }
    }

    /// Read one form, or the fault that stops it.
    fn expression(&mut self) -> Result<Node, Fault> {
        loop {
            let facts = self.facts.clone();
            let (mut nodes, ended) = Scope::whole(self.source, &facts).parse_nota_form(0);
            match ended.stop {
                None => return Ok(nodes.remove(0)),
                Some(Stop::Ask { query }) => self.learn(query),
                Some(Stop::Faulty { fault }) => return Err(fault),
            }
        }
    }
}

/// Is `js` a module that parses?
fn reparses(js: &str) -> bool {
    let mut host = Host::new(js);
    let mut p = host.trivia(0, js.len());
    while p < js.len() {
        match host.one_statement(p, js.len()) {
            Ok(e) => p = host.trivia(e, js.len()),
            Err(_) => return false,
        }
    }
    true
}

/// `js` without what formatting adds: the space outside strings and templates.
fn squeeze(js: &str) -> String {
    let mut out = String::new();
    let mut quote: Option<char> = None;
    let mut escaped = false;
    for c in js.chars() {
        match quote {
            Some(q) => {
                out.push(c);
                if escaped {
                    escaped = false;
                } else if c == '\\' && q != '`' {
                    escaped = true;
                } else if c == q {
                    quote = None;
                }
            }
            None => {
                if c == '"' || c == '\'' || c == '`' {
                    quote = Some(c);
                }
                if !c.is_whitespace() {
                    out.push(c);
                }
            }
        }
    }
    out
}

/// The text that a form lowers to.
fn nota_expr_raw(source: &str) -> String {
    let form = match Host::new(source).expression() {
        Ok(form) => form,
        Err(fault) => panic!("{source:?} does not read: {fault:?}"),
    };
    let js = String::from_utf8(Hyper { source }.expression(&form).code).unwrap();
    assert!(reparses(&js), "not JavaScript: {js}");
    js
}

fn nota_expr(source: &str, expected: &str) {
    assert_js_eq(&nota_expr_raw(source), expected);
}

/// Equal but for formatting.
fn assert_js_eq(emitted: &str, expected: &str) {
    assert_eq!(squeeze(emitted.trim_end_matches(';')), squeeze(expected), "\n{emitted}\n{expected}");
}

/// The module that a document lowers to.
fn emit_doc_unchecked(source: &str) -> String {
    let nodes = match Host::new(source).document() {
        Ok(nodes) => nodes,
        Err(fault) => panic!("{source:?} does not read: {fault:?}"),
    };
    String::from_utf8(Hyper { source }.document(&nodes).code).unwrap()
}

fn nota_doc(source: &str) -> String {
    let js = emit_doc_unchecked(source);
    assert!(reparses(&js), "not JavaScript: {js}");
    js
}

fn nota_expr_err(source: &str) {
    assert!(Host::new(source).expression().is_err(), "{source:?} reads");
}

fn nota_doc_err(source: &str) {
    assert!(!doc_parses(source), "{source:?} reads");
}

fn doc_parses(source: &str) -> bool {
    Host::new(source).document().is_ok()
}

/// Does `js` hold `part`, formatting aside?
fn holds(js: &str, part: &str) -> bool {
    squeeze(js).contains(&squeeze(part))
}

/// Does a document read, and collide with nothing that the lowering emits?
fn doc_lowers_clean(source: &str) -> bool {
    let nodes = Host::new(source).document().unwrap();
    check_reserved_collisions(source, &nodes, Surface::Hyperscript).is_empty()
}

const CANONICAL_NOTA: &str = r#"%let Colorized = inlineComponent((children) => {
  let [color, setColor] = useState("red");
  return @span[onClick: () => setColor("green")][style: {color}]{@children};
})

@for (x of ["a", "b"]) {
  - @Colorized{@x}
}
"#;

const CANONICAL_STAGE3: &str = r#"export default function Doc() {
  let Colorized = inlineComponent((children) => {
    let [color, setColor] = useState("red");
    return h("span", { onClick: () => setColor("green"), style: { color } }, [children]);
  }, "Colorized");
  return decode(Fragment(["a", "b"].map((x, _i) => Fragment({ key: _i }, h("nota-ul-li", {}, [h(Colorized, {}, [x])])))));
}"#;

#[test]
fn host_element_text() {
    nota_expr("@p{Hello}", r#"h("p", {}, ["Hello"])"#);
    nota_expr("@em{hi}", r#"h("em", {}, ["hi"])"#);
}

#[test]
fn component_element() {
    nota_expr("@Aside{hi}", r#"h(Aside, {}, ["hi"])"#);
    nota_expr("@Unknown{}", r"h(Unknown, {}, [])");
}

#[test]
fn empty_body_is_no_children() {
    nota_expr("@p{}", r#"h("p", {}, [])"#);
    nota_expr("@input{}", r#"h("input", {}, [])"#);
}

#[test]
fn nested_children() {
    nota_expr("@p{Hello @em{world}}", r#"h("p", {}, ["Hello ", h("em", {}, ["world"])])"#);
}

#[test]
fn fragment() {
    nota_expr("@{one @b{two}}", r#"Fragment("one ", h("b", {}, ["two"]))"#);
    nota_expr("@{x}", r#"Fragment("x")"#);
}

#[test]
fn interpolation() {
    nota_expr("@p{@name}", r#"h("p", {}, [name])"#);
    nota_expr("@p{@(user.posts[0])}", r#"h("p", {}, [user.posts[0]])"#);
    nota_expr("@p{@(a + b)}", r#"h("p", {}, [a + b])"#);
}

#[test]
fn interpolation_in_text() {
    nota_expr("@p{x @name y}", r#"h("p", {}, ["x ", name, " y"])"#);
}

#[test]
fn head_boundary_dispatch() {

    nota_expr("@p{@(a + b)c}", r#"h("p", {}, [a + b, "c"])"#);
    nota_expr("@p{@(a + b) c}", r#"h("p", {}, [a + b, " c"])"#);
    nota_expr("@(a + b)", "a + b");

    nota_expr("@(Box){hi}", r#"h(Box, {}, ["hi"])"#);
    nota_expr("@p{@(Box) x}", r#"h("p", {}, [Box, " x"])"#);

    nota_expr("@p{@foo bar}", r#"h("p", {}, [foo, " bar"])"#);
    nota_expr("@p{@foo{x}}", r#"h("p", {}, [h("foo", {}, ["x"])])"#);
}

#[test]
fn props_string_and_expr() {
    nota_expr(r#"@a[href:"/x"]{go}"#, r#"h("a", { href: "/x" }, ["go"])"#);
    nota_expr("@a[href:url]{go}", r#"h("a", { href: url }, ["go"])"#);
}

#[test]
fn props_shorthand_and_spread() {
    nota_expr("@input[disabled, ...rest]{}", r#"h("input", { disabled, ...rest }, [])"#);
}

#[test]
fn props_markup_valued() {
    nota_expr("@fig[cap:@em{hi}]{x}", r#"h("fig", { cap: h("em", {}, ["hi"]) }, ["x"])"#);
}

#[test]
fn props_multiple_groups_accumulate() {
    nota_expr("@a[href:url][title:t]{go}", r#"h("a", { href: url, title: t }, ["go"])"#);
}

#[test]
fn self_closing_with_props_no_body() {
    nota_expr("@hr[class:c]", r#"h("hr", { class: c }, [])"#);
}

#[test]
fn dynamic_tag_direct() {
    nota_expr("@(Box){hi}", r#"h(Box, {}, ["hi"])"#);
    nota_expr("@(ui.Card){hi}", r#"h(ui.Card, {}, ["hi"])"#);
    nota_expr("@(getTag()){hi}", r#"h(getTag(), {}, ["hi"])"#);
}

#[test]
fn dynamic_tag_with_props() {
    nota_expr("@(comps[k])[x:1]{hi}", r#"h(comps[k], { x: 1 }, ["hi"])"#);
}

#[test]
fn balanced_braces_are_literal() {
    nota_expr("@code{f{o}o}", r#"h("code", {}, ["f{o}o"])"#);
}

#[test]
fn self_closing_props_group_then_raw_markup() {
    nota_expr(r#"@p{@br[]\x rest}"#, r#"h("p", {}, [h("br", {}, []), "x rest"])"#);
}

#[test]
fn props_then_verbatim_body() {
    nota_expr(
        r#"@CodeBlock[lang: "hello"]|{some code}|"#,
        r#"h(CodeBlock, { lang: "hello" }, [String.raw`some code`])"#,
    );
    nota_expr(
        r#"@CodeBlock[lang: "hello"][foo: 1]|{code}|"#,
        r#"h(CodeBlock, { lang: "hello", foo: 1 }, [String.raw`code`])"#,
    );
}

#[test]
fn self_closing_props_then_bare_pipe_is_literal() {
    nota_expr(r#"@p{@hr[class:c]|x}"#, r#"h("p", {}, [h("hr", { class: c }, []), "|x"])"#);
}

#[test]
fn props_then_colon_body() {
    assert_js_eq(
        &nota_doc("@aside[class: \"x\"]: styled aside\n"),
        r#"export default function Doc() {
            return decode(Fragment(h("aside", { class: "x" }, ["styled aside"])));
        }"#,
    );
    assert_js_eq(
        &nota_doc("@aside[class: \"x\"][id: y]: body\n"),
        r#"export default function Doc() {
            return decode(Fragment(h("aside", { class: "x", id: y }, ["body"])));
        }"#,
    );
    assert_js_eq(
        &nota_doc("@FootnoteText[label: \"n2\"]: def two\n"),
        r#"export default function Doc() {
            return decode(Fragment(h(FootnoteText, { label: "n2" }, ["def two"])));
        }"#,
    );
}

#[test]
fn props_colon_body_parity_with_bare_colon() {
    let doc = |props: &str, children: &str| {
        format!(
            "export default function Doc() {{ return decode(Fragment(h(\"aside\", {{{props}}}, [{children}]))); }}"
        )
    };
    let children = r#""one ", h("em", {}, ["two"])"#;
    assert_js_eq(&nota_doc("@aside: one @em{two}\n"), &doc("", children));
    assert_js_eq(&nota_doc("@aside[class: \"x\"]: one @em{two}\n"), &doc("class: \"x\"", children));
}

#[test]
fn props_colon_dead_gate_is_literal() {
    nota_expr("@{x @a[p: 1]: y}", r#"Fragment("x ", h("a", { p: 1 }, []), ": y")"#);
}

#[test]
fn props_colon_and_verbatim_coexist() {
    assert_js_eq(
        &nota_doc("@CodeBlock[lang: \"python\"]|{f(x)}|\n\n@aside[class: \"x\"]: note\n"),
        r#"export default function Doc() {
            return decode(Fragment(
                h(CodeBlock, { lang: "python" }, [String.raw`f(x)`]),
                "\n", "\n",
                h("aside", { class: "x" }, ["note"])
            ));
        }"#,
    );
}

#[test]
fn math_armed_paren_then_raw_tex() {
    assert_js_eq(
        &nota_doc(r"$|@(x) \frac{a}{b}$"),
        r"export default function Doc() {
  return decode(Fragment(h(Tex, {}, [x, String.raw` \frac{a}{b}`])));
}",
    );
    assert!(nota_doc(r"$@(x) \frac{a}{b}$").contains(r"@(x) \frac{a}{b}"));
}

#[test]
fn verbatim_interp_then_raw_backslash() {
    nota_expr(r#"@pre|{a |@x \b}|"#, r#"h("pre", {}, [String.raw`a `, x, String.raw` \b`])"#);
}

#[test]
fn verbatim_element_then_raw_backslash() {
    nota_expr(
        r#"@pre|{|@em{x} \raw}|"#,
        r#"h("pre", {}, [h("em", {}, ["x"]), String.raw` \raw`])"#,
    );
}

#[test]
fn ws_single_line_spaces_kept() {
    nota_expr("@foo{ bar }", r#"h("foo", {}, [" bar "])"#);
}

#[test]
fn ws_leading_trailing_newline_dropped() {
    nota_expr("@foo{\n  bar\n}", r#"h("foo", {}, ["bar"])"#);
}

#[test]
fn ws_interior_indent_and_newlines() {
    nota_expr(
        "@foo{\n  begin\n    x\n  end}",
        r#"h("foo", {}, ["begin", "\n", "  x", "\n", "end"])"#,
    );
}

#[test]
fn ws_blank_line_is_two_newlines() {
    nota_expr("@foo{\n  bar\n\n  baz\n}", r#"h("foo", {}, ["bar", "\n", "\n", "baz"])"#);
}

#[test]
fn ws_leading_and_trailing_blank_lines() {
    nota_expr("@foo{\n\n  bar\n\n}", r#"h("foo", {}, ["\n", "bar", "\n"])"#);
}

#[test]
fn ws_body_only_newlines() {
    nota_expr("@foo{\n}", r#"h("foo", {}, ["\n"])"#);
    nota_expr("@foo{\n\n\n}", r#"h("foo", {}, ["\n", "\n", "\n"])"#);
}

#[test]
fn ws_common_indent_strip_keeps_leftover() {
    nota_expr(
        "@foo{bar\n       baz\n     bbb}",
        r#"h("foo", {}, ["bar", "\n", "  baz", "\n", "bbb"])"#,
    );
}

#[test]
fn ws_element_on_following_line() {
    nota_expr(
        "@foo{bar @baz{3}\n     blah}",
        r#"h("foo", {}, ["bar ", h("baz", {}, ["3"]), "\n", "blah"])"#,
    );
}

#[test]
fn ws_nested_element_independent() {
    nota_expr(
        "@text{Some @b{bold\n  text}, and\n  more text.}",
        r#"h("text", {}, ["Some ", h("b", {}, ["bold", "\n", "text"]), ", and", "\n", "more text."])"#,
    );
}

#[test]
fn doc_basic() {
    let js = nota_doc("@h1{Hello}\n@p{Welcome to @em{Nota}.}\n");
    assert_js_eq(
        &js,
        r#"export default function Doc() {
  return decode(Fragment(h("h1", {}, ["Hello"]), "\n", h("p", {}, ["Welcome to ", h("em", {}, ["Nota"]), "."])));
}"#,
    );
}

#[test]
fn doc_import_hoisted() {
    let js = nota_doc("% import { load } from \"./posts\"\n@h1{Posts}\n");
    assert!(js.starts_with("import { load } from \"./posts\";"), "{js}");
    assert!(js.contains("export default function Doc()"), "{js}");
}

#[test]
fn doc_top_level_statement_prepended_no_iife() {
    let js = nota_doc("% const n = 3\n@p{@n}\n");
    assert!(js.contains("const n = 3;"), "{js}");
    assert!(!js.contains("=> {"), "{js}");
}

#[test]
fn doc_fence_statements() {
    let js = nota_doc("%%%\nconst a = 1;\nconst b = 2;\n%%%\n@p{@a@b}\n");
    assert!(js.contains("const a = 1;"), "{js}");
    assert!(js.contains("const b = 2;"), "{js}");
}

#[test]
fn doc_component_binding_stays_document_local_with_name() {
    let js = nota_doc("%const Card = inlineComponent((children) => @span{@children})\n@Card{hi}\n");
    assert!(!js.contains("export const Card"), "{js}");
    assert!(!js.contains("export let Card"), "{js}");
    let doc_pos = js.find("export default function Doc()").expect("Doc present");
    let bind_pos = js.find("const Card = inlineComponent").expect("binding present");
    assert!(bind_pos > doc_pos, "{js}");
    assert!(js.contains(r#", "Card")"#), "{js}");
}

#[test]
fn doc_export_component_binding_keeps_export_and_gets_name() {
    let js =
        nota_doc("%export let Card = inlineComponent((children) => @span{@children})\n@Card{hi}\n");
    assert!(js.contains("export let Card = inlineComponent"), "{js}");
    assert!(js.contains(r#", "Card")"#), "{js}");
    assert!(!js.contains(r#"decode(h("span""#), "{js}");
}

#[test]
fn colon_sugar_inline() {
    nota_expr("@{@foo: hello world}", r#"Fragment(h("foo", {}, ["hello world"]))"#);
    nota_expr("@{x @foo: hi}", r#"Fragment("x ", foo, ": hi")"#);
}

#[test]
fn colon_positional_mid_body_is_dead() {
    nota_expr("@{*foo @Bar: baz*}", r#"Fragment(h("strong", {}, ["foo ", Bar, ": baz"]))"#);
    nota_expr("@{x @a: y}", r#"Fragment("x ", a, ": y")"#);
    assert!(nota_doc("x @a: y\n").contains(r#"Fragment("x ", a, ": y")"#));
}

#[test]
fn colon_positional_line_start_fires() {
    nota_expr("@p{@a: b}", r#"h("p", {}, [h("a", {}, ["b"])])"#);
    nota_expr("@{@a: @b: c}", r#"Fragment(h("a", {}, [h("b", {}, ["c"])]))"#);
    assert!(nota_doc("@Cap: hi\n").contains(r#"h(Cap, {}, ["hi"])"#));
    assert!(nota_doc("@(t): hi\n").contains(r#"h(t, {}, ["hi"])"#));
}

#[test]
fn colon_indented_line_start_in_braced_body_fires() {
    assert!(nota_doc("@p{\n  @a: b\n}\n").contains(r#"h("p", {}, [h("a", {}, ["b"])])"#));
}

#[test]
fn colon_bounded_clip_at_range_end() {
    nota_expr("@{*@a: bar* rest}", r#"Fragment(h("strong", {}, [h("a", {}, ["bar"])]), " rest")"#);
    let js = nota_doc("# @a: t\ncont\n");
    assert!(js.contains(r#"h(Heading, { rank: 1 }, [h("a", {}, ["t"])])"#), "{js}");
    assert!(js.contains(r#""cont""#), "{js}");
}

#[test]
fn colon_hyphen_head_agrees_with_the_gate() {
    nota_expr("@{t @my-foo: bar}", r#"Fragment("t ", my, "-foo: bar")"#);
    assert!(nota_doc("@my-foo: bar\n").contains(r#"h("my-foo", {}, ["bar"])"#));
}

#[test]
fn colon_dead_in_js_host_is_a_parse_error() {
    nota_doc_err("% let x = @foo: y\n");
    nota_doc_err("@p[k: @foo: bar]{x}\n");
}

#[test]
fn colon_body_brace_handling() {
    assert!(nota_doc("@def: a } b\n").contains(r#"["a } b"]"#));
    assert!(nota_doc("@def: a \\} b\n").contains(r#"["a } b"]"#));
    assert!(nota_doc("@p{@a: b}\n").contains(r#"h("p", {}, [h("a", {}, ["b"])])"#));
}

#[test]
fn colon_body_props_string_brace_does_not_clip() {
    nota_expr(
        "@p{@a: @f[x: \"}\"] y}",
        r#"h("p", {}, [h("a", {}, [h("f", { x: "}" }, []), " y"])])"#,
    );
}

#[test]
fn err_unterminated_body() {
    nota_expr_err("@p{hello");
}

#[test]
fn err_unterminated_props() {
    nota_expr_err("@a[href:url{x}");
}

#[test]
fn err_bad_head() {
    nota_expr_err("@");
    nota_expr_err("@%{x}");
}

#[test]
fn err_unterminated_dynamic_head() {
    nota_expr_err("@(getTag(){x}");
}

#[test]
fn err_unterminated_fence() {
    nota_doc_err("%%%\nconst a = 1;\n@p{hi}\n");
}

#[test]
fn unknown_component_is_not_a_reader_error() {
    nota_expr("@Unknown{x}", r#"h(Unknown, {}, ["x"])"#);
}

#[test]
fn if_single_branch() {
    nota_expr("@if (c) {a}", r#"c ? Fragment("a") : null"#);
    nota_expr("@if(c){a}", r#"c ? Fragment("a") : null"#);
}

#[test]
fn if_else() {
    nota_expr("@if (c) {a} else {b}", r#"c ? Fragment("a") : Fragment("b")"#);
}

#[test]
fn if_else_if() {
    nota_expr("@if (c) {a} else if (d) {b}", r#"c ? Fragment("a") : d ? Fragment("b") : null"#);
}

#[test]
fn if_else_if_else() {
    nota_expr(
        "@if (c) {a} else if (d) {b} else {e}",
        r#"c ? Fragment("a") : d ? Fragment("b") : Fragment("e")"#,
    );
}

#[test]
fn if_branch_with_markup_and_interp() {
    nota_expr("@if (c) {Hi @em{@name}}", r#"c ? Fragment("Hi ", h("em", {}, [name])) : null"#);
}

#[test]
fn if_condition_is_arbitrary_expr() {
    nota_expr("@if (a && b.c) {x}", r#"a && b.c ? Fragment("x") : null"#);
}

#[test]
fn else_only_continues_as_next_token() {
    nota_expr(
        "@{@if (c) {a}\n\nelse text}",
        r#"Fragment(c ? Fragment("a") : null, "\n", "\n", "else text")"#,
    );
}

#[test]
fn else_adjacent_continues() {
    nota_expr("@if (c) {a}\nelse {b}", r#"c ? Fragment("a") : Fragment("b")"#);
}

#[test]
fn escaped_else_is_literal() {
    let js = nota_expr_raw("@{@if (c) {a} \\else text}");
    assert!(js.contains(r#"Fragment("a") : null"#), "{js}");
    assert!(js.contains("else text") || js.contains(r"\else text"), "{js}");
}

#[test]
fn if_nested_in_for() {
    nota_expr(
        "@for (x of xs) {@if (x) {@x}}",
        r"xs.map((x, _i) => Fragment({ key: _i }, x ? Fragment(x) : null))",
    );
}

#[test]
fn for_basic() {
    nota_expr(
        "@for (x of y) {@li{@x}}",
        r#"y.map((x, _i) => Fragment({ key: _i }, h("li", {}, [x])))"#,
    );
}

#[test]
fn for_array_literal_iter() {
    nota_expr(
        r#"@for (x of ["a", "b"]) {@x}"#,
        r#"["a", "b"].map((x, _i) => Fragment({ key: _i }, x))"#,
    );
}

#[test]
fn for_destructuring_bind() {
    nota_expr(
        "@for ([k, v] of pairs) {@k = @v}",
        r#"pairs.map(([k, v], _i) => Fragment({ key: _i }, k, " = ", v))"#,
    );
    nota_expr(
        "@for ({ id } of items) {@id}",
        r"items.map(({ id }, _i) => Fragment({ key: _i }, id))",
    );
}

#[test]
fn for_multi_child_body() {
    nota_expr(
        "@for (x of xs) {@b{@x} done}",
        r#"xs.map((x, _i) => Fragment({ key: _i }, h("b", {}, [x]), " done"))"#,
    );
}

#[test]
fn control_flow_nested_in_markup_body() {
    nota_expr(
        "@ul{@for (x of xs) {@li{@x}}}",
        r#"h("ul", {}, [xs.map((x, _i) => Fragment({ key: _i }, h("li", {}, [x])))])"#,
    );
}

#[test]
fn err_for_without_of() {
    nota_expr_err("@for (let i = 0; i < n; i++) {x}");
}

#[test]
fn err_if_without_body() {
    nota_expr_err("@if (c) a");
}

#[test]
fn err_for_without_body() {
    nota_expr_err("@for (x of xs) x");
}

#[test]
fn emphasis_strong() {
    nota_expr("@p{*bold*}", r#"h("p", {}, [h("strong", {}, ["bold"])])"#);
}

#[test]
fn emphasis_em() {
    nota_expr("@p{_italic_}", r#"h("p", {}, [h("em", {}, ["italic"])])"#);
}

#[test]
fn emphasis_nested() {
    nota_expr(
        "@p{*a _b_ c*}",
        r#"h("p", {}, [h("strong", {}, ["a ", h("em", {}, ["b"]), " c"])])"#,
    );
}

#[test]
fn emphasis_intra_word_is_literal() {
    nota_expr("@p{my_var_name}", r#"h("p", {}, ["my_var_name"])"#);
    nota_expr("@p{a*b*c}", r#"h("p", {}, ["a*b*c"])"#);
}

#[test]
fn emphasis_with_surrounding_text() {
    nota_expr("@p{say *hi* there}", r#"h("p", {}, ["say ", h("strong", {}, ["hi"]), " there"])"#);
}

#[test]
fn emphasis_contains_interpolation() {
    nota_expr("@p{*@name*}", r#"h("p", {}, [h("strong", {}, [name])])"#);
}

#[test]
fn emphasis_unbalanced_is_literal() {
    nota_expr("@p{a * b}", r#"h("p", {}, ["a * b"])"#);
}

#[test]
fn escaped_emphasis_marker_is_literal() {
    let js = nota_expr_raw(r"@p{\*not bold\*}");
    assert!(!js.contains(r#"h("strong""#), "{js}");
    assert!(js.contains(r#""*not bold*""#), "{js}");
}

#[test]
fn escaped_hash_dash_at_line_start_not_construct() {
    let js = nota_doc("\\# not a heading\n\\- not a list\n");
    assert!(!js.contains("h(Heading"), "{js}");
    assert!(!js.contains(r#"h("nota-ul-li""#), "{js}");
}

#[test]
fn emphasis_at_document_level() {
    let js = nota_doc("Some *bold* and _italic_ text.\n");
    assert!(js.contains(r#"h("strong", {}, ["bold"])"#), "{js}");
    assert!(js.contains(r#"h("em", {}, ["italic"])"#), "{js}");
}

#[test]
fn emphasis_clamps_at_newline() {
    let js = nota_doc("*foo\nbar*\n");
    assert!(!js.contains(r#"h("strong""#), "{js}");
    assert!(js.contains("*foo"), "{js}");
    assert!(js.contains("bar*"), "{js}");
}

#[test]
fn heading_h1() {
    let js = nota_doc("# Title\n");
    assert!(js.contains(r#"h(Heading, { rank: 1 }, ["Title"])"#), "{js}");
}

#[test]
fn heading_levels() {
    let js = nota_doc("### Sub *bit*\n");
    assert!(js.contains(r#"h(Heading, { rank: 3 }, ["Sub ", h("strong", {}, ["bit"])])"#), "{js}");
}

#[test]
fn heading_all_six_levels() {
    let js = nota_doc("# a\n## b\n### c\n#### d\n##### e\n###### f\n");
    for (n, body) in [(1, "a"), (2, "b"), (3, "c"), (4, "d"), (5, "e"), (6, "f")] {
        assert!(js.contains(&format!(r#"h(Heading, {{ rank: {n} }}, ["{body}"])"#)), "{js}");
    }
}

#[test]
fn heading_seven_hashes_is_not_heading() {
    let js = nota_doc("####### too many\n");
    assert!(!js.contains("rank: 7"), "{js}");
    assert!(!js.contains("h(Heading"), "{js}");
}

#[test]
fn hash_without_space_is_literal() {
    let js = nota_doc("#tag here\n");
    assert!(!js.contains("h(Heading"), "{js}");
}

#[test]
fn heading_sugar_relowers_but_raw_element_stays_host() {
    let js = nota_doc("# Sugar\n@h2{Raw}\n");
    assert!(js.contains(r#"h(Heading, { rank: 1 }, ["Sugar"])"#), "{js}");
    assert!(js.contains(r#"h("h2", {}, ["Raw"])"#), "{js}");
    assert!(!js.contains(r#"h("h1""#), "{js}");
    assert!(!js.contains("rank: 2"), "{js}");
}

#[test]
fn list_bullet() {
    let js = nota_doc("- a\n- b\n");
    assert!(js.contains(r#"h("nota-ul-li", {}, ["a"])"#), "{js}");
    assert!(js.contains(r#"h("nota-ul-li", {}, ["b"])"#), "{js}");
}

#[test]
fn list_number() {
    let js = nota_doc("+ first\n+ second\n");
    assert!(js.contains(r#"h("nota-ol-li", {}, ["first"])"#), "{js}");
    assert!(js.contains(r#"h("nota-ol-li", {}, ["second"])"#), "{js}");
}

#[test]
fn list_explicit_number_marker() {
    let js = nota_doc("1. one\n2. two\n");
    assert!(js.contains(r#"h("nota-ol-li", {}, ["one"])"#), "{js}");
    assert!(js.contains(r#"h("nota-ol-li", {}, ["two"])"#), "{js}");
}

#[test]
fn list_item_with_markup() {
    let js = nota_doc("- a *bold* item\n");
    assert_js_eq(
        &js,
        r#"export default function Doc() {
  return decode(Fragment(h("nota-ul-li", {}, ["a ", h("strong", {}, ["bold"]), " item"])));
}"#,
    );
}

#[test]
fn list_nested() {
    let js = nota_doc("- a\n  - b\n  - c\n");
    assert_js_eq(
        &js,
        r#"export default function Doc() {
  return decode(Fragment(h("nota-ul-li", {}, ["a", "\n", h("nota-ul-li", {}, ["b"]), h("nota-ul-li", {}, ["c"])])));
}"#,
    );
}

#[test]
fn list_continuation_line() {
    let js = nota_doc("- first line\n  continued\n");
    assert!(js.contains("first line"), "{js}");
    assert!(js.contains("continued"), "{js}");
    assert_eq!(js.matches(r#"h("nota-ul-li""#).count(), 1, "{js}");
}

#[test]
fn dash_without_space_is_literal() {
    let js = nota_doc("-5 degrees\n");
    assert!(!js.contains(r#"h("nota-ul-li""#), "{js}");
}

#[test]
fn line_start_sugar_chains_after_a_construct() {
    assert!(nota_doc("- a\n- b\n# After\n").contains(r#"h(Heading, { rank: 1 }, ["After"])"#));
    assert!(nota_doc("intro\n- a\n# After\n").contains(r#"h(Heading, { rank: 1 }, ["After"])"#));
    assert!(nota_doc("%%%\nconst x = 1;\n%%%\n# Title\n")
            .contains(r#"h(Heading, { rank: 1 }, ["Title"])"#));
    assert!(nota_doc("%%%\nconst x = 1;\n%%%\n- item\n").contains(r#"h("nota-ul-li", {}, ["item"])"#));
}

#[test]
fn line_start_sugar_after_a_colon_block() {
    assert!(nota_doc("@section:\n  body\n# After\n").contains(r#"h(Heading, { rank: 1 }, ["After"])"#));
    assert!(nota_doc("@summary: inline\n# After\n").contains(r#"h(Heading, { rank: 1 }, ["After"])"#));
    assert!(nota_doc("@section:\n  body\n\n# After\n")
            .contains(r#"h(Heading, { rank: 1 }, ["After"])"#));
    assert!(nota_doc("@section:\n  body\n\n- item\n").contains(r#"h("nota-ul-li", {}, ["item"])"#));
    assert!(nota_doc("@section:\n  body\n% const n = 1\n@p{@n}\n").contains("const n = 1"));
    let js = nota_doc("@section:\n  a\n\n  b\n\n# After\n");
    assert!(js.contains(r#"h(Heading, { rank: 1 }, ["After"])"#), "{js}");
    assert_eq!(js.matches(r#"h("section""#).count(), 1, "{js}");
    assert!(js.contains("\"a\"") && js.contains("\"b\""), "{js}");
}

#[test]
fn body_start_is_a_line_start() {

    let js = nota_doc("% let Foo = () => @{- You're beautiful.}\n\n- You don't know\n@Foo{}\n");
    assert!(js.contains(r#"let Foo = () => Fragment(h("nota-ul-li", {}, ["You're beautiful."]))"#), "{js}");

    assert!(nota_doc("@div{- a}\n").contains(r#"h("div", {}, [h("nota-ul-li", {}, ["a"])])"#));
    assert!(nota_doc("@div{\n- a\n- b}\n").contains(r#"h("nota-ul-li", {}, ["b"])"#));
    assert!(nota_doc("@div{# T}\n").contains(r#"h(Heading, { rank: 1 }, ["T"])"#));
    assert!(nota_doc("@foo: - a\n").contains(r#"h("nota-ul-li", {}, ["a"])"#));
    assert!(nota_doc("x *- y* z\n").contains(r#"h("strong", {}, [h("nota-ul-li", {}, ["y"])])"#));
    let js = nota_doc("a {- b} c\n");
    assert!(!js.contains("nota-ul-li"), "{js}");
    assert!(nota_doc("@div{- a {b} c}\n").contains(r#"["a {b} c"]"#));
}

#[test]
fn docstate_label_row() {
    nota_expr("@{<sec_intro>}", r#"Fragment(h(Label, { id: "sec_intro" }, []))"#);
}

#[test]
fn docstate_ref_row() {
    nota_expr(
        "@{see &sec_intro, ok}",
        r#"Fragment("see ", h(Ref, { id: "sec_intro" }, []), ", ok")"#,
    );
}

#[test]
fn docstate_footnote_mark_row() {
    nota_expr("@{text[^note1]}", r#"Fragment("text", h(FootnoteMark, { label: "note1" }, []))"#);
}

#[test]
fn docstate_footnote_text_row() {
    let js = nota_doc("[^note1]: See *also* now\n");
    assert_js_eq(
        &js,
        r#"export default function Doc() {
            return decode(Fragment(h(FootnoteText, { label: "note1" }, ["See ", h("strong", {}, ["also"]), " now"])));
        }"#,
    );
}

#[test]
fn docstate_footnote_text_is_line_start_only() {
    let js = nota_doc("see [^x]: here\n");
    assert!(js.contains(r#"h(FootnoteMark, { label: "x" }, [])"#), "{js}");
    assert!(!js.contains("FootnoteText"), "{js}");
    assert!(js.contains(r#"": here""#), "{js}");
}

#[test]
fn docstate_footnote_text_colon_extent() {
    let js = nota_doc("[^n]: first\n  cont\n\nafter para\n");
    assert_js_eq(
        &js,
        r#"export default function Doc() {
            return decode(Fragment(h(FootnoteText, { label: "n" }, ["first", "\n", "  cont"]), "after para"));
        }"#,
    );
}

#[test]
fn docstate_footnote_text_at_body_start_clips_at_brace() {
    let js = nota_expr_raw("@p{[^n]: note}");
    assert!(js.contains(r#"h(FootnoteText, { label: "n" }, ["note"])"#), "{js}");
}

#[test]
fn docstate_left_boundary_guard_positives() {
    let js = nota_doc("a (<x>) \"<y>\" '&z' [&w]\n");
    assert!(js.contains(r#"h(Label, { id: "x" }, [])"#), "{js}");
    assert!(js.contains(r#"h(Label, { id: "y" }, [])"#), "{js}");
    assert!(js.contains(r#"h(Ref, { id: "z" }, [])"#), "{js}");
    assert!(js.contains(r#"h(Ref, { id: "w" }, [])"#), "{js}");
}

#[test]
fn docstate_fires_at_body_and_bounded_starts() {
    nota_expr(
        "@{*<a>* x}",
        r#"Fragment(h("strong", {}, [h(Label, { id: "a" }, [])]), " x")"#,
    );
    nota_expr("@p{<b>}", r#"h("p", {}, [h(Label, { id: "b" }, [])])"#);
    let js = nota_doc("# Intro <sec_intro>\n");
    assert!(js.contains(r#"h(Heading, { rank: 1 }, ["Intro ", h(Label, { id: "sec_intro" }, [])])"#), "{js}");
}

#[test]
fn docstate_clips_at_bounded_frame_end() {
    let js = nota_doc("q _<abc_>_\n");
    assert!(!js.contains("h(Label"), "{js}");
    assert!(js.contains(r#"h("em", {}, ["<abc"])"#), "{js}");

    let js = nota_doc("*[^x]: y* z\n");
    assert!(js.contains(r#"h("strong", {}, [h(FootnoteText, { label: "x" }, ["y"])])"#), "{js}");
    assert!(js.contains(r#"" z""#), "{js}");
}

#[test]
fn docstate_escapes_are_literal() {
    let js = nota_doc("\\<sec> \\&ref \\[^n]\n");
    for sugar in ["h(Label", "h(Ref", "h(FootnoteMark", "h(FootnoteText"] {
        assert!(!js.contains(sugar), "{js}");
    }
    assert!(js.contains("<sec> &ref [^n]"), "{js}");
}

#[test]
fn docstate_raw_spans_and_embedded_js_stay_raw() {
    nota_expr("@{`a <x> &y [^z]`}", r"Fragment(h(CodeInline, {}, [String.raw`a <x> &y [^z]`]))");
    nota_expr("@{$m <x> &y$}", r"Fragment(h(Tex, {}, [String.raw`m <x> &y`]))");
    nota_expr("@code|{<x> &y}|", r#"h("code", {}, [String.raw`<x> &y`])"#);
    nota_expr("@a[x: 1 < 2, y: p & q]{}", r#"h("a", { x: 1 < 2, y: p & q }, [])"#);
}

#[test]
fn docstate_unclosed_label_is_literal() {
    let js = nota_doc("a <abc\nand b> c\n");
    assert!(!js.contains("h(Label"), "{js}");
    assert!(js.contains("a <abc"), "{js}");
}

#[test]
fn docstate_mixed_document() {
    let js = nota_doc(
        "# Intro <sec_intro>\n\nSee &sec_intro for Vec<T> and R&D details[^note1].\n\n\
         [^note1]: The *fine* print.\n",
    );
    assert_js_eq(
        &js,
        r#"export default function Doc() {
            return decode(Fragment(
                h(Heading, { rank: 1 }, ["Intro ", h(Label, { id: "sec_intro" }, [])]),
                "\n", "\n",
                "See ", h(Ref, { id: "sec_intro" }, []),
                " for Vec<T> and R&D details", h(FootnoteMark, { label: "note1" }, []), ".",
                "\n", "\n",
                h(FootnoteText, { label: "note1" }, ["The ", h("strong", {}, ["fine"]), " print."])
            ));
        }"#,
    );
}

#[test]
fn percent_statement_region_rules() {

    assert!(nota_doc("% const x = 1;\n- item\n").contains(r#"h("nota-ul-li", {}, ["item"])"#));
    assert!(nota_doc("% const x = 1;\n# Head\n").contains(r#"h(Heading, { rank: 1 }, ["Head"])"#));

    let js = nota_doc("% const x = 1\n\n- item\n");
    assert!(js.contains("const x = 1;"), "{js}");
    assert!(js.contains(r#"h("nota-ul-li", {}, ["item"])"#), "{js}");
    assert!(nota_doc("% const x = 1\n\n# Head\n").contains(r#"h(Heading, { rank: 1 }, ["Head"])"#));

    let js = nota_doc("% a(); b();\nprose\n");
    assert!(js.contains("a();") && js.contains("b();"), "{js}");

    assert!(nota_doc("% const x = 1\nprose\n").contains("\"prose\""));
    assert!(holds(&nota_doc("% const x = 1\n- item\n"), "const x = 1 - item;"));

    nota_doc_err("% const x = foo(\n\n)\nprose\n");
    nota_doc_err("% const x = 1; trailing text\nprose\n");
}

#[test]
fn canonical_golden_matches_stage3() {
    let js = nota_doc(CANONICAL_NOTA);
    assert_js_eq(&js, CANONICAL_STAGE3);
}

#[test]
fn canonical_golden_minus_phase_d_is_valid() {
    let src = r"%let Colorized = inlineComponent((children) => {
  return @span[style: {color}]{@children};
})

@Colorized{a}
";
    let js = nota_doc(src);
    assert!(js.contains(r"inlineComponent((children) => {"), "{js}");
    assert!(holds(&js, r#"return h("span", { style: { color } }, [children]);"#), "{js}");
    assert!(!js.contains(r#"decode(h("span""#), "{js}");
    assert!(js.contains(r#", "Colorized")"#), "{js}");
    assert!(js.contains(r#"h(Colorized, {}, ["a"])"#), "{js}");
    assert!(!js.contains("export let Colorized"), "{js}");
}

#[test]
fn doc_percent_literal_midline() {
    let js = nota_doc("@p{Tax is 50% today}\n");
    assert!(js.contains(r#""Tax is 50% today""#), "{js}");
}

#[test]
fn doc_backslash_percent_line_start_not_statement() {
    let js = emit_doc_unchecked("\\% literal\n");
    assert!(!js.contains("export let"), "{js}");
    assert!(js.contains("Fragment("), "{js}");
}

#[test]
fn nested_percent_statement_wraps_rest_in_iife() {
    let js = nota_expr_raw("@aside{\n  Intro.\n  % const n = count()\n  @p{@n items}\n}");
    assert!(js.contains("const n = count();"), "{js}");
    assert!(js.contains("=> {"), "{js}");
    assert!(js.contains("return Fragment("), "{js}");
    assert!(js.contains("Intro."), "{js}");
}

#[test]
fn doc_paragraph_break_is_double_newline() {
    let js = nota_doc("@p{one}\n\n@p{two}\n");
    assert!(js.contains(r#""\n", "\n""#), "{js}");
}

#[test]
fn escape_general_chars_literal_backslash_dropped() {
    nota_expr(r"@p{\@}", r#"h("p", {}, ["@"])"#);
    nota_expr(r"@p{\{}", r#"h("p", {}, ["{"])"#);
    nota_expr(r"@p{\}}", r#"h("p", {}, ["}"])"#);
    nota_expr(r"@p{\$}", r#"h("p", {}, ["$"])"#);
    nota_expr(r"@p{\|}", r#"h("p", {}, ["|"])"#);
    nota_expr(r"@p{a\\b}", r#"h("p", {}, ["a\\b"])"#);
}

#[test]
fn escape_star_keeps_literal_no_marker() {
    nota_expr(r"@p{\*hi\*}", r#"h("p", {}, ["*hi*"])"#);
    nota_expr(r"@p{a \_b\_ c}", r#"h("p", {}, ["a _b_ c"])"#);
}

#[test]
fn escape_backtick_and_at_in_prose() {
    nota_expr(r"@p{see \@foo}", r#"h("p", {}, ["see @foo"])"#);
    nota_expr(r"@p{a \` b}", r#"h("p", {}, ["a ` b"])"#);
}

#[test]
fn verbatim_raw_body() {
    nota_expr(r"@code|{@foo{x}}|", r#"h("code", {}, [String.raw`@foo{x}`])"#);
}

#[test]
fn verbatim_keeps_backslash_and_braces() {
    nota_expr(r"@code|{a\b {c} d}|", r#"h("code", {}, [String.raw`a\b {c} d`])"#);
}

#[test]
fn verbatim_armed_reentry() {
    let src = "@code|{\ndef f(x):\n    return |@hl{x}\n}|";
    nota_expr(src, "h(\"code\", {}, [String.raw`def f(x):\n    return `, h(\"hl\", {}, [\"x\"])])");
}

#[test]
fn verbatim_armed_then_following_content() {
    let js = nota_doc("## one\n\n@pre|{\nx |@name y\n}|\n\n## two\n");
    assert!(js.contains(r#"h(Heading, { rank: 2 }, ["one"])"#), "{js}");
    assert!(js.contains("String.raw`x `"), "{js}");
    assert!(js.contains(r#"h(Heading, { rank: 2 }, ["two"])"#), "{js}");
    let js = nota_doc("@pre|{ |@b{c} }|\ntail text\n");
    assert!(js.contains(r#"h("b", {}, ["c"])"#), "{js}");
    assert!(js.contains("tail text"), "{js}");
}

#[test]
fn verbatim_component_tag() {
    nota_expr(r"@Pre|{x@y}|", r"h(Pre, {}, [String.raw`x@y`])");
}

#[test]
fn verbatim_braces_literal_not_close() {
    nota_expr(r"@code|{ {a} {b} }|", r#"h("code", {}, [String.raw` {a} {b} `])"#);
}

#[test]
fn verbatim_armed_interpolation() {
    nota_expr(r"@code|{a|@x b}|", r#"h("code", {}, [String.raw`a`, x, String.raw` b`])"#);
}

#[test]
fn code_inline() {
    nota_expr("@p{`@x`}", r#"h("p", {}, [h(CodeInline, {}, [String.raw`@x`])])"#);
    nota_expr("@p{`a + b`}", r#"h("p", {}, [h(CodeInline, {}, [String.raw`a + b`])])"#);
}

#[test]
fn code_inline_keeps_backslash() {
    nota_expr(r"@p{`a\n`}", r#"h("p", {}, [h(CodeInline, {}, [String.raw`a\n`])])"#);
}

#[test]
fn code_inline_unterminated_is_literal() {
    nota_expr("@p{a ` b}", r#"h("p", {}, ["a ` b"])"#);
}

#[test]
fn code_inline_clamps_at_newline() {
    let js = nota_doc("- `foo\n- bar`\n");
    assert!(!js.contains("CodeInline"), "{js}");
    assert!(js.contains(r#"h("nota-ul-li", {}, ["`foo"])"#), "{js}");
    assert!(js.contains(r#"h("nota-ul-li", {}, ["bar`"])"#), "{js}");
}

#[test]
fn code_fenced_with_lang() {
    let src = "@d{```python\nf(x)\n```}";
    nota_expr(src, r#"h("d", {}, [h(CodeBlock, { lang: "python" }, [String.raw`f(x)`])])"#);
}

#[test]
fn code_fenced_no_lang() {
    let src = "@d{```\nf(x)\n```}";
    nota_expr(src, r#"h("d", {}, [h(CodeBlock, {}, [String.raw`f(x)`])])"#);
}

#[test]
fn code_fenced_multiline_body() {
    let src = "@d{```\nline 1\nline 2\n```}";
    nota_expr(src, "h(\"d\", {}, [h(CodeBlock, {}, [String.raw`line 1\nline 2`])])");
}

#[test]
fn code_inline_armed_form() {
    nota_expr(
        "@p{`a |@em{x} b`}",
        r#"h("p", {}, [h(CodeInline, {}, [String.raw`a `, h("em", {}, ["x"]), String.raw` b`])])"#,
    );
}

#[test]
fn code_fenced_armed_on_body_line() {
    let src = "@d{```python\ndef |@f{g}\n```}";
    nota_expr(
        src,
        r#"h("d", {}, [h(CodeBlock, { lang: "python" }, [String.raw`def `, h("f", {}, ["g"])])])"#,
    );
}

#[test]
fn math_inline_plain() {
    nota_expr(r"@p{$x^2$}", r#"h("p", {}, [h(Tex, {}, [String.raw`x^2`])])"#);
}

#[test]
fn math_inline_at_is_literal() {
    nota_expr(r"@p{$a_@i$}", r#"h("p", {}, [h(Tex, {}, [String.raw`a_@i`])])"#);
    nota_expr(r"@p{$E = @energy$}", r#"h("p", {}, [h(Tex, {}, [String.raw`E = @energy`])])"#);
}

#[test]
fn math_inline_armed_interp() {
    nota_expr(r"@p{$a_|@i$}", r#"h("p", {}, [h(Tex, {}, [String.raw`a_`, i])])"#);
    nota_expr(r"@p{$E = |@energy$}", r#"h("p", {}, [h(Tex, {}, [String.raw`E = `, energy])])"#);
}

#[test]
fn math_keeps_latex_backslash() {
    nota_expr(r"@p{$\sum x$}", r#"h("p", {}, [h(Tex, {}, [String.raw`\sum x`])])"#);
    nota_expr(r"@p{$a \@ b$}", r#"h("p", {}, [h(Tex, {}, [String.raw`a \@ b`])])"#);
    nota_expr(r"@p{$a \$ b$}", r#"h("p", {}, [h(Tex, {}, [String.raw`a \$ b`])])"#);
    nota_expr(r"@p{$x\$$}", r#"h("p", {}, [h(Tex, {}, [String.raw`x\$`])])"#);
}

#[test]
fn math_display_fence() {
    let src = "@p{$$\n\\sum x\n$$}";
    nota_expr(src, "h(\"p\", {}, [h(Tex, { display: true }, [String.raw`\\sum x`])])");
    let src = "@p{$$\n\\sum_|@n x\n$$}";
    nota_expr(
        src,
        "h(\"p\", {}, [h(Tex, { display: true }, [String.raw`\\sum_`, n, String.raw` x`])])",
    );
}

#[test]
fn math_dollar_dollar_in_paragraph_is_inline_run2() {
    nota_expr(r"@p{$$x^2$$}", r#"h("p", {}, [h(Tex, {}, [String.raw`x^2`])])"#);
    nota_expr(r"@p{$$a$b$$}", r#"h("p", {}, [h(Tex, {}, [String.raw`a$b`])])"#);
}

#[test]
fn math_run_length_ge_rule() {
    nota_expr(
        r"@p{$a$$b$}",
        r#"h("p", {}, [h(Tex, {}, [String.raw`a`]), h(Tex, {}, [String.raw`b`])])"#,
    );
    nota_expr(r"@p{$$a$$}", r#"h("p", {}, [h(Tex, {}, [String.raw`a`])])"#);
}

#[test]
fn math_armed_paren_expr() {
    nota_expr(r"@p{$a_|@(i + 1)$}", r#"h("p", {}, [h(Tex, {}, [String.raw`a_`, i + 1])])"#);
}

#[test]
fn math_armed_interp_with_template_breaker_falls_back_to_cooked() {
    let js = nota_expr_raw("@p{$a`b_|@i$}");
    assert!(!js.contains("String.raw`a`b_`"), "{js}");
    assert_js_eq(&js, r#"h("p", {}, [h(Tex, {}, ["a`b_", i])])"#);
}

#[test]
fn dollar_unterminated_is_literal() {
    nota_expr(r"@p{costs $5 today}", r#"h("p", {}, ["costs $5 today"])"#);
}

#[test]
fn math_inline_clamps_at_newline() {
    let js = nota_doc("$a\nb$\n");
    assert!(!js.contains("h(Tex"), "{js}");
    assert!(js.contains("$a"), "{js}");
}

#[test]
fn escape_full_list() {
    nota_expr(r"@p{\:}", r#"h("p", {}, [":"])"#);
    nota_expr(r"@p{\[}", r#"h("p", {}, ["["])"#);
    nota_expr(r"@p{\]}", r#"h("p", {}, ["]"])"#);
    nota_expr(r"@p{\_}", r#"h("p", {}, ["_"])"#);
}

#[test]
fn escape_colon_in_body_is_literal() {
    nota_expr(r"@p{a\: b}", r#"h("p", {}, ["a: b"])"#);
}

#[test]
fn verbatim_validity_with_backtick_in_raw() {
    let js = nota_expr_raw("@code|{a `b` c}|");
    assert!(!js.contains("String.raw"), "{js}");
    assert!(js.contains("`b`") && !js.contains(r"\`"), "{js}");
}

#[test]
fn math_dollar_brace_validity() {
    let js = nota_expr_raw(r"@p{$a ${b}$}");
    assert!(js.contains("h(Tex"), "{js}");
}

#[test]
fn doc_fenced_code_block() {
    let js = nota_doc("```python\nf(x)\n```\n");
    assert!(js.contains(r#"h(CodeBlock, { lang: "python" }, [String.raw`f(x)`])"#), "{js}");
}

#[test]
fn doc_inline_code_and_math() {
    let js = nota_doc("Use `f(x)` and $x^2$ here.\n");
    assert!(js.contains(r"h(CodeInline, {}, [String.raw`f(x)`])"), "{js}");
    assert!(js.contains(r"h(Tex, {}, [String.raw`x^2`])"), "{js}");
}

#[test]
fn doc_verbatim_block() {
    let js = nota_doc("@code|{@raw{stuff}}|\n");
    assert!(js.contains(r#"h("code", {}, [String.raw`@raw{stuff}`])"#), "{js}");
}

#[test]
fn doc_escape_line_start_percent_and_hash() {
    let js = nota_doc("\\% not a statement\n\\# not a heading\n");
    assert!(!js.contains("export let") && !js.contains("h(Heading"), "{js}");
    assert!(js.contains(r#""% not a statement""#), "{js}");
    assert!(js.contains(r##""# not a heading""##), "{js}");
}

#[test]
fn code_and_math_nest_in_emphasis() {
    nota_expr(
        "@p{*see `x`*}",
        r#"h("p", {}, [h("strong", {}, ["see ", h(CodeInline, {}, [String.raw`x`])])])"#,
    );
}

#[test]
fn verbatim_in_list_item() {
    let js = nota_doc("- item with `code`\n");
    assert!(js.contains(r"h(CodeInline, {}, [String.raw`code`])"), "{js}");
    assert!(js.contains(r#"h("nota-ul-li""#), "{js}");
}

#[test]
fn unterminated_verbatim_is_an_error() {
    nota_expr_err(r"@code|{ never closed");
}

#[test]
fn armed_form_overrunning_a_raw_span_is_an_error() {
    nota_doc_err("$a |@em{b$ c}$\n");
    nota_doc_err("$|@x|{a$b}|$\n");
    nota_doc_err("`a |@em{b`c}`\n");
}

#[test]
fn emphasis_close_skips_raw_spans() {
    nota_expr(
        "@p{*a `b * c` d*}",
        r#"h("p", {}, [h("strong", {}, ["a ", h(CodeInline, {}, [String.raw`b * c`]), " d"])])"#,
    );
    nota_expr(
        "@p{_x $a_b$ y_}",
        r#"h("p", {}, [h("em", {}, ["x ", h(Tex, {}, [String.raw`a_b`]), " y"])])"#,
    );
}

#[test]
fn emphasis_close_skips_embedded_expression() {
    nota_expr("@p{*a @(x * y) b*}", r#"h("p", {}, [h("strong", {}, ["a ", x * y, " b"])])"#);
    nota_expr("@p{_a @(b_c) d_}", r#"h("p", {}, [h("em", {}, ["a ", b_c, " d"])])"#);
}

#[test]
fn verbatim_unicode_and_backtick_preserved() {
    let js = nota_expr_raw("@code|{café `x` λ}|");
    assert!(js.contains("café") && js.contains("λ"), "{js}");
    assert!(js.contains("`x`"), "{js}");
    assert!(!js.contains(r"\`"), "{js}");
}

#[test]
fn phase_f_mixed_document_end_to_end() {
    let src = "\
# Demo

The fn `id` returns @em{x}; cost is \\$5 and $a_|@i$.

```rust
fn id(x: i32) -> i32 { x }
```

@figure|{verbatim @keep{raw}}|
";
    let js = nota_doc(src);
    assert!(js.contains(r#"h(Heading, { rank: 1 }, ["Demo"])"#), "{js}");
    assert!(js.contains(r"h(CodeInline, {}, [String.raw`id`])"), "{js}");
    assert!(js.contains(r"h(Tex, {}, [String.raw`a_`, i])"), "{js}");
    assert!(js.contains("cost is $5 and"), "{js}");
    assert!(js.contains(r#"h(CodeBlock, { lang: "rust" }"#), "{js}");
    assert!(js.contains(r#"h("figure", {}, [String.raw`verbatim @keep{raw}`])"#), "{js}");
}

#[test]
fn hyphenated_prop_key_should_emit_valid_js() {
    let js = emit_doc_unchecked("@a[\"data-x\": v]{y}\n");
    assert!(reparses(&js), "{js}");
}

#[test]
fn string_raw_should_not_corrupt_backtick_in_code() {
    let js = nota_expr_raw("@code|{a `x` b}|");
    assert!(!js.contains(r"\`"), "{js}");
}

#[test]
fn string_raw_should_not_corrupt_dollar_brace_in_code() {
    let js = nota_expr_raw("@code|{a ${b} c}|");
    assert!(!js.contains(r"\${"), "{js}");
}

#[test]
fn crlf_should_be_normalized() {
    let js = nota_doc("@p{line1\r\nline2}\r\n");
    assert!(!js.contains(r"\r"), "{js}");
}

#[test]
fn empty_emphasis_markers_should_be_literal() {
    let js = nota_expr_raw("@p{** __ ****}");
    assert!(!js.contains(r#"h("strong", {}, [])"#) && !js.contains(r#"h("em", {}, [])"#), "{js}");
}

#[test]
fn triple_emphasis_markers_should_not_make_empty_strongs() {
    let js = nota_expr_raw("@p{***benefit***}");
    assert!(!js.contains(r#"h("strong", {}, [])"#), "{js}");
}

#[test]
fn space_padded_emphasis_should_be_literal() {
    let js = nota_expr_raw("@p{* foo *}");
    assert!(!js.contains("strong"), "{js}");
}

#[test]
fn colon_sugar_props_line_should_not_break_dedent() {
    let js = nota_doc("@foo:\n  | x: 1\n  hello\n");
    assert!(js.contains(r#"["hello"]"#), "{js}");
}

#[test]
fn hyphenated_tag_should_be_a_host_tag() {
    let js = nota_doc("@my-widget{hi}\n");
    assert!(js.contains(r#"h("my-widget", {}, ["hi"])"#), "{js}");
}

#[test]
fn leading_bom_should_be_stripped() {
    let js = nota_doc("\u{feff}@p{after bom}\n");
    assert!(!js.contains('\u{feff}'), "{js}");
}

#[test]
fn head_adjacent_colon_escape_should_parse() {
    assert!(doc_parses("@foo\\: hello\n"));
}

#[test]
fn fuzz2_at_run_should_diagnose_not_panic() {
    assert!(!doc_parses("@@\n"));
}

#[test]
fn fuzz2_export_default_should_not_collide_with_doc() {
    assert!(!doc_lowers_clean("% export default 5\n@p{x}\n"));
}

#[test]
fn fuzz2_for_index_name_should_not_collide() {
    let js = emit_doc_unchecked("@for(_i of xs){@_i}\n");
    assert!(!js.contains("(_i, _i)"), "{js}");
}

#[test]
fn fuzz2_user_doc_binding_should_not_collide() {
    assert!(!doc_lowers_clean("%import Doc from \"./x\"\n@p{y}\n"));
}

#[test]
fn fuzz2_user_binding_should_not_shadow_runtime_h() {
    assert!(!doc_lowers_clean("%let h = 1\n@p{x}\n"));
}

#[test]
fn fuzz2_destructured_binding_should_be_diagnosed() {
    assert!(!doc_lowers_clean("%const { h } = lib\n@p{x}\n"));
    assert!(!doc_lowers_clean("%const [Doc] = xs\n@p{x}\n"));
    assert!(doc_lowers_clean("%const { x } = lib\n@p{@(x)}\n"));
}

#[test]
fn fuzz2_build_path_should_accept_embedded_ts() {
    assert!(doc_parses("% const n: number = 1\n@p{@(n)}\n"));
}

#[test]
fn fuzz2_generic_call_should_not_parse_as_comparison() {
    let js = nota_expr_raw("@(f<Foo>(x))");
    assert!(!js.contains("f < Foo"), "{js}");
}

#[test]
fn fuzz2_fence_bare_expression_should_parse() {
    assert!(doc_parses("%%%\nx\n%%%\n"));
}

#[test]
fn fuzz2_markup_after_fence_should_not_be_dropped() {
    let js = emit_doc_unchecked("%%%\nconst x = 1;\n%%%\n@p{hi}\n");
    assert!(js.contains("\"hi\""), "{js}");
}

#[test]
fn fuzz2_consecutive_percent_statements_should_parse() {
    assert!(doc_parses("% let a = 1\n% let b = 2\n@p{x}\n"));
}

#[test]
fn fuzz2_comment_only_percent_line_should_parse() {
    assert!(doc_parses("% // a comment\n@p{x}\n"));
}

#[test]
fn fuzz2_head_adjacent_colon_escape_should_parse() {
    assert!(doc_parses("@foo\\: hello\n"));
    assert!(doc_parses("@café\\: hello\n"));
}

#[test]
fn fuzz2_nested_list_dedent_should_not_duplicate() {
    let js = emit_doc_unchecked("- a\n  - b\n- c\n");
    assert_eq!(js.matches("[\"c\"]").count(), 1, "{js}");
}

#[test]
fn fuzz2_self_closing_props_should_not_drop_following_text() {
    let js = emit_doc_unchecked("@img[src: \"a\"] and text\n");
    assert!(js.contains("and"), "{js}");
}

#[test]
fn fuzz2_colon_block_should_recognize_line_start_sugar() {
    let js = emit_doc_unchecked("@section:\n  # Title\n  body\n");
    assert!(js.contains("h(Heading"), "{js}");
}

#[test]
fn fuzz2_colon_sugar_in_braced_body_should_parse() {
    assert!(doc_parses("@p{@a: b}\n"));
}

#[test]
fn fuzz2_document_first_line_indent_should_be_stripped() {
    let js = emit_doc_unchecked("  a\n  b\n");
    assert!(!js.contains("\"  a\""), "{js}");
}

#[test]
fn fuzz2_list_item_trailing_whitespace_should_be_trimmed() {
    let js = emit_doc_unchecked("- a  \n- b\n");
    assert!(!js.contains("\"a  \""), "{js}");
}

#[test]
fn fuzz2_blank_line_after_list_item_should_not_leave_newline() {
    let js = emit_doc_unchecked("- a\n- b\n\npara\n");
    assert!(!js.contains(r#"["b", "\n"]"#), "{js}");
}

#[test]
fn fuzz2_empty_list_item_should_not_have_stray_newline() {
    let js = emit_doc_unchecked("- \n");
    assert!(!js.contains(r#"["\n"]"#), "{js}");
}

#[test]
fn fuzz2_colon_body_should_drop_trailing_newline() {
    let js = emit_doc_unchecked("@foo:\n");
    assert!(!js.contains(r#"["\n"]"#), "{js}");
}

#[test]
fn fuzz2_bare_cr_should_be_normalized() {
    let js = emit_doc_unchecked("a\rb");
    assert!(!js.contains(r"\r"), "{js}");
}

#[test]
fn fuzz2_kept_indent_should_join_content() {
    let js = emit_doc_unchecked("@foo{\n  begin\n    x\n  end\n}");
    assert!(js.contains(r#""  x""#), "{js}");
}

#[test]
fn fuzz2_unicode_line_separator_should_break() {
    let js = emit_doc_unchecked("a\u{2028}b");
    assert!(js.contains(r#""a", "\n", "b""#), "{js}");
}

#[test]
fn fuzz2_control_flow_branch_should_trim_surrounding_space() {
    let js = nota_expr_raw("@if(x){ a }");
    assert!(!js.contains(r#"Fragment(" a ")"#), "{js}");
}

#[test]
fn fuzz2_indented_heading_should_be_recognized() {
    let js = emit_doc_unchecked("  # H\n");
    assert!(js.contains("h(Heading"), "{js}");
}

#[test]
fn fuzz2_tab_after_hash_should_be_a_heading() {
    let js = emit_doc_unchecked("#\tH\n");
    assert!(js.contains("h(Heading"), "{js}");
}

#[test]
fn fuzz2_fence_lang_should_be_first_token() {
    let js = emit_doc_unchecked("```js extra words\ncode\n```\n");
    assert!(!js.contains("extra words"), "{js}");
}

#[test]
fn fuzz2_text_node_should_have_a_source_span() {
    let nodes = Host::new("@p{Hello}").document().unwrap();
    assert!(matches!(nodes[0].kind, NodeKind::Element { .. }));
    let text = nodes[0].kids[1].kids.iter().find(|kid| kid.kind == NodeKind::Text).unwrap();
    assert!(text.span.start != 0 || text.span.end != 0);
    assert_eq!(text.span, Span::new(3, 8));
}

#[test]
fn fuzz2_component_name_should_use_binding_name() {
    let js = emit_doc_unchecked("%let C = inlineComponent((c) => @em{@c}, \"ZZZ\")\n\n@C{x}\n");
    assert!(!js.contains("\"ZZZ\""), "{js}");
}

/// What compiling a document gives, with its text as strings.
struct Out {
    code: String,
    fence_langs: Vec<String>,
    mappings: Vec<CodeMapping>,
    errors: Vec<NotaDiagnostic>,
    highlights: Vec<u32>,
}

/// Compile a document, for a build or for an editor.
fn compile_as(source: &str, surface: Surface, edit: bool) -> Result<Out, Vec<NotaDiagnostic>> {
    let mut host = Host::new(source);
    loop {
        let known = host.known();
        let compiled = if edit {
            nota::compile::analyze(source, &known, surface)
        } else {
            nota::compile::compile(source, &known, surface)
        };
        match compiled {
            Compiled::Done { output } => {
                return Ok(Out {
                    code: output.code,
                    fence_langs: output.fence_langs,
                    mappings: output.mappings,
                    errors: output.errors,
                    highlights: output.highlights,
                })
            }
            Compiled::Refused { errors } => return Err(errors),
            Compiled::Asks { query } => host.learn(query),
            Compiled::Finishes { module } => host.finish(module),
        }
    }
}

fn compile(source: &str) -> Result<Out, Vec<NotaDiagnostic>> {
    compile_as(source, Surface::Jsx, false)
}

fn analyze(source: &str) -> Out {
    match compile_as(source, Surface::Jsx, true) {
        Ok(out) => out,
        Err(_) => unreachable!(),
    }
}

/// Offset of the one place where `needle` stands.
fn offset_of(hay: &str, needle: &str) -> u32 {
    let i = hay.find(needle).unwrap();
    assert!(!hay[i + needle.len()..].contains(needle), "{needle} stands twice");
    i as u32
}

/// The one segment whose source offset is `src_off`.
fn segment_at(mappings: &[CodeMapping], src_off: u32) -> (u32, u32, MappingCapabilities) {
    let mut found = None;
    for m in mappings {
        for k in 0..m.source_offsets.len() {
            if m.source_offsets[k] == src_off {
                assert!(found.is_none());
                found = Some((m.generated_offsets[k], m.lengths[k], m.data));
            }
        }
    }
    found.unwrap()
}

fn is_mapped(mappings: &[CodeMapping], src_off: u32) -> bool {
    mappings.iter().any(|m| m.source_offsets.contains(&src_off))
}

/// Every segment is the same text on both sides.
fn assert_segments_byte_exact(src: &str, code: &str, mappings: &[CodeMapping]) {
    for m in mappings {
        for k in 0..m.source_offsets.len() {
            let so = m.source_offsets[k] as usize;
            let go = m.generated_offsets[k] as usize;
            let len = m.lengths[k] as usize;
            assert!(so + len <= src.len() && go + len <= code.len());
            assert_eq!(&src[so..so + len], &code[go..go + len]);
        }
    }
}

const CANONICAL_TYPED: &str = "%let Colorized = (props: { children?: unknown }) => {\n  let [color, setColor] = createSignal(\"red\");\n  return @span[onClick: () => setColor(\"green\")][style: {color: color()}]{@(props.children)};\n}\n\n@for (x of items) {\n  - @Colorized{@x}\n}\n";

fn recover_errors(source: &str) -> Vec<String> {
    analyze(source).errors.into_iter().map(|error| error.message).collect()
}

fn marks(src: &str) -> Vec<NotaMappingMark> {
    let nodes = Host::new(src).document().unwrap();
    NotaLowering::new(src, Surface::Jsx, true).lower_document_program(&nodes).mappings
}

fn off(src: &str, needle: &str) -> u32 {
    src.find(needle).unwrap() as u32
}

fn kind_at(marks: &[NotaMappingMark], start: u32) -> Option<NotaMappingKind> {
    marks.iter().find(|m| m.span.start == start).map(|m| m.kind)
}

/// Highlight a document.
fn paint(source: &str) -> Result<Vec<NotaHighlightSpan>, Vec<NotaDiagnostic>> {
    let mut host = Host::new(source);
    loop {
        match highlight_source(source, &host.known()) {
            Highlighted::Done { spans } => return Ok(spans),
            Highlighted::Refused { errors } => return Err(errors),
            Highlighted::Asks { query } => host.learn(query),
        }
    }
}

fn highlight(source: &str) -> Vec<NotaHighlightSpan> {
    paint(source).unwrap()
}

/// The highlighting of a document: kinds and what they cover, in paint order.
fn hl(source: &str) -> Vec<(K, String)> {
    highlight(source)
        .iter()
        .map(|s| (s.kind, source[s.start as usize..s.end as usize].to_string()))
        .collect()
}

fn has(spans: &[(K, String)], kind: K, text: &str) -> bool {
    spans.iter().any(|(k, t)| *k == kind && t == text)
}

#[test]
fn compile_basic_document() {
    let out = compile("@h1{Hello}\n").unwrap();
    assert!(out.code.contains("export default function Doc()"));
    assert!(out.code.contains(r#"<h1>{"Hello"}</h1>"#));
    assert!(out.code.contains("<NotaDoc>"));
}

#[test]
fn adjacent_text_coalesces_with_blank_line_marker() {
    let out = compile("one two\n\nthree four\n").unwrap();
    assert!(out.code.contains(r#"{"one two\n\nthree four"}"#));
}

#[test]
fn list_markers_emit_ulli_and_for_lowers_to_solid_for() {
    let out = compile("@for (x of xs) {\n  - @em{a @(x)}\n}\n").unwrap();
    assert!(out.code.contains("<For each={xs}>"));
    assert!(out.code.contains("<UlLi>"));
    assert!(out.code.contains("<em>"));
    assert!(!out.code.contains(".map("));
}

#[test]
fn flow_container_interiors_get_reforest() {
    let out = compile("@blockquote{quoted @em{prose}}\n@p{tight}\n").unwrap();
    assert!(out.code.contains("<blockquote><Reforest>"));
    assert!(out.code.contains(r#"<p>{"tight"}</p>"#));
}

#[test]
fn compile_reports_errors() {
    match compile("@p{unterminated") {
        Ok(_) => panic!("expected a diagnostic for an unterminated body"),
        Err(errors) => assert!(!errors.is_empty()),
    }
}

#[test]
fn compile_reports_reserved_name_collision() {
    for name in reserved_emit_names() {
        match compile(&format!("%let {name} = 1\n@p{{x}}\n")) {
            Ok(out) => panic!("{name}: {}", out.code),
            Err(errors) => {
                assert!(!errors.is_empty());
                assert!(errors[0].message.starts_with(&format!("`{name}` collides with")));
            }
        }
    }
    assert!(compile("%let h = 1\n@p{x}\n").is_ok());
    assert!(compile("%let mathset = () => 1\n@p{x}\n").is_ok());
}

#[test]
fn fence_langs_are_collected_sorted_and_deduplicated() {
    let out = compile(
        "```rust\nfn main() {}\n```\n\n```js\nlet x = 1\n```\n\n```rust\nfn f() {}\n```\n\n```wibble\n?\n```\n",
    ).unwrap();
    assert_eq!(out.fence_langs, vec!["js", "rust", "wibble"]);
}

#[test]
fn fence_langs_omit_untagged_fences_and_inline_code() {
    let out = compile("```\nplain\n```\n\nSome `inline` code.\n").unwrap();
    assert!(out.fence_langs.is_empty());
}

#[test]
fn fence_langs_exclude_the_explicit_code_block_form() {
    let out = compile("@CodeBlock[lang: \"python\"]|{f(x)}|\n").unwrap();
    assert!(out.fence_langs.is_empty());
}

#[test]
fn embedded_js_in_percent_statement_maps_with_full_caps() {
    let src = "% const n: number = count();\n@p{hi}\n";
    let out = analyze(src);

    assert!(out.code.contains(": number"));

    let count_src = offset_of(src, "count");
    let (g, len, caps) = segment_at(&out.mappings, count_src);
    assert_eq!(len, 5);
    assert_eq!(&out.code[g as usize..g as usize + 5], "count");
    assert_eq!(caps, MappingCapabilities::full());

    assert_segments_byte_exact(src, &out.code, &out.mappings);
}

#[test]
fn prop_expr_and_interpolation_map_with_full_caps() {
    let src = "@p[id: theId]{@(user) world}\n";
    let out = analyze(src);

    let (g, len, caps) = segment_at(&out.mappings, offset_of(src, "theId"));
    assert_eq!(len, "theId".len() as u32);
    assert_eq!(&out.code[g as usize..g as usize + len as usize], "theId");
    assert_eq!(caps, MappingCapabilities::full());

    let (g2, _, caps2) = segment_at(&out.mappings, offset_of(src, "user"));
    assert_eq!(&out.code[g2 as usize..g2 as usize + 4], "user");
    assert_eq!(caps2, MappingCapabilities::full());

    assert_segments_byte_exact(src, &out.code, &out.mappings);
}

#[test]
fn component_identifier_maps_with_navigation_hover_only() {
    let src = "@Aside{hi}\n";
    let out = analyze(src);

    let (g, len, caps) = segment_at(&out.mappings, offset_of(src, "Aside"));
    assert_eq!(len, "Aside".len() as u32);
    assert_eq!(&out.code[g as usize..g as usize + len as usize], "Aside");
    assert_eq!(caps, MappingCapabilities::navigation_hover());
    assert!(caps.navigation && caps.semantic && caps.verification);
    assert!(!caps.completion && !caps.format && !caps.structure);
}

#[test]
fn host_tag_and_generated_boilerplate_are_unmapped() {
    let src = "@p{@(x)}\n";
    let out = analyze(src);

    let p_src = 1u32;
    assert_eq!(&src[p_src as usize..=p_src as usize], "p");
    assert!(!is_mapped(&out.mappings, p_src));

    let x_src = offset_of(src, "x");
    assert!(is_mapped(&out.mappings, x_src));
    let mapped_count: usize = out.mappings.iter().map(|m| m.source_offsets.len()).sum();
    assert_eq!(mapped_count, 1);

    assert_segments_byte_exact(src, &out.code, &out.mappings);
}

#[test]
fn analysis_preserves_ts_annotation_and_frames_tsx() {
    let src = "% const n: number = count();\n@for (x of xs as string[]) {@x}\n";
    let out = analyze(src);

    assert!(out.code.contains(": number"));
    assert!(out.code.contains("as string[]"));

    let (g, _, caps) = segment_at(&out.mappings, offset_of(src, "count"));
    assert_eq!(&out.code[g as usize..g as usize + 5], "count");
    assert_eq!(caps, MappingCapabilities::full());
}

#[test]
fn round_trip_source_offset_inside_embedded_js() {
    let src = "@p[onClick: () => go()]{hi}\n";
    let out = analyze(src);

    let go_src = offset_of(src, "go()");
    let (g, _, caps) = segment_at(&out.mappings, go_src);
    assert_eq!(&out.code[g as usize..g as usize + 2], "go");
    assert_eq!(caps, MappingCapabilities::full());
    assert_eq!(out.code.as_bytes()[g as usize], b'g');
}

#[test]
fn canonical_golden_mappings_are_byte_exact() {
    let out = analyze(CANONICAL_TYPED);

    assert_segments_byte_exact(CANONICAL_TYPED, &out.code, &out.mappings);

    let colorized_tag = (CANONICAL_TYPED.find("@Colorized").unwrap() + 1) as u32;
    let (g, len, caps) = segment_at(&out.mappings, colorized_tag);
    assert_eq!(len, "Colorized".len() as u32);
    assert_eq!(&out.code[g as usize..g as usize + len as usize], "Colorized");
    assert_eq!(caps, MappingCapabilities::navigation_hover());

    let (gi, _, capsi) = segment_at(&out.mappings, offset_of(CANONICAL_TYPED, "items"));
    assert_eq!(&out.code[gi as usize..gi as usize + 5], "items");
    assert_eq!(capsi, MappingCapabilities::full());

    let colorized_decl = offset_of(CANONICAL_TYPED, "Colorized = ") as usize;
    let (gd, _, capsd) = segment_at(&out.mappings, colorized_decl as u32);
    assert_eq!(&out.code[gd as usize..gd as usize + "Colorized".len()], "Colorized");
    assert_eq!(capsd, MappingCapabilities::full());
}

#[test]
fn unclosed_props_group_yields_opening_tag_with_completion_anchor() {
    let out = analyze("@a[");

    assert!(out.code.contains("<a"));

    assert_eq!(out.errors.len(), 1);

    let anchor = out
        .mappings
        .iter()
        .find(|m| m.source_offsets == vec![3] && m.lengths == vec![0])
        .expect("props-completion anchor mapping present");
    assert!(anchor.data.completion);
    let g = anchor.generated_offsets[0] as usize;
    let before = &out.code[..g];
    assert!(before.ends_with("<a") || before.ends_with("<a "));
}

#[test]
fn well_formed_input_recovers_identically() {
    let out = analyze("@a[id: x]{ok}\n");
    assert!(out.errors.is_empty());
    assert!(!out.mappings.iter().any(|m| m.lengths == vec![0]));
}

#[test]
fn unclosed_body_keeps_children_and_reports() {
    let out = analyze("@p{unterminated");
    assert!(out.code.contains("\"unterminated\""));
    assert_eq!(out.errors.len(), 1);
}

#[test]
fn bare_at_drops_to_empty_fragment() {
    let out = analyze("@");
    assert_eq!(out.errors.len(), 1);
    assert!(out.code.contains("<></>"));
}

#[test]
fn reserved_name_collision_surfaces_as_diagnostic() {
    let out = analyze("%let NotaDoc = 1\n@p{x}\n");
    assert!(!out.errors.is_empty());
}

#[test]
fn unterminated_verbatim_recovers_framed_tsx() {
    let out = analyze("before\n@pre|{\nraw run");
    assert_eq!(out.errors.len(), 1);
    assert!(out.errors[0].message.contains("verbatim"));
    assert!(out.code.contains("export default function Doc()"));
    assert!(out.code.contains("<pre"));
}

#[test]
fn unterminated_fence_recovers_silently_with_statements() {
    let out = analyze("%%%\nconst x = 1\n");
    assert!(out.errors.is_empty());
    assert!(out.code.contains("export default function Doc()"));
    assert!(out.code.contains("const x = 1"));
}

#[test]
fn well_formed_input_recovers_without_errors() {
    assert!(recover_errors("@p{hi}\n").is_empty());
    assert!(recover_errors("Hi @em{x} and @Aside[k: 1]{y}.\n").is_empty());
}

#[test]
fn unclosed_props_group_reports_expected_bracket() {
    let errs = recover_errors("@a[");
    assert_eq!(errs.len(), 1);
    assert!(errs[0].contains('`') && errs[0].contains(']'));
}

#[test]
fn unclosed_body_reports_expected_brace() {
    let errs = recover_errors("@p{unterminated");
    assert_eq!(errs.len(), 1);
    assert!(errs[0].contains('}'));
}

#[test]
fn bare_at_reports_unexpected() {
    let errs = recover_errors("@");
    assert_eq!(errs.len(), 1);
}

#[test]
fn mid_document_unclosed_bracket_still_recovers() {
    let errs = recover_errors("before\n\n@a[");
    assert_eq!(errs.len(), 1);
}

#[test]
fn component_tag_is_component_identifier() {
    let src = "@Aside{hi}\n";
    let m = marks(src);
    assert_eq!(kind_at(&m, off(src, "Aside")), Some(NotaMappingKind::ComponentIdentifier));
}

#[test]
fn host_tag_is_not_marked() {
    let src = "@p{hi}\n";
    let m = marks(src);
    assert!(kind_at(&m, 1).is_none());
}

#[test]
fn interpolation_and_prop_and_statement_are_embedded_js() {
    let src = "% const n: number = x;\n@p[id: theId]{@(user)}\n";
    let m = marks(src);
    assert_eq!(kind_at(&m, off(src, "user")), Some(NotaMappingKind::EmbeddedJs));
    assert_eq!(kind_at(&m, off(src, "theId")), Some(NotaMappingKind::EmbeddedJs));
    assert_eq!(kind_at(&m, off(src, "const")), Some(NotaMappingKind::EmbeddedJs));
}

#[test]
fn for_head_binding_and_iterable_are_embedded_js() {
    let src = "@for (item of items) {@item}\n";
    let m = marks(src);
    assert_eq!(kind_at(&m, off(src, "item of")), Some(NotaMappingKind::EmbeddedJs));
    assert_eq!(kind_at(&m, off(src, "items")), Some(NotaMappingKind::EmbeddedJs));
}

#[test]
fn marks_are_source_ordered() {
    let src = "@p[a: x][b: y]{@(z)}\n";
    let m = marks(src);
    let starts: Vec<u32> = m.iter().map(|mk| mk.span.start).collect();
    let mut sorted = starts.clone();
    sorted.sort_unstable();
    assert_eq!(starts, sorted);
}

#[test]
fn collect_flag_off_yields_no_marks() {
    let src = "@p[id: theId]{@(user)}\n";
    let nodes = Host::new(src).document().unwrap();
    let lowering = NotaLowering::new(src, Surface::Jsx, false);
    assert!(lowering.lower_document_program(&nodes).mappings.is_empty());
}

#[test]
fn strike_and_thematic_break_spans() {
    let spans = hl("a ~~x~~ b\n\n---\n");
    assert!(has(&spans, K::EmphasisStrike, "~~x~~"));
    assert!(has(&spans, K::Sigil, "~~"));
    assert!(has(&spans, K::ListMarker, "---"));
}

#[test]
fn markup_comments_are_comment_spans() {
    let spans = hl("a // note\n/* block\nstill */\nb\n");
    assert!(has(&spans, K::Comment, "// note"));
    assert!(has(&spans, K::Comment, "/* block\nstill */"));

    let spans = hl("% const x = 1; // js note\n@p{@x}\n");
    assert!(spans.iter().any(|(k, t)| *k == K::JsComment && t.contains("js note")));
    assert!(!spans.iter().any(|(k, t)| *k == K::Comment && t.contains("js note")));

    let spans = hl("a / b \\// c\n");
    assert!(!spans.iter().any(|(k, _)| *k == K::Comment));
}

#[test]
fn element_heads_props_and_interpolation() {
    let spans = hl("Hi @em{x}, @Aside[k: 1]{y}, and @name.\n");
    assert!(has(&spans, K::Sigil, "@"));
    assert!(has(&spans, K::TagHost, "em"));
    assert!(has(&spans, K::TagComponent, "Aside"));
    assert!(has(&spans, K::PropName, "k"));
    assert!(has(&spans, K::JsNumber, "1"));
    assert!(has(&spans, K::Interpolation, "name"));
}

#[test]
fn markup_valued_prop_does_not_poison_the_document() {
    let spans = hl("@figure[cap: @em{a caption}]{body}\n\n# After\n");
    assert!(has(&spans, K::TagHost, "figure"));
    assert!(has(&spans, K::PropName, "cap"));
    assert!(has(&spans, K::TagHost, "em"));
    assert!(has(&spans, K::Heading, "# After"));
    assert!(has(&spans, K::HeadingMarker, "#"));
    assert!(!spans
            .iter()
            .any(|(k, t)| matches!(k, K::JsKeyword | K::JsString) && t.contains("After")));
}

#[test]
fn stray_brackets_in_prose_stay_plain() {
    let spans = hl("see [1] and {2} here\n\n# H\n");
    assert!(has(&spans, K::Heading, "# H"));
    assert!(!spans.iter().any(|(k, _)| matches!(
        k,
        K::JsKeyword | K::JsString | K::JsNumber | K::JsOperator | K::PropName
    )));
}

#[test]
fn percent_statement_with_markup_reentry() {
    let src = "%let X = (c) => {\n  return @span[onClick: f]{@c};\n}\nprose\n";
    let spans = hl(src);
    assert!(has(&spans, K::Sigil, "%"));
    assert!(has(&spans, K::JsKeyword, "let"));
    assert!(has(&spans, K::JsKeyword, "return"));
    assert!(has(&spans, K::TagHost, "span"));
    assert!(has(&spans, K::PropName, "onClick"));
    assert!(has(&spans, K::Interpolation, "c"));
}

#[test]
fn fence_markers_and_heading_after() {
    let spans = hl("%%%\nconst x = 1; // note\n%%%\n\n# H\n");
    assert_eq!(spans.iter().filter(|(k, t)| *k == K::Sigil && t == "%%%").count(), 2);
    assert!(has(&spans, K::JsKeyword, "const"));
    assert!(has(&spans, K::JsComment, "// note"));
    assert!(has(&spans, K::Heading, "# H"));
}

#[test]
fn colon_block_with_pipe_props() {
    let spans = hl("@section:\n  | class: \"tip\"\n  | id: \"t\"\n  body *b*\n");
    assert!(has(&spans, K::TagHost, "section"));
    assert!(has(&spans, K::Sigil, ":"));
    assert_eq!(spans.iter().filter(|(k, t)| *k == K::Sigil && t == "|").count(), 2);
    assert!(has(&spans, K::PropName, "class"));
    assert!(has(&spans, K::PropName, "id"));
    assert!(has(&spans, K::JsString, "\"tip\""));
    assert!(has(&spans, K::JsString, "\"t\""));
    assert!(has(&spans, K::EmphasisStrong, "*b*"));
}

#[test]
fn body_start_list_marker() {
    let spans = hl("@{- item} and @div{- other}\n");
    assert_eq!(spans.iter().filter(|(k, t)| *k == K::ListMarker && t == "-").count(), 2);
}

#[test]
fn multi_statement_percent_line() {
    let spans = hl("% let a = 1; let b = 2;\nprose\n");
    assert_eq!(spans.iter().filter(|(k, t)| *k == K::Sigil && t == "%").count(), 1);
    assert_eq!(spans.iter().filter(|(k, t)| *k == K::JsKeyword && t == "let").count(), 2);
}

#[test]
fn heading_after_colon_block() {
    let spans = hl("@section:\n  body\n\n## After\n");
    assert!(has(&spans, K::Heading, "## After"));
    assert!(has(&spans, K::HeadingMarker, "##"));
}

#[test]
fn verbatim_with_rearm() {
    let spans = hl("@pre|{\nraw |@em{x} tail\n}|\n");
    assert!(has(&spans, K::TagHost, "pre"));
    assert!(has(&spans, K::Sigil, "|{"));
    assert!(has(&spans, K::Sigil, "}|"));
    assert!(has(&spans, K::Sigil, "|"));
    assert!(has(&spans, K::TagHost, "em"));
    assert!(spans.iter().any(|(k, t)| *k == K::Verbatim && t.contains("raw ")));
    assert!(spans.iter().any(|(k, t)| *k == K::Verbatim && t.contains(" tail")));
}

#[test]
fn verbatim_with_props() {
    let spans = hl("@CodeBlock[lang: \"py\"]|{\nraw |@em{x} tail\n}|\n");
    assert!(has(&spans, K::TagComponent, "CodeBlock"));
    assert!(has(&spans, K::PropName, "lang"));
    assert!(has(&spans, K::JsString, "\"py\""));
    assert!(has(&spans, K::Sigil, "|{"));
    assert!(has(&spans, K::Sigil, "}|"));
    assert!(has(&spans, K::TagHost, "em"));
    assert!(spans.iter().any(|(k, t)| *k == K::Verbatim && t.contains("raw ")));
    assert!(!spans.iter().any(|(k, t)| *k == K::Sigil && t.contains("py")));
}

#[test]
fn verbatim_with_chained_prop_groups() {
    let spans = hl("@CodeBlock[lang: \"py\"][foo: 1]|{raw}|\n");
    assert!(has(&spans, K::PropName, "lang"));
    assert!(has(&spans, K::PropName, "foo"));
    assert!(has(&spans, K::Sigil, "|{"));
    assert!(has(&spans, K::Sigil, "}|"));
    assert!(has(&spans, K::Verbatim, "raw"));
}

#[test]
fn content_after_armed_verbatim_still_classifies() {
    let spans = hl("## one\n\n@pre|{\nx |@name y\n}|\n\n## two\n");
    assert!(has(&spans, K::Heading, "## one"));
    assert!(has(&spans, K::Heading, "## two"));
}

#[test]
fn math_inline_armed_and_fence() {
    let spans = hl("$a_|@em{i}$ and $$\n\\sum x\n$$\n");
    assert!(has(&spans, K::MathDelim, "$"));
    assert!(has(&spans, K::Sigil, "|"));
    assert!(has(&spans, K::TagHost, "em"));
    assert!(spans.iter().any(|(k, t)| *k == K::Math && t.contains("a_")));
    assert!(spans.iter().any(|(k, t)| *k == K::Math && t.contains("\\sum x")));
    assert!(spans.iter().any(|(k, t)| *k == K::MathDelim && t.starts_with("$$")));
}

#[test]
fn code_inline_and_fenced() {
    let spans = hl("`f(x)` and\n```python\ndef g(): pass\n```\n");
    assert!(has(&spans, K::Code, "f(x)"));
    assert!(has(&spans, K::CodeLang, "python"));
    assert!(spans.iter().any(|(k, t)| *k == K::Code && t.contains("def g(): pass")));
    assert!(spans.iter().filter(|(k, _)| *k == K::CodeDelim).count() >= 4);
}

#[test]
fn style_element_body_is_css_text() {
    let spans = hl("@style{ color: red; }\n");
    assert!(has(&spans, K::TagHost, "style"));
    assert!(spans.iter().any(|(k, t)| *k == K::StyleText && t.contains("color: red")));
    let interp = hl("@style{ color: @c }\n");
    assert!(has(&interp, K::Interpolation, "c"));
    assert!(interp.iter().any(|(k, t)| *k == K::StyleText && t.contains("color")));
    let plain = hl("@div{ color: red }\n");
    assert!(!plain.iter().any(|(k, _)| *k == K::StyleText));
}

#[test]
fn headings_lists_emphasis() {
    let spans = hl("## Two *b*\n\n- a\n+ b\n2. c\n_i_\n");
    assert!(has(&spans, K::HeadingMarker, "##"));
    assert!(has(&spans, K::Heading, "## Two *b*"));
    assert!(has(&spans, K::EmphasisStrong, "*b*"));
    assert!(has(&spans, K::EmphasisEm, "_i_"));
    assert!(has(&spans, K::ListMarker, "-"));
    assert!(has(&spans, K::ListMarker, "+"));
    assert!(has(&spans, K::ListMarker, "2."));
}

#[test]
fn control_flow_keywords() {
    let spans = hl("@if (a > 1) {X} else if (b) {Y} else {Z}\n@for (x of xs) {@x}\n");
    assert!(has(&spans, K::ControlKeyword, "if"));
    assert!(has(&spans, K::ControlKeyword, "else"));
    assert!(has(&spans, K::ControlKeyword, "for"));
    assert!(has(&spans, K::ControlKeyword, "of"));
    assert!(has(&spans, K::JsNumber, "1"));
    assert!(has(&spans, K::Interpolation, "x"));
}

#[test]
fn escapes() {
    let spans = hl("Escapes: \\@ \\{ and \\\\.\n");
    assert!(has(&spans, K::Escape, "\\@"));
    assert!(has(&spans, K::Escape, "\\{"));
    assert!(has(&spans, K::Escape, "\\\\"));
}

#[test]
fn template_literals_in_props() {
    let spans = hl("@a[s: `x${y}z`]{t}\n");
    assert!(has(&spans, K::JsString, "`x${"));
    assert!(has(&spans, K::JsString, "}z`"));
    assert!(!has(&spans, K::JsString, "y"));
}

#[test]
fn js_operator_in_prop_value() {
    let spans = hl("@a[k: 1 + 2]{x}\n");
    assert!(has(&spans, K::JsOperator, "+"));
    assert!(has(&spans, K::JsNumber, "1"));
    assert!(has(&spans, K::JsNumber, "2"));
}

#[test]
fn trailing_attrs_group_spans() {
    let spans = hl("# T [id: \"x\"]\n");
    assert!(has(&spans, K::Heading, "# T [id: \"x\"]"));
    assert!(has(&spans, K::Sigil, "["));
    assert!(has(&spans, K::Sigil, "]"));
    assert!(has(&spans, K::PropName, "id"));
    assert!(has(&spans, K::JsString, "\"x\""));

    let spans = hl("some para [class: \"tip\"]\n");
    assert!(has(&spans, K::Sigil, "["));
    assert!(has(&spans, K::PropName, "class"));
    assert!(has(&spans, K::JsString, "\"tip\""));
}

#[test]
fn malformed_document_returns_err_not_partial_spans() {
    match paint("@p{") {
        Err(errors) => assert!(!errors.is_empty()),
        Ok(_) => panic!("malformed document must not yield spans"),
    }
}

#[test]
fn kind_all_is_in_discriminant_order() {
    for (i, kind) in K::all().iter().enumerate() {
        assert_eq!(*kind as usize, i);
        assert_eq!(kind.index() as usize, i);
    }
}

#[test]
fn docstate_ref_postfix_spans() {
    let spans = hl("see &k[page: \"33\"]{the *label*}\n");
    assert!(has(&spans, K::Sigil, "&"));
    assert!(has(&spans, K::Interpolation, "k"));
    assert!(has(&spans, K::PropName, "page"));
    assert!(has(&spans, K::JsString, "\"33\""));
    assert!(has(&spans, K::EmphasisStrong, "*label*"));
}

#[test]
fn docstate_literals_and_raw_spans_stay_plain() {
    let spans = hl("Vec<T> and R&D, a<b, a&b, < c, <->, &, [^ x]\n");
    assert!(!spans.iter().any(|(k, _)| matches!(k, K::Interpolation)));
    assert!(!has(&spans, K::Sigil, "<"));
    assert!(!has(&spans, K::Sigil, "&"));
    assert!(!has(&spans, K::Sigil, "[^"));

    let spans = hl("`a <x> &y [^z]` and $m <x> &y$\n");
    assert!(!spans.iter().any(|(k, _)| matches!(k, K::Interpolation)));
    assert!(has(&spans, K::Code, "a <x> &y [^z]"));
}

#[test]
fn spans_are_sorted_outer_first() {
    let src = "# H *b*\n\n%let x = 1\n@em{y}\n";
    let spans = highlight(src);
    for pair in spans.windows(2) {
        assert!(
            pair[0].start < pair[1].start
                || (pair[0].start == pair[1].start && pair[0].end >= pair[1].end)
        );
    }
}

#[test]
fn docstate_sigils_inside_words_are_text() {
    let js = nota_doc("Vec<T> and R&D, a<b, a&b, 1 < 2, < b, &, [^ x]\n");
    for sugar in ["h(Label", "h(Ref", "h(FootnoteMark", "h(FootnoteText"] {
        assert!(!js.contains(sugar), "{js}");
    }
    assert!(js.contains("Vec<T> and R&D, a<b, a&b, 1 < 2, < b, &, [^ x]"), "{js}");
}

#[test]
fn docstate_labels_start_with_a_digit_and_hold_hyphens() {
    nota_expr("@{<2x> &a-b}", r#"Fragment(h(Label, { id: "2x" }, []), " ", h(Ref, { id: "a-b" }, []))"#);
    nota_expr("@{&sec. and}", r#"Fragment(h(Ref, { id: "sec" }, []), ". and")"#);
}

#[test]
fn docstate_sugar_is_painted() {
    let spans = hl("<sec_a> then &sec_a here. &n1 done[^m]\n");
    assert!(has(&spans, K::Sigil, "<"));
    assert!(has(&spans, K::Sigil, ">"));
    assert!(has(&spans, K::Interpolation, "sec_a"));
    assert!(has(&spans, K::Sigil, "&"));
    assert!(has(&spans, K::Interpolation, "n1"));
    assert!(has(&spans, K::Sigil, "[^"));
    assert!(has(&spans, K::Interpolation, "m"));
    assert!(has(&spans, K::Sigil, "]"));
}

#[test]
fn trailing_attributes_belong_to_headings_items_and_paragraphs() {
    let out = compile("# Title [id: \"intro\"]\n\n- item [class: \"hot\", ...rest]\n\npara [k: v]\n").unwrap();
    assert!(out.code.contains(r#"<Heading rank={1} id="intro">{"Title"}</Heading>"#), "{}", out.code);
    assert!(out.code.contains(r#"<UlLi class="hot" {...rest}>{"item"}</UlLi>"#), "{}", out.code);
    assert!(out.code.contains(r#"<Attrs k={v} />"#), "{}", out.code);
    let js = nota_doc("# Title [id: \"intro\"]\n\n- item [class: c]\n\npara [k: v]\n");
    assert!(js.contains(r#"h(Heading, { rank: 1, id: "intro" }, ["Title"])"#), "{js}");
    assert!(js.contains(r#"h("nota-ul-li", { class: c }, ["item"])"#), "{js}");
    assert!(js.contains("h(Attrs, { k: v }, [])"), "{js}");
}

#[test]
fn a_group_that_does_not_trail_is_text() {
    let js = nota_doc("see [k: v] here and [just words]\n");
    assert!(js.contains("see [k: v] here and [just words]"), "{js}");
}

#[test]
fn references_take_glued_groups_and_a_body() {
    let out = compile("see &k[page: \"33\"]{the *label*} and &j [x]\n").unwrap();
    assert!(
        out.code.contains(r#"<Ref id="k" page="33">{"the "}<strong>{"label"}</strong></Ref>"#),
        "{}",
        out.code
    );
    assert!(out.code.contains(r#"<Ref id="j" />{" [x]"}"#), "{}", out.code);
    nota_expr("@{&k{b}}", r#"Fragment(h(Ref, { id: "k" }, ["b"]))"#);
    nota_expr("@{&k[a: 1]}", r#"Fragment(h(Ref, { id: "k", a: 1 }, []))"#);
}

/// The fault that stops the reading of a document.
fn fault(source: &str) -> Fault {
    match Host::new(source).document() {
        Ok(_) => panic!("{source:?} reads"),
        Err(fault) => fault,
    }
}

#[test]
fn every_fault_has_its_kind() {
    for (source, kind) in [
        ("@@\n", FaultKind::UnexpectedHead),
        ("@p{x\n", FaultKind::ExpectedBrace),
        ("@a[k: 1 {x}\n", FaultKind::ExpectedBracket),
        ("@a[", FaultKind::ExpectedBracket),
        ("@(a b)\n", FaultKind::ExpectedParen),
        ("@for x of y {z}\n", FaultKind::ExpectedParen),
        ("@a[\"k\"]{x}\n", FaultKind::ExpectedColon),
        ("@if (c) a\n", FaultKind::ControlExpectsBody),
        ("@for (x in y) {z}\n", FaultKind::ForExpectsOf),
        ("@code|{ x\n", FaultKind::UnterminatedVerbatim),
        ("a /* b\n", FaultKind::UnterminatedComment),
        ("@(a +)\n", FaultKind::InvalidJs { reason: 0 }),
    ] {
        assert_eq!(fault(source).kind, kind, "{source:?}");
        assert!(!fault_message(kind).is_empty());
    }
    assert_eq!(fault("ab @p{x\n").span, Span::new(8, 8));
    assert_eq!(fault("a /* b\n").span, Span::new(2, 7));
}

#[test]
fn a_blank_line_is_noted() {
    let broken = fault("% const x = foo(\n\n)\nprose\n");
    assert!(broken.at_blank_line);
    assert!(fault_note(broken).unwrap().starts_with("a blank line ends a `%` statement"));
    let other = fault("% const x = foo(\n% let y = 1\n");
    assert!(!other.at_blank_line);
    assert!(fault_note(other).is_none());
}

/// Every node below lies in `0..n`, and no text is empty.
fn check_spans(nodes: &[Node], n: u32) {
    for node in nodes {
        assert!(node.span.start <= n && node.span.end <= n, "{:?} {:?}", node.kind, node.span);
        if node.kind == NodeKind::Text || node.kind == NodeKind::Raw {
            assert!(node.span.start < node.span.end);
        }
        check_spans(&node.kids, n);
    }
}

#[test]
fn every_node_lies_in_the_source() {
    for source in [
        CANONICAL_NOTA,
        CANONICAL_TYPED,
        "",
        "\n",
        "# T *b* [id: \"x\"]\n\n- a\n  - b\n+ c\n\n[^n]: note\n  more\n\n---\n",
        "@p[a: 1, b, ...c]{x `y` $z$ [t](u) ![i](s) &r[k: v]{w} <l>}\n%%%\nlet q = 1\n%%%\n",
    ] {
        let nodes = Host::new(source).document().unwrap();
        check_spans(&nodes, source.len() as u32);
    }
}

#[test]
fn a_source_builds_exactly_if_an_editor_has_nothing_to_report() {
    for (source, clean) in [
        ("@p{x}\n", true),
        ("# T\n\n% let a = 1\n@(a)\n", true),
        ("@p{x", false),
        ("%let Doc = 1\n", false),
        ("% export default 1\n", false),
    ] {
        for surface in [Surface::Hyperscript, Surface::Jsx] {
            let edited = compile_as(source, surface, true).unwrap();
            assert_eq!(edited.errors.is_empty(), clean, "{source:?}");
            match compile_as(source, surface, false) {
                Ok(built) => {
                    assert!(clean, "{source:?}");
                    assert_eq!(built.code, edited.code);
                    assert!(built.mappings.is_empty() && built.highlights.is_empty());
                }
                Err(errors) => {
                    assert!(!clean, "{source:?}");
                    assert_eq!(errors[0].message, edited.errors[0].message);
                    assert_eq!(errors[0].start, edited.errors[0].start);
                }
            }
        }
    }
}

#[test]
fn default_exports_are_reported_where_they_stand() {
    let errors = compile("@p{x}\n% export default 5\n").err().unwrap();
    assert_eq!(errors.len(), 1);
    assert!(errors[0].message.contains("second default export"));
    assert_eq!((errors[0].start, errors[0].len), (8, 16));
}

#[test]
fn text_with_quotes_and_backslashes_reads_back() {
    nota_expr("@p{a \"b\" c\\\\d}", r#"h("p", {}, ["a \"b\" c\\d"])"#);
    nota_expr("@code|{`a\nb\"}|", r#"h("code", {}, ["`a\nb\""])"#);
}

#[test]
fn a_loop_index_steps_aside() {
    nota_expr(
        "@for (_i of _i_) {@_i}",
        "_i_.map((_i, _i__) => Fragment({ key: _i__ }, _i))",
    );
}

#[test]
fn sequences_and_conditionals_are_grouped() {
    nota_expr("@p{@(a, b)}", r#"h("p", {}, [(a, b)])"#);
    nota_expr("@for (x of a ? b : c) {x}", r#"(a ? b : c).map((x, _i) => Fragment({ key: _i }, "x"))"#);
    nota_expr("@if (a = b) {x}", r#"(a = b) ? Fragment("x") : null"#);
    assert!(nota_doc("% let x = 1 + @(a + b)\n").contains("let x = 1 + (a + b);"));
    assert!(nota_doc("% let x = !@if (a) {b}\n").contains(r#"let x = !(a ? Fragment("b") : null);"#));
}

#[test]
fn quoted_keys_stay_quoted_where_they_must() {
    nota_expr("@a[\"data-x\": v, \"k\": w]{y}", r#"h("a", { "data-x": v, k: w }, ["y"])"#);
}

#[test]
fn links_and_images() {
    nota_expr(
        "@p{[a *b*](/u\\)x) and ![alt](s.png)}",
        r#"h("p", {}, [h("a", { href: "/u)x" }, ["a ", h("strong", {}, ["b"])]), " and ", h("img", { src: "s.png", alt: "alt" }, [])])"#,
    );
    let out = compile("[t](/u?a&b) ![x](y)\n").unwrap();
    assert!(out.code.contains(r#"<a href={"/u?a&b"}>{"t"}</a>{" "}<img src="y" alt="x" />"#), "{}", out.code);
}

#[test]
fn tables_get_their_row_groups() {
    let source = "@table{\n  @thead{@tr{@th{a}}}\n  @tr{@td{b}}\n  @tr{@td{c}}\n}\n";
    let js = nota_doc(source);
    assert!(
        holds(&js, r#"h("table", {}, [h("thead", {}, [h("tr", {}, [h("th", {}, ["a"])])]), h("tbody", {}, [h("tr", {}, [h("td", {}, ["b"])]), h("tr", {}, [h("td", {}, ["c"])])])])"#),
        "{js}"
    );
    let out = compile(source).unwrap();
    assert!(
        out.code.contains(r#"<table><thead><tr><th><Reforest>{"a"}</Reforest></th></tr></thead><tbody><tr><td><Reforest>{"b"}</Reforest></td></tr><tr><td><Reforest>{"c"}</Reforest></td></tr></tbody></table>"#),
        "{}",
        out.code
    );
    assert!(compile("@table{\n}\n").unwrap().code.contains("<table />"));
}

#[test]
fn jsx_of_every_form() {
    let jsx = |source: &str| {
        let form = Host::new(source).expression().unwrap();
        String::from_utf8(Jsx { source }.expression(&form).code).unwrap()
    };
    assert_eq!(jsx("@p{}"), "<p />");
    assert_eq!(jsx("@p{a @(b) c}"), r#"<p>{"a "}{b}{" c"}</p>"#);
    assert_eq!(jsx("@p{a @(\"b\") c}"), r#"<p>{"a b c"}</p>"#);
    assert_eq!(jsx("@p{@(a, b)}"), "<p>{(a, b)}</p>");
    assert_eq!(jsx("@a[href:\"/x\", b, ...c, d: @em{e}, \"data-k\": 1]"), r#"<a href="/x" b={b} {...c} d={<em>{"e"}</em>} data-k={1} />"#);
    assert_eq!(jsx("@a[k: \"<x>\"]"), r#"<a k={"<x>"} />"#);
    assert_eq!(jsx("@(ui.Card)[k: v]{x}"), r#"<Dynamic component={ui.Card} k={v}>{"x"}</Dynamic>"#);
    assert_eq!(jsx("@Card{*b* _i_ ~~s~~}"), r#"<Card><strong>{"b"}</strong>{" "}<em>{"i"}</em>{" "}<s>{"s"}</s></Card>"#);
    assert_eq!(jsx("@{x @b{y}}"), r#"<>{"x "}<b>{"y"}</b></>"#);
    assert_eq!(jsx("@if (a) {b} else if (c) {d} else {e}"), r#"<Show when={a} fallback={<Show when={c} fallback={<>{"e"}</>}><>{"d"}</></Show>}><>{"b"}</></Show>"#);
    assert_eq!(jsx("@for ([k, v] of xs) {@k}"), "<For each={xs}>{([k, v]) => <>{k}</>}</For>");
    assert_eq!(jsx("@code|{a |@x `b`}|"), "<code>{String.raw`a `}{x}{\" `b`\"}</code>");
    assert_eq!(jsx("@{`c` $m$}"), "<><CodeInline>{String.raw`c`}</CodeInline>{\" \"}<Tex>{String.raw`m`}</Tex></>");
    assert_eq!(jsx("@{```js\nx\n```}"), "<><CodeBlock lang=\"js\">{String.raw`x`}</CodeBlock></>");
    assert_eq!(jsx("@{$$\nx\n$$}"), "<><Tex display>{String.raw`x`}</Tex></>");
    assert_eq!(jsx("@{<l> &r [^m]}"), r#"<><Label id="l" />{" "}<Ref id="r" />{" "}<FootnoteMark label="m" /></>"#);
    assert_eq!(jsx("@aside{x}"), "<aside><Reforest>{\"x\"}</Reforest></aside>");
    assert_eq!(jsx("@div{% let a = 1\n@(a)\n}"), "<div><Reforest>{(() => { let a = 1; return <>{a}</>; })()}</Reforest></div>");
}

#[test]
fn jsx_of_documents() {
    assert!(compile("").unwrap().code.contains("return <NotaDoc />;"));
    let out = compile("% import x from \"y\"\n% let a = @em{b}\n## T\n+ one\n\n[^n]: note\n").unwrap();
    assert!(out.code.starts_with("import x from \"y\";\nexport default function Doc() {\n  let a = <em>{\"b\"}</em>;\n"));
    assert!(out.code.contains("<Heading rank={2}>{\"T\"}</Heading>"), "{}", out.code);
    assert!(out.code.contains("<OlLi>{\"one\"}</OlLi>"), "{}", out.code);
    assert!(out.code.contains("<FootnoteText label=\"n\">{\"note\"}</FootnoteText>"), "{}", out.code);
}

#[test]
fn highlights_fit_the_source_and_name_their_kinds() {
    let source = "# H *b* [k: `a${b}c`]\n\n%let x = 1 /* c */ // d\n@em{y \\* `c`}\n";
    let spans = highlight(source);
    for span in &spans {
        assert!(span.start < span.end && span.end as usize <= source.len());
    }
    let flat = flatten(&spans);
    assert_eq!(flat.len(), 3 * spans.len());
    assert_eq!(flat[..3], [spans[0].start, spans[0].end, spans[0].kind.index()]);
    let painted = hl(source);
    assert!(has(&painted, K::JsString, "`a${"));
    assert!(has(&painted, K::JsString, "}c`"));
    assert!(has(&painted, K::JsComment, "/* c */"));
    assert!(has(&painted, K::JsComment, "// d"));
    assert!(has(&painted, K::Escape, "\\*"));
    let names = highlight_kind_names();
    assert_eq!(names.len(), 26);
    assert_eq!(names[0], "sigil");
    assert_eq!(names[K::JsOperator.index() as usize], "js-operator");
    assert_eq!(names[25], "emphasis-strike");
}

#[test]
fn braces_in_substitutions_are_counted() {
    let painted = hl("@a[s: `x${ {y: `${z}`} }w`]{t}\n");
    assert!(has(&painted, K::JsString, "`x${"));
    assert!(has(&painted, K::JsString, "`${"));
    assert!(has(&painted, K::JsString, "}`"));
    assert!(has(&painted, K::JsString, "}w`"));
    assert!(has(&painted, K::JsOperator, "{"));
    assert!(has(&painted, K::JsOperator, "}"));
}

#[test]
fn marks_of_a_form() {
    let source = "@Card[a: x]{@(y)}";
    let form = Host::new(source).expression().unwrap();
    let lowered = NotaLowering::new(source, Surface::Jsx, true).lower_expression(&form);
    let spans: Vec<(u32, u32)> =
        lowered.mappings.iter().map(|m| (m.span.start, m.span.end)).collect();
    assert_eq!(spans, vec![(1, 5), (9, 10), (14, 15)]);
    assert_eq!(lowered.mappings[0].kind, NotaMappingKind::ComponentIdentifier);
    assert!(lowered.diagnostics.is_empty());
    assert_eq!(lowered.output.code, b"<Card a={x}>{y}</Card>");
}

#[test]
fn the_surface_names_itself() {
    let surface = emit_surface();
    assert_eq!(surface.structural, ["NotaDoc", "Reforest", "UlLi", "OlLi", "Attrs"]);
    assert_eq!(surface.solid, ["For", "Show"]);
    assert_eq!(surface.solid_web, ["Dynamic"]);
    assert_eq!(surface.prelude, ["CodeInline", "CodeBlock", "Tex", "Heading", "Label", "Ref"]);
    assert_eq!(surface.reserved.len(), 15);
    assert_eq!(surface.reserved[0], "Doc");
    assert_eq!(surface.flow_tags.len(), 12);
    for name in &surface.reserved {
        assert!(is_reserved_emit_name(name));
    }
    assert!(!is_reserved_emit_name("h"));
    assert!(!is_reserved_emit_name("Do"));
    assert!(!is_reserved_emit_name(""));
}

#[test]
fn the_first_token_of_an_info_string_ends_at_any_white_space() {
    let out = compile("```js\u{a0}rest\nx\n```\n").unwrap();
    assert_eq!(out.fence_langs, vec!["js"]);
}

#[test]
fn lower_case_heads_follow_unicode_identifiers() {
    let js = emit_doc_unchecked("@\u{e9}t\u{e9}{x} @a\u{300}b\n");
    assert!(js.contains("h(\"\u{e9}t\u{e9}\", {}, [\"x\"]), \" \", a\u{300}b"), "{js}");
}

#[test]
fn free_names_are_those_of_values() {
    let name = |name: &str, is_value: bool| NameUse { name: name.to_string(), is_value };
    let uses = vec![
        name("secset", true),
        name("Foo", false),
        name("Tex", true),
        name("secset", false),
        name("Tex", true),
    ];
    assert_eq!(free_names(&uses), vec!["Tex", "secset"]);
    assert!(free_names(&vec![name("Foo", false)]).is_empty());
}

#[test]
fn plain_text_ends_at_a_sigil() {
    let token = next_markup_text("ab [c] *d", 0);
    assert_eq!((token.kind, token.start, token.end), (Kind::MarkupText, 0, 7));
    let token = next_markup_text("{x", 0);
    assert_eq!((token.start, token.end), (0, 0));
    let token = next_markup_text("xyz", 1);
    assert_eq!((token.start, token.end), (1, 3));
}

#[test]
fn line_classifiers_are_patterns() {
    let patterns = line_classifiers();
    assert_eq!(patterns.percent_line, r"^[ \t]*%");
    assert_eq!(patterns.list_marker, r"^([ \t]*)([-+]|[0-9]+\.) ");
    assert_eq!(patterns.prop_line, r"^[ \t]*\|");
}

#[test]
fn errors_carry_message_and_span() {
    let out = analyze("@p{unterminated");
    assert_eq!(out.errors.len(), 1);
    assert!(!out.errors[0].message.is_empty());
    assert_eq!((out.errors[0].start, out.errors[0].len), (15, 0));
    assert!(out.code.contains("export default function Doc()"));
}

#[test]
fn lines_after_a_statement_need_not_be_javascript() {
    for line in ["'Tis the season", "\\* plain", "\"open", "# Head", "don't"] {
        let out = compile(&format!("% const x = 1\n{line}\n")).unwrap();
        assert!(out.code.contains("const x = 1;"), "{}", out.code);
    }
    match compile("% const x = 1 'Tis\nprose\n") {
        Ok(out) => panic!("{}", out.code),
        Err(errors) => assert!(!errors.is_empty()),
    }
}

#[test]
fn a_further_statement_stands_on_the_same_line() {
    let out = compile("% a(); /* c */ b();\nc();\n").unwrap();
    assert!(out.code.contains("a();") && out.code.contains("b();"), "{}", out.code);
    assert!(out.code.contains("{\"c();\"}"), "{}", out.code);
}

#[test]
fn a_statement_starts_with_code() {
    let source = "% a()\n";
    let fact = |start: u32, end: u32| JsFact {
        query: JsQuery { ask: JsAsk::Statement, at: 1, end: 6 },
        answer: JsAnswer::Statement {
            span: Span::new(start, end),
            class: StatementClass::Plain,
            attach: None,
        },
    };
    let asks = |facts: &[JsFact]| {
        let known = Known { facts, reasons: &[], complaints: &[], finished: None };
        match nota::compile::compile(source, &known, Surface::Jsx) {
            Compiled::Asks { query } => query.ask,
            _ => unreachable!(),
        }
    };
    assert_eq!(asks(&[fact(3, 5)]), JsAsk::Statement);
    assert_eq!(asks(&[fact(1, 5)]), JsAsk::Statement);
    assert_eq!(asks(&[fact(2, 5)]), JsAsk::Binding);
}

#[test]
fn interpolated_literals_join_the_text_beside_them() {
    let out = compile("a\n@(\"\\n\")@('\\x41\\u{1F600}\\'')b\n").unwrap();
    assert!(out.code.contains("{\"a\\n\\nA\u{1f600}'b\"}"), "{}", out.code);
    let out = compile("a @(\"\\uD800\") b\n").unwrap();
    assert!(out.code.contains("{\"a \"}{\"\\uD800\"}{\" b\"}"), "{}", out.code);
}

#[test]
fn literals_spell_their_text() {
    let spells = |t: &str| literal_of(t.as_bytes()).map(|v| String::from_utf8(v).unwrap());
    assert_eq!(spells("\"a\\tb\\0\\q\""), Some("a\tb\0q".to_string()));
    assert_eq!(spells("'\\u00e9\\u20AC\\uD83D\\uDE00'"), Some("\u{e9}\u{20ac}\u{1f600}".to_string()));
    assert_eq!(spells("'a\\\nb\\\r\nc\\\u{2028}d'"), Some("abcd".to_string()));
    assert_eq!(spells("'\\b\\v\\f\\r'"), Some("\u{8}\u{b}\u{c}\r".to_string()));
    for t in ["\"a\" + \"b\"", "'\\u{110000}'", "'\\uDC00'", "'\\x4'", "'\\01'", "'a", "x", "'\\'"] {
        assert_eq!(spells(t), None, "{t}");
    }
}

#[test]
fn white_literals_leave_table_structure() {
    let out = compile("@table{@(\" \")@tr{@td{x}}@(\"\\n\")@tr{@td{y}}}\n").unwrap();
    assert!(
        out.code.contains(
            "<table><tbody><tr><td><Reforest>{\"x\"}</Reforest></td></tr><tr><td><Reforest>{\"y\"}</Reforest></td></tr></tbody></table>"
        ),
        "{}",
        out.code
    );
}

#[test]
fn raw_text_that_ends_in_a_backslash_is_a_literal() {
    let js = emit_doc_unchecked("@code|{a\\}|\n");
    assert!(js.contains("[\"a\\\\\"]"), "{js}");
    let js = emit_doc_unchecked("@code|{a\\\\}|\n");
    assert!(js.contains("String.raw`a\\\\`"), "{js}");
    let out = compile("`a\\`\n").unwrap();
    assert!(out.code.contains("<CodeInline>{\"a\\\\\"}</CodeInline>"), "{}", out.code);
}

#[test]
fn anchors_map_wherever_they_were_logged() {
    let mark = NotaMappingMark { span: Span::new(2, 3), kind: NotaMappingKind::PropsAnchor };
    let at = |code: &str, logged: u32| {
        build_code_mappings("@p[", code.as_bytes(), &[mark], &[(2, 3, logged)])[0].generated_offsets[0]
    };
    assert_eq!(at("<p />", 0), 3);
    assert_eq!(at("<p>", 0), 2);
    assert_eq!(at("<p />", 9), 10);
    assert!(build_code_mappings("@p[", b"<p />", &[mark], &[]).is_empty());
}

#[test]
fn what_builds_leaves_no_anchor() {
    for source in ["@a[k: 1]{x}\n", CANONICAL_TYPED, "# T [id: \"x\"]\n\n&k[p: 1]{y}\n"] {
        let built = compile(source).unwrap();
        let edited = analyze(source);
        assert!(edited.errors.is_empty());
        assert_eq!(built.fence_langs, edited.fence_langs);
        assert!(edited.mappings.iter().all(|m| m.lengths.iter().all(|n| *n > 0)));
    }
    assert!(analyze("@a[").mappings.iter().any(|m| m.lengths == vec![0]));
}

#[test]
fn a_first_line_that_binds_a_reserved_name_is_refused() {
    for name in ["Doc", "h", "Fragment", "decode", "inlineComponent", "blockComponent"] {
        let source = format!("%let {name} = 1\n@p{{x}}\n");
        match compile_as(&source, Surface::Hyperscript, false) {
            Ok(out) => panic!("{name}: {}", out.code),
            Err(errors) => assert_eq!((errors[0].start, errors[0].len), (5, name.len() as u32)),
        }
    }
    assert!(compile_as("%let Dock = 1\n@p{x}\n", Surface::Hyperscript, false).is_ok());
    assert!(compile_as("%let Doc = @p{x}\n", Surface::Jsx, false).is_err());
}

#[test]
fn bodies_lose_trailing_blanks_before_their_brace() {
    let js = emit_doc_unchecked("@p{\n  bar  \n}\n");
    assert!(js.contains("h(\"p\", {}, [\"bar\"])"), "{js}");
    let js = emit_doc_unchecked("@p{bar  }\n");
    assert!(js.contains("h(\"p\", {}, [\"bar  \"])"), "{js}");
}

#[test]
fn quoted_keys_spell_attribute_names() {
    let out = compile("@a[\"da\\x74a-x\": \"a\\nb\", \"k\": 1]{y}\n").unwrap();
    assert!(out.code.contains("<a data-x=\"a\nb\" k={1}>"), "{}", out.code);
}

/// The end of the name that starts at `p`.
fn name_end(code: &str, p: usize) -> usize {
    let part = |c: char| c.is_alphanumeric() || c == '_' || c == '$';
    code[p..].find(|c: char| !part(c)).map_or(code.len(), |len| p + len)
}

/// Does `code` end with a declaration's keyword and name?
fn ends_with_declared(code: &str) -> bool {
    let mut words = code.rsplit(' ');
    let name = words.next().is_some_and(|name| !name.is_empty() && name_end(name, 0) == name.len());
    name && words.next().is_some_and(|word| matches!(word.trim(), "const" | "let" | "var"))
}

/// A module without the types of its declarations and the type arguments of its calls.
fn stripped(module: &str) -> String {
    let mut code = String::new();
    let mut p = 0;
    while p < module.len() {
        let rest = &module[p..];
        let generic = code.ends_with(char::is_alphanumeric) && rest.starts_with('<');
        let arguments = if generic { name_end(module, p + 1) } else { p };
        if rest.starts_with(':') && ends_with_declared(&code) {
            p += rest.find(" =").unwrap();
        } else if generic && module[arguments..].starts_with(">(") {
            p = arguments + 1;
        } else {
            let c = rest.chars().next().unwrap();
            code.push(c);
            p += c.len_utf8();
        }
    }
    code
}

/// The names that a module refers to and binds nowhere.
fn references(module: &str) -> Vec<NameUse> {
    let mut uses = Vec::new();
    let mut bound = Vec::new();
    let mut p = 0;
    while p < module.len() {
        let c = module[p..].chars().next().unwrap();
        let before = &module[..p];
        if c == '"' || c == '`' {
            p += 1 + module[p + 1..].find(c).unwrap() + 1;
            continue;
        } else if !(c.is_alphabetic() || c == '_' || c == '$') {
            p += c.len_utf8();
            continue;
        }
        let end = name_end(module, p);
        let (name, after) = (module[p..end].to_string(), &module[end..]);
        let last = before.split_whitespace().last().unwrap_or("");
        let keyword = ["export", "default", "function", "return", "const", "let", "import", "from"];
        let host = before.ends_with('<') && c.is_lowercase();
        let attribute = after.starts_with("={") || after.starts_with("=\"");
        if matches!(last, "const" | "let" | "function")
            || before.ends_with("import { ")
            || before.ends_with('(') && after.starts_with(") =>")
        {
            bound.push(name);
        } else if before.ends_with(": ") && ends_with_declared(&before[..p - 2]) {
            uses.push(NameUse { name, is_value: false });
        } else if !keyword.contains(&name.as_str())
            && !(before.ends_with('.') || before.ends_with("</") || host || attribute)
            && !after.starts_with(':')
        {
            uses.push(NameUse { name, is_value: true });
        }
        p = end;
    }
    uses.retain(|used| !bound.contains(&used.name));
    uses
}

/// Compile with what is known of `source` beside the answers to its questions: what its parser
/// complains of, and what is wrong with its types.
fn compile_knowing(
    source: &str,
    edit: bool,
    complaints: Vec<NotaDiagnostic>,
    errors: Vec<NotaDiagnostic>,
) -> Result<NotaOutput, Vec<NotaDiagnostic>> {
    let mut host = Host::new(source);
    host.complaints = complaints;
    let mut errors = Some(errors);
    loop {
        let compiled = if edit {
            nota::compile::analyze(source, &host.known(), Surface::Jsx)
        } else {
            nota::compile::compile(source, &host.known(), Surface::Jsx)
        };
        match compiled {
            Compiled::Done { output } => return Ok(output),
            Compiled::Refused { errors } => return Err(errors),
            Compiled::Asks { query } => host.learn(query),
            Compiled::Finishes { module } => {
                host.finished = Some(Finished {
                    code: stripped(&module),
                    uses: references(&module),
                    module,
                    errors: errors.take().unwrap(),
                });
            }
        }
    }
}

/// Build with the types stripped and the references resolved.
fn build(source: &str) -> NotaOutput {
    match compile_knowing(source, false, vec![], vec![]) {
        Ok(output) => output,
        Err(errors) => panic!("{}", errors[0].message),
    }
}

fn is_free(out: &NotaOutput, name: &str) -> bool {
    out.free_names.iter().any(|n| n == name)
}

#[test]
fn compile_accepts_and_strips_embedded_typescript() {
    let out = build("% const n: number = 1\n@p{@(n)}\n");
    assert!(!out.code.contains(": number"), "{}", out.code);
    assert!(out.code.contains("const n = 1"), "{}", out.code);
}

#[test]
fn compile_strips_generic_call_type_arguments() {
    let out = build("@p{@(f<Foo>(x))}\n");
    assert!(!out.code.contains("f < Foo"), "{}", out.code);
    assert!(out.code.contains("f(x)"), "{}", out.code);
}

#[test]
fn free_names_cover_lowering_synthesized_and_user_refs() {
    let out = build("% secset({ n: 1 })\n# Title\n\n$y$\n");
    for name in ["Heading", "Tex", "secset", "NotaDoc"] {
        assert!(is_free(&out, name), "{name}: {:?}", out.free_names);
    }
    for gone in ["h", "decode", "Fragment"] {
        assert!(!is_free(&out, gone), "{gone}: {:?}", out.free_names);
    }
    let mut sorted = out.free_names.clone();
    sorted.sort_unstable();
    assert_eq!(out.free_names, sorted);
}

#[test]
fn free_names_cover_structural_jsx_references() {
    let out = build("@for (x of xs) {\n  - @if (x) {@(tags[0]){y}}\n}\n");
    for name in ["NotaDoc", "UlLi", "For", "Show", "Dynamic"] {
        assert!(is_free(&out, name), "{name}: {:?}", out.free_names);
    }
}

#[test]
fn free_names_exclude_bound_and_textual_mentions() {
    let out =
        build("%import { Chart } from \"./my-chart.js\"\n@p{secset( is not a call}\n$y$\n");
    assert!(!is_free(&out, "Chart"), "{:?}", out.free_names);
    assert!(!is_free(&out, "secset"), "{:?}", out.free_names);
}

#[test]
fn free_names_exclude_type_only_references() {
    let out = build("% const n: Foo = 1\n@p{@(n)}\n");
    assert!(!is_free(&out, "Foo"), "{:?}", out.free_names);
}

#[test]
fn free_names_respect_nested_shadowing() {
    let out = build(
        "%let C = (props) => { let mathset = () => 1; return createSignal(mathset()); }\n@C{x}\n",
    );
    assert!(!is_free(&out, "mathset"), "{:?}", out.free_names);
    assert!(is_free(&out, "createSignal"), "{:?}", out.free_names);
}

fn complaint(message: &str, start: u32) -> NotaDiagnostic {
    NotaDiagnostic { message: message.to_string(), start, len: 1 }
}

#[test]
fn a_build_has_no_types_and_an_editor_keeps_them() {
    let source = "%let x: number = f()\n";
    let built = compile_knowing(source, false, vec![], vec![]).unwrap();
    let edited = compile_knowing(source, true, vec![], vec![]).unwrap();
    assert!(built.code.contains("let x = f();"), "{}", built.code);
    assert!(edited.code.contains("let x: number = f();"), "{}", edited.code);
    assert_eq!(built.free_names, vec!["NotaDoc", "f"]);
    assert_eq!(edited.free_names, built.free_names);
    let errors = compile_knowing(source, false, vec![], vec![complaint("mistyped", 7)]);
    match errors {
        Ok(output) => panic!("{}", output.code),
        Err(errors) => assert_eq!((errors.len(), errors[0].message.as_str()), (1, "mistyped")),
    }
    assert!(compile_knowing(source, true, vec![], vec![complaint("mistyped", 7)]).is_ok());
}

#[test]
fn a_module_is_finished_once_it_is_known() {
    let source = "x\n";
    let done = Finished {
        module: "another".to_string(),
        code: "another".to_string(),
        uses: vec![],
        errors: vec![],
    };
    let known = Known { facts: &[], reasons: &[], complaints: &[], finished: Some(&done) };
    match nota::compile::compile(source, &known, Surface::Jsx) {
        Compiled::Finishes { module } => assert!(module.contains("{\"x\"}")),
        _ => unreachable!(),
    }
}

#[test]
fn complaints_are_handed_on() {
    let complaints = || vec![complaint("first", 3), complaint("second", 1)];
    match compile_knowing("%let x = 1\n", false, complaints(), vec![]) {
        Ok(output) => panic!("{}", output.code),
        Err(errors) => {
            let messages: Vec<&str> = errors.iter().map(|e| e.message.as_str()).collect();
            assert_eq!(messages, ["first", "second"]);
        }
    }
    let edited = compile_knowing("%let Doc = 1\n@(a +)\n", true, complaints(), vec![]).unwrap();
    let messages: Vec<&str> = edited.errors.iter().map(|e| e.message.as_str()).collect();
    assert_eq!(messages[..2], ["first", "second"]);
    assert!(messages[2].starts_with("Unexpected code at"));
    assert!(messages[3].starts_with("`Doc` collides with"));
    assert_eq!(messages.len(), 4);
    let mut host = Host::new("x\n");
    host.complaints = complaints();
    match highlight_source("x\n", &host.known()) {
        Highlighted::Refused { errors } => assert_eq!(errors.len(), 2),
        _ => unreachable!(),
    }
}

#[test]
fn the_reason_of_the_parser_is_reported() {
    match compile("@(a +)\n") {
        Ok(out) => panic!("{}", out.code),
        Err(errors) => {
            assert!(errors[0].message.starts_with("Unexpected code at"), "{}", errors[0].message);
            assert_eq!(errors[0].len, 1);
        }
    }
}

#[test]
fn a_complaint_at_a_blank_line_is_explained() {
    let source = "% f(\n\nx\n% g(\n% h()\n";
    let note = statement_complaint(source, 5).unwrap();
    assert!(note.message.starts_with("a blank line ends a `%` statement"));
    assert_eq!((note.start, note.len), (5, 1));
    assert!(statement_complaint(source, 13).is_none());
    assert!(statement_complaint(source, source.len() as u32).is_none());
}

#[test]
fn a_quoted_key_without_a_value_is_faulty_where_the_colon_is_missed() {
    assert_eq!(fault("@a[\"k\"]{x}\n").span, Span::new(6, 7));
    assert_eq!(fault("@a[\"k\" , b]{x}\n").span, Span::new(7, 8));
    assert_eq!(fault("@a[\"k\"").span, Span::new(6, 6));
}

#[test]
fn bare_heads_are_painted_as_names() {
    for word in ["true", "false", "null", "this", "name"] {
        let spans = hl(&format!("a @{word} b\n"));
        assert!(has(&spans, K::Sigil, "@"), "{word}");
        assert!(has(&spans, K::Interpolation, word), "{word}");
    }
    let spans = hl("a @(true) b\n");
    assert!(has(&spans, K::JsKeyword, "true"));
    assert!(!has(&spans, K::Interpolation, "true"));
}

#[test]
fn interpolated_strings_are_attribute_values() {
    let out = compile("@a[k: @(\"x\"), l: @(\"a&b\"), m: @n]{y}\n").unwrap();
    assert!(out.code.contains("<a k=\"x\" l={\"a&b\"} m={n}>"), "{}", out.code);
}

#[test]
fn text_of_any_script_is_cut_between_characters() {
    let source = "# \u{4f60}\u{597d} *\u{e9}t\u{e9}*\n\n@p{\n  \u{1f600} \u{2028}x\u{e9} \n}\n[\\\u{e9}](\u{e9}\\\u{e9})\n```\u{e9}\n\u{e9}\n```\n";
    for surface in [Surface::Jsx, Surface::Hyperscript] {
        let out = compile_as(source, surface, true).unwrap_or_else(|_| unreachable!());
        assert!(out.code.contains("\u{4f60}\u{597d} "), "{}", out.code);
        assert!(out.code.contains("x\u{e9}"), "{}", out.code);
        assert_eq!(out.fence_langs, vec!["\u{e9}"]);
    }
}

#[test]
fn a_missing_token_is_reported_where_another_stands() {
    let cases = [
        ("a @@ b\n", FaultKind::UnexpectedHead, (3, 4)),
        ("a @  1\n", FaultKind::UnexpectedHead, (5, 6)),
        ("a @", FaultKind::UnexpectedHead, (3, 3)),
        ("@a[b c]\n", FaultKind::ExpectedBracket, (5, 6)),
        ("@a[b \n", FaultKind::ExpectedBracket, (6, 6)),
        ("@(a b)\n", FaultKind::ExpectedParen, (4, 5)),
        ("@(a \n", FaultKind::ExpectedParen, (5, 5)),
        ("@if a {b}\n", FaultKind::ExpectedParen, (4, 5)),
        ("@if (a) b\n", FaultKind::ControlExpectsBody, (8, 9)),
        ("@if (a) \n", FaultKind::ControlExpectsBody, (9, 9)),
        ("@for (a in b) {c}\n", FaultKind::ForExpectsOf, (8, 10)),
        ("@for (a of b c) {d}\n", FaultKind::ExpectedParen, (13, 14)),
        ("@p{a\nb\n", FaultKind::ExpectedBrace, (7, 7)),
    ];
    for (source, kind, (start, end)) in cases {
        let found = fault(source);
        assert_eq!((found.kind, found.span), (kind, Span::new(start, end)), "{source:?}");
    }
}

#[test]
fn interpolated_elements_stand_among_the_children() {
    let out = compile("@p{a @(<b>x</b>) @(<i />) @(n)}\n").unwrap();
    assert!(
        out.code.contains("<p>{\"a \"}<b>x</b>{\" \"}<i />{\" \"}{n}</p>"),
        "{}",
        out.code
    );
    let out = compile("@table{@(<tr />) @tr{@td{x}} @(<track />)}\n").unwrap();
    let rows = "<table><tbody><tr /><tr><td><Reforest>{\"x\"}</Reforest></td></tr></tbody>";
    assert!(out.code.contains(&format!("{rows}<track /></table>")), "{}", out.code);
}

#[test]
fn comments_in_code_end_with_their_line() {
    let spans = hl("%%%\r\nlet x = 1; // c\r\nlet y = 2; /* d\r\n*/\r\n%%%\r\n");
    assert!(has(&spans, K::JsComment, "// c"), "{spans:?}");
    assert!(has(&spans, K::JsComment, "/* d\r\n*/"), "{spans:?}");
    let spans = hl("% f() /* open\nclosed */\n");
    assert!(!spans.iter().any(|(k, _)| *k == K::JsComment), "{spans:?}");
}
