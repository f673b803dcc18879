//! Source positions and diagnostics.

use vstd::prelude::*;

verus! {

/// A region of a source file: byte offsets `start..end`, the 1-based line and
/// column of `start`, and the number of the source file.
#[derive(Debug, Clone, Copy, PartialEq, Eq, Structural)]
pub struct Span {
    pub start: usize,
    pub end: usize,
    pub line: usize,
    pub column: usize,
    pub source_id: usize,
}

impl Span {
    pub fn new(start: usize, end: usize, line: usize, column: usize, source_id: usize) -> (s: Span)
        ensures
            s == (Span { start, end, line, column, source_id }),
    {
        Span { start, end, line, column, source_id }
    }

    /// The placeholder position.
    pub open spec fn dummy_spec() -> Span {
        Span { start: 0, end: 0, line: 0, column: 0, source_id: 0 }
    }

    /// The placeholder position used where no token is at hand.
    pub fn dummy() -> (s: Span)
        ensures
            s == Span::dummy_spec(),
    {
        Span { start: 0, end: 0, line: 0, column: 0, source_id: 0 }
    }
}

/// How serious a diagnostic is.
#[derive(Debug, Clone, Copy, PartialEq, Eq, Structural)]
pub enum Severity {
    Error,
    Warning,
}

/// A message attached to a source position.
#[derive(Debug, Clone)]
pub struct Diagnostic {
    pub severity: Severity,
    pub span: Span,
    pub message: String,
}

impl Diagnostic {
    pub fn error(span: Span, message: String) -> (d: Diagnostic)
        ensures
            d.severity == Severity::Error,
            d.span == span,
            d.message@ == message@,
    {
        Diagnostic { severity: Severity::Error, span, message }
    }

    pub fn warning(span: Span, message: String) -> (d: Diagnostic)
        ensures
            d.severity == Severity::Warning,
            d.span == span,
            d.message@ == message@,
    {
        Diagnostic { severity: Severity::Warning, span, message }
    }
}

/// An ordered collection of diagnostics.
#[derive(Debug, Clone)]
pub struct Diagnostics {
    pub items: Vec<Diagnostic>,
}

impl Diagnostics {
    pub fn new() -> (d: Diagnostics)
        ensures
            d.items@.len() == 0,
    {
        Diagnostics { items: Vec::new() }
    }

    /// Appends a diagnostic.
    pub fn emit(&mut self, d: Diagnostic)
        ensures
            final(self).items@ == old(self).items@.push(d),
    {
        self.items.push(d);
    }

    /// Appends an error at `span`.
    pub fn emit_error(&mut self, span: Span, message: String)
        ensures
            final(self).items@.len() == old(self).items@.len() + 1,
            final(self).items@.take(old(self).items@.len() as int) == old(self).items@,
            final(self).items@.last().severity == Severity::Error,
            final(self).items@.last().span == span,
            final(self).items@.last().message@ == message@,
    {
        let d = Diagnostic::error(span, message);
        self.items.push(d);
        assert(self.items@.take(old(self).items@.len() as int) =~= old(self).items@);
    }

    pub fn len(&self) -> (n: usize)
        ensures
            n == self.items@.len(),
    {
        self.items.len()
    }

    pub fn is_empty(&self) -> (b: bool)
        ensures
            b == (self.items@.len() == 0),
    {
        self.items.len() == 0
    }

    /// Whether any diagnostic is an error.
    pub fn has_errors(&self) -> (b: bool)
        ensures
            b == exists|k: int| 0 <= k < self.items@.len() && self.items@[k].severity == Severity::Error,
    {
        let mut k: usize = 0;
        while k < self.items.len()
            invariant
                k <= self.items@.len(),
                forall|j: int| 0 <= j < k ==> self.items@[j].severity != Severity::Error,
            decreases self.items@.len() - k,
        {
            if self.items[k].severity == Severity::Error {
                return true;
            }
            k += 1;
        }
        false
    }
}

} // verus!
