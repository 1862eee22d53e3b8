use vstd::prelude::*;

verus! {

/// How serious a diagnostic is.
#[derive(Debug, Clone, Copy, PartialEq, Eq, Structural)]
pub enum Level {
    Error,
    Warning,
}

/// A labelled range of byte offsets within a slice's source text.
#[derive(Debug, Clone)]
pub struct Annotation {
    pub start: usize,
    pub end: usize,
    pub label: String,
}

/// A piece of a document that a diagnostic points at.
#[derive(Debug, Clone)]
pub struct Slice {
    pub origin: Option<String>,
    /// 1-based line of `source`'s first line in the whole document.
    pub line_start: usize,
    pub source: String,
    pub annotations: Vec<Annotation>,
}

/// A finding, anchored in the source it is about.
#[derive(Debug, Clone)]
pub struct Diagnostic {
    pub level: Level,
    /// Slug of the rule that produced it, if any.
    pub rule: Option<String>,
    pub message: String,
    pub slices: Vec<Slice>,
    /// Hints shown below the diagnostic.
    pub footer: Vec<String>,
}

} // verus!
