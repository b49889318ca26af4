//! Dependency directives embedded in Markdown comments: extraction, target
//! resolution and the dependency graph they form.
//!
//! Paths: target files are resolved with `std::path` (`Path::parent`,
//! `Path::join`), which follow the path syntax of the target the crate is
//! built for. Graph nodes are identified and ordered by path components read
//! with Unix syntax (`/` the only separator, no prefixes), as `PathBuf`
//! compares them on Unix; on other platforms, paths that `PathBuf` would take
//! as equal (other separators, drive or UNC prefixes) are distinct nodes here.

pub mod anchor;
pub mod extract;
pub mod graph;
pub mod paths;
pub mod resolve;
pub mod syntax;
pub mod text;

use vstd::prelude::*;

verus! {

/// The four kinds of dependency a directive can declare.
#[derive(Debug, Clone, Copy, PartialEq, Eq, Structural)]
pub enum DirectiveKind {
    ConstrainedBy,
    BlockedBy,
    Supersedes,
    DerivedFrom,
}

/// The name under which a kind is written in a directive comment.
pub open spec fn kind_name(kind: DirectiveKind) -> Seq<char> {
    match kind {
        DirectiveKind::ConstrainedBy => "constrained-by"@,
        DirectiveKind::BlockedBy => "blocked-by"@,
        DirectiveKind::Supersedes => "supersedes"@,
        DirectiveKind::DerivedFrom => "derived-from"@,
    }
}

impl DirectiveKind {
    /// The name under which this kind is written in a directive comment.
    pub fn as_str(self) -> (r: &'static str)
        ensures
            r@ == kind_name(self),
    {
        match self {
            DirectiveKind::ConstrainedBy => "constrained-by",
            DirectiveKind::BlockedBy => "blocked-by",
            DirectiveKind::Supersedes => "supersedes",
            DirectiveKind::DerivedFrom => "derived-from",
        }
    }
}

/// Optional text, taken by its characters.
pub open spec fn opt_text(o: Option<String>) -> Option<Seq<char>> {
    match o {
        Some(s) => Some(s@),
        None => None,
    }
}

/// A copy of optional text.
pub fn clone_opt_text(o: &Option<String>) -> (r: Option<String>)
    ensures
        opt_text(r) == opt_text(*o),
{
    match o {
        Some(s) => Some(s.clone()),
        None => None,
    }
}

/// A single dependency directive extracted from a Markdown file.
#[derive(Debug)]
pub struct Directive {
    pub kind: DirectiveKind,
    pub source_file: String,
    /// Slug of the heading that immediately precedes this directive.
    /// None means the directive is at document scope.
    pub source_section: Option<String>,
    /// Resolved target file. None when the directive references a section in
    /// the same file (`<!-- kind #anchor -->`).
    pub target_file: Option<String>,
    pub target_section: Option<String>,
    /// Byte offset span [start, end) of the directive comment in source_file.
    pub span: (usize, usize),
}

/// A directive taken by the characters of its texts.
pub struct DirectiveView {
    pub kind: DirectiveKind,
    pub source_file: Seq<char>,
    pub source_section: Option<Seq<char>>,
    pub target_file: Option<Seq<char>>,
    pub target_section: Option<Seq<char>>,
    pub span: (usize, usize),
}

impl View for Directive {
    type V = DirectiveView;

    open spec fn view(&self) -> DirectiveView {
        DirectiveView {
            kind: self.kind,
            source_file: self.source_file@,
            source_section: opt_text(self.source_section),
            target_file: opt_text(self.target_file),
            target_section: opt_text(self.target_section),
            span: self.span,
        }
    }
}

impl Clone for Directive {
    fn clone(&self) -> (r: Self)
        ensures
            r@ == self@,
    {
        Directive {
            kind: self.kind,
            source_file: self.source_file.clone(),
            source_section: clone_opt_text(&self.source_section),
            target_file: clone_opt_text(&self.target_file),
            target_section: clone_opt_text(&self.target_section),
            span: (self.span.0, self.span.1),
        }
    }
}

/// Why a directive target does not resolve.
#[derive(Debug)]
pub enum ResolveError {
    MalformedTarget(String),
    MissingFile(String),
    MissingSection { file: String, section: String },
    AbsolutePath(String),
}

/// A resolve error taken by the characters of its texts.
pub enum ResolveErrorView {
    MalformedTarget(Seq<char>),
    MissingFile(Seq<char>),
    MissingSection { file: Seq<char>, section: Seq<char> },
    AbsolutePath(Seq<char>),
}

impl View for ResolveError {
    type V = ResolveErrorView;

    open spec fn view(&self) -> ResolveErrorView {
        match self {
            ResolveError::MalformedTarget(s) => ResolveErrorView::MalformedTarget(s@),
            ResolveError::MissingFile(s) => ResolveErrorView::MissingFile(s@),
            ResolveError::MissingSection { file, section } => ResolveErrorView::MissingSection {
                file: file@,
                section: section@,
            },
            ResolveError::AbsolutePath(s) => ResolveErrorView::AbsolutePath(s@),
        }
    }
}

/// Why a Markdown buffer could not be scanned for directives.
#[derive(Debug, Clone, Copy, PartialEq, Eq, Structural)]
pub enum ExtractError {
    /// The Markdown parser could not be set up or gave no syntax tree.
    ParseFailed,
    /// The comment at byte span `[start, end)` is not valid UTF-8.
    InvalidUtf8 { start: usize, end: usize },
}

} // verus!
