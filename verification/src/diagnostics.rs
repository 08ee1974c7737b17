//! What the frontend reports: each diagnostic as structured data, with the
//! places in the sources it points at. Rendering them as text is left to the caller.

use vstd::prelude::*;
use crate::version::Version;

verus! {

/// A byte range `start..end` in the file registered under `file_id`.
#[derive(Clone, Copy, Debug, PartialEq, Eq, Structural)]
pub struct Location {
    pub file_id: usize,
    pub start: usize,
    pub end: usize,
}

/// The kind of a diagnostic.
#[derive(Clone, Copy, Debug, PartialEq, Eq, Structural)]
pub enum ReportCode {
    FileOs,
    IncludeNotFound,
    UnclosedComment,
    IllegalExpression,
    CompilerVersionError,
    NoCompilerVersionWarning,
    CustomGatesVersionError,
    CustomGatesPragmaError,
    NoMainFoundInProject,
    MultipleMain,
}

/// One error or warning.
#[derive(Clone, Debug, PartialEq, Eq)]
pub enum Diagnostic {
    /// The file map holds nothing under `path`.
    FileNotFound { path: String },
    /// No search directory holds a file for the name `name`.
    IncludeNotFound { name: String },
    /// A block comment opened at byte `start` of file `file_id` is never closed.
    UnclosedComment { file_id: usize, start: usize },
    /// The grammar parser gave up at `location`; `message` is its account of why.
    IllegalExpression { message: String, location: Location },
    /// The file at `path` asks for a compiler newer than the running one.
    VersionMismatch { path: String, required: Version, actual: Version },
    /// The file at `path` names no compiler version; `actual` is assumed.
    MissingVersionPragma { path: String, actual: Version },
    /// The file at `path` uses custom gates under a version older than `minimum`.
    CustomGatesVersionTooLow { path: String, minimum: Version, effective: Version },
    /// The last file of `chain` lacks the custom-gates pragma although the
    /// first one uses the feature and each file of the chain is pulled in by the next.
    MissingCustomGatesPragma { chain: Vec<String> },
    /// No file declares a main component.
    NoMainComponent,
    /// More than one main component was declared; `sites` lists all of them.
    MultipleMainComponents { sites: Vec<Location> },
}

/// The mathematical content of a [`Diagnostic`].
pub enum DiagnosticView {
    FileNotFound { path: Seq<char> },
    IncludeNotFound { name: Seq<char> },
    UnclosedComment { file_id: usize, start: usize },
    IllegalExpression { message: Seq<char>, location: Location },
    VersionMismatch { path: Seq<char>, required: Version, actual: Version },
    MissingVersionPragma { path: Seq<char>, actual: Version },
    CustomGatesVersionTooLow { path: Seq<char>, minimum: Version, effective: Version },
    MissingCustomGatesPragma { chain: Seq<Seq<char>> },
    NoMainComponent,
    MultipleMainComponents { sites: Seq<Location> },
}

impl DiagnosticView {
    /// Warnings let the run go on; everything else ends it.
    pub open spec fn is_warning(self) -> bool {
        self is MissingVersionPragma
    }

    /// The kind of the diagnostic.
    pub open spec fn code(self) -> ReportCode {
        match self {
            DiagnosticView::FileNotFound { .. } => ReportCode::FileOs,
            DiagnosticView::IncludeNotFound { .. } => ReportCode::IncludeNotFound,
            DiagnosticView::UnclosedComment { .. } => ReportCode::UnclosedComment,
            DiagnosticView::IllegalExpression { .. } => ReportCode::IllegalExpression,
            DiagnosticView::VersionMismatch { .. } => ReportCode::CompilerVersionError,
            DiagnosticView::MissingVersionPragma { .. } => ReportCode::NoCompilerVersionWarning,
            DiagnosticView::CustomGatesVersionTooLow { .. } => ReportCode::CustomGatesVersionError,
            DiagnosticView::MissingCustomGatesPragma { .. } => ReportCode::CustomGatesPragmaError,
            DiagnosticView::NoMainComponent => ReportCode::NoMainFoundInProject,
            DiagnosticView::MultipleMainComponents { .. } => ReportCode::MultipleMain,
        }
    }
}

impl View for Diagnostic {
    type V = DiagnosticView;

    open spec fn view(&self) -> DiagnosticView {
        match *self {
            Diagnostic::FileNotFound { path } => DiagnosticView::FileNotFound { path: path@ },
            Diagnostic::IncludeNotFound { name } => DiagnosticView::IncludeNotFound { name: name@ },
            Diagnostic::UnclosedComment { file_id, start } => DiagnosticView::UnclosedComment {
                file_id,
                start,
            },
            Diagnostic::IllegalExpression { message, location } => DiagnosticView::IllegalExpression {
                message: message@,
                location,
            },
            Diagnostic::VersionMismatch { path, required, actual } => DiagnosticView::VersionMismatch {
                path: path@,
                required,
                actual,
            },
            Diagnostic::MissingVersionPragma { path, actual } => DiagnosticView::MissingVersionPragma {
                path: path@,
                actual,
            },
            Diagnostic::CustomGatesVersionTooLow {
                path,
                minimum,
                effective,
            } => DiagnosticView::CustomGatesVersionTooLow { path: path@, minimum, effective },
            Diagnostic::MissingCustomGatesPragma { chain } => DiagnosticView::MissingCustomGatesPragma {
                chain: chain.deep_view(),
            },
            Diagnostic::NoMainComponent => DiagnosticView::NoMainComponent,
            Diagnostic::MultipleMainComponents { sites } => DiagnosticView::MultipleMainComponents {
                sites: sites@,
            },
        }
    }
}

impl Diagnostic {
    /// Whether this diagnostic is a warning.
    pub fn is_warning(&self) -> (b: bool)
        ensures
            b == self@.is_warning(),
    {
        match self {
            Diagnostic::MissingVersionPragma { .. } => true,
            _ => false,
        }
    }

    /// The kind of this diagnostic.
    pub fn code(&self) -> (c: ReportCode)
        ensures
            c == self@.code(),
    {
        match self {
            Diagnostic::FileNotFound { .. } => ReportCode::FileOs,
            Diagnostic::IncludeNotFound { .. } => ReportCode::IncludeNotFound,
            Diagnostic::UnclosedComment { .. } => ReportCode::UnclosedComment,
            Diagnostic::IllegalExpression { .. } => ReportCode::IllegalExpression,
            Diagnostic::VersionMismatch { .. } => ReportCode::CompilerVersionError,
            Diagnostic::MissingVersionPragma { .. } => ReportCode::NoCompilerVersionWarning,
            Diagnostic::CustomGatesVersionTooLow { .. } => ReportCode::CustomGatesVersionError,
            Diagnostic::MissingCustomGatesPragma { .. } => ReportCode::CustomGatesPragmaError,
            Diagnostic::NoMainComponent => ReportCode::NoMainFoundInProject,
            Diagnostic::MultipleMainComponents { .. } => ReportCode::MultipleMain,
        }
    }
}

/// The views of a list of diagnostics, in order.
pub open spec fn views(list: Seq<Diagnostic>) -> Seq<DiagnosticView> {
    Seq::new(list.len(), |i: int| list[i]@)
}

/// The views of a list that grew by one diagnostic.
pub proof fn lemma_views_push(list: Seq<Diagnostic>, last: Diagnostic)
    ensures
        views(list.push(last)) == views(list).push(last@),
{
    assert(views(list.push(last)) =~= views(list).push(last@));
}

/// The views of two lists, one after the other.
pub proof fn lemma_views_concat(first: Seq<Diagnostic>, second: Seq<Diagnostic>)
    ensures
        views(first + second) == views(first) + views(second),
{
    assert(views(first + second) =~= views(first) + views(second));
}

} // verus!
