//! Errors and diagnostics of a migration.

use vstd::prelude::*;
use crate::schema::names_view;

verus! {

/// Why a request was refused. None of these is transient: each names a defect
/// of the category or of the request.
#[derive(Debug, PartialEq, Eq)]
pub enum TransformError {
    /// A schema name that the category does not hold.
    UnknownObject { name: String },
    /// No chain of morphisms leads from `start` to `end`.
    NoPathFound { start: String, end: String },
    /// Several source attributes end up as `target_attribute`; strict mode only.
    CompositionConflict { target_attribute: String, candidates: Vec<String> },
    /// The category already holds a schema of that name; strict mode only.
    DuplicateObject { name: String },
}

/// The mathematical value of a `TransformError`.
pub enum ErrorView {
    UnknownObject { name: Seq<char> },
    NoPathFound { start: Seq<char>, end: Seq<char> },
    CompositionConflict { target_attribute: Seq<char>, candidates: Seq<Seq<char>> },
    DuplicateObject { name: Seq<char> },
}

impl View for TransformError {
    type V = ErrorView;

    open spec fn view(&self) -> ErrorView {
        match self {
            TransformError::UnknownObject { name } => ErrorView::UnknownObject { name: name@ },
            TransformError::NoPathFound { start, end } => ErrorView::NoPathFound {
                start: start@,
                end: end@,
            },
            TransformError::CompositionConflict {
                target_attribute,
                candidates,
            } => ErrorView::CompositionConflict {
                target_attribute: target_attribute@,
                candidates: names_view(candidates@),
            },
            TransformError::DuplicateObject { name } => ErrorView::DuplicateObject { name: name@ },
        }
    }
}

/// A finding that does not stop a migration but makes it lossy.
#[derive(Debug, PartialEq, Eq)]
pub enum Diagnostic {
    /// The chain lost the source attribute `source_attribute`: the morphism at
    /// position `step` of the chain has no entry for `attribute`, the name
    /// that the attribute had reached.
    DroppedAttribute { source_attribute: String, attribute: String, step: usize },
    /// The source attributes `candidates`, in the order of the composed map,
    /// all end up as `target_attribute`. Only the first of them is kept.
    CompositionConflict { target_attribute: String, candidates: Vec<String> },
}

/// The mathematical value of a `Diagnostic`.
pub enum DiagnosticView {
    DroppedAttribute { source_attribute: Seq<char>, attribute: Seq<char>, step: int },
    CompositionConflict { target_attribute: Seq<char>, candidates: Seq<Seq<char>> },
}

impl View for Diagnostic {
    type V = DiagnosticView;

    open spec fn view(&self) -> DiagnosticView {
        match self {
            Diagnostic::DroppedAttribute {
                source_attribute,
                attribute,
                step,
            } => DiagnosticView::DroppedAttribute {
                source_attribute: source_attribute@,
                attribute: attribute@,
                step: *step as int,
            },
            Diagnostic::CompositionConflict {
                target_attribute,
                candidates,
            } => DiagnosticView::CompositionConflict {
                target_attribute: target_attribute@,
                candidates: names_view(candidates@),
            },
        }
    }
}

/// The views of a sequence of diagnostics.
pub open spec fn diagnostics_view(diagnostics: Seq<Diagnostic>) -> Seq<DiagnosticView> {
    Seq::new(diagnostics.len(), |i: int| diagnostics[i]@)
}

} // verus!
