//! The pipeline's error taxonomy. Every error is terminal for a run:
//! there is no retry, and a decode miss is not an error.

use vstd::prelude::*;

verus! {

/// Why a pipeline stage failed.
#[derive(Clone, Debug)]
pub enum PipelineError {
    /// A referenced column is absent from the table it was looked up in.
    MissingColumn { name: String },
    /// A cell expected to hold a string holds nothing: the named column
    /// has an absent cell at the given row.
    MissingCell { column: String, row: usize },
}

/// The mathematical image of a pipeline error.
#[verifier::ext_equal]
pub ghost enum PipelineErrView {
    MissingColumn { name: Seq<char> },
    MissingCell { column: Seq<char>, row: int },
}

impl View for PipelineError {
    type V = PipelineErrView;

    open spec fn view(&self) -> PipelineErrView {
        match self {
            PipelineError::MissingColumn { name } => PipelineErrView::MissingColumn {
                name: name@,
            },
            PipelineError::MissingCell { column, row } => PipelineErrView::MissingCell {
                column: column@,
                row: *row as int,
            },
        }
    }
}

} // verus!
