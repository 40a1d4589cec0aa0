use vstd::prelude::*;

verus! {

/// A failure of the rule-driven transformation of an HTML document.
#[derive(Debug, Clone, PartialEq, Eq)]
pub enum TransformError {
    /// The recursion depth limit was reached while applying rules.
    RecursiveError { level: usize },
    /// A selector that demanded at least one match (`exception_on_not_found`)
    /// matched nothing; carries the selector text.
    AtLeastOneTagNotFoundError { tag_name: String },
    /// A mapping or grouping key was malformed: an empty key was to be
    /// inserted into a dictionary.
    InvalidPath,
    /// A write was applied to a string leaf, which cannot hold children.
    /// Like `InvalidPath`, this signals a rule-configuration error.
    UnsupportedTarget,
}

/// The mathematical model of a `TransformError`.
pub enum ErrModel {
    Recursive { level: int },
    NotFound { tag_name: Seq<char> },
    InvalidPath,
    UnsupportedTarget,
}

impl View for TransformError {
    type V = ErrModel;

    open spec fn view(&self) -> ErrModel {
        match self {
            TransformError::RecursiveError { level } => ErrModel::Recursive { level: *level as int },
            TransformError::AtLeastOneTagNotFoundError { tag_name } => ErrModel::NotFound {
                tag_name: tag_name@,
            },
            TransformError::InvalidPath => ErrModel::InvalidPath,
            TransformError::UnsupportedTarget => ErrModel::UnsupportedTarget,
        }
    }
}

/// The depth-limit failure on its own, for callers that only deal in it.
#[derive(Debug, Clone, PartialEq, Eq)]
pub struct RecursiveError {
    pub level: usize,
}

/// The missing-selector failure on its own, for callers that only deal in it.
#[derive(Debug, Clone, PartialEq, Eq)]
pub struct AtLeastOneTagNotFoundError {
    pub tag_name: String,
}

} // verus!
