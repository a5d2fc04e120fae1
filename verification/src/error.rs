//! Why a scan fails as a whole. Whatever goes wrong below the root is
//! counted and passed over instead.

use vstd::prelude::*;
use vstd::string::*;

verus! {

/// A failure that ends the scan.
#[derive(Debug, Clone, PartialEq, Eq)]
pub enum ScanError {
    /// The root does not exist.
    PathNotFound { path: String },
    /// The root's metadata could not be read.
    MetadataReadFailure { path: String, reason: String },
    /// The root is a directory that could not be opened.
    DirectoryOpenFailure { path: String, reason: String },
    /// The worker that runs the walk could not be run or joined.
    ExecutionFailure { reason: String },
    /// The walk was asked to go on after its root was finished.
    Aborted,
}

/// The mathematical value of a [`ScanError`].
pub ghost enum ScanErrorView {
    PathNotFound { path: Seq<char> },
    MetadataReadFailure { path: Seq<char>, reason: Seq<char> },
    DirectoryOpenFailure { path: Seq<char>, reason: Seq<char> },
    ExecutionFailure { reason: Seq<char> },
    Aborted,
}

impl View for ScanError {
    type V = ScanErrorView;

    open spec fn view(&self) -> ScanErrorView {
        match self {
            ScanError::PathNotFound { path } => ScanErrorView::PathNotFound { path: path@ },
            ScanError::MetadataReadFailure { path, reason } => ScanErrorView::MetadataReadFailure {
                path: path@,
                reason: reason@,
            },
            ScanError::DirectoryOpenFailure {
                path,
                reason,
            } => ScanErrorView::DirectoryOpenFailure { path: path@, reason: reason@ },
            ScanError::ExecutionFailure { reason } => ScanErrorView::ExecutionFailure {
                reason: reason@,
            },
            ScanError::Aborted => ScanErrorView::Aborted,
        }
    }
}

/// The text by which an error is reported.
pub open spec fn message_of(error: ScanErrorView) -> Seq<char> {
    match error {
        ScanErrorView::PathNotFound { path } => "Path does not exist: "@ + path,
        ScanErrorView::MetadataReadFailure { path, reason } => "Failed to read metadata for "@
            + path + ": "@ + reason,
        ScanErrorView::DirectoryOpenFailure { path, reason } => "Failed to read directory "@ + path
            + ": "@ + reason,
        ScanErrorView::ExecutionFailure { reason } => reason,
        ScanErrorView::Aborted => "Scan aborted unexpectedly."@,
    }
}

impl ScanError {
    /// The text by which this error is reported to the caller.
    pub fn message(&self) -> (text: String)
        ensures
            text@ == message_of(self@),
    {
        match self {
            ScanError::PathNotFound { path } => {
                let mut text = "Path does not exist: ".to_owned();
                text.append(path.as_str());
                text
            },
            ScanError::MetadataReadFailure { path, reason } => {
                let mut text = "Failed to read metadata for ".to_owned();
                text.append(path.as_str());
                text.append(": ");
                text.append(reason.as_str());
                text
            },
            ScanError::DirectoryOpenFailure { path, reason } => {
                let mut text = "Failed to read directory ".to_owned();
                text.append(path.as_str());
                text.append(": ");
                text.append(reason.as_str());
                text
            },
            ScanError::ExecutionFailure { reason } => reason.clone(),
            ScanError::Aborted => "Scan aborted unexpectedly.".to_owned(),
        }
    }
}

} // verus!
