//! Non-fatal failures that the editor surfaces to the user.
use vstd::prelude::*;

verus! {

/// Failures of the persistence and export operations. All are non-fatal: the
/// in-memory graph is never touched by a failed load or save.
#[derive(Clone, Copy, Debug, PartialEq, Eq, Structural)]
pub enum GraphEditorError {
    FailedOpenFile,
    FailedSaveFile,
    FailedTakeScreenshot,
}

impl GraphEditorError {
    /// Short human-readable text for transient display.
    pub fn message(&self) -> (r: &str)
        ensures
            *self == GraphEditorError::FailedOpenFile ==> r@ == "Failed to open the file"@,
            *self == GraphEditorError::FailedSaveFile ==> r@ == "Failed to save the file"@,
            *self == GraphEditorError::FailedTakeScreenshot ==> r@
                == "Failed to take the screenshot"@,
    {
        match self {
            GraphEditorError::FailedOpenFile => "Failed to open the file",
            GraphEditorError::FailedSaveFile => "Failed to save the file",
            GraphEditorError::FailedTakeScreenshot => "Failed to take the screenshot",
        }
    }
}

} // verus!
