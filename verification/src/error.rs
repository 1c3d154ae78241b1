//! What can go wrong, and how it is told.

use vstd::prelude::*;
use vstd::string::*;

verus! {

/// The failures of an export or an import. Each carries a description for
/// the person at the terminal.
#[derive(Debug, Clone, PartialEq, Eq)]
pub enum VaultError {
    /// The secrets manager could not be started, or it reported a failure.
    ExternalTool(String),
    /// The secrets manager's answer was not an item with fields.
    InvalidResponse(String),
    /// The file to import is no list of `KEY=VALUE` lines.
    Parse(String),
    /// The secrets could not be written as JSON.
    Serialization(String),
}

/// An error as a mathematical value.
pub enum ErrorView {
    ExternalTool(Seq<char>),
    InvalidResponse(Seq<char>),
    Parse(Seq<char>),
    Serialization(Seq<char>),
}

impl View for VaultError {
    type V = ErrorView;

    open spec fn view(&self) -> ErrorView {
        match self {
            VaultError::ExternalTool(m) => ErrorView::ExternalTool(m@),
            VaultError::InvalidResponse(m) => ErrorView::InvalidResponse(m@),
            VaultError::Parse(m) => ErrorView::Parse(m@),
            VaultError::Serialization(m) => ErrorView::Serialization(m@),
        }
    }
}

impl VaultError {
    /// The line that is shown for an error: the description as it is, and
    /// for a file that did not parse, the description behind a few words that
    /// say so.
    pub open spec fn message_text(self) -> Seq<char> {
        match self {
            VaultError::ExternalTool(m) => m@,
            VaultError::InvalidResponse(m) => m@,
            VaultError::Parse(m) => "Unable to parse dotenv file: "@ + m@,
            VaultError::Serialization(m) => m@,
        }
    }

    /// The line to show for this error.
    pub fn message(&self) -> (text: String)
        ensures
            text@ == self.message_text(),
    {
        match self {
            VaultError::ExternalTool(m) => m.clone(),
            VaultError::InvalidResponse(m) => m.clone(),
            VaultError::Parse(m) => {
                let mut text = String::from_str("Unable to parse dotenv file: ");
                text.append(m.as_str());
                text
            },
            VaultError::Serialization(m) => m.clone(),
        }
    }
}

} // verus!
