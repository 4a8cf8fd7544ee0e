//! What can go wrong.

use crate::text;
use vstd::prelude::*;

verus! {

/// Why an operation failed. Each variant carries the words of whoever reported the failure.
#[derive(Debug)]
pub enum RelayError {
    Io(String),
    Json(String),
    Keyring(String),
    Http(String),
    Database(String),
    InvalidInput(String),
}

impl RelayError {
    /// What the user is told.
    pub open spec fn text(self) -> Seq<char> {
        match self {
            RelayError::Io(error) => "file operation failed: "@ + error@,
            RelayError::Json(error) => "invalid config: "@ + error@,
            RelayError::Keyring(error) => "credential store failed: "@ + error@,
            RelayError::Http(error) => "HTTP client failed: "@ + error@,
            RelayError::Database(error) => "Codex 数据库操作失败: "@ + error@,
            RelayError::InvalidInput(message) => message@,
        }
    }

    /// What the user is told.
    pub fn message(&self) -> (message: String)
        ensures
            message@ == self.text(),
    {
        match self {
            RelayError::Io(error) => text::cat("file operation failed: ", error.as_str()),
            RelayError::Json(error) => text::cat("invalid config: ", error.as_str()),
            RelayError::Keyring(error) => text::cat("credential store failed: ", error.as_str()),
            RelayError::Http(error) => text::cat("HTTP client failed: ", error.as_str()),
            RelayError::Database(error) => text::cat("Codex 数据库操作失败: ", error.as_str()),
            RelayError::InvalidInput(message) => message.clone(),
        }
    }

    /// Refuses an input with these words.
    pub fn invalid(message: &str) -> (error: RelayError)
        ensures
            error.says(message@),
    {
        RelayError::InvalidInput(message.to_owned())
    }

    /// An input was refused with these words.
    pub open spec fn says(self, message: Seq<char>) -> bool {
        self matches RelayError::InvalidInput(words) && words@ == message
    }
}

/// The words of an error, for the user interface.
pub fn command_error(error: RelayError) -> (message: String)
    ensures
        message@ == error.text(),
{
    error.message()
}

/// An error says what went wrong, behind words that say where; what is wrong with an input says it alone.
pub proof fn law_errors_say_where(words: String)
    ensures
        RelayError::InvalidInput(words).text() == words@,
        RelayError::Io(words).text() == "file operation failed: "@ + words@,
        RelayError::Json(words).text() == "invalid config: "@ + words@,
        RelayError::Keyring(words).text() == "credential store failed: "@ + words@,
        RelayError::Http(words).text() == "HTTP client failed: "@ + words@,
        RelayError::Database(words).text() == "Codex 数据库操作失败: "@ + words@,
{
}

} // verus!
