//! The failures that the store reports to its callers.

use vstd::prelude::*;
use vstd::string::*;

verus! {

/// A column of the row schema that carries a length bound.
#[derive(Clone, Copy, Debug, PartialEq, Eq, Structural)]
pub enum Field {
    Username,
    Email,
}

/// Every failure surfaces to the immediate caller as one of these values.
#[derive(Clone, Copy, Debug, PartialEq, Eq, Structural)]
pub enum DbError {
    /// A page number above the configured maximum was asked for.
    PageOutOfBounds,
    /// Reading or writing the backing file failed.
    IoFailure,
    /// Stored bytes do not parse as a row or as a node.
    DecodeFailure,
    /// The key of an insert is already present in the node.
    DuplicateKey,
    /// The table holds as many rows as it can.
    TableFull,
    /// The node cannot take another cell without being split.
    NodeFull,
    /// A column of the row is too long.
    ValidationFailed { field: Field },
    /// A cursor was advanced past the last cell.
    Exhausted,
    /// A line of input is no statement of the grammar.
    ParseFailure,
    /// The statement parsed but is none that the store executes.
    Unimplemented,
}

impl DbError {
    /// The text of the message for this failure.
    pub open spec fn message_text(self) -> Seq<char> {
        match self {
            DbError::PageOutOfBounds => "Page number out of bounds."@,
            DbError::IoFailure => "I/O failure on the backing file."@,
            DbError::DecodeFailure => "Stored bytes could not be decoded."@,
            DbError::DuplicateKey => "Duplicate key exists in the table."@,
            DbError::TableFull => "Table is full."@,
            DbError::NodeFull => "Node is full."@,
            DbError::ValidationFailed { field: Field::Username } => "Column (username) is too long."@,
            DbError::ValidationFailed { field: Field::Email } => "Column (email) is too long."@,
            DbError::Exhausted => "Exhausted"@,
            DbError::ParseFailure => "Failed to parse statement."@,
            DbError::Unimplemented => "Unimplemented"@,
        }
    }

    /// The message that a front end prints for this failure.
    pub fn message(&self) -> (text: String)
        ensures
            text@ == self.message_text(),
    {
        let text: &str = match self {
            DbError::PageOutOfBounds => "Page number out of bounds.",
            DbError::IoFailure => "I/O failure on the backing file.",
            DbError::DecodeFailure => "Stored bytes could not be decoded.",
            DbError::DuplicateKey => "Duplicate key exists in the table.",
            DbError::TableFull => "Table is full.",
            DbError::NodeFull => "Node is full.",
            DbError::ValidationFailed { field: Field::Username } => "Column (username) is too long.",
            DbError::ValidationFailed { field: Field::Email } => "Column (email) is too long.",
            DbError::Exhausted => "Exhausted",
            DbError::ParseFailure => "Failed to parse statement.",
            DbError::Unimplemented => "Unimplemented",
        };
        String::from_str(text)
    }
}

} // verus!
