//! Positions in the input and the errors of the codec.

use crate::record::Record;
use crate::record::RecordView;
use crate::text::decimal_chars;
use crate::text::format_length;
use vstd::prelude::*;
use vstd::std_specs::cmp::PartialEqSpecImpl;
use vstd::string::StringExecFns;

verus! {

/// `std::io::Error`: an error of a reader or writer. Nothing is known of its inside.
#[verifier::external_type_specification]
#[verifier::external_body]
pub struct ExIoError(std::io::Error);

/// `std::io::ErrorKind`: the kind of such an error. Nothing is known of its inside.
#[verifier::external_type_specification]
#[verifier::external_body]
pub struct ExIoErrorKind(std::io::ErrorKind);

/// The kind of an I/O error, as `std::io::Error::kind` reports it.
pub uninterp spec fn io_kind(error: &std::io::Error) -> std::io::ErrorKind;

/// `std::io::Error::kind`, compared: whether two I/O errors are of one kind.
#[verifier::external_body]
pub(crate) fn io_same_kind(a: &std::io::Error, b: &std::io::Error) -> (r: bool)
    ensures
        r == (io_kind(a) == io_kind(b)),
{
    a.kind() == b.kind()
}

/// Position information for errors in the input stream.
#[derive(Debug, Clone, Copy, PartialEq, Eq, Structural)]
pub struct Position {
    /// Line number where error occurred (1-based)
    pub line: usize,
    /// Column number where error occurred (1-based)
    pub column: usize,
    /// Byte offset in the stream where error occurred (0-based)
    pub byte: usize,
}

impl Position {
    /// The position in words: line, column and byte.
    pub open spec fn text(self) -> Seq<char> {
        "line "@ + decimal_chars(self.line as nat) + ", column "@ + decimal_chars(
            self.column as nat,
        ) + " (byte "@ + decimal_chars(self.byte as nat) + ")"@
    }

    /// The position in words, as in `line 5, column 12 (byte 42)`.
    pub fn to_string(&self) -> (r: String)
        ensures
            r@ == self.text(),
    {
        let mut out = String::from_str("line ");
        out.append(format_length(self.line).as_str());
        out.append(", column ");
        out.append(format_length(self.column).as_str());
        out.append(" (byte ");
        out.append(format_length(self.byte).as_str());
        out.append(")");
        out
    }
}

/// What an [`Error`] stands for.
pub enum ErrorView {
    Io(std::io::ErrorKind),
    InvalidFormat(Seq<char>, Position),
    DuplicateKey(Seq<char>, RecordView),
    CannotOutput(Seq<char>, Seq<char>),
}

/// Errors that can occur while reading and writing.
#[derive(Debug)]
pub enum Error {
    /// I/O error occurred while reading data.
    Io(std::io::Error),
    /// Invalid format encountered during parsing.
    ///
    /// This includes malformed tags and invalid type specifiers.
    InvalidFormat {
        /// Error message describing what went wrong
        message: String,
        /// Position in the input stream
        position: Position,
    },
    /// Duplicate key encountered in a record.
    DuplicateKey {
        /// Duplicate key name
        key: String,
        /// Record containing the duplicate
        record: Record,
    },
    /// Value cannot be output.
    CannotOutput {
        /// Type of datum that cannot be output
        typ: &'static str,
        /// Reason why it cannot be output
        reason: &'static str,
    },
}

impl View for Error {
    type V = ErrorView;

    open spec fn view(&self) -> ErrorView {
        match self {
            Error::Io(e) => ErrorView::Io(io_kind(e)),
            Error::InvalidFormat { message, position } => ErrorView::InvalidFormat(
                message@,
                *position,
            ),
            Error::DuplicateKey { key, record } => ErrorView::DuplicateKey(key@, record@),
            Error::CannotOutput { typ, reason } => ErrorView::CannotOutput(typ@, reason@),
        }
    }
}

impl PartialEq for Error {
    fn eq(&self, other: &Self) -> (r: bool) {
        match (self, other) {
            (Error::Io(a), Error::Io(b)) => io_same_kind(a, b),
            (
                Error::InvalidFormat { message: ma, position: pa },
                Error::InvalidFormat { message: mb, position: pb },
            ) => *ma == *mb && *pa == *pb,
            (
                Error::DuplicateKey { key: ka, record: ra },
                Error::DuplicateKey { key: kb, record: rb },
            ) => *ka == *kb && *ra == *rb,
            (
                Error::CannotOutput { typ: ta, reason: ra },
                Error::CannotOutput { typ: tb, reason: rb },
            ) => crate::text::same_text(ta, tb) && crate::text::same_text(ra, rb),
            _ => false,
        }
    }
}

impl PartialEqSpecImpl for Error {
    open spec fn obeys_eq_spec() -> bool {
        true
    }

    open spec fn eq_spec(&self, other: &Self) -> bool {
        match (self, other) {
            (Error::Io(a), Error::Io(b)) => io_kind(a) == io_kind(b),
            (
                Error::InvalidFormat { message: ma, position: pa },
                Error::InvalidFormat { message: mb, position: pb },
            ) => ma@ == mb@ && pa == pb,
            (
                Error::DuplicateKey { key: ka, record: ra },
                Error::DuplicateKey { key: kb, record: rb },
            ) => ka@ == kb@ && ra.same_as(rb),
            (
                Error::CannotOutput { typ: ta, reason: ra },
                Error::CannotOutput { typ: tb, reason: rb },
            ) => ta@ == tb@ && ra@ == rb@,
            _ => false,
        }
    }
}

} // verus!
