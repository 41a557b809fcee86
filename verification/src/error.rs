//! The errors that packing and unpacking report.
use vstd::prelude::*;
use vstd::string::*;
use crate::format::{BUFFER_SIZE, VERSION};
use crate::text::{decimal, decimal_string, lossy_string, lossy_text};

verus! {

/// Why an archive could not be written or read.
#[derive(Debug, PartialEq, Eq)]
pub enum ArchiveError {
    /// A stream ended early, or could not be encoded or decoded.
    Io(String),
    /// A path is missing, of the wrong type, or cannot be named.
    Path(String),
    /// The archive's file extension is not `slf`; holds what was found.
    IncorrectType(String),
    /// The archive's major version is not supported; holds what was found.
    UnsupportedVersion(usize),
    /// An entry name is longer than `BUFFER_SIZE`; holds its length.
    BufferOverflow(usize),
    /// A checksum or size does not match what the archive records.
    CorruptedArchive(String),
    /// An entry has an empty name.
    EmptyFilename,
    /// A byte slice has the wrong length for a number.
    TryFromSlice(String),
    /// A number does not fit the integer type that has to hold it.
    TryFromInt(String),
}

/// An `ArchiveError` with its texts as character sequences.
pub enum ErrorView {
    Io(Seq<char>),
    Path(Seq<char>),
    IncorrectType(Seq<char>),
    UnsupportedVersion(usize),
    BufferOverflow(usize),
    CorruptedArchive(Seq<char>),
    EmptyFilename,
    TryFromSlice(Seq<char>),
    TryFromInt(Seq<char>),
}

impl View for ArchiveError {
    type V = ErrorView;

    open spec fn view(&self) -> ErrorView {
        match *self {
            ArchiveError::Io(s) => ErrorView::Io(s@),
            ArchiveError::Path(s) => ErrorView::Path(s@),
            ArchiveError::IncorrectType(s) => ErrorView::IncorrectType(s@),
            ArchiveError::UnsupportedVersion(v) => ErrorView::UnsupportedVersion(v),
            ArchiveError::BufferOverflow(n) => ErrorView::BufferOverflow(n),
            ArchiveError::CorruptedArchive(s) => ErrorView::CorruptedArchive(s@),
            ArchiveError::EmptyFilename => ErrorView::EmptyFilename,
            ArchiveError::TryFromSlice(s) => ErrorView::TryFromSlice(s@),
            ArchiveError::TryFromInt(s) => ErrorView::TryFromInt(s@),
        }
    }
}

/// The one-line text that stands for an error.
pub open spec fn message_text(e: ErrorView) -> Seq<char> {
    match e {
        ErrorView::Io(s) => s,
        ErrorView::Path(s) => s,
        ErrorView::IncorrectType(s) =>
            "Incorrect type of the provided archive: expected '.slf', found '."@ + s + "'"@,
        ErrorView::UnsupportedVersion(v) =>
            "Archive file has unsupported version: Current version suppots only "@
                + decimal(VERSION[0] as nat) + ".x archives, when "@ + decimal(v as nat)
                + " was supplied"@,
        ErrorView::BufferOverflow(n) =>
            "Buffer overflow: "@ + decimal(BUFFER_SIZE as nat) + " bytes less, then "@
                + decimal(n as nat) + " bytes"@,
        ErrorView::CorruptedArchive(s) => s,
        ErrorView::EmptyFilename => "Filename is empty"@,
        ErrorView::TryFromSlice(s) => s,
        ErrorView::TryFromInt(s) => s,
    }
}

impl ArchiveError {
    /// The one-line text that stands for this error.
    pub fn message(&self) -> (s: String)
        ensures
            s@ == message_text(self@),
    {
        match self {
            ArchiveError::Io(c) => c.clone(),
            ArchiveError::Path(c) => c.clone(),
            ArchiveError::IncorrectType(c) => {
                let mut s = String::from_str(
                    "Incorrect type of the provided archive: expected '.slf', found '.",
                );
                s.append(c.as_str());
                s.append("'");
                s
            },
            ArchiveError::UnsupportedVersion(v) => {
                let mut s = String::from_str(
                    "Archive file has unsupported version: Current version suppots only ",
                );
                s.append(decimal_string(VERSION[0] as u64).as_str());
                s.append(".x archives, when ");
                s.append(decimal_string(*v as u64).as_str());
                s.append(" was supplied");
                s
            },
            ArchiveError::BufferOverflow(n) => {
                let mut s = String::from_str("Buffer overflow: ");
                s.append(decimal_string(BUFFER_SIZE as u64).as_str());
                s.append(" bytes less, then ");
                s.append(decimal_string(*n as u64).as_str());
                s.append(" bytes");
                s
            },
            ArchiveError::CorruptedArchive(c) => c.clone(),
            ArchiveError::EmptyFilename => String::from_str("Filename is empty"),
            ArchiveError::TryFromSlice(c) => c.clone(),
            ArchiveError::TryFromInt(c) => c.clone(),
        }
    }
}

/// The text of the error for a source that is not what it has to be.
pub open spec fn invalid_source_text(path: Seq<u8>) -> Seq<char> {
    path_text("Invalid source destination at path: "@, path)
}

/// The text of the error for a path without a file name.
pub open spec fn no_stem_text(path: Seq<u8>) -> Seq<char> {
    path_text("Failed to get file stem from path: "@, path)
}

/// The text of an error about a path: `prefix`, then the path as text.
pub open spec fn path_text(prefix: Seq<char>, path: Seq<u8>) -> Seq<char> {
    prefix + lossy_text(path)
}

/// The error about `path` whose text starts with `prefix`.
pub fn path_error(prefix: &str, path: &[u8]) -> (e: ArchiveError)
    ensures
        e@ == ErrorView::Path(path_text(prefix@, path@)),
{
    let mut s = String::from_str(prefix);
    s.append(lossy_string(path).as_str());
    ArchiveError::Path(s)
}

} // verus!
