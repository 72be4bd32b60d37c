//! Why a document could not be read.

use vstd::prelude::*;

verus! {

/// A failure to read a document.
#[derive(Debug)]
pub enum Error {
    /// The bytes are not a PDF file.
    UnknownFormat,
    /// The file's structure could not be parsed.
    PdfParse(String),
    /// An object that the structure names is not in the file.
    MissingObject(String),
    /// The file needs a feature that is not implemented.
    UnsupportedVersion(String),
    /// The document is encrypted, and no password was offered.
    Encrypted,
    /// A password was offered and does not open the document.
    InvalidPassword,
}

/// The reason of an [`Error`], without its details.
#[derive(Debug, Clone, Copy, PartialEq, Eq, Structural)]
pub enum ErrorKind {
    UnknownFormat,
    PdfParse,
    MissingObject,
    UnsupportedVersion,
    Encrypted,
    InvalidPassword,
}

/// What an [`Error`] says, with its message as a sequence of characters.
pub enum ErrorSpec {
    UnknownFormat,
    PdfParse(Seq<char>),
    MissingObject(Seq<char>),
    UnsupportedVersion(Seq<char>),
    Encrypted,
    InvalidPassword,
}

impl View for Error {
    type V = ErrorSpec;

    open spec fn view(&self) -> ErrorSpec {
        match self {
            Error::UnknownFormat => ErrorSpec::UnknownFormat,
            Error::PdfParse(m) => ErrorSpec::PdfParse(m@),
            Error::MissingObject(m) => ErrorSpec::MissingObject(m@),
            Error::UnsupportedVersion(m) => ErrorSpec::UnsupportedVersion(m@),
            Error::Encrypted => ErrorSpec::Encrypted,
            Error::InvalidPassword => ErrorSpec::InvalidPassword,
        }
    }
}

impl ErrorSpec {
    /// The reason alone.
    pub open spec fn kind(self) -> ErrorKind {
        match self {
            ErrorSpec::UnknownFormat => ErrorKind::UnknownFormat,
            ErrorSpec::PdfParse(_) => ErrorKind::PdfParse,
            ErrorSpec::MissingObject(_) => ErrorKind::MissingObject,
            ErrorSpec::UnsupportedVersion(_) => ErrorKind::UnsupportedVersion,
            ErrorSpec::Encrypted => ErrorKind::Encrypted,
            ErrorSpec::InvalidPassword => ErrorKind::InvalidPassword,
        }
    }
}

impl Error {
    /// The reason alone.
    pub fn kind(&self) -> (kind: ErrorKind)
        ensures
            kind == self@.kind(),
    {
        match self {
            Error::UnknownFormat => ErrorKind::UnknownFormat,
            Error::PdfParse(_) => ErrorKind::PdfParse,
            Error::MissingObject(_) => ErrorKind::MissingObject,
            Error::UnsupportedVersion(_) => ErrorKind::UnsupportedVersion,
            Error::Encrypted => ErrorKind::Encrypted,
            Error::InvalidPassword => ErrorKind::InvalidPassword,
        }
    }

    /// [`Error::PdfParse`] with `message`.
    pub fn pdf_parse(message: &str) -> (e: Error)
        ensures
            e@ == ErrorSpec::PdfParse(message@),
    {
        Error::PdfParse(message.to_owned())
    }
}

/// The reason of an error is its variant, whatever its message, and the message is kept.
pub proof fn a_reason_is_that_of_its_error(e: Error)
    ensures
        match e {
            Error::UnknownFormat => e@.kind() == ErrorKind::UnknownFormat,
            Error::PdfParse(m) => e@.kind() == ErrorKind::PdfParse && e@->PdfParse_0 == m@,
            Error::MissingObject(m) => e@.kind() == ErrorKind::MissingObject
                && e@->MissingObject_0 == m@,
            Error::UnsupportedVersion(m) => e@.kind() == ErrorKind::UnsupportedVersion
                && e@->UnsupportedVersion_0 == m@,
            Error::Encrypted => e@.kind() == ErrorKind::Encrypted,
            Error::InvalidPassword => e@.kind() == ErrorKind::InvalidPassword,
        },
{
}

} // verus!
