//! The failures the library reports, and the kinds they fall under.

use vstd::prelude::*;
use vstd::string::StringSliceAdditionalSpecFns;
use crate::text::append;

verus! {

/// The broad class of a failure.
#[derive(Clone, Copy, Debug, PartialEq, Eq, Structural)]
pub enum ErrorKind {
    InvalidInput,
    Unsupported,
    InvalidData,
    AddrNotAvailable,
    ConnectionReset,
    PermissionDenied,
    NotFound,
    UnexpectedEof,
    WriteZero,
}

/// A failure, by its cause. The two that a server's answer brings about carry
/// the body of that answer.
#[derive(Clone, Debug, PartialEq, Eq)]
pub enum Error {
    /// A container shorter than the 144 bytes of header and base region.
    TooShort,
    /// A passkey component above 128.
    PasskeyTooBig,
    /// A passkey whose determinant is zero or negative.
    PasskeyNotPositive,
    /// An odd number of words handed to the decoder.
    OddWordCount,
    /// A container whose magic bytes are not the format's.
    WrongFileType,
    /// A passkey that is not four bytes long.
    WrongPasskeyType,
    /// A base region without its two separators.
    WrongBaseData,
    /// A list entry without the separator between name and object id.
    WrongFileData,
    /// An operation that needs a connection the session does not have.
    StreamUnavailable,
    /// An answer in which an expected field or delimiter is missing.
    InvalidReply,
    /// An answer without the blank line that ends its head.
    NoBody,
    /// An answer that is neither a link nor a refusal; its body.
    Unrecognized(Vec<u8>),
    /// An answer in which the server reports failure; its body.
    Refused(Vec<u8>),
    /// The server knows no download address for the object.
    LinkNotFound,
    /// A scan round that found nothing new: the listing is exhausted.
    ScanFinished,
    /// An answer of the notice service that cannot be read.
    UnreadableNotice,
}

/// A failure as contracts speak of it: `Error`, with a sequence of bytes where
/// that holds a vector.
pub enum Fault {
    TooShort,
    PasskeyTooBig,
    PasskeyNotPositive,
    OddWordCount,
    WrongFileType,
    WrongPasskeyType,
    WrongBaseData,
    WrongFileData,
    StreamUnavailable,
    InvalidReply,
    NoBody,
    Unrecognized(Seq<u8>),
    Refused(Seq<u8>),
    LinkNotFound,
    ScanFinished,
    UnreadableNotice,
}

impl Fault {
    /// The class that a failure belongs to.
    pub open spec fn kind(self) -> ErrorKind {
        match self {
            Fault::TooShort => ErrorKind::InvalidInput,
            Fault::PasskeyTooBig => ErrorKind::InvalidInput,
            Fault::PasskeyNotPositive => ErrorKind::InvalidInput,
            Fault::OddWordCount => ErrorKind::InvalidInput,
            Fault::WrongFileType => ErrorKind::Unsupported,
            Fault::WrongPasskeyType => ErrorKind::Unsupported,
            Fault::WrongBaseData => ErrorKind::InvalidData,
            Fault::WrongFileData => ErrorKind::InvalidData,
            Fault::StreamUnavailable => ErrorKind::AddrNotAvailable,
            Fault::InvalidReply => ErrorKind::ConnectionReset,
            Fault::NoBody => ErrorKind::UnexpectedEof,
            Fault::Unrecognized(_) => ErrorKind::UnexpectedEof,
            Fault::Refused(_) => ErrorKind::PermissionDenied,
            Fault::LinkNotFound => ErrorKind::NotFound,
            Fault::ScanFinished => ErrorKind::WriteZero,
            Fault::UnreadableNotice => ErrorKind::InvalidData,
        }
    }

    /// The failure in words. Where it carries the body of an answer, the body
    /// follows the words.
    pub open spec fn text(self) -> Seq<u8> {
        match self {
            Fault::TooShort => "Len of Data to Short: [144..]".spec_bytes(),
            Fault::PasskeyTooBig => "Passwd Too Big: 0..=128".spec_bytes(),
            Fault::PasskeyNotPositive => "Wrong Passwd: the Val MUST be POSITIVE".spec_bytes(),
            Fault::OddWordCount => "Wrong Len of Data".spec_bytes(),
            Fault::WrongFileType => "Wrong File Type: Unsupported File Type".spec_bytes(),
            Fault::WrongPasskeyType => {
                "Wrong Password Type: Unsupported Password Type".spec_bytes()
            },
            Fault::WrongBaseData => "Wrong Base Data: Unsupported File Type".spec_bytes(),
            Fault::WrongFileData => "Wrong File Data: Unsupported File Type".spec_bytes(),
            Fault::StreamUnavailable => "Stream is Unavailable!".spec_bytes(),
            Fault::InvalidReply => "InvalidData Received from Server".spec_bytes(),
            Fault::NoBody => "InvalidData Received from Server".spec_bytes(),
            Fault::Unrecognized(body) => "InvalidData Received: ".spec_bytes() + body,
            Fault::Refused(body) => "Error Received: ".spec_bytes() + body,
            Fault::LinkNotFound => "Download Link Not Found: Check ObjectID!".spec_bytes(),
            Fault::ScanFinished => "Scan Finished: Read 0000!".spec_bytes(),
            Fault::UnreadableNotice => "invalid data".spec_bytes(),
        }
    }

    /// The body of the server's answer, where the failure carries one.
    pub open spec fn body(self) -> Option<Seq<u8>> {
        match self {
            Fault::Unrecognized(body) => Some(body),
            Fault::Refused(body) => Some(body),
            _ => None,
        }
    }
}

impl View for Error {
    type V = Fault;

    open spec fn view(&self) -> Fault {
        match *self {
            Error::TooShort => Fault::TooShort,
            Error::PasskeyTooBig => Fault::PasskeyTooBig,
            Error::PasskeyNotPositive => Fault::PasskeyNotPositive,
            Error::OddWordCount => Fault::OddWordCount,
            Error::WrongFileType => Fault::WrongFileType,
            Error::WrongPasskeyType => Fault::WrongPasskeyType,
            Error::WrongBaseData => Fault::WrongBaseData,
            Error::WrongFileData => Fault::WrongFileData,
            Error::StreamUnavailable => Fault::StreamUnavailable,
            Error::InvalidReply => Fault::InvalidReply,
            Error::NoBody => Fault::NoBody,
            Error::Unrecognized(body) => Fault::Unrecognized(body@),
            Error::Refused(body) => Fault::Refused(body@),
            Error::LinkNotFound => Fault::LinkNotFound,
            Error::ScanFinished => Fault::ScanFinished,
            Error::UnreadableNotice => Fault::UnreadableNotice,
        }
    }
}

impl Error {
    /// The class that this failure belongs to.
    pub fn kind(&self) -> (res: ErrorKind)
        ensures
            res == self@.kind(),
    {
        match self {
            Error::TooShort => ErrorKind::InvalidInput,
            Error::PasskeyTooBig => ErrorKind::InvalidInput,
            Error::PasskeyNotPositive => ErrorKind::InvalidInput,
            Error::OddWordCount => ErrorKind::InvalidInput,
            Error::WrongFileType => ErrorKind::Unsupported,
            Error::WrongPasskeyType => ErrorKind::Unsupported,
            Error::WrongBaseData => ErrorKind::InvalidData,
            Error::WrongFileData => ErrorKind::InvalidData,
            Error::StreamUnavailable => ErrorKind::AddrNotAvailable,
            Error::InvalidReply => ErrorKind::ConnectionReset,
            Error::NoBody => ErrorKind::UnexpectedEof,
            Error::Unrecognized(_) => ErrorKind::UnexpectedEof,
            Error::Refused(_) => ErrorKind::PermissionDenied,
            Error::LinkNotFound => ErrorKind::NotFound,
            Error::ScanFinished => ErrorKind::WriteZero,
            Error::UnreadableNotice => ErrorKind::InvalidData,
        }
    }

    /// This failure in words, for a reader.
    pub fn message(&self) -> (res: Vec<u8>)
        ensures
            res@ == self@.text(),
    {
        let mut res: Vec<u8> = Vec::new();
        match self {
            Error::TooShort => append(&mut res, "Len of Data to Short: [144..]".as_bytes()),
            Error::PasskeyTooBig => append(&mut res, "Passwd Too Big: 0..=128".as_bytes()),
            Error::PasskeyNotPositive => append(
                &mut res,
                "Wrong Passwd: the Val MUST be POSITIVE".as_bytes(),
            ),
            Error::OddWordCount => append(&mut res, "Wrong Len of Data".as_bytes()),
            Error::WrongFileType => append(
                &mut res,
                "Wrong File Type: Unsupported File Type".as_bytes(),
            ),
            Error::WrongPasskeyType => append(
                &mut res,
                "Wrong Password Type: Unsupported Password Type".as_bytes(),
            ),
            Error::WrongBaseData => append(
                &mut res,
                "Wrong Base Data: Unsupported File Type".as_bytes(),
            ),
            Error::WrongFileData => append(
                &mut res,
                "Wrong File Data: Unsupported File Type".as_bytes(),
            ),
            Error::StreamUnavailable => append(&mut res, "Stream is Unavailable!".as_bytes()),
            Error::InvalidReply => append(&mut res, "InvalidData Received from Server".as_bytes()),
            Error::NoBody => append(&mut res, "InvalidData Received from Server".as_bytes()),
            Error::Unrecognized(body) => {
                append(&mut res, "InvalidData Received: ".as_bytes());
                append(&mut res, body.as_slice());
            },
            Error::Refused(body) => {
                append(&mut res, "Error Received: ".as_bytes());
                append(&mut res, body.as_slice());
            },
            Error::LinkNotFound => append(
                &mut res,
                "Download Link Not Found: Check ObjectID!".as_bytes(),
            ),
            Error::ScanFinished => append(&mut res, "Scan Finished: Read 0000!".as_bytes()),
            Error::UnreadableNotice => append(&mut res, "invalid data".as_bytes()),
        }
        res
    }

    /// The body of the server's answer, where this failure carries one.
    pub fn body(&self) -> (res: Option<&Vec<u8>>)
        ensures
            match res {
                Some(body) => self@.body() == Some(body@),
                None => self@.body() is None,
            },
    {
        match self {
            Error::Unrecognized(body) => Some(body),
            Error::Refused(body) => Some(body),
            _ => None,
        }
    }
}

} // verus!
