use crate::format::Format;
use vstd::prelude::*;

verus! {

/// Why a conversion did not take place or did not finish. Each kind carries
/// the text of its cause.
#[derive(Debug, PartialEq, Eq)]
pub enum Error {
    /// The conversion was asked for in a way that cannot be served.
    Usage(String),
    /// A file or stream could not be opened, read or written.
    Io(String),
    /// The input is not a document of the format it was read as.
    Decode(Format, String),
    /// The value cannot be written in the format asked for.
    Encode(Format, String),
}

impl Error {
    /// The text of the cause.
    pub open spec fn cause(&self) -> Seq<char> {
        match self {
            Error::Usage(text) => text@,
            Error::Io(text) => text@,
            Error::Decode(_, text) => text@,
            Error::Encode(_, text) => text@,
        }
    }

    /// The status with which a process ends on this error: 1 for a usage
    /// error, 2 for a failure of input or output, 3 for a document or value
    /// that cannot be converted.
    pub open spec fn status(&self) -> u8 {
        match self {
            Error::Usage(_) => 1,
            Error::Io(_) => 2,
            Error::Decode(_, _) => 3,
            Error::Encode(_, _) => 3,
        }
    }

    /// The text to show for the error: that of its cause.
    pub fn message(&self) -> (text: String)
        ensures
            text@ == self.cause(),
    {
        match self {
            Error::Usage(text) => text.clone(),
            Error::Io(text) => text.clone(),
            Error::Decode(_, text) => text.clone(),
            Error::Encode(_, text) => text.clone(),
        }
    }

    /// The status with which the process ends: never 0, which stands for
    /// success, and one number for each class of error.
    pub fn exit_code(&self) -> (code: u8)
        ensures
            code == self.status(),
            code != 0,
    {
        match self {
            Error::Usage(_) => 1,
            Error::Io(_) => 2,
            Error::Decode(_, _) => 3,
            Error::Encode(_, _) => 3,
        }
    }
}

impl From<String> for Error {
    /// A bare text is the cause of a usage error.
    fn from(message: String) -> (e: Error) {
        Error::Usage(message)
    }
}

impl vstd::std_specs::convert::FromSpecImpl<String> for Error {
    open spec fn obeys_from_spec() -> bool {
        true
    }

    open spec fn from_spec(message: String) -> Error {
        Error::Usage(message)
    }
}

} // verus!
