use vstd::prelude::*;

verus! {

/// Why a byte string is not the encoding of a database.
pub enum Fault {
    /// The MessagePack layer rejected a value.
    Value,
    /// The values are well formed but do not make up a database.
    Format,
    /// A table name is not valid UTF-8.
    Utf8,
    /// No fault of decoding: the errors that a decoder never reports.
    Other,
}

/// The errors of the library.
#[derive(Debug)]
pub enum DBError {
    /// Reserved for a protocol layer above the database.
    Protocol(String),
    /// Decoded values that do not make up a database, or a database too large to encode.
    FileFormat(String),
    ParseString(String),
    /// The MessagePack decoder rejected the input; the message is the decoder's.
    ParseValue(String),
    /// The MessagePack encoder failed; the message is the encoder's.
    SendValue(String),
    UTF8(std::string::FromUtf8Error),
    IO(std::io::Error),
}

impl DBError {
    /// The fault that a decoding error reports.
    pub open spec fn fault(&self) -> Fault {
        match self {
            DBError::ParseValue(_) => Fault::Value,
            DBError::UTF8(_) => Fault::Utf8,
            DBError::FileFormat(_) => Fault::Format,
            _ => Fault::Other,
        }
    }

    /// The message of the error.
    pub fn message(&self) -> (s: String)
        ensures
            self matches DBError::FileFormat(m) ==> s@ == m@,
            self matches DBError::ParseValue(m) ==> s@ == m@,
            self matches DBError::SendValue(m) ==> s@ == m@,
            self matches DBError::Protocol(m) ==> s@ == m@,
            self matches DBError::ParseString(m) ==> s@ == m@,
    {
        match self {
            DBError::Protocol(m) => m.clone(),
            DBError::FileFormat(m) => m.clone(),
            DBError::ParseString(m) => m.clone(),
            DBError::ParseValue(m) => m.clone(),
            DBError::SendValue(m) => m.clone(),
            DBError::UTF8(_) => String::from_str("invalid UTF-8"),
            DBError::IO(_) => String::from_str("I/O error"),
        }
    }
}

} // verus!
