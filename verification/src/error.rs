use vstd::prelude::*;

verus! {

/// The closed set of failures the library reports. Each variant carries a
/// human-readable message.
#[derive(Debug)]
pub enum RFSeeError {
    /// Malformed URL, unparsable master index, unparsable record, or a
    /// malformed artifact document.
    ParseError(String),
    /// TLS construction, connect, or handshake failure.
    FetchError(String),
    /// Filesystem failure, or no usable artifact location.
    IOError(String),
    /// Worker-pool submission after shutdown or a failed join.
    RuntimeError(String),
}

impl RFSeeError {
    pub open spec fn text(&self) -> Seq<char> {
        match self {
            RFSeeError::ParseError(m) => m@,
            RFSeeError::FetchError(m) => m@,
            RFSeeError::IOError(m) => m@,
            RFSeeError::RuntimeError(m) => m@,
        }
    }

    /// The kind tag followed by the carried message, for display at the edges.
    pub fn message(&self) -> (m: String)
        ensures
            m@ == self.prefix() + self.text(),
    {
        let prefix = match self {
            RFSeeError::ParseError(_) => "ParseError: ",
            RFSeeError::FetchError(_) => "FetchError: ",
            RFSeeError::IOError(_) => "IOError: ",
            RFSeeError::RuntimeError(_) => "RuntimeError: ",
        };
        let body = match self {
            RFSeeError::ParseError(m) => m,
            RFSeeError::FetchError(m) => m,
            RFSeeError::IOError(m) => m,
            RFSeeError::RuntimeError(m) => m,
        };
        String::from_str(prefix).concat(body.as_str())
    }

    pub open spec fn prefix(&self) -> Seq<char> {
        match self {
            RFSeeError::ParseError(_) => "ParseError: "@,
            RFSeeError::FetchError(_) => "FetchError: "@,
            RFSeeError::IOError(_) => "IOError: "@,
            RFSeeError::RuntimeError(_) => "RuntimeError: "@,
        }
    }
}

pub type RFSeeResult<T> = Result<T, RFSeeError>;

} // verus!
