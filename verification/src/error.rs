//! The error type of the repository server.

use crate::text::join2;
use vstd::prelude::*;

verus! {

/// `std::io::Error`, which an error of the server may carry. Nothing of it
/// is read here but its text, of which nothing is claimed.
#[verifier::external_type_specification]
#[verifier::external_body]
pub struct ExIoError(std::io::Error);

/// The main error type for server operations.
#[derive(Debug)]
pub enum ServerError {
    /// I/O errors (file operations, network, etc.)
    Io(std::io::Error),
    /// SSH protocol or connection errors
    Ssh(String),
    /// Configuration errors (missing values, invalid format)
    Config(String),
    /// Repository operation errors
    Repository(String),
    /// Pijul protocol errors (invalid commands, malformed data)
    Protocol(String),
    /// Authentication/authorization errors
    Auth(String),
    /// Resource not found
    NotFound(String),
    /// Internal server error
    Internal(String),
}

/// The variants of `ServerError`, without what they carry.
#[derive(Debug, Clone, Copy, PartialEq, Eq, Structural)]
pub enum ErrorKind {
    Io,
    Ssh,
    Config,
    Repository,
    Protocol,
    Auth,
    NotFound,
    Internal,
}

/// The words that open the message of an error of each kind.
pub open spec fn kind_prefix(kind: ErrorKind) -> Seq<char> {
    match kind {
        ErrorKind::Io => "I/O error: "@,
        ErrorKind::Ssh => "SSH error: "@,
        ErrorKind::Config => "Configuration error: "@,
        ErrorKind::Repository => "Repository error: "@,
        ErrorKind::Protocol => "Protocol error: "@,
        ErrorKind::Auth => "Auth error: "@,
        ErrorKind::NotFound => "Not found: "@,
        ErrorKind::Internal => "Internal error: "@,
    }
}

impl ServerError {
    pub open spec fn spec_kind(&self) -> ErrorKind {
        match self {
            ServerError::Io(_) => ErrorKind::Io,
            ServerError::Ssh(_) => ErrorKind::Ssh,
            ServerError::Config(_) => ErrorKind::Config,
            ServerError::Repository(_) => ErrorKind::Repository,
            ServerError::Protocol(_) => ErrorKind::Protocol,
            ServerError::Auth(_) => ErrorKind::Auth,
            ServerError::NotFound(_) => ErrorKind::NotFound,
            ServerError::Internal(_) => ErrorKind::Internal,
        }
    }

    /// The text that an error was made with. An I/O error was made with none.
    pub open spec fn detail(&self) -> Option<Seq<char>> {
        match self {
            ServerError::Io(_) => None,
            ServerError::Ssh(m) => Some(m@),
            ServerError::Config(m) => Some(m@),
            ServerError::Repository(m) => Some(m@),
            ServerError::Protocol(m) => Some(m@),
            ServerError::Auth(m) => Some(m@),
            ServerError::NotFound(m) => Some(m@),
            ServerError::Internal(m) => Some(m@),
        }
    }

    /// The error is of kind `kind` and was made with `text`.
    pub open spec fn is(&self, kind: ErrorKind, text: Seq<char>) -> bool {
        self.spec_kind() == kind && self.detail() == Some(text)
    }

    #[verifier::when_used_as_spec(spec_kind)]
    pub fn kind(&self) -> (k: ErrorKind)
        ensures
            k == self.spec_kind(),
    {
        match self {
            ServerError::Io(_) => ErrorKind::Io,
            ServerError::Ssh(_) => ErrorKind::Ssh,
            ServerError::Config(_) => ErrorKind::Config,
            ServerError::Repository(_) => ErrorKind::Repository,
            ServerError::Protocol(_) => ErrorKind::Protocol,
            ServerError::Auth(_) => ErrorKind::Auth,
            ServerError::NotFound(_) => ErrorKind::NotFound,
            ServerError::Internal(_) => ErrorKind::Internal,
        }
    }

    /// Create an SSH error with a message.
    pub fn ssh(msg: &str) -> (e: Self)
        ensures
            e.is(ErrorKind::Ssh, msg@),
    {
        ServerError::Ssh(msg.to_owned())
    }

    /// Create a config error with a message.
    pub fn config(msg: &str) -> (e: Self)
        ensures
            e.is(ErrorKind::Config, msg@),
    {
        ServerError::Config(msg.to_owned())
    }

    /// Create a repository error with a message.
    pub fn repository(msg: &str) -> (e: Self)
        ensures
            e.is(ErrorKind::Repository, msg@),
    {
        ServerError::Repository(msg.to_owned())
    }

    /// Create a protocol error with a message.
    pub fn protocol(msg: &str) -> (e: Self)
        ensures
            e.is(ErrorKind::Protocol, msg@),
    {
        ServerError::Protocol(msg.to_owned())
    }

    /// Create an auth error with a message.
    pub fn auth(msg: &str) -> (e: Self)
        ensures
            e.is(ErrorKind::Auth, msg@),
    {
        ServerError::Auth(msg.to_owned())
    }

    /// Create a not found error with a message.
    pub fn not_found(msg: &str) -> (e: Self)
        ensures
            e.is(ErrorKind::NotFound, msg@),
    {
        ServerError::NotFound(msg.to_owned())
    }

    /// Create an internal error with a message.
    pub fn internal(msg: &str) -> (e: Self)
        ensures
            e.is(ErrorKind::Internal, msg@),
    {
        ServerError::Internal(msg.to_owned())
    }

    /// The message that the error shows: the words of its kind, then its
    /// text. Of an I/O error the text is what the system says of it.
    pub fn message(&self) -> (res: String)
        ensures
            match self.detail() {
                Some(text) => res@ == kind_prefix(self.spec_kind()) + text,
                None => exists|text: Seq<char>| res@ == kind_prefix(ErrorKind::Io) + text,
            },
    {
        match self {
            ServerError::Io(e) => {
                let text = e.to_string();
                let res = join2("I/O error: ", text.as_str());
                assert(res@ == kind_prefix(ErrorKind::Io) + text@);
                res
            },
            ServerError::Ssh(m) => join2("SSH error: ", m.as_str()),
            ServerError::Config(m) => join2("Configuration error: ", m.as_str()),
            ServerError::Repository(m) => join2("Repository error: ", m.as_str()),
            ServerError::Protocol(m) => join2("Protocol error: ", m.as_str()),
            ServerError::Auth(m) => join2("Auth error: ", m.as_str()),
            ServerError::NotFound(m) => join2("Not found: ", m.as_str()),
            ServerError::Internal(m) => join2("Internal error: ", m.as_str()),
        }
    }
}

impl From<std::io::Error> for ServerError {
    fn from(err: std::io::Error) -> (res: Self) {
        ServerError::Io(err)
    }
}

impl vstd::std_specs::convert::FromSpecImpl<std::io::Error> for ServerError {
    open spec fn obeys_from_spec() -> bool {
        true
    }

    open spec fn from_spec(err: std::io::Error) -> Self {
        ServerError::Io(err)
    }
}

} // verus!
