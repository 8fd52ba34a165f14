use vstd::prelude::*;
use vstd::string::*;

verus! {

/// Declares `std::io::Error`, opaque, so that the `Io` variant of
/// [`LogError`] can carry it. Nothing is claimed of its contents.
#[verifier::external_type_specification]
#[verifier::external_body]
pub struct ExIoError(std::io::Error);

/// Every failure the log reports.
#[derive(Debug)]
pub enum LogError {
    Conflict(String),
    CorruptSegment(String),
    InvalidArgument(String),
    Io(std::io::Error),
    NotFound(String),
    Store(String),
}

/// The result type used throughout the log.
pub type Result<T> = std::result::Result<T, LogError>;

impl LogError {
    /// An `InvalidArgument` error whose message is `message`.
    pub fn invalid_argument(message: &str) -> (e: LogError)
        ensures
            e matches LogError::InvalidArgument(m) && m@ == message@,
    {
        LogError::InvalidArgument(String::from_str(message))
    }
}

/// Wraps an I/O failure, as `?` does on the adapters' file operations.
impl From<std::io::Error> for LogError {
    fn from(value: std::io::Error) -> (e: Self) {
        LogError::Io(value)
    }
}

impl vstd::std_specs::convert::FromSpecImpl<std::io::Error> for LogError {
    open spec fn obeys_from_spec() -> bool {
        true
    }

    open spec fn from_spec(v: std::io::Error) -> Self {
        LogError::Io(v)
    }
}

/// The text that names a kind of failure, in front of its message.
pub open spec fn error_prefix(e: LogError) -> Seq<char> {
    match e {
        LogError::Conflict(_) => "conflict: "@,
        LogError::CorruptSegment(_) => "corrupt segment: "@,
        LogError::InvalidArgument(_) => "invalid argument: "@,
        LogError::Io(_) => "io error: "@,
        LogError::NotFound(_) => "not found: "@,
        LogError::Store(_) => "store error: "@,
    }
}

impl LogError {
    /// The human-readable form of the error: its kind, a colon and its message.
    pub fn describe(&self) -> (text: String)
        ensures
            match self {
                LogError::Conflict(m) => text@ == error_prefix(*self) + m@,
                LogError::CorruptSegment(m) => text@ == error_prefix(*self) + m@,
                LogError::InvalidArgument(m) => text@ == error_prefix(*self) + m@,
                LogError::Io(io) => exists|t: String|
                    to_string_from_display_ensures::<std::io::Error>(io, t)
                        && text@ == error_prefix(*self) + t@,
                LogError::NotFound(m) => text@ == error_prefix(*self) + m@,
                LogError::Store(m) => text@ == error_prefix(*self) + m@,
            },
    {
        match self {
            LogError::Conflict(m) => String::from_str("conflict: ").concat(m.as_str()),
            LogError::CorruptSegment(m) => String::from_str("corrupt segment: ").concat(m.as_str()),
            LogError::InvalidArgument(m) => String::from_str("invalid argument: ").concat(m.as_str()),
            LogError::Io(io) => {
                let t = io.to_string();
                String::from_str("io error: ").concat(t.as_str())
            },
            LogError::NotFound(m) => String::from_str("not found: ").concat(m.as_str()),
            LogError::Store(m) => String::from_str("store error: ").concat(m.as_str()),
        }
    }
}

} // verus!
