use vstd::prelude::*;

verus! {

/// The standard library's I/O error, carried opaquely inside [`Error::Io`].
#[verifier::external_type_specification]
#[verifier::external_body]
pub struct ExIoError(std::io::Error);

/// Errors of the plugin's commands. Sent to the frontend as their message text.
pub enum Error {
    /// A native capture or toggle failed (platform message).
    Capture(String),
    /// A file or directory operation failed.
    Io(std::io::Error),
}

/// What a contract can see of an [`Error`]: the message of a capture failure,
/// or that an I/O error occurred.
pub enum ErrorView {
    Capture(Seq<char>),
    Io,
}

impl View for Error {
    type V = ErrorView;

    open spec fn view(&self) -> ErrorView {
        match self {
            Error::Capture(s) => ErrorView::Capture(s@),
            Error::Io(_) => ErrorView::Io,
        }
    }
}

/// Result type of the plugin's commands.
pub type Result<T> = std::result::Result<T, Error>;

impl Error {
    /// The message text of this error: the platform message of a capture failure,
    /// or the I/O error's own text.
    pub fn message(&self) -> (m: String)
        ensures
            self matches Error::Capture(s) ==> m@ == s@,
            self matches Error::Io(e) ==> vstd::string::to_string_from_display_ensures(e, m),
    {
        match self {
            Error::Capture(s) => s.clone(),
            Error::Io(e) => e.to_string(),
        }
    }
}

impl From<std::io::Error> for Error {
    fn from(e: std::io::Error) -> (r: Self) {
        Error::Io(e)
    }
}

impl vstd::std_specs::convert::FromSpecImpl<std::io::Error> for Error {
    open spec fn obeys_from_spec() -> bool {
        true
    }

    open spec fn from_spec(v: std::io::Error) -> Self {
        Error::Io(v)
    }
}

} // verus!
