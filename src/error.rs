use vstd::prelude::*;

verus! {

/// The single error kind of the library: a human-readable message.
#[derive(Debug, Clone, PartialEq, Eq)]
pub struct Error(String);

impl View for Error {
    type V = Seq<char>;

    closed spec fn view(&self) -> Seq<char> {
        self.0@
    }
}

impl Error {
    /// Builds an error that carries `msg`.
    pub fn custom(msg: &str) -> (r: Error)
        ensures
            r@ == msg@,
    {
        Error(String::from_str(msg))
    }

    /// Builds an error that takes ownership of `msg`.
    pub fn from_message(msg: String) -> (r: Error)
        ensures
            r@ == msg@,
    {
        Error(msg)
    }

    /// The message carried by this error.
    pub fn message(&self) -> (r: &str)
        ensures
            r@ == self@,
    {
        self.0.as_str()
    }
}

} // verus!
