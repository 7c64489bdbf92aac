use vstd::prelude::*;

verus! {

/// A failure of a redirect source, distinct from a valid miss.
#[derive(Debug, Clone)]
pub struct RedirectSourceError {
    message: String,
}

impl RedirectSourceError {
    /// The text that this error carries.
    pub closed spec fn spec_message(&self) -> Seq<char> {
        self.message@
    }

    /// An error carrying a message.
    pub fn new(message: String) -> (error: Self)
        ensures
            error.spec_message() == message@,
    {
        RedirectSourceError { message }
    }

    /// The text that this error carries.
    pub fn message(&self) -> (text: &str)
        ensures
            text@ == self.spec_message(),
    {
        self.message.as_str()
    }
}

/// A failure of an event sink; it never changes the HTTP response.
#[derive(Debug)]
pub struct RedirectEventSinkError {
    message: String,
}

impl RedirectEventSinkError {
    /// The text that this error carries.
    pub closed spec fn spec_message(&self) -> Seq<char> {
        self.message@
    }

    /// An error carrying a message.
    pub fn new(message: String) -> (error: Self)
        ensures
            error.spec_message() == message@,
    {
        RedirectEventSinkError { message }
    }

    /// The text that this error carries.
    pub fn message(&self) -> (text: &str)
        ensures
            text@ == self.spec_message(),
    {
        self.message.as_str()
    }
}

/// A rejected HTTP adapter configuration.
#[derive(Debug, Clone)]
pub struct HttpAdapterConfigError {
    message: String,
}

impl HttpAdapterConfigError {
    /// The text that this error carries.
    pub closed spec fn spec_message(&self) -> Seq<char> {
        self.message@
    }

    /// An error carrying a message.
    pub fn new(message: String) -> (error: Self)
        ensures
            error.spec_message() == message@,
    {
        HttpAdapterConfigError { message }
    }

    /// The text that this error carries.
    pub fn message(&self) -> (text: &str)
        ensures
            text@ == self.spec_message(),
    {
        self.message.as_str()
    }
}

} // verus!
