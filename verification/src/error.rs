use vstd::prelude::*;

verus! {

/// The shape of an `Error`: its kind and the message it carries.
pub enum ErrorView {
    Vault(Seq<char>),
    Http(Seq<char>),
    Runtime(Seq<char>),
}

/// The closed set of failures the client surfaces.
///
/// `VaultError` is a store-level failure: the HTTP exchange succeeded but the
/// body carried an explicit error payload (or the store rejected the request).
/// `HTTPError` is a transport failure: the server could not be reached or the
/// exchange broke off. `RuntimeError` is a local failure: an unreadable cache
/// file, a bad certificate, or a response whose JSON shape was unexpected.
#[derive(Debug, PartialEq, Eq)]
pub enum Error {
    VaultError(String),
    HTTPError(String),
    RuntimeError(String),
}

impl View for Error {
    type V = ErrorView;

    open spec fn view(&self) -> ErrorView {
        match self {
            Error::VaultError(m) => ErrorView::Vault(m@),
            Error::HTTPError(m) => ErrorView::Http(m@),
            Error::RuntimeError(m) => ErrorView::Runtime(m@),
        }
    }
}

impl Error {
    /// The message carried by the error, whichever kind it is.
    pub open spec fn spec_message(&self) -> Seq<char> {
        match self {
            Error::VaultError(m) => m@,
            Error::HTTPError(m) => m@,
            Error::RuntimeError(m) => m@,
        }
    }

    /// The message carried by the error, whichever kind it is.
    pub fn message(&self) -> (r: &String)
        ensures
            r@ == self.spec_message(),
    {
        match self {
            Error::VaultError(m) => m,
            Error::HTTPError(m) => m,
            Error::RuntimeError(m) => m,
        }
    }
}

} // verus!
