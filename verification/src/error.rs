//! Error type shared by the whole crate: a tag naming the operation that
//! failed, plus the underlying failure's message.

use vstd::prelude::*;
use vstd::string::StringExecFns;

verus! {

/// The operation during which an error arose.
#[derive(Clone, Copy, Debug, PartialEq, Eq, Structural)]
pub enum Kind {
    SavingDeck,
    GettingDeckFromFile,
    SavingFileDesc,
    CreatingFileDesc,
    OpeningFileDesc,
}

/// A short description of the failing operation, as the characters of the
/// string [`Kind::describe`] returns.
pub open spec fn kind_text(kind: Kind) -> Seq<char> {
    match kind {
        Kind::SavingDeck => "Error while saving deck to .deck file"@,
        Kind::GettingDeckFromFile => "Error while getting deck from .deck file"@,
        Kind::SavingFileDesc => "Error while saving program file descriptor"@,
        Kind::CreatingFileDesc => "Error while creating program file descriptor"@,
        Kind::OpeningFileDesc => "Error while opening program file descriptor"@,
    }
}

impl Kind {
    /// The human-readable description of this error kind.
    pub fn describe(&self) -> (r: String)
        ensures
            r@ == kind_text(*self),
    {
        match self {
            Kind::SavingDeck => String::from_str("Error while saving deck to .deck file"),
            Kind::GettingDeckFromFile => String::from_str(
                "Error while getting deck from .deck file",
            ),
            Kind::SavingFileDesc => String::from_str(
                "Error while saving program file descriptor",
            ),
            Kind::CreatingFileDesc => String::from_str(
                "Error while creating program file descriptor",
            ),
            Kind::OpeningFileDesc => String::from_str(
                "Error while opening program file descriptor",
            ),
        }
    }
}

/// Error returned by the fallible operations of this crate: the kind of
/// operation that failed together with the underlying failure's message.
#[derive(Debug)]
pub struct Error {
    kind: Kind,
    message: String,
}

impl Error {
    /// The operation tag this error carries.
    pub closed spec fn spec_kind(&self) -> Kind {
        self.kind
    }

    /// The characters of the message this error carries.
    pub closed spec fn spec_message(&self) -> Seq<char> {
        self.message@
    }

    /// Wraps an underlying failure's message under the given operation tag.
    pub fn new(kind: Kind, message: String) -> (r: Error)
        ensures
            r.spec_kind() == kind,
            r.spec_message() == message@,
    {
        Error { kind, message }
    }

    /// The operation during which this error arose.
    pub fn kind(&self) -> (r: Kind)
        ensures
            r == self.spec_kind(),
    {
        self.kind
    }

    /// The underlying failure's message.
    pub fn message(&self) -> (r: &String)
        ensures
            r@ == self.spec_message(),
    {
        &self.message
    }

    /// The full description: the kind's text, a separator, and the
    /// underlying message.
    pub fn describe(&self) -> (r: String)
        ensures
            r@ == kind_text(self.spec_kind()) + ": "@ + self.spec_message(),
    {
        let mut text = self.kind.describe();
        text.append(": ");
        text.append(self.message.as_str());
        text
    }
}

} // verus!
