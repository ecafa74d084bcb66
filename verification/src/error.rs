//! The reasons for which a document or an item is refused.
use vstd::prelude::*;

verus! {

/// Why an operation on a document failed.
#[derive(Clone, Copy, Debug, PartialEq, Eq, Structural)]
pub enum XmlError {
    /// The input holds no document: no opening tag set up a root.
    CannotOpen,
    /// A tag has no `<`...`>` envelope, or nothing in it that could be a name.
    MalformedTag,
    /// A `>` arrived with no `<` before it in the same tag.
    UnmatchedClose,
    /// An item was asked for with an empty name.
    InvalidName,
}

impl XmlError {
    /// The text of each message.
    pub open spec fn message_text(self) -> Seq<char> {
        match self {
            XmlError::CannotOpen => "Can't open xml"@,
            XmlError::MalformedTag => "Can't parse tag"@,
            XmlError::UnmatchedClose => "There is no matching '<' for '>'"@,
            XmlError::InvalidName => "An item needs a name"@,
        }
    }

    /// A short description of the failure, for people.
    pub fn message(&self) -> (r: String)
        ensures
            r@ == self.message_text(),
    {
        match self {
            XmlError::CannotOpen => String::from_str("Can't open xml"),
            XmlError::MalformedTag => String::from_str("Can't parse tag"),
            XmlError::UnmatchedClose => String::from_str("There is no matching '<' for '>'"),
            XmlError::InvalidName => String::from_str("An item needs a name"),
        }
    }
}

} // verus!
