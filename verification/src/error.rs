//! The conditions under which an operation of the engine gives up.

use crate::text::{decimal, decimal_string};
use vstd::prelude::*;
use vstd::string::StringExecFns;

verus! {

/// Why an operation failed. Every variant but `DuplicateKey` is fatal to the
/// session that met it.
#[derive(Debug, Clone, Copy, PartialEq, Eq, Structural)]
pub enum Error {
    /// The backing file is not a whole number of pages long.
    CorruptFile,
    /// A page number lies outside the page cache.
    PageOutOfBounds(usize),
    /// An internal node was asked for a child beyond its right child.
    ChildOutOfBounds { child_num: usize, num_keys: usize },
    /// The key of the record to insert is already stored.
    DuplicateKey(usize),
    /// An insert would have to split an internal node.
    InternalSplit,
    /// A stored text field is not well-formed UTF-8.
    Decode,
}

/// What the error `e` says in words.
pub open spec fn message_of(e: Error) -> Seq<char> {
    match e {
        Error::CorruptFile => "corrupted file"@,
        Error::PageOutOfBounds(page_num) => "page number '"@ + decimal(page_num as nat)
            + "' is out of bound"@,
        Error::ChildOutOfBounds { child_num, num_keys } => "trying to access child '"@ + decimal(
            child_num as nat,
        ) + "' with only '"@ + decimal(num_keys as nat) + "' keys."@,
        Error::DuplicateKey(key) => "duplicate key '"@ + decimal(key as nat) + "'"@,
        Error::InternalSplit => "need to implement splitting internal node"@,
        Error::Decode => "stored text is not valid utf-8"@,
    }
}

impl Error {
    /// The session that met the error cannot go on.
    pub open spec fn is_fatal(self) -> bool {
        !(self is DuplicateKey)
    }

    /// Tells whether the session that met the error cannot go on.
    pub fn fatal(&self) -> (b: bool)
        ensures
            b == self.is_fatal(),
    {
        match self {
            Error::DuplicateKey(_) => false,
            _ => true,
        }
    }

    /// What the error says in words.
    pub fn message(&self) -> (s: String)
        ensures
            s@ == message_of(*self),
    {
        match self {
            Error::CorruptFile => String::from_str("corrupted file"),
            Error::PageOutOfBounds(page_num) => {
                let mut s = String::from_str("page number '");
                s.append(decimal_string(*page_num).as_str());
                s.append("' is out of bound");
                s
            },
            Error::ChildOutOfBounds { child_num, num_keys } => {
                let mut s = String::from_str("trying to access child '");
                s.append(decimal_string(*child_num).as_str());
                s.append("' with only '");
                s.append(decimal_string(*num_keys).as_str());
                s.append("' keys.");
                s
            },
            Error::DuplicateKey(key) => {
                let mut s = String::from_str("duplicate key '");
                s.append(decimal_string(*key).as_str());
                s.append("'");
                s
            },
            Error::InternalSplit => String::from_str("need to implement splitting internal node"),
            Error::Decode => String::from_str("stored text is not valid utf-8"),
        }
    }
}

} // verus!
