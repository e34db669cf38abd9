//! Validated schema identifiers.
//!
//! A column name and a table name hold the same thing, and are distinct
//! types all the same: what takes a table name takes no column name. Only
//! that an identifier is not empty is checked; which characters one may
//! hold is for a grammar to say.

use compact_str::CompactString;

use vstd::prelude::*;

use crate::lexis::error::LexisError;

verus! {

/// A string of the `compact_str` crate.
#[verifier::external_body]
#[derive(Debug, PartialEq, Eq, Hash)]
pub struct Chars {
    inner: CompactString,
}

/// The characters that a string of the `compact_str` crate holds.
pub uninterp spec fn compact_chars(s: Chars) -> Seq<char>;

/// `<CompactString as From<&str>>::from`: the new string holds the
/// characters of `s`.
#[verifier::external_body]
fn compact(s: &str) -> (r: Chars)
    ensures
        compact_chars(r) == s@,
{
    Chars { inner: s.into() }
}

/// `CompactString::as_str`: the slice holds the characters of the string.
#[verifier::external_body]
fn compact_str(s: &Chars) -> (r: &str)
    ensures
        r@ == compact_chars(*s),
{
    s.inner.as_str()
}

/// `<CompactString as Clone>::clone`: the clone holds the characters of the
/// string.
#[verifier::external_body]
fn compact_clone(s: &Chars) -> (r: Chars)
    ensures
        compact_chars(r) == compact_chars(*s),
{
    Chars { inner: s.inner.clone() }
}

/// A validated column identifier, which is not empty.
#[derive(Debug, PartialEq, Eq, Hash)]
pub struct ColumnName {
    chars: Chars,
}

impl View for ColumnName {
    type V = Seq<char>;

    closed spec fn view(&self) -> Seq<char> {
        compact_chars(self.chars)
    }
}

impl Clone for ColumnName {
    fn clone(&self) -> (r: Self)
        ensures
            r@ == self@,
    {
        ColumnName { chars: compact_clone(&self.chars) }
    }
}

impl ColumnName {
    /// The identifier is not empty.
    pub open spec fn wf(self) -> bool {
        self@.len() > 0
    }

    /// The identifier.
    #[must_use]
    pub fn as_str(&self) -> (s: &str)
        ensures
            s@ == self@,
    {
        compact_str(&self.chars)
    }

    /// The identifier, as an owned string.
    pub fn to_string(&self) -> (s: String)
        ensures
            s@ == self@,
    {
        self.as_str().to_owned()
    }
}

impl AsRef<str> for ColumnName {
    fn as_ref(&self) -> (s: &str)
        ensures
            s@ == self@,
    {
        self.as_str()
    }
}

impl TryFrom<&str> for ColumnName {
    type Error = LexisError;

    /// Take the identifier, unless it is empty.
    fn try_from(value: &str) -> (r: Result<Self, LexisError>)
        ensures
            match r {
                Ok(name) => value@.len() > 0 && name@ == value@ && name.wf(),
                Err(e) => value@.len() == 0 && e == (LexisError::EmptyIdentifier {
                    kind: "column",
                }),
            },
    {
        if value.is_empty() {
            return Err(LexisError::EmptyIdentifier { kind: "column" });
        }
        Ok(ColumnName { chars: compact(value) })
    }
}

impl vstd::std_specs::convert::TryFromSpecImpl<&str> for ColumnName {
    /// Two identifiers with the same characters need not be the same value,
    /// so what comes out is said over the characters.
    open spec fn obeys_try_from_spec() -> bool {
        false
    }

    open spec fn try_from_spec(value: &str) -> Result<Self, LexisError> {
        Err(LexisError::EmptyIdentifier { kind: "column" })
    }
}

/// A validated table identifier, which is not empty.
#[derive(Debug, PartialEq, Eq, Hash)]
pub struct TableName {
    chars: Chars,
}

impl View for TableName {
    type V = Seq<char>;

    closed spec fn view(&self) -> Seq<char> {
        compact_chars(self.chars)
    }
}

impl Clone for TableName {
    fn clone(&self) -> (r: Self)
        ensures
            r@ == self@,
    {
        TableName { chars: compact_clone(&self.chars) }
    }
}

impl TableName {
    /// The identifier is not empty.
    pub open spec fn wf(self) -> bool {
        self@.len() > 0
    }

    /// The identifier.
    #[must_use]
    pub fn as_str(&self) -> (s: &str)
        ensures
            s@ == self@,
    {
        compact_str(&self.chars)
    }

    /// The identifier, as an owned string.
    pub fn to_string(&self) -> (s: String)
        ensures
            s@ == self@,
    {
        self.as_str().to_owned()
    }
}

impl AsRef<str> for TableName {
    fn as_ref(&self) -> (s: &str)
        ensures
            s@ == self@,
    {
        self.as_str()
    }
}

impl TryFrom<&str> for TableName {
    type Error = LexisError;

    /// Take the identifier, unless it is empty.
    fn try_from(value: &str) -> (r: Result<Self, LexisError>)
        ensures
            match r {
                Ok(name) => value@.len() > 0 && name@ == value@ && name.wf(),
                Err(e) => value@.len() == 0 && e == (LexisError::EmptyIdentifier {
                    kind: "table",
                }),
            },
    {
        if value.is_empty() {
            return Err(LexisError::EmptyIdentifier { kind: "table" });
        }
        Ok(TableName { chars: compact(value) })
    }
}

impl vstd::std_specs::convert::TryFromSpecImpl<&str> for TableName {
    /// Two identifiers with the same characters need not be the same value,
    /// so what comes out is said over the characters.
    open spec fn obeys_try_from_spec() -> bool {
        false
    }

    open spec fn try_from_spec(value: &str) -> Result<Self, LexisError> {
        Err(LexisError::EmptyIdentifier { kind: "table" })
    }
}

} // verus!
