use vstd::prelude::*;

verus! {

/// The element of a commit message that could not be read.
#[derive(Debug, Clone, Copy, PartialEq, Eq, Structural)]
pub enum InvalidElement {
    /// The type before the scope or the prefix: missing, holding whitespace,
    /// or not followed by a scope, a `!` or a `:`.
    Type,
    /// The scope between parentheses.
    Scope,
    /// The `:` (with an optional `!` before it) and the space after it.
    Prefix,
    /// The description on the first line.
    Desc,
    /// The blank line between the description and the body.
    Body,
}

/// Error when parsing the commit message
#[derive(Debug)]
pub struct Error {
    code: InvalidElement,
}

impl View for Error {
    type V = InvalidElement;

    closed spec fn view(&self) -> InvalidElement {
        self.code
    }
}

impl Error {
    /// An error about the element `code`.
    pub fn new(code: InvalidElement) -> (e: Error)
        ensures
            e@ == code,
    {
        Error { code }
    }

    /// The element that could not be read.
    pub fn code(&self) -> (r: InvalidElement)
        ensures
            r == self@,
    {
        self.code
    }

    /// If the type element is invalid
    pub fn is_invalid_type(&self) -> (r: bool)
        ensures
            r == (self@ == InvalidElement::Type),
    {
        matches!(self.code, InvalidElement::Type)
    }

    /// If the scope element is invalid
    pub fn is_invalid_scope(&self) -> (r: bool)
        ensures
            r == (self@ == InvalidElement::Scope),
    {
        matches!(self.code, InvalidElement::Scope)
    }

    /// If the prefix element is invalid
    pub fn is_invalid_prefix(&self) -> (r: bool)
        ensures
            r == (self@ == InvalidElement::Prefix),
    {
        matches!(self.code, InvalidElement::Prefix)
    }

    /// If the description element is invalid
    pub fn is_invalid_desc(&self) -> (r: bool)
        ensures
            r == (self@ == InvalidElement::Desc),
    {
        matches!(self.code, InvalidElement::Desc)
    }

    /// If the body element is invalid
    pub fn is_invalid_body(&self) -> (r: bool)
        ensures
            r == (self@ == InvalidElement::Body),
    {
        matches!(self.code, InvalidElement::Body)
    }

    /// The message that describes the error.
    pub fn message(&self) -> (r: &'static str)
        ensures
            r@ == error_message(self@),
    {
        match self.code {
            InvalidElement::Type => "invalid element",
            InvalidElement::Scope => "invalid scope",
            InvalidElement::Prefix => "invalid prefix",
            InvalidElement::Desc => "invalid description",
            InvalidElement::Body => "invalid body",
        }
    }
}

/// Result type with the crate's [Error] type.
pub type Result<T> = core::result::Result<T, Error>;

/// The message that describes an error about `code`.
pub open spec fn error_message(code: InvalidElement) -> Seq<char> {
    match code {
        InvalidElement::Type => "invalid element"@,
        InvalidElement::Scope => "invalid scope"@,
        InvalidElement::Prefix => "invalid prefix"@,
        InvalidElement::Desc => "invalid description"@,
        InvalidElement::Body => "invalid body"@,
    }
}

} // verus!
