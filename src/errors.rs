//! The error types of the library. Each kind of failure has a struct of its
//! own, and `KissXmlError` gathers them.
use vstd::prelude::*;
use crate::chars::{decimal, push_decimal, push_text};

verus! {

/// An error that occurs while parsing or processing XML.
#[derive(Debug)]
pub enum KissXmlError {
    /// The XML syntax or structure is wrong.
    ParsingError(ParsingError),
    /// A node was cast to a kind that it is not.
    TypeCastError(TypeCastError),
    /// Something that was asked for is not there.
    DoesNotExistError(DoesNotExistError),
    /// An index lies outside a collection.
    IndexOutOfBounds(IndexOutOfBounds),
    /// An attribute name is not valid.
    InvalidAttributeName(InvalidAttributeName),
    /// An element name is not valid.
    InvalidElementName(InvalidElementName),
    /// Comment or CDATA content holds its own terminator.
    InvalidContent(InvalidContent),
    /// Valid XML that this library does not handle.
    NotSupportedError(NotSupportedError),
    /// Reading or writing failed; the message says why.
    IOError(String),
}

/// An error in the XML syntax or structure.
#[derive(Debug, Clone)]
pub struct ParsingError {
    pub msg: String,
}

/// A node was cast to a kind that it is not.
#[derive(Debug, Clone)]
pub struct TypeCastError {
    pub msg: String,
}

/// Something that was asked for is not there.
#[derive(Debug, Clone)]
pub struct DoesNotExistError {
    pub msg: String,
}

/// An index lies outside a collection.
#[derive(Debug, Clone)]
pub struct IndexOutOfBounds {
    /// The index that was asked for.
    pub index: isize,
    /// The valid range, where known.
    pub bounds: Option<(isize, isize)>,
}

/// An attribute name is not valid.
#[derive(Debug, Clone)]
pub struct InvalidAttributeName {
    pub msg: String,
}

/// An element name is not valid.
#[derive(Debug, Clone)]
pub struct InvalidElementName {
    pub msg: String,
}

/// Comment or CDATA content holds its own terminator.
#[derive(Debug, Clone)]
pub struct InvalidContent {
    pub msg: String,
}

/// Valid XML that this library does not handle.
#[derive(Debug, Clone)]
pub struct NotSupportedError {
    pub msg: String,
}

fn owned(s: &str) -> (r: String)
    ensures
        r@ == s@,
{
    let mut r = String::new();
    push_text(&mut r, s);
    r
}

fn labelled(label: &str, msg: &String) -> (r: String)
    ensures
        r@ == label@ + msg@,
{
    let mut r = String::new();
    push_text(&mut r, label);
    push_text(&mut r, msg.as_str());
    r
}

impl ParsingError {
    pub fn new(msg: &str) -> (r: Self)
        ensures
            r.msg@ == msg@,
    {
        ParsingError { msg: owned(msg) }
    }

    /// The message, labelled with the kind of error.
    pub fn to_string(&self) -> (r: String)
        ensures
            r@ == "ParsingError: "@ + self.msg@,
    {
        labelled("ParsingError: ", &self.msg)
    }
}

impl TypeCastError {
    pub fn new(msg: &str) -> (r: Self)
        ensures
            r.msg@ == msg@,
    {
        TypeCastError { msg: owned(msg) }
    }

    /// The message, labelled with the kind of error.
    pub fn to_string(&self) -> (r: String)
        ensures
            r@ == "TypeCastError: "@ + self.msg@,
    {
        labelled("TypeCastError: ", &self.msg)
    }
}

impl DoesNotExistError {
    pub fn new(msg: &str) -> (r: Self)
        ensures
            r.msg@ == msg@,
    {
        DoesNotExistError { msg: owned(msg) }
    }

    /// The message, labelled with the kind of error.
    pub fn to_string(&self) -> (r: String)
        ensures
            r@ == "DoesNotExistError: "@ + self.msg@,
    {
        labelled("DoesNotExistError: ", &self.msg)
    }
}

impl Default for DoesNotExistError {
    fn default() -> (r: Self)
        ensures
            r.msg@ == "requested item not found"@,
    {
        DoesNotExistError::new("requested item not found")
    }
}

/// The decimal form of `n`, with a minus sign when negative.
pub open spec fn signed_decimal(n: int) -> Seq<char> {
    if n < 0 { seq!['-'] + decimal((-n) as nat) } else { decimal(n as nat) }
}

fn push_signed(out: &mut String, n: isize)
    ensures
        final(out)@ == old(out)@ + signed_decimal(n as int),
{
    if n >= 0 {
        push_decimal(out, n as usize);
    } else {
        let ghost start = out@;
        out.push('-');
        let magnitude: usize = ((-(n + 1)) as usize) + 1;
        push_decimal(out, magnitude);
        proof {
            assert(out@ =~= start + signed_decimal(n as int));
        }
    }
}

impl IndexOutOfBounds {
    pub fn new(index: isize, bounds: Option<(isize, isize)>) -> (r: Self)
        ensures
            r.index == index,
            r.bounds == bounds,
    {
        IndexOutOfBounds { index, bounds }
    }

    pub open spec fn to_string_v(&self) -> Seq<char> {
        "Index "@ + signed_decimal(self.index as int) + " is out of bounds"@ + match self.bounds {
            Some(b) => " (valid range: "@ + signed_decimal(b.0 as int) + " - "@ + signed_decimal(b.1 as int) + ")"@,
            None => Seq::empty(),
        }
    }

    /// `Index i is out of bounds`, followed by ` (valid range: a - b)` when
    /// the bounds are known.
    pub fn to_string(&self) -> (r: String)
        ensures
            r@ == self.to_string_v(),
    {
        let mut r = owned("Index ");
        push_signed(&mut r, self.index);
        push_text(&mut r, " is out of bounds");
        match self.bounds {
            Some((lo, hi)) => {
                push_text(&mut r, " (valid range: ");
                push_signed(&mut r, lo);
                push_text(&mut r, " - ");
                push_signed(&mut r, hi);
                push_text(&mut r, ")");
            },
            None => {},
        }
        r
    }
}

impl InvalidAttributeName {
    pub fn new(msg: &str) -> (r: Self)
        ensures
            r.msg@ == msg@,
    {
        InvalidAttributeName { msg: owned(msg) }
    }

    /// The message, labelled with the kind of error.
    pub fn to_string(&self) -> (r: String)
        ensures
            r@ == "InvalidAttributeName: "@ + self.msg@,
    {
        labelled("InvalidAttributeName: ", &self.msg)
    }
}

impl InvalidElementName {
    pub fn new(msg: &str) -> (r: Self)
        ensures
            r.msg@ == msg@,
    {
        InvalidElementName { msg: owned(msg) }
    }

    /// The message, labelled with the kind of error.
    pub fn to_string(&self) -> (r: String)
        ensures
            r@ == "InvalidElementName: "@ + self.msg@,
    {
        labelled("InvalidElementName: ", &self.msg)
    }
}

impl InvalidContent {
    pub fn new(msg: &str) -> (r: Self)
        ensures
            r.msg@ == msg@,
    {
        InvalidContent { msg: owned(msg) }
    }

    /// The message, labelled with the kind of error.
    pub fn to_string(&self) -> (r: String)
        ensures
            r@ == "InvalidContent: "@ + self.msg@,
    {
        labelled("InvalidContent: ", &self.msg)
    }
}

impl NotSupportedError {
    pub fn new(msg: &str) -> (r: Self)
        ensures
            r.msg@ == msg@,
    {
        NotSupportedError { msg: owned(msg) }
    }

    /// The message, labelled with the kind of error.
    pub fn to_string(&self) -> (r: String)
        ensures
            r@ == "NotSupportedError: "@ + self.msg@,
    {
        labelled("NotSupportedError: ", &self.msg)
    }
}

impl KissXmlError {
    /// The message of the error inside, labelled with its kind.
    pub fn to_string(&self) -> (r: String)
        ensures
            self is ParsingError ==> r@ == "ParsingError: "@ + self->ParsingError_0.msg@,
            self is TypeCastError ==> r@ == "TypeCastError: "@ + self->TypeCastError_0.msg@,
            self is DoesNotExistError ==> r@ == "DoesNotExistError: "@ + self->DoesNotExistError_0.msg@,
            self is InvalidAttributeName ==> r@ == "InvalidAttributeName: "@ + self->InvalidAttributeName_0.msg@,
            self is InvalidElementName ==> r@ == "InvalidElementName: "@ + self->InvalidElementName_0.msg@,
            self is InvalidContent ==> r@ == "InvalidContent: "@ + self->InvalidContent_0.msg@,
            self is NotSupportedError ==> r@ == "NotSupportedError: "@ + self->NotSupportedError_0.msg@,
            self is IOError ==> r@ == "IOError: "@ + self->IOError_0@,
            self is IndexOutOfBounds ==> r@ == self->IndexOutOfBounds_0.to_string_v(),
    {
        match self {
            KissXmlError::ParsingError(e) => e.to_string(),
            KissXmlError::TypeCastError(e) => e.to_string(),
            KissXmlError::DoesNotExistError(e) => e.to_string(),
            KissXmlError::IndexOutOfBounds(e) => e.to_string(),
            KissXmlError::InvalidAttributeName(e) => e.to_string(),
            KissXmlError::InvalidElementName(e) => e.to_string(),
            KissXmlError::InvalidContent(e) => e.to_string(),
            KissXmlError::NotSupportedError(e) => e.to_string(),
            KissXmlError::IOError(m) => labelled("IOError: ", m),
        }
    }
}

impl From<ParsingError> for KissXmlError {
    fn from(e: ParsingError) -> (r: Self) {
        KissXmlError::ParsingError(e)
    }
}

impl vstd::std_specs::convert::FromSpecImpl<ParsingError> for KissXmlError {
    open spec fn obeys_from_spec() -> bool {
        true
    }

    open spec fn from_spec(e: ParsingError) -> Self {
        KissXmlError::ParsingError(e)
    }
}

} // verus!
