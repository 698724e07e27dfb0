//! An XML document object model: a parser, a tree of element, text, comment
//! and CDATA nodes that can be queried and edited, and a serializer.
use vstd::prelude::*;

mod chars;
mod codec;
pub mod dom;
pub mod errors;
mod grammar;
mod parsing;
mod scanner;

pub use crate::codec::{attribute_escape, escape, text_escape, unescape};
pub use crate::parsing::parse_str;

verus! {

/// Relies on `String::push`: the character is added at the end.
pub assume_specification[ String::push ](s: &mut String, ch: char)
    ensures
        final(s)@ == old(s)@.push(ch),
;

/// Relies on `char::from_u32`: a scalar value gives its character, a
/// surrogate or a value above `0x10FFFF` gives `None`.
pub assume_specification[ char::from_u32 ](i: u32) -> (r: Option<char>)
    ensures
        r is Some <==> (i <= 0x10FFFF && !(0xD800 <= i && i <= 0xDFFF)),
        r is Some ==> crate::chars::code(r->0) == i as int,
;

} // verus!
