//! Questions about source text that the Rust grammar answers.

use vstd::prelude::*;

verus! {

/// The text is an identifier that is no keyword.
pub uninterp spec fn ident_text(text: Seq<char>) -> bool;

/// The text is a path.
pub uninterp spec fn path_text(text: Seq<char>) -> bool;

/// The text is a type.
pub uninterp spec fn type_text(text: Seq<char>) -> bool;

/// The value of the text, if it is an integer literal whose value fits in a byte.
pub uninterp spec fn byte_text(text: Seq<char>) -> Option<u8>;

/// Calls `syn::parse_str` for an identifier and tells whether it succeeds. What it accepts is
/// named, not spelled out: the same text always gets the same answer.
#[verifier::external_body]
pub(crate) fn is_ident(text: &str) -> (r: bool)
    ensures
        r == ident_text(text@),
{
    syn::parse_str::<syn::Ident>(text).is_ok()
}

/// Calls `syn::parse_str` for a path and tells whether it succeeds. What it accepts is named, not
/// spelled out: the same text always gets the same answer.
#[verifier::external_body]
pub(crate) fn is_path(text: &str) -> (r: bool)
    ensures
        r == path_text(text@),
{
    syn::parse_str::<syn::Path>(text).is_ok()
}

/// Calls `syn::parse_str` for a type and tells whether it succeeds. What it accepts is named, not
/// spelled out: the same text always gets the same answer.
#[verifier::external_body]
pub(crate) fn is_type(text: &str) -> (r: bool)
    ensures
        r == type_text(text@),
{
    syn::parse_str::<syn::Type>(text).is_ok()
}

/// Calls `syn::parse_str` for an integer literal and then `syn::LitInt::base10_parse` for a byte.
/// The value is named, not spelled out: the same text always gets the same answer.
#[verifier::external_body]
pub(crate) fn byte_literal(text: &str) -> (r: Option<u8>)
    ensures
        r == byte_text(text@),
{
    match syn::parse_str::<syn::LitInt>(text) {
        Ok(lit) => lit.base10_parse::<u8>().ok(),
        Err(_) => None,
    }
}

/// Tells whether two texts are the same.
pub fn same_text(a: &String, b: &str) -> (r: bool)
    ensures
        r == (a@ == b@),
{
    let t: String = b.to_owned();
    *a == t
}

} // verus!
