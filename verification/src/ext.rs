//! Items of outside code that the library relies on without proof: the
//! compact string type used to store translation codes, and two standard
//! library conversions that vstd leaves unspecified.

use vstd::prelude::*;

use compact_str::CompactString;

verus! {

#[verifier::external_type_specification]
#[verifier::external_body]
pub struct ExCompactString(CompactString);

/// The characters a `CompactString` holds.
pub uninterp spec fn compact_chars(s: CompactString) -> Seq<char>;

/// Relies on `CompactString::new`: the returned value holds exactly the
/// characters of the given string.
#[verifier::external_body]
pub(crate) fn compact_new(s: &str) -> (r: CompactString)
    ensures
        compact_chars(r) == s@,
{
    CompactString::new(s)
}

/// Relies on `CompactString::as_str`: the returned slice holds the entire
/// string.
#[verifier::external_body]
pub(crate) fn compact_as_str(s: &CompactString) -> (r: &str)
    ensures
        r@ == compact_chars(*s),
{
    s.as_str()
}

/// Relies on `char::from_u32`: `Some` exactly for Unicode scalar values,
/// and the returned character has the given code point.
pub assume_specification[ char::from_u32 ](v: u32) -> (r: Option<char>)
    ensures
        r is Some <==> vstd::utf8::is_scalar(v),
        r matches Some(c) ==> c as u32 == v,
;

/// Relies on `String`'s `FromIterator` implementation over `char`: the
/// collected string holds exactly the characters of the iterator, in order.
#[verifier::external_body]
pub(crate) fn string_from_chars(v: &Vec<char>) -> (r: String)
    ensures
        r@ == v@,
{
    v.iter().collect()
}

} // verus!
