//! Telling remote extension references from local paths: a reference is
//! remote exactly when it parses as a URI that carries a scheme.

use vstd::prelude::*;

verus! {

#[verifier::external_type_specification]
#[verifier::external_body]
pub struct ExUri(hyper::Uri);

/// Whether the string parses as a URI carrying a scheme; what
/// `hyper::Uri`'s parser accepts depends on the characters alone.
pub uninterp spec fn uri_with_scheme(s: Seq<char>) -> bool;

/// Relies on `hyper::Uri`'s `FromStr` parse and `Uri::scheme_str`: both
/// are functions of the string's characters alone.
#[verifier::external_body]
fn parse_uri_checked(s: &str) -> (r: Option<hyper::Uri>)
    ensures
        r is Some <==> uri_with_scheme(s@),
{
    match s.parse::<hyper::Uri>() {
        Ok(uri) => match uri.scheme_str() {
            Some(_) => Some(uri),
            None => None,
        },
        Err(_) => None,
    }
}

/// Parses an extension reference: yields the URI exactly when the string
/// is a remote reference (a URI with a scheme); a bare local path yields
/// nothing.
pub fn uri_parse(uri_str: &str) -> (r: Option<hyper::Uri>)
    ensures
        r is Some <==> uri_with_scheme(uri_str@),
{
    parse_uri_checked(uri_str)
}

} // verus!
