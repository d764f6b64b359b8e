//! The HTTP method of `tide`, and the one question the route tree asks of it:
//! whether two methods are the same.
use vstd::prelude::*;
use tide::http::Method;

verus! {

/// `tide::http::Method`, which is the `Method` of `http-types` as `tide` hands
/// it on: an enum whose variants carry no data, one for each HTTP method. Verus
/// moves its values around without looking inside them.
#[verifier::external_type_specification]
#[verifier::external_body]
pub struct ExMethod(tide::http::Method);

/// Calls `==` on two values of `tide::http::Method`, that is the
/// `PartialEq::eq` which the type derives.
///
/// Verus does not read the body. The contract claims what a derived `eq` does on
/// an enum whose variants carry no data: it answers `true` exactly when both
/// values are the same variant, which is when they are the same value.
#[verifier::external_body]
pub(crate) fn same_method(a: Method, b: Method) -> (same: bool)
    ensures
        same == (a == b),
{
    a == b
}

} // verus!
