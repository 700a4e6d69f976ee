//! Case conversions, done by the `heck` crate.
//!
//! `heck` splits a string into words at non-alphanumeric characters and at
//! lower-to-upper case changes, then joins the words in the target case. That
//! takes pages to state, so its results are named here and the rest of the
//! library speaks of the names.
use vstd::prelude::*;

verus! {

/// What `heck` makes of a string in PascalCase (`UpperCamelCase`).
pub uninterp spec fn pascal_case(s: Seq<char>) -> Seq<char>;

/// What `heck` makes of a string in SHOUTY_SNAKE_CASE.
pub uninterp spec fn shouty_snake_case(s: Seq<char>) -> Seq<char>;

/// What `heck` makes of a string in snake_case.
pub uninterp spec fn snake_case(s: Seq<char>) -> Seq<char>;

/// Trusted: calls `heck::ToPascalCase::to_pascal_case`, which depends on its
/// argument alone; its result is named `pascal_case`.
#[verifier::external_body]
pub(crate) fn to_pascal_case(s: &str) -> (res: String)
    ensures
        res@ == pascal_case(s@),
{
    heck::ToPascalCase::to_pascal_case(s)
}

/// Trusted: calls `heck::ToShoutySnakeCase::to_shouty_snake_case`, which
/// depends on its argument alone; its result is named `shouty_snake_case`.
#[verifier::external_body]
pub(crate) fn to_shouty_snake_case(s: &str) -> (res: String)
    ensures
        res@ == shouty_snake_case(s@),
{
    heck::ToShoutySnakeCase::to_shouty_snake_case(s)
}

/// Trusted: calls `heck::ToSnakeCase::to_snake_case`, which depends on its
/// argument alone; its result is named `snake_case`.
#[verifier::external_body]
pub(crate) fn to_snake_case(s: &str) -> (res: String)
    ensures
        res@ == snake_case(s@),
{
    heck::ToSnakeCase::to_snake_case(s)
}

} // verus!
