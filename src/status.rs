use vstd::prelude::*;

verus! {

/// The status codes that the framework registers under a name.
pub open spec fn is_registered_status(code: u16) -> bool {
    (100 <= code <= 102) || (200 <= code <= 208) || code == 226 || (300 <= code <= 305)
        || code == 307 || code == 308 || (400 <= code <= 418) || (421 <= code <= 424)
        || code == 426 || code == 428 || code == 429 || code == 431 || code == 451 || (500
        <= code <= 508) || code == 510 || code == 511
}

/// Relies on `rocket::http::Status::from_code`, which returns `Some` exactly
/// for the registered status codes.
#[verifier::external_body]
pub(crate) fn status_is_registered(code: u16) -> (r: bool)
    ensures
        r == is_registered_status(code),
{
    rocket::http::Status::from_code(code).is_some()
}

/// The value of an integer literal, written as Rust source text, read as a `u16`
/// (`None` when the text is no integer literal or the value does not fit).
pub uninterp spec fn int_literal_value(text: Seq<char>) -> Option<u16>;

/// The text begins with an ASCII digit, as every numeric literal does.
pub open spec fn digit_led(text: Seq<char>) -> bool {
    text.len() > 0 && '0' <= text[0] <= '9'
}

/// Relies on `syn::parse_str::<syn::LitInt>` and `syn::LitInt::base10_parse::<u16>`:
/// the literal's value as a `u16`, a function of its text alone. On a text
/// that begins with a digit the first token is a numeric literal, which syn
/// reads as an integer or a float literal; other literals (a C string) can
/// make it panic, so they are left out.
#[verifier::external_body]
pub(crate) fn literal_u16(text: &str) -> (r: Option<u16>)
    requires
        digit_led(text@),
    ensures
        r == int_literal_value(text@),
{
    syn::parse_str::<syn::LitInt>(text).and_then(|lit| lit.base10_parse::<u16>()).ok()
}

} // verus!
