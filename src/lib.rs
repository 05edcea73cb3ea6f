//! Analysis behind a derive that turns an annotated error type into an HTTP
//! response: attribute directives are parsed from tokens, each unit (the type
//! itself, or each enum variant) is resolved to a status code or a delegate
//! field, and the result says exactly what the generated responder does.

pub mod attrs;
pub mod item;
pub mod lemmas;
pub mod status;
