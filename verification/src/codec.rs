//! JSON encoding of stored values, done by `serde_json`.
//!
//! A stored value is a `serde_json::Value`. Verus sees nothing inside one: the
//! spec functions below give names to what the encoder and the decoder
//! return, and every contract that mentions an encoded value goes through them.

use vstd::prelude::*;

verus! {

#[verifier::external_type_specification]
#[verifier::external_body]
pub struct ExValue(serde_json::Value);

#[verifier::external_type_specification]
#[verifier::external_body]
pub struct ExJsonError(serde_json::Error);

/// What decoding `text` gives: the value, or the decoder's error where `text`
/// is not one JSON value.
pub uninterp spec fn json_decoded(text: Seq<char>) -> Result<serde_json::Value, serde_json::Error>;

/// What encoding `value` gives: its compact JSON text, or the encoder's error.
pub uninterp spec fn json_encoded(value: serde_json::Value) -> Result<
    Seq<char>,
    serde_json::Error,
>;

/// What an error of the decoder or the encoder prints as.
pub uninterp spec fn error_text(cause: serde_json::Error) -> Seq<char>;

/// A character that is printed, and is neither a blank nor a control
/// character: one from `!` to `~`.
pub open spec fn is_mark(c: char) -> bool {
    0x21 <= c as u32 <= 0x7E
}

/// A text that stands on one line and begins and ends with a mark.
pub open spec fn is_compact(text: Seq<char>) -> bool {
    &&& text.len() > 0
    &&& is_mark(text[0])
    &&& is_mark(text.last())
    &&& !text.contains('\n')
}

/// `serde_json::from_str` at type `serde_json::Value`. It is a function of the
/// text alone: the contract only gives its outcome the name `json_decoded`.
#[verifier::external_body]
pub(crate) fn decode_value(text: &str) -> (r: Result<serde_json::Value, serde_json::Error>)
    ensures
        r == json_decoded(text@),
{
    serde_json::from_str::<serde_json::Value>(text)
}

/// `serde_json::to_string` on a `serde_json::Value`. It is a function of the
/// value alone, and the contract gives its outcome the name `json_encoded`.
/// The text that it gives is compact: it begins and ends with a character of
/// JSON's syntax (a quote, a bracket, a brace, a digit, a sign or a letter of
/// `null`, `true`, `false`), and a line feed inside a string is written as
/// the two characters `\n`.
#[verifier::external_body]
pub(crate) fn encode_value(value: &serde_json::Value) -> (r: Result<String, serde_json::Error>)
    ensures
        match r {
            Ok(text) => json_encoded(*value) == Ok::<Seq<char>, serde_json::Error>(text@)
                && is_compact(text@),
            Err(cause) => json_encoded(*value) == Err::<Seq<char>, serde_json::Error>(cause),
        },
{
    serde_json::to_string(value)
}

/// `to_string` on a `serde_json::Error`: what the error prints as. It is a
/// function of the error alone: the contract only gives the text the name
/// `error_text`.
#[verifier::external_body]
pub(crate) fn cause_text(cause: &serde_json::Error) -> (text: String)
    ensures
        text@ == error_text(*cause),
{
    cause.to_string()
}

} // verus!
