//! Conversion of a Junk document into JSON text.
use vstd::prelude::*;
use crate::model::json;
use crate::grammar::{document_value, document_ints_fit};
use crate::parser::{parse_document, SyntaxError};
use crate::render::{float_renderer, float_texts};

verus! {

/// Converts a Junk document into single-line JSON text.
///
/// A document of values becomes a JSON array, a document of definitions a
/// JSON object. Each float is written as `render_float` writes its literal
/// (the `junk` program and the tests parse the literal as an `f64` and
/// display it). Every integer of the document must fit a signed 64-bit integer.
pub fn parse_junk<F: Fn(&str) -> String>(input: &str, render_float: F) -> (r: Result<
    String,
    SyntaxError,
>)
    requires
        float_renderer(render_float),
        document_ints_fit(input@),
    ensures
        r is Err <==> document_value(input@) is None,
        r matches Ok(out) ==> out@ == json(document_value(input@)->0, float_texts(render_float)),
{
    match parse_document(input) {
        Ok(v) => Ok(v.to_json(&render_float)),
        Err(e) => Err(e),
    }
}

} // verus!
