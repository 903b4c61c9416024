//! Derives, from the text of a single Cairo struct declaration, the source
//! text of a JSON-object deserialization routine specialized to that struct:
//! one presence flag per field, a first-match dispatch chain over the field
//! names, and a required-field check.
//!
//! `node` and `schema` model the declaration's syntax tree and extract the
//! struct's name and fields from it; `emit` renders the routine's text,
//! stated character for character; `frontend` holds the external parser the
//! tree comes from; and `runtime` states — and proves — what the emitted
//! routine does to an input buffer once compiled: which objects it accepts,
//! which errors it returns, and that encoding a record and reading it back
//! is the identity.

use vstd::prelude::*;

pub mod emit;
pub mod frontend;
pub mod node;
pub mod runtime;
pub mod schema;

use crate::emit::{emit_impl, impl_text};
use crate::frontend::{parse_declaration, parsed_nodes};
use crate::schema::{extract_schema, schema_of, SchemaError};

verus! {

/// Derives the deserialization implementation for the one struct declared in
/// `code`: the external parser supplies the syntax tree, the schema extractor
/// recovers the struct's name and its fields, and the synthesizer renders the
/// routine's text. Fails with `MalformedSchema` exactly when the tree yields
/// no schema: no struct keyword, or no identifier token after the first one.
pub fn json_deserialize(code: &str) -> (r: Result<String, SchemaError>)
    ensures
        match r {
            Ok(text) => {
                &&& schema_of(parsed_nodes(code@)) is Some
                &&& text@ == impl_text(schema_of(parsed_nodes(code@)).unwrap())
            },
            Err(e) => {
                &&& schema_of(parsed_nodes(code@)) is None
                &&& e == SchemaError::MalformedSchema
            },
        },
{
    let nodes = parse_declaration(code);
    let schema = match extract_schema(&nodes) {
        Ok(s) => s,
        Err(e) => {
            return Err(e);
        },
    };
    Ok(emit_impl(&schema))
}

} // verus!
