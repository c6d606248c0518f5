//! What the library takes from outside crates: Draft-07 schema checks from
//! `jsonschema`, JSON-logic evaluation from `jsonlogic`, and canonical JSON
//! text from `serde_json`, all on `serde_json` values converted from the
//! library's own.

use vstd::prelude::*;
use crate::json::{JVal, JsonValue, free_of_key};

verus! {

#[verifier::external_type_specification]
#[verifier::external_body]
pub struct ExSerdeValue(serde_json::Value);

/// Whether `schema` compiles as a Draft-07 JSON schema.
pub uninterp spec fn draft7_compiles(schema: JVal) -> bool;

/// Whether a compiled Draft-07 `schema` accepts `value`.
pub uninterp spec fn draft7_accepts(schema: JVal, value: JVal) -> bool;

/// Whether JSON-logic evaluation of `rule` on `data` gives the boolean true.
pub uninterp spec fn jsonlogic_holds(rule: JVal, data: JVal) -> bool;

/// The canonical text of a value: compact JSON with object keys in sorted order.
pub uninterp spec fn canonical_json(v: JVal) -> Seq<char>;

/// What a schema check said of a value.
#[derive(Debug, PartialEq)]
pub enum SchemaOutcome {
    Valid,
    /// The schema does not compile as a Draft-07 JSON schema.
    SchemaInvalid,
    /// The value fails the schema, with the first validation error.
    ValueInvalid(String),
}

/// The `serde_json` form of a value; only converts. Entries go in last to
/// first, so that of a repeated key the first entry stays, as `lookup` reads it.
#[verifier::external_body]
fn to_serde_value(v: &JsonValue) -> serde_json::Value {
    match v {
        JsonValue::Null => serde_json::Value::Null,
        JsonValue::Bool(b) => serde_json::Value::Bool(*b),
        JsonValue::Number(n) => serde_json::Value::from(*n),
        JsonValue::Str(s) => serde_json::Value::String(s.clone()),
        JsonValue::Array(items) => serde_json::Value::Array(items.iter().map(to_serde_value).collect()),
        JsonValue::Object(ms) => serde_json::Value::Object(
            ms.iter().rev().map(|m| (m.key.clone(), to_serde_value(&m.value))).collect(),
        ),
    }
}

/// Relies on `jsonschema::JSONSchema::options().with_draft(Draft7).compile` and
/// `JSONSchema::validate`: a schema that does not compile is reported as such,
/// else the value is valid exactly when validation yields no error. With the
/// crate's default features off no remote or file reference is resolved, so
/// the outcome depends on schema and value alone. A schema with a `$ref` is
/// left out: a reference that leads back to itself makes validation recurse
/// without end.
#[verifier::external_body]
pub fn check_schema(schema: &JsonValue, value: &JsonValue) -> (r: SchemaOutcome)
    requires
        free_of_key(schema@, "$ref"@),
    ensures
        (r is SchemaInvalid) == !draft7_compiles(schema@),
        (r is Valid) == (draft7_compiles(schema@) && draft7_accepts(schema@, value@)),
{
    let compiled = match jsonschema::JSONSchema::options()
        .with_draft(jsonschema::Draft::Draft7)
        .compile(&to_serde_value(schema)) {
        Ok(c) => c,
        Err(_) => return SchemaOutcome::SchemaInvalid,
    };
    let result = match compiled.validate(&to_serde_value(value)) {
        Ok(()) => SchemaOutcome::Valid,
        Err(mut errors) => SchemaOutcome::ValueInvalid(errors.next().map(|e| e.to_string()).unwrap_or_default()),
    };
    result
}

/// Relies on `jsonlogic::apply`: true exactly when it returns `Ok` of the
/// boolean true; an error or any other result is false. The rule is limited
/// to comparisons and connectives: the arithmetic operators unwrap a float
/// that may be infinite and panic, and nesting is bounded.
#[verifier::external_body]
pub fn logic_holds(rule: &JsonValue, data: &JsonValue) -> (r: bool)
    requires
        crate::condition::safe_condition(rule@),
    ensures
        r == jsonlogic_holds(rule@, data@),
{
    matches!(
        jsonlogic::apply(&to_serde_value(rule), &to_serde_value(data)),
        Ok(serde_json::Value::Bool(true))
    )
}

/// Relies on the `Display` of `serde_json::Value`: compact JSON text. Without
/// the `preserve_order` feature (nothing in this build turns it on) objects are
/// `BTreeMap`s, so keys come out sorted and the text depends on the value alone.
#[verifier::external_body]
pub fn canonical_text(v: &JsonValue) -> (r: String)
    ensures
        r@ == canonical_json(v@),
{
    to_serde_value(v).to_string()
}

} // verus!
