use superposition::auth::{extract_bearer_token, AuthenticationInfo};
use superposition::error::AppError;
use superposition::json::{json_eq, text_eq, JsonValue, Member};
use superposition::last_error::{error_block, take_last_error, to_string, update_last_error, LastError};
use superposition::condition::{condition_holds, is_safe_condition};
use superposition::external::{check_schema, SchemaOutcome};
use superposition::resolve::{resolve, text_less, ContextEntry, DefaultConfig};
use superposition::store::{ConfigStore, CreateReq};

fn s(x: &str) -> JsonValue {
    JsonValue::Str(x.to_string())
}

fn n(x: i64) -> JsonValue {
    JsonValue::Number(x)
}

fn obj(entries: Vec<(&str, JsonValue)>) -> JsonValue {
    JsonValue::Object(members(entries))
}

fn members(entries: Vec<(&str, JsonValue)>) -> Vec<Member> {
    entries.into_iter().map(|(k, v)| Member { key: k.to_string(), value: v }).collect()
}

fn arr(items: Vec<JsonValue>) -> JsonValue {
    JsonValue::Array(items)
}

fn var(name: &str) -> JsonValue {
    obj(vec![("var", s(name))])
}

fn eq_cond(dim: &str, value: JsonValue) -> JsonValue {
    obj(vec![("==", arr(vec![var(dim), value]))])
}

fn default(key: &str, value: JsonValue) -> DefaultConfig {
    DefaultConfig { key: key.to_string(), value, schema: obj(vec![("type", s("number"))]), function_name: None }
}

fn ctx(id: &str, condition: JsonValue, priority: i64, overrides: Vec<(&str, JsonValue)>) -> ContextEntry {
    ContextEntry {
        id: id.to_string(),
        condition,
        override_id: format!("o-{}", id),
        overrides: members(overrides),
        priority,
    }
}

fn store_with_retries() -> ConfigStore {
    let mut store = ConfigStore::new();
    store.add_dimension("country".to_string(), 1).unwrap();
    store.add_dimension("tier".to_string(), 2).unwrap();
    let req = CreateReq { value: Some(n(3)), schema: Some(obj(vec![("type", s("number"))])), function_name: None };
    let entry = store.prepare_default_config("retries", req).unwrap();
    store.upsert_default_config(entry, Ok(())).unwrap();
    store
}

#[test]
fn resolve_defaults_only() {
    let defaults = vec![default("retries", n(3))];
    let out = resolve(&defaults, &vec![], &obj(vec![("country", s("IN"))]));
    assert_eq!(out, members(vec![("retries", n(3))]));
}

#[test]
fn resolve_single_override() {
    let defaults = vec![default("retries", n(3))];
    let contexts = vec![ctx("c1", eq_cond("country", s("IN")), 1, vec![("retries", n(5))])];
    let india = resolve(&defaults, &contexts, &obj(vec![("country", s("IN"))]));
    assert_eq!(india, members(vec![("retries", n(5))]));
    let us = resolve(&defaults, &contexts, &obj(vec![("country", s("US"))]));
    assert_eq!(us, members(vec![("retries", n(3))]));
}

#[test]
fn resolve_priority_tie_break() {
    let defaults = vec![default("retries", n(3))];
    let contexts = vec![
        ctx("country-ctx", eq_cond("country", s("IN")), 1, vec![("retries", n(5))]),
        ctx("tier-ctx", eq_cond("tier", s("gold")), 2, vec![("retries", n(7))]),
    ];
    let data = obj(vec![("country", s("IN")), ("tier", s("gold"))]);
    assert_eq!(resolve(&defaults, &contexts, &data), members(vec![("retries", n(5))]));
    let reversed = vec![
        ctx("tier-ctx", eq_cond("tier", s("gold")), 2, vec![("retries", n(7))]),
        ctx("country-ctx", eq_cond("country", s("IN")), 1, vec![("retries", n(5))]),
    ];
    assert_eq!(resolve(&defaults, &reversed, &data), members(vec![("retries", n(5))]));
}

#[test]
fn resolve_equal_priority_larger_id_wins() {
    let defaults = vec![default("retries", n(3))];
    let contexts = vec![
        ctx("b", eq_cond("country", s("IN")), 1, vec![("retries", n(8))]),
        ctx("a", eq_cond("city", s("BLR")), 1, vec![("retries", n(9))]),
    ];
    let data = obj(vec![("country", s("IN")), ("city", s("BLR"))]);
    assert_eq!(resolve(&defaults, &contexts, &data), members(vec![("retries", n(8))]));
}

#[test]
fn resolve_is_repeatable() {
    let defaults = vec![default("retries", n(3)), default("timeout", n(30))];
    let contexts = vec![ctx("c1", eq_cond("country", s("IN")), 1, vec![("timeout", n(10))])];
    let data = obj(vec![("country", s("IN"))]);
    let a = resolve(&defaults, &contexts, &data);
    let b = resolve(&defaults, &contexts, &data);
    assert_eq!(a, b);
    assert_eq!(a, members(vec![("retries", n(3)), ("timeout", n(10))]));
}

#[test]
fn logic_comparisons() {
    let data = obj(vec![("country", s("IN")), ("age", n(30)), ("user", obj(vec![("tier", s("gold"))]))]);
    assert!(condition_holds(&eq_cond("country", s("IN")), &data));
    assert!(!condition_holds(&obj(vec![("!=", arr(vec![var("country"), s("IN")]))]), &data));
    assert!(condition_holds(&obj(vec![("<", arr(vec![var("age"), n(40)]))]), &data));
    assert!(!condition_holds(&obj(vec![(">=", arr(vec![var("age"), n(31)]))]), &data));
    assert!(condition_holds(&eq_cond("user.tier", s("gold")), &data));
    assert!(!condition_holds(&eq_cond("missing", s("x")), &data));
}

#[test]
fn logic_in_and_connectives() {
    let data = obj(vec![("country", s("IN")), ("variantIds", arr(vec![s("v1"), s("v2")]))]);
    let member = obj(vec![("in", arr(vec![s("v2"), var("variantIds")]))]);
    assert!(condition_holds(&member, &data));
    let absent = obj(vec![("in", arr(vec![s("v3"), var("variantIds")]))]);
    assert!(!condition_holds(&absent, &data));
    let both = obj(vec![("and", arr(vec![eq_cond("country", s("IN")), member.deep_clone()]))]);
    assert!(condition_holds(&both, &data));
    let either = obj(vec![("or", arr(vec![absent.deep_clone(), member.deep_clone()]))]);
    assert!(condition_holds(&either, &data));
    assert!(condition_holds(&obj(vec![("!", absent)]), &data));
    assert!(!condition_holds(&obj(vec![("nosuchop", arr(vec![n(1)]))]), &data));
}

#[test]
fn unsafe_conditions_are_refused() {
    let data = obj(vec![("x", n(1))]);
    let plus = obj(vec![("+", arr(vec![s("1e400")]))]);
    assert!(!is_safe_condition(&plus));
    assert!(!condition_holds(&plus, &data));
    let mut deep = eq_cond("x", n(1));
    assert!(is_safe_condition(&deep));
    for _ in 0..40 {
        deep = obj(vec![("!", arr(vec![deep]))]);
    }
    assert!(!is_safe_condition(&deep));
    let mut store = store_with_retries();
    let r = store.put_context("c".to_string(), plus, "o".to_string(), members(vec![("retries", n(5))]));
    assert!(matches!(r, Err(AppError::BadArgument(_))));
    let defaults = vec![default("retries", n(3))];
    let contexts = vec![ctx("c1", obj(vec![("+", arr(vec![n(1)]))]), 1, vec![("retries", n(5))])];
    assert_eq!(resolve(&defaults, &contexts, &data), members(vec![("retries", n(3))]));
}

#[test]
fn schemas_with_ref_are_refused() {
    let mut store = ConfigStore::new();
    let looping = CreateReq { value: Some(n(1)), schema: Some(obj(vec![("$ref", s("#"))])), function_name: None };
    let entry = store.prepare_default_config("k", looping).unwrap();
    assert_eq!(
        store.upsert_default_config(entry, Ok(())),
        Err(AppError::BadArgument("Schemas with $ref are not supported".to_string()))
    );
    let nested = obj(vec![("items", obj(vec![("$ref", s("#"))]))]);
    let entry = store
        .prepare_default_config("k", CreateReq { value: Some(arr(vec![])), schema: Some(nested), function_name: None })
        .unwrap();
    assert!(store.upsert_default_config(entry, Ok(())).is_err());
    assert!(store.get("k").is_none());
}

#[test]
fn schema_check_outcomes() {
    let number = obj(vec![("type", s("number"))]);
    assert_eq!(check_schema(&number, &n(3)), SchemaOutcome::Valid);
    assert!(matches!(check_schema(&number, &s("x")), SchemaOutcome::ValueInvalid(_)));
    assert_eq!(check_schema(&obj(vec![("type", n(5))]), &n(3)), SchemaOutcome::SchemaInvalid);
}

#[test]
fn json_helpers() {
    assert!(text_eq("abc", "abc"));
    assert!(!text_eq("abc", "abd"));
    assert!(text_less("abc", "abd"));
    assert!(text_less("ab", "abc"));
    assert!(!text_less("b", "abc"));
    let a = obj(vec![("k", arr(vec![n(1), s("x")]))]);
    assert!(json_eq(&a, &a.deep_clone()));
    assert!(!json_eq(&a, &obj(vec![("k", arr(vec![n(1), s("y")]))])));
}

#[test]
fn upsert_then_get_returns_written_value() {
    let mut store = store_with_retries();
    assert_eq!(store.get("retries").unwrap().value, n(3));
    let req = CreateReq { value: Some(n(4)), schema: None, function_name: None };
    let entry = store.prepare_default_config("retries", req).unwrap();
    assert_eq!(entry.schema, obj(vec![("type", s("number"))]));
    store.upsert_default_config(entry, Ok(())).unwrap();
    assert_eq!(store.get("retries").unwrap().value, n(4));
}

#[test]
fn upsert_rejections() {
    let mut store = store_with_retries();
    let empty = CreateReq { value: None, schema: None, function_name: None };
    assert!(matches!(store.prepare_default_config("retries", empty), Err(AppError::BadArgument(_))));
    let missing_schema = CreateReq { value: Some(n(1)), schema: None, function_name: None };
    assert!(matches!(store.prepare_default_config("timeout", missing_schema), Err(AppError::BadArgument(_))));
    let bad_fn = CreateReq { value: Some(n(1)), schema: None, function_name: Some(n(2)) };
    assert!(matches!(store.prepare_default_config("retries", bad_fn), Err(AppError::BadArgument(_))));
    let entry = store
        .prepare_default_config("retries", CreateReq { value: Some(s("x")), schema: None, function_name: None })
        .unwrap();
    match store.upsert_default_config(entry, Ok(())) {
        Err(AppError::BadArgument(m)) => assert!(m.starts_with("Schema validation failed: ")),
        other => panic!("unexpected {:?}", other),
    }
    assert_eq!(store.get("retries").unwrap().value, n(3));
    let entry = store
        .prepare_default_config("retries", CreateReq { value: None, schema: None, function_name: Some(s("f")) })
        .unwrap();
    assert!(matches!(store.upsert_default_config(entry, Err("rejected".to_string())), Err(AppError::BadArgument(_))));
    assert_eq!(store.get("retries").unwrap().function_name, None);
}

#[test]
fn function_name_set_and_cleared() {
    let mut store = store_with_retries();
    let set = CreateReq { value: None, schema: None, function_name: Some(s("check")) };
    let entry = store.prepare_default_config("retries", set).unwrap();
    assert_eq!(entry.function_name, Some("check".to_string()));
    store.upsert_default_config(entry, Ok(())).unwrap();
    let clear = CreateReq { value: None, schema: None, function_name: Some(JsonValue::Null) };
    let entry = store.prepare_default_config("retries", clear).unwrap();
    assert_eq!(entry.function_name, None);
}

#[test]
fn put_context_is_idempotent() {
    let mut store = store_with_retries();
    let cond = eq_cond("country", s("IN"));
    store.put_context("c1".to_string(), cond.deep_clone(), "o1".to_string(), members(vec![("retries", n(5))])).unwrap();
    store.put_context("c1".to_string(), cond, "o1".to_string(), members(vec![("retries", n(5))])).unwrap();
    assert_eq!(store.contexts.len(), 1);
    assert_eq!(store.contexts[0].priority, 1);
}

#[test]
fn put_context_priority_and_rejections() {
    let mut store = store_with_retries();
    let cond = obj(vec![("and", arr(vec![eq_cond("country", s("IN")), eq_cond("tier", s("gold"))]))]);
    store.put_context("c2".to_string(), cond, "o2".to_string(), members(vec![("retries", n(6))])).unwrap();
    assert_eq!(store.contexts[0].priority, 3);
    let unknown_key = store.put_context(
        "c3".to_string(),
        eq_cond("country", s("US")),
        "o3".to_string(),
        members(vec![("timeout", n(1))]),
    );
    assert!(matches!(unknown_key, Err(AppError::BadArgument(_))));
    let unknown_dim =
        store.put_context("c4".to_string(), eq_cond("city", s("BLR")), "o4".to_string(), members(vec![("retries", n(1))]));
    assert!(matches!(unknown_dim, Err(AppError::BadArgument(_))));
    let bad_value = store.put_context(
        "c5".to_string(),
        eq_cond("country", s("US")),
        "o5".to_string(),
        members(vec![("retries", s("many"))]),
    );
    assert!(matches!(bad_value, Err(AppError::BadArgument(_))));
    assert_eq!(store.contexts.len(), 1);
}

#[test]
fn delete_default_blocked_when_used() {
    let mut store = store_with_retries();
    store
        .put_context("c1".to_string(), eq_cond("country", s("IN")), "o1".to_string(), members(vec![("retries", n(5))]))
        .unwrap();
    assert_eq!(store.get_key_usage_context_ids("retries"), vec!["c1".to_string()]);
    store
        .put_context("c2".to_string(), eq_cond("country", s("US")), "o2".to_string(), members(vec![("retries", n(6))]))
        .unwrap();
    assert_eq!(
        store.delete_default_config("retries"),
        Err(AppError::BadArgument("Given key already in use in contexts: c1,c2".to_string()))
    );
    store.delete_context("c2").unwrap();
    assert!(matches!(store.delete_default_config("nope"), Err(AppError::NotFound(_))));
    store.delete_context("c1").unwrap();
    assert!(matches!(store.delete_context("c1"), Err(AppError::NotFound(_))));
    store.delete_default_config("retries").unwrap();
    assert!(store.get("retries").is_none());
}

#[test]
fn dimension_collisions() {
    let mut store = store_with_retries();
    assert!(matches!(store.add_dimension("country".to_string(), 9), Err(AppError::BadArgument(_))));
    assert!(matches!(store.add_dimension("city".to_string(), 1), Err(AppError::BadArgument(_))));
    assert!(store.add_dimension("city".to_string(), 3).is_ok());
    assert_eq!(store.dimensions.len(), 3);
}

#[test]
fn bearer_authentication() {
    assert_eq!(extract_bearer_token("Bearer abc"), Some("abc".to_string()));
    assert_eq!(extract_bearer_token("Basic abc"), None);
    assert_eq!(extract_bearer_token("Bearer"), None);
    let ok = AuthenticationInfo::from_request(Some("Bearer secret"), Some("secret")).unwrap();
    assert_eq!(ok.0, "cac.admin@juspay.in");
    assert!(matches!(
        AuthenticationInfo::from_request(Some("Bearer other"), Some("secret")),
        Err(AppError::Unauthorized(_))
    ));
    assert_eq!(
        AuthenticationInfo::from_request(None, Some("secret")),
        Err(AppError::Unauthorized("Bearer token required.".to_string()))
    );
    assert!(matches!(AuthenticationInfo::from_request(Some("Bearer secret"), None), Err(AppError::Unexpected(_))));
}

#[test]
fn last_error_buffer() {
    let mut slot = LastError::new();
    assert_eq!(take_last_error(&mut slot), None);
    update_last_error(&mut slot, to_string("boom"));
    assert_eq!(take_last_error(&mut slot), Some("boom".to_string()));
    assert_eq!(take_last_error(&mut slot), None);
    let r: Option<u8> = error_block(&mut slot, "bad".to_string());
    assert_eq!(r, None);
    assert_eq!(slot.message, Some("bad".to_string()));
}

#[test]
fn store_resolves_with_its_contexts() {
    let mut store = store_with_retries();
    store
        .put_context("c1".to_string(), eq_cond("country", s("IN")), "o1".to_string(), members(vec![("retries", n(5))]))
        .unwrap();
    assert_eq!(store.resolve(&obj(vec![("country", s("IN"))])), members(vec![("retries", n(5))]));
    assert_eq!(store.resolve(&obj(vec![("country", s("US"))])), members(vec![("retries", n(3))]));
}

#[test]
fn canonical_context_ids() {
    let mut store = store_with_retries();
    let req = CreateReq { value: Some(n(30)), schema: Some(obj(vec![("type", s("number"))])), function_name: None };
    let entry = store.prepare_default_config("timeout", req).unwrap();
    store.upsert_default_config(entry, Ok(())).unwrap();
    let (c1, o1) = store
        .put_canonical_context(eq_cond("country", s("IN")), members(vec![("retries", n(5)), ("timeout", n(9))]))
        .unwrap();
    let (c2, o2) = store
        .put_canonical_context(eq_cond("country", s("IN")), members(vec![("timeout", n(9)), ("retries", n(5))]))
        .unwrap();
    assert_eq!(c1, "{\"==\":[{\"var\":\"country\"},\"IN\"]}");
    assert_eq!(o1, "{\"retries\":5,\"timeout\":9}");
    assert_eq!((c1.clone(), o1), (c2, o2));
    assert_eq!(store.contexts.len(), 1);
    assert_eq!(store.get_key_usage_context_ids("retries"), vec![c1]);
}

#[test]
fn config_schema_guards_entry_schemas() {
    let mut store = ConfigStore::new();
    store.config_schema = Some(obj(vec![("type", s("object")), ("required", arr(vec![s("type")]))]));
    let untyped = CreateReq { value: Some(n(1)), schema: Some(obj(vec![])), function_name: None };
    let entry = store.prepare_default_config("k", untyped).unwrap();
    assert!(matches!(store.upsert_default_config(entry, Ok(())), Err(AppError::BadArgument(_))));
    let typed = CreateReq { value: Some(n(1)), schema: Some(obj(vec![("type", s("number"))])), function_name: None };
    let entry = store.prepare_default_config("k", typed).unwrap();
    assert_eq!(store.upsert_default_config(entry, Ok(())), Ok(()));
}
