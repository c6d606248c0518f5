use chrono::TimeZone;
use superposition::assign::decide;
use superposition::client::{decide_variant, next_page, Client, Config, INITIAL_WATERMARK};
use superposition::error::AppError;
use superposition::experiment::{Experiment, ExperimentStatusType, Variant, VariantType};
use superposition::json::{JsonValue, Member};
use superposition::lifecycle::{conclude, create_experiment, ramp};
use superposition::store::{ConfigStore, CreateReq};
use superposition::validation::{
    add_variant_dimension_to_ctx, are_overlapping_contexts, check_variant_override_coverage,
    check_variant_types, check_variants_override_coverage, extract_dimensions, extract_override_keys,
    is_valid_experiment, validate_experiment, validate_override_keys, ExperimentationFlags,
};

fn s(x: &str) -> JsonValue {
    JsonValue::Str(x.to_string())
}

fn n(x: i64) -> JsonValue {
    JsonValue::Number(x)
}

fn members(entries: Vec<(&str, JsonValue)>) -> Vec<Member> {
    entries.into_iter().map(|(k, v)| Member { key: k.to_string(), value: v }).collect()
}

fn obj(entries: Vec<(&str, JsonValue)>) -> JsonValue {
    JsonValue::Object(members(entries))
}

fn arr(items: Vec<JsonValue>) -> JsonValue {
    JsonValue::Array(items)
}

fn eq_cond(dim: &str, value: JsonValue) -> JsonValue {
    obj(vec![("==", arr(vec![obj(vec![("var", s(dim))]), value]))])
}

fn variant(id: &str, t: VariantType, overrides: Vec<(&str, JsonValue)>) -> Variant {
    Variant { id: id.to_string(), variant_type: t, overrides: members(overrides) }
}

fn experiment(id: i64, status: ExperimentStatusType, context: JsonValue, keys: Vec<&str>, traffic: u8) -> Experiment {
    let over: Vec<(&str, JsonValue)> = keys.iter().map(|k| (*k, n(1))).collect();
    Experiment {
        id,
        name: format!("exp-{}", id),
        status,
        context,
        override_keys: keys.iter().map(|k| k.to_string()).collect(),
        variants: vec![
            variant(&format!("{}-c", id), VariantType::CONTROL, over.iter().map(|(k, v)| (*k, v.deep_clone())).collect()),
            variant(&format!("{}-a", id), VariantType::EXPERIMENTAL, over.iter().map(|(k, v)| (*k, v.deep_clone())).collect()),
        ],
        traffic_percentage: traffic,
        last_modified: 0,
        chosen_variant: None,
    }
}

fn flags(same_overlap: bool, diff_overlap: bool, same_non_overlap: bool) -> ExperimentationFlags {
    ExperimentationFlags {
        allow_same_keys_overlapping_ctx: same_overlap,
        allow_diff_keys_overlapping_ctx: diff_overlap,
        allow_same_keys_non_overlapping_ctx: same_non_overlap,
    }
}

fn config() -> Config {
    Config { tenant: "t".to_string(), hostname: "http://localhost".to_string(), poll_frequency: 10 }
}

fn store_with(keys: Vec<&str>) -> ConfigStore {
    let mut store = ConfigStore::new();
    for k in keys {
        let req = CreateReq { value: Some(n(3)), schema: Some(obj(vec![("type", s("number"))])), function_name: None };
        let entry = store.prepare_default_config(k, req).unwrap();
        store.upsert_default_config(entry, Ok(())).unwrap();
    }
    store
}

#[test]
fn decide_assignment_scenario() {
    assert_eq!(decide(10, 3, 5), Some(0));
    assert_eq!(decide(10, 3, 15), Some(1));
    assert_eq!(decide(10, 3, 25), Some(2));
    assert_eq!(decide(10, 3, 31), None);
    assert_eq!(decide(0, 3, 0), None);
    let vars = vec![
        variant("c", VariantType::CONTROL, vec![]),
        variant("a", VariantType::EXPERIMENTAL, vec![]),
        variant("b", VariantType::EXPERIMENTAL, vec![]),
    ];
    assert_eq!(decide_variant(10, &vars, 15).map(|v| v.id), Some("a".to_string()));
    assert_eq!(decide_variant(10, &vars, 31).map(|v| v.id), None);
}

#[test]
fn decide_coverage_counts() {
    let mut counts = [0usize; 4];
    for toss in 0..100u8 {
        match decide(10, 3, toss) {
            Some(i) => counts[i] += 1,
            None => counts[3] += 1,
        }
        assert_eq!(decide(10, 3, toss), decide(10, 3, toss));
    }
    assert_eq!(counts, [10, 10, 10, 70]);
    let mut full = [0usize; 2];
    for toss in 0..100u8 {
        full[decide(50, 2, toss).unwrap()] += 1;
    }
    assert_eq!(full, [50, 50]);
}

#[test]
fn variant_type_checks() {
    let ok = vec![variant("c", VariantType::CONTROL, vec![]), variant("a", VariantType::EXPERIMENTAL, vec![])];
    assert_eq!(check_variant_types(&ok), Ok(()));
    let two_controls = vec![variant("c", VariantType::CONTROL, vec![]), variant("d", VariantType::CONTROL, vec![])];
    assert!(matches!(check_variant_types(&two_controls), Err(AppError::BadArgument(_))));
    let no_experimental = vec![variant("c", VariantType::CONTROL, vec![])];
    assert!(matches!(check_variant_types(&no_experimental), Err(AppError::BadArgument(_))));
}

#[test]
fn override_key_checks() {
    assert_eq!(validate_override_keys(&vec!["a".to_string(), "b".to_string()]), Ok(()));
    assert!(validate_override_keys(&vec!["a".to_string(), "a".to_string()]).is_err());
    let keys = vec!["retries".to_string(), "timeout".to_string()];
    let full = members(vec![("timeout", n(1)), ("retries", n(2))]);
    let partial = members(vec![("retries", n(2))]);
    let other = members(vec![("retries", n(2)), ("other", n(2))]);
    assert!(check_variant_override_coverage(&full, &keys));
    assert!(!check_variant_override_coverage(&partial, &keys));
    assert!(!check_variant_override_coverage(&other, &keys));
    let repeated = members(vec![("a", n(1)), ("a", n(2))]);
    assert!(check_variant_override_coverage(&repeated, &vec!["a".to_string()]));
    assert!(check_variants_override_coverage(&vec![&full, &full], &keys));
    assert!(!check_variants_override_coverage(&vec![&full, &partial], &keys));
    assert_eq!(extract_override_keys(&full), vec!["timeout".to_string(), "retries".to_string()]);
}

#[test]
fn dimensions_and_overlap() {
    let a = obj(vec![("and", arr(vec![eq_cond("country", s("IN")), eq_cond("tier", s("gold"))]))]);
    let dims = extract_dimensions(&a).unwrap();
    assert_eq!(dims, members(vec![("country", s("IN")), ("tier", s("gold"))]));
    let b = eq_cond("country", s("IN"));
    let c = eq_cond("country", s("US"));
    assert_eq!(are_overlapping_contexts(&a, &b), Ok(true));
    assert_eq!(are_overlapping_contexts(&b, &a), Ok(true));
    assert_eq!(are_overlapping_contexts(&a, &c), Ok(false));
    assert!(matches!(are_overlapping_contexts(&n(1), &b), Err(AppError::BadArgument(_))));
}

#[test]
fn overlap_rejection_scenario() {
    let existing = vec![experiment(1, ExperimentStatusType::INPROGRESS, eq_cond("country", s("IN")), vec!["retries"], 10)];
    let keys = vec!["retries".to_string(), "timeout".to_string()];
    let r = is_valid_experiment(&eq_cond("country", s("IN")), &keys, &flags(false, true, true), &existing).unwrap();
    assert!(!r.0);
    assert!(r.1.len() > 0);
    let allowed = is_valid_experiment(&eq_cond("country", s("IN")), &keys, &flags(true, true, true), &existing).unwrap();
    assert_eq!(allowed, (true, String::new()));
    let elsewhere = is_valid_experiment(&eq_cond("country", s("US")), &keys, &flags(false, true, true), &existing).unwrap();
    assert!(elsewhere.0);
    let non_overlap = is_valid_experiment(&eq_cond("country", s("US")), &keys, &flags(true, true, false), &existing).unwrap();
    assert!(!non_overlap.0);
}

#[test]
fn validate_skips_inactive_and_self() {
    let stored = vec![
        experiment(1, ExperimentStatusType::CONCLUDED, eq_cond("country", s("IN")), vec!["retries"], 10),
        experiment(2, ExperimentStatusType::CREATED, eq_cond("country", s("IN")), vec!["retries"], 0),
    ];
    let keys = vec!["retries".to_string()];
    let f = flags(false, false, false);
    assert!(!validate_experiment(&eq_cond("country", s("IN")), &keys, None, &f, &stored).unwrap().0);
    assert!(validate_experiment(&eq_cond("country", s("IN")), &keys, Some(2), &f, &stored).unwrap().0);
}

#[test]
fn variant_context_rewrite() {
    let single = eq_cond("country", s("IN"));
    let out = add_variant_dimension_to_ctx(&single, "v1".to_string()).unwrap();
    let clause = obj(vec![("in", arr(vec![s("v1"), obj(vec![("var", s("variantIds"))])]))]);
    assert_eq!(out, obj(vec![("and", arr(vec![eq_cond("country", s("IN")), clause.deep_clone()]))]));
    let conj = obj(vec![("and", arr(vec![eq_cond("country", s("IN"))]))]);
    let out2 = add_variant_dimension_to_ctx(&conj, "v1".to_string()).unwrap();
    assert_eq!(out2, out);
    assert!(matches!(add_variant_dimension_to_ctx(&n(3), "v1".to_string()), Err(AppError::BadArgument(_))));
    let bad = obj(vec![("and", n(1))]);
    assert!(matches!(add_variant_dimension_to_ctx(&bad, "v1".to_string()), Err(AppError::BadArgument(_))));
}

#[test]
fn poll_delta_removes_concluded() {
    let mut client = Client::new(config());
    assert_eq!(client.last_polled, INITIAL_WATERMARK);
    let t0 = client.poll_request(1000);
    client.on_poll_result(&t0, &Ok(vec![experiment(1, ExperimentStatusType::INPROGRESS, eq_cond("country", s("IN")), vec!["retries"], 10)]));
    assert_eq!(client.get_running_experiments().len(), 1);
    assert_eq!(client.last_polled, 1000);
    let t1 = client.poll_request(2000);
    assert_eq!(t1.from_date, 1000);
    client.on_poll_result(&t1, &Ok(vec![experiment(1, ExperimentStatusType::CONCLUDED, eq_cond("country", s("IN")), vec!["retries"], 10)]));
    assert_eq!(client.get_running_experiments().len(), 0);
}

#[test]
fn poll_with_nothing_new_keeps_store() {
    let mut client = Client::new(config());
    let t0 = client.poll_request(1000);
    client.on_poll_result(&t0, &Ok(vec![experiment(1, ExperimentStatusType::INPROGRESS, eq_cond("country", s("IN")), vec!["retries"], 10)]));
    let before = client.get_running_experiments();
    let t1 = client.poll_request(2000);
    client.on_poll_result(&t1, &Ok(vec![]));
    assert_eq!(client.get_running_experiments(), before);
    let t2 = client.poll_request(3000);
    client.on_poll_result(&t2, &Err("timeout".to_string()));
    assert_eq!(client.get_running_experiments(), before);
    assert_eq!(client.last_polled, 2000);
}

#[test]
fn client_queries() {
    let mut client = Client::new(config());
    let t0 = client.poll_request(1000);
    client.on_poll_result(
        &t0,
        &Ok(vec![
            experiment(1, ExperimentStatusType::INPROGRESS, eq_cond("country", s("IN")), vec!["retries"], 10),
            experiment(2, ExperimentStatusType::INPROGRESS, eq_cond("country", s("US")), vec!["timeout"], 50),
        ]),
    );
    let india = obj(vec![("country", s("IN"))]);
    assert_eq!(client.get_applicable_variant(&india, 5), vec!["1-c".to_string()]);
    assert_eq!(client.get_applicable_variant(&india, 15), vec!["1-a".to_string()]);
    assert_eq!(client.get_applicable_variant(&india, 25), Vec::<String>::new());
    let sat = client.get_satisfied_experiments(&india);
    assert_eq!(sat.len(), 1);
    assert_eq!(sat[0].id, 1);
    let t1 = client.poll_request(2000);
    client.on_poll_result(&t1, &Ok(vec![experiment(1, ExperimentStatusType::INPROGRESS, eq_cond("country", s("IN")), vec!["retries"], 20)]));
    assert_eq!(client.get_running_experiments().len(), 2);
    assert_eq!(client.get_running_experiments()[0].traffic_percentage, 20);
}

#[test]
fn pagination() {
    assert_eq!(next_page(1, 100), Some(2));
    assert_eq!(next_page(1, 40), None);
}

#[test]
fn lifecycle_create_ramp_conclude() {
    let mut store = store_with(vec!["retries", "timeout"]);
    let vars = vec![
        variant("c", VariantType::CONTROL, vec![("retries", n(3)), ("timeout", n(30))]),
        variant("a", VariantType::EXPERIMENTAL, vec![("retries", n(5)), ("timeout", n(10))]),
    ];
    let mut e = create_experiment(7, "e".to_string(), eq_cond("country", s("IN")), vars, &flags(true, true, true), &vec![], &store, 1).unwrap();
    assert_eq!(e.status, ExperimentStatusType::CREATED);
    assert_eq!(e.override_keys, vec!["retries".to_string(), "timeout".to_string()]);
    assert!(matches!(ramp(&mut e, 60, 2), Err(AppError::BadArgument(_))));
    ramp(&mut e, 40, 2).unwrap();
    assert_eq!(e.status, ExperimentStatusType::INPROGRESS);
    assert_eq!(e.traffic_percentage, 40);
    assert!(matches!(conclude(&mut e, "zz", &mut store, 3), Err(AppError::BadArgument(_))));
    conclude(&mut e, "a", &mut store, 3).unwrap();
    assert_eq!(e.status, ExperimentStatusType::CONCLUDED);
    assert_eq!(e.chosen_variant, Some("a".to_string()));
    assert_eq!(store.get("retries").unwrap().value, n(5));
    assert_eq!(store.get("timeout").unwrap().value, n(10));
    assert!(ramp(&mut e, 10, 4).is_err());
    assert!(conclude(&mut e, "a", &mut store, 4).is_err());
}

#[test]
fn create_rejections() {
    let store = store_with(vec!["retries"]);
    let f = flags(true, true, true);
    let unknown = vec![
        variant("c", VariantType::CONTROL, vec![("nope", n(1))]),
        variant("a", VariantType::EXPERIMENTAL, vec![("nope", n(2))]),
    ];
    assert!(create_experiment(1, "e".to_string(), eq_cond("country", s("IN")), unknown, &f, &vec![], &store, 0).is_err());
    let uneven = vec![
        variant("c", VariantType::CONTROL, vec![("retries", n(1))]),
        variant("a", VariantType::EXPERIMENTAL, vec![]),
    ];
    assert!(create_experiment(1, "e".to_string(), eq_cond("country", s("IN")), uneven, &f, &vec![], &store, 0).is_err());
    let controls = vec![
        variant("c", VariantType::CONTROL, vec![("retries", n(1))]),
        variant("d", VariantType::CONTROL, vec![("retries", n(2))]),
    ];
    assert!(create_experiment(1, "e".to_string(), eq_cond("country", s("IN")), controls, &f, &vec![], &store, 0).is_err());
    let wrong_type = vec![
        variant("c", VariantType::CONTROL, vec![("retries", n(1))]),
        variant("a", VariantType::EXPERIMENTAL, vec![("retries", s("many"))]),
    ];
    assert!(create_experiment(1, "e".to_string(), eq_cond("country", s("IN")), wrong_type, &f, &vec![], &store, 0).is_err());
}

#[test]
fn conclude_rejects_value_failing_schema() {
    let mut store = store_with(vec!["retries"]);
    let mut e = experiment(3, ExperimentStatusType::INPROGRESS, eq_cond("country", s("IN")), vec!["retries"], 10);
    e.variants[1].overrides = vec![Member { key: "retries".to_string(), value: s("many") }];
    assert!(matches!(conclude(&mut e, "3-a", &mut store, 5), Err(AppError::BadArgument(_))));
    assert_eq!(e.status, ExperimentStatusType::INPROGRESS);
    assert_eq!(store.get("retries").unwrap().value, n(3));
    conclude(&mut e, "3-c", &mut store, 5).unwrap();
    assert_eq!(store.get("retries").unwrap().value, n(1));
    assert_eq!(store.get("retries").unwrap().schema, obj(vec![("type", s("number"))]));
}

#[test]
fn initial_watermark_is_new_year_2023() {
    let t = chrono::Utc.with_ymd_and_hms(2023, 1, 1, 0, 0, 0).unwrap().timestamp();
    assert_eq!(INITIAL_WATERMARK, t);
}

#[test]
fn conclude_removes_variant_contexts() {
    let mut store = store_with(vec!["retries"]);
    store.add_dimension("country".to_string(), 1).unwrap();
    store.add_dimension("variantIds".to_string(), 2).unwrap();
    let mut e = experiment(4, ExperimentStatusType::INPROGRESS, eq_cond("country", s("IN")), vec!["retries"], 10);
    for v in ["4-c", "4-a"] {
        let ctx = add_variant_dimension_to_ctx(&e.context, v.to_string()).unwrap();
        store.put_canonical_context(ctx, members(vec![("retries", n(2))])).unwrap();
    }
    store
        .put_canonical_context(eq_cond("country", s("US")), members(vec![("retries", n(7))]))
        .unwrap();
    assert_eq!(store.contexts.len(), 3);
    conclude(&mut e, "4-a", &mut store, 9).unwrap();
    assert_eq!(store.contexts.len(), 1);
    assert_eq!(store.contexts[0].condition, eq_cond("country", s("US")));
}
