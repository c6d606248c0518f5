//! The experiment lifecycle: creation with its validation, ramping, and
//! conclusion with promotion of the chosen variant.

use vstd::prelude::*;
use crate::condition::{is_safe_condition, safe_condition};
use crate::error::{AppError, bad_argument};
use crate::experiment::{Experiment, ExperimentStatusType, Variant, VariantType, clone_members};
use crate::json::{JVal, JsonValue, first_index, keys_of, values_of, lemma_first_index, lookup, text_eq};
use crate::resolve::DefaultConfig;
use crate::store::{ConfigStore, DefaultModel, default_keys, default_models, get_default, upsert_default, law_upsert_then_get, schema_valid, overrides_valid, validate_against, linked_upto};
use crate::resolve::{ContextModel, context_models};
use crate::validation::{
    ExperimentationFlags, all_allowed, all_distinct, active_models, models, validity, check_variant_types, check_variant_override_coverage,
    count_type, covers, extract_override_keys, texts, validate_experiment, validate_override_keys,
};

verus! {

/// The experiment invariants: one control variant, at least one experimental
/// one, and every variant overriding exactly the override keys.
pub open spec fn well_formed(e: Experiment) -> bool {
    &&& count_type(e.variants@, VariantType::CONTROL) == 1
    &&& count_type(e.variants@, VariantType::EXPERIMENTAL) >= 1
    &&& forall|i: int| 0 <= i < e.variants.len() ==> covers(#[trigger] e.variants[i].overrides@, texts(e.override_keys@))
    &&& all_distinct(texts(e.override_keys@))
}

/// Whether an experiment with these variants may be created: its context may
/// be evaluated; its override keys
/// (those of the first variant) are distinct keys of the defaults; the
/// variant roles and coverage hold; every variant value passes its key's
/// schema; and no running experiment
/// conflicts with it under `flags`.
pub open spec fn creatable(
    variants: Seq<Variant>,
    flags: ExperimentationFlags,
    experiments: Seq<Experiment>,
    context: JVal,
    s: Seq<DefaultModel>,
) -> bool {
    let dkeys = default_keys(s);
    &&& safe_condition(context)
    &&& variants.len() > 0
    &&& keys_of(variants[0].overrides@).len() > 0
    &&& all_distinct(keys_of(variants[0].overrides@))
    &&& forall|j: int|
        0 <= j < keys_of(variants[0].overrides@).len() ==> dkeys.contains(#[trigger] keys_of(variants[0].overrides@)[j])
    &&& count_type(variants, VariantType::CONTROL) == 1
    &&& count_type(variants, VariantType::EXPERIMENTAL) >= 1
    &&& forall|i: int| 0 <= i < variants.len() ==> covers(#[trigger] variants[i].overrides@, keys_of(variants[0].overrides@))
    &&& forall|i: int|
        0 <= i < variants.len() ==> overrides_valid(s, keys_of(#[trigger] variants[i].overrides@), values_of(variants[i].overrides@))
    &&& (all_allowed(flags) || validity(context, keys_of(variants[0].overrides@), flags, active_models(models(experiments), 0))
        == Some(true))
}

/// Creates an experiment after checking its variants, its override keys against
/// the default configuration, and its overlap with the stored experiments.
pub fn create_experiment(
    id: i64,
    name: String,
    context: JsonValue,
    variants: Vec<Variant>,
    flags: &ExperimentationFlags,
    experiments: &Vec<Experiment>,
    store: &ConfigStore,
    now: i64,
) -> (r: Result<Experiment, AppError>)
    ensures
        r matches Ok(e) ==> {
            &&& well_formed(e)
            &&& e.status == ExperimentStatusType::CREATED
            &&& e.traffic_percentage == 0
            &&& e.id == id
            &&& e.name == name
            &&& e.context == context
            &&& e.variants == variants
            &&& texts(e.override_keys@) == keys_of(variants@[0].overrides@)
            &&& e.last_modified == now
            &&& e.chosen_variant is None
            &&& e.override_keys@.len() > 0
            &&& forall|j: int|
                0 <= j < e.override_keys.len() ==> default_keys(default_models(store.default_configs@)).contains(
                    #[trigger] texts(e.override_keys@)[j],
                )
            &&& forall|i: int|
                0 <= i < e.variants.len() ==> overrides_valid(
                    default_models(store.default_configs@),
                    keys_of(#[trigger] e.variants[i].overrides@),
                    values_of(e.variants[i].overrides@),
                )
        },
        r is Ok <==> creatable(variants@, *flags, experiments@, context@, default_models(store.default_configs@)),
        r matches Err(e) ==> e is BadArgument,
{
    if !is_safe_condition(&context) {
        return Err(bad_argument("The context uses an unsupported operator or nests too deeply"));
    }
    if variants.len() == 0 {
        return Err(bad_argument("Experiment should have at least one variant"));
    }
    let override_keys = extract_override_keys(&variants[0].overrides);
    let ghost keys = keys_of(variants[0].overrides@);
    assert(texts(override_keys@) == keys);
    if override_keys.len() == 0 {
        return Err(bad_argument("Override keys cannot be empty"));
    }
    validate_override_keys(&override_keys)?;
    let mut j: usize = 0;
    while j < override_keys.len()
        invariant
            j <= override_keys.len(),
            variants.len() > 0,
            keys == keys_of(variants[0].overrides@),
            texts(override_keys@) == keys,
            forall|t: int|
                0 <= t < j ==> default_keys(default_models(store.default_configs@)).contains(
                    #[trigger] texts(override_keys@)[t],
                ),
        decreases override_keys.len() - j,
    {
        proof {
            lemma_first_index(default_keys(default_models(store.default_configs@)), override_keys[j as int]@);
        }
        assert(texts(override_keys@)[j as int] == override_keys[j as int]@);
        if store.get(override_keys[j].as_str()).is_none() {
            assert(!default_keys(default_models(store.default_configs@)).contains(keys[j as int]));
            return Err(bad_argument("Override key is not in the default configuration"));
        }
        j += 1;
    }
    check_variant_types(&variants)?;
    let mut i: usize = 0;
    while i < variants.len()
        invariant
            i <= variants.len(),
            variants.len() > 0,
            keys == keys_of(variants[0].overrides@),
            texts(override_keys@) == keys,
            forall|t: int| 0 <= t < i ==> covers(#[trigger] variants[t].overrides@, texts(override_keys@)),
        decreases variants.len() - i,
    {
        if !check_variant_override_coverage(&variants[i].overrides, &override_keys) {
            assert(!covers(variants[i as int].overrides@, keys));
            return Err(bad_argument("Every variant must override exactly the override keys"));
        }
        i += 1;
    }
    let ghost s0 = default_models(store.default_configs@);
    let mut vi: usize = 0;
    while vi < variants.len()
        invariant
            vi <= variants.len(),
            s0 == default_models(store.default_configs@),
            forall|t: int|
                0 <= t < vi ==> overrides_valid(s0, keys_of(#[trigger] variants[t].overrides@), values_of(variants[t].overrides@)),
        decreases variants.len() - vi,
    {
        let ms = &variants[vi].overrides;
        let mut m: usize = 0;
        while m < ms.len()
            invariant
                m <= ms.len(),
                vi < variants.len(),
                *ms == variants[vi as int].overrides,
                s0 == default_models(store.default_configs@),
                forall|u: int|
                    0 <= u < m ==> (get_default(s0, #[trigger] keys_of(ms@)[u]) matches Some(d) && schema_valid(
                        d.schema,
                        values_of(ms@)[u],
                    )),
            decreases ms.len() - m,
        {
            assert(keys_of(ms@)[m as int] == ms[m as int].key@);
            assert(values_of(ms@)[m as int] == ms[m as int].value@);
            match store.get(ms[m].key.as_str()) {
                None => {
                    assert(!overrides_valid(s0, keys_of(ms@), values_of(ms@)));
                    return Err(bad_argument("Override key is not in the default configuration"));
                },
                Some(d) => {
                    if validate_against(&d.schema, &ms[m].value).is_err() {
assert(!overrides_valid(s0, keys_of(ms@), values_of(ms@)));
                            return Err(bad_argument("A variant value fails its key's schema"));
}
                },
            }
            m += 1;
        }
        vi += 1;
    }
    let (valid, reason) = validate_experiment(&context, &override_keys, None, flags, experiments)?;
    if !valid {
        return Err(AppError::BadArgument(reason));
    }
    Ok(
        Experiment {
            id,
            name,
            status: ExperimentStatusType::CREATED,
            context,
            override_keys,
            variants,
            traffic_percentage: 0,
            last_modified: now,
            chosen_variant: None,
        },
    )
}

/// Sets the traffic of a created or running experiment; a positive traffic
/// starts it. Each variant receives `traffic_percentage`, so their sum may not
/// exceed a hundred.
pub fn ramp(experiment: &mut Experiment, traffic_percentage: u8, now: i64) -> (r: Result<(), AppError>)
    ensures
        r is Ok <==> old(experiment).status != ExperimentStatusType::CONCLUDED && traffic_percentage as int
            * old(experiment).variants.len() <= 100,
        r is Ok ==> final(experiment).traffic_percentage == traffic_percentage && final(experiment).status == (
        if traffic_percentage > 0 {
            ExperimentStatusType::INPROGRESS
        } else {
            old(experiment).status
        }) && final(experiment).variants == old(experiment).variants && final(experiment).last_modified == now
            && final(experiment).id == old(experiment).id && final(experiment).name == old(experiment).name
            && final(experiment).context == old(experiment).context && final(experiment).override_keys == old(
            experiment,
        ).override_keys && final(experiment).chosen_variant == old(experiment).chosen_variant,
        r is Err ==> *final(experiment) == *old(experiment),
        r matches Err(e) ==> e is BadArgument,
{
    if experiment.status == ExperimentStatusType::CONCLUDED {
        return Err(bad_argument("A concluded experiment cannot be ramped"));
    }
    let n = experiment.variants.len();
    assert((traffic_percentage as int) * (n as int) <= 255 * (usize::MAX as int)) by (nonlinear_arith)
        requires traffic_percentage <= 255, n <= usize::MAX, traffic_percentage >= 0;
    if (traffic_percentage as u128) * (n as u128) > 100 {
        return Err(bad_argument("Total traffic of the variants cannot exceed 100"));
    }
    experiment.traffic_percentage = traffic_percentage;
    if traffic_percentage > 0 {
        experiment.status = ExperimentStatusType::INPROGRESS;
    }
    experiment.last_modified = now;
    Ok(())
}

proof fn lemma_upsert_other(s: Seq<DefaultModel>, e: DefaultModel, k: Seq<char>)
    requires
        k != e.key,
    ensures
        get_default(upsert_default(s, e), k) == get_default(s, k),
{
    lemma_first_index(default_keys(s), e.key);
    lemma_first_index(default_keys(s), k);
    let i = first_index(default_keys(s), e.key);
    let t = upsert_default(s, e);
    lemma_first_index(default_keys(t), k);
    if i < s.len() {
        assert(default_keys(t) =~= default_keys(s).update(i, e.key));
    } else {
        assert(default_keys(t) =~= default_keys(s).push(e.key));
    }
    let a = first_index(default_keys(s), k);
    let b = first_index(default_keys(t), k);
    if a < b && a < s.len() {
        assert(default_keys(t)[a] == default_keys(s)[a]);
    }
    if b < a {
        assert(default_keys(t)[b] == default_keys(s)[b]);
    }
}

/// Index of the first variant with id `id`, or the count.
pub open spec fn variant_index(vs: Seq<Variant>, id: Seq<char>) -> int
    decreases vs.len(),
{
    if vs.len() == 0 {
        0
    } else if vs[0].id@ == id {
        0
    } else {
        1 + variant_index(vs.drop_first(), id)
    }
}

proof fn lemma_variant_index(vs: Seq<Variant>, id: Seq<char>)
    ensures
        0 <= variant_index(vs, id) <= vs.len(),
        forall|j: int| 0 <= j < variant_index(vs, id) ==> (#[trigger] vs[j]).id@ != id,
        variant_index(vs, id) < vs.len() ==> vs[variant_index(vs, id)].id@ == id,
    decreases vs.len(),
{
    if vs.len() > 0 && vs[0].id@ != id {
        lemma_variant_index(vs.drop_first(), id);
        assert forall|j: int| 0 <= j < variant_index(vs, id) implies (#[trigger] vs[j]).id@ != id by {
            if j > 0 {
                assert(vs[j] == vs.drop_first()[j - 1]);
            }
        }
    }
}

/// Whether an experiment can be concluded with `chosen`: it is not concluded
/// yet, `chosen` names one of its variants, and that variant's keys are
/// distinct defaults whose schemas accept the variant's values.
pub open spec fn concludable(e: Experiment, chosen: Seq<char>, s: Seq<DefaultModel>) -> bool {
    let i = variant_index(e.variants@, chosen);
    &&& e.status != ExperimentStatusType::CONCLUDED
    &&& i < e.variants.len()
    &&& all_distinct(keys_of(e.variants[i].overrides@))
    &&& overrides_valid(s, keys_of(e.variants[i].overrides@), values_of(e.variants[i].overrides@))
}

/// The entry of key `k` after promoting `v` over the stored entry `d`: the
/// value changes, the schema and function name stay.
pub open spec fn promoted_entry(d: DefaultModel, k: Seq<char>, v: JVal) -> DefaultModel {
    DefaultModel { key: k, value: v, schema: d.schema, function_name: d.function_name }
}

/// `new` is `old` with the values of `keys` promoted and every other key untouched.
pub open spec fn promoted(old: Seq<DefaultModel>, new: Seq<DefaultModel>, keys: Seq<Seq<char>>, values: Seq<JVal>) -> bool {
    &&& forall|j: int|
        0 <= j < keys.len() ==> get_default(new, #[trigger] keys[j]) == Some(
            promoted_entry(get_default(old, keys[j])->0, keys[j], values[j]),
        )
    &&& forall|x: Seq<char>| !keys.contains(x) ==> #[trigger] get_default(new, x) == get_default(old, x)
}

/// Concludes an experiment with the variant `chosen`: its override values become
/// the defaults of their keys, which keep their schema and function name, and
/// the contexts its variants were served under are removed.
pub fn conclude(experiment: &mut Experiment, chosen: &str, store: &mut ConfigStore, now: i64) -> (r: Result<(), AppError>)
    ensures
        r is Ok <==> concludable(*old(experiment), chosen@, default_models(old(store).default_configs@)),
        r is Ok ==> ({
            let i = variant_index(old(experiment).variants@, chosen@);
            &&& final(experiment).status == ExperimentStatusType::CONCLUDED
            &&& final(experiment).chosen_variant matches Some(c) && c@ == chosen@
            &&& final(experiment).last_modified == now
            &&& final(experiment).id == old(experiment).id
            &&& final(experiment).name == old(experiment).name
            &&& final(experiment).context == old(experiment).context
            &&& final(experiment).override_keys == old(experiment).override_keys
            &&& final(experiment).variants == old(experiment).variants
            &&& final(experiment).traffic_percentage == old(experiment).traffic_percentage
            &&& promoted(
                default_models(old(store).default_configs@),
                default_models(final(store).default_configs@),
                keys_of(old(experiment).variants[i].overrides@),
                values_of(old(experiment).variants[i].overrides@),
            )
        }),
        r is Err ==> *final(experiment) == *old(experiment) && final(store).default_configs@ == old(
            store,
        ).default_configs@,
        r matches Err(e) ==> e is BadArgument,
        r is Err ==> final(store).contexts@ == old(store).contexts@,
        r is Ok ==> forall|c: ContextModel| #[trigger] context_models(final(store).contexts@).contains(c) <==> (
            context_models(old(store).contexts@).contains(c) && !linked_upto(
                *old(experiment),
                c.id,
                old(experiment).variants.len() as int,
            )),
        final(store).dimensions@ == old(store).dimensions@,
        old(store).wf() ==> final(store).wf(),
{
    if experiment.status == ExperimentStatusType::CONCLUDED {
        return Err(bad_argument("The experiment is already concluded"));
    }
    proof {
        lemma_variant_index(experiment.variants@, chosen@);
    }
    let mut vi: usize = 0;
    while vi < experiment.variants.len()
        invariant
            vi <= experiment.variants.len(),
            forall|t: int| 0 <= t < vi ==> (#[trigger] experiment.variants[t]).id@ != chosen@,
            0 <= variant_index(experiment.variants@, chosen@) <= experiment.variants.len(),
            forall|t: int|
                0 <= t < variant_index(experiment.variants@, chosen@) ==> (#[trigger] experiment.variants[t]).id@
                    != chosen@,
            variant_index(experiment.variants@, chosen@) < experiment.variants.len()
                ==> experiment.variants[variant_index(experiment.variants@, chosen@)].id@ == chosen@,
        ensures
            vi < experiment.variants.len() ==> experiment.variants[vi as int].id@ == chosen@,
        decreases experiment.variants.len() - vi,
    {
        if text_eq(experiment.variants[vi].id.as_str(), chosen) {
            break;
        }
        vi += 1;
    }
    if vi == experiment.variants.len() {
        return Err(bad_argument("The chosen variant is not a variant of the experiment"));
    }
    assert(vi as int == variant_index(experiment.variants@, chosen@));
    let overrides = clone_members(&experiment.variants[vi].overrides);
    let keys = extract_override_keys(&overrides);
    if validate_override_keys(&keys).is_err() {
        return Err(bad_argument("The chosen variant overrides a key twice"));
    }
    let ghost ks = keys_of(overrides@);
    let ghost vs = values_of(overrides@);
    let ghost s0 = default_models(store.default_configs@);
    let mut j: usize = 0;
    while j < overrides.len()
        invariant
            j <= overrides.len(),
            ks == keys_of(overrides@),
            vs == values_of(overrides@),
            *store == *old(store),
            s0 == default_models(old(store).default_configs@),
            *experiment == *old(experiment),
            old(experiment).status != ExperimentStatusType::CONCLUDED,
            vi < old(experiment).variants.len(),
            vi as int == variant_index(old(experiment).variants@, chosen@),
            ks == keys_of(old(experiment).variants[vi as int].overrides@),
            vs == values_of(old(experiment).variants[vi as int].overrides@),
            all_distinct(ks),
            forall|t: int|
                0 <= t < j ==> (get_default(s0, #[trigger] ks[t]) matches Some(d) && schema_valid(d.schema, vs[t])),
        decreases overrides.len() - j,
    {
        assert(ks[j as int] == overrides[j as int].key@);
        assert(vs[j as int] == overrides[j as int].value@);
        match store.get(overrides[j].key.as_str()) {
            None => {
                assert(!overrides_valid(s0, ks, vs));
                return Err(bad_argument("A promoted key is not in the default configuration"));
            },
            Some(d) => {
                if validate_against(&d.schema, &overrides[j].value).is_err() {
assert(!overrides_valid(s0, ks, vs));
                        return Err(bad_argument("A promoted value fails its key's schema"));
}
            },
        }
        j += 1;
    }
    assert(concludable(*old(experiment), chosen@, s0));
    let mut k: usize = 0;
    while k < overrides.len()
        invariant
            k <= overrides.len(),
            ks == keys_of(overrides@),
            vs == values_of(overrides@),
            s0 == default_models(old(store).default_configs@),
            all_distinct(ks),
            overrides_valid(s0, ks, vs),
            forall|t: int|
                k <= t < ks.len() ==> #[trigger] get_default(default_models(store.default_configs@), ks[t])
                    == get_default(s0, ks[t]),
            forall|t: int|
                0 <= t < k ==> get_default(default_models(store.default_configs@), #[trigger] ks[t]) == Some(
                    promoted_entry(get_default(s0, ks[t])->0, ks[t], vs[t]),
                ),
            forall|x: Seq<char>|
                !ks.subrange(0, k as int).contains(x) ==> #[trigger] get_default(default_models(store.default_configs@), x)
                    == get_default(s0, x),
            store.contexts@ == old(store).contexts@,
            store.dimensions@ == old(store).dimensions@,
            *experiment == *old(experiment),
            old(store).wf() ==> store.wf(),
            vi < old(experiment).variants.len(),
            vi as int == variant_index(old(experiment).variants@, chosen@),
            ks == keys_of(old(experiment).variants[vi as int].overrides@),
            vs == values_of(old(experiment).variants[vi as int].overrides@),
        decreases overrides.len() - k,
    {
        assert(ks[k as int] == overrides[k as int].key@);
        assert(vs[k as int] == overrides[k as int].value@);
        assert(get_default(default_models(store.default_configs@), ks[k as int]) == get_default(s0, ks[k as int]));
        let old_entry = match store.get(overrides[k].key.as_str()) {
            Some(d) => d,
            None => {
                assert(false);
                return Err(bad_argument("A promoted key is not in the default configuration"));
            },
        };
        let entry = DefaultConfig {
            key: overrides[k].key.clone(),
            value: overrides[k].value.deep_clone(),
            schema: old_entry.schema.deep_clone(),
            function_name: match &old_entry.function_name {
                Some(f) => Some(f.clone()),
                None => None,
            },
        };
        let ghost before = default_models(store.default_configs@);
        let ghost em = entry.model();
        assert(em == promoted_entry(get_default(s0, ks[k as int])->0, ks[k as int], vs[k as int]));
        store.put_default(entry);
        proof {
            law_upsert_then_get(before, em);
            assert forall|t: int| 0 <= t < k + 1 implies get_default(
                default_models(store.default_configs@),
                #[trigger] ks[t],
            ) == Some(promoted_entry(get_default(s0, ks[t])->0, ks[t], vs[t])) by {
                if t < k {
                    assert(ks[t] != ks[k as int]);
                    lemma_upsert_other(before, em, ks[t]);
                }
            }
            assert forall|t: int| k + 1 <= t < ks.len() implies #[trigger] get_default(
                default_models(store.default_configs@),
                ks[t],
            ) == get_default(s0, ks[t]) by {
                assert(ks[t] != ks[k as int]);
                lemma_upsert_other(before, em, ks[t]);
            }
            assert forall|x: Seq<char>| !ks.subrange(0, k + 1).contains(x) implies #[trigger] get_default(
                default_models(store.default_configs@),
                x,
            ) == get_default(s0, x) by {
                assert(ks.subrange(0, k + 1)[k as int] == ks[k as int]);
                if ks.subrange(0, k as int).contains(x) {
                    let w = choose|w: int| 0 <= w < k && ks.subrange(0, k as int)[w] == x;
                    assert(ks.subrange(0, k + 1)[w] == x);
                }
                lemma_upsert_other(before, em, x);
            }
        }
        k += 1;
    }
    assert forall|x: Seq<char>| !ks.contains(x) implies #[trigger] get_default(
        default_models(store.default_configs@),
        x,
    ) == get_default(s0, x) by {
        assert(ks.subrange(0, ks.len() as int) =~= ks);
    }
    store.remove_experiment_contexts(experiment);
    experiment.status = ExperimentStatusType::CONCLUDED;
    experiment.chosen_variant = Some(chosen.to_string());
    experiment.last_modified = now;
    Ok(())
}

/// After a well-formed experiment is concluded with its variant `i`, the
/// default of every override key holds that variant's value for the key.
pub proof fn law_conclude_promotes_override_keys(e: Experiment, i: int, old: Seq<DefaultModel>, new: Seq<DefaultModel>)
    requires
        well_formed(e),
        0 <= i < e.variants.len(),
        promoted(old, new, keys_of(e.variants[i].overrides@), values_of(e.variants[i].overrides@)),
    ensures
        forall|t: int|
            0 <= t < e.override_keys.len() ==> (get_default(new, #[trigger] texts(e.override_keys@)[t]) matches Some(d)
                && Some(d.value) == lookup(
                keys_of(e.variants[i].overrides@),
                values_of(e.variants[i].overrides@),
                texts(e.override_keys@)[t],
            )),
{
    let ks = keys_of(e.variants[i].overrides@);
    let vs = values_of(e.variants[i].overrides@);
    assert forall|t: int| 0 <= t < e.override_keys.len() implies (get_default(new, #[trigger] texts(e.override_keys@)[t])
        matches Some(d) && Some(d.value) == lookup(ks, vs, texts(e.override_keys@)[t])) by {
        let k = texts(e.override_keys@)[t];
        assert(covers(e.variants[i].overrides@, texts(e.override_keys@)));
        assert(ks.contains(k));
        lemma_first_index(ks, k);
        let f = first_index(ks, k);
        assert(ks[f] == k);
        assert(get_default(new, ks[f]) == Some(promoted_entry(get_default(old, ks[f])->0, ks[f], vs[f])));
    }
}

} // verus!
