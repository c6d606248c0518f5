//! The configuration store: dimensions, default configuration and contexts,
//! with the rules that guard their changes.

use vstd::prelude::*;
use crate::error::{AppError, bad_argument};
use crate::experiment::opt_text;
use crate::json::{free_of_key, is_free_of_key, JVal, JsonValue, Member, first_index, keys_of, lemma_first_index, text_eq};
use crate::experiment::Experiment;
use crate::resolve::{ContextEntry, ContextModel, DefaultConfig, context_models};
use crate::validation::{add_variant_dimension_to_ctx, with_variant, all_distinct, extract_dimensions, dimensions_of, pairs_of};
use crate::condition::{is_safe_condition, safe_condition};
use crate::external::{SchemaOutcome, canonical_json, canonical_text, check_schema, draft7_accepts, draft7_compiles};

verus! {

/// A named attribute of callers with its precedence.
#[derive(Debug, PartialEq)]
pub struct Dimension {
    pub name: String,
    pub priority: i32,
}

/// The body of a default-configuration upsert; absent fields keep their stored value.
#[derive(Debug, PartialEq)]
pub struct CreateReq {
    pub value: Option<JsonValue>,
    pub schema: Option<JsonValue>,
    /// A string names the validating function, null removes it.
    pub function_name: Option<JsonValue>,
}

/// Texts joined with commas.
pub open spec fn joined(s: Seq<Seq<char>>) -> Seq<char>
    decreases s.len(),
{
    if s.len() == 0 {
        Seq::empty()
    } else if s.len() == 1 {
        s[0]
    } else {
        joined(s.drop_last()) + ","@ + s.last()
    }
}

/// Every key has a default entry whose schema accepts the key's value.
pub open spec fn overrides_valid(s: Seq<DefaultModel>, keys: Seq<Seq<char>>, values: Seq<JVal>) -> bool {
    forall|j: int|
        0 <= j < keys.len() ==> (get_default(s, #[trigger] keys[j]) matches Some(d) && schema_valid(d.schema, values[j]))
}

/// A value that passes a Draft-07 schema free of `$ref`.
pub open spec fn schema_valid(schema: JVal, value: JVal) -> bool {
    free_of_key(schema, "$ref"@) && draft7_compiles(schema) && draft7_accepts(schema, value)
}

/// Checks `value` against `schema`; a schema with a `$ref` is refused.
pub fn validate_against(schema: &JsonValue, value: &JsonValue) -> (r: Result<(), AppError>)
    ensures
        r is Ok <==> schema_valid(schema@, value@),
        r matches Err(e) ==> e is BadArgument,
{
    proof {
        reveal_strlit("$ref");
    }
    if !is_free_of_key(schema, "$ref") {
        return Err(bad_argument("Schemas with $ref are not supported"));
    }
    match check_schema(schema, value) {
        SchemaOutcome::Valid => Ok(()),
        SchemaOutcome::SchemaInvalid => Err(bad_argument("Invalid JSON schema (failed to compile)")),
        SchemaOutcome::ValueInvalid(msg) => {
            let mut m = "Schema validation failed: ".to_string();
            m.append(msg.as_str());
            Err(AppError::BadArgument(m))
        },
    }
}

/// Model of a default-configuration entry.
pub struct DefaultModel {
    pub key: Seq<char>,
    pub value: JVal,
    pub schema: JVal,
    pub function_name: Option<Seq<char>>,
}

impl DefaultConfig {
    pub open spec fn model(&self) -> DefaultModel {
        DefaultModel {
            key: self.key@,
            value: self.value@,
            schema: self.schema@,
            function_name: opt_text(self.function_name),
        }
    }
}

pub open spec fn default_models(v: Seq<DefaultConfig>) -> Seq<DefaultModel> {
    v.map_values(|d: DefaultConfig| d.model())
}

pub open spec fn default_keys(v: Seq<DefaultModel>) -> Seq<Seq<char>> {
    v.map_values(|d: DefaultModel| d.key)
}

pub open spec fn context_ids(v: Seq<ContextModel>) -> Seq<Seq<char>> {
    v.map_values(|c: ContextModel| c.id)
}

/// The entry stored under `k`, if any.
pub open spec fn get_default(s: Seq<DefaultModel>, k: Seq<char>) -> Option<DefaultModel> {
    let i = first_index(default_keys(s), k);
    if i < s.len() {
        Some(s[i])
    } else {
        None
    }
}

/// `e` stored in place of the entry with its key, or added at the end.
pub open spec fn upsert_default(s: Seq<DefaultModel>, e: DefaultModel) -> Seq<DefaultModel> {
    let i = first_index(default_keys(s), e.key);
    if i < s.len() {
        s.update(i, e)
    } else {
        s.push(e)
    }
}

/// `c` stored in place of the context with its id, or added at the end.
pub open spec fn put_ctx(s: Seq<ContextModel>, c: ContextModel) -> Seq<ContextModel> {
    let i = first_index(context_ids(s), c.id);
    if i < s.len() {
        s.update(i, c)
    } else {
        s.push(c)
    }
}

/// The ids of the contexts whose override sets `k`, in store order.
pub open spec fn key_usage(s: Seq<ContextModel>, k: Seq<char>) -> Seq<Seq<char>>
    decreases s.len(),
{
    if s.len() == 0 {
        Seq::empty()
    } else {
        let rest = key_usage(s.drop_last(), k);
        if s.last().keys.contains(k) {
            rest.push(s.last().id)
        } else {
            rest
        }
    }
}

pub open spec fn dim_names(v: Seq<Dimension>) -> Seq<Seq<char>> {
    v.map_values(|d: Dimension| d.name@)
}

/// Sum of the priorities of the dimensions of `d`; none when one is not registered.
pub open spec fn priority_sum(dims: Seq<Dimension>, d: Seq<(Seq<char>, JVal)>) -> Option<int>
    decreases d.len(),
{
    if d.len() == 0 {
        Some(0)
    } else {
        match priority_sum(dims, d.drop_last()) {
            None => None,
            Some(p) => {
                let i = first_index(dim_names(dims), d.last().0);
                if i < dims.len() {
                    Some(p + dims[i].priority)
                } else {
                    None
                }
            },
        }
    }
}

/// Default keys are distinct, and each stored value passes its schema.
pub open spec fn defaults_wf(ds: Seq<DefaultModel>) -> bool {
    &&& all_distinct(default_keys(ds))
    &&& forall|j: int| 0 <= j < ds.len() ==> schema_valid((#[trigger] ds[j]).schema, ds[j].value)
}

/// Dimension names are distinct, and so are their priorities.
pub open spec fn dims_wf(dims: Seq<Dimension>) -> bool {
    &&& all_distinct(dim_names(dims))
    &&& forall|a: int, b: int| 0 <= a < b < dims.len() ==> (#[trigger] dims[a]).priority != (#[trigger] dims[b]).priority
}

/// Every key a context overrides is a default key, and every condition may be evaluated.
pub open spec fn contexts_wf(ds: Seq<DefaultModel>, cs: Seq<ContextModel>) -> bool {
    &&& forall|c: int, j: int|
        0 <= c < cs.len() && 0 <= j < cs[c].keys.len() ==> default_keys(ds).contains(#[trigger] cs[c].keys[j])
    &&& forall|c: int| 0 <= c < cs.len() ==> safe_condition(#[trigger] cs[c].condition)
}

proof fn lemma_upsert_wf(ds: Seq<DefaultModel>, e: DefaultModel)
    requires
        defaults_wf(ds),
        schema_valid(e.schema, e.value),
    ensures
        defaults_wf(upsert_default(ds, e)),
        forall|k: Seq<char>| default_keys(ds).contains(k) ==> #[trigger] default_keys(upsert_default(ds, e)).contains(k),
{
    lemma_first_index(default_keys(ds), e.key);
    let i = first_index(default_keys(ds), e.key);
    let t = upsert_default(ds, e);
    if i < ds.len() {
        assert(default_keys(t) =~= default_keys(ds));
    } else {
        assert(default_keys(t) =~= default_keys(ds).push(e.key));
        assert forall|a: int, b: int| 0 <= a < b < default_keys(t).len() implies default_keys(t)[a]
            != default_keys(t)[b] by {
            if b == ds.len() {
                assert(default_keys(ds)[a] != e.key);
            }
        }
        assert forall|k: Seq<char>| default_keys(ds).contains(k) implies #[trigger] default_keys(t).contains(k) by {
            let w = choose|w: int| 0 <= w < default_keys(ds).len() && default_keys(ds)[w] == k;
            assert(default_keys(t)[w] == k);
        }
    }
}

proof fn lemma_contexts_wf_grow(ds: Seq<DefaultModel>, t: Seq<DefaultModel>, cs: Seq<ContextModel>)
    requires
        contexts_wf(ds, cs),
        forall|k: Seq<char>| default_keys(ds).contains(k) ==> #[trigger] default_keys(t).contains(k),
    ensures
        contexts_wf(t, cs),
{
    assert forall|c: int, j: int| 0 <= c < cs.len() && 0 <= j < cs[c].keys.len() implies default_keys(t).contains(
        #[trigger] cs[c].keys[j],
    ) by {
        assert(default_keys(ds).contains(cs[c].keys[j]));
    }
}

proof fn lemma_key_usage_empty(cs: Seq<ContextModel>, k: Seq<char>)
    requires
        key_usage(cs, k).len() == 0,
    ensures
        forall|c: int| 0 <= c < cs.len() ==> !(#[trigger] cs[c]).keys.contains(k),
    decreases cs.len(),
{
    if cs.len() > 0 {
        lemma_key_usage_empty(cs.drop_last(), k);
        assert forall|c: int| 0 <= c < cs.len() implies !(#[trigger] cs[c]).keys.contains(k) by {
            if c < cs.len() - 1 {
                assert(cs[c] == cs.drop_last()[c]);
            }
        }
    }
}

proof fn lemma_remove_wf(ds: Seq<DefaultModel>, cs: Seq<ContextModel>, i: int)
    requires
        defaults_wf(ds),
        contexts_wf(ds, cs),
        0 <= i < ds.len(),
        forall|c: int| 0 <= c < cs.len() ==> !(#[trigger] cs[c]).keys.contains(ds[i].key),
    ensures
        defaults_wf(ds.remove(i)),
        contexts_wf(ds.remove(i), cs),
{
    let t = ds.remove(i);
    assert(default_keys(t) =~= default_keys(ds).remove(i));
    assert forall|a: int, b: int| 0 <= a < b < default_keys(t).len() implies default_keys(t)[a]
        != default_keys(t)[b] by {
        let a2 = if a < i { a } else { a + 1 };
        let b2 = if b < i { b } else { b + 1 };
        assert(default_keys(t)[a] == default_keys(ds)[a2]);
        assert(default_keys(t)[b] == default_keys(ds)[b2]);
    }
    assert forall|j: int| 0 <= j < t.len() implies schema_valid((#[trigger] t[j]).schema, t[j].value) by {
        if j < i {
            assert(t[j] == ds[j]);
        } else {
            assert(t[j] == ds[j + 1]);
        }
    }
    assert forall|c: int, j: int| 0 <= c < cs.len() && 0 <= j < cs[c].keys.len() implies default_keys(t).contains(
        #[trigger] cs[c].keys[j],
    ) by {
        let k = cs[c].keys[j];
        assert(default_keys(ds).contains(k));
        let w = choose|w: int| 0 <= w < default_keys(ds).len() && default_keys(ds)[w] == k;
        assert(cs[c].keys.contains(k));
        assert(w != i);
        if w < i {
            assert(default_keys(t)[w] == k);
        } else {
            assert(default_keys(t)[w - 1] == k);
        }
    }
}

proof fn lemma_put_ctx_wf(ds: Seq<DefaultModel>, cs: Seq<ContextModel>, c: ContextModel)
    requires
        contexts_wf(ds, cs),
        forall|j: int| 0 <= j < c.keys.len() ==> default_keys(ds).contains(#[trigger] c.keys[j]),
        safe_condition(c.condition),
    ensures
        contexts_wf(ds, put_ctx(cs, c)),
{
    let t = put_ctx(cs, c);
    lemma_first_index(context_ids(cs), c.id);
    let i = first_index(context_ids(cs), c.id);
    assert forall|x: int, j: int| 0 <= x < t.len() && 0 <= j < t[x].keys.len() implies default_keys(ds).contains(
        #[trigger] t[x].keys[j],
    ) by {
        if (i < cs.len() && x == i) || (i >= cs.len() && x == cs.len()) {
            assert(t[x] == c);
        } else {
            assert(t[x] == cs[x]);
            assert(default_keys(ds).contains(cs[x].keys[j]));
        }
    }
    assert forall|x: int| 0 <= x < t.len() implies safe_condition(#[trigger] t[x].condition) by {
        if (i < cs.len() && x == i) || (i >= cs.len() && x == cs.len()) {
            assert(t[x] == c);
        } else {
            assert(t[x] == cs[x]);
        }
    }
}

/// Dimensions, default configuration and contexts of one tenant.
pub struct ConfigStore {
    pub dimensions: Vec<Dimension>,
    pub default_configs: Vec<DefaultConfig>,
    pub contexts: Vec<ContextEntry>,
    /// The schema that every default entry's schema must pass, if any.
    pub config_schema: Option<JsonValue>,
}

proof fn lemma_prefix_step<A>(s: Seq<A>, i: int)
    requires
        0 <= i < s.len(),
    ensures
        s.subrange(0, i + 1).drop_last() == s.subrange(0, i),
        s.subrange(0, i + 1).last() == s[i],
{
    assert(s.subrange(0, i + 1).drop_last() =~= s.subrange(0, i));
}

impl ConfigStore {
    /// The store's invariant.
    pub open spec fn wf(&self) -> bool {
        &&& defaults_wf(default_models(self.default_configs@))
        &&& dims_wf(self.dimensions@)
        &&& contexts_wf(default_models(self.default_configs@), context_models(self.contexts@))
    }

    /// An empty store.
    pub fn new() -> (r: ConfigStore)
        ensures
            r.wf(),
            r.dimensions@.len() == 0,
            r.default_configs@.len() == 0,
            r.contexts@.len() == 0,
            r.config_schema is None,
    {
        let r = ConfigStore {
            dimensions: Vec::new(),
            default_configs: Vec::new(),
            contexts: Vec::new(),
            config_schema: None,
        };
        assert(default_keys(default_models(r.default_configs@)) =~= Seq::empty());
        assert(dim_names(r.dimensions@) =~= Seq::empty());
        r
    }

    fn find_default(&self, key: &str) -> (r: Option<usize>)
        ensures
            ({
                let i = first_index(default_keys(default_models(self.default_configs@)), key@);
                &&& r.is_some() <==> i < self.default_configs.len()
                &&& r.is_some() ==> r.unwrap() == i
            }),
    {
        let ghost ks = default_keys(default_models(self.default_configs@));
        proof {
            lemma_first_index(ks, key@);
        }
        let mut i: usize = 0;
        while i < self.default_configs.len()
            invariant
                i <= self.default_configs.len(),
                ks == default_keys(default_models(self.default_configs@)),
                0 <= first_index(ks, key@) <= ks.len(),
                forall|j: int| 0 <= j < first_index(ks, key@) ==> ks[j] != key@,
                first_index(ks, key@) < ks.len() ==> ks[first_index(ks, key@)] == key@,
                i <= first_index(ks, key@),
            decreases self.default_configs.len() - i,
        {
            assert(ks[i as int] == self.default_configs[i as int].key@);
            if text_eq(self.default_configs[i].key.as_str(), key) {
                return Some(i);
            }
            i += 1;
        }
        None
    }

    fn find_context(&self, id: &str) -> (r: Option<usize>)
        ensures
            ({
                let i = first_index(context_ids(context_models(self.contexts@)), id@);
                &&& r.is_some() <==> i < self.contexts.len()
                &&& r.is_some() ==> r.unwrap() == i
            }),
    {
        let ghost ks = context_ids(context_models(self.contexts@));
        proof {
            lemma_first_index(ks, id@);
        }
        let mut i: usize = 0;
        while i < self.contexts.len()
            invariant
                i <= self.contexts.len(),
                ks == context_ids(context_models(self.contexts@)),
                0 <= first_index(ks, id@) <= ks.len(),
                forall|j: int| 0 <= j < first_index(ks, id@) ==> ks[j] != id@,
                first_index(ks, id@) < ks.len() ==> ks[first_index(ks, id@)] == id@,
                i <= first_index(ks, id@),
            decreases self.contexts.len() - i,
        {
            assert(ks[i as int] == self.contexts[i as int].id@);
            if text_eq(self.contexts[i].id.as_str(), id) {
                return Some(i);
            }
            i += 1;
        }
        None
    }

    /// The default-configuration entry stored under `key`.
    pub fn get(&self, key: &str) -> (r: Option<&DefaultConfig>)
        ensures
            match get_default(default_models(self.default_configs@), key@) {
                Some(m) => r matches Some(d) && d.model() == m,
                None => r is None,
            },
    {
        match self.find_default(key) {
            Some(i) => Some(&self.default_configs[i]),
            None => None,
        }
    }

    /// Registers a dimension; names and priorities must both be new.
    pub fn add_dimension(&mut self, name: String, priority: i32) -> (r: Result<(), AppError>)
        ensures
            old(self).wf() ==> final(self).wf(),
            r is Ok <==> !dim_names(old(self).dimensions@).contains(name@) && forall|j: int|
                0 <= j < old(self).dimensions.len() ==> (#[trigger] old(self).dimensions[j]).priority != priority,
            r is Ok ==> dim_names(final(self).dimensions@) == dim_names(old(self).dimensions@).push(name@)
                && final(self).dimensions@.last().priority == priority,
            r is Err ==> final(self).dimensions@ == old(self).dimensions@,
            r matches Err(e) ==> e is BadArgument,
            final(self).default_configs@ == old(self).default_configs@,
            final(self).contexts@ == old(self).contexts@,
    {
        let mut i: usize = 0;
        while i < self.dimensions.len()
            invariant
                i <= self.dimensions.len(),
                forall|j: int| 0 <= j < i ==> dim_names(self.dimensions@)[j] != name@,
                forall|j: int| 0 <= j < i ==> (#[trigger] self.dimensions[j]).priority != priority,
            decreases self.dimensions.len() - i,
        {
            assert(dim_names(self.dimensions@)[i as int] == self.dimensions[i as int].name@);
            if text_eq(self.dimensions[i].name.as_str(), name.as_str()) {
                return Err(bad_argument("Dimension already exists"));
            }
            if self.dimensions[i].priority == priority {
                return Err(bad_argument("Priority is already used by another dimension"));
            }
            i += 1;
        }
        let ghost before = self.dimensions@;
        self.dimensions.push(Dimension { name, priority });
        assert(dim_names(self.dimensions@) =~= dim_names(before).push(name@));
        proof {
            if old(self).wf() {
                assert forall|a: int, b: int| 0 <= a < b < dim_names(self.dimensions@).len() implies dim_names(
                    self.dimensions@,
                )[a] != dim_names(self.dimensions@)[b] by {
                    if b == before.len() {
                        assert(dim_names(before)[a] != name@);
                    }
                }
                assert forall|a: int, b: int| 0 <= a < b < self.dimensions@.len() implies (#[trigger] self.dimensions@[a]).priority
                    != (#[trigger] self.dimensions@[b]).priority by {
                    if b == before.len() {
                        assert(before[a] == self.dimensions@[a]);
                    } else {
                        assert(before[a] == self.dimensions@[a] && before[b] == self.dimensions@[b]);
                    }
                }
            }
        }
        Ok(())
    }

    /// The priority of a condition: the sum of the priorities of its dimensions.
    pub fn context_priority(&self, condition: &JsonValue) -> (r: Result<i64, AppError>)
        ensures
            r matches Ok(p) ==> dimensions_of(condition@) matches Some(d) && priority_sum(self.dimensions@, d)
                == Some(p as int),
            dimensions_of(condition@) matches Some(d) && priority_sum(self.dimensions@, d) matches Some(p)
                && i64::MIN <= p <= i64::MAX ==> r is Ok,
            r matches Err(e) ==> e is BadArgument,
    {
        let dims = extract_dimensions(condition)?;
        let ghost d = pairs_of(dims@);
        let mut sum: i128 = 0;
        let mut i: usize = 0;
        while i < dims.len()
            invariant
                i <= dims.len(),
                d == pairs_of(dims@),
                dimensions_of(condition@) == Some(d),
                -(i as int) * 0x8000_0000 <= sum <= (i as int) * 0x8000_0000,
                priority_sum(self.dimensions@, d.subrange(0, i as int)) == Some(sum as int),
            decreases dims.len() - i,
        {
            proof {
                lemma_prefix_step(d, i as int);
                lemma_first_index(dim_names(self.dimensions@), dims[i as int].key@);
            }
            let mut k: usize = 0;
            while k < self.dimensions.len()
                invariant
                    k <= self.dimensions.len(),
                    i < dims.len(),
                    forall|j: int| 0 <= j < k ==> dim_names(self.dimensions@)[j] != dims[i as int].key@,
                ensures
                    k < self.dimensions.len() ==> dim_names(self.dimensions@)[k as int] == dims[i as int].key@,
                decreases self.dimensions.len() - k,
            {
                assert(dim_names(self.dimensions@)[k as int] == self.dimensions[k as int].name@);
                if text_eq(self.dimensions[k].name.as_str(), dims[i].key.as_str()) {
                    break;
                }
                k += 1;
            }
            assert(k as int == first_index(dim_names(self.dimensions@), dims[i as int].key@));
            assert(d[i as int].0 == dims[i as int].key@);
            if k == self.dimensions.len() {
                assert(priority_sum(self.dimensions@, d.subrange(0, i as int + 1)) is None);
                proof {
                    lemma_sum_none(self.dimensions@, d, i as int + 1, d.len() as int);
                }
                assert(d.subrange(0, d.len() as int) =~= d);
                assert(priority_sum(self.dimensions@, d) is None);
                assert(dimensions_of(condition@) == Some(d));
                return Err(bad_argument("The condition uses a dimension that is not registered"));
            }
            assert(i < usize::MAX);
            assert((i as int) * 0x8000_0000 <= (usize::MAX as int) * 0x8000_0000) by (nonlinear_arith)
                requires i <= usize::MAX;
            sum = sum + self.dimensions[k].priority as i128;
            assert(-(i as int + 1) * 0x8000_0000 <= sum <= (i as int + 1) * 0x8000_0000) by (nonlinear_arith)
                requires -(i as int) * 0x8000_0000 <= sum - self.dimensions[k as int].priority <= (i as int) * 0x8000_0000,
                    -0x8000_0000 <= self.dimensions[k as int].priority < 0x8000_0000;
            i += 1;
        }
        assert(d.subrange(0, d.len() as int) =~= d);
        if sum < i64::MIN as i128 || sum > i64::MAX as i128 {
            return Err(bad_argument("The priority of the condition is out of range"));
        }
        Ok(sum as i64)
    }

    /// The configuration served to a caller with context `data`.
    pub fn resolve(&self, data: &JsonValue) -> (r: Vec<Member>)
        ensures
            pairs_of(r@) == crate::resolve::resolved(self.default_configs@, context_models(self.contexts@), data@),
    {
        crate::resolve::resolve(&self.default_configs, &self.contexts, data)
    }

    /// The ids of the contexts whose override sets `key`.
    pub fn get_key_usage_context_ids(&self, key: &str) -> (r: Vec<String>)
        ensures
            r@.map_values(|s: String| s@) == key_usage(context_models(self.contexts@), key@),
    {
        let ghost s = context_models(self.contexts@);
        let mut ids: Vec<String> = Vec::new();
        let mut i: usize = 0;
        while i < self.contexts.len()
            invariant
                i <= self.contexts.len(),
                s == context_models(self.contexts@),
                ids@.map_values(|s: String| s@) == key_usage(s.subrange(0, i as int), key@),
            decreases self.contexts.len() - i,
        {
            proof {
                lemma_prefix_step(s, i as int);
                lemma_first_index(keys_of(self.contexts[i as int].overrides@), key@);
            }
            let found = crate::json::find_member(&self.contexts[i].overrides, key);
            if found.is_some() {
                let ghost before = ids@;
                ids.push(self.contexts[i].id.clone());
                assert(ids@.map_values(|s: String| s@) =~= before.map_values(|s: String| s@).push(
                    self.contexts[i as int].id@,
                ));
            }
            i += 1;
        }
        assert(s.subrange(0, s.len() as int) =~= s);
        ids
    }
}

/// The priority of a condition: the sum over its dimensions, when all are registered.
pub open spec fn condition_priority(dims: Seq<Dimension>, cond: JVal) -> Option<int> {
    match dimensions_of(cond) {
        Some(d) => priority_sum(dims, d),
        None => None,
    }
}

/// The function name after an upsert: a string sets it, null removes it,
/// absence keeps `old`.
pub open spec fn next_function_name(req: Option<JVal>, old: Option<Seq<char>>) -> Option<Seq<char>> {
    match req {
        Some(JVal::Str(s)) => Some(s),
        Some(JVal::Null) => None,
        _ => old,
    }
}

pub open spec fn opt_view(o: Option<JsonValue>) -> Option<JVal> {
    match o {
        Some(v) => Some(v@),
        None => None,
    }
}

/// The entry that an upsert request describes, given the stored one.
pub open spec fn prepared(existing: Option<DefaultModel>, key: Seq<char>, req: CreateReq) -> Option<DefaultModel> {
    let fname = opt_view(req.function_name);
    match existing {
        Some(old) => Some(
            DefaultModel {
                key,
                value: match opt_view(req.value) {
                    Some(v) => v,
                    None => old.value,
                },
                schema: match opt_view(req.schema) {
                    Some(v) => v,
                    None => old.schema,
                },
                function_name: next_function_name(fname, old.function_name),
            },
        ),
        None => match (opt_view(req.value), opt_view(req.schema)) {
            (Some(v), Some(sc)) => Some(
                DefaultModel { key, value: v, schema: sc, function_name: next_function_name(fname, None) },
            ),
            _ => None,
        },
    }
}

/// A request that names a function with something other than a string or null.
pub open spec fn bad_function_name(req: CreateReq) -> bool {
    req.function_name matches Some(v) && !(v@ is Str || v@ is Null)
}

fn copy_opt_text(o: &Option<String>) -> (r: Option<String>)
    ensures
        opt_text(r) == opt_text(*o),
{
    match o {
        Some(s) => Some(s.clone()),
        None => None,
    }
}

impl ConfigStore {
    /// The entry that an upsert of `key` with `req` would store, before its
    /// schema and function checks.
    pub fn prepare_default_config(&self, key: &str, req: CreateReq) -> (r: Result<DefaultConfig, AppError>)
        ensures
            req.value is None && req.schema is None && req.function_name is None ==> (r matches Err(e)
                && e is BadArgument),
            !(req.value is None && req.schema is None && req.function_name is None) ==> {
                if bad_function_name(req) {
                    r matches Err(e) && e is BadArgument
                } else {
                    match prepared(get_default(default_models(self.default_configs@), key@), key@, req) {
                        Some(m) => r matches Ok(d) && d.model() == m,
                        None => r matches Err(e) && e is BadArgument,
                    }
                }
            },
    {
        if req.value.is_none() && req.schema.is_none() && req.function_name.is_none() {
            return Err(bad_argument("Please provide data in the request body."));
        }
        let ghost fname = opt_view(req.function_name);
        let ghost rv = req;
        let func_name: Option<String> = match &req.function_name {
            Some(JsonValue::Str(s)) => Some(s.clone()),
            Some(JsonValue::Null) => None,
            None => None,
            Some(_) => {
                return Err(bad_argument("Expected a string or null as the function name."));
            },
        };
        let clears = match &req.function_name {
            Some(JsonValue::Null) => true,
            _ => false,
        };
        let CreateReq { value, schema, function_name: _ } = req;
        match self.find_default(key) {
            Some(i) => {
                let old = &self.default_configs[i];
                assert(default_models(self.default_configs@)[i as int] == old.model());
                let value = match value {
                    Some(v) => v,
                    None => old.value.deep_clone(),
                };
                let schema = match schema {
                    Some(v) => v,
                    None => old.schema.deep_clone(),
                };
                let function_name = if clears {
                    None
                } else {
                    match func_name {
                        Some(f) => Some(f),
                        None => copy_opt_text(&old.function_name),
                    }
                };
                Ok(DefaultConfig { key: key.to_string(), value, schema, function_name })
            },
            None => match (value, schema) {
                (Some(v), Some(sc)) => Ok(DefaultConfig { key: key.to_string(), value: v, schema: sc, function_name: func_name }),
                _ => Err(bad_argument("No record found for the key")),
            },
        }
    }

    /// Stores a prepared entry when its value passes its schema and, if it
    /// names a function, when `function_check` (that function's verdict on the
    /// key and value, from the function runtime) is a success.
    pub fn upsert_default_config(&mut self, entry: DefaultConfig, function_check: Result<(), String>) -> (r: Result<
        (),
        AppError,
    >)
        ensures
            old(self).wf() ==> final(self).wf(),
            r is Ok <==> schema_valid(entry.schema@, entry.value@) && (entry.function_name is None
                || function_check is Ok) && (old(self).config_schema matches Some(m) ==> schema_valid(m@, entry.schema@)),
            final(self).config_schema == old(self).config_schema,
            r is Ok ==> default_models(final(self).default_configs@) == upsert_default(
                default_models(old(self).default_configs@),
                entry.model(),
            ),
            r is Err ==> final(self).default_configs@ == old(self).default_configs@,
            r matches Err(e) ==> e is BadArgument,
            final(self).contexts@ == old(self).contexts@,
            final(self).dimensions@ == old(self).dimensions@,
    {
        if let Some(meta) = &self.config_schema {
            if validate_against(meta, &entry.schema).is_err() {
                return Err(bad_argument("The schema does not pass the configuration's schema"));
            }
        }
        validate_against(&entry.schema, &entry.value)?;
        if entry.function_name.is_some() {
            if let Err(msg) = function_check {
                let mut m = "Function validation failed: ".to_string();
                m.append(msg.as_str());
                return Err(AppError::BadArgument(m));
            }
        }
        let ghost before = default_models(self.default_configs@);
        let ghost em = entry.model();
        match self.find_default(entry.key.as_str()) {
            Some(i) => {
                self.default_configs.set(i, entry);
                assert(default_models(self.default_configs@) =~= before.update(i as int, em));
            },
            None => {
                self.default_configs.push(entry);
                assert(default_models(self.default_configs@) =~= before.push(em));
            },
        }
        proof {
            if old(self).wf() {
                lemma_upsert_wf(before, em);
                lemma_contexts_wf_grow(before, default_models(self.default_configs@), context_models(self.contexts@));
            }
        }
        Ok(())
    }

    /// Stores an entry whose value is known to pass its schema.
    pub(crate) fn put_default(&mut self, entry: DefaultConfig)
        requires
            schema_valid(entry.schema@, entry.value@),
        ensures
            old(self).wf() ==> final(self).wf(),
            default_models(final(self).default_configs@) == upsert_default(
                default_models(old(self).default_configs@),
                entry.model(),
            ),
            final(self).contexts@ == old(self).contexts@,
            final(self).dimensions@ == old(self).dimensions@,
    {
        let ghost before = default_models(self.default_configs@);
        let ghost em = entry.model();
        match self.find_default(entry.key.as_str()) {
            Some(i) => {
                self.default_configs.set(i, entry);
                assert(default_models(self.default_configs@) =~= before.update(i as int, em));
            },
            None => {
                self.default_configs.push(entry);
                assert(default_models(self.default_configs@) =~= before.push(em));
            },
        }
        proof {
            if old(self).wf() {
                lemma_upsert_wf(before, em);
                lemma_contexts_wf_grow(before, default_models(self.default_configs@), context_models(self.contexts@));
            }
        }
    }

    /// Removes the entry under `key`, unless a context overrides it.
    pub fn delete_default_config(&mut self, key: &str) -> (r: Result<(), AppError>)
        ensures
            old(self).wf() ==> final(self).wf(),
            get_default(default_models(old(self).default_configs@), key@) is None ==> (r matches Err(e)
                && e is NotFound),
            get_default(default_models(old(self).default_configs@), key@) is Some && key_usage(
                context_models(old(self).contexts@),
                key@,
            ).len() > 0 ==> (r matches Err(AppError::BadArgument(m)) && m@ == "Given key already in use in contexts: "@
                + joined(key_usage(context_models(old(self).contexts@), key@))),
            get_default(default_models(old(self).default_configs@), key@) is Some && key_usage(
                context_models(old(self).contexts@),
                key@,
            ).len() == 0 ==> r is Ok && default_models(final(self).default_configs@) == default_models(
                old(self).default_configs@,
            ).remove(first_index(default_keys(default_models(old(self).default_configs@)), key@)),
            r is Err ==> final(self).default_configs@ == old(self).default_configs@,
            final(self).contexts@ == old(self).contexts@,
            final(self).dimensions@ == old(self).dimensions@,
    {
        let i = match self.find_default(key) {
            Some(i) => i,
            None => {
                return Err(AppError::NotFound("default config key doesn't exist".to_string()));
            },
        };
        let context_ids = self.get_key_usage_context_ids(key);
        if context_ids.len() > 0 {
            let ghost ids = context_ids@.map_values(|s: String| s@);
            let ghost prefix = "Given key already in use in contexts: "@;
            let mut msg = "Given key already in use in contexts: ".to_string();
            let mut j: usize = 0;
            assert(ids.subrange(0, 0) =~= Seq::<Seq<char>>::empty());
            while j < context_ids.len()
                invariant
                    j <= context_ids.len(),
                    ids == context_ids@.map_values(|s: String| s@),
                    msg@ == prefix + joined(ids.subrange(0, j as int)),
                decreases context_ids.len() - j,
            {
                assert(ids.subrange(0, j + 1).drop_last() =~= ids.subrange(0, j as int));
                assert(ids.subrange(0, j + 1).last() == context_ids[j as int]@);
                if j > 0 {
                    msg.append(",");
                }
                msg.append(context_ids[j].as_str());
                proof {
                    reveal_strlit(",");
                    if j > 0 {
                        assert(msg@ =~= prefix + (joined(ids.subrange(0, j as int)) + ","@ + context_ids[j as int]@));
                    } else {
                        assert(msg@ =~= prefix + context_ids[j as int]@);
                    }
                }
                j += 1;
            }
            assert(ids.subrange(0, ids.len() as int) =~= ids);
            return Err(AppError::BadArgument(msg));
        }
        let ghost before = default_models(self.default_configs@);
        self.default_configs.remove(i);
        assert(default_models(self.default_configs@) =~= before.remove(i as int));
        proof {
            if old(self).wf() {
                lemma_key_usage_empty(context_models(self.contexts@), key@);
                lemma_first_index(default_keys(before), key@);
                assert(default_keys(before)[i as int] == before[i as int].key);
                lemma_remove_wf(before, context_models(self.contexts@), i as int);
            }
        }
        Ok(())
    }

    /// Stores a context with its override, or replaces the one with the same id.
    pub fn put_context(&mut self, id: String, condition: JsonValue, override_id: String, overrides: Vec<Member>) -> (r:
        Result<(), AppError>)
        ensures
            old(self).wf() ==> final(self).wf(),
            r is Ok <==> (safe_condition(condition@) && overrides_valid(default_models(old(self).default_configs@), keys_of(overrides@), crate::json::values_of(overrides@)) && (dimensions_of(condition@) matches Some(d) && priority_sum(old(self).dimensions@, d) matches Some(
                p,
            ) && i64::MIN <= p <= i64::MAX)),
            r is Ok ==> context_models(final(self).contexts@) == put_ctx(
                context_models(old(self).contexts@),
                ContextModel {
                    id: id@,
                    condition: condition@,
                    priority: condition_priority(old(self).dimensions@, condition@)->0,
                    keys: keys_of(overrides@),
                    values: crate::json::values_of(overrides@),
                },
            ),
            r is Err ==> final(self).contexts@ == old(self).contexts@,
            r matches Err(e) ==> e is BadArgument,
            final(self).default_configs@ == old(self).default_configs@,
            final(self).dimensions@ == old(self).dimensions@,
    {
        if !is_safe_condition(&condition) {
            return Err(bad_argument("The condition uses an unsupported operator or nests too deeply"));
        }
        let mut j: usize = 0;
        while j < overrides.len()
            invariant
                j <= overrides.len(),
                forall|t: int|
                    0 <= t < j ==> (get_default(default_models(self.default_configs@), #[trigger] keys_of(overrides@)[t]) matches Some(d)
                        && schema_valid(d.schema, crate::json::values_of(overrides@)[t])),
            decreases overrides.len() - j,
        {
            assert(keys_of(overrides@)[j as int] == overrides[j as int].key@);
            assert(crate::json::values_of(overrides@)[j as int] == overrides[j as int].value@);
            match self.get(overrides[j].key.as_str()) {
                None => {
                    return Err(bad_argument("Override key is not in the default configuration"));
                },
                Some(d) => {
                    if validate_against(&d.schema, &overrides[j].value).is_err() {
return Err(bad_argument("Override value fails its key's schema"));
}
                },
            }
            j += 1;
        }
        let priority = self.context_priority(&condition)?;
        let entry = ContextEntry { id, condition, override_id, overrides, priority };
        let ghost before = context_models(self.contexts@);
        let ghost em = entry.model();
        match self.find_context(entry.id.as_str()) {
            Some(i) => {
                self.contexts.set(i, entry);
                assert(context_models(self.contexts@) =~= before.update(i as int, em));
            },
            None => {
                self.contexts.push(entry);
                assert(context_models(self.contexts@) =~= before.push(em));
            },
        }
        proof {
            if old(self).wf() {
                let ds = default_models(self.default_configs@);
                assert forall|j: int| 0 <= j < em.keys.len() implies default_keys(ds).contains(#[trigger] em.keys[j]) by {
                    lemma_first_index(default_keys(ds), em.keys[j]);
                }
                lemma_put_ctx_wf(ds, before, em);
            }
        }
        Ok(())
    }

    /// Stores a context under ids derived from its content: the canonical
    /// text of the condition, and that of the override object. The same
    /// condition and override always give the same ids.
    pub fn put_canonical_context(&mut self, condition: JsonValue, overrides: Vec<Member>) -> (r: Result<
        (String, String),
        AppError,
    >)
        ensures
            r is Ok <==> (safe_condition(condition@) && overrides_valid(
                default_models(old(self).default_configs@),
                keys_of(overrides@),
                crate::json::values_of(overrides@),
            ) && (dimensions_of(condition@) matches Some(d) && priority_sum(old(self).dimensions@, d) matches Some(p)
                && i64::MIN <= p <= i64::MAX)),
            r matches Ok((cid, oid)) ==> cid@ == canonical_json(condition@) && oid@ == canonical_json(
                JVal::Obj(keys_of(overrides@), crate::json::values_of(overrides@)),
            ) && context_models(final(self).contexts@) == put_ctx(
                context_models(old(self).contexts@),
                ContextModel {
                    id: cid@,
                    condition: condition@,
                    priority: condition_priority(old(self).dimensions@, condition@)->0,
                    keys: keys_of(overrides@),
                    values: crate::json::values_of(overrides@),
                },
            ),
            r is Err ==> final(self).contexts@ == old(self).contexts@,
            r matches Err(e) ==> e is BadArgument,
            final(self).default_configs@ == old(self).default_configs@,
            final(self).dimensions@ == old(self).dimensions@,
            old(self).wf() ==> final(self).wf(),
    {
        let cid = canonical_text(&condition);
        let object = JsonValue::Object(crate::experiment::clone_members(&overrides));
        let oid = canonical_text(&object);
        proof {
            assert(object@->Obj_0 =~= keys_of(overrides@));
            assert(object@->Obj_1 =~= crate::json::values_of(overrides@));
        }
        self.put_context(cid.clone(), condition, oid.clone(), overrides)?;
        Ok((cid, oid))
    }

    /// Removes the context with id `id`.
    pub fn delete_context(&mut self, id: &str) -> (r: Result<(), AppError>)
        ensures
            old(self).wf() ==> final(self).wf(),
            first_index(context_ids(context_models(old(self).contexts@)), id@) < old(self).contexts.len() <==> r is Ok,
            r is Ok ==> context_models(final(self).contexts@) == context_models(old(self).contexts@).remove(
                first_index(context_ids(context_models(old(self).contexts@)), id@),
            ),
            r is Err ==> final(self).contexts@ == old(self).contexts@,
            r matches Err(e) ==> e is NotFound,
            final(self).default_configs@ == old(self).default_configs@,
            final(self).dimensions@ == old(self).dimensions@,
    {
        match self.find_context(id) {
            Some(i) => {
                let ghost before = context_models(self.contexts@);
                self.contexts.remove(i);
                assert(context_models(self.contexts@) =~= before.remove(i as int));
                proof {
                    if old(self).wf() {
                        let ds = default_models(self.default_configs@);
                        let t = context_models(self.contexts@);
                        assert forall|c: int, j: int| 0 <= c < t.len() && 0 <= j < t[c].keys.len() implies default_keys(
                            ds,
                        ).contains(#[trigger] t[c].keys[j]) by {
                            if c < i {
                                assert(t[c] == before[c]);
                            } else {
                                assert(t[c] == before[c + 1]);
                            }
                        }
                    }
                }
                Ok(())
            },
            None => Err(AppError::NotFound("context not found".to_string())),
        }
    }
}

/// Upserting an entry and then reading its key gives the entry written.
pub proof fn law_upsert_then_get(s: Seq<DefaultModel>, e: DefaultModel)
    ensures
        get_default(upsert_default(s, e), e.key) == Some(e),
{
    lemma_first_index(default_keys(s), e.key);
    let i = first_index(default_keys(s), e.key);
    let t = upsert_default(s, e);
    lemma_first_index(default_keys(t), e.key);
    if i < s.len() {
        assert(default_keys(t) =~= default_keys(s).update(i, e.key));
    } else {
        assert(default_keys(t) =~= default_keys(s).push(e.key));
    }
    let k = first_index(default_keys(t), e.key);
    assert(default_keys(t)[i] == e.key);
    if k < i {
        assert(default_keys(t)[k] == default_keys(s)[k]);
    }
}

/// Putting the same context twice leaves the store as putting it once.
pub proof fn law_put_context_idempotent(s: Seq<ContextModel>, c: ContextModel)
    ensures
        put_ctx(put_ctx(s, c), c) == put_ctx(s, c),
{
    lemma_first_index(context_ids(s), c.id);
    let i = first_index(context_ids(s), c.id);
    let t = put_ctx(s, c);
    lemma_first_index(context_ids(t), c.id);
    if i < s.len() {
        assert(context_ids(t) =~= context_ids(s).update(i, c.id));
    } else {
        assert(context_ids(t) =~= context_ids(s).push(c.id));
    }
    let k = first_index(context_ids(t), c.id);
    assert(context_ids(t)[i] == c.id);
    if k < i {
        assert(context_ids(t)[k] == context_ids(s)[k]);
    }
    assert(k == i);
    assert(t.update(i, c) =~= t);
}

proof fn lemma_sum_none(dims: Seq<Dimension>, d: Seq<(Seq<char>, JVal)>, a: int, b: int)
    requires
        0 < a <= b <= d.len(),
        priority_sum(dims, d.subrange(0, a)) is None,
    ensures
        priority_sum(dims, d.subrange(0, b)) is None,
    decreases b - a,
{
    if a < b {
        lemma_sum_none(dims, d, a, b - 1);
        lemma_prefix_step(d, b - 1);
    }
}

/// Variant `t` of `e` serves under the context id `id`: the canonical text of
/// the experiment's context joined with that variant's clause.
pub open spec fn linked_at(e: Experiment, t: int, id: Seq<char>) -> bool {
    with_variant(e.context@, e.variants[t].id@) matches Some(c) && canonical_json(c) == id
}

/// Some variant of `e` before `n` serves under the context id `id`.
pub open spec fn linked_upto(e: Experiment, id: Seq<char>, n: int) -> bool {
    exists|t: int| 0 <= t < n && #[trigger] linked_at(e, t, id)
}

proof fn lemma_contexts_wf_subset(ds: Seq<DefaultModel>, cs: Seq<ContextModel>, t: Seq<ContextModel>)
    requires
        contexts_wf(ds, cs),
        forall|c: ContextModel| t.contains(c) ==> cs.contains(c),
    ensures
        contexts_wf(ds, t),
{
    assert forall|x: int, j: int| 0 <= x < t.len() && 0 <= j < t[x].keys.len() implies default_keys(ds).contains(
        #[trigger] t[x].keys[j],
    ) by {
        assert(t.contains(t[x]));
        let w = choose|w: int| 0 <= w < cs.len() && cs[w] == t[x];
        assert(default_keys(ds).contains(cs[w].keys[j]));
    }
    assert forall|x: int| 0 <= x < t.len() implies safe_condition(#[trigger] t[x].condition) by {
        assert(t.contains(t[x]));
        let w = choose|w: int| 0 <= w < cs.len() && cs[w] == t[x];
        assert(safe_condition(cs[w].condition));
    }
}

impl ConfigStore {
    fn remove_all_with_id(&mut self, id: &str)
        ensures
            forall|c: ContextModel| #[trigger] context_models(final(self).contexts@).contains(c) <==> (context_models(
                old(self).contexts@,
            ).contains(c) && c.id != id@),
            final(self).default_configs@ == old(self).default_configs@,
            final(self).dimensions@ == old(self).dimensions@,
            final(self).config_schema == old(self).config_schema,
    {
        let ghost s0 = context_models(self.contexts@);
        loop
            invariant
                forall|c: ContextModel| #[trigger] context_models(self.contexts@).contains(c) ==> s0.contains(c),
                forall|c: ContextModel| #[trigger] s0.contains(c) && c.id != id@ ==> context_models(self.contexts@).contains(c),
                self.default_configs@ == old(self).default_configs@,
                self.dimensions@ == old(self).dimensions@,
                self.config_schema == old(self).config_schema,
            ensures
                forall|c: ContextModel| #[trigger] context_models(self.contexts@).contains(c) ==> s0.contains(c) && c.id != id@,
                forall|c: ContextModel| #[trigger] s0.contains(c) && c.id != id@ ==> context_models(self.contexts@).contains(c),
                self.default_configs@ == old(self).default_configs@,
                self.dimensions@ == old(self).dimensions@,
                self.config_schema == old(self).config_schema,
            decreases self.contexts.len(),
        {
            let ghost before = context_models(self.contexts@);
            proof {
                lemma_first_index(context_ids(before), id@);
            }
            match self.find_context(id) {
                Some(k) => {
                    self.contexts.remove(k);
                    let ghost after = context_models(self.contexts@);
                    assert(after =~= before.remove(k as int));
                    assert(before[k as int].id == id@) by {
                        assert(context_ids(before)[k as int] == before[k as int].id);
                    }
                    assert forall|c: ContextModel| #[trigger] after.contains(c) implies s0.contains(c) by {
                        let j = choose|j: int| 0 <= j < after.len() && after[j] == c;
                        if j < k {
                            assert(before[j] == c);
                        } else {
                            assert(before[j + 1] == c);
                        }
                        assert(before.contains(c));
                    }
                    assert forall|c: ContextModel| #[trigger] s0.contains(c) && c.id != id@ implies after.contains(c) by {
                        assert(before.contains(c));
                        let j = choose|j: int| 0 <= j < before.len() && before[j] == c;
                        assert(j != k);
                        if j < k {
                            assert(after[j] == c);
                        } else {
                            assert(after[j - 1] == c);
                        }
                    }
                },
                None => {
                    assert forall|c: ContextModel| #[trigger] before.contains(c) implies c.id != id@ by {
                        let j = choose|j: int| 0 <= j < before.len() && before[j] == c;
                        assert(context_ids(before)[j] == c.id);
                    }
                    break;
                },
            }
        }
    }

    /// Removes the contexts under which the variants of `e` were served.
    pub fn remove_experiment_contexts(&mut self, e: &Experiment)
        ensures
            forall|c: ContextModel| #[trigger] context_models(final(self).contexts@).contains(c) <==> (context_models(
                old(self).contexts@,
            ).contains(c) && !linked_upto(*e, c.id, e.variants.len() as int)),
            final(self).default_configs@ == old(self).default_configs@,
            final(self).dimensions@ == old(self).dimensions@,
            final(self).config_schema == old(self).config_schema,
            old(self).wf() ==> final(self).wf(),
    {
        let ghost s0 = context_models(self.contexts@);
        let mut i: usize = 0;
        while i < e.variants.len()
            invariant
                i <= e.variants.len(),
                forall|c: ContextModel| #[trigger] context_models(self.contexts@).contains(c) <==> (s0.contains(c)
                    && !linked_upto(*e, c.id, i as int)),
                s0 == context_models(old(self).contexts@),
                self.default_configs@ == old(self).default_configs@,
                self.dimensions@ == old(self).dimensions@,
                self.config_schema == old(self).config_schema,
            decreases e.variants.len() - i,
        {
            let ghost before = context_models(self.contexts@);
            match add_variant_dimension_to_ctx(&e.context, e.variants[i].id.clone()) {
                Ok(ctx) => {
                    let cid = canonical_text(&ctx);
                    self.remove_all_with_id(cid.as_str());
                    assert forall|c: ContextModel| #[trigger] context_models(self.contexts@).contains(c) <==> (s0.contains(c)
                        && !linked_upto(*e, c.id, i + 1)) by {
                        if linked_upto(*e, c.id, i + 1) && !linked_upto(*e, c.id, i as int) {
                            let t = choose|t: int| 0 <= t < i + 1 && #[trigger] linked_at(*e, t, c.id);
                            assert(t == i);
                        }
                        if linked_upto(*e, c.id, i as int) {
                            let t = choose|t: int| 0 <= t < i && #[trigger] linked_at(*e, t, c.id);
                            assert(linked_at(*e, t, c.id));
                        }
                        if c.id == cid@ {
                            assert(linked_at(*e, i as int, c.id));
                        }
                    }
                },
                Err(_) => {
                    assert forall|c: ContextModel| #[trigger] context_models(self.contexts@).contains(c) <==> (s0.contains(c)
                        && !linked_upto(*e, c.id, i + 1)) by {
                        if linked_upto(*e, c.id, i + 1) && !linked_upto(*e, c.id, i as int) {
                            let t = choose|t: int| 0 <= t < i + 1 && #[trigger] linked_at(*e, t, c.id);
                            assert(t == i);
                        }
                        if linked_upto(*e, c.id, i as int) {
                            let t = choose|t: int| 0 <= t < i && #[trigger] linked_at(*e, t, c.id);
                            assert(linked_at(*e, t, c.id));
                        }
                    }
                },
            }
            i += 1;
        }
        proof {
            if old(self).wf() {
                lemma_contexts_wf_subset(default_models(self.default_configs@), s0, context_models(self.contexts@));
            }
        }
    }
}

/// Every default that a well-formed store holds passes its Draft-07 schema.
pub proof fn law_stored_defaults_pass_schema(store: ConfigStore, i: int)
    requires
        store.wf(),
        0 <= i < store.default_configs.len(),
    ensures
        schema_valid(store.default_configs[i].schema@, store.default_configs[i].value@),
{
    assert(default_models(store.default_configs@)[i] == store.default_configs[i].model());
}

} // verus!
