//! Validation of experiments before they are stored: variant roles, override
//! keys and coverage, and overlap with the experiments already running.

use vstd::prelude::*;
use crate::error::{AppError, bad_argument};
use crate::experiment::{Experiment, ExperimentModel, ExperimentStatusType, Variant, VariantType};
use crate::json::{JVal, JsonValue, Member, find_member, keys_of, values_of, first_index, lemma_first_index, text_eq, lookup, json_eq};

verus! {

/// How many variants of `vs` have role `t`.
pub open spec fn count_type(vs: Seq<Variant>, t: VariantType) -> nat
    decreases vs.len(),
{
    if vs.len() == 0 {
        0
    } else {
        count_type(vs.drop_last(), t) + if vs.last().variant_type == t {
            1nat
        } else {
            0nat
        }
    }
}

/// Checks that there is exactly one control variant and at least one
/// experimental variant.
pub fn check_variant_types(variants: &Vec<Variant>) -> (r: Result<(), AppError>)
    ensures
        r is Ok <==> count_type(variants@, VariantType::CONTROL) == 1 && count_type(
            variants@,
            VariantType::EXPERIMENTAL,
        ) >= 1,
        r matches Err(e) ==> e is BadArgument,
{
    let mut experimental_variant_cnt: usize = 0;
    let mut control_variant_cnt: usize = 0;
    let mut i: usize = 0;
    while i < variants.len()
        invariant
            i <= variants.len(),
            control_variant_cnt == count_type(variants@.subrange(0, i as int), VariantType::CONTROL),
            experimental_variant_cnt == count_type(variants@.subrange(0, i as int), VariantType::EXPERIMENTAL),
            control_variant_cnt + experimental_variant_cnt == i,
        decreases variants.len() - i,
    {
        assert(variants@.subrange(0, i + 1).drop_last() =~= variants@.subrange(0, i as int));
        match variants[i].variant_type {
            VariantType::CONTROL => {
                control_variant_cnt += 1;
            },
            VariantType::EXPERIMENTAL => {
                experimental_variant_cnt += 1;
            },
        }
        i += 1;
    }
    assert(variants@.subrange(0, variants.len() as int) =~= variants@);
    if control_variant_cnt > 1 || control_variant_cnt == 0 {
        return Err(
            bad_argument(
                "Experiment should have exactly 1 control variant. Ensure only one control variant is present",
            ),
        );
    } else if experimental_variant_cnt < 1 {
        return Err(
            bad_argument(
                "Experiment should have at least 1 experimental variant. Ensure only one control variant is present",
            ),
        );
    }
    Ok(())
}

/// The texts of a list of strings.
pub open spec fn texts(v: Seq<String>) -> Seq<Seq<char>> {
    v.map_values(|s: String| s@)
}

/// No text occurs twice.
pub open spec fn all_distinct(s: Seq<Seq<char>>) -> bool {
    forall|i: int, j: int| 0 <= i < j < s.len() ==> s[i] != s[j]
}

/// Whether `k` is among `keys`.
fn contains_key(keys: &Vec<String>, k: &str) -> (r: bool)
    ensures
        r == texts(keys@).contains(k@),
{
    let mut i: usize = 0;
    while i < keys.len()
        invariant
            i <= keys.len(),
            forall|j: int| 0 <= j < i ==> texts(keys@)[j] != k@,
        decreases keys.len() - i,
    {
        if text_eq(keys[i].as_str(), k) {
            assert(texts(keys@)[i as int] == k@);
            return true;
        }
        i += 1;
    }
    false
}

/// Checks that no override key is listed twice.
pub fn validate_override_keys(override_keys: &Vec<String>) -> (r: Result<(), AppError>)
    ensures
        r is Ok <==> all_distinct(texts(override_keys@)),
        r matches Err(e) ==> e is BadArgument,
{
    let ghost s = texts(override_keys@);
    let mut i: usize = 0;
    while i < override_keys.len()
        invariant
            i <= override_keys.len(),
            s == texts(override_keys@),
            forall|a: int, b: int| 0 <= a < b < i ==> s[a] != s[b],
        decreases override_keys.len() - i,
    {
        let mut j: usize = 0;
        while j < i
            invariant
                i < override_keys.len(),
                j <= i,
                s == texts(override_keys@),
                forall|a: int| 0 <= a < j ==> s[a] != s[i as int],
            decreases i - j,
        {
            assert(s[j as int] == override_keys[j as int]@ && s[i as int] == override_keys[i as int]@);
            if text_eq(override_keys[j].as_str(), override_keys[i].as_str()) {
                return Err(bad_argument("override_keys are not unique. Remove duplicate entries in override_keys"));
            }
            j += 1;
        }
        i += 1;
    }
    Ok(())
}

/// An override map covers the keys when both hold the same set of keys.
pub open spec fn covers(overrides: Seq<Member>, keys: Seq<Seq<char>>) -> bool {
    &&& forall|i: int| 0 <= i < keys.len() ==> keys_of(overrides).contains(#[trigger] keys[i])
    &&& forall|j: int| 0 <= j < overrides.len() ==> keys.contains(#[trigger] keys_of(overrides)[j])
}

/// Coverage is equality of the two key sets.
pub proof fn law_coverage_is_set_equality(o: Seq<Member>, keys: Seq<Seq<char>>)
    ensures
        covers(o, keys) <==> keys_of(o).to_set() == keys.to_set(),
{
    let ok = keys_of(o);
    if covers(o, keys) {
        assert forall|k: Seq<char>| ok.to_set().contains(k) <==> keys.to_set().contains(k) by {
            if ok.contains(k) {
                let j = choose|j: int| 0 <= j < ok.len() && ok[j] == k;
                assert(keys.contains(ok[j]));
            }
            if keys.contains(k) {
                let i = choose|i: int| 0 <= i < keys.len() && keys[i] == k;
                assert(ok.contains(keys[i]));
            }
        }
        assert(ok.to_set() =~= keys.to_set());
    }
    if ok.to_set() == keys.to_set() {
        assert forall|i: int| 0 <= i < keys.len() implies ok.contains(#[trigger] keys[i]) by {
            assert(keys.to_set().contains(keys[i]));
        }
        assert forall|j: int| 0 <= j < o.len() implies keys.contains(#[trigger] ok[j]) by {
            assert(ok.to_set().contains(ok[j]));
        }
    }
}

/// Whether a variant's overrides hold exactly the set of override keys.
pub fn check_variant_override_coverage(variant_override: &Vec<Member>, override_keys: &Vec<String>) -> (r: bool)
    ensures
        r == covers(variant_override@, texts(override_keys@)),
{
    let mut j: usize = 0;
    while j < variant_override.len()
        invariant
            j <= variant_override.len(),
            forall|t: int| 0 <= t < j ==> texts(override_keys@).contains(#[trigger] keys_of(variant_override@)[t]),
        decreases variant_override.len() - j,
    {
        assert(keys_of(variant_override@)[j as int] == variant_override[j as int].key@);
        if !contains_key(override_keys, variant_override[j].key.as_str()) {
            return false;
        }
        j += 1;
    }
    let mut i: usize = 0;
    while i < override_keys.len()
        invariant
            i <= override_keys.len(),
            forall|t: int| 0 <= t < variant_override.len() ==> texts(override_keys@).contains(
                #[trigger] keys_of(variant_override@)[t],
            ),
            forall|j: int| 0 <= j < i ==> keys_of(variant_override@).contains(#[trigger] texts(override_keys@)[j]),
        decreases override_keys.len() - i,
    {
        let found = find_member(variant_override, override_keys[i].as_str());
        proof {
            lemma_first_index(keys_of(variant_override@), override_keys[i as int]@);
        }
        assert(texts(override_keys@)[i as int] == override_keys[i as int]@);
        if found.is_none() {
            return false;
        }
        i += 1;
    }
    true
}

/// Whether every variant's overrides cover exactly the override keys.
pub fn check_variants_override_coverage(variant_overrides: &Vec<&Vec<Member>>, override_keys: &Vec<String>) -> (r: bool)
    ensures
        r == forall|i: int| 0 <= i < variant_overrides.len() ==> covers(#[trigger] variant_overrides[i]@, texts(override_keys@)),
{
    let mut i: usize = 0;
    while i < variant_overrides.len()
        invariant
            i <= variant_overrides.len(),
            forall|j: int| 0 <= j < i ==> covers(#[trigger] variant_overrides[j]@, texts(override_keys@)),
        decreases variant_overrides.len() - i,
    {
        if !check_variant_override_coverage(variant_overrides[i], override_keys) {
            return false;
        }
        i += 1;
    }
    true
}

/// The keys of an override map.
pub fn extract_override_keys(overrides: &Vec<Member>) -> (r: Vec<String>)
    ensures
        texts(r@) == keys_of(overrides@),
{
    let mut out: Vec<String> = Vec::new();
    let mut i: usize = 0;
    while i < overrides.len()
        invariant
            i <= overrides.len(),
            out.len() == i,
            forall|j: int| 0 <= j < i ==> (#[trigger] out[j])@ == overrides[j].key@,
        decreases overrides.len() - i,
    {
        out.push(overrides[i].key.clone());
        i += 1;
    }
    assert(texts(out@) =~= keys_of(overrides@));
    out
}

/// The clauses of a context: those of a top-level `and`, or the context itself.
pub open spec fn conditions_of(ctx: JVal) -> Option<Seq<JVal>> {
    match ctx {
        JVal::Obj(ks, vs) => match lookup(ks, vs, "and"@) {
            Some(JVal::Arr(cs)) => Some(cs),
            Some(_) => None,
            None => Some(seq![ctx]),
        },
        _ => None,
    }
}

/// An operand of the form `{"var": ...}`.
pub open spec fn is_var_ref(op: JVal) -> bool {
    op matches JVal::Obj(ks, vs) && lookup(ks, vs, "var"@).is_some()
}

/// Index of the first variable reference among the operands, or their count.
pub open spec fn first_var(ops: Seq<JVal>) -> int
    decreases ops.len(),
{
    if ops.len() == 0 {
        0
    } else if is_var_ref(ops[0]) {
        0
    } else {
        1 + first_var(ops.drop_first())
    }
}

proof fn lemma_first_var(ops: Seq<JVal>)
    ensures
        0 <= first_var(ops) <= ops.len(),
        forall|j: int| 0 <= j < first_var(ops) ==> !is_var_ref(#[trigger] ops[j]),
        first_var(ops) < ops.len() ==> is_var_ref(ops[first_var(ops)]),
    decreases ops.len(),
{
    if ops.len() > 0 && !is_var_ref(ops[0]) {
        lemma_first_var(ops.drop_first());
        assert forall|j: int| 0 <= j < first_var(ops) implies !is_var_ref(#[trigger] ops[j]) by {
            if j > 0 {
                assert(ops[j] == ops.drop_first()[j - 1]);
            }
        }
    }
}

/// The dimension named by a comparison and the value it is compared with: the
/// operand after the variable reference, or before it when that comes second.
pub open spec fn operand_pair(ops: Seq<JVal>) -> Option<(Seq<char>, JVal)> {
    let p = first_var(ops);
    if p >= ops.len() {
        None
    } else {
        let vp = (p + 1) % 2;
        match ops[p] {
            JVal::Obj(ks, vs) => match lookup(ks, vs, "var"@) {
                Some(JVal::Str(name)) => if vp < ops.len() {
                    Some((name, ops[vp]))
                } else {
                    None
                },
                _ => None,
            },
            _ => None,
        }
    }
}

/// Sets dimension `k` to `v`: in place when present, else at the end.
pub open spec fn insert_dim(d: Seq<(Seq<char>, JVal)>, k: Seq<char>, v: JVal) -> Seq<(Seq<char>, JVal)> {
    let i = first_index(d.map_values(|p: (Seq<char>, JVal)| p.0), k);
    if i < d.len() {
        d.update(i, (k, v))
    } else {
        d.push((k, v))
    }
}

/// Adds the dimensions of the first `m` operators of a clause.
pub open spec fn add_clause(d: Seq<(Seq<char>, JVal)>, ks: Seq<Seq<char>>, vs: Seq<JVal>, m: int) -> Option<
    Seq<(Seq<char>, JVal)>,
>
    decreases m,
{
    if m <= 0 {
        Some(d)
    } else {
        match add_clause(d, ks, vs, m - 1) {
            None => None,
            Some(d2) => match vs[m - 1] {
                JVal::Arr(ops) => match operand_pair(ops) {
                    Some(pair) => Some(insert_dim(d2, pair.0, pair.1)),
                    None => None,
                },
                _ => None,
            },
        }
    }
}

/// The dimensions of the first `m` clauses.
pub open spec fn add_clauses(cs: Seq<JVal>, m: int) -> Option<Seq<(Seq<char>, JVal)>>
    decreases m,
{
    if m <= 0 {
        Some(Seq::empty())
    } else {
        match add_clauses(cs, m - 1) {
            None => None,
            Some(d) => match cs[m - 1] {
                JVal::Obj(ks, vs) => add_clause(d, ks, vs, ks.len() as int),
                _ => None,
            },
        }
    }
}

/// The dimension map of a context: each dimension with the value it is compared
/// with; a later clause on the same dimension wins.
pub open spec fn dimensions_of(ctx: JVal) -> Option<Seq<(Seq<char>, JVal)>> {
    match conditions_of(ctx) {
        Some(cs) => add_clauses(cs, cs.len() as int),
        None => None,
    }
}

/// The pairs of a list of entries.
pub open spec fn pairs_of(v: Seq<Member>) -> Seq<(Seq<char>, JVal)> {
    Seq::new(v.len(), |i: int| (v[i].key@, v[i].value@))
}

proof fn lemma_pairs_keys(v: Seq<Member>)
    ensures
        pairs_of(v).map_values(|p: (Seq<char>, JVal)| p.0) == keys_of(v),
{
    assert(pairs_of(v).map_values(|p: (Seq<char>, JVal)| p.0) =~= keys_of(v));
}

proof fn lemma_add_clause_none(d: Seq<(Seq<char>, JVal)>, ks: Seq<Seq<char>>, vs: Seq<JVal>, a: int, b: int)
    requires
        0 < a <= b,
        add_clause(d, ks, vs, a) is None,
    ensures
        add_clause(d, ks, vs, b) is None,
    decreases b - a,
{
    if a < b {
        lemma_add_clause_none(d, ks, vs, a, b - 1);
    }
}

proof fn lemma_add_clauses_none(cs: Seq<JVal>, a: int, b: int)
    requires
        0 < a <= b,
        add_clauses(cs, a) is None,
    ensures
        add_clauses(cs, b) is None,
    decreases b - a,
{
    if a < b {
        lemma_add_clauses_none(cs, a, b - 1);
    }
}

/// Sets a dimension in an exec dimension list.
fn insert_member(d: &mut Vec<Member>, k: String, v: JsonValue)
    ensures
        pairs_of(final(d)@) == insert_dim(pairs_of(old(d)@), k@, v@),
{
    proof {
        lemma_pairs_keys(old(d)@);
    }
    let found = find_member(d, k.as_str());
    let ghost kv = (k@, v@);
    match found {
        Some(i) => {
            d.set(i, Member { key: k, value: v });
            assert(pairs_of(final(d)@) =~= pairs_of(old(d)@).update(i as int, kv));
        },
        None => {
            d.push(Member { key: k, value: v });
            assert(pairs_of(final(d)@) =~= pairs_of(old(d)@).push(kv));
        },
    }
}

/// The clauses of a context, borrowed.
fn conditions<'a>(context: &'a JsonValue) -> (r: Option<Vec<&'a JsonValue>>)
    ensures
        match conditions_of(context@) {
            Some(cs) => r matches Some(v) && v@.map_values(|x: &JsonValue| x@) == cs,
            None => r is None,
        },
{
    match context {
        JsonValue::Object(members) => {
            assert(context@ == JsonValue::Object(*members)@);
            assert(context@->Obj_0 =~= keys_of(members@));
            assert(context@->Obj_1 =~= values_of(members@));
            proof {
                lemma_first_index(keys_of(members@), "and"@);
            }
            match find_member(members, "and") {
                Some(i) => {
                    assert(context@->Obj_1[i as int] == members[i as int].value@);
                    match &members[i].value {
                        JsonValue::Array(cs) => {
                            let mut out: Vec<&'a JsonValue> = Vec::new();
                            let mut j: usize = 0;
                            while j < cs.len()
                                invariant
                                    j <= cs.len(),
                                    out.len() == j,
                                    forall|t: int| 0 <= t < j ==> #[trigger] out[t] == &cs[t],
                                decreases cs.len() - j,
                            {
                                out.push(&cs[j]);
                                j += 1;
                            }
                            assert(members[i as int].value@ == JsonValue::Array(*cs)@);
                            assert(out@.map_values(|x: &JsonValue| x@) =~= members[i as int].value@->Arr_0);
                            Some(out)
                        },
                        _ => None,
                    }
                },
                None => {
                    let out = vec![context];
                    assert(out@.map_values(|x: &JsonValue| x@) =~= seq![context@]);
                    Some(out)
                },
            }
        },
        _ => None,
    }
}

/// The dimension named by a comparison's operands and the value compared with.
fn operand_pair_of(ops: &Vec<JsonValue>) -> (r: Option<(String, JsonValue)>)
    ensures
        match operand_pair(ops@.map_values(|x: JsonValue| x@)) {
            Some(p) => r matches Some(q) && q.0@ == p.0 && q.1@ == p.1,
            None => r is None,
        },
{
    let ghost s = ops@.map_values(|x: JsonValue| x@);
    proof {
        lemma_first_var(s);
    }
    let mut p: usize = 0;
    while p < ops.len()
        invariant
            p <= ops.len(),
            s == ops@.map_values(|x: JsonValue| x@),
            0 <= first_var(s) <= s.len(),
            forall|j: int| 0 <= j < first_var(s) ==> !is_var_ref(#[trigger] s[j]),
            first_var(s) < s.len() ==> is_var_ref(s[first_var(s)]),
            p <= first_var(s),
        decreases ops.len() - p,
    {
        assert(s[p as int] == ops[p as int]@);
        if let JsonValue::Object(members) = &ops[p] {
            assert(ops[p as int]@ == JsonValue::Object(*members)@);
            assert(s[p as int]->Obj_0 =~= keys_of(members@));
            assert(s[p as int]->Obj_1 =~= values_of(members@));
            proof {
                lemma_first_index(keys_of(members@), "var"@);
            }
            if let Some(k) = find_member(members, "var") {
                assert(p as int == first_var(s));
                assert(s[p as int]->Obj_1[k as int] == members[k as int].value@);
                let vp: usize = (p + 1) % 2;
                if let JsonValue::Str(name) = &members[k].value {
                    if vp < ops.len() {
                        assert(s[vp as int] == ops[vp as int]@);
                        return Some((name.clone(), ops[vp].deep_clone()));
                    }
                }
                return None;
            }
        }
        p += 1;
    }
    None
}

/// The dimension map of a context, or why it has none.
pub fn extract_dimensions(context: &JsonValue) -> (r: Result<Vec<Member>, AppError>)
    ensures
        match dimensions_of(context@) {
            Some(d) => r matches Ok(v) && pairs_of(v@) == d,
            None => r matches Err(e) && e is BadArgument,
        },
{
    let conds = match conditions(context) {
        Some(c) => c,
        None => {
            return Err(
                bad_argument(
                    "Error extracting dimensions, context not a valid JSON object. Check the request sent for correctness",
                ),
            );
        },
    };
    let ghost cs = conds@.map_values(|x: &JsonValue| x@);
    let mut dims: Vec<Member> = Vec::new();
    let mut i: usize = 0;
    assert(pairs_of(dims@) =~= Seq::empty());
    while i < conds.len()
        invariant
            i <= conds.len(),
            cs == conds@.map_values(|x: &JsonValue| x@),
            dimensions_of(context@) == add_clauses(cs, cs.len() as int),
            add_clauses(cs, i as int) == Some(pairs_of(dims@)),
        decreases conds.len() - i,
    {
        assert(cs[i as int] == conds[i as int]@);
        let members = match conds[i] {
            JsonValue::Object(m) => m,
            _ => {
                proof {
                    lemma_add_clauses_none(cs, i as int + 1, cs.len() as int);
                }
                return Err(bad_argument("Failed to parse a condition of the context as an object"));
            },
        };
        let ghost ks = cs[i as int]->Obj_0;
        let ghost vs = cs[i as int]->Obj_1;
        assert(conds[i as int]@ == JsonValue::Object(*members)@);
        assert(ks =~= keys_of(members@));
        assert(vs =~= values_of(members@));
        let ghost d0 = pairs_of(dims@);
        let mut o: usize = 0;
        while o < members.len()
            invariant
                i < conds.len(),
                cs == conds@.map_values(|x: &JsonValue| x@),
                dimensions_of(context@) == add_clauses(cs, cs.len() as int),
                add_clauses(cs, i as int) == Some(d0),
                cs[i as int] == JVal::Obj(ks, vs),
                o <= members.len(),
                ks == keys_of(members@),
                vs == values_of(members@),
                add_clause(d0, ks, vs, o as int) == Some(pairs_of(dims@)),
            decreases members.len() - o,
        {
            assert(vs[o as int] == members[o as int].value@);
            let ops = match &members[o].value {
                JsonValue::Array(ops) => ops,
                _ => {
                    proof {
                        lemma_add_clause_none(d0, ks, vs, o as int + 1, ks.len() as int);
                        lemma_add_clauses_none(cs, i as int + 1, cs.len() as int);
                    }
                    return Err(bad_argument("Failed to parse operands of a condition as an array"));
                },
            };
            assert(members[o as int].value@ == JsonValue::Array(*ops)@);
            assert(vs[o as int]->Arr_0 =~= ops@.map_values(|x: JsonValue| x@));
            match operand_pair_of(ops) {
                Some((name, value)) => {
                    insert_member(&mut dims, name, value);
                },
                None => {
                    proof {
                        lemma_add_clause_none(d0, ks, vs, o as int + 1, ks.len() as int);
                        lemma_add_clauses_none(cs, i as int + 1, cs.len() as int);
                    }
                    return Err(bad_argument("Failed to find a dimension and its value in a condition"));
                },
            }
            o += 1;
        }
        i += 1;
    }
    Ok(dims)
}

proof fn lemma_pairs_values(v: Seq<Member>)
    ensures
        pairs_of(v).map_values(|p: (Seq<char>, JVal)| p.1) == values_of(v),
{
    assert(pairs_of(v).map_values(|p: (Seq<char>, JVal)| p.1) =~= values_of(v));
}

/// Every dimension of `x` has the same value in `y`.
pub open spec fn pairs_within(x: Seq<(Seq<char>, JVal)>, y: Seq<(Seq<char>, JVal)>) -> bool {
    forall|i: int|
        0 <= i < x.len() ==> lookup(
            y.map_values(|p: (Seq<char>, JVal)| p.0),
            y.map_values(|p: (Seq<char>, JVal)| p.1),
            (#[trigger] x[i]).0,
        ) == Some(x[i].1)
}

/// Two dimension maps overlap when the smaller one agrees with the other on
/// all of its dimensions.
pub open spec fn overlapping(a: Seq<(Seq<char>, JVal)>, b: Seq<(Seq<char>, JVal)>) -> bool {
    if a.len() > b.len() {
        pairs_within(b, a)
    } else {
        pairs_within(a, b)
    }
}

/// Whether two contexts overlap; none when a dimension map cannot be extracted.
pub open spec fn contexts_overlap(ca: JVal, cb: JVal) -> Option<bool> {
    match (dimensions_of(ca), dimensions_of(cb)) {
        (Some(a), Some(b)) => Some(overlapping(a, b)),
        _ => None,
    }
}

fn dims_within(x: &Vec<Member>, y: &Vec<Member>) -> (r: bool)
    ensures
        r == pairs_within(pairs_of(x@), pairs_of(y@)),
{
    proof {
        lemma_pairs_keys(y@);
        lemma_pairs_values(y@);
    }
    let ghost px = pairs_of(x@);
    let mut i: usize = 0;
    while i < x.len()
        invariant
            i <= x.len(),
            px == pairs_of(x@),
            pairs_of(y@).map_values(|p: (Seq<char>, JVal)| p.0) == keys_of(y@),
            pairs_of(y@).map_values(|p: (Seq<char>, JVal)| p.1) == values_of(y@),
            forall|j: int|
                0 <= j < i ==> lookup(keys_of(y@), values_of(y@), (#[trigger] px[j]).0) == Some(px[j].1),
        decreases x.len() - i,
    {
        assert(px[i as int] == (x[i as int].key@, x[i as int].value@));
        proof {
            lemma_first_index(keys_of(y@), x[i as int].key@);
        }
        match find_member(y, x[i].key.as_str()) {
            Some(j) => {
                assert(values_of(y@)[j as int] == y[j as int].value@);
                if !json_eq(&y[j].value, &x[i].value) {
                    return false;
                }
            },
            None => {
                return false;
            },
        }
        i += 1;
    }
    true
}

/// Whether two experiment contexts overlap.
pub fn are_overlapping_contexts(context_a: &JsonValue, context_b: &JsonValue) -> (r: Result<bool, AppError>)
    ensures
        match contexts_overlap(context_a@, context_b@) {
            Some(o) => r matches Ok(x) && x == o,
            None => r matches Err(e) && e is BadArgument,
        },
{
    let dimensions_a = extract_dimensions(context_a)?;
    let dimensions_b = extract_dimensions(context_b)?;
    if dimensions_a.len() > dimensions_b.len() {
        Ok(dims_within(&dimensions_b, &dimensions_a))
    } else {
        Ok(dims_within(&dimensions_a, &dimensions_b))
    }
}

/// Which overlaps between experiments are allowed.
#[derive(Debug, PartialEq, Eq, Structural, Clone, Copy)]
pub struct ExperimentationFlags {
    pub allow_same_keys_overlapping_ctx: bool,
    pub allow_diff_keys_overlapping_ctx: bool,
    pub allow_same_keys_non_overlapping_ctx: bool,
}

pub open spec fn all_allowed(f: ExperimentationFlags) -> bool {
    f.allow_same_keys_overlapping_ctx && f.allow_diff_keys_overlapping_ctx && f.allow_same_keys_non_overlapping_ctx
}

/// Some key of `ek` is in `keys`.
pub open spec fn intersects(ek: Seq<Seq<char>>, keys: Seq<Seq<char>>) -> bool {
    exists|i: int| 0 <= i < ek.len() && keys.contains(#[trigger] ek[i])
}

/// Every key of `ek` is in `keys`.
pub open spec fn same_key_set(ek: Seq<Seq<char>>, keys: Seq<Seq<char>>) -> bool {
    forall|i: int| 0 <= i < ek.len() ==> keys.contains(#[trigger] ek[i])
}

/// The rejection matrix for one running experiment.
pub open spec fn rejects(f: ExperimentationFlags, overlap: bool, intersect: bool, same: bool) -> bool {
    (!f.allow_diff_keys_overlapping_ctx && overlap && !same) || (!f.allow_same_keys_overlapping_ctx && overlap
        && intersect) || (!f.allow_same_keys_non_overlapping_ctx && !overlap && intersect)
}

/// Checks a new experiment against the running ones in order: none when an
/// overlap cannot be decided, false at the first rejection, else true.
pub open spec fn validity(ctx: JVal, keys: Seq<Seq<char>>, f: ExperimentationFlags, actives: Seq<ExperimentModel>) -> Option<
    bool,
>
    decreases actives.len(),
{
    if actives.len() == 0 {
        Some(true)
    } else {
        let e = actives[0];
        match contexts_overlap(ctx, e.context) {
            None => None,
            Some(o) => if rejects(f, o, intersects(e.override_keys, keys), same_key_set(e.override_keys, keys)) {
                Some(false)
            } else {
                validity(ctx, keys, f, actives.drop_first())
            },
        }
    }
}

pub open spec fn models(v: Seq<Experiment>) -> Seq<ExperimentModel> {
    v.map_values(|e: Experiment| e.model())
}

/// Whether a new experiment with `context` and `override_keys` may run beside
/// `active_experiments`, with the reason when it may not.
pub fn is_valid_experiment(
    context: &JsonValue,
    override_keys: &Vec<String>,
    flags: &ExperimentationFlags,
    active_experiments: &Vec<Experiment>,
) -> (r: Result<(bool, String), AppError>)
    ensures
        all_allowed(*flags) ==> (r matches Ok((b, reason)) && b && reason@.len() == 0),
        !all_allowed(*flags) ==> match validity(context@, texts(override_keys@), *flags, models(active_experiments@)) {
            Some(true) => r matches Ok((b, reason)) && b && reason@.len() == 0,
            Some(false) => r matches Ok((b, reason)) && !b && reason@.len() > 0,
            None => r matches Err(e) && e is BadArgument,
        },
{
    if flags.allow_same_keys_overlapping_ctx && flags.allow_diff_keys_overlapping_ctx
        && flags.allow_same_keys_non_overlapping_ctx {
        return Ok((true, String::new()));
    }
    let ghost keys = texts(override_keys@);
    let ghost s = models(active_experiments@);
    let mut i: usize = 0;
    assert(s.subrange(0, s.len() as int) =~= s);
    while i < active_experiments.len()
        invariant
            i <= active_experiments.len(),
            !all_allowed(*flags),
            keys == texts(override_keys@),
            s == models(active_experiments@),
            validity(context@, keys, *flags, s) == validity(context@, keys, *flags, s.subrange(i as int, s.len() as int)),
        decreases active_experiments.len() - i,
    {
        let ghost rest = s.subrange(i as int, s.len() as int);
        assert(rest[0] == active_experiments[i as int].model());
        assert(rest.drop_first() =~= s.subrange(i + 1, s.len() as int));
        let active_experiment = &active_experiments[i];
        let are_overlapping = match are_overlapping_contexts(context, &active_experiment.context) {
            Ok(o) => o,
            Err(_) => {
                return Err(
                    bad_argument(
                        "Context overlap validation failed, given context overlaps with a running experiment's context. Overlapping contexts are not allowed currently as per your configuration",
                    ),
                );
            },
        };
        let ghost ek = texts(active_experiment.override_keys@);
        let mut have_intersecting_key_set = false;
        let mut same_key_set = true;
        let mut j: usize = 0;
        while j < active_experiment.override_keys.len()
            invariant
                j <= active_experiment.override_keys.len(),
                ek == texts(active_experiment.override_keys@),
                keys == texts(override_keys@),
                have_intersecting_key_set == exists|t: int| 0 <= t < j && keys.contains(#[trigger] ek[t]),
                same_key_set == forall|t: int| 0 <= t < j ==> keys.contains(#[trigger] ek[t]),
            decreases active_experiment.override_keys.len() - j,
        {
            assert(ek[j as int] == active_experiment.override_keys[j as int]@);
            let c = contains_key(override_keys, active_experiment.override_keys[j].as_str());
            have_intersecting_key_set = have_intersecting_key_set || c;
            same_key_set = same_key_set && c;
            j += 1;
        }
        assert(ek == rest[0].override_keys);
        let mut valid_experiment = true;
        if !flags.allow_diff_keys_overlapping_ctx {
            valid_experiment = valid_experiment && !(are_overlapping && !same_key_set);
        }
        if !flags.allow_same_keys_overlapping_ctx {
            valid_experiment = valid_experiment && !(are_overlapping && have_intersecting_key_set);
        }
        if !flags.allow_same_keys_non_overlapping_ctx {
            valid_experiment = valid_experiment && !(!are_overlapping && have_intersecting_key_set);
        }
        if !valid_experiment {
            let mut invalid_reason = String::new();
            invalid_reason.append(
                "This current context overlaps with an existing experiment or the keys in the context are overlapping",
            );
            proof {
                reveal_strlit(
                    "This current context overlaps with an existing experiment or the keys in the context are overlapping",
                );
            }
            return Ok((false, invalid_reason));
        }
        i += 1;
    }
    Ok((true, String::new()))
}

/// The experiments that a new one is checked against: created or in progress,
/// and not the one with id `skip`.
pub open spec fn active_models(s: Seq<ExperimentModel>, skip: int) -> Seq<ExperimentModel>
    decreases s.len(),
{
    if s.len() == 0 {
        Seq::empty()
    } else {
        let rest = active_models(s.drop_last(), skip);
        let e = s.last();
        if e.id != skip && (e.status == ExperimentStatusType::CREATED || e.status == ExperimentStatusType::INPROGRESS) {
            rest.push(e)
        } else {
            rest
        }
    }
}

/// Validates a new or changed experiment against the stored ones: those that
/// are created or in progress, other than `experiment_id` itself.
pub fn validate_experiment(
    context: &JsonValue,
    override_keys: &Vec<String>,
    experiment_id: Option<i64>,
    flags: &ExperimentationFlags,
    experiments: &Vec<Experiment>,
) -> (r: Result<(bool, String), AppError>)
    ensures
        all_allowed(*flags) ==> (r matches Ok((b, reason)) && b && reason@.len() == 0),
        !all_allowed(*flags) ==> match validity(
            context@,
            texts(override_keys@),
            *flags,
            active_models(
                models(experiments@),
                match experiment_id {
                    Some(id) => id as int,
                    None => 0,
                },
            ),
        ) {
            Some(true) => r matches Ok((b, reason)) && b && reason@.len() == 0,
            Some(false) => r matches Ok((b, reason)) && !b && reason@.len() > 0,
            None => r matches Err(e) && e is BadArgument,
        },
{
    let skip: i64 = match experiment_id {
        Some(id) => id,
        None => 0,
    };
    let ghost s = models(experiments@);
    let mut active: Vec<Experiment> = Vec::new();
    let mut i: usize = 0;
    while i < experiments.len()
        invariant
            i <= experiments.len(),
            s == models(experiments@),
            models(active@) == active_models(s.subrange(0, i as int), skip as int),
        decreases experiments.len() - i,
    {
        assert(s.subrange(0, i + 1).drop_last() =~= s.subrange(0, i as int));
        assert(s.subrange(0, i + 1).last() == experiments[i as int].model());
        let e = &experiments[i];
        if e.id != skip && (e.status == ExperimentStatusType::CREATED || e.status == ExperimentStatusType::INPROGRESS) {
            let c = e.deep_clone();
            let ghost before = active@;
            active.push(c);
            assert(models(active@) =~= models(before).push(c.model()));
        }
        i += 1;
    }
    assert(s.subrange(0, s.len() as int) =~= s);
    is_valid_experiment(context, override_keys, flags, &active)
}

/// The clause that restricts a context to callers assigned `variant`.
pub open spec fn variant_condition(variant: Seq<char>) -> JVal {
    JVal::Obj(
        seq!["in"@],
        seq![JVal::Arr(seq![JVal::Str(variant), JVal::Obj(seq!["var"@], seq![JVal::Str("variantIds"@)])])],
    )
}

/// A conjunction of clauses.
pub open spec fn and_of(cs: Seq<JVal>) -> JVal {
    JVal::Obj(seq!["and"@], seq![JVal::Arr(cs)])
}

/// The context of a variant: the experiment's clauses and the variant clause.
pub open spec fn with_variant(ctx: JVal, variant: Seq<char>) -> Option<JVal> {
    match ctx {
        JVal::Obj(ks, vs) => match lookup(ks, vs, "and"@) {
            Some(JVal::Arr(cs)) => Some(and_of(cs.push(variant_condition(variant)))),
            Some(_) => None,
            None => Some(and_of(seq![ctx, variant_condition(variant)])),
        },
        _ => None,
    }
}

fn single_entry(key: &str, value: JsonValue) -> (r: JsonValue)
    ensures
        r@ == JVal::Obj(seq![key@], seq![value@]),
{
    let ghost vv = value@;
    let r = JsonValue::Object(vec![Member { key: key.to_string(), value }]);
    assert(r@->Obj_0 =~= seq![key@]);
    assert(r@->Obj_1 =~= seq![vv]);
    r
}

fn variant_condition_value(variant: String) -> (r: JsonValue)
    ensures
        r@ == variant_condition(variant@),
{
    let var_ref = single_entry("var", JsonValue::Str("variantIds".to_string()));
    let ghost a = var_ref@;
    let ghost vs = variant@;
    let mut items: Vec<JsonValue> = Vec::new();
    items.push(JsonValue::Str(variant));
    items.push(var_ref);
    let arr = JsonValue::Array(items);
    assert(arr@->Arr_0.len() == 2);
    assert(arr@->Arr_0[0] == items[0]@);
    assert(arr@->Arr_0[1] == items[1]@);
    assert(arr@->Arr_0 =~= seq![JVal::Str(vs), a]);
    single_entry("in", arr)
}

/// Adds to an experiment's context the clause that selects callers assigned
/// `variant`.
pub fn add_variant_dimension_to_ctx(context_json: &JsonValue, variant: String) -> (r: Result<JsonValue, AppError>)
    ensures
        match with_variant(context_json@, variant@) {
            Some(c) => r matches Ok(v) && v@ == c,
            None => r matches Err(e) && e is BadArgument,
        },
{
    let members = match context_json {
        JsonValue::Object(m) => m,
        _ => {
            return Err(
                bad_argument("Context not an object. Ensure the context provided obeys the rules of JSON logic"),
            );
        },
    };
    assert(context_json@ == JsonValue::Object(*members)@);
    assert(context_json@->Obj_0 =~= keys_of(members@));
    assert(context_json@->Obj_1 =~= values_of(members@));
    proof {
        lemma_first_index(keys_of(members@), "and"@);
    }
    let ghost vv = variant@;
    let ghost mut eb: Seq<JVal> = Seq::empty();
    let mut conditions: Vec<JsonValue> = match find_member(members, "and") {
        Some(i) => {
            assert(context_json@->Obj_1[i as int] == members[i as int].value@);
            match &members[i].value {
                JsonValue::Array(cs) => {
                    let c = members[i].value.deep_clone();
                    match c {
                        JsonValue::Array(v) => {
                            assert(values_of(members@)[i as int] == members[i as int].value@);
                            assert(lookup(context_json@->Obj_0, context_json@->Obj_1, "and"@) == Some(
                                members[i as int].value@,
                            ));
                            assert(JsonValue::Array(v)@ == members[i as int].value@);
                            proof {
                                eb = members[i as int].value@->Arr_0;
                                assert(with_variant(context_json@, vv) == Some(and_of(eb.push(variant_condition(vv)))));
                            }
                            v
                        },
                        _ => {
                            return Err(bad_argument("Failed parsing conditions as an array"));
                        },
                    }
                },
                _ => {
                    return Err(
                        bad_argument(
                            "Failed parsing conditions as an array. Ensure the context provided obeys the rules of JSON logic",
                        ),
                    );
                },
            }
        },
        None => {
            let mut v: Vec<JsonValue> = Vec::new();
            v.push(context_json.deep_clone());
            assert(JsonValue::Array(v)@->Arr_0[0] == v[0]@);
            assert(JsonValue::Array(v)@->Arr_0 =~= seq![context_json@]);
            proof {
                eb = seq![context_json@];
                assert(lookup(context_json@->Obj_0, context_json@->Obj_1, "and"@) is None);
                assert(eb.push(variant_condition(vv)) =~= seq![context_json@, variant_condition(vv)]);
                assert(with_variant(context_json@, vv) == Some(and_of(eb.push(variant_condition(vv)))));
            }
            v
        },
    };
    let ghost before = JsonValue::Array(conditions)@;
    assert(before->Arr_0 == eb);
    assert(with_variant(context_json@, vv) == Some(and_of(eb.push(variant_condition(vv)))));
    let cond = variant_condition_value(variant);
    let ghost cv = cond@;
    conditions.push(cond);
    let arr = JsonValue::Array(conditions);
    assert(arr@->Arr_0 =~= before->Arr_0.push(cv));
    assert(arr@ == JVal::Arr(before->Arr_0.push(cv)));
    assert(cv == variant_condition(variant@));
    let r = single_entry("and", arr);
    assert(r@ == and_of(before->Arr_0.push(cv)));
    Ok(r)
}

} // verus!
