//! Contextual overrides and the resolver that layers them over the defaults.

use vstd::prelude::*;
use vstd::string::*;
use crate::json::{JVal, JsonValue, Member, keys_of, values_of, lookup, find_member, lemma_first_index};
use crate::condition::{condition_holds, holds};
use crate::validation::pairs_of;

verus! {

/// A default configuration entry.
#[derive(Debug, PartialEq)]
pub struct DefaultConfig {
    pub key: String,
    pub value: JsonValue,
    pub schema: JsonValue,
    pub function_name: Option<String>,
}

/// A stored context with its override.
#[derive(Debug, PartialEq)]
pub struct ContextEntry {
    pub id: String,
    pub condition: JsonValue,
    pub override_id: String,
    pub overrides: Vec<Member>,
    /// Sum of the priorities of the dimensions the condition mentions.
    pub priority: i64,
}

/// Model of a context entry.
pub struct ContextModel {
    pub id: Seq<char>,
    pub condition: JVal,
    pub priority: int,
    pub keys: Seq<Seq<char>>,
    pub values: Seq<JVal>,
}

impl ContextEntry {
    pub open spec fn model(&self) -> ContextModel {
        ContextModel {
            id: self.id@,
            condition: self.condition@,
            priority: self.priority as int,
            keys: keys_of(self.overrides@),
            values: values_of(self.overrides@),
        }
    }
}

pub open spec fn context_models(v: Seq<ContextEntry>) -> Seq<ContextModel> {
    v.map_values(|c: ContextEntry| c.model())
}

/// Lexicographic order of texts by code point.
pub open spec fn text_lt(a: Seq<char>, b: Seq<char>) -> bool
    decreases a.len(),
{
    if a.len() == 0 {
        b.len() > 0
    } else if b.len() == 0 {
        false
    } else if a[0] != b[0] {
        (a[0] as u32) < (b[0] as u32)
    } else {
        text_lt(a.drop_first(), b.drop_first())
    }
}

/// Serving order of contexts: descending priority sum, then ascending id. A
/// smaller priority means higher precedence, so it is merged later and wins.
pub open spec fn ctx_lt(a: ContextModel, b: ContextModel) -> bool {
    a.priority > b.priority || (a.priority == b.priority && text_lt(a.id, b.id))
}

/// The context whose value for `k` is served: among those that hold on `data`
/// and override `k`, the last in serving order (the later of two equal ones).
pub open spec fn winner(cs: Seq<ContextModel>, data: JVal, k: Seq<char>) -> Option<int>
    decreases cs.len(),
{
    if cs.len() == 0 {
        None
    } else {
        let w = winner(cs.drop_last(), data, k);
        let i = cs.len() - 1;
        let c = cs[i];
        if holds(c.condition, data) && c.keys.contains(k) && (w is None
            || !ctx_lt(c, cs[w->0])) {
            Some(i)
        } else {
            w
        }
    }
}

/// The served value of key `k` whose default is `d`.
pub open spec fn resolved_value(d: JVal, cs: Seq<ContextModel>, data: JVal, k: Seq<char>) -> JVal {
    match winner(cs, data, k) {
        Some(i) => match lookup(cs[i].keys, cs[i].values, k) {
            Some(v) => v,
            None => d,
        },
        None => d,
    }
}

/// The resolved configuration: each default key, with its served value.
pub open spec fn resolved(defaults: Seq<DefaultConfig>, cs: Seq<ContextModel>, data: JVal) -> Seq<(Seq<char>, JVal)> {
    Seq::new(
        defaults.len(),
        |i: int| (defaults[i].key@, resolved_value(defaults[i].value@, cs, data, defaults[i].key@)),
    )
}

/// Whether `a` comes before `b` by code point.
pub fn text_less(a: &str, b: &str) -> (r: bool)
    ensures
        r == text_lt(a@, b@),
{
    let n = a.unicode_len();
    let m = b.unicode_len();
    let mut i: usize = 0;
    assert(a@.subrange(0, n as int) =~= a@);
    assert(b@.subrange(0, m as int) =~= b@);
    while i < n && i < m
        invariant
            n == a@.len(),
            m == b@.len(),
            i <= n,
            i <= m,
            text_lt(a@, b@) == text_lt(a@.subrange(i as int, n as int), b@.subrange(i as int, m as int)),
        decreases n - i,
    {
        let x = a.get_char(i);
        let y = b.get_char(i);
        assert(a@.subrange(i as int, n as int).drop_first() =~= a@.subrange(i + 1, n as int));
        assert(b@.subrange(i as int, m as int).drop_first() =~= b@.subrange(i + 1, m as int));
        if x != y {
            return (x as u32) < (y as u32);
        }
        i += 1;
    }
    i == n && i < m
}

fn ctx_less(a: &ContextEntry, b: &ContextEntry) -> (r: bool)
    ensures
        r == ctx_lt(a.model(), b.model()),
{
    a.priority > b.priority || (a.priority == b.priority && text_less(a.id.as_str(), b.id.as_str()))
}

/// Resolves the configuration for a caller context: the defaults, with each key
/// taken from the last context in serving order that holds on `data` and
/// overrides it.
pub fn resolve(defaults: &Vec<DefaultConfig>, contexts: &Vec<ContextEntry>, data: &JsonValue) -> (r: Vec<Member>)
    ensures
        pairs_of(r@) == resolved(defaults@, context_models(contexts@), data@),
{
    let ghost cs = context_models(contexts@);
    let mut matching: Vec<bool> = Vec::new();
    let mut c: usize = 0;
    while c < contexts.len()
        invariant
            c <= contexts.len(),
            matching.len() == c,
            forall|j: int|
                0 <= j < c ==> #[trigger] matching[j] == (holds(contexts[j].condition@, data@)),
        decreases contexts.len() - c,
    {
        matching.push(condition_holds(&contexts[c].condition, data));
        c += 1;
    }
    let mut out: Vec<Member> = Vec::new();
    let mut i: usize = 0;
    while i < defaults.len()
        invariant
            i <= defaults.len(),
            out.len() == i,
            cs == context_models(contexts@),
            matching.len() == contexts.len(),
            forall|j: int|
                0 <= j < contexts.len() ==> #[trigger] matching[j] == (holds(contexts[j].condition@, data@)),
            forall|j: int| 0 <= j < i ==> (#[trigger] out[j]).key@ == defaults[j].key@ && out[j].value@ == resolved_value(
                defaults[j].value@,
                cs,
                data@,
                defaults[j].key@,
            ),
        decreases defaults.len() - i,
    {
        let key = defaults[i].key.as_str();
        let mut best: Option<usize> = None;
        let mut best_pos: usize = 0;
        let mut c: usize = 0;
        while c < contexts.len()
            invariant
                c <= contexts.len(),
                i < defaults.len(),
                key@ == defaults[i as int].key@,
                cs == context_models(contexts@),
                matching.len() == contexts.len(),
                forall|j: int|
                    0 <= j < contexts.len() ==> #[trigger] matching[j] == (holds(contexts[j].condition@, data@)),
                winner(cs.subrange(0, c as int), data@, key@) == (match best {
                    Some(b) => Some(b as int),
                    None => None::<int>,
                }),
                best matches Some(b) ==> b < c && best_pos < contexts[b as int].overrides.len()
                    && first_index_is(contexts[b as int].overrides@, key@, best_pos as int),
            decreases contexts.len() - c,
        {
            let ghost sub = cs.subrange(0, c + 1);
            assert(sub.drop_last() =~= cs.subrange(0, c as int));
            assert(sub[c as int] == contexts[c as int].model());
            proof {
                lemma_first_index(keys_of(contexts[c as int].overrides@), key@);
            }
            if matching[c] {
                match find_member(&contexts[c].overrides, key) {
                    Some(p) => {
                        let replace = match best {
                            None => true,
                            Some(b) => {
                                assert(sub[b as int] == contexts[b as int].model());
                                !ctx_less(&contexts[c], &contexts[b])
                            },
                        };
                        if replace {
                            best = Some(c);
                            best_pos = p;
                        }
                    },
                    None => {},
                }
            }
            c += 1;
        }
        assert(cs.subrange(0, contexts.len() as int) =~= cs);
        let value = match best {
            Some(b) => {
                assert(cs[b as int] == contexts[b as int].model());
                assert(values_of(contexts[b as int].overrides@)[best_pos as int] == contexts[b as int].overrides[best_pos as int].value@);
                contexts[b].overrides[best_pos].value.deep_clone()
            },
            None => defaults[i].value.deep_clone(),
        };
        out.push(Member { key: defaults[i].key.clone(), value });
        i += 1;
    }
    assert(pairs_of(out@) =~= resolved(defaults@, context_models(contexts@), data@));
    out
}

/// `p` is the index of the first entry named `k`.
pub open spec fn first_index_is(v: Seq<Member>, k: Seq<char>, p: int) -> bool {
    crate::json::first_index(keys_of(v), k) == p && p < v.len()
}

/// Resolution is pure: two results of `resolve` on the same stores and caller
/// context hold the same keys and values.
pub proof fn law_resolve_idempotent(
    defaults: Seq<DefaultConfig>,
    contexts: Seq<ContextEntry>,
    data: JVal,
    r1: Seq<Member>,
    r2: Seq<Member>,
)
    requires
        pairs_of(r1) == resolved(defaults, context_models(contexts), data),
        pairs_of(r2) == resolved(defaults, context_models(contexts), data),
    ensures
        pairs_of(r1) == pairs_of(r2),
{
}

} // verus!
