//! Experiments, their variants and their lifecycle states.

use vstd::prelude::*;
use crate::json::{JVal, JsonValue, Member, keys_of, values_of};

verus! {

/// The role of a variant inside its experiment.
#[allow(non_camel_case_types)]
#[derive(Debug, PartialEq, Eq, Structural, Clone, Copy)]
pub enum VariantType {
    CONTROL,
    EXPERIMENTAL,
}

/// Lifecycle state of an experiment.
#[allow(non_camel_case_types)]
#[derive(Debug, PartialEq, Eq, Structural, Clone, Copy)]
pub enum ExperimentStatusType {
    CREATED,
    INPROGRESS,
    CONCLUDED,
}

/// One arm of an experiment with its own overrides.
#[derive(Debug, PartialEq)]
pub struct Variant {
    pub id: String,
    pub variant_type: VariantType,
    pub overrides: Vec<Member>,
}

/// A time-bounded split of traffic between variants.
#[derive(Debug, PartialEq)]
pub struct Experiment {
    pub id: i64,
    pub name: String,
    pub status: ExperimentStatusType,
    pub context: JsonValue,
    pub override_keys: Vec<String>,
    pub variants: Vec<Variant>,
    pub traffic_percentage: u8,
    /// Seconds since the Unix epoch of the last change.
    pub last_modified: i64,
    pub chosen_variant: Option<String>,
}

/// The model of a variant: id, role and overrides as keys and values.
pub struct VariantModel {
    pub id: Seq<char>,
    pub variant_type: VariantType,
    pub keys: Seq<Seq<char>>,
    pub values: Seq<JVal>,
}

impl Variant {
    pub open spec fn model(&self) -> VariantModel {
        VariantModel {
            id: self.id@,
            variant_type: self.variant_type,
            keys: keys_of(self.overrides@),
            values: values_of(self.overrides@),
        }
    }

    /// A copy of the variant.
    pub fn deep_clone(&self) -> (r: Variant)
        ensures
            r.model() == self.model(),
    {
        let overrides = clone_members(&self.overrides);
        Variant { id: self.id.clone(), variant_type: self.variant_type, overrides }
    }
}

/// A copy of a list of object entries.
pub fn clone_members(v: &Vec<Member>) -> (r: Vec<Member>)
    ensures
        keys_of(r@) == keys_of(v@),
        values_of(r@) == values_of(v@),
{
    let mut out: Vec<Member> = Vec::new();
    let mut i: usize = 0;
    while i < v.len()
        invariant
            i <= v.len(),
            out.len() == i,
            forall|j: int| 0 <= j < i ==> (#[trigger] out[j]).key@ == v[j].key@ && out[j].value@ == v[j].value@,
        decreases v.len() - i,
    {
        out.push(Member { key: v[i].key.clone(), value: v[i].value.deep_clone() });
        i += 1;
    }
    assert(keys_of(out@) =~= keys_of(v@));
    assert(values_of(out@) =~= values_of(v@));
    out
}

/// A copy of a list of strings.
pub fn clone_strings(v: &Vec<String>) -> (r: Vec<String>)
    ensures
        r@.map_values(|s: String| s@) == v@.map_values(|s: String| s@),
{
    let mut out: Vec<String> = Vec::new();
    let mut i: usize = 0;
    while i < v.len()
        invariant
            i <= v.len(),
            out.len() == i,
            forall|j: int| 0 <= j < i ==> (#[trigger] out[j])@ == v[j]@,
        decreases v.len() - i,
    {
        out.push(v[i].clone());
        i += 1;
    }
    assert(out@.map_values(|s: String| s@) =~= v@.map_values(|s: String| s@));
    out
}

/// The model of an experiment.
pub struct ExperimentModel {
    pub id: int,
    pub name: Seq<char>,
    pub status: ExperimentStatusType,
    pub context: JVal,
    pub override_keys: Seq<Seq<char>>,
    pub variants: Seq<VariantModel>,
    pub traffic_percentage: int,
    pub last_modified: int,
    pub chosen_variant: Option<Seq<char>>,
}

pub open spec fn opt_text(o: Option<String>) -> Option<Seq<char>> {
    match o {
        Some(s) => Some(s@),
        None => None,
    }
}

impl Experiment {
    pub open spec fn model(&self) -> ExperimentModel {
        ExperimentModel {
            id: self.id as int,
            name: self.name@,
            status: self.status,
            context: self.context@,
            override_keys: self.override_keys@.map_values(|s: String| s@),
            variants: self.variants@.map_values(|v: Variant| v.model()),
            traffic_percentage: self.traffic_percentage as int,
            last_modified: self.last_modified as int,
            chosen_variant: opt_text(self.chosen_variant),
        }
    }

    /// A copy of the experiment.
    pub fn deep_clone(&self) -> (r: Experiment)
        ensures
            r.model() == self.model(),
    {
        let mut variants: Vec<Variant> = Vec::new();
        let mut i: usize = 0;
        while i < self.variants.len()
            invariant
                i <= self.variants.len(),
                variants.len() == i,
                forall|j: int| 0 <= j < i ==> (#[trigger] variants[j]).model() == self.variants[j].model(),
            decreases self.variants.len() - i,
        {
            variants.push(self.variants[i].deep_clone());
            i += 1;
        }
        let chosen_variant = match &self.chosen_variant {
            Some(c) => Some(c.clone()),
            None => None,
        };
        let r = Experiment {
            id: self.id,
            name: self.name.clone(),
            status: self.status,
            context: self.context.deep_clone(),
            override_keys: clone_strings(&self.override_keys),
            variants,
            traffic_percentage: self.traffic_percentage,
            last_modified: self.last_modified,
            chosen_variant,
        };
        assert(r.model().variants =~= self.model().variants);
        r
    }
}

} // verus!
