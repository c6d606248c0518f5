//! The client-side experiment cache: the poll step that merges a fetched delta
//! into the store, and the reader queries over it.

use vstd::prelude::*;
use crate::assign::{decide, decide_index};
use crate::experiment::{Experiment, ExperimentModel, ExperimentStatusType, Variant};
use crate::json::{JVal, JsonValue};
use crate::condition::{condition_holds, holds};
use crate::validation::models;

verus! {

/// 2023-01-01T00:00:00Z in seconds since the Unix epoch: the watermark of a new client.
pub const INITIAL_WATERMARK: i64 = 1672531200;

/// How many experiments one page of the listing holds.
pub const PAGE_SIZE: usize = 100;

/// Where and how often a client polls.
#[derive(Debug, PartialEq)]
pub struct Config {
    pub tenant: String,
    pub hostname: String,
    /// Seconds between two polls.
    pub poll_frequency: u64,
}

/// A cache of the running experiments of one tenant.
pub struct Client {
    pub client_config: Config,
    /// The running experiments; `wf` keeps at most one per id.
    pub experiments: Vec<Experiment>,
    /// Seconds since the Unix epoch up to which changes have been fetched.
    pub last_polled: i64,
}

/// The window of changes that one poll asks for.
#[derive(Debug, PartialEq, Eq, Structural, Clone, Copy)]
pub struct PollRequest {
    pub from_date: i64,
    pub to_date: i64,
}

/// Index of the first experiment with id `id`, or the length.
pub open spec fn index_of_id(s: Seq<ExperimentModel>, id: int) -> int
    decreases s.len(),
{
    if s.len() == 0 {
        0
    } else if s[0].id == id {
        0
    } else {
        1 + index_of_id(s.drop_first(), id)
    }
}

proof fn lemma_index_of_id(s: Seq<ExperimentModel>, id: int)
    ensures
        0 <= index_of_id(s, id) <= s.len(),
        forall|j: int| 0 <= j < index_of_id(s, id) ==> (#[trigger] s[j]).id != id,
        index_of_id(s, id) < s.len() ==> s[index_of_id(s, id)].id == id,
    decreases s.len(),
{
    if s.len() > 0 && s[0].id != id {
        lemma_index_of_id(s.drop_first(), id);
        assert forall|j: int| 0 <= j < index_of_id(s, id) implies (#[trigger] s[j]).id != id by {
            if j > 0 {
                assert(s[j] == s.drop_first()[j - 1]);
            }
        }
    }
}

/// No two stored experiments share an id.
pub open spec fn ids_distinct(s: Seq<ExperimentModel>) -> bool {
    forall|a: int, b: int| 0 <= a < b < s.len() ==> (#[trigger] s[a]).id != (#[trigger] s[b]).id
}

proof fn lemma_apply_update_distinct(s: Seq<ExperimentModel>, e: ExperimentModel)
    requires
        ids_distinct(s),
    ensures
        ids_distinct(apply_update(s, e)),
{
    lemma_index_of_id(s, e.id);
    let i = index_of_id(s, e.id);
    let t = apply_update(s, e);
    if i < s.len() {
        match e.status {
            ExperimentStatusType::CONCLUDED => {
                assert forall|a: int, b: int| 0 <= a < b < t.len() implies (#[trigger] t[a]).id != (#[trigger] t[b]).id by {
                    let a2 = if a < i { a } else { a + 1 };
                    let b2 = if b < i { b } else { b + 1 };
                    assert(t[a] == s[a2] && t[b] == s[b2]);
                }
            },
            ExperimentStatusType::INPROGRESS => {
                assert forall|a: int, b: int| 0 <= a < b < t.len() implies (#[trigger] t[a]).id != (#[trigger] t[b]).id by {
                    assert(t[a].id == s[a].id && t[b].id == s[b].id);
                }
            },
            ExperimentStatusType::CREATED => {},
        }
    } else if e.status == ExperimentStatusType::INPROGRESS {
        assert forall|a: int, b: int| 0 <= a < b < t.len() implies (#[trigger] t[a]).id != (#[trigger] t[b]).id by {
            if b == s.len() {
                assert(t[a] == s[a]);
            } else {
                assert(t[a] == s[a] && t[b] == s[b]);
            }
        }
    }
}

/// One fetched experiment applied to the store: a concluded one leaves it, one
/// in progress is inserted or replaces the stored one, a created one changes nothing.
pub open spec fn apply_update(s: Seq<ExperimentModel>, e: ExperimentModel) -> Seq<ExperimentModel> {
    let i = index_of_id(s, e.id);
    match e.status {
        ExperimentStatusType::CONCLUDED => if i < s.len() {
            s.remove(i)
        } else {
            s
        },
        ExperimentStatusType::INPROGRESS => if i < s.len() {
            s.update(i, e)
        } else {
            s.push(e)
        },
        ExperimentStatusType::CREATED => s,
    }
}

/// A fetched list applied to the store in order.
pub open spec fn apply_updates(s: Seq<ExperimentModel>, es: Seq<ExperimentModel>) -> Seq<ExperimentModel>
    decreases es.len(),
{
    if es.len() == 0 {
        s
    } else {
        apply_update(apply_updates(s, es.drop_last()), es.last())
    }
}

/// The ids of the variants assigned to a caller, one per matching experiment, in store order.
pub open spec fn applicable(s: Seq<ExperimentModel>, ctx: JVal, toss: int) -> Seq<Seq<char>>
    decreases s.len(),
{
    if s.len() == 0 {
        Seq::empty()
    } else {
        let rest = applicable(s.drop_last(), ctx, toss);
        let e = s.last();
        if holds(e.context, ctx) {
            match decide_index(e.traffic_percentage, e.variants.len() as int, toss) {
                Some(i) => rest.push(e.variants[i].id),
                None => rest,
            }
        } else {
            rest
        }
    }
}

/// The experiments whose context holds on `ctx`, in store order.
pub open spec fn satisfied(s: Seq<ExperimentModel>, ctx: JVal) -> Seq<ExperimentModel>
    decreases s.len(),
{
    if s.len() == 0 {
        Seq::empty()
    } else {
        let rest = satisfied(s.drop_last(), ctx);
        if holds(s.last().context, ctx) {
            rest.push(s.last())
        } else {
            rest
        }
    }
}

/// The variant that `toss` falls on.
pub fn decide_variant(traffic: u8, applicable_vars: &Vec<Variant>, toss: u8) -> (r: Option<Variant>)
    ensures
        match decide_index(traffic as int, applicable_vars.len() as int, toss as int) {
            Some(i) => r matches Some(v) && v.model() == applicable_vars[i].model(),
            None => r is None,
        },
{
    match decide(traffic, applicable_vars.len(), toss) {
        Some(i) => Some(applicable_vars[i].deep_clone()),
        None => None,
    }
}

impl Client {
    /// The client's invariant: at most one stored experiment per id.
    pub open spec fn wf(&self) -> bool {
        ids_distinct(models(self.experiments@))
    }

    /// A client with an empty store and the initial watermark.
    pub fn new(config: Config) -> (r: Client)
        ensures
            r.wf(),
            r.client_config == config,
            r.experiments@.len() == 0,
            r.last_polled == INITIAL_WATERMARK,
    {
        Client { client_config: config, experiments: Vec::new(), last_polled: INITIAL_WATERMARK }
    }

    /// The window that the next poll asks for: from the watermark up to `now`,
    /// taken before the fetch starts.
    pub fn poll_request(&self, now: i64) -> (r: PollRequest)
        ensures
            r.from_date == self.last_polled,
            r.to_date == now,
    {
        PollRequest { from_date: self.last_polled, to_date: now }
    }

    /// Merges the experiments fetched for `request` into the store and moves the
    /// watermark to the end of the window.
    pub fn apply_experiments(&mut self, request: &PollRequest, experiments: &Vec<Experiment>)
        ensures
            models(final(self).experiments@) == apply_updates(models(old(self).experiments@), models(experiments@)),
            final(self).last_polled == request.to_date,
            final(self).client_config == old(self).client_config,
            old(self).wf() ==> final(self).wf(),
    {
        let ghost es = models(experiments@);
        let mut i: usize = 0;
        while i < experiments.len()
            invariant
                i <= experiments.len(),
                es == models(experiments@),
                self.client_config == old(self).client_config,
                models(self.experiments@) == apply_updates(models(old(self).experiments@), es.subrange(0, i as int)),
                old(self).wf() ==> ids_distinct(models(self.experiments@)),
            decreases experiments.len() - i,
        {
            assert(es.subrange(0, i + 1).drop_last() =~= es.subrange(0, i as int));
            assert(es.subrange(0, i + 1).last() == experiments[i as int].model());
            let ghost before = models(self.experiments@);
            proof {
                lemma_index_of_id(before, experiments[i as int].id as int);
            }
            let e = &experiments[i];
            proof {
                if old(self).wf() {
                    lemma_apply_update_distinct(before, e.model());
                }
            }
            let mut k: usize = 0;
            while k < self.experiments.len()
                invariant
                    k <= self.experiments.len(),
                    before == models(self.experiments@),
                    k <= index_of_id(before, e.id as int),
                    0 <= index_of_id(before, e.id as int) <= before.len(),
                    index_of_id(before, e.id as int) < before.len() ==> before[index_of_id(before, e.id as int)].id
                        == e.id as int,
                    forall|j: int| 0 <= j < index_of_id(before, e.id as int) ==> (#[trigger] before[j]).id != e.id as int,
                ensures
                    k as int == index_of_id(before, e.id as int),
                decreases self.experiments.len() - k,
            {
                assert(before[k as int] == self.experiments[k as int].model());
                if self.experiments[k].id == e.id {
                    break;
                }
                k += 1;
            }
            assert(k < self.experiments.len() ==> before[k as int] == self.experiments[k as int].model());
            assert(k as int == index_of_id(before, e.id as int));
            match e.status {
                ExperimentStatusType::CONCLUDED => {
                    if k < self.experiments.len() {
                        self.experiments.remove(k);
                        assert(models(self.experiments@) =~= before.remove(k as int));
                    }
                },
                ExperimentStatusType::INPROGRESS => {
                    let c = e.deep_clone();
                    if k < self.experiments.len() {
                        self.experiments.set(k, c);
                        assert(models(self.experiments@) =~= before.update(k as int, e.model()));
                    } else {
                        self.experiments.push(c);
                        assert(models(self.experiments@) =~= before.push(e.model()));
                    }
                },
                ExperimentStatusType::CREATED => {},
            }
            i += 1;
        }
        assert(es.subrange(0, es.len() as int) =~= es);
        self.last_polled = request.to_date;
    }

    /// The outcome of one poll: on success the fetched experiments are merged
    /// and the watermark advances; a failed fetch changes nothing.
    pub fn on_poll_result(&mut self, request: &PollRequest, result: &Result<Vec<Experiment>, String>)
        ensures
            match result {
                Ok(es) => models(final(self).experiments@) == apply_updates(models(old(self).experiments@), models(es@))
                    && final(self).last_polled == request.to_date,
                Err(_) => models(final(self).experiments@) == models(old(self).experiments@)
                    && final(self).last_polled == old(self).last_polled,
            },
            final(self).client_config == old(self).client_config,
            old(self).wf() ==> final(self).wf(),
    {
        match result {
            Ok(es) => self.apply_experiments(request, es),
            Err(_) => {},
        }
    }

    /// The ids of the variants assigned to a caller with `context` and `toss`.
    pub fn get_applicable_variant(&self, context: &JsonValue, toss: u8) -> (r: Vec<String>)
        ensures
            r@.map_values(|s: String| s@) == applicable(models(self.experiments@), context@, toss as int),
    {
        let ghost s = models(self.experiments@);
        let mut variants: Vec<String> = Vec::new();
        let mut i: usize = 0;
        while i < self.experiments.len()
            invariant
                i <= self.experiments.len(),
                s == models(self.experiments@),
                variants@.map_values(|s: String| s@) == applicable(s.subrange(0, i as int), context@, toss as int),
            decreases self.experiments.len() - i,
        {
            assert(s.subrange(0, i + 1).drop_last() =~= s.subrange(0, i as int));
            assert(s.subrange(0, i + 1).last() == self.experiments[i as int].model());
            let exp = &self.experiments[i];
            if condition_holds(&exp.context, context) {
                match decide(exp.traffic_percentage, exp.variants.len(), toss) {
                    Some(k) => {
                        assert(exp.model().variants[k as int] == exp.variants[k as int].model());
                        let ghost before = variants@;
                        variants.push(exp.variants[k].id.clone());
                        assert(variants@.map_values(|s: String| s@) =~= before.map_values(|s: String| s@).push(
                            exp.variants[k as int].id@,
                        ));
                    },
                    None => {},
                }
            }
            i += 1;
        }
        assert(s.subrange(0, s.len() as int) =~= s);
        variants
    }

    /// Copies of the experiments whose context holds on `context`.
    pub fn get_satisfied_experiments(&self, context: &JsonValue) -> (r: Vec<Experiment>)
        ensures
            models(r@) == satisfied(models(self.experiments@), context@),
    {
        let ghost s = models(self.experiments@);
        let mut out: Vec<Experiment> = Vec::new();
        let mut i: usize = 0;
        while i < self.experiments.len()
            invariant
                i <= self.experiments.len(),
                s == models(self.experiments@),
                models(out@) == satisfied(s.subrange(0, i as int), context@),
            decreases self.experiments.len() - i,
        {
            assert(s.subrange(0, i + 1).drop_last() =~= s.subrange(0, i as int));
            assert(s.subrange(0, i + 1).last() == self.experiments[i as int].model());
            if condition_holds(&self.experiments[i].context, context) {
                let c = self.experiments[i].deep_clone();
                let ghost before = out@;
                out.push(c);
                assert(models(out@) =~= models(before).push(c.model()));
            }
            i += 1;
        }
        assert(s.subrange(0, s.len() as int) =~= s);
        out
    }

    /// Copies of all stored experiments.
    pub fn get_running_experiments(&self) -> (r: Vec<Experiment>)
        ensures
            models(r@) == models(self.experiments@),
    {
        let mut out: Vec<Experiment> = Vec::new();
        let mut i: usize = 0;
        while i < self.experiments.len()
            invariant
                i <= self.experiments.len(),
                models(out@) == models(self.experiments@).subrange(0, i as int),
            decreases self.experiments.len() - i,
        {
            let c = self.experiments[i].deep_clone();
            let ghost before = out@;
            out.push(c);
            assert(models(out@) =~= models(before).push(c.model()));
            assert(models(self.experiments@).subrange(0, i + 1) =~= models(self.experiments@).subrange(0, i as int).push(
                self.experiments[i as int].model(),
            ));
            i += 1;
        }
        assert(models(self.experiments@).subrange(0, self.experiments.len() as int) =~= models(self.experiments@));
        out
    }
}

/// The page to fetch after page `page` returned `returned` experiments, if any.
pub fn next_page(page: u32, returned: usize) -> (r: Option<u32>)
    ensures
        r == (if returned >= PAGE_SIZE && page < u32::MAX {
            Some((page + 1) as u32)
        } else {
            None::<u32>
        }),
{
    if returned >= PAGE_SIZE && page < u32::MAX {
        Some(page + 1)
    } else {
        None
    }
}

/// A poll that fetched nothing leaves the store as it was.
pub proof fn law_empty_poll_keeps_store(s: Seq<ExperimentModel>)
    ensures
        apply_updates(s, Seq::empty()) == s,
{
}

} // verus!
