use vstd::prelude::*;
use std::time::Instant;
use crate::text::str_eq;

verus! {

#[verifier::external_type_specification]
#[verifier::external_body]
pub struct ExInstant(Instant);

/// How many stages are summed; the reported `total` comes on top of them.
pub const SUMMED_STAGES: usize = 12;

/// The longest span a `Duration` holds, in nanoseconds.
pub const DURATION_MAX_NANOS: u128 = 18_446_744_073_709_551_615_999_999_999u128;

/// The name of each summed stage, in the order they are reported.
pub open spec fn stage_name_spec(i: int) -> Seq<char> {
    if i == 0 { "head_hash"@ }
    else if i == 1 { "source_scan"@ }
    else if i == 2 { "state_read"@ }
    else if i == 3 { "freshness_git"@ }
    else if i == 4 { "query_cache_read"@ }
    else if i == 5 { "graph_read"@ }
    else if i == 6 { "graph_rebuild"@ }
    else if i == 7 { "merge_graphs"@ }
    else if i == 8 { "derived_index_build"@ }
    else if i == 9 { "rg_run"@ }
    else if i == 10 { "match_enrichment"@ }
    else { "output"@ }
}

/// The name of the summed stage at `i`.
pub fn stage_name(i: usize) -> (res: &'static str)
    requires
        i < SUMMED_STAGES,
    ensures
        res@ == stage_name_spec(i as int),
{
    if i == 0 { "head_hash" }
    else if i == 1 { "source_scan" }
    else if i == 2 { "state_read" }
    else if i == 3 { "freshness_git" }
    else if i == 4 { "query_cache_read" }
    else if i == 5 { "graph_read" }
    else if i == 6 { "graph_rebuild" }
    else if i == 7 { "merge_graphs" }
    else if i == 8 { "derived_index_build" }
    else if i == 9 { "rg_run" }
    else if i == 10 { "match_enrichment" }
    else { "output" }
}

/// The position of a stage among the summed ones, if it is one of them.
pub open spec fn stage_position(stage: Seq<char>) -> Option<int> {
    if exists|i: int| 0 <= i < SUMMED_STAGES && #[trigger] stage_name_spec(i) == stage {
        Some(choose|i: int| 0 <= i < SUMMED_STAGES && #[trigger] stage_name_spec(i) == stage)
    } else {
        None
    }
}

/// No two summed stages share a name.
pub proof fn lemma_stage_names_distinct()
    ensures
        forall|i: int, j: int| 0 <= i < j < SUMMED_STAGES ==> stage_name_spec(i) != stage_name_spec(j),
{
    reveal_strlit("head_hash");
    reveal_strlit("source_scan");
    reveal_strlit("state_read");
    reveal_strlit("freshness_git");
    reveal_strlit("query_cache_read");
    reveal_strlit("graph_read");
    reveal_strlit("graph_rebuild");
    reveal_strlit("merge_graphs");
    reveal_strlit("derived_index_build");
    reveal_strlit("rg_run");
    reveal_strlit("match_enrichment");
    reveal_strlit("output");
    assert forall|i: int, j: int| 0 <= i < j < SUMMED_STAGES implies stage_name_spec(i) != stage_name_spec(j) by {
        if stage_name_spec(i) == stage_name_spec(j) {
            assert(stage_name_spec(i).len() == stage_name_spec(j).len());
            assert(stage_name_spec(i)[0] == stage_name_spec(j)[0]);
            assert(stage_name_spec(i)[1] == stage_name_spec(j)[1]);
            assert(stage_name_spec(i)[2] == stage_name_spec(j)[2]);
        }
    }
}

/// Where a stage stands among the summed ones.
pub fn stage_index(stage: &str) -> (res: Option<usize>)
    ensures
        res matches Some(i) ==> i < SUMMED_STAGES && stage_name_spec(i as int) == stage@,
        res is None ==> forall|i: int| 0 <= i < SUMMED_STAGES ==> stage_name_spec(i) != stage@,
        res matches Some(i) ==> stage_position(stage@) == Some(i as int),
        res is None ==> stage_position(stage@) is None,
{
    proof { lemma_stage_names_distinct(); }
    let mut i: usize = 0;
    while i < SUMMED_STAGES
        invariant
            i <= SUMMED_STAGES,
            forall|k: int| 0 <= k < i ==> stage_name_spec(k) != stage@,
        decreases SUMMED_STAGES - i,
    {
        if str_eq(stage_name(i), stage) {
            proof {
                lemma_stage_names_distinct();
                assert(stage_name_spec(i as int) == stage@);
                let j = choose|j: int| 0 <= j < SUMMED_STAGES && #[trigger] stage_name_spec(j) == stage@;
                assert(j == i);
            }
            return Some(i);
        }
        i = i + 1;
    }
    None
}

/// The current moment, from `Instant::now`.
#[verifier::external_body]
fn instant_now() -> (res: Instant) {
    Instant::now()
}

/// The nanoseconds since `start`, from `Instant::elapsed` and
/// `Duration::as_nanos`; no `Duration` is longer than `Duration::MAX`.
#[verifier::external_body]
pub(crate) fn elapsed_nanos(start: &Instant) -> (res: u128)
    ensures
        res <= DURATION_MAX_NANOS,
{
    start.elapsed().as_nanos()
}

/// Time spent in each stage of a run, collected only when enabled.
pub struct TimingCollector {
    enabled: bool,
    started_at: Instant,
    stages: Vec<u128>,
}

impl TimingCollector {
    #[verifier::type_invariant]
    spec fn inv(&self) -> bool {
        &&& self.stages@.len() == SUMMED_STAGES
        &&& forall|i: int| 0 <= i < SUMMED_STAGES ==> #[trigger] self.stages@[i] <= DURATION_MAX_NANOS
    }

    /// Whether times are collected.
    pub closed spec fn spec_enabled(&self) -> bool {
        self.enabled
    }

    /// The nanoseconds summed for each stage, in the order of `stage_name`.
    pub closed spec fn totals(&self) -> Seq<u128> {
        self.stages@
    }

    /// A collector with every stage at zero, started now.
    pub fn new(enabled: bool) -> (res: Self)
        ensures
            res.spec_enabled() == enabled,
            res.totals() == Seq::new(SUMMED_STAGES as nat, |i: int| 0u128),
    {
        let mut stages: Vec<u128> = Vec::new();
        let mut i: usize = 0;
        while i < SUMMED_STAGES
            invariant
                i <= SUMMED_STAGES,
                stages@ == Seq::new(i as nat, |k: int| 0u128),
            decreases SUMMED_STAGES - i,
        {
            stages.push(0);
            i = i + 1;
        }
        TimingCollector { enabled, started_at: instant_now(), stages }
    }

    /// A collector that records nothing.
    pub fn disabled() -> (res: Self)
        ensures
            !res.spec_enabled(),
            res.totals() == Seq::new(SUMMED_STAGES as nat, |i: int| 0u128),
    {
        Self::new(false)
    }

    /// Whether times are collected.
    pub fn enabled(&self) -> (res: bool)
        ensures
            res == self.spec_enabled(),
    {
        self.enabled
    }

    /// When the collector was made.
    pub closed spec fn spec_started_at(&self) -> Instant {
        self.started_at
    }

    /// When the collector was made.
    pub fn started_at(&self) -> (res: Instant)
        ensures
            res == self.spec_started_at(),
    {
        self.started_at
    }

    /// The nanoseconds summed for the stage at `i`.
    pub fn stage_total(&self, i: usize) -> (res: u128)
        requires
            i < SUMMED_STAGES,
        ensures
            res == self.totals()[i as int],
    {
        proof { use_type_invariant(self); }
        self.stages[i]
    }

    /// Adds `nanos` to a stage, when enabled. A stage that is not among the
    /// summed ones is never reported, so nothing visible changes for it.
    pub fn add(&mut self, stage: &str, nanos: u128)
        requires
            old(self).spec_enabled() && stage_position(stage@) is Some ==>
                old(self).totals()[stage_position(stage@)->0] + nanos <= DURATION_MAX_NANOS,
        ensures
            final(self).spec_enabled() == old(self).spec_enabled(),
            final(self).spec_started_at() == old(self).spec_started_at(),
            final(self).totals() == (if old(self).spec_enabled() && stage_position(stage@) is Some {
                old(self).totals().update(stage_position(stage@)->0,
                    (old(self).totals()[stage_position(stage@)->0] + nanos) as u128)
            } else {
                old(self).totals()
            }),
    {
        proof { use_type_invariant(&*self); }
        if !self.enabled {
            return;
        }
        match stage_index(stage) {
            Some(i) => {
                let total = self.stages[i] + nanos;
                let mut stages = self.stages.clone();
                assert(stages@ =~= self.stages@);
                stages.set(i, total);
                self.stages = stages;
            },
            None => {},
        }
    }

    /// Adds `nanos` to a stage, when enabled, stopping at the longest
    /// `Duration`. A stage that is not among the summed ones is never
    /// reported, so nothing visible changes for it.
    pub fn add_capped(&mut self, stage: &str, nanos: u128)
        ensures
            final(self).spec_enabled() == old(self).spec_enabled(),
            final(self).spec_started_at() == old(self).spec_started_at(),
            final(self).totals() == capped_totals(old(self).spec_enabled(), old(self).totals(), stage@, nanos),
    {
        proof { use_type_invariant(&*self); }
        if !self.enabled {
            return;
        }
        match stage_index(stage) {
            Some(i) => {
                let total = self.stages[i];
                let sum = if nanos <= DURATION_MAX_NANOS - total { total + nanos } else { DURATION_MAX_NANOS };
                let mut stages = self.stages.clone();
                assert(stages@ =~= self.stages@);
                stages.set(i, sum);
                self.stages = stages;
            },
            None => {},
        }
    }

    /// Runs `f`, adds the time it took to `stage` and hands back its result.
    /// A total that would pass the longest `Duration` stays at that longest
    /// one. How long `f` took is the clock's; every other total is kept.
    pub fn measure<T, F: FnOnce() -> T>(&mut self, stage: &str, f: F) -> (res: T)
        requires
            f.requires(()),
        ensures
            f.ensures((), res),
            final(self).spec_enabled() == old(self).spec_enabled(),
            final(self).spec_started_at() == old(self).spec_started_at(),
            exists|spent: u128| #[trigger] capped_totals(old(self).spec_enabled(), old(self).totals(), stage@, spent)
                == final(self).totals(),
            final(self).totals().len() == old(self).totals().len(),
            forall|i: int| 0 <= i < SUMMED_STAGES && (!old(self).spec_enabled() || stage_position(stage@) != Some(i))
                ==> #[trigger] final(self).totals()[i] == old(self).totals()[i],
            forall|i: int| 0 <= i < SUMMED_STAGES ==> #[trigger] final(self).totals()[i] >= old(self).totals()[i],
    {
        proof { use_type_invariant(&*self); }
        let started_at = instant_now();
        let result = f();
        let spent = elapsed_nanos(&started_at);
        self.add_capped(stage, spent);
        proof {
            lemma_stage_names_distinct();
            if old(self).spec_enabled() && stage_position(stage@) is Some {
                let i = stage_position(stage@)->0;
                assert(0 <= i < SUMMED_STAGES) by {
                    let j = choose|j: int| 0 <= j < SUMMED_STAGES && #[trigger] stage_name_spec(j) == stage@;
                }
            }
        }
        result
    }
}

/// The totals after `nanos` are added to `stage`, when enabled, a total
/// that would pass the longest `Duration` staying at that longest one.
pub open spec fn capped_totals(enabled: bool, totals: Seq<u128>, stage: Seq<char>, nanos: u128) -> Seq<u128> {
    if enabled && stage_position(stage) is Some {
        let i = stage_position(stage)->0;
        totals.update(i, if totals[i] + nanos <= DURATION_MAX_NANOS {
            (totals[i] + nanos) as u128
        } else {
            DURATION_MAX_NANOS
        })
    } else {
        totals
    }
}

} // verus!
