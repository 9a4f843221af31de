//! Aggregates of the scores shown in the score table: per (bench, model)
//! entries, the baseline of an agent variant, and totals.
use crate::bench_id::{agent_split, split_agent_suffix, BenchId};
use crate::model::ModelId;
use crate::score::{
    groups_well_formed, metered, meter_limit, BenchModelKey, Meter, ResponseSummary, ScoredBench,
    Scores,
};
use crate::order::{lemma_lex_asymmetric, lemma_lex_irreflexive, lemma_lex_transitive, lex_compare, lex_lt, LexOrder};
use crate::text::{chars_of, str_eq};
use vstd::prelude::*;
use vstd::string::StringExecFns;

verus! {

/// Aggregate of the results of one bench on one model.
#[derive(Debug, Clone, Copy, PartialEq, Eq, Structural)]
pub struct EntryAgg {
    pub prompt_tokens: u32,
    pub completion_tokens: u32,
    pub reasoning_tokens: u32,
    pub cost: u64,
    pub passed: usize,
    pub runs: usize,
}

/// The aggregate of no result.
pub open spec fn zero_entry() -> EntryAgg {
    EntryAgg {
        prompt_tokens: 0,
        completion_tokens: 0,
        reasoning_tokens: 0,
        cost: 0,
        passed: 0,
        runs: 0,
    }
}

impl Default for EntryAgg {
    fn default() -> (r: EntryAgg)
        ensures
            r == zero_entry(),
    {
        EntryAgg {
            prompt_tokens: 0,
            completion_tokens: 0,
            reasoning_tokens: 0,
            cost: 0,
            passed: 0,
            runs: 0,
        }
    }
}

/// Total of `m` over the responses that report usage.
pub open spec fn usage_sum(rs: Seq<ResponseSummary>, m: Meter) -> nat
    decreases rs.len(),
{
    if rs.len() == 0 {
        0
    } else {
        usage_sum(rs.drop_last(), m) + match rs.last().usage {
            Some(u) => metered(u, m),
            None => 0,
        }
    }
}

/// Total of `m` over the responses of scored results.
pub open spec fn results_sum(bs: Seq<ScoredBench>, m: Meter) -> nat
    decreases bs.len(),
{
    if bs.len() == 0 {
        0
    } else {
        results_sum(bs.drop_last(), m) + usage_sum(bs.last().result.responses@, m)
    }
}

/// Number of passing scored results.
pub open spec fn passed_count(bs: Seq<ScoredBench>) -> nat
    decreases bs.len(),
{
    if bs.len() == 0 {
        0
    } else {
        passed_count(bs.drop_last()) + if bs.last().score.passed {
            1nat
        } else {
            0nat
        }
    }
}

/// The aggregate of scored results: their number, how many passed, and
/// the totals of the usage of all their responses.
pub open spec fn entry_of(bs: Seq<ScoredBench>) -> EntryAgg {
    EntryAgg {
        prompt_tokens: results_sum(bs, Meter::PromptTokens) as u32,
        completion_tokens: results_sum(bs, Meter::CompletionTokens) as u32,
        reasoning_tokens: results_sum(bs, Meter::ReasoningTokens) as u32,
        cost: results_sum(bs, Meter::Cost) as u64,
        passed: passed_count(bs) as usize,
        runs: bs.len() as usize,
    }
}

/// The usage totals of scored results fit their counters.
pub open spec fn entry_fits(bs: Seq<ScoredBench>) -> bool {
    &&& results_sum(bs, Meter::PromptTokens) <= meter_limit(Meter::PromptTokens)
    &&& results_sum(bs, Meter::CompletionTokens) <= meter_limit(Meter::CompletionTokens)
    &&& results_sum(bs, Meter::ReasoningTokens) <= meter_limit(Meter::ReasoningTokens)
    &&& results_sum(bs, Meter::Cost) <= meter_limit(Meter::Cost)
}

proof fn lemma_usage_sum_prefix(rs: Seq<ResponseSummary>, m: Meter, k: int)
    requires
        0 <= k <= rs.len(),
    ensures
        usage_sum(rs.take(k), m) <= usage_sum(rs, m),
    decreases rs.len(),
{
    if k < rs.len() {
        assert(rs.drop_last().take(k) =~= rs.take(k));
        lemma_usage_sum_prefix(rs.drop_last(), m, k);
    } else {
        assert(rs.take(k) =~= rs);
    }
}

proof fn lemma_results_sum_prefix(bs: Seq<ScoredBench>, m: Meter, k: int)
    requires
        0 <= k <= bs.len(),
    ensures
        results_sum(bs.take(k), m) <= results_sum(bs, m),
    decreases bs.len(),
{
    if k < bs.len() {
        assert(bs.drop_last().take(k) =~= bs.take(k));
        lemma_results_sum_prefix(bs.drop_last(), m, k);
    } else {
        assert(bs.take(k) =~= bs);
    }
}

proof fn lemma_passed_count_bound(bs: Seq<ScoredBench>)
    ensures
        passed_count(bs) <= bs.len(),
    decreases bs.len(),
{
    if bs.len() > 0 {
        lemma_passed_count_bound(bs.drop_last());
    }
}

/// Adds one scored result to an aggregate: one more run, one more pass if
/// it passed, and the usage of each of its responses that reports one.
fn add_result(entry: &mut EntryAgg, bench: &ScoredBench)
    requires
        old(entry).prompt_tokens + usage_sum(bench.result.responses@, Meter::PromptTokens)
            <= u32::MAX,
        old(entry).completion_tokens + usage_sum(bench.result.responses@, Meter::CompletionTokens)
            <= u32::MAX,
        old(entry).reasoning_tokens + usage_sum(bench.result.responses@, Meter::ReasoningTokens)
            <= u32::MAX,
        old(entry).cost + usage_sum(bench.result.responses@, Meter::Cost) <= u64::MAX,
        old(entry).runs < usize::MAX,
        old(entry).passed <= old(entry).runs,
    ensures
        final(entry).prompt_tokens == old(entry).prompt_tokens + usage_sum(
            bench.result.responses@,
            Meter::PromptTokens,
        ),
        final(entry).completion_tokens == old(entry).completion_tokens + usage_sum(
            bench.result.responses@,
            Meter::CompletionTokens,
        ),
        final(entry).reasoning_tokens == old(entry).reasoning_tokens + usage_sum(
            bench.result.responses@,
            Meter::ReasoningTokens,
        ),
        final(entry).cost == old(entry).cost + usage_sum(bench.result.responses@, Meter::Cost),
        final(entry).runs == old(entry).runs + 1,
        final(entry).passed == old(entry).passed + if bench.score.passed {
            1int
        } else {
            0int
        },
{
    entry.runs = entry.runs + 1;
    if bench.score.passed {
        entry.passed = entry.passed + 1;
    }
    let rs = &bench.result.responses;
    let ghost e0 = *entry;
    let mut i: usize = 0;
    while i < rs.len()
        invariant
            i <= rs@.len(),
            rs@ == bench.result.responses@,
            e0.prompt_tokens + usage_sum(rs@, Meter::PromptTokens) <= u32::MAX,
            e0.completion_tokens + usage_sum(rs@, Meter::CompletionTokens) <= u32::MAX,
            e0.reasoning_tokens + usage_sum(rs@, Meter::ReasoningTokens) <= u32::MAX,
            e0.cost + usage_sum(rs@, Meter::Cost) <= u64::MAX,
            entry.prompt_tokens == e0.prompt_tokens + usage_sum(
                rs@.take(i as int),
                Meter::PromptTokens,
            ),
            entry.completion_tokens == e0.completion_tokens + usage_sum(
                rs@.take(i as int),
                Meter::CompletionTokens,
            ),
            entry.reasoning_tokens == e0.reasoning_tokens + usage_sum(
                rs@.take(i as int),
                Meter::ReasoningTokens,
            ),
            entry.cost == e0.cost + usage_sum(rs@.take(i as int), Meter::Cost),
            entry.runs == e0.runs,
            entry.passed == e0.passed,
        decreases rs.len() - i,
    {
        assert(rs@.take(i as int + 1).drop_last() =~= rs@.take(i as int));
        proof {
            lemma_usage_sum_prefix(rs@, Meter::PromptTokens, i as int + 1);
            lemma_usage_sum_prefix(rs@, Meter::CompletionTokens, i as int + 1);
            lemma_usage_sum_prefix(rs@, Meter::ReasoningTokens, i as int + 1);
            lemma_usage_sum_prefix(rs@, Meter::Cost, i as int + 1);
        }
        match &rs[i].usage {
            Some(u) => {
                entry.prompt_tokens = entry.prompt_tokens + u.prompt_tokens;
                entry.completion_tokens = entry.completion_tokens + u.completion_tokens;
                entry.reasoning_tokens = entry.reasoning_tokens + match u.reasoning_tokens {
                    Some(t) => t,
                    None => 0,
                };
                entry.cost = entry.cost + match u.cost {
                    Some(c) => c as u64,
                    None => 0,
                };
            },
            None => {},
        }
        i += 1;
    }
    assert(rs@.take(rs@.len() as int) =~= rs@);
}

/// The aggregate of each (bench, model) of the scores.
pub struct AggregatedScores {
    entries: Vec<(BenchModelKey, EntryAgg)>,
}

/// Position of the entry of key `k`: the first with that key.
pub open spec fn entry_index(es: Seq<(BenchModelKey, EntryAgg)>, k: (Seq<char>, Seq<char>)) -> Option<
    int,
> {
    if exists|i: int| 0 <= i < es.len() && (#[trigger] es[i]).0@ == k {
        Some(
            choose|i: int|
                0 <= i < es.len() && (#[trigger] es[i]).0@ == k && forall|j: int|
                    0 <= j < i ==> (#[trigger] es[j]).0@ != k,
        )
    } else {
        None
    }
}

pub(crate) proof fn lemma_entry_index(es: Seq<(BenchModelKey, EntryAgg)>, k: (Seq<char>, Seq<char>), i: int)
    requires
        0 <= i < es.len(),
        es[i].0@ == k,
        forall|j: int| 0 <= j < i ==> (#[trigger] es[j]).0@ != k,
    ensures
        entry_index(es, k) == Some(i),
{
    let c = choose|c: int|
        0 <= c < es.len() && (#[trigger] es[c]).0@ == k && forall|j: int|
            0 <= j < c ==> (#[trigger] es[j]).0@ != k;
    if c < i {
        assert(es[c].0@ != k);
    }
    if i < c {
        assert(es[i].0@ != k);
    }
}

/// The aggregate of key `k`, or the empty aggregate when there is none.
pub open spec fn entry_for(es: Seq<(BenchModelKey, EntryAgg)>, k: (Seq<char>, Seq<char>)) -> EntryAgg {
    match entry_index(es, k) {
        Some(i) => es[i].1,
        None => zero_entry(),
    }
}

/// The baseline of an agent variant: the aggregate of bench `base` (without
/// agent) on `model`, when it has at least one run.
pub open spec fn baseline_of(es: Seq<(BenchModelKey, EntryAgg)>, base: Seq<char>, model: Seq<char>) -> Option<
    EntryAgg,
> {
    match entry_index(es, (base, model)) {
        Some(i) => if es[i].1.runs > 0 {
            Some(es[i].1)
        } else {
            None
        },
        None => None,
    }
}

impl AggregatedScores {
    /// The entries, one per group of the scores, in the same order.
    pub closed spec fn entries(&self) -> Seq<(BenchModelKey, EntryAgg)> {
        self.entries@
    }

    /// Aggregates each group of the scores.
    pub fn build(scores: &Scores) -> (r: AggregatedScores)
        requires
            forall|g: int|
                0 <= g < scores.groups().len() ==> entry_fits((#[trigger] scores.groups()[g]).1@),
        ensures
            r.entries().len() == scores.groups().len(),
            forall|g: int|
                0 <= g < r.entries().len() ==> (#[trigger] r.entries()[g]).0@ == scores.groups()[g].0@
                    && r.entries()[g].1 == entry_of(scores.groups()[g].1@),
    {
        let gs = scores.iter();
        let mut entries: Vec<(BenchModelKey, EntryAgg)> = Vec::new();
        let mut g: usize = 0;
        while g < gs.len()
            invariant
                gs@ == scores.groups(),
                g <= gs@.len(),
                entries@.len() == g,
                forall|a: int|
                    0 <= a < g ==> (#[trigger] entries@[a]).0@ == gs@[a].0@ && entries@[a].1
                        == entry_of(gs@[a].1@),
                forall|a: int| 0 <= a < gs@.len() ==> entry_fits((#[trigger] gs@[a]).1@),
            decreases gs.len() - g,
        {
            let bs = &gs[g].1;
            let ghost bsv = bs@;
            assert(entry_fits(bsv));
            let mut entry = EntryAgg::default();
            let mut i: usize = 0;
            while i < bs.len()
                invariant
                    bs@ == bsv,
                    entry_fits(bsv),
                    i <= bsv.len(),
                    entry == entry_of(bsv.take(i as int)),
                    passed_count(bsv.take(i as int)) <= i,
                decreases bs.len() - i,
            {
                let ghost before = entry;
                assert(bsv.take(i as int + 1).drop_last() =~= bsv.take(i as int));
                proof {
                    lemma_results_sum_prefix(bsv, Meter::PromptTokens, i as int + 1);
                    lemma_results_sum_prefix(bsv, Meter::CompletionTokens, i as int + 1);
                    lemma_results_sum_prefix(bsv, Meter::ReasoningTokens, i as int + 1);
                    lemma_results_sum_prefix(bsv, Meter::Cost, i as int + 1);
                }
                add_result(&mut entry, &bs[i]);
                i += 1;
            }
            assert(bsv.take(bsv.len() as int) =~= bsv);
            entries.push((gs[g].0.duplicate(), entry));
            g += 1;
        }
        AggregatedScores { entries }
    }

    /// The entries, in order.
    pub fn iter(&self) -> (r: &[(BenchModelKey, EntryAgg)])
        ensures
            r@ == self.entries(),
    {
        self.entries.as_slice()
    }

    /// Position of the entry of (`bench`, `model`).
    fn find(&self, bench: &str, model: &str) -> (r: Option<usize>)
        ensures
            match r {
                Some(i) => i < self.entries().len() && entry_index(self.entries(), (bench@, model@))
                    == Some(i as int),
                None => entry_index(self.entries(), (bench@, model@)) is None,
            },
    {
        let mut i: usize = 0;
        while i < self.entries.len()
            invariant
                i <= self.entries@.len(),
                forall|j: int| 0 <= j < i ==> (#[trigger] self.entries@[j]).0@ != (bench@, model@),
            decreases self.entries.len() - i,
        {
            if str_eq(self.entries[i].0.bench_id.as_str(), bench) && str_eq(
                self.entries[i].0.model_id.as_str(),
                model,
            ) {
                proof {
                    lemma_entry_index(self.entries@, (bench@, model@), i as int);
                }
                return Some(i);
            }
            i += 1;
        }
        None
    }

    /// The aggregate of `key`, or the empty aggregate when the scores have
    /// no result for it.
    pub fn for_key(&self, key: &BenchModelKey) -> (r: EntryAgg)
        ensures
            r == entry_for(self.entries(), key@),
    {
        match self.find(key.bench_id.as_str(), key.model_id.as_str()) {
            Some(i) => self.entries[i].1,
            None => EntryAgg::default(),
        }
    }

    /// The baseline of an agent variant of bench `base` on `model`: the
    /// aggregate of `base` itself on `model`, when it has runs.
    pub fn baseline(&self, base: &str, model: &str) -> (r: Option<EntryAgg>)
        ensures
            r == baseline_of(self.entries(), base@, model@),
    {
        match self.find(base, model) {
            Some(i) => if self.entries[i].1.runs > 0 {
                Some(self.entries[i].1)
            } else {
                None
            },
            None => None,
        }
    }
}

// ── Totals ──────────────────────────────────────────────────────────────────

/// Totals over several aggregates.
#[derive(Debug, Clone, Copy, PartialEq, Eq, Structural)]
pub struct Totals {
    pub passed: usize,
    pub runs: usize,
    pub prompt_tokens: u32,
    pub completion_tokens: u32,
    pub reasoning_tokens: u32,
    pub cost: u64,
}

impl Default for Totals {
    fn default() -> (r: Totals)
        ensures
            r == (Totals {
                passed: 0,
                runs: 0,
                prompt_tokens: 0,
                completion_tokens: 0,
                reasoning_tokens: 0,
                cost: 0,
            }),
    {
        Totals { passed: 0, runs: 0, prompt_tokens: 0, completion_tokens: 0, reasoning_tokens: 0, cost: 0 }
    }
}

/// What a total counts.
#[derive(Debug, Clone, Copy, PartialEq, Eq, Structural)]
pub enum Tally {
    Passed,
    Runs,
    Usage(Meter),
}

/// The amount of `t` in an aggregate.
pub open spec fn tally_of(e: EntryAgg, t: Tally) -> nat {
    match t {
        Tally::Passed => e.passed as nat,
        Tally::Runs => e.runs as nat,
        Tally::Usage(Meter::PromptTokens) => e.prompt_tokens as nat,
        Tally::Usage(Meter::CompletionTokens) => e.completion_tokens as nat,
        Tally::Usage(Meter::ReasoningTokens) => e.reasoning_tokens as nat,
        Tally::Usage(Meter::Cost) => e.cost as nat,
    }
}

/// Largest total of `t` its counter holds.
pub open spec fn tally_limit(t: Tally) -> nat {
    match t {
        Tally::Passed => usize::MAX as nat,
        Tally::Runs => usize::MAX as nat,
        Tally::Usage(m) => meter_limit(m),
    }
}

/// Sum of `t` over aggregates.
pub open spec fn sum_tally(es: Seq<EntryAgg>, t: Tally) -> nat
    decreases es.len(),
{
    if es.len() == 0 {
        0
    } else {
        sum_tally(es.drop_last(), t) + tally_of(es.last(), t)
    }
}

/// The totals of `es` fit their counters.
pub open spec fn tallies_fit(es: Seq<EntryAgg>) -> bool {
    &&& sum_tally(es, Tally::Passed) <= tally_limit(Tally::Passed)
    &&& sum_tally(es, Tally::Runs) <= tally_limit(Tally::Runs)
    &&& sum_tally(es, Tally::Usage(Meter::PromptTokens)) <= tally_limit(Tally::Usage(Meter::PromptTokens))
    &&& sum_tally(es, Tally::Usage(Meter::CompletionTokens)) <= tally_limit(
        Tally::Usage(Meter::CompletionTokens),
    )
    &&& sum_tally(es, Tally::Usage(Meter::ReasoningTokens)) <= tally_limit(
        Tally::Usage(Meter::ReasoningTokens),
    )
    &&& sum_tally(es, Tally::Usage(Meter::Cost)) <= tally_limit(Tally::Usage(Meter::Cost))
}

/// `t` holds the totals of `es`.
pub open spec fn totals_match(t: Totals, es: Seq<EntryAgg>) -> bool {
    &&& t.passed == sum_tally(es, Tally::Passed)
    &&& t.runs == sum_tally(es, Tally::Runs)
    &&& t.prompt_tokens == sum_tally(es, Tally::Usage(Meter::PromptTokens))
    &&& t.completion_tokens == sum_tally(es, Tally::Usage(Meter::CompletionTokens))
    &&& t.reasoning_tokens == sum_tally(es, Tally::Usage(Meter::ReasoningTokens))
    &&& t.cost == sum_tally(es, Tally::Usage(Meter::Cost))
}

proof fn lemma_sum_tally_prefix(es: Seq<EntryAgg>, t: Tally, k: int)
    requires
        0 <= k <= es.len(),
    ensures
        sum_tally(es.take(k), t) <= sum_tally(es, t),
    decreases es.len(),
{
    if k < es.len() {
        assert(es.drop_last().take(k) =~= es.take(k));
        lemma_sum_tally_prefix(es.drop_last(), t, k);
    } else {
        assert(es.take(k) =~= es);
    }
}

/// `t` with aggregate `e` added.
pub(crate) fn add_totals(t: Totals, e: &EntryAgg) -> (r: Totals)
    requires
        t.passed + e.passed <= usize::MAX,
        t.runs + e.runs <= usize::MAX,
        t.prompt_tokens + e.prompt_tokens <= u32::MAX,
        t.completion_tokens + e.completion_tokens <= u32::MAX,
        t.reasoning_tokens + e.reasoning_tokens <= u32::MAX,
        t.cost + e.cost <= u64::MAX,
    ensures
        r == (Totals {
            passed: (t.passed + e.passed) as usize,
            runs: (t.runs + e.runs) as usize,
            prompt_tokens: (t.prompt_tokens + e.prompt_tokens) as u32,
            completion_tokens: (t.completion_tokens + e.completion_tokens) as u32,
            reasoning_tokens: (t.reasoning_tokens + e.reasoning_tokens) as u32,
            cost: (t.cost + e.cost) as u64,
        }),
{
    Totals {
        passed: t.passed + e.passed,
        runs: t.runs + e.runs,
        prompt_tokens: t.prompt_tokens + e.prompt_tokens,
        completion_tokens: t.completion_tokens + e.completion_tokens,
        reasoning_tokens: t.reasoning_tokens + e.reasoning_tokens,
        cost: t.cost + e.cost,
    }
}

/// The aggregates of a list of entries.
pub open spec fn entry_values(es: Seq<(BenchModelKey, EntryAgg)>) -> Seq<EntryAgg> {
    es.map_values(|e: (BenchModelKey, EntryAgg)| e.1)
}

impl AggregatedScores {
    /// The totals over every entry.
    pub fn grand_totals(&self) -> (r: Totals)
        requires
            tallies_fit(entry_values(self.entries())),
        ensures
            totals_match(r, entry_values(self.entries())),
    {
        let ghost vs = entry_values(self.entries@);
        let mut t = Totals::default();
        let mut i: usize = 0;
        while i < self.entries.len()
            invariant
                i <= self.entries@.len(),
                vs == entry_values(self.entries@),
                tallies_fit(vs),
                totals_match(t, vs.take(i as int)),
            decreases self.entries.len() - i,
        {
            assert(vs.take(i as int + 1).drop_last() =~= vs.take(i as int));
            assert(vs.take(i as int + 1).last() == self.entries@[i as int].1);
            proof {
                lemma_sum_tally_prefix(vs, Tally::Passed, i as int + 1);
                lemma_sum_tally_prefix(vs, Tally::Runs, i as int + 1);
                lemma_sum_tally_prefix(vs, Tally::Usage(Meter::PromptTokens), i as int + 1);
                lemma_sum_tally_prefix(vs, Tally::Usage(Meter::CompletionTokens), i as int + 1);
                lemma_sum_tally_prefix(vs, Tally::Usage(Meter::ReasoningTokens), i as int + 1);
                lemma_sum_tally_prefix(vs, Tally::Usage(Meter::Cost), i as int + 1);
            }
            t = add_totals(t, &self.entries[i].1);
            i += 1;
        }
        assert(vs.take(vs.len() as int) =~= vs);
        t
    }
}

// ── Per-agent totals ────────────────────────────────────────────────────────

/// The agent of an entry's bench, `None` for a bare bench.
pub open spec fn entry_label(e: (BenchModelKey, EntryAgg)) -> Option<Seq<char>> {
    agent_split(e.0@.0).1
}

/// The aggregates of the entries with agent `l`, in order.
pub open spec fn label_values(es: Seq<(BenchModelKey, EntryAgg)>, l: Option<Seq<char>>) -> Seq<EntryAgg>
    decreases es.len(),
{
    if es.len() == 0 {
        Seq::empty()
    } else {
        let rest = label_values(es.drop_last(), l);
        if entry_label(es.last()) == l {
            rest.push(es.last().1)
        } else {
            rest
        }
    }
}

/// The cost of an agent variant next to the cost of its baseline, each
/// with its number of runs.
#[derive(Debug, Clone, Copy, PartialEq, Eq, Structural)]
pub struct CostComparison {
    pub cost: u64,
    pub runs: usize,
    pub baseline_cost: u64,
    pub baseline_runs: usize,
}

/// The comparison of an agent entry with its baseline among `all`; `None`
/// for a bare entry or an entry without baseline.
pub open spec fn comparison_of(all: Seq<(BenchModelKey, EntryAgg)>, e: (BenchModelKey, EntryAgg)) -> Option<
    CostComparison,
> {
    let (base, agent) = agent_split(e.0@.0);
    match agent {
        None => None,
        Some(_) => match baseline_of(all, base, e.0@.1) {
            Some(b) => Some(
                CostComparison {
                    cost: e.1.cost,
                    runs: e.1.runs,
                    baseline_cost: b.cost,
                    baseline_runs: b.runs,
                },
            ),
            None => None,
        },
    }
}

/// The comparisons of the entries of `es` with agent `l`, in order, their
/// baselines looked up among `all`.
pub open spec fn label_comparisons(
    all: Seq<(BenchModelKey, EntryAgg)>,
    es: Seq<(BenchModelKey, EntryAgg)>,
    l: Option<Seq<char>>,
) -> Seq<CostComparison>
    decreases es.len(),
{
    if es.len() == 0 {
        Seq::empty()
    } else {
        let rest = label_comparisons(all, es.drop_last(), l);
        if entry_label(es.last()) == l {
            match comparison_of(all, es.last()) {
                Some(c) => rest.push(c),
                None => rest,
            }
        } else {
            rest
        }
    }
}

/// Order of agent labels: the bare label first, then agent names in
/// ascending order.
pub open spec fn label_lt(a: Option<Seq<char>>, b: Option<Seq<char>>) -> bool {
    match (a, b) {
        (None, Some(_)) => true,
        (Some(x), Some(y)) => lex_lt(x, y),
        _ => false,
    }
}

/// The text of a label.
pub open spec fn label_view(l: Option<String>) -> Option<Seq<char>> {
    match l {
        Some(s) => Some(s@),
        None => None,
    }
}

proof fn lemma_label_lt_transitive(a: Option<Seq<char>>, b: Option<Seq<char>>, c: Option<Seq<char>>)
    requires
        label_lt(a, b),
        label_lt(b, c),
    ensures
        label_lt(a, c),
{
    if a is Some {
        lemma_lex_transitive(a->0, b->0, c->0);
    }
}

proof fn lemma_label_lt_irreflexive(a: Option<Seq<char>>)
    ensures
        !label_lt(a, a),
{
    if a is Some {
        lemma_lex_irreflexive(a->0);
    }
}

/// Compares two labels in label order.
fn compare_labels(a: &Option<String>, b: &Option<String>) -> (r: LexOrder)
    ensures
        (r == LexOrder::Before) == label_lt(label_view(*a), label_view(*b)),
        (r == LexOrder::Same) == (label_view(*a) == label_view(*b)),
        (r == LexOrder::After) == label_lt(label_view(*b), label_view(*a)),
{
    match (a, b) {
        (None, None) => LexOrder::Same,
        (None, Some(_)) => LexOrder::Before,
        (Some(_), None) => LexOrder::After,
        (Some(x), Some(y)) => lex_compare(&chars_of(x.as_str()), &chars_of(y.as_str())),
    }
}

/// The totals of one agent label (`None`: bare benches), with the cost
/// comparisons of its entries that have a baseline.
pub struct AgentGroup {
    pub label: Option<String>,
    pub totals: Totals,
    pub cost_diffs: Vec<CostComparison>,
}

/// Groups `gs` are sorted strictly by label.
pub open spec fn labels_sorted(gs: Seq<AgentGroup>) -> bool {
    forall|a: int, b: int|
        0 <= a < b < gs.len() ==> label_lt(label_view(gs[a].label), label_view(gs[b].label))
}

/// Some group of `gs` has label `l`.
pub open spec fn label_listed(gs: Seq<AgentGroup>, l: Option<Seq<char>>) -> bool {
    exists|g: int| 0 <= g < gs.len() && label_view(gs[g].label) == l
}

/// Group `grp` totals the entries of `done` with its label (at least one),
/// and holds their cost comparisons, baselines looked up among `all`.
pub open spec fn group_matches(
    grp: AgentGroup,
    all: Seq<(BenchModelKey, EntryAgg)>,
    done: Seq<(BenchModelKey, EntryAgg)>,
) -> bool {
    &&& label_values(done, label_view(grp.label)).len() > 0
    &&& totals_match(grp.totals, label_values(done, label_view(grp.label)))
    &&& grp.cost_diffs@ == label_comparisons(all, done, label_view(grp.label))
}

/// Groups `gs` total, per label, the entries of `done`: sorted by label,
/// one group per label that occurs, each matching its entries.
pub open spec fn agent_groups_of(
    gs: Seq<AgentGroup>,
    all: Seq<(BenchModelKey, EntryAgg)>,
    done: Seq<(BenchModelKey, EntryAgg)>,
) -> bool {
    &&& labels_sorted(gs)
    &&& forall|g: int| 0 <= g < gs.len() ==> group_matches(#[trigger] gs[g], all, done)
    &&& forall|i: int| 0 <= i < done.len() ==> label_listed(gs, entry_label(#[trigger] done[i]))
}

/// Appending entry `e` to `done` extends the values and comparisons of its
/// label and leaves the other labels unchanged.
proof fn lemma_label_step(
    all: Seq<(BenchModelKey, EntryAgg)>,
    done: Seq<(BenchModelKey, EntryAgg)>,
    e: (BenchModelKey, EntryAgg),
    l: Option<Seq<char>>,
)
    ensures
        label_values(done.push(e), l) == if entry_label(e) == l {
            label_values(done, l).push(e.1)
        } else {
            label_values(done, l)
        },
        label_comparisons(all, done.push(e), l) == if entry_label(e) == l {
            match comparison_of(all, e) {
                Some(c) => label_comparisons(all, done, l).push(c),
                None => label_comparisons(all, done, l),
            }
        } else {
            label_comparisons(all, done, l)
        },
{
    assert(done.push(e).drop_last() =~= done);
}

/// A group of another label still matches after appending `e`.
proof fn lemma_group_other(
    grp: AgentGroup,
    all: Seq<(BenchModelKey, EntryAgg)>,
    done: Seq<(BenchModelKey, EntryAgg)>,
    e: (BenchModelKey, EntryAgg),
)
    requires
        group_matches(grp, all, done),
        label_view(grp.label) != entry_label(e),
    ensures
        group_matches(grp, all, done.push(e)),
{
    lemma_label_step(all, done, e, label_view(grp.label));
}

proof fn lemma_label_absent(
    all: Seq<(BenchModelKey, EntryAgg)>,
    es: Seq<(BenchModelKey, EntryAgg)>,
    l: Option<Seq<char>>,
)
    requires
        forall|i: int| 0 <= i < es.len() ==> entry_label(#[trigger] es[i]) != l,
    ensures
        label_values(es, l) == Seq::<EntryAgg>::empty(),
        label_comparisons(all, es, l) == Seq::<CostComparison>::empty(),
    decreases es.len(),
{
    if es.len() > 0 {
        lemma_label_absent(all, es.drop_last(), l);
    }
}

pub(crate) proof fn lemma_sum_tally_push(es: Seq<EntryAgg>, e: EntryAgg, t: Tally)
    ensures
        sum_tally(es.push(e), t) == sum_tally(es, t) + tally_of(e, t),
{
    assert(es.push(e).drop_last() =~= es);
}

proof fn lemma_label_values_prefix(es: Seq<(BenchModelKey, EntryAgg)>, l: Option<Seq<char>>, t: Tally, k: int)
    requires
        0 <= k <= es.len(),
    ensures
        sum_tally(label_values(es.take(k), l), t) <= sum_tally(label_values(es, l), t),
    decreases es.len(),
{
    if k < es.len() {
        assert(es.drop_last().take(k) =~= es.take(k));
        lemma_label_values_prefix(es.drop_last(), l, t, k);
        let rest = label_values(es.drop_last(), l);
        if entry_label(es.last()) == l {
            lemma_sum_tally_push(rest, es.last().1, t);
        }
    } else {
        assert(es.take(k) =~= es);
    }
}

/// Adding an entry to the group of its label keeps the grouping.
proof fn lemma_agent_update(
    old_groups: Seq<AgentGroup>,
    new_groups: Seq<AgentGroup>,
    all: Seq<(BenchModelKey, EntryAgg)>,
    done: Seq<(BenchModelKey, EntryAgg)>,
    e: (BenchModelKey, EntryAgg),
    j: int,
)
    requires
        agent_groups_of(old_groups, all, done),
        0 <= j < old_groups.len(),
        label_view(old_groups[j].label) == entry_label(e),
        new_groups == old_groups.update(j, new_groups[j]),
        label_view(new_groups[j].label) == entry_label(e),
        totals_match(new_groups[j].totals, label_values(done.push(e), entry_label(e))),
        new_groups[j].cost_diffs@ == label_comparisons(all, done.push(e), entry_label(e)),
    ensures
        agent_groups_of(new_groups, all, done.push(e)),
{
    let next = done.push(e);
    let l = entry_label(e);
    lemma_label_step(all, done, e, l);
    lemma_label_lt_irreflexive(l);
    assert forall|g: int| 0 <= g < new_groups.len() implies group_matches(
        #[trigger] new_groups[g],
        all,
        next,
    ) by {
        if g != j {
            assert(group_matches(old_groups[g], all, done));
            if g > j {
                assert(label_lt(label_view(old_groups[j].label), label_view(old_groups[g].label)));
            } else {
                assert(label_lt(label_view(old_groups[g].label), label_view(old_groups[j].label)));
            }
            lemma_group_other(old_groups[g], all, done, e);
        }
    }
    assert forall|k: int| 0 <= k < next.len() implies label_listed(
        new_groups,
        entry_label(#[trigger] next[k]),
    ) by {
        if k < done.len() {
            assert(next[k] == done[k]);
            assert(label_listed(old_groups, entry_label(done[k])));
            let g = choose|g: int|
                0 <= g < old_groups.len() && label_view(old_groups[g].label) == entry_label(done[k]);
            assert(label_view(new_groups[g].label) == label_view(old_groups[g].label));
        } else {
            assert(label_view(new_groups[j].label) == entry_label(next[k]));
        }
    }
    assert forall|a: int, b: int| 0 <= a < b < new_groups.len() implies label_lt(
        label_view(new_groups[a].label),
        label_view(new_groups[b].label),
    ) by {
        assert(label_view(new_groups[a].label) == label_view(old_groups[a].label));
        assert(label_view(new_groups[b].label) == label_view(old_groups[b].label));
    }
}

/// A new group for a label not seen yet, inserted at its place in label
/// order, keeps the grouping.
proof fn lemma_agent_insert(
    old_groups: Seq<AgentGroup>,
    grp: AgentGroup,
    all: Seq<(BenchModelKey, EntryAgg)>,
    done: Seq<(BenchModelKey, EntryAgg)>,
    e: (BenchModelKey, EntryAgg),
    j: int,
)
    requires
        agent_groups_of(old_groups, all, done),
        0 <= j <= old_groups.len(),
        forall|a: int|
            0 <= a < j ==> label_lt(label_view((#[trigger] old_groups[a]).label), entry_label(e)),
        j < old_groups.len() ==> label_lt(entry_label(e), label_view(old_groups[j].label)),
        label_view(grp.label) == entry_label(e),
        totals_match(grp.totals, label_values(done.push(e), entry_label(e))),
        grp.cost_diffs@ == label_comparisons(all, done.push(e), entry_label(e)),
    ensures
        agent_groups_of(old_groups.insert(j, grp), all, done.push(e)),
{
    let next = done.push(e);
    let l = entry_label(e);
    let n = old_groups.insert(j, grp);
    lemma_label_step(all, done, e, l);
    lemma_label_lt_irreflexive(l);
    assert forall|a: int, b: int| 0 <= a < b < n.len() implies label_lt(
        label_view(n[a].label),
        label_view(n[b].label),
    ) by {
        if b < j {
        } else if b == j {
        } else if a < j {
            assert(n[b] == old_groups[b - 1]);
            if b - 1 > j {
                lemma_label_lt_transitive(
                    l,
                    label_view(old_groups[j].label),
                    label_view(old_groups[b - 1].label),
                );
            }
            lemma_label_lt_transitive(label_view(n[a].label), l, label_view(n[b].label));
        } else if a == j {
            assert(n[b] == old_groups[b - 1]);
            if b - 1 > j {
                lemma_label_lt_transitive(
                    l,
                    label_view(old_groups[j].label),
                    label_view(old_groups[b - 1].label),
                );
            }
        } else {
            assert(n[a] == old_groups[a - 1]);
            assert(n[b] == old_groups[b - 1]);
        }
    }
    assert forall|g: int| 0 <= g < n.len() implies group_matches(#[trigger] n[g], all, next) by {
        if g < j {
            assert(n[g] == old_groups[g]);
            assert(group_matches(old_groups[g], all, done));
            lemma_group_other(old_groups[g], all, done, e);
        } else if g > j {
            assert(n[g] == old_groups[g - 1]);
            assert(group_matches(old_groups[g - 1], all, done));
            if g - 1 > j {
                lemma_label_lt_transitive(
                    l,
                    label_view(old_groups[j].label),
                    label_view(old_groups[g - 1].label),
                );
            }
            lemma_group_other(old_groups[g - 1], all, done, e);
        }
    }
    assert forall|k: int| 0 <= k < next.len() implies label_listed(
        n,
        entry_label(#[trigger] next[k]),
    ) by {
        if k < done.len() {
            assert(next[k] == done[k]);
            assert(label_listed(old_groups, entry_label(done[k])));
            let g = choose|g: int|
                0 <= g < old_groups.len() && label_view(old_groups[g].label) == entry_label(done[k]);
            if g < j {
                assert(n[g] == old_groups[g]);
            } else {
                assert(n[g + 1] == old_groups[g]);
            }
        } else {
            assert(label_view(n[j].label) == entry_label(next[k]));
        }
    }
}

/// When label `l` sorts strictly between the groups before `j` and the
/// group at `j`, no entry of `done` has it.
proof fn lemma_label_unseen(
    groups: Seq<AgentGroup>,
    all: Seq<(BenchModelKey, EntryAgg)>,
    done: Seq<(BenchModelKey, EntryAgg)>,
    l: Option<Seq<char>>,
    j: int,
)
    requires
        agent_groups_of(groups, all, done),
        0 <= j <= groups.len(),
        forall|a: int| 0 <= a < j ==> label_lt(label_view((#[trigger] groups[a]).label), l),
        j < groups.len() ==> label_lt(l, label_view(groups[j].label)),
    ensures
        label_values(done, l) == Seq::<EntryAgg>::empty(),
        label_comparisons(all, done, l) == Seq::<CostComparison>::empty(),
{
    assert forall|k: int| 0 <= k < done.len() implies entry_label(#[trigger] done[k]) != l by {
        if entry_label(done[k]) == l {
            assert(label_listed(groups, entry_label(done[k])));
            let g = choose|g: int|
                0 <= g < groups.len() && label_view(groups[g].label) == entry_label(done[k]);
            lemma_label_lt_irreflexive(l);
            if g > j {
                lemma_label_lt_transitive(l, label_view(groups[j].label), label_view(groups[g].label));
            }
        }
    }
    lemma_label_absent(all, done, l);
}

/// The totals of the entries of a prefix, with the next entry added, still
/// fit when the totals of its label over all entries fit.
proof fn lemma_prefix_fits(
    all: Seq<(BenchModelKey, EntryAgg)>,
    done: Seq<(BenchModelKey, EntryAgg)>,
    e: (BenchModelKey, EntryAgg),
    i: int,
)
    requires
        0 <= i < all.len(),
        done == all.take(i),
        e == all[i],
        tallies_fit(label_values(all, entry_label(e))),
    ensures
        label_values(done.push(e), entry_label(e)) == label_values(done, entry_label(e)).push(e.1),
        tallies_fit(label_values(done.push(e), entry_label(e))),
        forall|t: Tally|
            #[trigger] sum_tally(label_values(done.push(e), entry_label(e)), t) == sum_tally(
                label_values(done, entry_label(e)),
                t,
            ) + tally_of(e.1, t),
{
    let l = entry_label(e);
    assert(all.take(i + 1) =~= done.push(e));
    lemma_label_step(all, done, e, l);
    lemma_label_values_prefix(all, l, Tally::Passed, i + 1);
    lemma_label_values_prefix(all, l, Tally::Runs, i + 1);
    lemma_label_values_prefix(all, l, Tally::Usage(Meter::PromptTokens), i + 1);
    lemma_label_values_prefix(all, l, Tally::Usage(Meter::CompletionTokens), i + 1);
    lemma_label_values_prefix(all, l, Tally::Usage(Meter::ReasoningTokens), i + 1);
    lemma_label_values_prefix(all, l, Tally::Usage(Meter::Cost), i + 1);
    assert forall|t: Tally| #[trigger] sum_tally(label_values(done.push(e), l), t) == sum_tally(
        label_values(done, l),
        t,
    ) + tally_of(e.1, t) by {
        lemma_sum_tally_push(label_values(done, l), e.1, t);
    }
}

impl AggregatedScores {
    /// The totals of each agent label (`None` for bare benches), sorted with
    /// the bare label first and agent names in ascending order, each with
    /// the cost comparisons of its agent entries that have a baseline.
    pub fn per_agent_totals(&self) -> (r: Vec<AgentGroup>)
        requires
            forall|i: int|
                0 <= i < self.entries().len() ==> tallies_fit(
                    label_values(self.entries(), entry_label(#[trigger] self.entries()[i])),
                ),
        ensures
            agent_groups_of(r@, self.entries(), self.entries()),
    {
        let ghost all = self.entries@;
        let mut groups: Vec<AgentGroup> = Vec::new();
        assert(all.take(0) =~= Seq::<(BenchModelKey, EntryAgg)>::empty());
        let mut i: usize = 0;
        while i < self.entries.len()
            invariant
                all == self.entries@,
                i <= all.len(),
                agent_groups_of(groups@, all, all.take(i as int)),
                forall|k: int|
                    0 <= k < self.entries().len() ==> tallies_fit(
                        label_values(self.entries(), entry_label(#[trigger] self.entries()[k])),
                    ),
            decreases self.entries.len() - i,
        {
            let ghost done = all.take(i as int);
            let ghost e = all[i as int];
            assert(all.take(i as int + 1) =~= done.push(e));
            let key = &self.entries[i].0;
            let entry = self.entries[i].1;
            let (base, agent) = split_agent_suffix(key.bench_id.as_str());
            let ghost l = entry_label(e);
            let comparison: Option<CostComparison> = match &agent {
                Some(_) => match self.baseline(base.as_str(), key.model_id.as_str()) {
                    Some(b) => Some(
                        CostComparison {
                            cost: entry.cost,
                            runs: entry.runs,
                            baseline_cost: b.cost,
                            baseline_runs: b.runs,
                        },
                    ),
                    None => None,
                },
                None => None,
            };
            proof {
                assert(label_view(agent) == l);
                assert(comparison == comparison_of(all, e));
                assert(tallies_fit(label_values(self.entries(), entry_label(self.entries()[i as int]))));
                lemma_prefix_fits(all, done, e, i as int);
                lemma_label_step(all, done, e, l);
            }
            let mut j: usize = 0;
            let mut same = false;
            while j < groups.len()
                invariant_except_break
                    !same,
                invariant
                    j <= groups@.len(),
                    label_view(agent) == l,
                    forall|a: int|
                        0 <= a < j ==> label_lt(label_view((#[trigger] groups@[a]).label), l),
                ensures
                    j <= groups@.len(),
                    forall|a: int|
                        0 <= a < j ==> label_lt(label_view((#[trigger] groups@[a]).label), l),
                    same ==> j < groups@.len() && label_view(groups@[j as int].label) == l,
                    !same && j < groups@.len() ==> label_lt(l, label_view(groups@[j as int].label)),
                decreases groups.len() - j,
            {
                match compare_labels(&groups[j].label, &agent) {
                    LexOrder::Before => {},
                    LexOrder::Same => {
                        same = true;
                        break;
                    },
                    LexOrder::After => {
                        break;
                    },
                }
                j += 1;
            }
            let ghost old_groups = groups@;
            if same {
                let mut grp = groups.remove(j);
                proof {
                    assert(group_matches(old_groups[j as int], all, done));
                    lemma_totals_push(
                        grp.totals,
                        label_values(done, l),
                        entry,
                        Totals {
                            passed: (grp.totals.passed + entry.passed) as usize,
                            runs: (grp.totals.runs + entry.runs) as usize,
                            prompt_tokens: (grp.totals.prompt_tokens + entry.prompt_tokens) as u32,
                            completion_tokens: (grp.totals.completion_tokens
                                + entry.completion_tokens) as u32,
                            reasoning_tokens: (grp.totals.reasoning_tokens
                                + entry.reasoning_tokens) as u32,
                            cost: (grp.totals.cost + entry.cost) as u64,
                        },
                    );
                }
                grp.totals = add_totals(grp.totals, &entry);
                match comparison {
                    Some(c) => grp.cost_diffs.push(c),
                    None => {},
                }
                groups.insert(j, grp);
                proof {
                    assert(groups@ =~= old_groups.update(j as int, groups@[j as int]));
                    lemma_agent_update(old_groups, groups@, all, done, e, j as int);
                }
            } else {
                proof {
                    lemma_label_unseen(old_groups, all, done, l, j as int);
                    lemma_totals_push(
                        Totals {
                            passed: 0,
                            runs: 0,
                            prompt_tokens: 0,
                            completion_tokens: 0,
                            reasoning_tokens: 0,
                            cost: 0,
                        },
                        label_values(done, l),
                        entry,
                        Totals {
                            passed: entry.passed,
                            runs: entry.runs,
                            prompt_tokens: entry.prompt_tokens,
                            completion_tokens: entry.completion_tokens,
                            reasoning_tokens: entry.reasoning_tokens,
                            cost: entry.cost,
                        },
                    );
                }
                let mut diffs: Vec<CostComparison> = Vec::new();
                match comparison {
                    Some(c) => diffs.push(c),
                    None => {},
                }
                let grp = AgentGroup {
                    label: agent,
                    totals: add_totals(Totals::default(), &entry),
                    cost_diffs: diffs,
                };
                let ghost g0 = grp;
                groups.insert(j, grp);
                proof {
                    lemma_agent_insert(old_groups, g0, all, done, e, j as int);
                }
            }
            i += 1;
        }
        assert(all.take(all.len() as int) =~= all);
        groups
    }
}

/// `r` holds the totals of `es` and `e`: each field the sum of both.
pub(crate) proof fn lemma_totals_push(t: Totals, es: Seq<EntryAgg>, e: EntryAgg, r: Totals)
    requires
        totals_match(t, es),
        r.passed == t.passed + e.passed,
        r.runs == t.runs + e.runs,
        r.prompt_tokens == t.prompt_tokens + e.prompt_tokens,
        r.completion_tokens == t.completion_tokens + e.completion_tokens,
        r.reasoning_tokens == t.reasoning_tokens + e.reasoning_tokens,
        r.cost == t.cost + e.cost,
    ensures
        totals_match(r, es.push(e)),
{
    lemma_sum_tally_push(es, e, Tally::Passed);
    lemma_sum_tally_push(es, e, Tally::Runs);
    lemma_sum_tally_push(es, e, Tally::Usage(Meter::PromptTokens));
    lemma_sum_tally_push(es, e, Tally::Usage(Meter::CompletionTokens));
    lemma_sum_tally_push(es, e, Tally::Usage(Meter::ReasoningTokens));
    lemma_sum_tally_push(es, e, Tally::Usage(Meter::Cost));
}

/// The totals of a prefix with one more aggregate still fit when those of
/// the whole fit.
pub(crate) proof fn lemma_tallies_prefix(es: Seq<EntryAgg>, k: int)
    requires
        1 <= k <= es.len(),
        tallies_fit(es),
    ensures
        tallies_fit(es.take(k)),
        forall|t: Tally|
            #[trigger] sum_tally(es.take(k), t) == sum_tally(es.take(k - 1), t) + tally_of(
                es[k - 1],
                t,
            ),
{
    lemma_sum_tally_prefix(es, Tally::Passed, k);
    lemma_sum_tally_prefix(es, Tally::Runs, k);
    lemma_sum_tally_prefix(es, Tally::Usage(Meter::PromptTokens), k);
    lemma_sum_tally_prefix(es, Tally::Usage(Meter::CompletionTokens), k);
    lemma_sum_tally_prefix(es, Tally::Usage(Meter::ReasoningTokens), k);
    lemma_sum_tally_prefix(es, Tally::Usage(Meter::Cost), k);
    assert(es.take(k) =~= es.take(k - 1).push(es[k - 1]));
    assert forall|t: Tally|
        #[trigger] sum_tally(es.take(k), t) == sum_tally(es.take(k - 1), t) + tally_of(es[k - 1], t) by {
        lemma_sum_tally_push(es.take(k - 1), es[k - 1], t);
    }
}

impl AgentGroup {
    /// The label shown: `(baseline)` for bare benches, else the agent name.
    pub fn display_label(&self) -> (r: String)
        ensures
            r@ == match self.label {
                Some(l) => l@,
                None => "(baseline)"@,
            },
    {
        match &self.label {
            Some(l) => String::from_str(l.as_str()),
            None => String::from_str("(baseline)"),
        }
    }
}

// ── Checking that totals fit ────────────────────────────────────────────────

/// Whether the usage totals of scored results fit their counters.
pub fn results_fit(bs: &Vec<ScoredBench>) -> (r: bool)
    ensures
        r == entry_fits(bs@),
{
    let mut e = EntryAgg::default();
    let mut i: usize = 0;
    while i < bs.len()
        invariant
            i <= bs@.len(),
            e.prompt_tokens == results_sum(bs@.take(i as int), Meter::PromptTokens),
            e.completion_tokens == results_sum(bs@.take(i as int), Meter::CompletionTokens),
            e.reasoning_tokens == results_sum(bs@.take(i as int), Meter::ReasoningTokens),
            e.cost == results_sum(bs@.take(i as int), Meter::Cost),
            e.runs == i,
            e.passed <= e.runs,
        decreases bs.len() - i,
    {
        assert(bs@.take(i as int + 1).drop_last() =~= bs@.take(i as int));
        let rs = &bs[i].result.responses;
        let p = usage_total_check(rs, Meter::PromptTokens);
        let c = usage_total_check(rs, Meter::CompletionTokens);
        let q = usage_total_check(rs, Meter::ReasoningTokens);
        let k = usage_total_check(rs, Meter::Cost);
        if e.prompt_tokens as u128 + p > u32::MAX as u128 || e.completion_tokens as u128 + c
            > u32::MAX as u128 || e.reasoning_tokens as u128 + q > u32::MAX as u128 || e.cost as u128
            + k > u64::MAX as u128 {
            proof {
                lemma_results_sum_prefix(bs@, Meter::PromptTokens, i as int + 1);
                lemma_results_sum_prefix(bs@, Meter::CompletionTokens, i as int + 1);
                lemma_results_sum_prefix(bs@, Meter::ReasoningTokens, i as int + 1);
                lemma_results_sum_prefix(bs@, Meter::Cost, i as int + 1);
            }
            return false;
        }
        add_result(&mut e, &bs[i]);
        i += 1;
    }
    assert(bs@.take(bs@.len() as int) =~= bs@);
    true
}

/// Total of `m` over the responses that report usage, or `u64::MAX + 1`
/// when that total exceeds `u64::MAX`.
fn usage_total_check(rs: &Vec<ResponseSummary>, m: Meter) -> (r: u128)
    ensures
        r <= u64::MAX as u128 + 1,
        r == usage_sum(rs@, m) || (r == u64::MAX as u128 + 1 && usage_sum(rs@, m) > u64::MAX),
{
    let mut acc: u128 = 0;
    let mut i: usize = 0;
    while i < rs.len()
        invariant
            i <= rs@.len(),
            acc == usage_sum(rs@.take(i as int), m),
            acc <= u64::MAX,
        decreases rs.len() - i,
    {
        assert(rs@.take(i as int + 1).drop_last() =~= rs@.take(i as int));
        match &rs[i].usage {
            Some(u) => {
                let a: u128 = match m {
                    Meter::PromptTokens => u.prompt_tokens as u128,
                    Meter::CompletionTokens => u.completion_tokens as u128,
                    Meter::ReasoningTokens => match u.reasoning_tokens {
                        Some(t) => t as u128,
                        None => 0,
                    },
                    Meter::Cost => match u.cost {
                        Some(c) => c as u128,
                        None => 0,
                    },
                };
                acc = acc + a;
            },
            None => {},
        }
        if acc > u64::MAX as u128 {
            proof {
                lemma_usage_sum_prefix(rs@, m, i as int + 1);
            }
            return u64::MAX as u128 + 1;
        }
        i += 1;
    }
    assert(rs@.take(rs@.len() as int) =~= rs@);
    acc
}

/// Whether the totals of `vs` fit their counters.
pub fn tallies_fit_check(vs: &Vec<EntryAgg>) -> (r: bool)
    ensures
        r == tallies_fit(vs@),
{
    let mut t = Totals::default();
    let mut i: usize = 0;
    while i < vs.len()
        invariant
            i <= vs@.len(),
            totals_match(t, vs@.take(i as int)),
        decreases vs.len() - i,
    {
        let e = vs[i];
        assert(vs@.take(i as int + 1) =~= vs@.take(i as int).push(e));
        if t.passed as u128 + e.passed as u128 > usize::MAX as u128 || t.runs as u128
            + e.runs as u128 > usize::MAX as u128 || t.prompt_tokens as u128 + e.prompt_tokens as u128
            > u32::MAX as u128 || t.completion_tokens as u128 + e.completion_tokens as u128
            > u32::MAX as u128 || t.reasoning_tokens as u128 + e.reasoning_tokens as u128
            > u32::MAX as u128 || t.cost as u128 + e.cost as u128 > u64::MAX as u128 {
            proof {
                lemma_sum_tally_prefix(vs@, Tally::Passed, i as int + 1);
                lemma_sum_tally_prefix(vs@, Tally::Runs, i as int + 1);
                lemma_sum_tally_prefix(vs@, Tally::Usage(Meter::PromptTokens), i as int + 1);
                lemma_sum_tally_prefix(vs@, Tally::Usage(Meter::CompletionTokens), i as int + 1);
                lemma_sum_tally_prefix(vs@, Tally::Usage(Meter::ReasoningTokens), i as int + 1);
                lemma_sum_tally_prefix(vs@, Tally::Usage(Meter::Cost), i as int + 1);
                lemma_sum_tally_push(vs@.take(i as int), e, Tally::Passed);
                lemma_sum_tally_push(vs@.take(i as int), e, Tally::Runs);
                lemma_sum_tally_push(vs@.take(i as int), e, Tally::Usage(Meter::PromptTokens));
                lemma_sum_tally_push(vs@.take(i as int), e, Tally::Usage(Meter::CompletionTokens));
                lemma_sum_tally_push(vs@.take(i as int), e, Tally::Usage(Meter::ReasoningTokens));
                lemma_sum_tally_push(vs@.take(i as int), e, Tally::Usage(Meter::Cost));
            }
            return false;
        }
        proof {
            lemma_totals_push(
                t,
                vs@.take(i as int),
                e,
                Totals {
                    passed: (t.passed + e.passed) as usize,
                    runs: (t.runs + e.runs) as usize,
                    prompt_tokens: (t.prompt_tokens + e.prompt_tokens) as u32,
                    completion_tokens: (t.completion_tokens + e.completion_tokens) as u32,
                    reasoning_tokens: (t.reasoning_tokens + e.reasoning_tokens) as u32,
                    cost: (t.cost + e.cost) as u64,
                },
            );
        }
        t = add_totals(t, &e);
        i += 1;
    }
    assert(vs@.take(vs@.len() as int) =~= vs@);
    true
}

impl AggregatedScores {
    /// The aggregates of the entries with agent `label`, in order.
    pub fn label_values_of(&self, label: &Option<String>) -> (r: Vec<EntryAgg>)
        ensures
            r@ == label_values(self.entries(), label_view(*label)),
    {
        let mut out: Vec<EntryAgg> = Vec::new();
        let mut i: usize = 0;
        while i < self.entries.len()
            invariant
                i <= self.entries@.len(),
                out@ == label_values(self.entries@.take(i as int), label_view(*label)),
            decreases self.entries.len() - i,
        {
            assert(self.entries@.take(i as int + 1).drop_last() =~= self.entries@.take(i as int));
            let (_base, agent) = split_agent_suffix(self.entries[i].0.bench_id.as_str());
            match compare_labels(&agent, label) {
                LexOrder::Same => out.push(self.entries[i].1),
                _ => {},
            }
            i += 1;
        }
        assert(self.entries@.take(self.entries@.len() as int) =~= self.entries@);
        out
    }

    /// Whether the totals of every agent label fit their counters.
    pub fn label_totals_fit(&self) -> (r: bool)
        ensures
            r == forall|i: int|
                0 <= i < self.entries().len() ==> tallies_fit(
                    label_values(self.entries(), entry_label(#[trigger] self.entries()[i])),
                ),
    {
        let mut i: usize = 0;
        while i < self.entries.len()
            invariant
                i <= self.entries@.len(),
                forall|k: int|
                    0 <= k < i ==> tallies_fit(
                        label_values(self.entries(), entry_label(#[trigger] self.entries()[k])),
                    ),
            decreases self.entries.len() - i,
        {
            let (_base, agent) = split_agent_suffix(self.entries[i].0.bench_id.as_str());
            let vs = self.label_values_of(&agent);
            if !tallies_fit_check(&vs) {
                assert(!tallies_fit(label_values(self.entries(), entry_label(self.entries()[i as int]))));
                return false;
            }
            i += 1;
        }
        true
    }
}

/// An aggregate never counts more passes than runs.
pub proof fn lemma_entry_passed_le_runs(bs: Seq<ScoredBench>)
    requires
        bs.len() <= usize::MAX,
    ensures
        entry_of(bs).passed <= entry_of(bs).runs,
{
    lemma_passed_count_bound(bs);
}

// ── Per-agent totals add up to the grand total ──────────────────────────────

/// The amount of `t` in totals.
pub open spec fn totals_field(tot: Totals, t: Tally) -> nat {
    match t {
        Tally::Passed => tot.passed as nat,
        Tally::Runs => tot.runs as nat,
        Tally::Usage(Meter::PromptTokens) => tot.prompt_tokens as nat,
        Tally::Usage(Meter::CompletionTokens) => tot.completion_tokens as nat,
        Tally::Usage(Meter::ReasoningTokens) => tot.reasoning_tokens as nat,
        Tally::Usage(Meter::Cost) => tot.cost as nat,
    }
}

/// Sum of `t` over the totals of agent groups.
pub open spec fn groups_tally(gs: Seq<AgentGroup>, t: Tally) -> nat
    decreases gs.len(),
{
    if gs.len() == 0 {
        0
    } else {
        groups_tally(gs.drop_last(), t) + totals_field(gs.last().totals, t)
    }
}

/// Sum of `t` over the entries of each label of `ls`.
spec fn labeled_sum(es: Seq<(BenchModelKey, EntryAgg)>, ls: Seq<Option<Seq<char>>>, t: Tally) -> nat
    decreases ls.len(),
{
    if ls.len() == 0 {
        0
    } else {
        labeled_sum(es, ls.drop_last(), t) + sum_tally(label_values(es, ls.last()), t)
    }
}

proof fn lemma_labeled_sum_empty(ls: Seq<Option<Seq<char>>>, t: Tally)
    ensures
        labeled_sum(Seq::empty(), ls, t) == 0,
    decreases ls.len(),
{
    if ls.len() > 0 {
        lemma_labeled_sum_empty(ls.drop_last(), t);
    }
}

proof fn lemma_labeled_sum_push(
    es: Seq<(BenchModelKey, EntryAgg)>,
    e: (BenchModelKey, EntryAgg),
    ls: Seq<Option<Seq<char>>>,
    t: Tally,
)
    requires
        forall|x: int, y: int| 0 <= x < y < ls.len() ==> ls[x] != ls[y],
    ensures
        labeled_sum(es.push(e), ls, t) == labeled_sum(es, ls, t) + if ls.contains(entry_label(e)) {
            tally_of(e.1, t)
        } else {
            0
        },
    decreases ls.len(),
{
    assert(es.push(e).drop_last() =~= es);
    if ls.len() > 0 {
        let d = ls.drop_last();
        assert forall|x: int, y: int| 0 <= x < y < d.len() implies d[x] != d[y] by {
            assert(d[x] == ls[x] && d[y] == ls[y]);
        }
        lemma_labeled_sum_push(es, e, d, t);
        let l = ls[ls.len() - 1];
        if entry_label(e) == l {
            lemma_sum_tally_push(label_values(es, l), e.1, t);
            assert(ls.contains(entry_label(e)));
            assert(!d.contains(entry_label(e))) by {
                if d.contains(entry_label(e)) {
                    let x = choose|x: int| 0 <= x < d.len() && d[x] == entry_label(e);
                    assert(ls[x] == ls[ls.len() - 1]);
                }
            }
        } else {
            if ls.contains(entry_label(e)) {
                let x = choose|x: int| 0 <= x < ls.len() && ls[x] == entry_label(e);
                assert(d[x] == entry_label(e));
            }
            if d.contains(entry_label(e)) {
                let x = choose|x: int| 0 <= x < d.len() && d[x] == entry_label(e);
                assert(ls[x] == entry_label(e));
            }
        }
    }
}

proof fn lemma_labeled_sum(es: Seq<(BenchModelKey, EntryAgg)>, ls: Seq<Option<Seq<char>>>, t: Tally)
    requires
        forall|x: int, y: int| 0 <= x < y < ls.len() ==> ls[x] != ls[y],
        forall|i: int| 0 <= i < es.len() ==> ls.contains(entry_label(#[trigger] es[i])),
    ensures
        labeled_sum(es, ls, t) == sum_tally(entry_values(es), t),
    decreases es.len(),
{
    if es.len() == 0 {
        lemma_labeled_sum_empty(ls, t);
        assert(es =~= Seq::<(BenchModelKey, EntryAgg)>::empty());
        assert(entry_values(es) =~= Seq::<EntryAgg>::empty());
    } else {
        let d = es.drop_last();
        let e = es[es.len() - 1];
        assert forall|i: int| 0 <= i < d.len() implies ls.contains(entry_label(#[trigger] d[i])) by {
            assert(d[i] == es[i]);
        }
        lemma_labeled_sum(d, ls, t);
        assert(d.push(e) =~= es);
        lemma_labeled_sum_push(d, e, ls, t);
        assert(ls.contains(entry_label(e)));
        assert(entry_values(es) =~= entry_values(d).push(e.1));
        lemma_sum_tally_push(entry_values(d), e.1, t);
        assert(labeled_sum(es, ls, t) == labeled_sum(d.push(e), ls, t));
    }
}

proof fn lemma_groups_tally_labeled(gs: Seq<AgentGroup>, es: Seq<(BenchModelKey, EntryAgg)>, t: Tally)
    requires
        forall|g: int| 0 <= g < gs.len() ==> group_matches(#[trigger] gs[g], es, es),
    ensures
        groups_tally(gs, t) == labeled_sum(
            es,
            gs.map_values(|g: AgentGroup| label_view(g.label)),
            t,
        ),
    decreases gs.len(),
{
    if gs.len() > 0 {
        let d = gs.drop_last();
        assert forall|g: int| 0 <= g < d.len() implies group_matches(#[trigger] d[g], es, es) by {
            assert(d[g] == gs[g]);
        }
        lemma_groups_tally_labeled(d, es, t);
        let ls = gs.map_values(|g: AgentGroup| label_view(g.label));
        assert(ls.drop_last() =~= d.map_values(|g: AgentGroup| label_view(g.label)));
        assert(group_matches(gs[gs.len() - 1], es, es));
    }
}

/// The per-agent totals add up to the grand total: summed over the agent
/// groups, each total equals its sum over every entry.
pub proof fn lemma_agent_totals_add_up(gs: Seq<AgentGroup>, es: Seq<(BenchModelKey, EntryAgg)>, t: Tally)
    requires
        agent_groups_of(gs, es, es),
    ensures
        groups_tally(gs, t) == sum_tally(entry_values(es), t),
{
    lemma_groups_tally_labeled(gs, es, t);
    let ls = gs.map_values(|g: AgentGroup| label_view(g.label));
    assert forall|x: int, y: int| 0 <= x < y < ls.len() implies ls[x] != ls[y] by {
        lemma_label_lt_irreflexive(ls[x]);
    }
    assert forall|i: int| 0 <= i < es.len() implies ls.contains(entry_label(#[trigger] es[i])) by {
        assert(label_listed(gs, entry_label(es[i])));
        let g = choose|g: int| 0 <= g < gs.len() && label_view(gs[g].label) == entry_label(es[i]);
        assert(ls[g] == entry_label(es[i]));
    }
    lemma_labeled_sum(es, ls, t);
}

} // verus!
