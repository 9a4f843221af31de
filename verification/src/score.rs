//! Scoring stored bench results: every result that has an evaluator is
//! scored, and the scores are grouped by bench and model.
use crate::batch::RunHash;
use crate::bench_id::BenchId;
use crate::evaluate::{Choice, Evaluator, GetMessageExt, single_answer_passes};
use crate::filter::{filter_hits, keep_score_key, model_selected, shows_bench};
use crate::model::{ModelId, SelectedModels};
use crate::text::str_eq;
use vstd::prelude::*;

verus! {

/// Token and cost accounting of one completion response.
#[derive(Clone, Copy)]
pub struct Usage {
    pub prompt_tokens: u32,
    pub completion_tokens: u32,
    /// Reasoning tokens, when the response details its completion tokens.
    pub reasoning_tokens: Option<u32>,
    /// Cost, when the provider reports it.
    pub cost: Option<u32>,
}

/// One completion response of a stored result: its choices and its usage.
pub struct ResponseSummary {
    pub choices: Vec<Choice>,
    pub usage: Option<Usage>,
}

/// A stored result of one run of a bench on a model.
pub struct BenchResult {
    /// Hash of the model, run number and bench of the run.
    pub hash: RunHash,
    pub bench: BenchId,
    pub model: ModelId,
    /// Every response received, in order.
    pub responses: Vec<ResponseSummary>,
}

/// The score of one result: whether it passed, and what it consumed.
#[derive(Debug, Clone, Copy, PartialEq, Eq, Structural)]
pub struct Score {
    pub passed: bool,
    pub cost: u64,
    pub prompt_tokens: u32,
    pub completion_tokens: u32,
    pub reasoning_tokens: u32,
}

impl Score {
    /// A failing score that consumed nothing.
    pub fn fail() -> (r: Score)
        ensures
            r == (Score {
                passed: false,
                cost: 0,
                prompt_tokens: 0,
                completion_tokens: 0,
                reasoning_tokens: 0,
            }),
    {
        Score { passed: false, cost: 0, prompt_tokens: 0, completion_tokens: 0, reasoning_tokens: 0 }
    }

    /// A passing score that consumed nothing.
    pub fn pass() -> (r: Score)
        ensures
            r == (Score {
                passed: true,
                cost: 0,
                prompt_tokens: 0,
                completion_tokens: 0,
                reasoning_tokens: 0,
            }),
    {
        Score { passed: true, cost: 0, prompt_tokens: 0, completion_tokens: 0, reasoning_tokens: 0 }
    }
}

/// A scored result.
pub struct ScoredBench {
    pub result: BenchResult,
    pub score: Score,
}

/// What a usage reports: a kind of tokens, or the cost.
#[derive(Debug, Clone, Copy, PartialEq, Eq, Structural)]
pub enum Meter {
    PromptTokens,
    CompletionTokens,
    ReasoningTokens,
    Cost,
}

/// The amount of `m` that a usage reports (an absent optional amount is 0).
pub open spec fn metered(u: Usage, m: Meter) -> nat {
    match m {
        Meter::PromptTokens => u.prompt_tokens as nat,
        Meter::CompletionTokens => u.completion_tokens as nat,
        Meter::ReasoningTokens => match u.reasoning_tokens {
            Some(t) => t as nat,
            None => 0,
        },
        Meter::Cost => match u.cost {
            Some(c) => c as nat,
            None => 0,
        },
    }
}

/// Largest total of `m` that its counter holds: token counts are `u32`,
/// costs `u64`.
pub open spec fn meter_limit(m: Meter) -> nat {
    match m {
        Meter::Cost => u64::MAX as nat,
        _ => u32::MAX as nat,
    }
}

/// The total of `m` over `rs`: each response with usage adds its amount, a
/// response without usage adds nothing.
pub open spec fn running_total(rs: Seq<ResponseSummary>, m: Meter) -> nat
    decreases rs.len(),
{
    if rs.len() == 0 {
        0
    } else {
        match rs.last().usage {
            Some(u) => running_total(rs.drop_last(), m) + metered(u, m),
            None => running_total(rs.drop_last(), m),
        }
    }
}

/// Every step of the running total of `m` over `rs` fits its counter.
pub open spec fn running_total_fits(rs: Seq<ResponseSummary>, m: Meter) -> bool {
    forall|k: int| 0 <= k <= rs.len() ==> #[trigger] running_total(rs.take(k), m) <= meter_limit(m)
}

/// The amount of `m` that `u` reports.
fn amount(u: &Usage, m: Meter) -> (r: u32)
    ensures
        r == metered(*u, m),
{
    match m {
        Meter::PromptTokens => u.prompt_tokens,
        Meter::CompletionTokens => u.completion_tokens,
        Meter::ReasoningTokens => match u.reasoning_tokens {
            Some(t) => t,
            None => 0,
        },
        Meter::Cost => match u.cost {
            Some(c) => c,
            None => 0,
        },
    }
}

/// The running total of `m` over `responses`.
pub fn meter_total(responses: &Vec<ResponseSummary>, m: Meter) -> (r: u64)
    requires
        running_total_fits(responses@, m),
    ensures
        r as nat == running_total(responses@, m),
{
    let mut acc: u64 = 0;
    let mut i: usize = 0;
    while i < responses.len()
        invariant
            i <= responses@.len(),
            acc as nat == running_total(responses@.take(i as int), m),
            running_total_fits(responses@, m),
        decreases responses.len() - i,
    {
        assert(responses@.take(i as int + 1).drop_last() =~= responses@.take(i as int));
        match &responses[i].usage {
            Some(u) => {
                assert(running_total(responses@.take(i as int + 1), m) <= meter_limit(m));
                acc = acc + amount(u, m) as u64;
            },
            None => {},
        }
        i += 1;
    }
    assert(responses@.take(responses@.len() as int) =~= responses@);
    acc
}

/// The choices of all responses, in order.
pub open spec fn all_choices(rs: Seq<ResponseSummary>) -> Seq<Choice>
    decreases rs.len(),
{
    if rs.len() == 0 {
        Seq::empty()
    } else {
        all_choices(rs.drop_last()) + rs.last().choices@
    }
}

/// The choices of all responses, in order.
pub fn collect_choices(responses: &Vec<ResponseSummary>) -> (r: Vec<Choice>)
    ensures
        r@ == all_choices(responses@),
{
    let mut out: Vec<Choice> = Vec::new();
    let mut i: usize = 0;
    while i < responses.len()
        invariant
            i <= responses@.len(),
            out@ == all_choices(responses@.take(i as int)),
        decreases responses.len() - i,
    {
        assert(responses@.take(i as int + 1).drop_last() =~= responses@.take(i as int));
        let ghost before = out@;
        let cs = &responses[i].choices;
        let mut j: usize = 0;
        while j < cs.len()
            invariant
                j <= cs@.len(),
                cs@ == responses@[i as int].choices@,
                out@ == before + cs@.take(j as int),
            decreases cs.len() - j,
        {
            out.push(cs[j].clone());
            assert(cs@.take(j as int + 1) =~= cs@.take(j as int).push(cs@[j as int]));
            j += 1;
        }
        assert(cs@.take(cs@.len() as int) =~= cs@);
        i += 1;
    }
    assert(responses@.take(responses@.len() as int) =~= responses@);
    out
}

/// Position of the evaluator of bench `id`: the last entry with that
/// identifier, as when the entries are collected into a map.
pub open spec fn evaluator_index(evals: Seq<(BenchId, Evaluator)>, id: Seq<char>) -> Option<int>
    decreases evals.len(),
{
    if evals.len() == 0 {
        None
    } else if evals.last().0.text() == id {
        Some(evals.len() - 1)
    } else {
        evaluator_index(evals.drop_last(), id)
    }
}

proof fn lemma_evaluator_index_bounds(evals: Seq<(BenchId, Evaluator)>, id: Seq<char>)
    ensures
        match evaluator_index(evals, id) {
            Some(e) => 0 <= e < evals.len() && evals[e].0.text() == id,
            None => true,
        },
    decreases evals.len(),
{
    if evals.len() > 0 && evals.last().0.text() != id {
        lemma_evaluator_index_bounds(evals.drop_last(), id);
    }
}

/// Looks up the evaluator of bench `id`.
pub fn find_evaluator(evals: &[(BenchId, Evaluator)], id: &BenchId) -> (r: Option<usize>)
    ensures
        match r {
            Some(e) => evaluator_index(evals@, id.text()) == Some(e as int),
            None => evaluator_index(evals@, id.text()) is None,
        },
{
    let mut i: usize = evals.len();
    assert(evals@.take(i as int) =~= evals@);
    while i > 0
        invariant
            i <= evals@.len(),
            evaluator_index(evals@, id.text()) == evaluator_index(evals@.take(i as int), id.text()),
        decreases i,
    {
        assert(evals@.take(i as int).drop_last() =~= evals@.take(i as int - 1));
        assert(evals@.take(i as int).last() == evals@[i as int - 1]);
        if str_eq(evals[i - 1].0.as_str(), id.as_str()) {
            return Some(i - 1);
        }
        i -= 1;
    }
    assert(evals@.take(0) =~= Seq::<(BenchId, Evaluator)>::empty());
    None
}

/// The score of result `r` under an evaluator expecting `expected`
/// (already normalised): whether its choices pass, and the running totals
/// of its usage.
pub open spec fn score_of(r: BenchResult, expected: Seq<char>) -> Score {
    Score {
        passed: single_answer_passes(all_choices(r.responses@), expected),
        cost: running_total(r.responses@, Meter::Cost) as u64,
        prompt_tokens: running_total(r.responses@, Meter::PromptTokens) as u32,
        completion_tokens: running_total(r.responses@, Meter::CompletionTokens) as u32,
        reasoning_tokens: running_total(r.responses@, Meter::ReasoningTokens) as u32,
    }
}

/// A result can be scored: a lone choice is a chat choice (the message of
/// another kind of choice cannot be read), and no running total overflows.
pub open spec fn scorable(r: BenchResult) -> bool {
    &&& (all_choices(r.responses@).len() == 1 ==> all_choices(r.responses@)[0].is_chat())
    &&& running_total_fits(r.responses@, Meter::Cost)
    &&& running_total_fits(r.responses@, Meter::PromptTokens)
    &&& running_total_fits(r.responses@, Meter::CompletionTokens)
    &&& running_total_fits(r.responses@, Meter::ReasoningTokens)
}

/// Scores one result with an evaluator.
pub fn score_result(result: &BenchResult, evaluator: &Evaluator) -> (s: Score)
    requires
        scorable(*result),
    ensures
        s == score_of(*result, evaluator.expected@),
{
    let choices = collect_choices(&result.responses);
    let passed = evaluator.eval(choices.as_slice());
    let cost = meter_total(&result.responses, Meter::Cost);
    let prompt = meter_total(&result.responses, Meter::PromptTokens);
    let completion = meter_total(&result.responses, Meter::CompletionTokens);
    let reasoning = meter_total(&result.responses, Meter::ReasoningTokens);
    proof {
        assert(result.responses@.take(result.responses@.len() as int) =~= result.responses@);
    }
    Score {
        passed,
        cost,
        prompt_tokens: prompt as u32,
        completion_tokens: completion as u32,
        reasoning_tokens: reasoning as u32,
    }
}

// ── Grouping by bench and model ─────────────────────────────────────────────

/// Key of the results of one bench on one model.
pub struct BenchModelKey {
    pub bench_id: BenchId,
    pub model_id: ModelId,
}

impl View for BenchModelKey {
    type V = (Seq<char>, Seq<char>);

    open spec fn view(&self) -> (Seq<char>, Seq<char>) {
        (self.bench_id.text(), self.model_id@)
    }
}

impl BenchModelKey {
    /// A copy of the key.
    pub fn duplicate(&self) -> (r: BenchModelKey)
        ensures
            r@ == self@,
    {
        BenchModelKey { bench_id: self.bench_id.duplicate(), model_id: self.model_id.clone() }
    }

    /// Whether two keys name the same bench and model.
    pub fn same(&self, other: &BenchModelKey) -> (r: bool)
        ensures
            r == (self@ == other@),
    {
        str_eq(self.bench_id.as_str(), other.bench_id.as_str()) && str_eq(
            self.model_id.as_str(),
            other.model_id.as_str(),
        )
    }
}

/// The (bench, model) of a scored result.
pub open spec fn key_of(b: ScoredBench) -> (Seq<char>, Seq<char>) {
    (b.result.bench.text(), b.result.model@)
}

/// The key of a scored result.
pub fn key_of_scored(b: &ScoredBench) -> (r: BenchModelKey)
    ensures
        r@ == key_of(*b),
{
    BenchModelKey { bench_id: b.result.bench.duplicate(), model_id: b.result.model.clone() }
}

/// The scored results with key `k`, in order.
pub open spec fn with_key(bs: Seq<ScoredBench>, k: (Seq<char>, Seq<char>)) -> Seq<ScoredBench>
    decreases bs.len(),
{
    if bs.len() == 0 {
        Seq::empty()
    } else {
        let rest = with_key(bs.drop_last(), k);
        if key_of(bs.last()) == k {
            rest.push(bs.last())
        } else {
            rest
        }
    }
}

proof fn lemma_with_key_absent(bs: Seq<ScoredBench>, k: (Seq<char>, Seq<char>))
    requires
        forall|i: int| 0 <= i < bs.len() ==> key_of(#[trigger] bs[i]) != k,
    ensures
        with_key(bs, k) == Seq::<ScoredBench>::empty(),
    decreases bs.len(),
{
    if bs.len() > 0 {
        lemma_with_key_absent(bs.drop_last(), k);
    }
}

/// The keys of a grouping.
pub open spec fn group_keys(gs: Seq<(BenchModelKey, Vec<ScoredBench>)>) -> Seq<(Seq<char>, Seq<char>)> {
    gs.map_values(|g: (BenchModelKey, Vec<ScoredBench>)| g.0@)
}

/// A grouping: distinct keys, no empty group, every result under its own key.
pub open spec fn groups_well_formed(gs: Seq<(BenchModelKey, Vec<ScoredBench>)>) -> bool {
    &&& forall|a: int, b: int| 0 <= a < b < gs.len() ==> gs[a].0@ != gs[b].0@
    &&& forall|g: int| 0 <= g < gs.len() ==> (#[trigger] gs[g]).1@.len() > 0
    &&& forall|g: int, i: int|
        0 <= g < gs.len() && 0 <= i < gs[g].1@.len() ==> key_of(#[trigger] gs[g].1@[i]) == gs[g].0@
}

/// `gs` groups `bs` by key: each group holds, in order, the results of `bs`
/// with its key, and every result of `bs` has a group.
pub open spec fn groups_of(gs: Seq<(BenchModelKey, Vec<ScoredBench>)>, bs: Seq<ScoredBench>) -> bool {
    &&& forall|a: int, b: int| 0 <= a < b < gs.len() ==> gs[a].0@ != gs[b].0@
    &&& forall|g: int| 0 <= g < gs.len() ==> (#[trigger] gs[g]).1@ == with_key(bs, gs[g].0@)
    &&& forall|g: int| 0 <= g < gs.len() ==> (#[trigger] gs[g]).1@.len() > 0
    &&& forall|k: int| 0 <= k < bs.len() ==> group_keys(gs).contains(key_of(#[trigger] bs[k]))
}

proof fn lemma_with_key_members(bs: Seq<ScoredBench>, k: (Seq<char>, Seq<char>))
    ensures
        forall|i: int| 0 <= i < with_key(bs, k).len() ==> key_of(#[trigger] with_key(bs, k)[i]) == k,
    decreases bs.len(),
{
    if bs.len() > 0 {
        lemma_with_key_members(bs.drop_last(), k);
        let rest = with_key(bs.drop_last(), k);
        if key_of(bs.last()) == k {
            assert forall|i: int| 0 <= i < with_key(bs, k).len() implies key_of(
                #[trigger] with_key(bs, k)[i],
            ) == k by {
                if i < rest.len() {
                    assert(with_key(bs, k)[i] == rest[i]);
                }
            }
        }
    }
}

/// A grouping of a sequence is well formed.
pub proof fn lemma_groups_of_well_formed(gs: Seq<(BenchModelKey, Vec<ScoredBench>)>, bs: Seq<ScoredBench>)
    requires
        groups_of(gs, bs),
    ensures
        groups_well_formed(gs),
{
    assert forall|g: int, i: int| 0 <= g < gs.len() && 0 <= i < gs[g].1@.len() implies key_of(
        #[trigger] gs[g].1@[i],
    ) == gs[g].0@ by {
        lemma_with_key_members(bs, gs[g].0@);
    }
}

/// All the scores, grouped by bench and model.
pub struct Scores {
    groups: Vec<(BenchModelKey, Vec<ScoredBench>)>,
}

impl Scores {
    /// The groups: one per (bench, model), with its results in order.
    pub closed spec fn groups(&self) -> Seq<(BenchModelKey, Vec<ScoredBench>)> {
        self.groups@
    }

    /// Groups scored results by (bench, model): one group per key, in order
    /// of first appearance, each holding the results with that key in their
    /// order.
    pub fn from_scored(scored: Vec<ScoredBench>) -> (r: Scores)
        ensures
            groups_of(r.groups(), scored@),
            groups_well_formed(r.groups()),
    {
        let ghost all = scored@;
        let mut rest = scored;
        let mut rev: Vec<ScoredBench> = Vec::new();
        while rest.len() > 0
            invariant
                all == rest@ + rev@.reverse(),
            decreases rest.len(),
        {
            let ghost before = rest@;
            let ghost rv = rev@;
            let p = rest.pop().unwrap();
            rev.push(p);
            assert(rev@.reverse() =~= seq![p] + rv.reverse());
            assert(before =~= rest@.push(p));
        }
        assert(all =~= rev@.reverse());
        let mut groups: Vec<(BenchModelKey, Vec<ScoredBench>)> = Vec::new();
        let ghost mut done: Seq<ScoredBench> = Seq::empty();
        while rev.len() > 0
            invariant
                all == done + rev@.reverse(),
                groups_of(groups@, done),
            decreases rev.len(),
        {
            let ghost rv = rev@;
            let p = rev.pop().unwrap();
            assert(rv.reverse() =~= seq![p] + rev@.reverse());
            let ghost next = done.push(p);
            assert(next.drop_last() =~= done);
            let key = key_of_scored(&p);
            let mut g: usize = 0;
            let mut found = false;
            while g < groups.len()
                invariant_except_break
                    !found,
                invariant
                    g <= groups@.len(),
                    key@ == key_of(p),
                    forall|a: int| 0 <= a < g ==> (#[trigger] groups@[a]).0@ != key_of(p),
                ensures
                    g <= groups@.len(),
                    forall|a: int| 0 <= a < g ==> (#[trigger] groups@[a]).0@ != key_of(p),
                    found ==> g < groups@.len() && groups@[g as int].0@ == key_of(p),
                    !found ==> g == groups@.len(),
                decreases groups.len() - g,
            {
                if groups[g].0.same(&key) {
                    found = true;
                    break;
                }
                g += 1;
            }
            let ghost old_groups = groups@;
            let ghost pg = p;
            if found {
                groups[g].1.push(p);
                proof {
                    assert forall|a: int| 0 <= a < groups@.len() implies (#[trigger] groups@[a]).1@
                        == with_key(next, groups@[a].0@) by {
                        if a == g {
                            assert(groups@[a].1@ =~= old_groups[a].1@.push(pg));
                        } else {
                            assert(groups@[a] == old_groups[a]);
                        }
                    }
                    assert(group_keys(groups@) =~= group_keys(old_groups));
                    assert(group_keys(groups@)[g as int] == key_of(pg));
                    assert forall|k: int| 0 <= k < next.len() implies group_keys(groups@).contains(
                        key_of(#[trigger] next[k]),
                    ) by {
                        if k < done.len() {
                            assert(next[k] == done[k]);
                        }
                    }
                }
            } else {
                proof {
                    assert forall|k: int| 0 <= k < done.len() implies key_of(#[trigger] done[k])
                        != key_of(p) by {
                        if key_of(done[k]) == key_of(p) {
                            let gi = choose|gi: int|
                                0 <= gi < old_groups.len() && group_keys(old_groups)[gi] == key_of(
                                    done[k],
                                );
                            assert(old_groups[gi].0@ == key_of(p));
                        }
                    }
                    lemma_with_key_absent(done, key_of(p));
                }
                let mut q: Vec<ScoredBench> = Vec::new();
                q.push(p);
                groups.push((key, q));
                proof {
                    assert(group_keys(groups@) =~= group_keys(old_groups).push(key_of(pg)));
                    assert(group_keys(groups@)[old_groups.len() as int] == key_of(pg));
                    assert forall|a: int| 0 <= a < groups@.len() implies (#[trigger] groups@[a]).1@
                        == with_key(next, groups@[a].0@) by {
                        if a < old_groups.len() {
                            assert(groups@[a] == old_groups[a]);
                        } else {
                            assert(groups@[a].1@ =~= seq![pg]);
                        }
                    }
                    assert forall|k: int| 0 <= k < next.len() implies group_keys(groups@).contains(
                        key_of(#[trigger] next[k]),
                    ) by {
                        if k < done.len() {
                            assert(next[k] == done[k]);
                            let gi = choose|gi: int|
                                0 <= gi < group_keys(old_groups).len() && group_keys(old_groups)[gi]
                                    == key_of(done[k]);
                            assert(group_keys(groups@)[gi] == key_of(done[k]));
                        }
                    }
                }
            }
            proof {
                done = next;
            }
        }
        proof {
            lemma_groups_of_well_formed(groups@, all);
        }
        Scores { groups }
    }

    /// The groups, in order.
    pub fn iter(&self) -> (r: &[(BenchModelKey, Vec<ScoredBench>)])
        ensures
            r@ == self.groups(),
    {
        self.groups.as_slice()
    }

    /// No result at all.
    pub fn is_empty(&self) -> (r: bool)
        ensures
            r == (self.groups().len() == 0),
    {
        self.groups.len() == 0
    }

    /// Number of (bench, model) groups.
    pub fn len(&self) -> (r: usize)
        ensures
            r == self.groups().len(),
    {
        self.groups.len()
    }

    /// The results of `key`, if any.
    pub fn get(&self, key: &BenchModelKey) -> (r: Option<&Vec<ScoredBench>>)
        ensures
            match r {
                Some(v) => exists|g: int|
                    0 <= g < self.groups().len() && (#[trigger] self.groups()[g]).0@ == key@ && *v
                        == self.groups()[g].1,
                None => forall|g: int|
                    0 <= g < self.groups().len() ==> (#[trigger] self.groups()[g]).0@ != key@,
            },
    {
        let mut g: usize = 0;
        while g < self.groups.len()
            invariant
                g <= self.groups@.len(),
                forall|a: int| 0 <= a < g ==> (#[trigger] self.groups@[a]).0@ != key@,
            decreases self.groups.len() - g,
        {
            if self.groups[g].0.same(key) {
                assert(self.groups()[g as int].0@ == key@);
                return Some(&self.groups[g].1);
            }
            g += 1;
        }
        None
    }
}

// ── Scoring stored results ──────────────────────────────────────────────────

/// An evaluator exists for the bench of `r`.
pub open spec fn has_evaluator(evals: Seq<(BenchId, Evaluator)>, r: BenchResult) -> bool {
    evaluator_index(evals, r.bench.text()) is Some
}

/// The results that have an evaluator, in order, each with its score.
pub open spec fn scored_results(results: Seq<BenchResult>, evals: Seq<(BenchId, Evaluator)>) -> Seq<
    ScoredBench,
>
    decreases results.len(),
{
    if results.len() == 0 {
        Seq::empty()
    } else {
        let rest = scored_results(results.drop_last(), evals);
        let r = results.last();
        match evaluator_index(evals, r.bench.text()) {
            Some(e) => rest.push(ScoredBench { result: r, score: score_of(r, evals[e].1.expected@) }),
            None => rest,
        }
    }
}

/// Scores every stored result whose bench has an evaluator (the last entry
/// of `evals` for its identifier) and groups the scores by bench and model.
/// Results without an evaluator are dropped.
pub fn score_responses(results: Vec<BenchResult>, evals: &[(BenchId, Evaluator)]) -> (r: Scores)
    requires
        forall|i: int|
            0 <= i < results@.len() && has_evaluator(evals@, #[trigger] results@[i]) ==> scorable(
                results@[i],
            ),
    ensures
        groups_of(r.groups(), scored_results(results@, evals@)),
        groups_well_formed(r.groups()),
{
    let ghost all = results@;
    let mut rest = results;
    let mut rev: Vec<BenchResult> = Vec::new();
    while rest.len() > 0
        invariant
            all == rest@ + rev@.reverse(),
        decreases rest.len(),
    {
        let ghost before = rest@;
        let ghost rv = rev@;
        let p = rest.pop().unwrap();
        rev.push(p);
        assert(rev@.reverse() =~= seq![p] + rv.reverse());
        assert(before =~= rest@.push(p));
    }
    assert(all =~= rev@.reverse());
    let mut scored: Vec<ScoredBench> = Vec::new();
    let ghost mut done: Seq<BenchResult> = Seq::empty();
    while rev.len() > 0
        invariant
            all == done + rev@.reverse(),
            scored@ == scored_results(done, evals@),
            forall|i: int|
                0 <= i < all.len() && has_evaluator(evals@, #[trigger] all[i]) ==> scorable(all[i]),
        decreases rev.len(),
    {
        let ghost rv = rev@;
        let r = rev.pop().unwrap();
        assert(rv.reverse() =~= seq![r] + rev@.reverse());
        let ghost next = done.push(r);
        assert(next.drop_last() =~= done);
        assert(all[done.len() as int] == r);
        match find_evaluator(evals, &r.bench) {
            Some(e) => {
                proof {
                    lemma_evaluator_index_bounds(evals@, r.bench.text());
                }
                let score = score_result(&r, &evals[e].1);
                scored.push(ScoredBench { result: r, score });
            },
            None => {},
        }
        proof {
            done = next;
        }
    }
    assert(all =~= done);
    Scores::from_scored(scored)
}

// ── What an evaluation shows ────────────────────────────────────────────────

/// The text of an optional pattern.
pub open spec fn pattern_text(p: Option<&str>) -> Option<Seq<char>> {
    match p {
        Some(s) => Some(s@),
        None => None,
    }
}

/// Whether the results of key `k` are shown: their model passes the model
/// filter (an empty filter passes every model) and their bench is shown
/// under the bench patterns, the agent pattern and the bare setting.
pub open spec fn key_shown(
    k: (Seq<char>, Seq<char>),
    filter: Seq<ModelId>,
    bench_patterns: Seq<String>,
    agent_pattern: Option<Seq<char>>,
    show_bare: bool,
) -> bool {
    &&& (filter.len() == 0 || filter_hits(filter, k.1))
    &&& shows_bench(k.0, bench_patterns, agent_pattern, show_bare)
}

/// The groups whose key is shown, in order.
pub open spec fn shown_groups(
    gs: Seq<(BenchModelKey, Vec<ScoredBench>)>,
    filter: Seq<ModelId>,
    bench_patterns: Seq<String>,
    agent_pattern: Option<Seq<char>>,
    show_bare: bool,
) -> Seq<(BenchModelKey, Vec<ScoredBench>)>
    decreases gs.len(),
{
    if gs.len() == 0 {
        Seq::empty()
    } else {
        let rest = shown_groups(gs.drop_last(), filter, bench_patterns, agent_pattern, show_bare);
        if key_shown(gs.last().0@, filter, bench_patterns, agent_pattern, show_bare) {
            rest.push(gs.last())
        } else {
            rest
        }
    }
}

proof fn lemma_shown_members(
    gs: Seq<(BenchModelKey, Vec<ScoredBench>)>,
    filter: Seq<ModelId>,
    bench_patterns: Seq<String>,
    agent_pattern: Option<Seq<char>>,
    show_bare: bool,
)
    ensures
        forall|i: int|
            0 <= i < shown_groups(gs, filter, bench_patterns, agent_pattern, show_bare).len()
                ==> exists|j: int|
                0 <= j < gs.len() && gs[j] == #[trigger] shown_groups(
                    gs,
                    filter,
                    bench_patterns,
                    agent_pattern,
                    show_bare,
                )[i],
    decreases gs.len(),
{
    if gs.len() > 0 {
        let d = gs.drop_last();
        lemma_shown_members(d, filter, bench_patterns, agent_pattern, show_bare);
        let rest = shown_groups(d, filter, bench_patterns, agent_pattern, show_bare);
        let all = shown_groups(gs, filter, bench_patterns, agent_pattern, show_bare);
        assert forall|i: int| 0 <= i < all.len() implies exists|j: int|
            0 <= j < gs.len() && gs[j] == #[trigger] all[i] by {
            if i < rest.len() {
                assert(all[i] == rest[i]);
                let j = choose|j: int| 0 <= j < d.len() && d[j] == rest[i];
                assert(gs[j] == d[j]);
            } else {
                assert(all[i] == gs[gs.len() - 1]);
            }
        }
    }
}

/// Keeping only some groups of a grouping keeps it well formed.
proof fn lemma_shown_well_formed(
    gs: Seq<(BenchModelKey, Vec<ScoredBench>)>,
    filter: Seq<ModelId>,
    bench_patterns: Seq<String>,
    agent_pattern: Option<Seq<char>>,
    show_bare: bool,
)
    requires
        groups_well_formed(gs),
    ensures
        groups_well_formed(shown_groups(gs, filter, bench_patterns, agent_pattern, show_bare)),
    decreases gs.len(),
{
    if gs.len() > 0 {
        let d = gs.drop_last();
        assert(groups_well_formed(d)) by {
            assert forall|g: int, i: int| 0 <= g < d.len() && 0 <= i < d[g].1@.len() implies key_of(
                #[trigger] d[g].1@[i],
            ) == d[g].0@ by {
                assert(d[g] == gs[g]);
            }
        }
        lemma_shown_well_formed(d, filter, bench_patterns, agent_pattern, show_bare);
        lemma_shown_members(d, filter, bench_patterns, agent_pattern, show_bare);
        let rest = shown_groups(d, filter, bench_patterns, agent_pattern, show_bare);
        let all = shown_groups(gs, filter, bench_patterns, agent_pattern, show_bare);
        if all != rest {
            let last = gs[gs.len() - 1];
            assert(all == rest.push(last));
            assert forall|a: int, b: int| 0 <= a < b < all.len() implies all[a].0@ != all[b].0@ by {
                if b == rest.len() {
                    assert(all[a] == rest[a]);
                    let j = choose|j: int| 0 <= j < d.len() && d[j] == rest[a];
                    assert(gs[j] == d[j]);
                } else {
                    assert(all[a] == rest[a]);
                    assert(all[b] == rest[b]);
                }
            }
            assert forall|g: int, i: int| 0 <= g < all.len() && 0 <= i < all[g].1@.len() implies key_of(
                #[trigger] all[g].1@[i],
            ) == all[g].0@ by {
                if g < rest.len() {
                    assert(all[g] == rest[g]);
                }
            }
            assert forall|g: int| 0 <= g < all.len() implies (#[trigger] all[g]).1@.len() > 0 by {
                if g < rest.len() {
                    assert(all[g] == rest[g]);
                }
            }
        }
    }
}

impl Scores {
    /// Keeps the groups an evaluation shows: those whose model passes
    /// `filter` (an empty filter passes all) and whose bench is shown under
    /// `bench_patterns`, `agent_pattern` and `show_bare`.
    pub fn retain_shown(
        self,
        filter: &SelectedModels,
        bench_patterns: &Vec<String>,
        agent_pattern: Option<&str>,
        show_bare: bool,
    ) -> (r: Scores)
        requires
            groups_well_formed(self.groups()),
        ensures
            r.groups() == shown_groups(
                self.groups(),
                filter@,
                bench_patterns@,
                pattern_text(agent_pattern),
                show_bare,
            ),
            groups_well_formed(r.groups()),
    {
        let ghost all = self.groups@;
        let ghost ap = pattern_text(agent_pattern);
        let mut rest = self.groups;
        let mut rev: Vec<(BenchModelKey, Vec<ScoredBench>)> = Vec::new();
        while rest.len() > 0
            invariant
                all == rest@ + rev@.reverse(),
            decreases rest.len(),
        {
            let ghost before = rest@;
            let ghost rv = rev@;
            let p = rest.pop().unwrap();
            rev.push(p);
            assert(rev@.reverse() =~= seq![p] + rv.reverse());
            assert(before =~= rest@.push(p));
        }
        assert(all =~= rev@.reverse());
        let mut kept: Vec<(BenchModelKey, Vec<ScoredBench>)> = Vec::new();
        let ghost mut done: Seq<(BenchModelKey, Vec<ScoredBench>)> = Seq::empty();
        while rev.len() > 0
            invariant
                all == done + rev@.reverse(),
                ap == pattern_text(agent_pattern),
                kept@ == shown_groups(done, filter@, bench_patterns@, ap, show_bare),
            decreases rev.len(),
        {
            let ghost rv = rev@;
            let g = rev.pop().unwrap();
            assert(rv.reverse() =~= seq![g] + rev@.reverse());
            let ghost next = done.push(g);
            assert(next.drop_last() =~= done);
            let shown = model_selected(&g.0.model_id, filter) && keep_score_key(
                &g.0.bench_id,
                bench_patterns,
                agent_pattern,
                show_bare,
            );
            if shown {
                kept.push(g);
            }
            proof {
                done = next;
            }
        }
        assert(all =~= done);
        proof {
            lemma_shown_well_formed(all, filter@, bench_patterns@, ap, show_bare);
        }
        Scores { groups: kept }
    }
}

// ── Checking that a result can be scored ────────────────────────────────────

/// Whether every step of the running total of `m` over `responses` fits
/// its counter.
pub fn running_total_fits_check(responses: &Vec<ResponseSummary>, m: Meter) -> (r: bool)
    ensures
        r == running_total_fits(responses@, m),
{
    let limit: u128 = match m {
        Meter::Cost => u64::MAX as u128,
        _ => u32::MAX as u128,
    };
    let mut acc: u128 = 0;
    let mut i: usize = 0;
    assert(responses@.take(0) =~= Seq::<ResponseSummary>::empty());
    while i < responses.len()
        invariant
            i <= responses@.len(),
            limit == meter_limit(m),
            acc == running_total(responses@.take(i as int), m),
            forall|k: int| 0 <= k <= i ==> #[trigger] running_total(responses@.take(k), m) <= meter_limit(m),
        decreases responses.len() - i,
    {
        assert(responses@.take(i as int + 1).drop_last() =~= responses@.take(i as int));
        match &responses[i].usage {
            Some(u) => {
                acc = acc + amount(u, m) as u128;
            },
            None => {},
        }
        if acc > limit {
            assert(!(running_total(responses@.take(i as int + 1), m) <= meter_limit(m)));
            return false;
        }
        i += 1;
        assert forall|k: int| 0 <= k <= i implies #[trigger] running_total(responses@.take(k), m)
            <= meter_limit(m) by {
            if k == i {
            }
        }
    }
    assert(responses@.take(responses@.len() as int) =~= responses@);
    proof {
        assert forall|k: int| 0 <= k <= responses@.len() implies #[trigger] running_total(
            responses@.take(k),
            m,
        ) <= meter_limit(m) by {}
    }
    true
}

/// Whether a result can be scored: a lone choice is a chat choice, and no
/// running total of its usage overflows.
pub fn result_scorable(r: &BenchResult) -> (b: bool)
    ensures
        b == scorable(*r),
{
    let choices = collect_choices(&r.responses);
    let lone_ok = if choices.len() == 1 {
        match &choices[0] {
            Choice::NonStreaming { .. } => true,
            Choice::Other => false,
        }
    } else {
        true
    };
    lone_ok && running_total_fits_check(&r.responses, Meter::Cost) && running_total_fits_check(
        &r.responses,
        Meter::PromptTokens,
    ) && running_total_fits_check(&r.responses, Meter::CompletionTokens)
        && running_total_fits_check(&r.responses, Meter::ReasoningTokens)
}

// ── Laws of the show filter ─────────────────────────────────────────────────

proof fn lemma_shown_all_kept(
    gs: Seq<(BenchModelKey, Vec<ScoredBench>)>,
    filter: Seq<ModelId>,
    bench_patterns: Seq<String>,
    agent_pattern: Option<Seq<char>>,
    show_bare: bool,
)
    requires
        forall|g: int|
            0 <= g < gs.len() ==> key_shown(
                (#[trigger] gs[g]).0@,
                filter,
                bench_patterns,
                agent_pattern,
                show_bare,
            ),
    ensures
        shown_groups(gs, filter, bench_patterns, agent_pattern, show_bare) == gs,
    decreases gs.len(),
{
    if gs.len() > 0 {
        lemma_shown_all_kept(gs.drop_last(), filter, bench_patterns, agent_pattern, show_bare);
        assert(gs.drop_last().push(gs.last()) =~= gs);
    }
}

proof fn lemma_shown_keys(
    gs: Seq<(BenchModelKey, Vec<ScoredBench>)>,
    filter: Seq<ModelId>,
    bench_patterns: Seq<String>,
    agent_pattern: Option<Seq<char>>,
    show_bare: bool,
)
    ensures
        forall|g: int|
            0 <= g < shown_groups(gs, filter, bench_patterns, agent_pattern, show_bare).len()
                ==> key_shown(
                (#[trigger] shown_groups(gs, filter, bench_patterns, agent_pattern, show_bare)[g]).0@,
                filter,
                bench_patterns,
                agent_pattern,
                show_bare,
            ),
    decreases gs.len(),
{
    if gs.len() > 0 {
        lemma_shown_keys(gs.drop_last(), filter, bench_patterns, agent_pattern, show_bare);
        let rest = shown_groups(gs.drop_last(), filter, bench_patterns, agent_pattern, show_bare);
        let all = shown_groups(gs, filter, bench_patterns, agent_pattern, show_bare);
        assert forall|g: int| 0 <= g < all.len() implies key_shown(
            (#[trigger] all[g]).0@,
            filter,
            bench_patterns,
            agent_pattern,
            show_bare,
        ) by {
            if g < rest.len() {
                assert(all[g] == rest[g]);
            }
        }
    }
}

/// Filtering what an evaluation shows twice shows the same as once.
pub proof fn lemma_shown_idempotent(
    gs: Seq<(BenchModelKey, Vec<ScoredBench>)>,
    filter: Seq<ModelId>,
    bench_patterns: Seq<String>,
    agent_pattern: Option<Seq<char>>,
    show_bare: bool,
)
    ensures
        shown_groups(
            shown_groups(gs, filter, bench_patterns, agent_pattern, show_bare),
            filter,
            bench_patterns,
            agent_pattern,
            show_bare,
        ) == shown_groups(gs, filter, bench_patterns, agent_pattern, show_bare),
{
    lemma_shown_keys(gs, filter, bench_patterns, agent_pattern, show_bare);
    lemma_shown_all_kept(
        shown_groups(gs, filter, bench_patterns, agent_pattern, show_bare),
        filter,
        bench_patterns,
        agent_pattern,
        show_bare,
    );
}

/// Without a model filter, bench patterns or agent pattern, an evaluation
/// shows every result.
pub proof fn lemma_shown_unfiltered(gs: Seq<(BenchModelKey, Vec<ScoredBench>)>, show_bare: bool)
    ensures
        shown_groups(gs, Seq::empty(), Seq::empty(), None, show_bare) == gs,
{
    lemma_shown_all_kept(gs, Seq::empty(), Seq::empty(), None, show_bare);
}

// ── Conservation of results by grouping ─────────────────────────────────────

/// Total number of results over groups.
pub open spec fn groups_size(gs: Seq<(BenchModelKey, Vec<ScoredBench>)>) -> nat
    decreases gs.len(),
{
    if gs.len() == 0 {
        0
    } else {
        groups_size(gs.drop_last()) + gs.last().1@.len()
    }
}

/// Sum over keys `ks` of the number of results of `bs` with each key.
spec fn keyed_size(bs: Seq<ScoredBench>, ks: Seq<(Seq<char>, Seq<char>)>) -> nat
    decreases ks.len(),
{
    if ks.len() == 0 {
        0
    } else {
        keyed_size(bs, ks.drop_last()) + with_key(bs, ks.last()).len()
    }
}

/// Adding a result adds one to the sum over keys when exactly one key is
/// its key.
proof fn lemma_keyed_size_push(bs: Seq<ScoredBench>, b: ScoredBench, ks: Seq<(Seq<char>, Seq<char>)>)
    requires
        forall|x: int, y: int| 0 <= x < y < ks.len() ==> ks[x] != ks[y],
    ensures
        keyed_size(bs.push(b), ks) == keyed_size(bs, ks) + if ks.contains(key_of(b)) {
            1nat
        } else {
            0nat
        },
    decreases ks.len(),
{
    assert(bs.push(b).drop_last() =~= bs);
    if ks.len() > 0 {
        let d = ks.drop_last();
        assert forall|x: int, y: int| 0 <= x < y < d.len() implies d[x] != d[y] by {
            assert(d[x] == ks[x] && d[y] == ks[y]);
        }
        lemma_keyed_size_push(bs, b, d);
        if ks.last() == key_of(b) {
            assert(ks.contains(key_of(b)));
            assert(!d.contains(key_of(b))) by {
                if d.contains(key_of(b)) {
                    let x = choose|x: int| 0 <= x < d.len() && d[x] == key_of(b);
                    assert(ks[x] == ks[ks.len() - 1]);
                }
            }
        } else {
            if ks.contains(key_of(b)) {
                let x = choose|x: int| 0 <= x < ks.len() && ks[x] == key_of(b);
                assert(d[x] == key_of(b));
            }
            if d.contains(key_of(b)) {
                let x = choose|x: int| 0 <= x < d.len() && d[x] == key_of(b);
                assert(ks[x] == key_of(b));
            }
        }
    }
}

/// Sum over distinct keys covering `bs` of the results with each key is the
/// number of results.
proof fn lemma_keyed_size(bs: Seq<ScoredBench>, ks: Seq<(Seq<char>, Seq<char>)>)
    requires
        forall|x: int, y: int| 0 <= x < y < ks.len() ==> ks[x] != ks[y],
        forall|i: int| 0 <= i < bs.len() ==> ks.contains(key_of(#[trigger] bs[i])),
    ensures
        keyed_size(bs, ks) == bs.len(),
    decreases bs.len(),
{
    if bs.len() == 0 {
        lemma_keyed_size_empty(ks);
        assert(bs =~= Seq::<ScoredBench>::empty());
    } else {
        let d = bs.drop_last();
        let b = bs[bs.len() - 1];
        assert forall|i: int| 0 <= i < d.len() implies ks.contains(key_of(#[trigger] d[i])) by {
            assert(d[i] == bs[i]);
        }
        lemma_keyed_size(d, ks);
        assert(d.push(b) =~= bs);
        lemma_keyed_size_push(d, b, ks);
        assert(ks.contains(key_of(b)));
        assert(keyed_size(bs, ks) == keyed_size(d.push(b), ks));
    }
}

proof fn lemma_keyed_size_empty(ks: Seq<(Seq<char>, Seq<char>)>)
    ensures
        keyed_size(Seq::empty(), ks) == 0,
    decreases ks.len(),
{
    if ks.len() > 0 {
        lemma_keyed_size_empty(ks.drop_last());
    }
}

proof fn lemma_groups_size_keyed(gs: Seq<(BenchModelKey, Vec<ScoredBench>)>, bs: Seq<ScoredBench>)
    requires
        forall|g: int| 0 <= g < gs.len() ==> (#[trigger] gs[g]).1@ == with_key(bs, gs[g].0@),
    ensures
        groups_size(gs) == keyed_size(bs, group_keys(gs)),
    decreases gs.len(),
{
    if gs.len() > 0 {
        let d = gs.drop_last();
        assert forall|g: int| 0 <= g < d.len() implies (#[trigger] d[g]).1@ == with_key(bs, d[g].0@) by {
            assert(d[g] == gs[g]);
        }
        lemma_groups_size_keyed(d, bs);
        assert(group_keys(gs).drop_last() =~= group_keys(d));
        assert(gs[gs.len() - 1].1@ == with_key(bs, gs[gs.len() - 1].0@));
    }
}

/// Grouping loses and duplicates no result: the groups hold as many results
/// as were grouped.
pub proof fn lemma_groups_conserve(gs: Seq<(BenchModelKey, Vec<ScoredBench>)>, bs: Seq<ScoredBench>)
    requires
        groups_of(gs, bs),
    ensures
        groups_size(gs) == bs.len(),
{
    lemma_groups_size_keyed(gs, bs);
    let ks = group_keys(gs);
    assert forall|x: int, y: int| 0 <= x < y < ks.len() implies ks[x] != ks[y] by {
        assert(ks[x] == gs[x].0@ && ks[y] == gs[y].0@);
    }
    lemma_keyed_size(bs, ks);
}

// ── Collections of stored results and responses ────────────────────────────

/// Every stored bench result, in file order.
pub struct AllBenchResults {
    pub inner: Vec<BenchResult>,
}

impl AllBenchResults {
    /// The results, in order.
    pub fn iter(&self) -> (r: &[BenchResult])
        ensures
            r@ == self.inner@,
    {
        self.inner.as_slice()
    }

    /// Number of results.
    pub fn len(&self) -> (r: usize)
        ensures
            r == self.inner@.len(),
    {
        self.inner.len()
    }

    /// Appends results.
    pub fn extend(&mut self, more: Vec<BenchResult>)
        ensures
            final(self).inner@ == old(self).inner@ + more@,
    {
        let mut more = more;
        self.inner.append(&mut more);
    }

    /// The results, taken out.
    pub fn into_vec(self) -> (r: Vec<BenchResult>)
        ensures
            r@ == self.inner@,
    {
        self.inner
    }
}

/// Every stored completion response, in file order.
pub struct AllResponses {
    pub inner: Vec<ResponseSummary>,
}

impl AllResponses {
    /// The responses, in order.
    pub fn iter(&self) -> (r: &[ResponseSummary])
        ensures
            r@ == self.inner@,
    {
        self.inner.as_slice()
    }

    /// Number of responses.
    pub fn len(&self) -> (r: usize)
        ensures
            r == self.inner@.len(),
    {
        self.inner.len()
    }

    /// Appends responses.
    pub fn extend(&mut self, more: Vec<ResponseSummary>)
        ensures
            final(self).inner@ == old(self).inner@ + more@,
    {
        let mut more = more;
        self.inner.append(&mut more);
    }
}

} // verus!
