//! Which scored results an evaluation shows, and which stored results a
//! reset keeps.
use crate::bench_id::{
    agent_split, lemma_agent_split_parts, lemma_split_with_agent, split_agent_suffix, with_agent_text,
    BenchId,
};
use crate::glob_pattern::{matches_pattern, pattern_accepts};
use crate::model::{ModelId, SelectedModels};
use crate::text::{has_char, is_substring, str_eq};
use vstd::prelude::*;

verus! {

/// Some pattern of `patterns` accepts `s`.
pub open spec fn any_pattern_accepts(patterns: Seq<String>, s: Seq<char>) -> bool {
    exists|i: int| 0 <= i < patterns.len() && pattern_accepts((#[trigger] patterns[i])@, s)
}

/// Whether a result of bench `id` is shown. The base bench (without agent
/// suffix) must match one of the bench patterns, when any are given. With an
/// agent pattern, results with an agent must match it and results without
/// one are shown only when bare results are; without an agent pattern every
/// result is shown.
pub open spec fn shows_bench(
    id: Seq<char>,
    bench_patterns: Seq<String>,
    agent_pattern: Option<Seq<char>>,
    show_bare: bool,
) -> bool {
    let (base, agent) = agent_split(id);
    &&& (bench_patterns.len() == 0 || any_pattern_accepts(bench_patterns, base))
    &&& match (agent_pattern, agent) {
        (None, _) => true,
        (Some(_), None) => show_bare,
        (Some(p), Some(a)) => pattern_accepts(p, a),
    }
}

/// A result of bench `base` run with agent `agent` is shown exactly when
/// the bench patterns (if any) accept the base bench, not the composed
/// identifier, and the agent pattern (if any) accepts the agent.
pub proof fn lemma_agent_result_shown(
    base: Seq<char>,
    agent: Seq<char>,
    bench_patterns: Seq<String>,
    agent_pattern: Option<Seq<char>>,
    show_bare: bool,
)
    requires
        !has_char(agent, '+'),
    ensures
        shows_bench(with_agent_text(base, agent), bench_patterns, agent_pattern, show_bare) == ((
        bench_patterns.len() == 0 || exists|i: int|
            0 <= i < bench_patterns.len() && pattern_accepts((#[trigger] bench_patterns[i])@, base))
            && match agent_pattern {
            None => true,
            Some(p) => pattern_accepts(p, agent),
        }),
{
    lemma_split_with_agent(base, agent);
}

/// A result of a bench run without an agent is shown exactly when the bench
/// patterns (if any) accept its identifier and, under an agent pattern,
/// bare results are shown.
pub proof fn lemma_bare_result_shown(
    id: Seq<char>,
    bench_patterns: Seq<String>,
    agent_pattern: Option<Seq<char>>,
    show_bare: bool,
)
    requires
        !has_char(id, '+'),
    ensures
        shows_bench(id, bench_patterns, agent_pattern, show_bare) == ((bench_patterns.len() == 0
            || exists|i: int|
            0 <= i < bench_patterns.len() && pattern_accepts((#[trigger] bench_patterns[i])@, id))
            && (agent_pattern is None || show_bare)),
{
    lemma_agent_split_parts(id);
    match agent_split(id) {
        (b, Some(a)) => {
            assert(with_agent_text(b, a)[b.len() as int] == '+');
            assert(false);
        },
        (b, None) => {},
    }
}

/// Whether some pattern accepts `s`.
fn any_matches(patterns: &Vec<String>, s: &str) -> (r: bool)
    ensures
        r == any_pattern_accepts(patterns@, s@),
{
    let mut i: usize = 0;
    while i < patterns.len()
        invariant
            i <= patterns@.len(),
            forall|k: int| 0 <= k < i ==> !pattern_accepts((#[trigger] patterns@[k])@, s@),
        decreases patterns.len() - i,
    {
        if matches_pattern(s, patterns[i].as_str()) {
            return true;
        }
        i += 1;
    }
    false
}

/// Decides whether the results of bench `id` are shown by an evaluation.
pub fn keep_score_key(
    id: &BenchId,
    bench_patterns: &Vec<String>,
    agent_pattern: Option<&str>,
    show_bare: bool,
) -> (r: bool)
    ensures
        r == shows_bench(
            id.text(),
            bench_patterns@,
            match agent_pattern {
                Some(p) => Some(p@),
                None => None,
            },
            show_bare,
        ),
{
    let (base, agent) = split_agent_suffix(id.as_str());
    if bench_patterns.len() > 0 && !any_matches(bench_patterns, base.as_str()) {
        return false;
    }
    match (agent_pattern, agent) {
        (None, _) => true,
        (Some(_), None) => show_bare,
        (Some(p), Some(a)) => matches_pattern(a.as_str(), p),
    }
}

/// Some model of the filter occurs within `model`.
pub open spec fn filter_hits(filter: Seq<ModelId>, model: Seq<char>) -> bool {
    exists|i: int| 0 <= i < filter.len() && is_substring((#[trigger] filter[i])@, model)
}

/// Whether results of `model` are shown: an empty filter shows every model,
/// otherwise some filter entry must occur within the model identifier.
pub fn model_selected(model: &ModelId, filter: &SelectedModels) -> (r: bool)
    ensures
        r == (filter@.len() == 0 || filter_hits(filter@, model@)),
{
    let fs = filter.iter();
    if fs.len() == 0 {
        return true;
    }
    let mut i: usize = 0;
    while i < fs.len()
        invariant
            fs@ == filter@,
            i <= fs@.len(),
            forall|k: int| 0 <= k < i ==> !is_substring((#[trigger] fs@[k])@, model@),
        decreases fs.len() - i,
    {
        if model.contains(&fs[i]) {
            return true;
        }
        i += 1;
    }
    false
}

/// The positions of the results a reset keeps: those whose base bench
/// (identifier without agent suffix) differs from `target`, in order.
pub open spec fn kept_positions(ids: Seq<BenchId>, target: Seq<char>) -> Seq<usize>
    decreases ids.len(),
{
    if ids.len() == 0 {
        Seq::empty()
    } else {
        let rest = kept_positions(ids.drop_last(), target);
        if agent_split(ids.last().text()).0 != target {
            rest.push((ids.len() - 1) as usize)
        } else {
            rest
        }
    }
}

/// Positions of the stored results that survive deleting every result of
/// bench `target` (with any agent, for any model).
pub fn results_to_keep(ids: &[BenchId], target: &str) -> (r: Vec<usize>)
    ensures
        r@ == kept_positions(ids@, target@),
        r@.len() <= ids@.len(),
{
    let mut kept: Vec<usize> = Vec::new();
    let mut i: usize = 0;
    while i < ids.len()
        invariant
            i <= ids@.len(),
            kept@ == kept_positions(ids@.take(i as int), target@),
            kept@.len() <= i,
        decreases ids.len() - i,
    {
        assert(ids@.take(i as int + 1).drop_last() =~= ids@.take(i as int));
        let (base, _agent) = split_agent_suffix(ids[i].as_str());
        if !str_eq(base.as_str(), target) {
            kept.push(i);
        }
        i += 1;
    }
    assert(ids@.take(ids@.len() as int) =~= ids@);
    kept
}

/// The identifiers at the given positions.
pub open spec fn ids_at(ids: Seq<BenchId>, ps: Seq<usize>) -> Seq<BenchId> {
    ps.map_values(|p: usize| ids[p as int])
}

/// Every position kept is below the number of identifiers, positions
/// increase, and the identifier at each has a base other than `target`.
proof fn lemma_kept_positions(ids: Seq<BenchId>, target: Seq<char>)
    requires
        ids.len() <= usize::MAX,
    ensures
        forall|a: int|
            0 <= a < kept_positions(ids, target).len() ==> (#[trigger] kept_positions(ids, target)[a])
                < ids.len() && agent_split(ids[kept_positions(ids, target)[a] as int].text()).0
                != target,
    decreases ids.len(),
{
    if ids.len() > 0 {
        lemma_kept_positions(ids.drop_last(), target);
        let rest = kept_positions(ids.drop_last(), target);
        assert forall|a: int| 0 <= a < kept_positions(ids, target).len() implies (
        #[trigger] kept_positions(ids, target)[a]) < ids.len() && agent_split(
            ids[kept_positions(ids, target)[a] as int].text(),
        ).0 != target by {
            if a < rest.len() {
                assert(kept_positions(ids, target)[a] == rest[a]);
                assert(ids[rest[a] as int] == ids.drop_last()[rest[a] as int]);
            } else if agent_split(ids.last().text()).0 != target {
                assert(kept_positions(ids, target) == rest.push((ids.len() - 1) as usize));
                assert(kept_positions(ids, target)[a] == ids.len() - 1);
                assert(ids[ids.len() - 1] == ids.last());
            } else {
                assert(kept_positions(ids, target) == rest);
            }
        }
    }
}

proof fn lemma_kept_len(ids: Seq<BenchId>, target: Seq<char>)
    ensures
        kept_positions(ids, target).len() <= ids.len(),
    decreases ids.len(),
{
    if ids.len() > 0 {
        lemma_kept_len(ids.drop_last(), target);
    }
}

/// `kept_positions` of identifiers none of which has base `target` lists
/// every position.
proof fn lemma_kept_all(ids: Seq<BenchId>, target: Seq<char>)
    requires
        ids.len() <= usize::MAX,
        forall|a: int| 0 <= a < ids.len() ==> agent_split((#[trigger] ids[a]).text()).0 != target,
    ensures
        kept_positions(ids, target) == Seq::new(ids.len(), |a: int| a as usize),
    decreases ids.len(),
{
    if ids.len() > 0 {
        lemma_kept_all(ids.drop_last(), target);
        assert(kept_positions(ids, target) =~= Seq::new(ids.len(), |a: int| a as usize));
    }
}

/// Resetting a bench twice removes nothing the second time: the results a
/// reset keeps have no result of the target bench left.
pub proof fn lemma_reset_idempotent(ids: Seq<BenchId>, target: Seq<char>)
    requires
        ids.len() <= usize::MAX,
    ensures
        ({
            let kept = ids_at(ids, kept_positions(ids, target));
            kept_positions(kept, target) == Seq::new(kept.len(), |a: int| a as usize)
        }),
{
    lemma_kept_positions(ids, target);
    lemma_kept_len(ids, target);
    let kept = ids_at(ids, kept_positions(ids, target));
    assert forall|a: int| 0 <= a < kept.len() implies agent_split((#[trigger] kept[a]).text()).0
        != target by {
        assert(kept[a] == ids[kept_positions(ids, target)[a] as int]);
    }
    lemma_kept_all(kept, target);
}

} // verus!
