use llmbench::aggregate::{AggregatedScores, EntryAgg};
use llmbench::batch::RunHash;
use llmbench::bench_id::BenchId;
use llmbench::composable::{build_evaluators, DiscoveredBench};
use llmbench::evaluate::{make_evaluator, Choice, Evaluator};
use llmbench::model::{ModelId, SelectedModels};
use llmbench::score::{
    find_evaluator, meter_total, result_scorable, score_responses, BenchModelKey, BenchResult, Meter,
    ResponseSummary, Score, Scores, ScoredBench, Usage,
};

fn usage(p: u32, c: u32, r: Option<u32>, cost: Option<u32>) -> Usage {
    Usage { prompt_tokens: p, completion_tokens: c, reasoning_tokens: r, cost }
}

fn answer(text: &str, u: Option<Usage>) -> ResponseSummary {
    ResponseSummary { choices: vec![Choice::NonStreaming { content: Some(text.to_string()) }], usage: u }
}

fn result(bench: &str, model: &str, responses: Vec<ResponseSummary>) -> BenchResult {
    BenchResult { hash: RunHash(0), bench: BenchId(bench.to_string()), model: ModelId(model.to_string()), responses }
}

fn scored(bench: &str, model: &str, passed: bool, responses: Vec<ResponseSummary>) -> ScoredBench {
    let mut score = Score::fail();
    score.passed = passed;
    ScoredBench { result: result(bench, model, responses), score }
}

#[test]
fn score_constructors() {
    let f = Score::fail();
    assert!(!f.passed);
    assert_eq!((f.cost, f.prompt_tokens, f.completion_tokens, f.reasoning_tokens), (0, 0, 0, 0));
    assert!(Score::pass().passed);
}

#[test]
fn a_response_without_usage_adds_nothing() {
    let rs = vec![
        answer("a", Some(usage(10, 1, None, Some(5)))),
        answer("b", None),
        answer("c", Some(usage(7, 2, Some(3), None))),
        answer("d", Some(usage(1, 1, Some(1), Some(2)))),
    ];
    assert_eq!(meter_total(&rs, Meter::PromptTokens), 18);
    assert_eq!(meter_total(&rs, Meter::CompletionTokens), 4);
    assert_eq!(meter_total(&rs, Meter::ReasoningTokens), 4);
    assert_eq!(meter_total(&rs, Meter::Cost), 7);
    let ends_bare = vec![answer("a", Some(usage(10, 1, None, Some(5)))), answer("b", None)];
    assert_eq!(meter_total(&ends_bare, Meter::PromptTokens), 10);
    assert_eq!(meter_total(&ends_bare, Meter::Cost), 5);
}

#[test]
fn last_evaluator_of_an_identifier_wins() {
    let evals: Vec<(BenchId, Evaluator)> = vec![
        (BenchId("a/x".to_string()), make_evaluator("one")),
        (BenchId("b/y".to_string()), make_evaluator("two")),
        (BenchId("a/x".to_string()), make_evaluator("three")),
    ];
    assert_eq!(find_evaluator(&evals, &BenchId("a/x".to_string())), Some(2));
    assert_eq!(find_evaluator(&evals, &BenchId("b/y".to_string())), Some(1));
    assert_eq!(find_evaluator(&evals, &BenchId("c/z".to_string())), None);
}

#[test]
fn scores_results_that_have_an_evaluator() {
    let benches = vec![DiscoveredBench { id: "a/x".to_string(), expected: "Pick a game engine".to_string(), prompt: String::new() }];
    let evals = build_evaluators(&benches, &[("m".to_string(), String::new())]);
    let results = vec![
        result("a/x", "openai/gpt", vec![answer("<|box|>pick a GAME engine.", Some(usage(3, 4, None, Some(1))))]),
        result("a/x+m", "openai/gpt", vec![answer("no idea", Some(usage(1, 1, None, None)))]),
        result("z/z", "openai/gpt", vec![answer("x", None)]),
        result("a/x", "openai/gpt", vec![answer("Pick a game engine", None)]),
        result("a/x", "x-ai/grok", vec![answer("a", None), answer("b", None)]),
    ];
    let scores = score_responses(results, &evals);
    let groups = scores.iter();
    assert_eq!(groups.len(), 3);
    assert_eq!(groups[0].0.bench_id.as_str(), "a/x");
    assert_eq!(groups[0].0.model_id.as_str(), "openai/gpt");
    assert_eq!(groups[0].1.len(), 2);
    assert!(groups[0].1[0].score.passed);
    assert_eq!(groups[0].1[0].score.prompt_tokens, 3);
    assert_eq!(groups[0].1[0].score.cost, 1);
    assert!(groups[0].1[1].score.passed);
    assert_eq!(groups[1].0.bench_id.as_str(), "a/x+m");
    assert!(!groups[1].1[0].score.passed);
    assert_eq!(groups[2].0.model_id.as_str(), "x-ai/grok");
    assert!(!groups[2].1[0].score.passed);
    let total: usize = groups.iter().map(|g| g.1.len()).sum();
    assert_eq!(total, 4);
}

#[test]
fn a_lone_streaming_choice_cannot_be_scored() {
    let r = result("a/x", "m", vec![ResponseSummary { choices: vec![Choice::Other], usage: None }]);
    assert!(!result_scorable(&r));
    let two = result("a/x", "m", vec![ResponseSummary { choices: vec![Choice::Other, Choice::Other], usage: None }]);
    assert!(result_scorable(&two));
    let overflow = result("a/x", "m", vec![answer("a", Some(usage(u32::MAX, 0, None, None))), answer("b", Some(usage(1, 0, None, None)))]);
    assert!(!result_scorable(&overflow));
    let gap = result("a/x", "m", vec![answer("a", Some(usage(u32::MAX, 0, None, None))), answer("b", None), answer("c", Some(usage(1, 0, None, None)))]);
    assert!(!result_scorable(&gap));
}

fn sample_scores() -> Scores {
    Scores::from_scored(vec![
        scored("a/x", "m1", true, vec![answer("", Some(usage(10, 2, Some(1), Some(100))))]),
        scored("a/x+ag", "m1", false, vec![answer("", Some(usage(20, 3, None, Some(300))))]),
        scored("a/x", "m1", false, vec![answer("", Some(usage(5, 1, None, Some(100)))), answer("", None)]),
        scored("b/y", "m2", true, vec![answer("", Some(usage(1, 1, None, None)))]),
        scored("a/x+ag", "m2", true, vec![answer("", Some(usage(2, 2, Some(2), Some(7))))]),
        scored("a/x+zz", "m1", true, vec![]),
    ])
}

#[test]
fn grouping_keeps_every_result() {
    let scores = sample_scores();
    let sizes: Vec<usize> = scores.iter().iter().map(|g| g.1.len()).collect();
    assert_eq!(sizes, vec![2, 1, 1, 1, 1]);
    assert_eq!(sizes.iter().sum::<usize>(), 6);
    let key = BenchModelKey { bench_id: BenchId("a/x".to_string()), model_id: ModelId("m1".to_string()) };
    assert_eq!(scores.get(&key).map(|v| v.len()), Some(2));
    let missing = BenchModelKey { bench_id: BenchId("a/x".to_string()), model_id: ModelId("m9".to_string()) };
    assert!(scores.get(&missing).is_none());
}

#[test]
fn show_filter_by_model_bench_and_agent() {
    let only_m1 = SelectedModels::from_vec(vec![ModelId("m1".to_string())]);
    let shown = sample_scores().retain_shown(&only_m1, &vec![], Some("ag"), false);
    let keys: Vec<(&str, &str)> = shown.iter().iter().map(|g| (g.0.bench_id.as_str(), g.0.model_id.as_str())).collect();
    assert_eq!(keys, vec![("a/x+ag", "m1")]);
    let all = sample_scores().retain_shown(&SelectedModels::from_vec(vec![]), &vec![], None, true);
    assert_eq!(all.len(), 5);
    let twice = sample_scores()
        .retain_shown(&only_m1, &vec!["a/*".to_string()], None, true)
        .retain_shown(&only_m1, &vec!["a/*".to_string()], None, true);
    assert_eq!(twice.len(), 3);
}

#[test]
fn aggregates_each_bench_and_model() {
    let scores = sample_scores();
    let agg = AggregatedScores::build(&scores);
    let e = agg.iter()[0].1;
    assert_eq!(e, EntryAgg { prompt_tokens: 15, completion_tokens: 3, reasoning_tokens: 1, cost: 200, passed: 1, runs: 2 });
    let key = BenchModelKey { bench_id: BenchId("b/y".to_string()), model_id: ModelId("m2".to_string()) };
    assert_eq!(agg.for_key(&key).runs, 1);
    let missing = BenchModelKey { bench_id: BenchId("q/q".to_string()), model_id: ModelId("m2".to_string()) };
    assert_eq!(agg.for_key(&missing), EntryAgg::default());
    assert_eq!(agg.baseline("a/x", "m1").map(|b| b.cost), Some(200));
    assert!(agg.baseline("a/x", "m2").is_none());
    for (_, e) in agg.iter() {
        assert!(e.passed <= e.runs);
    }
}

#[test]
fn per_agent_totals_sorted_and_adding_up() {
    let scores = sample_scores();
    let agg = AggregatedScores::build(&scores);
    assert!(agg.label_totals_fit());
    let groups = agg.per_agent_totals();
    let labels: Vec<String> = groups.iter().map(|g| g.display_label()).collect();
    assert_eq!(labels, vec!["(baseline)", "ag", "zz"]);
    assert_eq!(groups[0].totals.runs, 3);
    assert_eq!(groups[0].totals.passed, 2);
    assert_eq!(groups[1].totals.prompt_tokens, 22);
    assert_eq!(groups[1].cost_diffs.len(), 1);
    let c = groups[1].cost_diffs[0];
    assert_eq!((c.cost, c.runs, c.baseline_cost, c.baseline_runs), (300, 1, 200, 2));
    let grand = agg.grand_totals();
    let runs: usize = groups.iter().map(|g| g.totals.runs).sum();
    let cost: u64 = groups.iter().map(|g| g.totals.cost).sum();
    let prompt: u32 = groups.iter().map(|g| g.totals.prompt_tokens).sum();
    assert_eq!((runs, cost, prompt), (grand.runs, grand.cost, grand.prompt_tokens));
    assert_eq!(grand.runs, 6);
}

#[test]
fn stored_collections() {
    let mut all = llmbench::score::AllBenchResults { inner: vec![result("a/x", "m", vec![])] };
    all.extend(vec![result("b/y", "m", vec![]), result("c/z", "m", vec![])]);
    assert_eq!(all.len(), 3);
    assert_eq!(all.iter()[2].bench.as_str(), "c/z");
    assert_eq!(all.into_vec().len(), 3);
    let mut responses = llmbench::score::AllResponses { inner: vec![] };
    responses.extend(vec![answer("x", None)]);
    assert_eq!(responses.len(), 1);
    assert!(responses.iter()[0].usage.is_none());
}
