use std::hash::{Hash, Hasher};
use llmbench::args::{BenchArgs, Command, EvalArgs, ResetArgs};
use llmbench::batch::{BenchCtx, PromptPayloadBatch, RunHash, RunPayload};
use llmbench::bench_id::BenchId;
use llmbench::errors::{
    AllBenchResultsError, AllResponsesError, CompletionError, ErrContext, PromptRequestError, ResultsDumpError,
    RunCompletion, SaveError, Suggestion,
};
use llmbench::evaluate::{
    eval_summary_spam, eval_task_priority, eval_task_priority_cot, eval_task_priority_metaprompt,
    eval_task_priority_naive, eval_task_priority_promptception, eval_task_priority_recheck, make_evaluator, Choice,
    GetMessageExt,
};
use llmbench::formatter::SortColumn;
use llmbench::model::{ModelId, SelectedModels};

fn msg(s: &str) -> Choice {
    Choice::NonStreaming { content: Some(s.to_string()) }
}

fn models() -> SelectedModels {
    SelectedModels::from_vec(vec![ModelId("m1".to_string()), ModelId("m2".to_string())])
}

fn benches() -> Vec<BenchId> {
    vec![BenchId("a/x".to_string()), BenchId("b/y".to_string()), BenchId("c/z".to_string())]
}

#[test]
fn batch_has_every_model_bench_and_run() {
    let batch = PromptPayloadBatch::new(&models(), &benches(), 4);
    assert_eq!(batch.len(), 2 * 3 * 4);
    let first = &batch.iter()[0];
    assert_eq!((first.ctx.model.as_str(), first.bench.as_str(), first.ctx.run_number), ("m1", "a/x", 0));
    let last = &batch.iter()[23];
    assert_eq!((last.ctx.model.as_str(), last.bench.as_str(), last.ctx.run_number), ("m2", "c/z", 3));
    assert!(batch.iter().iter().all(|p| p.ctx.run_hash == RunHash(0)));
}

#[test]
fn run_hash_depends_on_the_run() {
    let p = |run: u32, model: &str, bench: &str| RunPayload {
        ctx: BenchCtx { run_number: run, model: ModelId(model.to_string()), run_hash: RunHash(0) },
        bench: BenchId(bench.to_string()),
    };
    assert_eq!(p(0, "m", "a/b").get_run_hash(), p(0, "m", "a/b").get_run_hash());
    assert_ne!(p(0, "m", "a/b").get_run_hash(), p(1, "m", "a/b").get_run_hash());
    assert_ne!(p(0, "m", "a/b").get_run_hash(), p(0, "n", "a/b").get_run_hash());
    assert_ne!(p(0, "m", "a/b").get_run_hash(), p(0, "m", "a/c").get_run_hash());
}

#[test]
fn run_hash_digests_the_run_bytes() {
    let payload = RunPayload {
        ctx: BenchCtx { run_number: 3, model: ModelId("openai/gpt-4o".to_string()), run_hash: RunHash(9) },
        bench: BenchId("logic/seating".to_string()),
    };
    let mut bytes: Vec<u8> = 3u32.to_ne_bytes().to_vec();
    bytes.extend_from_slice(b"openai/gpt-4o\xff");
    bytes.extend_from_slice(&9u64.to_ne_bytes());
    bytes.extend_from_slice(b"logic/seating\xff");
    let expected = twox_hash::XxHash3_64::oneshot_with_seed(1337, &bytes);
    assert_eq!(payload.get_run_hash(), RunHash(expected));
    // the same digest as feeding the fields through `Hash`
    let mut hasher = twox_hash::XxHash3_64::with_seed(1337);
    3u32.hash(&mut hasher);
    "openai/gpt-4o".to_string().hash(&mut hasher);
    9u64.hash(&mut hasher);
    "logic/seating".to_string().hash(&mut hasher);
    assert_eq!(hasher.finish(), expected);
}

#[test]
fn run_hash_in_each_byte_order() {
    let payload = RunPayload {
        ctx: BenchCtx { run_number: 3, model: ModelId("m".to_string()), run_hash: RunHash(9) },
        bench: BenchId("a/b".to_string()),
    };
    let bytes = |big: bool| {
        let mut b: Vec<u8> = if big { 3u32.to_be_bytes().to_vec() } else { 3u32.to_le_bytes().to_vec() };
        b.extend_from_slice(b"m\xff");
        b.extend_from_slice(&if big { 9u64.to_be_bytes() } else { 9u64.to_le_bytes() });
        b.extend_from_slice(b"a/b\xff");
        b
    };
    assert_eq!(payload.run_hash_in(false), RunHash(twox_hash::XxHash3_64::oneshot_with_seed(1337, &bytes(false))));
    assert_eq!(payload.run_hash_in(true), RunHash(twox_hash::XxHash3_64::oneshot_with_seed(1337, &bytes(true))));
    let native_big = u32::from_ne_bytes([0, 0, 0, 1]) == 1;
    assert_eq!(payload.get_run_hash(), payload.run_hash_in(native_big));
}

#[test]
fn filtering_done_runs_twice_removes_nothing_more() {
    let mut batch = PromptPayloadBatch::new(&models(), &benches(), 2);
    let done: Vec<RunHash> = vec![batch.iter()[1].run_hash_in(false), batch.iter()[4].run_hash_in(false)];
    batch.filter_runs_in(&done, false);
    assert_eq!(batch.len(), 10);
    batch.filter_runs_in(&done, false);
    assert_eq!(batch.len(), 10);
}

#[test]
fn completed_runs_are_not_run_again() {
    let mut batch = PromptPayloadBatch::new(&models(), &benches(), 2);
    let done: Vec<RunHash> = vec![batch.iter()[0].get_run_hash(), batch.iter()[7].get_run_hash()];
    batch.filter_old_runs(&done);
    assert_eq!(batch.len(), 10);
    assert!(batch.iter().iter().all(|p| !done.contains(&p.get_run_hash())));
    let before = batch.len();
    batch.filter_old_runs(&done);
    assert_eq!(batch.len(), before);
}

#[test]
fn split_by_models_keeps_every_run() {
    let batch = PromptPayloadBatch::new(&models(), &benches(), 2);
    let split = batch.split_by_models();
    assert_eq!(split.len(), 2);
    assert_eq!(split[0].0.as_str(), "m1");
    assert_eq!(split[1].0.as_str(), "m2");
    assert_eq!(split[0].1.len() + split[1].1.len(), 12);
    assert!(split[1].1.iter().all(|p| p.ctx.model.as_str() == "m2"));
}

#[test]
fn evaluator_compares_normalised_answers() {
    let e = make_evaluator("Pick a game engine!");
    assert_eq!(e.expected, "pick a game engine");
    assert!(e.eval(&[msg("<|box|> PICK a game engine. ")]));
    assert!(!e.eval(&[msg("pick an engine")]));
    assert!(!e.eval(&[msg("pick a game engine"), msg("pick a game engine")]));
    assert!(!e.eval(&[Choice::NonStreaming { content: None }]));
    assert!(!e.eval(&[]));
}

#[test]
fn message_of_a_choice() {
    assert_eq!(msg("hi").get_message().as_deref(), Some("hi"));
    assert_eq!(Choice::NonStreaming { content: None }.get_message(), None);
}

#[test]
fn task_priority_evaluators() {
    assert!(eval_task_priority_cot(&[msg("Pick a game engine.")]));
    assert!(!eval_task_priority_cot(&[msg("Loss conditions")]));
    assert!(eval_task_priority_metaprompt(&[msg("anything"), msg("<|x|>pick a GAME engine")]));
    assert!(!eval_task_priority_metaprompt(&[msg("pick a game engine")]));
    assert!(eval_task_priority_naive(&[msg("  Pick a game engine ")]));
    assert!(eval_task_priority_recheck(&[msg("Pick a game engine"), msg("Yes.")]));
    assert!(!eval_task_priority_recheck(&[msg("Pick a game engine"), msg("No")]));
    assert!(eval_task_priority(&[msg("Pick a Game Engine")]));
    assert!(!eval_task_priority(&[msg("Pick a game engine.")]));
    let _ = eval_task_priority_promptception(&[msg("a"), msg("Pick a game engine")]);
    let _ = eval_summary_spam(&[msg("a")]);
}

#[test]
fn error_messages() {
    assert_eq!(AllBenchResultsError.message(), "an AllBenchResultsError error occurred");
    assert_eq!(AllResponsesError.message(), "an AllResponsesError error occurred");
    assert_eq!(RunCompletion.message(), "a RunCompletion occurred");
    assert_eq!(CompletionError.message(), "a RunCompletion occurred");
    assert_eq!(SaveError.message(), "a SaveError occurred");
    assert_eq!(PromptRequestError.message(), "prompt request error");
    assert_eq!(ResultsDumpError.message(), "a ResultsDump error occurred");
    let s = Suggestion("make sure the bench exists");
    assert_eq!(s.message(), "make sure the bench exists");
    assert_eq!(s.report_line(), "suggestion: make sure the bench exists");
    let c = ErrContext::new("input 'x'".to_string());
    assert_eq!(c.message(), "input 'x'");
    assert_eq!(c.report_line(), "context: input 'x'");
}

#[test]
fn eval_arguments() {
    let args = EvalArgs {
        benches: vec![],
        models: vec![],
        model_groups: vec![],
        sort: SortColumn::Bench,
        condensed: false,
        agents: None,
        no_bare: true,
        prompts_dir: None,
    };
    assert_eq!(args.discovery_patterns(), vec!["*".to_string()]);
    assert!(!args.show_bare());
    assert_eq!(args.prompts_dir_or_default(), "src/prompts");
    let args = EvalArgs { benches: vec!["a/*".to_string()], prompts_dir: Some("p".to_string()), ..args };
    assert_eq!(args.discovery_patterns(), vec!["a/*".to_string()]);
    assert_eq!(args.prompts_dir_or_default(), "p");
    let cmd = Command::Bench(BenchArgs { benches: vec![], models: vec![], model_groups: vec![], api_key: None, n_runs: 3, agents: None });
    assert!(matches!(cmd, Command::Bench(BenchArgs { n_runs: 3, .. })));
    let reset = Command::Reset(ResetArgs { bench: BenchId("a/b".to_string()) });
    assert!(matches!(reset, Command::Reset(ResetArgs { .. })));
}
