use llmbench::cli::{get_api_key, select_and_validate_models, select_models, CliErrorKind};
use llmbench::filter::{keep_score_key, model_selected, results_to_keep};
use llmbench::bench_id::BenchId;
use llmbench::model::{ModelGroup, ModelId, Models, SelectedModels};

fn mid(s: &str) -> ModelId {
    ModelId(s.to_string())
}

fn config() -> Models {
    Models::new(
        vec![mid("openai/gpt-4o"), mid("x-ai/grok-4")],
        vec![
            ModelGroup { name: "cheap".to_string(), models: vec![mid("google/flash"), mid("meta/llama")] },
            ModelGroup { name: "big".to_string(), models: vec![mid("openai/gpt-5")] },
        ],
    )
    .unwrap()
}

#[test]
fn duplicate_group_names_are_refused() {
    let g = || ModelGroup { name: "cheap".to_string(), models: vec![] };
    assert!(Models::new(vec![], vec![g(), g()]).is_none());
}

#[test]
fn selects_all_configured_models_by_default() {
    let sel = select_models(&vec![], &vec![], &config()).ok().unwrap();
    let names: Vec<&str> = sel.iter().iter().map(|m| m.as_str()).collect();
    assert_eq!(names, vec!["openai/gpt-4o", "x-ai/grok-4"]);
}

#[test]
fn selects_given_models() {
    let sel = select_models(&vec![mid("a/b")], &vec![], &config()).ok().unwrap();
    assert_eq!(sel.len(), 1);
    assert_eq!(sel.iter()[0].as_str(), "a/b");
}

#[test]
fn selects_models_of_groups() {
    let sel = select_models(&vec![], &vec!["big".to_string(), "cheap".to_string()], &config()).ok().unwrap();
    let names: Vec<&str> = sel.iter().iter().map(|m| m.as_str()).collect();
    assert_eq!(names, vec!["google/flash", "meta/llama", "openai/gpt-5"]);
}

#[test]
fn reports_every_missing_group() {
    let errs = select_models(&vec![], &vec!["nope".to_string(), "cheap".to_string(), "zip".to_string()], &config())
        .err()
        .unwrap();
    assert_eq!(errs.len(), 2);
    assert_eq!(errs[0].kind, CliErrorKind::GroupNotFound);
    assert_eq!(errs[1].kind, CliErrorKind::GroupNotFound);
}

#[test]
fn no_models_selected_is_an_error() {
    let empty = Models::new(vec![], vec![]).unwrap();
    let errs = select_and_validate_models(&vec![], &vec![], &empty).err().unwrap();
    assert_eq!(errs[0].kind, CliErrorKind::NoModelsSelected);
}

#[test]
fn api_key_from_environment_first() {
    assert_eq!(get_api_key(Some("env".to_string()), Some("arg".to_string())).ok().unwrap(), "env");
    assert_eq!(get_api_key(None, Some("arg".to_string())).ok().unwrap(), "arg");
    let e = get_api_key(None, None).err().unwrap();
    assert_eq!(e.kind, CliErrorKind::MissingApiKey);
}

#[test]
fn model_filter_matches_substrings() {
    let filter = SelectedModels::from_vec(vec![mid("gpt")]);
    assert!(model_selected(&mid("openai/gpt-4o"), &filter));
    assert!(!model_selected(&mid("x-ai/grok-4"), &filter));
    let none = SelectedModels::from_vec(vec![]);
    assert!(model_selected(&mid("x-ai/grok-4"), &none));
}

#[test]
fn shows_bench_by_patterns_and_agent() {
    let id = |s: &str| BenchId(s.to_string());
    let patterns = vec!["logic/*".to_string()];
    assert!(keep_score_key(&id("logic/seating"), &patterns, None, true));
    assert!(!keep_score_key(&id("math/sum"), &patterns, None, true));
    assert!(keep_score_key(&id("logic/seating+forge"), &patterns, Some("forge"), true));
    assert!(!keep_score_key(&id("logic/seating+other"), &patterns, Some("forge"), true));
    assert!(keep_score_key(&id("logic/seating"), &patterns, Some("forge"), true));
    assert!(!keep_score_key(&id("logic/seating"), &patterns, Some("forge"), false));
    assert!(keep_score_key(&id("logic/seating+x"), &vec![], None, false));
}

#[test]
fn reset_keeps_other_benches() {
    let ids: Vec<BenchId> = ["a/b", "a/b+x", "c/d", "a/bc", "a/b+y"].iter().map(|s| BenchId(s.to_string())).collect();
    assert_eq!(results_to_keep(&ids, "a/b"), vec![2, 3]);
}

#[test]
fn reset_twice_keeps_everything_the_second_time() {
    let ids: Vec<BenchId> = ["a/b", "c/d+x", "a/b+x", "e/f"].iter().map(|s| BenchId(s.to_string())).collect();
    let kept: Vec<BenchId> = results_to_keep(&ids, "a/b").into_iter().map(|i| BenchId(ids[i].0.clone())).collect();
    assert_eq!(results_to_keep(&kept, "a/b"), vec![0, 1]);
}

#[test]
fn selected_models_extend_in_order() {
    let mut sel = SelectedModels::from_vec(vec![ModelId("a".to_string())]);
    sel.extend(vec![ModelId("b".to_string()), ModelId("c".to_string())]);
    assert_eq!(sel.len(), 3);
    let names: Vec<&str> = sel.iter().iter().map(|m| m.as_str()).collect();
    assert_eq!(names, vec!["a", "b", "c"]);
    let all = sel.into_vec();
    assert_eq!(all.len(), 3);
}
