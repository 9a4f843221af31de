use llmbench::composable::{
    build_bench_set, build_evaluators, check_discovered, compose_prompt, name_from_path, selected_by,
    sort_dedup_by_id, split_frontmatter, ComposableError, DiscoveredBench,
};

fn bench(id: &str, expected: &str, prompt: &str) -> DiscoveredBench {
    DiscoveredBench { id: id.to_string(), expected: expected.to_string(), prompt: prompt.to_string() }
}

#[test]
fn splits_frontmatter_and_prompt() {
    let (fm, prompt) = split_frontmatter("---\nexpected = \"yes\"\n---\n\nIs it?\n").ok().unwrap();
    assert_eq!(fm, "expected = \"yes\"");
    assert_eq!(prompt, "Is it?\n");
}

#[test]
fn frontmatter_must_open_the_file() {
    assert_eq!(split_frontmatter("expected = 1\n---\nx").err(), Some(ComposableError::Frontmatter));
}

#[test]
fn frontmatter_must_be_closed() {
    assert_eq!(split_frontmatter("---\nexpected = 1\n").err(), Some(ComposableError::Frontmatter));
}

#[test]
fn names_drop_md_suffix() {
    assert_eq!(name_from_path("logic/seating.md"), "logic/seating");
    assert_eq!(name_from_path("notes.md.md"), "notes");
    assert_eq!(name_from_path("readme"), "readme");
}

#[test]
fn no_match_for_a_pattern_is_an_error() {
    assert_eq!(check_discovered(vec![], "logic/*").err(), Some(ComposableError::Discover));
    assert_eq!(check_discovered(vec![], "").ok().map(|v| v.len()), Some(0));
    assert_eq!(check_discovered(vec![bench("a/b", "x", "p")], "a/*").ok().map(|v| v.len()), Some(1));
}

#[test]
fn selects_files_by_pattern() {
    assert!(selected_by("forge-mythos", "forge-*"));
    assert!(!selected_by("other", "forge-*"));
}

#[test]
fn composes_agent_prompt_before_bench_prompt() {
    assert_eq!(compose_prompt(Some("Be brief."), "What?"), "Be brief.\n---\nWhat?");
    assert_eq!(compose_prompt(None, "What?"), "What?");
}

#[test]
fn bench_set_has_baseline_and_agent_variants() {
    let benches = vec![bench("a/x", "Yes", "P1"), bench("b/y", "No", "P2")];
    let agents = vec![("m1".to_string(), "A1".to_string()), ("m2".to_string(), "A2".to_string())];
    let set = build_bench_set(&benches, &agents);
    let ids: Vec<&str> = set.iter().map(|c| c.id.as_str()).collect();
    assert_eq!(ids, vec!["a/x", "a/x+m1", "a/x+m2", "b/y", "b/y+m1", "b/y+m2"]);
    assert_eq!(set[0].prompt, "P1");
    assert_eq!(set[1].prompt, "A1\n---\nP1");
    assert_eq!(set[5].prompt, "A2\n---\nP2");
}

#[test]
fn every_bench_has_its_evaluator() {
    let benches = vec![bench("a/x", "Yes!", "P1"), bench("b/y", "No", "P2")];
    let agents = vec![("m1".to_string(), "A1".to_string())];
    let set = build_bench_set(&benches, &agents);
    let evals = build_evaluators(&benches, &agents);
    assert_eq!(set.len(), evals.len());
    assert_eq!(set.len(), benches.len() * (1 + agents.len()));
    for (c, (id, e)) in set.iter().zip(evals.iter()) {
        assert_eq!(c.id.as_str(), id.as_str());
        assert!(e.expected == "yes" || e.expected == "no");
    }
    assert_eq!(evals[1].0.as_str(), "a/x+m1");
    assert_eq!(evals[1].1.expected, "yes");
}

#[test]
fn sorts_and_keeps_first_of_each_identifier() {
    let v = vec![
        bench("b/y", "1", "first b"),
        bench("a/x", "2", "first a"),
        bench("b/y", "3", "second b"),
        bench("a/w", "4", "w"),
        bench("a/x", "5", "second a"),
    ];
    let out = sort_dedup_by_id(v);
    let ids: Vec<&str> = out.iter().map(|b| b.id.as_str()).collect();
    assert_eq!(ids, vec!["a/w", "a/x", "b/y"]);
    assert_eq!(out[1].prompt, "first a");
    assert_eq!(out[2].prompt, "first b");
}

#[test]
fn sorting_a_sorted_list_changes_nothing() {
    let once = sort_dedup_by_id(vec![
        bench("c/z", "1", "z"),
        bench("a/x", "2", "x"),
        bench("a/x", "3", "x again"),
        bench("b/y", "4", "y"),
    ]);
    let ids = |v: &Vec<DiscoveredBench>| v.iter().map(|b| (b.id.clone(), b.prompt.clone())).collect::<Vec<_>>();
    let before = ids(&once);
    let twice = sort_dedup_by_id(once);
    assert_eq!(ids(&twice), before);
}

#[test]
fn sorting_by_identifier_is_byte_order() {
    let out = sort_dedup_by_id(vec![bench("b", "", ""), bench("B", "", ""), bench("ä", "", ""), bench("a", "", "")]);
    let ids: Vec<&str> = out.iter().map(|b| b.id.as_str()).collect();
    let mut expected = vec!["b", "B", "ä", "a"];
    expected.sort();
    assert_eq!(ids, expected);
}

#[test]
fn bench_set_membership() {
    use_benches();
}

fn use_benches() {
    let set = build_bench_set(&[bench("a/x", "y", "p")], &[("m".to_string(), "A".to_string())]);
    let benches = llmbench::composable::Benches { benches: set };
    assert!(benches.contains(&llmbench::bench_id::BenchId("a/x+m".to_string())));
    assert!(!benches.contains(&llmbench::bench_id::BenchId("a/y".to_string())));
    assert_eq!(benches.iter().len(), 2);
}
