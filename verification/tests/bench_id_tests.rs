use llmbench::bench_id::{get_bench_patterns, parse_bench_ids, split_agent_suffix, validate_bench_pattern, with_agent, BenchErrorKind, BenchId};
use llmbench::glob_pattern::{contains_glob_chars, matches_pattern, GlobPattern};
use std::str::FromStr;

#[test]
fn parses_category_and_name() {
    let id = BenchId::parse("logic/seating").ok().unwrap();
    assert_eq!(id.as_str(), "logic/seating");
    assert_eq!(id.len(), 13);
    let id = BenchId::from_str("decision_making/task_priority").ok().unwrap();
    assert_eq!(id.0, "decision_making/task_priority");
}

#[test]
fn refuses_missing_category() {
    let e = BenchId::parse("/seating").err().unwrap();
    assert_eq!(e.kind, BenchErrorKind::MissingCategory);
    assert_eq!(e.input, "/seating");
}

#[test]
fn refuses_missing_name() {
    let e = BenchId::parse("logic/").err().unwrap();
    assert_eq!(e.kind, BenchErrorKind::MissingName);
}

#[test]
fn refuses_identifier_without_slash() {
    let e = BenchId::parse("seating").err().unwrap();
    assert_eq!(e.kind, BenchErrorKind::InvalidFormat);
    assert_eq!(e.input, "seating");
}

#[test]
fn splits_at_last_plus() {
    let (base, agent) = split_agent_suffix("logic/seating+forge+mythos");
    assert_eq!(base, "logic/seating+forge");
    assert_eq!(agent.as_deref(), Some("mythos"));
    let (base, agent) = split_agent_suffix("logic/seating");
    assert_eq!(base, "logic/seating");
    assert_eq!(agent, None);
}

#[test]
fn split_undoes_with_agent() {
    let id = with_agent("logic/seating", "forge-mythos");
    assert_eq!(id.as_str(), "logic/seating+forge-mythos");
    let (base, agent) = split_agent_suffix(id.as_str());
    assert_eq!(base, "logic/seating");
    assert_eq!(agent.as_deref(), Some("forge-mythos"));
}

#[test]
fn validates_patterns() {
    assert_eq!(validate_bench_pattern("logic/*").ok().as_deref(), Some("logic/*"));
    assert_eq!(validate_bench_pattern("logic/seating").ok().as_deref(), Some("logic/seating"));
    let e = validate_bench_pattern("logic/[").err().unwrap();
    assert_eq!(e.kind, BenchErrorKind::InvalidGlob);
    let e = validate_bench_pattern("seating").err().unwrap();
    assert_eq!(e.kind, BenchErrorKind::InvalidFormat);
}

#[test]
fn collects_every_pattern_error() {
    let inputs = vec!["a/b".to_string(), "x".to_string(), "/y".to_string(), "c/*".to_string()];
    let errs = get_bench_patterns(&inputs).err().unwrap();
    assert_eq!(errs.len(), 2);
    assert_eq!(errs[0].kind, BenchErrorKind::InvalidFormat);
    assert_eq!(errs[0].input, "x");
    assert_eq!(errs[1].kind, BenchErrorKind::MissingCategory);
    let ok = get_bench_patterns(&vec!["a/b".to_string(), "c/*".to_string()]).ok().unwrap();
    assert_eq!(ok, vec!["a/b".to_string(), "c/*".to_string()]);
}

#[test]
fn glob_patterns_match() {
    assert!(contains_glob_chars("logic/*"));
    assert!(contains_glob_chars("a?c"));
    assert!(!contains_glob_chars("logic/seating"));
    assert!(matches_pattern("logic/seating", "logic/*"));
    assert!(!matches_pattern("math/sum", "logic/*"));
    assert!(matches_pattern("anything", "*"));
    assert!(matches_pattern("logic/seating", "logic/seating"));
    assert!(!matches_pattern("logic/seating2", "logic/seating"));
    assert!(!matches_pattern("logic/x", "logic/["));
    assert!(GlobPattern::new("logic/[").is_none());
    let p = GlobPattern::new("d*/t?sk").unwrap();
    assert!(p.matches("decision/task"));
    assert!(!p.matches("decision/tasks"));
}

#[test]
fn parses_every_identifier_or_reports_each_error() {
    let ok = parse_bench_ids(&vec!["a/b".to_string(), "c/d".to_string()]).ok().unwrap();
    let texts: Vec<&str> = ok.iter().map(|b| b.as_str()).collect();
    assert_eq!(texts, vec!["a/b", "c/d"]);
    let errs = parse_bench_ids(&vec!["a/b".to_string(), "c/".to_string(), "x*".to_string()]).err().unwrap();
    assert_eq!(errs.len(), 2);
    assert_eq!(errs[0].kind, BenchErrorKind::MissingName);
    assert_eq!(errs[1].kind, BenchErrorKind::InvalidFormat);
}
