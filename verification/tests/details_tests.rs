use llmbench::aggregate::{EntryAgg, Totals};
use llmbench::batch::RunHash;
use llmbench::bench_id::BenchId;
use llmbench::details::{chats_only_check, get_chat_summary, replace_newlines, response_details};
use llmbench::evaluate::Choice;
use llmbench::formatter::{cost_cell, detail_cells, reason_cell, totals_cells};
use llmbench::model::ModelId;
use llmbench::score::{BenchModelKey, BenchResult, ResponseSummary, Score, ScoredBench};
use owo_colors::colors::css::Gray;
use owo_colors::colors::{Cyan, Red};
use owo_colors::OwoColorize;

fn chat(contents: Vec<Option<&str>>, passed: bool) -> ScoredBench {
    ScoredBench {
        result: BenchResult {
            hash: RunHash(7),
            bench: BenchId("logic/seating".to_string()),
            model: ModelId("m".to_string()),
            responses: vec![ResponseSummary {
                choices: contents
                    .into_iter()
                    .map(|c| Choice::NonStreaming { content: c.map(|s| s.to_string()) })
                    .collect(),
                usage: None,
            }],
        },
        score: if passed { Score::pass() } else { Score::fail() },
    }
}

fn gray(s: &str) -> String {
    s.fg::<Gray>().to_string()
}

#[test]
fn reasoning_and_cost_cells() {
    assert_eq!(reason_cell(0), "-");
    assert_eq!(reason_cell(98070), "98070");
    assert_eq!(cost_cell(0), "$0.000000000");
    assert_eq!(cost_cell(1234), "$1234.000000000");
}

#[test]
fn detail_row_cells_split_the_agent() {
    let key = BenchModelKey {
        bench_id: BenchId("logic/seating+forge".to_string()),
        model_id: ModelId("openai/gpt-4o".to_string()),
    };
    let entry = EntryAgg { prompt_tokens: 120, completion_tokens: 30, reasoning_tokens: 0, cost: 5, passed: 2, runs: 3 };
    let cells = detail_cells(&key, &entry, "+12.50%".to_string());
    assert_eq!(cells[0], "openai/gpt-4o");
    assert_eq!(cells[1], "logic/seating");
    assert_eq!(cells[2], "forge");
    assert_eq!(cells[3], "❌ Fail".fg::<Red>().to_string());
    assert_eq!(cells[4], format!("{}/{}", "2".fg::<Red>(), "3".fg::<Cyan>()));
    assert_eq!(cells[5], "120");
    assert_eq!(cells[6], "30");
    assert_eq!(cells[7], "-");
    assert_eq!(cells[8], "$5.000000000");
    assert_eq!(cells[9], "+12.50%");

    let bare = BenchModelKey { bench_id: BenchId("a/b".to_string()), model_id: ModelId("x".to_string()) };
    let all = EntryAgg { passed: 3, reasoning_tokens: 7, ..entry };
    let cells = detail_cells(&bare, &all, "-".to_string());
    assert_eq!((cells[1].as_str(), cells[2].as_str()), ("a/b", ""));
    assert_eq!(cells[3], "✅ Pass".fg::<Cyan>().to_string());
    assert_eq!(cells[7], "7");
}

#[test]
fn totals_row_cells() {
    let t = Totals { passed: 493, runs: 562, prompt_tokens: 1247623, completion_tokens: 136284, reasoning_tokens: 98070, cost: 19 };
    let cells = totals_cells("Grand totals".to_string(), "87.72%".to_string(), &t, "+432.74%".to_string());
    assert_eq!((cells[0].as_str(), cells[1].as_str(), cells[2].as_str()), ("", "", "Grand totals"));
    assert_eq!(cells[3], "87.72%");
    assert_eq!(cells[4], format!("{}/{}", "493".fg::<Red>(), "562".fg::<Cyan>()));
    assert_eq!((cells[5].as_str(), cells[6].as_str(), cells[7].as_str()), ("1247623", "136284", "98070"));
    assert_eq!(cells[8], "$19.000000000");
    assert_eq!(cells[9], "+432.74%");
}

#[test]
fn newlines_become_spaces() {
    assert_eq!(replace_newlines("a\nb\n\nc"), "a b  c");
    assert_eq!(replace_newlines(""), "");
}

#[test]
fn chat_summary_reads_each_choice() {
    let sb = chat(vec![Some("first"), None, Some("third")], true);
    assert_eq!(get_chat_summary(&sb), vec!["first".to_string(), String::new(), "third".to_string()]);
    assert!(chats_only_check(&[sb]));
    let mut other = chat(vec![Some("x")], true);
    other.result.responses[0].choices.push(Choice::Other);
    assert!(!chats_only_check(&[other]));
}

#[test]
fn details_wrap_each_message() {
    let div = gray(" | ");
    let scores = vec![chat(vec![Some("aaa bbb\nccc")], true), chat(vec![Some("hi")], false)];
    // a table 20 wide leaves 7 columns for the messages
    let text = response_details(&scores, &div, 20);
    let expected = format!(
        "{div}  {}{}{}\n{div}       {}\n{div}  {}{}{}\n",
        "1R".fg::<Cyan>(),
        gray("1: "),
        gray("aaa bbb"),
        gray("ccc"),
        "2R".fg::<Red>(),
        gray("1: "),
        gray("hi"),
    );
    assert_eq!(text, expected);
}
