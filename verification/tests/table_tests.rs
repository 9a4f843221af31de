use llmbench::batch::RunHash;
use llmbench::bench_id::BenchId;
use llmbench::evaluate::Choice;
use llmbench::aggregate::Totals;
use llmbench::formatter::{format_totals_passed, scores_fit, ScoreFormatter, SortColumn};
use llmbench::model::ModelId;
use llmbench::score::{BenchResult, ResponseSummary, Score, Scores, ScoredBench, Usage};
use llmbench::table::{
    decimal, digits, format_pass_fail, format_passed, format_response_number, pad_str, ColWidths, Row, NCOLS,
};
use owo_colors::colors::css::Gray;
use owo_colors::colors::{Cyan, Red};
use owo_colors::OwoColorize;

fn widths() -> ColWidths {
    ColWidths {
        model: 5,
        bench: 6,
        agents_md: 9,
        result: 7,
        passed: 9,
        in_tokens: 2,
        out_tokens: 3,
        reason: 6,
        cost: 15,
        cost_diff: 13,
    }
}

#[test]
fn digits_of_numbers() {
    assert_eq!(digits(0), 1);
    assert_eq!(digits(9), 1);
    assert_eq!(digits(10), 2);
    assert_eq!(digits(12345), 5);
    assert_eq!(digits(u32::MAX), 10);
}

#[test]
fn decimal_has_as_many_characters_as_digits() {
    for n in [0u32, 7, 10, 99, 100, 40960, u32::MAX] {
        assert_eq!(decimal(n as u64), n.to_string());
        assert_eq!(decimal(n as u64).len(), digits(n));
    }
    assert_eq!(decimal(u64::MAX), u64::MAX.to_string());
}

#[test]
fn pads_to_display_width() {
    assert_eq!(pad_str("ab", 5, ' '), "ab   ");
    assert_eq!(pad_str("abcdef", 3, ' '), "abcdef");
    assert_eq!(pad_str("", 4, '-'), "----");
    let coloured = "ab".fg::<Red>().to_string();
    assert_eq!(pad_str(&coloured, 4, '.'), format!("{coloured}.."));
    assert_eq!(pad_str("✅ Pass", 8, ' '), "✅ Pass ");
}

#[test]
fn widths_in_column_order() {
    assert_eq!(widths().as_array(), [5, 6, 9, 7, 9, 2, 3, 6, 15, 13]);
    assert_eq!(NCOLS, 10);
}

#[test]
fn rows_render_with_gray_dividers() {
    let w = widths();
    let sep = " | ".fg::<Gray>().to_string();
    let row = Row::new(
        ["m".to_string(), "b".to_string(), String::new(), "r".to_string(), "p".to_string(), "1".to_string(), "2".to_string(), "-".to_string(), "$1".to_string(), "-".to_string()],
        &w,
    );
    let expected_cells = ["m    ", "b     ", "         ", "r      ", "p        ", "1 ", "2  ", "-     ", "$1             ", "-            "];
    let mut expected = sep.clone();
    for c in expected_cells {
        expected.push_str(c);
        expected.push_str(&sep);
    }
    assert_eq!(row.render(), expected);
}

#[test]
fn header_and_separator_rows() {
    let w = widths();
    let sep = " | ".fg::<Gray>().to_string();
    let header = Row::header(&w).render();
    assert!(header.starts_with(&format!("{sep}model{sep}bench {sep}AGENTS.md{sep}result {sep}")));
    let summary = Row::summary_header(&w).render();
    assert!(summary.starts_with(&format!("{sep}     {sep}      {sep}AGENTS.md{sep}% pass {sep}")));
    assert!(summary.contains(&format!("{sep}reason")));
    assert!(summary.contains(&format!("{sep}total cost ($USD){sep}")));
    let junction = " + ".fg::<Gray>().to_string();
    let line = Row::separator(&w).render_separator();
    let mut expected = junction.clone();
    for width in w.as_array() {
        expected.push_str(&"-".repeat(width).fg::<Gray>().to_string());
        expected.push_str(&junction);
    }
    assert_eq!(line, expected);
}

#[test]
fn coloured_cells() {
    assert_eq!(format_pass_fail(true), "✅ Pass".fg::<Cyan>().to_string());
    assert_eq!(format_pass_fail(false), "❌ Fail".fg::<Red>().to_string());
    assert_eq!(format_passed(3, 3, true), format!("{}/{}", "3".fg::<Cyan>(), "3".fg::<Cyan>()));
    assert_eq!(format_passed(3, 1, false), format!("{}/{}", "1".fg::<Red>(), "3".fg::<Cyan>()));
    assert_eq!(format_response_number(2, true), "2R".fg::<Cyan>().to_string());
    assert_eq!(format_response_number(12, false), "12R".fg::<Red>().to_string());
}

#[test]
fn totals_passed_cell() {
    let all = Totals { passed: 4, runs: 4, prompt_tokens: 0, completion_tokens: 0, reasoning_tokens: 0, cost: 0 };
    assert_eq!(format_totals_passed(&all), format!("{}/{}", "4".fg::<Cyan>(), "4".fg::<Cyan>()));
    let some = Totals { passed: 2, runs: 5, ..all };
    assert_eq!(format_totals_passed(&some), format!("{}/{}", "2".fg::<Red>(), "5".fg::<Cyan>()));
}

fn scored(bench: &str, model: &str, prompt: u32, reasoning: Option<u32>) -> ScoredBench {
    ScoredBench {
        result: BenchResult {
            hash: RunHash(0),
            bench: BenchId(bench.to_string()),
            model: ModelId(model.to_string()),
            responses: vec![ResponseSummary {
                choices: vec![Choice::Other],
                usage: Some(Usage { prompt_tokens: prompt, completion_tokens: 1, reasoning_tokens: reasoning, cost: Some(10) }),
            }],
        },
        score: Score::pass(),
    }
}

#[test]
fn report_columns_fit_every_row() {
    let scores = Scores::from_scored(vec![
        scored("logic/seating", "openai/gpt-4o", 123456, None),
        scored("a/b+forge-mythos", "x", 1, Some(1234567)),
        scored("logic/seating", "openai/gpt-4o", 1, None),
    ]);
    assert!(scores_fit(&scores));
    let f = ScoreFormatter::format(scores);
    let w = f.widths();
    assert_eq!(w.bench, 13);
    assert_eq!(w.agents_md, 12);
    assert_eq!(w.model, 13);
    assert_eq!(w.in_tokens, 6);
    assert_eq!(w.out_tokens, 3);
    assert_eq!(w.reason, 7);
    assert_eq!(w.result, 7);
    assert_eq!((w.passed, w.cost, w.cost_diff), (9, 17, 13));
    let mut f = f;
    f.widen_cost_diff(20);
    assert_eq!(f.widths().cost_diff, 20);
    f.widen_cost_diff(3);
    assert_eq!(f.widths().cost_diff, 20);
}

#[test]
fn report_rows_sorted_by_agent_and_tokens() {
    let scores = Scores::from_scored(vec![
        scored("a/x+zz", "m", 5, Some(9)),
        scored("a/x", "m", 9, None),
        scored("a/x+aa", "m", 1, Some(3)),
        scored("b/y", "m", 7, None),
    ]);
    let f = ScoreFormatter::format(scores);
    assert_eq!(f.sort_order(SortColumn::Agent), vec![1, 3, 2, 0]);
    assert_eq!(f.sort_order(SortColumn::In), vec![2, 0, 3, 1]);
    assert_eq!(f.sort_order(SortColumn::Reason), vec![1, 3, 2, 0]);
    assert_eq!(f.sort_order(SortColumn::Out), vec![0, 1, 2, 3]);
}

#[test]
fn report_rows_sorted_stably_and_totalled() {
    let scores = Scores::from_scored(vec![
        scored("b/x", "m2", 1, None),
        scored("a/x", "m3", 2, None),
        scored("b/x", "m1", 3, None),
        scored("a/x", "m1", 4, None),
    ]);
    let f = ScoreFormatter::format(scores);
    assert_eq!(f.sort_order(SortColumn::Bench), vec![1, 3, 0, 2]);
    assert_eq!(f.sort_order(SortColumn::Model), vec![2, 3, 0, 1]);
    assert_eq!(f.sort_order(SortColumn::In), vec![0, 1, 2, 3]);
    assert_eq!(f.sort_order(SortColumn::Cost), vec![0, 1, 2, 3]);
    assert_eq!(SortColumn::default(), SortColumn::Bench);
    assert!(f.totals_fit());
    let t = f.totals();
    assert_eq!((t.runs, t.passed, t.prompt_tokens, t.cost), (4, 4, 10, 40));
}

#[test]
fn colours_are_the_documented_escape_codes() {
    assert_eq!(format_pass_fail(true), "\x1b[36m✅ Pass\x1b[39m");
    assert_eq!(format_pass_fail(false), "\x1b[31m❌ Fail\x1b[39m");
    let w = widths();
    let line = Row::separator(&w).render_separator();
    assert!(line.starts_with("\x1b[38;2;128;128;128m + \x1b[39m"));
}

#[test]
fn short_cells_leave_the_labels_room() {
    let scores = Scores::from_scored(vec![scored("a/b", "m", 1, None)]);
    let f = ScoreFormatter::format(scores);
    let w = f.widths();
    assert_eq!((w.model, w.bench, w.agents_md, w.result, w.passed), (5, 5, 9, 7, 9));
    assert_eq!((w.in_tokens, w.out_tokens, w.reason, w.cost, w.cost_diff), (2, 3, 6, 17, 13));
    let line = ansi_width::ansi_width(&Row::separator(&w).render());
    assert_eq!(ansi_width::ansi_width(&Row::header(&w).render()), line);
    assert_eq!(ansi_width::ansi_width(&Row::summary_header(&w).render()), line);
}
