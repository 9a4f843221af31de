//! The score report: column widths over the scores shown, the order of its
//! rows, and its totals.
use crate::aggregate::{
    lemma_entry_index, lemma_sum_tally_push, sum_tally, Tally,
    add_totals, entry_for, entry_of, entry_fits, lemma_totals_push, results_fit, tallies_fit,
    tallies_fit_check, totals_match,
    AggregatedScores, EntryAgg, Totals,
};
use crate::order::{
    key_compare, key_lt, lemma_key_asymmetric, lemma_key_irreflexive, lemma_key_lt_le,
    lemma_key_transitive, lemma_lex_irreflexive, lex_lt, LexOrder,
};
use crate::bench_id::{agent_split, split_agent_suffix};
use crate::score::{groups_size, groups_well_formed, BenchModelKey, ScoredBench, Scores};
use crate::table::{
    ansi_width_of, cyan_text, decimal, decimal_digits, decimal_text, digits, digits_u64, format_pass_fail,
    lemma_decimal_digits_bound, lemma_decimal_len, pow10,
    format_passed, header_labels, is_printable_ascii, mark_fail, mark_pass, passed_text, red_text,
    summary_labels, text_width, texts_of, width_seq, ColWidths, NCOLS,
};
use crate::text::chars_of;
use vstd::prelude::*;

verus! {

/// Column the report rows are sorted by.
#[derive(Debug, Clone, Copy, PartialEq, Eq, Structural)]
pub enum SortColumn {
    /// Sort by bench.
    Bench,
    /// Sort by model.
    Model,
    /// Sort by agent (bare benches first).
    Agent,
    /// Sort by input tokens.
    In,
    /// Sort by output tokens.
    Out,
    /// Sort by reasoning tokens.
    Reason,
    /// Sort by cost.
    Cost,
    /// Sort by cost difference to the baseline.
    CostDelta,
}

impl Default for SortColumn {
    fn default() -> (r: SortColumn)
        ensures
            r == SortColumn::Bench,
    {
        SortColumn::Bench
    }
}

/// Length of a text in UTF-8 bytes, as `str::len` gives it.
pub open spec fn utf8_len(s: Seq<char>) -> usize {
    vstd::utf8::encode_utf8(s).len() as usize
}

/// A column whose width depends on the rows.
#[derive(Debug, Clone, Copy, PartialEq, Eq, Structural)]
pub enum Column {
    Bench,
    Agent,
    Model,
    InTokens,
    OutTokens,
    Reason,
    Passed,
    Cost,
}

/// Width that the row of key `k`, with aggregate `e`, needs in column `c`:
/// the byte length of its base bench, agent (0 without) or model; the
/// digits of its token counts (reasoning tokens need 1 when there are none,
/// shown as `-`); the digits of `passed/runs`; or the characters of its
/// cost cell, `$`, the digits and nine decimals.
pub open spec fn column_need(k: (Seq<char>, Seq<char>), e: EntryAgg, c: Column) -> nat {
    let (base, agent) = agent_split(k.0);
    match c {
        Column::Bench => utf8_len(base) as nat,
        Column::Agent => match agent {
            Some(a) => utf8_len(a) as nat,
            None => 0,
        },
        Column::Model => utf8_len(k.1) as nat,
        Column::InTokens => decimal_digits(e.prompt_tokens as nat),
        Column::OutTokens => decimal_digits(e.completion_tokens as nat),
        Column::Reason => if e.reasoning_tokens > 0 {
            decimal_digits(e.reasoning_tokens as nat)
        } else {
            1
        },
        Column::Passed => decimal_digits(e.passed as nat) + 1 + decimal_digits(e.runs as nat),
        Column::Cost => decimal_digits(e.cost as nat) + 11,
    }
}

/// The widest need of the rows of `gs` in column `c`, at least `init`.
pub open spec fn column_max(
    gs: Seq<(BenchModelKey, Vec<ScoredBench>)>,
    es: Seq<(BenchModelKey, EntryAgg)>,
    c: Column,
    init: nat,
) -> nat
    decreases gs.len(),
{
    if gs.len() == 0 {
        init
    } else {
        let m = column_max(gs.drop_last(), es, c, init);
        let need = column_need(gs.last().0@, entry_for(es, gs.last().0@), c);
        if need > m {
            need
        } else {
            m
        }
    }
}

/// The widths of the report's columns: each at least as wide as its labels
/// in the header and the summary header, and each data column as wide as
/// its widest row. The minimums: model 5 (`model`), bench 5 (`bench`),
/// AGENTS.md 9, result the pass mark's width and at least 6 (`result`,
/// `% pass`), passed 9 (`passed` and room for the counts), in 2, out 3,
/// reason 6, cost 17 (`total cost ($USD)`), cost difference 13.
pub open spec fn table_widths(
    gs: Seq<(BenchModelKey, Vec<ScoredBench>)>,
    es: Seq<(BenchModelKey, EntryAgg)>,
) -> ColWidths {
    ColWidths {
        model: column_max(gs, es, Column::Model, 5) as usize,
        bench: column_max(gs, es, Column::Bench, 5) as usize,
        agents_md: column_max(gs, es, Column::Agent, 9) as usize,
        result: if ansi_width_of(mark_pass()) > 6 {
            ansi_width_of(mark_pass())
        } else {
            6
        },
        passed: column_max(gs, es, Column::Passed, 9) as usize,
        in_tokens: column_max(gs, es, Column::InTokens, 2) as usize,
        out_tokens: column_max(gs, es, Column::OutTokens, 3) as usize,
        reason: column_max(gs, es, Column::Reason, 6) as usize,
        cost: column_max(gs, es, Column::Cost, 17) as usize,
        cost_diff: 13,
    }
}

/// The pass mark's display width.
fn pass_mark_width() -> (r: usize)
    ensures
        r == ansi_width_of(mark_pass()),
{
    text_width("✅ Pass")
}

/// Byte length of a string.
fn byte_len(s: &str) -> (r: usize)
    ensures
        r == utf8_len(s@),
{
    s.len()
}

/// The score report: the scores, their aggregates and the column widths.
pub struct ScoreFormatter {
    scores: Scores,
    widths: ColWidths,
    agg: AggregatedScores,
}

impl ScoreFormatter {
    /// The scores of the report.
    pub closed spec fn groups(&self) -> Seq<(BenchModelKey, Vec<ScoredBench>)> {
        self.scores.groups()
    }

    /// The aggregates of the report.
    pub closed spec fn entries(&self) -> Seq<(BenchModelKey, EntryAgg)> {
        self.agg.entries()
    }

    /// The column widths.
    pub closed spec fn column_widths(&self) -> ColWidths {
        self.widths
    }

    /// Aggregates the scores and sizes the columns to fit every row.
    pub fn format(scores: Scores) -> (r: ScoreFormatter)
        requires
            groups_well_formed(scores.groups()),
            forall|g: int|
                0 <= g < scores.groups().len() ==> entry_fits((#[trigger] scores.groups()[g]).1@),
        ensures
            r.groups() == scores.groups(),
            r.entries().len() == scores.groups().len(),
            forall|g: int|
                0 <= g < r.entries().len() ==> (#[trigger] r.entries()[g]).0@ == scores.groups()[g].0@
                    && r.entries()[g].1 == entry_of(scores.groups()[g].1@),
            r.column_widths() == table_widths(r.groups(), r.entries()),
    {
        let agg = AggregatedScores::build(&scores);
        let gs = scores.iter();
        let ghost es = agg.entries();
        let mut bench_width: usize = 5;
        let mut agent_width: usize = 9;
        let mut model_width: usize = 5;
        let mut in_tokens_width: usize = 2;
        let mut out_tokens_width: usize = 3;
        let mut reason_width: usize = 6;
        let mut passed_width: usize = 9;
        let mut cost_width: usize = 17;
        let mut g: usize = 0;
        while g < gs.len()
            invariant
                gs@ == scores.groups(),
                es == agg.entries(),
                g <= gs@.len(),
                bench_width == column_max(gs@.take(g as int), es, Column::Bench, 5),
                agent_width == column_max(gs@.take(g as int), es, Column::Agent, 9),
                model_width == column_max(gs@.take(g as int), es, Column::Model, 5),
                passed_width == column_max(gs@.take(g as int), es, Column::Passed, 9),
                cost_width == column_max(gs@.take(g as int), es, Column::Cost, 17),
                in_tokens_width == column_max(gs@.take(g as int), es, Column::InTokens, 2),
                out_tokens_width == column_max(gs@.take(g as int), es, Column::OutTokens, 3),
                reason_width == column_max(gs@.take(g as int), es, Column::Reason, 6),
            decreases gs.len() - g,
        {
            assert(gs@.take(g as int + 1).drop_last() =~= gs@.take(g as int));
            assert(gs@.take(g as int + 1).last() == gs@[g as int]);
            let key = &gs[g].0;
            let (base, agent) = split_agent_suffix(key.bench_id.as_str());
            let n = byte_len(base.as_str());
            if n > bench_width {
                bench_width = n;
            }
            match &agent {
                Some(a) => {
                    let n = byte_len(a.as_str());
                    if n > agent_width {
                        agent_width = n;
                    }
                },
                None => {},
            }
            let n = byte_len(key.model_id.as_str());
            if n > model_width {
                model_width = n;
            }
            let entry = agg.for_key(key);
            let n = digits(entry.prompt_tokens);
            if n > in_tokens_width {
                in_tokens_width = n;
            }
            let n = digits(entry.completion_tokens);
            if n > out_tokens_width {
                out_tokens_width = n;
            }
            let n = if entry.reasoning_tokens > 0 {
                digits(entry.reasoning_tokens)
            } else {
                1
            };
            if n > reason_width {
                reason_width = n;
            }
            let n = digits_u64(entry.passed as u64) + 1 + digits_u64(entry.runs as u64);
            if n > passed_width {
                passed_width = n;
            }
            let n = digits_u64(entry.cost) + 11;
            if n > cost_width {
                cost_width = n;
            }
            g += 1;
        }
        assert(gs@.take(gs@.len() as int) =~= gs@);
        let mark = pass_mark_width();
        let widths = ColWidths {
            model: model_width,
            bench: bench_width,
            agents_md: agent_width,
            result: if mark > 6 {
                mark
            } else {
                6
            },
            passed: passed_width,
            in_tokens: in_tokens_width,
            out_tokens: out_tokens_width,
            reason: reason_width,
            cost: cost_width,
            cost_diff: 13,
        };
        ScoreFormatter { scores, widths, agg }
    }

    /// The scores.
    pub fn scores(&self) -> (r: &Scores)
        ensures
            r.groups() == self.groups(),
    {
        &self.scores
    }

    /// The aggregates.
    pub fn agg(&self) -> (r: &AggregatedScores)
        ensures
            r.entries() == self.entries(),
    {
        &self.agg
    }

    /// The column widths.
    pub fn widths(&self) -> (r: ColWidths)
        ensures
            r == self.column_widths(),
    {
        self.widths
    }

    /// Widens the cost-difference column to at least `w`.
    pub fn widen_cost_diff(&mut self, w: usize)
        ensures
            final(self).groups() == old(self).groups(),
            final(self).entries() == old(self).entries(),
            final(self).column_widths() == (ColWidths {
                cost_diff: if w > old(self).column_widths().cost_diff {
                    w
                } else {
                    old(self).column_widths().cost_diff
                },
                ..old(self).column_widths()
            }),
    {
        if w > self.widths.cost_diff {
            self.widths.cost_diff = w;
        }
    }
}

// ── Row order ───────────────────────────────────────────────────────────────

/// The key a row is sorted by in column `c`: a text for the bench (the
/// whole identifier), model and agent (empty for a bare bench) columns, the
/// row's aggregate amount for the token and cost columns.
pub open spec fn row_key(
    g: (BenchModelKey, Vec<ScoredBench>),
    es: Seq<(BenchModelKey, EntryAgg)>,
    c: SortColumn,
) -> (Seq<char>, nat) {
    let e = entry_for(es, g.0@);
    match c {
        SortColumn::Bench => (g.0@.0, 0),
        SortColumn::Model => (g.0@.1, 0),
        SortColumn::Agent => (
            match agent_split(g.0@.0).1 {
                Some(a) => a,
                None => Seq::empty(),
            },
            0,
        ),
        SortColumn::In => (Seq::empty(), e.prompt_tokens as nat),
        SortColumn::Out => (Seq::empty(), e.completion_tokens as nat),
        SortColumn::Reason => (Seq::empty(), e.reasoning_tokens as nat),
        SortColumn::Cost => (Seq::empty(), e.cost as nat),
        SortColumn::CostDelta => (Seq::empty(), 0),
    }
}

/// `order` lists each position below `n` once.
pub open spec fn is_order(order: Seq<usize>, n: nat) -> bool {
    &&& order.len() == n
    &&& forall|a: int| 0 <= a < order.len() ==> (#[trigger] order[a]) < n
    &&& forall|a: int, b: int| 0 <= a < b < order.len() ==> order[a] != order[b]
}

/// `order` lists the groups by ascending key, groups of equal key in
/// their own order (a stable sort).
pub open spec fn sorted_stably(
    order: Seq<usize>,
    gs: Seq<(BenchModelKey, Vec<ScoredBench>)>,
    es: Seq<(BenchModelKey, EntryAgg)>,
    c: SortColumn,
) -> bool {
    &&& forall|a: int, b: int|
        0 <= a < b < order.len() ==> !key_lt(
            row_key(gs[order[b] as int], es, c),
            row_key(gs[order[a] as int], es, c),
        )
    &&& forall|a: int, b: int|
        0 <= a < b < order.len() && row_key(gs[order[a] as int], es, c) == row_key(
            gs[order[b] as int],
            es,
            c,
        ) ==> order[a] < order[b]
}

/// The keys, in list order, of the groups an order lists.
pub open spec fn keys_in_order(
    order: Seq<usize>,
    gs: Seq<(BenchModelKey, Vec<ScoredBench>)>,
    es: Seq<(BenchModelKey, EntryAgg)>,
    c: SortColumn,
) -> Seq<(Seq<char>, nat)> {
    order.map_values(|p: usize| row_key(gs[p as int], es, c))
}

/// Keys never decrease along `ks`; equal keys come with increasing `order`.
spec fn keys_sorted_stably(ks: Seq<(Seq<char>, nat)>, order: Seq<usize>) -> bool {
    &&& forall|a: int, b: int| 0 <= a < b < ks.len() ==> !key_lt(ks[b], ks[a])
    &&& forall|a: int, b: int| 0 <= a < b < ks.len() && ks[a] == ks[b] ==> order[a] < order[b]
}

/// Inserting key `k` with position `i` (above every position listed) after
/// the keys at most `k` and before the keys greater than `k` keeps the keys
/// sorted stably.
proof fn lemma_keys_insert(ks: Seq<(Seq<char>, nat)>, order: Seq<usize>, k: (Seq<char>, nat), i: usize, j: int)
    requires
        ks.len() == order.len(),
        keys_sorted_stably(ks, order),
        forall|a: int| 0 <= a < order.len() ==> (#[trigger] order[a]) < i,
        0 <= j <= ks.len(),
        forall|a: int| 0 <= a < j ==> !key_lt(k, #[trigger] ks[a]),
        j < ks.len() ==> key_lt(k, ks[j]),
    ensures
        keys_sorted_stably(ks.insert(j, k), order.insert(j, i)),
{
    let n = ks.insert(j, k);
    let o = order.insert(j, i);
    assert forall|b: int| j < b < n.len() implies key_lt(k, n[b]) by {
        assert(n[b] == ks[b - 1]);
        if b - 1 > j {
            lemma_key_lt_le(k, ks[j], ks[b - 1]);
        }
    }
    assert forall|a: int, b: int| 0 <= a < b < n.len() implies !key_lt(n[b], n[a]) by {
        if b < j {
            assert(n[a] == ks[a] && n[b] == ks[b]);
        } else if b == j {
            assert(n[a] == ks[a]);
        } else if a < j {
            assert(n[a] == ks[a]);
            if key_lt(n[b], n[a]) {
                lemma_key_transitive(k, n[b], n[a]);
            }
        } else if a == j {
            lemma_key_asymmetric(k, n[b]);
        } else {
            assert(n[a] == ks[a - 1] && n[b] == ks[b - 1]);
        }
    }
    assert forall|a: int, b: int| 0 <= a < b < n.len() && n[a] == n[b] implies o[a] < o[b] by {
        lemma_key_irreflexive(k);
        if b < j {
            assert(n[a] == ks[a] && n[b] == ks[b] && o[a] == order[a] && o[b] == order[b]);
        } else if b == j {
            assert(o[a] == order[a]);
        } else if a < j {
            assert(n[b] == ks[b - 1]);
        } else if a == j {
            assert(n[b] == ks[b - 1]);
        } else {
            assert(n[a] == ks[a - 1] && n[b] == ks[b - 1] && o[a] == order[a - 1] && o[b] == order[b - 1]);
        }
    }
}

/// Inserting position `i`, above every listed position, after the listed
/// groups whose key is at most its own and before those whose key is
/// greater, keeps the order stable and sorted.
proof fn lemma_order_insert(
    order: Seq<usize>,
    gs: Seq<(BenchModelKey, Vec<ScoredBench>)>,
    es: Seq<(BenchModelKey, EntryAgg)>,
    c: SortColumn,
    i: usize,
    j: int,
)
    requires
        i < gs.len(),
        is_order(order, i as nat),
        sorted_stably(order, gs, es, c),
        0 <= j <= order.len(),
        forall|a: int|
            0 <= a < j ==> !key_lt(
                row_key(gs[i as int], es, c),
                row_key(gs[(#[trigger] order[a]) as int], es, c),
            ),
        j < order.len() ==> key_lt(row_key(gs[i as int], es, c), row_key(gs[order[j] as int], es, c)),
    ensures
        is_order(order.insert(j, i), i as nat + 1),
        sorted_stably(order.insert(j, i), gs, es, c),
{
    let ks = keys_in_order(order, gs, es, c);
    let k = row_key(gs[i as int], es, c);
    let n = order.insert(j, i);
    assert(keys_sorted_stably(ks, order));
    assert forall|a: int| 0 <= a < j implies !key_lt(k, #[trigger] ks[a]) by {
        assert(ks[a] == row_key(gs[order[a] as int], es, c));
    }
    lemma_keys_insert(ks, order, k, i, j);
    assert(keys_in_order(n, gs, es, c) =~= ks.insert(j, k));
    let nk = keys_in_order(n, gs, es, c);
    assert forall|a: int, b: int| 0 <= a < b < n.len() implies !key_lt(
        row_key(gs[n[b] as int], es, c),
        row_key(gs[n[a] as int], es, c),
    ) by {
        assert(nk[a] == row_key(gs[n[a] as int], es, c));
        assert(nk[b] == row_key(gs[n[b] as int], es, c));
    }
    assert forall|a: int, b: int|
        0 <= a < b < n.len() && row_key(gs[n[a] as int], es, c) == row_key(gs[n[b] as int], es, c)
            implies n[a] < n[b] by {
        assert(nk[a] == row_key(gs[n[a] as int], es, c));
        assert(nk[b] == row_key(gs[n[b] as int], es, c));
    }
    assert forall|a: int| 0 <= a < n.len() implies (#[trigger] n[a]) < i + 1 by {
        if a < j {
            assert(n[a] == order[a]);
        } else if a > j {
            assert(n[a] == order[a - 1]);
        }
    }
    assert forall|a: int, b: int| 0 <= a < b < n.len() implies n[a] != n[b] by {
        if a < j {
            assert(n[a] == order[a]);
        } else if a > j {
            assert(n[a] == order[a - 1]);
        }
        if b < j {
            assert(n[b] == order[b]);
        } else if b > j {
            assert(n[b] == order[b - 1]);
        }
    }
}

/// The values summed into the report's totals: the aggregate of each
/// group's key, in order.
pub open spec fn report_values(
    gs: Seq<(BenchModelKey, Vec<ScoredBench>)>,
    es: Seq<(BenchModelKey, EntryAgg)>,
) -> Seq<EntryAgg> {
    gs.map_values(|g: (BenchModelKey, Vec<ScoredBench>)| entry_for(es, g.0@))
}

impl ScoreFormatter {
    /// The key of group `g` in column `c`.
    fn row_key_of(&self, g: usize, c: SortColumn) -> (r: (Vec<char>, u64))
        requires
            g < self.groups().len(),
            c != SortColumn::CostDelta,
        ensures
            (r.0@, r.1 as nat) == row_key(self.groups()[g as int], self.entries(), c),
    {
        let gs = self.scores.iter();
        let key = &gs[g].0;
        let e = self.agg.for_key(key);
        match c {
            SortColumn::Bench => (chars_of(key.bench_id.as_str()), 0),
            SortColumn::Model => (chars_of(key.model_id.as_str()), 0),
            SortColumn::Agent => {
                let (_base, agent) = split_agent_suffix(key.bench_id.as_str());
                match agent {
                    Some(a) => (chars_of(a.as_str()), 0),
                    None => (Vec::new(), 0),
                }
            },
            SortColumn::In => (Vec::new(), e.prompt_tokens as u64),
            SortColumn::Out => (Vec::new(), e.completion_tokens as u64),
            SortColumn::Reason => (Vec::new(), e.reasoning_tokens as u64),
            _ => (Vec::new(), e.cost),
        }
    }

    /// The order in which the report lists the groups: sorted by `column`
    /// ascending, stably. Sorting by cost difference is left to the caller,
    /// whose differences are fractional.
    pub fn sort_order(&self, column: SortColumn) -> (r: Vec<usize>)
        requires
            column != SortColumn::CostDelta,
        ensures
            is_order(r@, self.groups().len()),
            sorted_stably(r@, self.groups(), self.entries(), column),
    {
        let n = self.scores.len();
        let ghost gs = self.groups();
        let ghost es = self.entries();
        let mut order: Vec<usize> = Vec::new();
        let mut i: usize = 0;
        while i < n
            invariant
                n == gs.len(),
                gs == self.groups(),
                es == self.entries(),
                column != SortColumn::CostDelta,
                i <= n,
                is_order(order@, i as nat),
                sorted_stably(order@, gs, es, column),
            decreases n - i,
        {
            let (ti, ni) = self.row_key_of(i, column);
            let mut j: usize = 0;
            while j < order.len()
                invariant
                    n == gs.len(),
                    gs == self.groups(),
                    es == self.entries(),
                    column != SortColumn::CostDelta,
                    i < n,
                    is_order(order@, i as nat),
                    (ti@, ni as nat) == row_key(gs[i as int], es, column),
                    j <= order@.len(),
                    forall|a: int|
                        0 <= a < j ==> !key_lt(
                            row_key(gs[i as int], es, column),
                            row_key(gs[(#[trigger] order@[a]) as int], es, column),
                        ),
                ensures
                    j <= order@.len(),
                    forall|a: int|
                        0 <= a < j ==> !key_lt(
                            row_key(gs[i as int], es, column),
                            row_key(gs[(#[trigger] order@[a]) as int], es, column),
                        ),
                    j < order@.len() ==> key_lt(
                        row_key(gs[i as int], es, column),
                        row_key(gs[order@[j as int] as int], es, column),
                    ),
                decreases order.len() - j,
            {
                let (tj, nj) = self.row_key_of(order[j], column);
                match key_compare(&ti, ni, &tj, nj) {
                    LexOrder::Before => {
                        break;
                    },
                    _ => {},
                }
                j += 1;
            }
            proof {
                lemma_order_insert(order@, gs, es, column, i, j as int);
            }
            order.insert(j, i);
            i += 1;
        }
        order
    }

    /// The totals of the report: the aggregates of its groups summed.
    pub fn totals(&self) -> (r: Totals)
        requires
            tallies_fit(report_values(self.groups(), self.entries())),
        ensures
            totals_match(r, report_values(self.groups(), self.entries())),
    {
        let gs = self.scores.iter();
        let ghost vs = report_values(self.groups(), self.entries());
        let mut t = Totals::default();
        let mut i: usize = 0;
        while i < gs.len()
            invariant
                gs@ == self.groups(),
                vs == report_values(self.groups(), self.entries()),
                i <= gs@.len(),
                tallies_fit(vs),
                totals_match(t, vs.take(i as int)),
            decreases gs.len() - i,
        {
            let e = self.agg.for_key(&gs[i].0);
            assert(vs.take(i as int + 1) =~= vs.take(i as int).push(e));
            proof {
                crate::aggregate::lemma_tallies_prefix(vs, i as int + 1);
                lemma_totals_push(
                    t,
                    vs.take(i as int),
                    e,
                    Totals {
                        passed: (t.passed + e.passed) as usize,
                        runs: (t.runs + e.runs) as usize,
                        prompt_tokens: (t.prompt_tokens + e.prompt_tokens) as u32,
                        completion_tokens: (t.completion_tokens + e.completion_tokens) as u32,
                        reasoning_tokens: (t.reasoning_tokens + e.reasoning_tokens) as u32,
                        cost: (t.cost + e.cost) as u64,
                    },
                );
            }
            t = add_totals(t, &e);
            i += 1;
        }
        assert(vs.take(vs.len() as int) =~= vs);
        t
    }
}

/// Whether the usage totals of every group of the scores fit their
/// counters, as aggregating them asks.
pub fn scores_fit(scores: &Scores) -> (r: bool)
    ensures
        r == forall|g: int|
            0 <= g < scores.groups().len() ==> entry_fits((#[trigger] scores.groups()[g]).1@),
{
    let gs = scores.iter();
    let mut g: usize = 0;
    while g < gs.len()
        invariant
            gs@ == scores.groups(),
            g <= gs@.len(),
            forall|a: int| 0 <= a < g ==> entry_fits((#[trigger] gs@[a]).1@),
        decreases gs.len() - g,
    {
        if !results_fit(&gs[g].1) {
            assert(!entry_fits(gs@[g as int].1@));
            return false;
        }
        g += 1;
    }
    true
}

impl ScoreFormatter {
    /// Whether the report's totals fit their counters.
    pub fn totals_fit(&self) -> (r: bool)
        ensures
            r == tallies_fit(report_values(self.groups(), self.entries())),
    {
        let gs = self.scores.iter();
        let mut vs: Vec<EntryAgg> = Vec::new();
        let mut i: usize = 0;
        while i < gs.len()
            invariant
                gs@ == self.groups(),
                i <= gs@.len(),
                vs@ == report_values(self.groups(), self.entries()).take(i as int),
            decreases gs.len() - i,
        {
            vs.push(self.agg.for_key(&gs[i].0));
            assert(report_values(self.groups(), self.entries()).take(i as int + 1) =~= report_values(
                self.groups(),
                self.entries(),
            ).take(i as int).push(entry_for(self.entries(), gs@[i as int].0@)));
            i += 1;
        }
        assert(report_values(self.groups(), self.entries()).take(gs@.len() as int) =~= report_values(
            self.groups(),
            self.entries(),
        ));
        tallies_fit_check(&vs)
    }
}

/// The report's data columns fit every row: each row's need in a column is
/// at most the column's width, and the width is at least its minimum.
pub proof fn lemma_columns_fit_rows(
    gs: Seq<(BenchModelKey, Vec<ScoredBench>)>,
    es: Seq<(BenchModelKey, EntryAgg)>,
    c: Column,
    init: nat,
    g: int,
)
    requires
        0 <= g < gs.len(),
    ensures
        column_need(gs[g].0@, entry_for(es, gs[g].0@), c) <= column_max(gs, es, c, init),
        init <= column_max(gs, es, c, init),
    decreases gs.len(),
{
    lemma_column_max_init(gs, es, c, init);
    if g < gs.len() - 1 {
        lemma_columns_fit_rows(gs.drop_last(), es, c, init, g);
        assert(gs.drop_last()[g] == gs[g]);
    }
}

proof fn lemma_column_max_init(
    gs: Seq<(BenchModelKey, Vec<ScoredBench>)>,
    es: Seq<(BenchModelKey, EntryAgg)>,
    c: Column,
    init: nat,
)
    ensures
        init <= column_max(gs, es, c, init),
    decreases gs.len(),
{
    if gs.len() > 0 {
        lemma_column_max_init(gs.drop_last(), es, c, init);
    }
}

proof fn lemma_digits_u64(n: nat)
    requires
        n <= u64::MAX,
    ensures
        decimal_digits(n) <= 20,
{
    assert(pow10(20) == 100000000000000000000) by {
        reveal_with_fuel(pow10, 21);
    }
    lemma_decimal_digits_bound(n, 20, pow10(20));
}

proof fn lemma_column_max_fits(
    gs: Seq<(BenchModelKey, Vec<ScoredBench>)>,
    es: Seq<(BenchModelKey, EntryAgg)>,
    c: Column,
    init: nat,
)
    requires
        init <= 64,
    ensures
        column_max(gs, es, c, init) <= usize::MAX,
    decreases gs.len(),
{
    if gs.len() > 0 {
        lemma_column_max_fits(gs.drop_last(), es, c, init);
        let e = entry_for(es, gs.last().0@);
        lemma_digits_u64(e.prompt_tokens as nat);
        lemma_digits_u64(e.completion_tokens as nat);
        lemma_digits_u64(e.reasoning_tokens as nat);
        lemma_digits_u64(e.passed as nat);
        lemma_digits_u64(e.runs as nat);
        lemma_digits_u64(e.cost as nat);
    }
}

/// The header and the summary header fit their columns: every label but
/// the two of the cost-difference column (which hold a non-ASCII `Δ`, whose
/// width is named) is printable ASCII and no wider than its column.
pub proof fn lemma_labels_fit_columns(
    gs: Seq<(BenchModelKey, Vec<ScoredBench>)>,
    es: Seq<(BenchModelKey, EntryAgg)>,
)
    ensures
        forall|i: int|
            0 <= i < NCOLS - 1 ==> ansi_width_of(#[trigger] header_labels()[i]) <= width_seq(
                table_widths(gs, es),
            )[i] && ansi_width_of(summary_labels()[i]) <= width_seq(table_widths(gs, es))[i],
{
    reveal_strlit("model");
    reveal_strlit("bench");
    reveal_strlit("AGENTS.md");
    reveal_strlit("result");
    reveal_strlit("passed");
    reveal_strlit("in");
    reveal_strlit("out");
    reveal_strlit("reason");
    reveal_strlit("cost/run ($USD)");
    reveal_strlit("% pass");
    reveal_strlit("total cost ($USD)");
    let w = table_widths(gs, es);
    lemma_column_max_init(gs, es, Column::Model, 5);
    lemma_column_max_init(gs, es, Column::Bench, 5);
    lemma_column_max_init(gs, es, Column::Agent, 9);
    lemma_column_max_init(gs, es, Column::Passed, 9);
    lemma_column_max_init(gs, es, Column::InTokens, 2);
    lemma_column_max_init(gs, es, Column::OutTokens, 3);
    lemma_column_max_init(gs, es, Column::Reason, 6);
    lemma_column_max_init(gs, es, Column::Cost, 17);
    lemma_column_max_fits(gs, es, Column::Model, 5);
    lemma_column_max_fits(gs, es, Column::Bench, 5);
    lemma_column_max_fits(gs, es, Column::Agent, 9);
    lemma_column_max_fits(gs, es, Column::Passed, 9);
    lemma_column_max_fits(gs, es, Column::InTokens, 2);
    lemma_column_max_fits(gs, es, Column::OutTokens, 3);
    lemma_column_max_fits(gs, es, Column::Reason, 6);
    lemma_column_max_fits(gs, es, Column::Cost, 17);
    assert(is_printable_ascii(Seq::<char>::empty()));
    assert forall|i: int| 0 <= i < NCOLS - 1 implies ansi_width_of(#[trigger] header_labels()[i])
        <= width_seq(w)[i] && ansi_width_of(summary_labels()[i]) <= width_seq(w)[i] by {
        let h = header_labels()[i];
        let m = summary_labels()[i];
        assert(is_printable_ascii(h));
        assert(is_printable_ascii(m));
        assert(ansi_width_of(h) == h.len());
        assert(ansi_width_of(m) == m.len());
        if i == 0 {
            assert(h.len() == 5 && m.len() == 0 && width_seq(w)[i] >= 5);
        } else if i == 1 {
            assert(h.len() == 5 && m.len() == 0 && width_seq(w)[i] >= 5);
        } else if i == 2 {
            assert(h.len() == 9 && m.len() == 9 && width_seq(w)[i] >= 9);
        } else if i == 3 {
            assert(h.len() == 6 && m.len() == 6 && width_seq(w)[i] >= 6);
        } else if i == 4 {
            assert(h.len() == 6 && m.len() == 6 && width_seq(w)[i] >= 9);
        } else if i == 5 {
            assert(h.len() == 2 && m.len() == 2 && width_seq(w)[i] >= 2);
        } else if i == 6 {
            assert(h.len() == 3 && m.len() == 3 && width_seq(w)[i] >= 3);
        } else if i == 7 {
            assert(h.len() == 6 && m.len() == 6 && width_seq(w)[i] >= 6);
        } else {
            assert(h.len() == 15 && m.len() == 17 && width_seq(w)[i] >= 17);
        }
    }
}

/// Every cell of every detail row fits its column: the token, reasoning
/// and cost cells always, and the model, bench and agent cells when they
/// are printable ASCII (the display width of other text is named).
pub proof fn lemma_detail_cells_fit(
    gs: Seq<(BenchModelKey, Vec<ScoredBench>)>,
    es: Seq<(BenchModelKey, EntryAgg)>,
    g: int,
    cost_diff: Seq<char>,
)
    requires
        0 <= g < gs.len(),
    ensures
        forall|i: int|
            0 <= i < NCOLS - 1 && i != 3 && i != 4 && (i > 2 || is_printable_ascii(
                detail_texts(gs[g].0@, entry_for(es, gs[g].0@), cost_diff)[i],
            )) ==> ansi_width_of(
                #[trigger] detail_texts(gs[g].0@, entry_for(es, gs[g].0@), cost_diff)[i],
            ) <= width_seq(table_widths(gs, es))[i],
{
    let k = gs[g].0@;
    let e = entry_for(es, k);
    let t = detail_texts(k, e, cost_diff);
    let w = table_widths(gs, es);
    reveal_strlit("-");
    reveal_strlit("$");
    reveal_strlit(".000000000");
    lemma_columns_fit_rows(gs, es, Column::Model, 5, g);
    lemma_columns_fit_rows(gs, es, Column::Bench, 5, g);
    lemma_columns_fit_rows(gs, es, Column::Agent, 9, g);
    lemma_columns_fit_rows(gs, es, Column::InTokens, 2, g);
    lemma_columns_fit_rows(gs, es, Column::OutTokens, 3, g);
    lemma_columns_fit_rows(gs, es, Column::Reason, 6, g);
    lemma_columns_fit_rows(gs, es, Column::Cost, 17, g);
    lemma_column_max_fits(gs, es, Column::Model, 5);
    lemma_column_max_fits(gs, es, Column::Bench, 5);
    lemma_column_max_fits(gs, es, Column::Agent, 9);
    lemma_column_max_fits(gs, es, Column::InTokens, 2);
    lemma_column_max_fits(gs, es, Column::OutTokens, 3);
    lemma_column_max_fits(gs, es, Column::Reason, 6);
    lemma_column_max_fits(gs, es, Column::Cost, 17);
    lemma_decimal_len(e.prompt_tokens as nat);
    lemma_decimal_len(e.completion_tokens as nat);
    lemma_decimal_len(e.reasoning_tokens as nat);
    lemma_decimal_len(e.cost as nat);
    assert forall|i: int|
        0 <= i < NCOLS - 1 && i != 3 && i != 4 && (i > 2 || is_printable_ascii(t[i])) implies ansi_width_of(
        #[trigger] t[i],
    ) <= width_seq(w)[i] by {
        if i <= 2 {
            vstd::utf8::is_ascii_chars_encode_utf8(t[i]);
            assert(vstd::utf8::is_ascii_chars(t[i]));
        } else if i == 8 {
            let c = cost_text(e.cost as nat);
            assert(is_printable_ascii(c)) by {
                let d = decimal_text(e.cost as nat);
                assert forall|j: int| 0 <= j < c.len() implies ' ' <= #[trigger] c[j] && c[j] <= '~' by {
                    if 1 <= j < 1 + d.len() {
                        assert(c[j] == d[j - 1]);
                    }
                }
            }
        } else if i == 7 {
            if e.reasoning_tokens == 0 {
                assert(is_printable_ascii(t[i]));
            }
        }
    }
}

/// The agent of a bench identifier: what follows its last `+`, empty for a
/// bench run without an agent.
pub open spec fn agent_of(id: Seq<char>) -> Seq<char> {
    match agent_split(id).1 {
        Some(a) => a,
        None => Seq::empty(),
    }
}

/// The report rows, sorted by a column, come in ascending order of what
/// that column shows: by cost, input, output or reasoning tokens the
/// aggregate amount of each row is no greater than that of any row after
/// it; by bench, model or agent no row's text sorts before that of a row
/// listed ahead of it.
pub proof fn lemma_sorted_rows_ascend(
    gs: Seq<(BenchModelKey, Vec<ScoredBench>)>,
    es: Seq<(BenchModelKey, EntryAgg)>,
    order: Seq<usize>,
    c: SortColumn,
    a: int,
    b: int,
)
    requires
        is_order(order, gs.len()),
        sorted_stably(order, gs, es, c),
        0 <= a < b < order.len(),
    ensures
        c == SortColumn::Cost ==> entry_for(es, gs[order[a] as int].0@).cost <= entry_for(
            es,
            gs[order[b] as int].0@,
        ).cost,
        c == SortColumn::In ==> entry_for(es, gs[order[a] as int].0@).prompt_tokens <= entry_for(
            es,
            gs[order[b] as int].0@,
        ).prompt_tokens,
        c == SortColumn::Out ==> entry_for(es, gs[order[a] as int].0@).completion_tokens
            <= entry_for(es, gs[order[b] as int].0@).completion_tokens,
        c == SortColumn::Reason ==> entry_for(es, gs[order[a] as int].0@).reasoning_tokens
            <= entry_for(es, gs[order[b] as int].0@).reasoning_tokens,
        c == SortColumn::Bench ==> !lex_lt(gs[order[b] as int].0.bench_id.text(), gs[order[a] as int].0.bench_id.text()),
        c == SortColumn::Model ==> !lex_lt(gs[order[b] as int].0.model_id@, gs[order[a] as int].0.model_id@),
        c == SortColumn::Agent ==> !lex_lt(
            agent_of(gs[order[b] as int].0.bench_id.text()),
            agent_of(gs[order[a] as int].0.bench_id.text()),
        ),
{
    lemma_lex_irreflexive(Seq::<char>::empty());
    assert(!key_lt(
        row_key(gs[order[b] as int], es, c),
        row_key(gs[order[a] as int], es, c),
    ));
}

/// The report counts every result it shows once: its total number of runs
/// is the number of scored results in its groups.
pub proof fn lemma_report_counts_results(
    gs: Seq<(BenchModelKey, Vec<ScoredBench>)>,
    es: Seq<(BenchModelKey, EntryAgg)>,
)
    requires
        groups_well_formed(gs),
        es.len() == gs.len(),
        forall|g: int|
            0 <= g < es.len() ==> (#[trigger] es[g]).0@ == gs[g].0@ && es[g].1 == entry_of(gs[g].1@),
        forall|g: int| 0 <= g < gs.len() ==> (#[trigger] gs[g]).1@.len() <= usize::MAX,
    ensures
        sum_tally(report_values(gs, es), Tally::Runs) == groups_size(gs),
{
    assert forall|g: int| 0 <= g < gs.len() implies entry_for(es, (#[trigger] gs[g]).0@) == es[g].1 by {
        assert forall|j: int| 0 <= j < g implies (#[trigger] es[j]).0@ != gs[g].0@ by {
            assert(es[j].0@ == gs[j].0@);
        }
        lemma_entry_index(es, gs[g].0@, g);
    }
    lemma_report_counts_prefix(gs, es, gs.len() as int);
    assert(gs.take(gs.len() as int) =~= gs);
    assert(report_values(gs, es).take(gs.len() as int) =~= report_values(gs, es));
}

proof fn lemma_report_counts_prefix(
    gs: Seq<(BenchModelKey, Vec<ScoredBench>)>,
    es: Seq<(BenchModelKey, EntryAgg)>,
    k: int,
)
    requires
        0 <= k <= gs.len(),
        forall|g: int| 0 <= g < gs.len() ==> entry_for(es, (#[trigger] gs[g]).0@) == entry_of(gs[g].1@),
        forall|g: int| 0 <= g < gs.len() ==> (#[trigger] gs[g]).1@.len() <= usize::MAX,
    ensures
        sum_tally(report_values(gs, es).take(k), Tally::Runs) == groups_size(gs.take(k)),
    decreases k,
{
    if k == 0 {
        assert(report_values(gs, es).take(0) =~= Seq::<EntryAgg>::empty());
        assert(gs.take(0) =~= Seq::<(BenchModelKey, Vec<ScoredBench>)>::empty());
    } else {
        lemma_report_counts_prefix(gs, es, k - 1);
        let vs = report_values(gs, es);
        assert(vs.take(k) =~= vs.take(k - 1).push(vs[k - 1]));
        lemma_sum_tally_push(vs.take(k - 1), vs[k - 1], Tally::Runs);
        assert(gs.take(k).drop_last() =~= gs.take(k - 1));
        assert(vs[k - 1] == entry_for(es, gs[k - 1].0@));
        assert(gs.take(k).last() == gs[k - 1]);
    }
}

/// The passed cell of a totals row: `passed/runs`, the passed count in cyan
/// when every run passed, else in red.
pub fn format_totals_passed(totals: &Totals) -> (r: String)
    ensures
        r@ == passed_text(totals.runs as nat, totals.passed as nat, totals.passed == totals.runs),
{
    format_passed(totals.runs, totals.passed, totals.passed == totals.runs)
}

/// The reasoning-token cell: the count, or `-` when there were none.
pub open spec fn reason_text(n: nat) -> Seq<char> {
    if n > 0 {
        decimal_text(n)
    } else {
        "-"@
    }
}

/// The reasoning-token cell: the count, or `-` when there were none.
pub fn reason_cell(reasoning_tokens: u32) -> (r: String)
    ensures
        r@ == reason_text(reasoning_tokens as nat),
{
    if reasoning_tokens > 0 {
        decimal(reasoning_tokens as u64)
    } else {
        String::from_str("-")
    }
}

/// The cost cell: `$`, the cost and nine decimal places.
pub open spec fn cost_text(cost: nat) -> Seq<char> {
    "$"@ + decimal_text(cost) + ".000000000"@
}

/// The cost cell: `$`, the cost and nine decimal places.
pub fn cost_cell(cost: u64) -> (r: String)
    ensures
        r@ == cost_text(cost as nat),
{
    let mut out = String::from_str("$");
    let d = decimal(cost);
    out.append(d.as_str());
    out.append(".000000000");
    out
}

/// The result cell of an aggregate: the pass mark when every run passed.
pub open spec fn pass_fail_text(passed_all: bool) -> Seq<char> {
    if passed_all {
        cyan_text(mark_pass())
    } else {
        red_text(mark_fail())
    }
}

/// The cells of the row of `key`: model, bench without its agent, agent,
/// result, passed/runs, input, output and reasoning tokens, cost, and the
/// given cost-difference cell.
pub open spec fn detail_texts(key: (Seq<char>, Seq<char>), entry: EntryAgg, cost_diff: Seq<char>) -> Seq<
    Seq<char>,
> {
    let passed_all = entry.passed == entry.runs;
    let split = agent_split(key.0);
    seq![
        key.1,
        split.0,
        match split.1 {
            Some(a) => a,
            None => Seq::empty(),
        },
        pass_fail_text(passed_all),
        passed_text(entry.runs as nat, entry.passed as nat, passed_all),
        decimal_text(entry.prompt_tokens as nat),
        decimal_text(entry.completion_tokens as nat),
        reason_text(entry.reasoning_tokens as nat),
        cost_text(entry.cost as nat),
        cost_diff,
    ]
}

/// The cells of the row of `key` in the report, from its aggregate and its
/// cost-difference cell.
pub fn detail_cells(key: &BenchModelKey, entry: &EntryAgg, cost_diff: String) -> (r: [String; NCOLS])
    ensures
        texts_of(r) == detail_texts(key@, *entry, cost_diff@),
{
    let passed_all = entry.passed == entry.runs;
    let (base, agent) = split_agent_suffix(key.bench_id.as_str());
    let agent = match agent {
        Some(a) => a,
        None => String::new(),
    };
    let r: [String; NCOLS] = [
        key.model_id.0.clone(),
        base,
        agent,
        format_pass_fail(passed_all),
        format_passed(entry.runs, entry.passed, passed_all),
        decimal(entry.prompt_tokens as u64),
        decimal(entry.completion_tokens as u64),
        reason_cell(entry.reasoning_tokens),
        cost_cell(entry.cost),
        cost_diff,
    ];
    assert(texts_of(r) =~= detail_texts(key@, *entry, cost_diff@));
    r
}

/// The cells of a totals row: blank model and bench, the label, the pass
/// percentage cell, passed/runs, input and output tokens, reasoning tokens,
/// the total cost, and the median cost-difference cell.
pub open spec fn totals_texts(label: Seq<char>, pct_pass: Seq<char>, t: Totals, median_diff: Seq<char>) -> Seq<
    Seq<char>,
> {
    seq![
        Seq::empty(),
        Seq::empty(),
        label,
        pct_pass,
        passed_text(t.runs as nat, t.passed as nat, t.passed == t.runs),
        decimal_text(t.prompt_tokens as nat),
        decimal_text(t.completion_tokens as nat),
        reason_text(t.reasoning_tokens as nat),
        cost_text(t.cost as nat),
        median_diff,
    ]
}

/// The cells of a totals row (an agent's or the grand totals), from its
/// label, totals, and its pass-percentage and median cost-difference cells.
pub fn totals_cells(label: String, pct_pass: String, totals: &Totals, median_diff: String) -> (r: [String; NCOLS])
    ensures
        texts_of(r) == totals_texts(label@, pct_pass@, *totals, median_diff@),
{
    let r: [String; NCOLS] = [
        String::new(),
        String::new(),
        label,
        pct_pass,
        format_totals_passed(totals),
        decimal(totals.prompt_tokens as u64),
        decimal(totals.completion_tokens as u64),
        reason_cell(totals.reasoning_tokens),
        cost_cell(totals.cost),
        median_diff,
    ];
    assert(texts_of(r) =~= totals_texts(label@, pct_pass@, *totals, median_diff@));
    r
}

} // verus!
