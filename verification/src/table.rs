//! Layout of the score table: column widths, padded cells, rows and their
//! rendering with coloured dividers, and the coloured pass/fail cells.
use crate::text::push_char;
use ansi_width::ansi_width;
use owo_colors::colors::css::Gray;
use owo_colors::colors::{Cyan, Red};
use owo_colors::OwoColorize;
use vstd::prelude::*;
use vstd::string::StringExecFns;

verus! {

/// Number of columns of the score table.
pub const NCOLS: usize = 10;

/// Display width that `ansi_width` computes for a text that is not all
/// printable ASCII: escape sequences count for nothing, other characters for
/// their Unicode width. Named here.
pub uninterp spec fn ansi_width_beyond_ascii(s: Seq<char>) -> usize;

/// Every character of `s` is printable ASCII (space to `~`).
pub open spec fn is_printable_ascii(s: Seq<char>) -> bool {
    forall|i: int| 0 <= i < s.len() ==> ' ' <= #[trigger] s[i] && s[i] <= '~'
}

/// Display width that `ansi_width` computes for a text: one per character
/// for printable ASCII text, otherwise named.
pub open spec fn ansi_width_of(s: Seq<char>) -> usize {
    if is_printable_ascii(s) {
        s.len() as usize
    } else {
        ansi_width_beyond_ascii(s)
    }
}

/// The escape sequence that ends a foreground colour.
pub open spec fn fg_reset() -> Seq<char> {
    "\x1b[39m"@
}

/// A text in the CSS gray foreground colour (RGB 128, 128, 128), as
/// `owo_colors` writes it: the colour's escape sequence, the text, the reset.
pub open spec fn gray_text(s: Seq<char>) -> Seq<char> {
    "\x1b[38;2;128;128;128m"@ + s + fg_reset()
}

/// A text in the cyan foreground colour, as `owo_colors` writes it.
pub open spec fn cyan_text(s: Seq<char>) -> Seq<char> {
    "\x1b[36m"@ + s + fg_reset()
}

/// A text in the red foreground colour, as `owo_colors` writes it.
pub open spec fn red_text(s: Seq<char>) -> Seq<char> {
    "\x1b[31m"@ + s + fg_reset()
}

/// `ansi_width::ansi_width`: the display width of `s`. Outside escape
/// sequences the source adds each character's Unicode width, which is 1 for
/// every printable ASCII character; the width of other text is named.
#[verifier::external_body]
pub(crate) fn text_width(s: &str) -> (r: usize)
    ensures
        r == ansi_width_of(s@),
        !is_printable_ascii(s@) ==> r == ansi_width_beyond_ascii(s@),
{
    ansi_width(s)
}

/// `OwoColorize::fg::<css::Gray>` written out with `to_string`: the escape
/// sequence of the RGB colour, the text, and the reset of the foreground colour.
#[verifier::external_body]
pub(crate) fn gray(s: &str) -> (r: String)
    ensures
        r@ == gray_text(s@),
{
    s.fg::<Gray>().to_string()
}

/// `OwoColorize::fg::<Cyan>` written out with `to_string`: the escape
/// sequence of cyan, the text, and the reset of the foreground colour.
#[verifier::external_body]
fn cyan(s: &str) -> (r: String)
    ensures
        r@ == cyan_text(s@),
{
    s.fg::<Cyan>().to_string()
}

/// `OwoColorize::fg::<Red>` written out with `to_string`: the escape
/// sequence of red, the text, and the reset of the foreground colour.
#[verifier::external_body]
fn red(s: &str) -> (r: String)
    ensures
        r@ == red_text(s@),
{
    s.fg::<Red>().to_string()
}

// ── Numbers ─────────────────────────────────────────────────────────────────

/// Number of decimal digits of `n` (1 for 0).
pub open spec fn decimal_digits(n: nat) -> nat
    decreases n,
{
    if n < 10 {
        1
    } else {
        1 + decimal_digits(n / 10)
    }
}

pub(crate) proof fn lemma_decimal_digits_bound(n: nat, k: nat, p: nat)
    requires
        k >= 1,
        p == pow10(k),
        n < p,
    ensures
        decimal_digits(n) <= k,
    decreases k,
{
    if n >= 10 {
        assert(k >= 2) by {
            if k == 1 {
                assert(pow10(1) == 10 * pow10(0));
            }
        }
        assert(pow10(k) == 10 * pow10((k - 1) as nat));
        assert(n / 10 < pow10((k - 1) as nat));
        lemma_decimal_digits_bound(n / 10, (k - 1) as nat, pow10((k - 1) as nat));
    }
}

/// `10` to the power `k`.
pub open spec fn pow10(k: nat) -> nat
    decreases k,
{
    if k == 0 {
        1
    } else {
        10 * pow10((k - 1) as nat)
    }
}

/// Number of decimal digits needed to write `n`.
pub fn digits(n: u32) -> (r: usize)
    ensures
        r == decimal_digits(n as nat),
{
    proof {
        assert(pow10(10) == 10000000000) by {
            reveal_with_fuel(pow10, 11);
        }
        lemma_decimal_digits_bound(n as nat, 10, pow10(10));
    }
    let mut m: u32 = n;
    let mut count: usize = 1;
    while m >= 10
        invariant
            1 <= count,
            decimal_digits(n as nat) == count - 1 + decimal_digits(m as nat),
            decimal_digits(n as nat) <= 10,
        decreases m,
    {
        m = m / 10;
        count = count + 1;
    }
    count
}

/// Number of decimal digits needed to write `n`.
pub fn digits_u64(n: u64) -> (r: usize)
    ensures
        r == decimal_digits(n as nat),
        r <= 20,
{
    proof {
        assert(pow10(20) == 100000000000000000000) by {
            reveal_with_fuel(pow10, 21);
        }
        lemma_decimal_digits_bound(n as nat, 20, pow10(20));
    }
    let mut m: u64 = n;
    let mut count: usize = 1;
    while m >= 10
        invariant
            1 <= count,
            decimal_digits(n as nat) == count - 1 + decimal_digits(m as nat),
            decimal_digits(n as nat) <= 20,
        decreases m,
    {
        m = m / 10;
        count = count + 1;
    }
    count
}

/// The decimal digit `d` (below 10).
pub open spec fn digit_char(d: nat) -> char {
    if d == 0 {
        '0'
    } else if d == 1 {
        '1'
    } else if d == 2 {
        '2'
    } else if d == 3 {
        '3'
    } else if d == 4 {
        '4'
    } else if d == 5 {
        '5'
    } else if d == 6 {
        '6'
    } else if d == 7 {
        '7'
    } else if d == 8 {
        '8'
    } else {
        '9'
    }
}

/// `n` written in decimal, without leading zeros.
pub open spec fn decimal_text(n: nat) -> Seq<char>
    decreases n,
{
    if n < 10 {
        seq![digit_char(n)]
    } else {
        decimal_text(n / 10).push(digit_char(n % 10))
    }
}

fn digit(d: u64) -> (c: char)
    requires
        d < 10,
    ensures
        c == digit_char(d as nat),
{
    if d == 0 {
        '0'
    } else if d == 1 {
        '1'
    } else if d == 2 {
        '2'
    } else if d == 3 {
        '3'
    } else if d == 4 {
        '4'
    } else if d == 5 {
        '5'
    } else if d == 6 {
        '6'
    } else if d == 7 {
        '7'
    } else if d == 8 {
        '8'
    } else {
        '9'
    }
}

/// `n` written in decimal.
pub fn decimal(n: u64) -> (r: String)
    ensures
        r@ == decimal_text(n as nat),
{
    let mut rev: Vec<char> = Vec::new();
    let mut m: u64 = n;
    if m == 0 {
        rev.push('0');
    }
    while m > 0
        invariant
            n > 0 ==> decimal_text(n as nat) == (if m > 0 {
                decimal_text(m as nat)
            } else {
                Seq::<char>::empty()
            }) + rev@.reverse(),
            n == 0 ==> m == 0 && rev@ == seq!['0'],
        decreases m,
    {
        let d = m % 10;
        let c = digit(d);
        let ghost before = rev@;
        rev.push(c);
        assert(rev@.reverse() =~= seq![c] + before.reverse());
        if m < 10 {
            assert(decimal_text(m as nat) == seq![c]);
        } else {
            assert(decimal_text(m as nat) == decimal_text((m / 10) as nat).push(c));
        }
        m = m / 10;
    }
    let mut out = String::new();
    let mut i: usize = rev.len();
    while i > 0
        invariant
            i <= rev@.len(),
            out@ == rev@.subrange(i as int, rev@.len() as int).reverse(),
        decreases i,
    {
        i = i - 1;
        push_char(&mut out, rev[i]);
        assert(rev@.subrange(i as int, rev@.len() as int).reverse() =~= rev@.subrange(
            i as int + 1,
            rev@.len() as int,
        ).reverse().push(rev@[i as int]));
    }
    assert(rev@.subrange(0, rev@.len() as int) =~= rev@);
    proof {
        if n == 0 {
            assert(rev@.reverse() =~= seq!['0']);
        } else {
            assert(decimal_text(n as nat) =~= rev@.reverse());
        }
    }
    out
}

// ── Padding and rows ────────────────────────────────────────────────────────

/// `s` padded with `ch` to display width `amount`; unchanged when already
/// that wide.
pub open spec fn padded(s: Seq<char>, amount: nat, ch: char) -> Seq<char> {
    let w = ansi_width_of(s) as nat;
    if w < amount {
        s + Seq::new((amount - w) as nat, |_i: int| ch)
    } else {
        s
    }
}

/// Pads `input` with `ch` up to display width `amount`.
pub fn pad_str(input: &str, amount: usize, ch: char) -> (r: String)
    ensures
        r@ == padded(input@, amount as nat, ch),
        input@.len() == 0 ==> r@ == Seq::new(amount as nat, |_i: int| ch),
{
    let visual_len = text_width(input);
    let mut out = String::from_str(input);
    if visual_len < amount {
        let diff = amount - visual_len;
        let mut k: usize = 0;
        while k < diff
            invariant
                k <= diff,
                out@ == input@ + Seq::new(k as nat, |_i: int| ch),
            decreases diff - k,
        {
            push_char(&mut out, ch);
            k += 1;
            assert(out@ =~= input@ + Seq::new(k as nat, |_i: int| ch));
        }
    }
    proof {
        if visual_len < amount {
            assert(out@ =~= padded(input@, amount as nat, ch));
        }
        if input@.len() == 0 {
            assert(out@ =~= Seq::new(amount as nat, |_i: int| ch));
        }
    }
    out
}

/// The width of each column of the score table.
#[derive(Debug, Clone, Copy, PartialEq, Eq, Structural)]
pub struct ColWidths {
    pub model: usize,
    pub bench: usize,
    pub agents_md: usize,
    pub result: usize,
    pub passed: usize,
    pub in_tokens: usize,
    pub out_tokens: usize,
    pub reason: usize,
    pub cost: usize,
    pub cost_diff: usize,
}

/// The widths in column order.
pub open spec fn width_seq(w: ColWidths) -> Seq<usize> {
    seq![
        w.model,
        w.bench,
        w.agents_md,
        w.result,
        w.passed,
        w.in_tokens,
        w.out_tokens,
        w.reason,
        w.cost,
        w.cost_diff,
    ]
}

impl ColWidths {
    /// The widths in column order: model, bench, AGENTS.md, result, passed,
    /// in, out, reason, cost, cost difference.
    pub fn as_array(&self) -> (r: [usize; NCOLS])
        ensures
            r@ == width_seq(*self),
    {
        let r = [
            self.model,
            self.bench,
            self.agents_md,
            self.result,
            self.passed,
            self.in_tokens,
            self.out_tokens,
            self.reason,
            self.cost,
            self.cost_diff,
        ];
        assert(r@ =~= width_seq(*self));
        r
    }
}

/// A row of the table: one padded cell per column.
pub struct Row {
    cells: Vec<String>,
}

/// The cells of `cols` padded with spaces to the widths `w`.
pub open spec fn padded_cells(cols: Seq<Seq<char>>, w: ColWidths) -> Seq<Seq<char>> {
    Seq::new(NCOLS as nat, |i: int| padded(cols[i], width_seq(w)[i] as nat, ' '))
}

/// The texts of an array of strings.
pub open spec fn texts_of(cols: [String; NCOLS]) -> Seq<Seq<char>> {
    Seq::new(NCOLS as nat, |i: int| cols@[i]@)
}

/// The header labels.
pub open spec fn header_labels() -> Seq<Seq<char>> {
    seq![
        "model"@,
        "bench"@,
        "AGENTS.md"@,
        "result"@,
        "passed"@,
        "in"@,
        "out"@,
        "reason"@,
        "cost/run ($USD)"@,
        "% cost Δ"@,
    ]
}

/// The labels of the summary header: only the aggregated columns.
pub open spec fn summary_labels() -> Seq<Seq<char>> {
    seq![
        Seq::<char>::empty(),
        Seq::<char>::empty(),
        "AGENTS.md"@,
        "% pass"@,
        "passed"@,
        "in"@,
        "out"@,
        "reason"@,
        "total cost ($USD)"@,
        "med % cost Δ"@,
    ]
}

/// The texts of a rendered row: the divider, then each cell followed by
/// the divider.
pub open spec fn rendered(cells: Seq<Seq<char>>, div: Seq<char>) -> Seq<char>
    decreases cells.len(),
{
    if cells.len() == 0 {
        div
    } else {
        rendered(cells.drop_last(), div) + cells.last() + div
    }
}

/// The texts of a rendered separator: the junction, then each cell in
/// gray followed by the junction.
pub open spec fn rendered_separator(cells: Seq<Seq<char>>, junction: Seq<char>) -> Seq<char>
    decreases cells.len(),
{
    if cells.len() == 0 {
        junction
    } else {
        rendered_separator(cells.drop_last(), junction) + gray_text(cells.last()) + junction
    }
}

impl Row {
    /// The cells' texts.
    pub closed spec fn cells(&self) -> Seq<Seq<char>> {
        self.cells@.map_values(|c: String| c@)
    }

    /// A row of `cols`, each padded with spaces to its column's width.
    pub fn new(cols: [String; NCOLS], widths: &ColWidths) -> (r: Row)
        ensures
            r.cells() == padded_cells(texts_of(cols), *widths),
    {
        let w = widths.as_array();
        let mut cells: Vec<String> = Vec::new();
        let mut i: usize = 0;
        while i < NCOLS
            invariant
                i <= NCOLS,
                w@ == width_seq(*widths),
                cells@.map_values(|c: String| c@) == padded_cells(texts_of(cols), *widths).take(
                    i as int,
                ),
            decreases NCOLS - i,
        {
            let cell = pad_str(cols[i].as_str(), w[i], ' ');
            let ghost before = cells@.map_values(|c: String| c@);
            cells.push(cell);
            assert(cells@.map_values(|c: String| c@) =~= before.push(cell@));
            assert(padded_cells(texts_of(cols), *widths).take(i as int + 1) =~= padded_cells(
                texts_of(cols),
                *widths,
            ).take(i as int).push(padded_cells(texts_of(cols), *widths)[i as int]));
            i += 1;
        }
        assert(padded_cells(texts_of(cols), *widths).take(NCOLS as int) =~= padded_cells(
            texts_of(cols),
            *widths,
        ));
        Row { cells }
    }

    /// The header row.
    pub fn header(w: &ColWidths) -> (r: Row)
        ensures
            r.cells() == padded_cells(header_labels(), *w),
    {
        let cols: [String; NCOLS] = [
            String::from_str("model"),
            String::from_str("bench"),
            String::from_str("AGENTS.md"),
            String::from_str("result"),
            String::from_str("passed"),
            String::from_str("in"),
            String::from_str("out"),
            String::from_str("reason"),
            String::from_str("cost/run ($USD)"),
            String::from_str("% cost Δ"),
        ];
        assert(texts_of(cols) =~= header_labels());
        Row::new(cols, w)
    }

    /// The summary header: labels only on the aggregated columns.
    pub fn summary_header(w: &ColWidths) -> (r: Row)
        ensures
            r.cells() == padded_cells(summary_labels(), *w),
    {
        let cols: [String; NCOLS] = [
            String::new(),
            String::new(),
            String::from_str("AGENTS.md"),
            String::from_str("% pass"),
            String::from_str("passed"),
            String::from_str("in"),
            String::from_str("out"),
            String::from_str("reason"),
            String::from_str("total cost ($USD)"),
            String::from_str("med % cost Δ"),
        ];
        assert(texts_of(cols) =~= summary_labels());
        Row::new(cols, w)
    }

    /// The separator row: each cell all dashes, as wide as its column.
    pub fn separator(w: &ColWidths) -> (r: Row)
        ensures
            r.cells() == Seq::new(
                NCOLS as nat,
                |i: int| Seq::new(width_seq(*w)[i] as nat, |_j: int| '-'),
            ),
    {
        let ws = w.as_array();
        let mut cells: Vec<String> = Vec::new();
        let ghost target = Seq::new(
            NCOLS as nat,
            |i: int| Seq::new(width_seq(*w)[i] as nat, |_j: int| '-'),
        );
        let mut i: usize = 0;
        while i < NCOLS
            invariant
                i <= NCOLS,
                ws@ == width_seq(*w),
                target == Seq::new(
                    NCOLS as nat,
                    |i: int| Seq::new(width_seq(*w)[i] as nat, |_j: int| '-'),
                ),
                cells@.map_values(|c: String| c@) == target.take(i as int),
            decreases NCOLS - i,
        {
            let empty = String::new();
            let cell = pad_str(empty.as_str(), ws[i], '-');
            assert(cell@ =~= target[i as int]);
            let ghost before = cells@.map_values(|c: String| c@);
            cells.push(cell);
            assert(cells@.map_values(|c: String| c@) =~= before.push(cell@));
            assert(target.take(i as int + 1) =~= target.take(i as int).push(target[i as int]));
            i += 1;
        }
        assert(target.take(NCOLS as int) =~= target);
        Row { cells }
    }

    /// The row with gray ` | ` dividers around and between its cells.
    pub fn render(&self) -> (r: String)
        ensures
            r@ == rendered(self.cells(), gray_text(" | "@)),
    {
        let sep = gray(" | ");
        let mut out = String::from_str(sep.as_str());
        let mut i: usize = 0;
        while i < self.cells.len()
            invariant
                i <= self.cells@.len(),
                sep@ == gray_text(" | "@),
                out@ == rendered(self.cells().take(i as int), sep@),
            decreases self.cells.len() - i,
        {
            assert(self.cells().take(i as int + 1).drop_last() =~= self.cells().take(i as int));
            out.append(self.cells[i].as_str());
            out.append(sep.as_str());
            i += 1;
        }
        assert(self.cells().take(self.cells@.len() as int) =~= self.cells());
        out
    }

    /// The row as a separator: gray ` + ` junctions, cells in gray.
    pub fn render_separator(&self) -> (r: String)
        ensures
            r@ == rendered_separator(self.cells(), gray_text(" + "@)),
    {
        let junction = gray(" + ");
        let mut out = String::from_str(junction.as_str());
        let mut i: usize = 0;
        while i < self.cells.len()
            invariant
                i <= self.cells@.len(),
                junction@ == gray_text(" + "@),
                out@ == rendered_separator(self.cells().take(i as int), junction@),
            decreases self.cells.len() - i,
        {
            assert(self.cells().take(i as int + 1).drop_last() =~= self.cells().take(i as int));
            let cell = gray(self.cells[i].as_str());
            out.append(cell.as_str());
            out.append(junction.as_str());
            i += 1;
        }
        assert(self.cells().take(self.cells@.len() as int) =~= self.cells());
        out
    }
}

// ── Coloured cells ──────────────────────────────────────────────────────────

/// The mark of a passing bench.
pub open spec fn mark_pass() -> Seq<char> {
    "✅ Pass"@
}

/// The mark of a failing bench.
pub open spec fn mark_fail() -> Seq<char> {
    "❌ Fail"@
}

/// The result cell: the pass mark in cyan, or the fail mark in red.
pub fn format_pass_fail(passed: bool) -> (r: String)
    ensures
        r@ == if passed {
            cyan_text(mark_pass())
        } else {
            red_text(mark_fail())
        },
{
    if passed {
        cyan("✅ Pass")
    } else {
        red("❌ Fail")
    }
}

/// `passed/runs`: the number passed in cyan when all passed, else in red;
/// the number of runs in cyan.
pub open spec fn passed_text(n_runs: nat, n_passed: nat, passed_all: bool) -> Seq<char> {
    (if passed_all {
        cyan_text(decimal_text(n_passed))
    } else {
        red_text(decimal_text(n_passed))
    }) + "/"@ + cyan_text(decimal_text(n_runs))
}

/// The passed cell of a row: `passed/runs`, coloured.
pub fn format_passed(n_runs: usize, n_passed: usize, passed_all: bool) -> (r: String)
    ensures
        r@ == passed_text(n_runs as nat, n_passed as nat, passed_all),
{
    let np = decimal(n_passed as u64);
    let mut out = if passed_all {
        cyan(np.as_str())
    } else {
        red(np.as_str())
    };
    out.append("/");
    let nr = decimal(n_runs as u64);
    let runs = cyan(nr.as_str());
    out.append(runs.as_str());
    out
}

/// The response number of a response detail: `<n>R`, in cyan when the
/// response passed, else in red.
pub fn format_response_number(response_number: usize, pass: bool) -> (r: String)
    ensures
        r@ == if pass {
            cyan_text(decimal_text(response_number as nat) + "R"@)
        } else {
            red_text(decimal_text(response_number as nat) + "R"@)
        },
{
    let mut text = decimal(response_number as u64);
    text.append("R");
    if pass {
        cyan(text.as_str())
    } else {
        red(text.as_str())
    }
}

/// A number written in decimal has as many characters as its digit count,
/// so the columns sized with `digits` fit the numbers `decimal` writes.
pub proof fn lemma_decimal_len(n: nat)
    ensures
        decimal_text(n).len() == decimal_digits(n),
        is_printable_ascii(decimal_text(n)),
    decreases n,
{
    if n >= 10 {
        lemma_decimal_len(n / 10);
        let t = decimal_text(n / 10);
        assert forall|i: int| 0 <= i < decimal_text(n).len() implies ' ' <= #[trigger] decimal_text(n)[i]
            && decimal_text(n)[i] <= '~' by {
            if i < t.len() {
                assert(decimal_text(n)[i] == t[i]);
            }
        }
    }
}

} // verus!
