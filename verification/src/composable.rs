//! Benches written as Markdown files with TOML frontmatter, optionally
//! composed with agent prompts (`AGENTS.md` files).
use crate::bench_id::{agent_split, lemma_split_with_agent, with_agent, with_agent_text, BenchId};
use crate::evaluate::{make_evaluator, Evaluator};
use crate::glob_pattern::{matches_pattern, pattern_accepts};
use crate::order::{
    lemma_lex_asymmetric, lemma_lex_irreflexive, lemma_lex_total, lemma_lex_transitive, lex_compare,
    lex_lt, LexOrder,
};
use crate::text::{
    has_char, chars_of, find_substring, normalized, occurs_at, push_char, string_of_range, trim, trim_spec,
};
use vstd::prelude::*;
use vstd::string::StringExecFns;

verus! {

/// Errors of bench and agent discovery.
#[derive(Debug, Clone, Copy, PartialEq, Eq, Structural)]
pub enum ComposableError {
    /// Failed to discover benches (including: no bench matched the pattern).
    Discover,
    /// Failed to parse the frontmatter.
    Frontmatter,
    /// Failed to load the agent prompts.
    LoadAgents,
}

/// A bench found on disk: its identifier, expected answer and prompt.
pub struct DiscoveredBench {
    pub id: String,
    pub expected: String,
    pub prompt: String,
}

/// The frontmatter delimiter.
pub open spec fn delimiter() -> Seq<char> {
    seq!['-', '-', '-']
}

/// `s` begins with `p`.
pub open spec fn starts_with(s: Seq<char>, p: Seq<char>) -> bool {
    p.len() <= s.len() && s.subrange(0, p.len() as int) == p
}

/// `s` without its leading `c` characters.
pub open spec fn trim_start_char(s: Seq<char>, c: char) -> Seq<char>
    decreases s.len(),
{
    if s.len() > 0 && s[0] == c {
        trim_start_char(s.drop_first(), c)
    } else {
        s
    }
}

/// First position of `p` in `s`.
pub open spec fn first_occurrence(s: Seq<char>, p: Seq<char>) -> Option<int> {
    if exists|i: int| occurs_at(s, p, i) {
        Some(choose|i: int| occurs_at(s, p, i) && forall|k: int| 0 <= k < i ==> !occurs_at(s, p, k))
    } else {
        None
    }
}

/// The frontmatter and the prompt of a bench file: the file starts with
/// `---`, the frontmatter runs to the next `---`, and the prompt follows it.
/// The frontmatter is trimmed and the prompt loses its leading line breaks.
pub open spec fn frontmatter_parts(content: Seq<char>) -> Option<(Seq<char>, Seq<char>)> {
    if !starts_with(content, delimiter()) {
        None
    } else {
        let rest = content.subrange(3, content.len() as int);
        match first_occurrence(rest, delimiter()) {
            None => None,
            Some(k) => Some(
                (
                    trim_spec(rest.subrange(0, k)),
                    trim_start_char(rest.subrange(k + 3, rest.len() as int), '\n'),
                ),
            ),
        }
    }
}

/// The first position of `p` in `s` is `i` when `p` occurs at `i` and nowhere
/// before.
proof fn lemma_first_occurrence(s: Seq<char>, p: Seq<char>, i: int)
    requires
        occurs_at(s, p, i),
        forall|k: int| 0 <= k < i ==> !occurs_at(s, p, k),
    ensures
        first_occurrence(s, p) == Some(i),
{
    let j = choose|j: int| occurs_at(s, p, j) && forall|k: int| 0 <= k < j ==> !occurs_at(s, p, k);
    assert(occurs_at(s, p, j));
    if j < i {
        assert(!occurs_at(s, p, j));
    }
    if i < j {
        assert(!occurs_at(s, p, i));
    }
}

/// Removes the leading `c` characters of `v[a..b]`.
fn skip_leading(v: &Vec<char>, a: usize, b: usize, c: char) -> (r: usize)
    requires
        a <= b <= v@.len(),
    ensures
        a <= r <= b,
        trim_start_char(v@.subrange(a as int, b as int), c) == v@.subrange(r as int, b as int),
{
    let mut i = a;
    while i < b && v[i] == c
        invariant
            a <= i <= b <= v@.len(),
            trim_start_char(v@.subrange(a as int, b as int), c) == trim_start_char(
                v@.subrange(i as int, b as int),
                c,
            ),
        decreases b - i,
    {
        assert(v@.subrange(i as int, b as int).drop_first() =~= v@.subrange(i as int + 1, b as int));
        i += 1;
    }
    i
}

/// Splits a bench file into its (trimmed) TOML frontmatter and its prompt.
pub fn split_frontmatter(content: &str) -> (r: Result<(String, String), ComposableError>)
    ensures
        r is Ok <==> frontmatter_parts(content@) is Some,
        r matches Ok(p) ==> frontmatter_parts(content@) == Some((p.0@, p.1@)),
        r matches Err(e) ==> e == ComposableError::Frontmatter,
{
    let v = chars_of(content);
    let n = v.len();
    if n < 3 || v[0] != '-' || v[1] != '-' || v[2] != '-' {
        proof {
            if starts_with(content@, delimiter()) {
                assert(content@.subrange(0, 3)[0] == '-');
                assert(content@.subrange(0, 3)[1] == '-');
                assert(content@.subrange(0, 3)[2] == '-');
            }
        }
        return Err(ComposableError::Frontmatter);
    }
    assert(content@.subrange(0, 3) =~= delimiter());
    let rest_v = {
        let mut r: Vec<char> = Vec::new();
        let mut i: usize = 3;
        while i < n
            invariant
                3 <= i <= n,
                n == v@.len(),
                r@ == v@.subrange(3, i as int),
            decreases n - i,
        {
            assert(v@.subrange(3, i as int + 1) =~= v@.subrange(3, i as int).push(v@[i as int]));
            r.push(v[i]);
            i += 1;
        }
        r
    };
    let mut delim: Vec<char> = Vec::new();
    delim.push('-');
    delim.push('-');
    delim.push('-');
    assert(delim@ =~= delimiter());
    match find_substring(&rest_v, &delim) {
        None => {
            proof {
                assert(!(exists|i: int| occurs_at(rest_v@, delimiter(), i)));
            }
            Err(ComposableError::Frontmatter)
        },
        Some(k) => {
            proof {
                lemma_first_occurrence(rest_v@, delimiter(), k as int);
            }
            let fm = string_of_range(&rest_v, 0, k);
            let fm_trimmed = trim(fm.as_str());
            let start = skip_leading(&rest_v, k + 3, rest_v.len(), '\n');
            let body = string_of_range(&rest_v, start, rest_v.len());
            Ok((fm_trimmed, body))
        },
    }
}

// ── Names from file paths ───────────────────────────────────────────────────

/// `s` with every trailing `.md` removed, as `str::trim_end_matches(".md")`.
pub open spec fn trim_md(s: Seq<char>) -> Seq<char>
    decreases s.len(),
{
    if s.len() >= 3 && s[s.len() - 3] == '.' && s[s.len() - 2] == 'm' && s[s.len() - 1] == 'd' {
        trim_md(s.subrange(0, s.len() - 3))
    } else {
        s
    }
}

/// The name of a bench or agent file: its path (relative to the directory)
/// or file name without the trailing `.md`.
pub fn name_from_path(relative: &str) -> (r: String)
    ensures
        r@ == trim_md(relative@),
{
    let v = chars_of(relative);
    let mut end = v.len();
    assert(v@.subrange(0, v@.len() as int) =~= v@);
    while end >= 3 && v[end - 3] == '.' && v[end - 2] == 'm' && v[end - 1] == 'd'
        invariant
            end <= v@.len(),
            trim_md(relative@) == trim_md(v@.subrange(0, end as int)),
            v@ == relative@,
        decreases end,
    {
        assert(v@.subrange(0, end as int).subrange(0, end - 3) =~= v@.subrange(0, end - 3));
        end -= 3;
    }
    string_of_range(&v, 0, end)
}

/// Ends discovery: no bench matching a non-empty pattern is an error.
pub fn check_discovered(benches: Vec<DiscoveredBench>, pattern: &str) -> (r: Result<
    Vec<DiscoveredBench>,
    ComposableError,
>)
    ensures
        r is Err <==> benches@.len() == 0 && pattern@.len() > 0,
        r matches Ok(b) ==> b@ == benches@,
        r matches Err(e) ==> e == ComposableError::Discover,
{
    if benches.len() == 0 && !pattern.is_empty() {
        Err(ComposableError::Discover)
    } else {
        Ok(benches)
    }
}

/// Whether a discovered file named `name` is selected by `pattern`.
pub fn selected_by(name: &str, pattern: &str) -> (r: bool)
    ensures
        r == pattern_accepts(pattern@, name@),
{
    matches_pattern(name, pattern)
}

// ── Composition ─────────────────────────────────────────────────────────────

/// The prompt of a bench composed with an agent prompt: the agent prompt, a
/// `---` line, then the bench prompt; without an agent, the bench prompt.
pub open spec fn composed_prompt(agent: Option<Seq<char>>, prompt: Seq<char>) -> Seq<char> {
    match agent {
        Some(a) => a + seq!['\n', '-', '-', '-', '\n'] + prompt,
        None => prompt,
    }
}

/// Builds the prompt sent for a bench, with or without an agent prompt.
pub fn compose_prompt(agent: Option<&str>, prompt: &str) -> (r: String)
    ensures
        r@ == composed_prompt(
            match agent {
                Some(a) => Some(a@),
                None => None,
            },
            prompt@,
        ),
{
    match agent {
        Some(a) => {
            let mut s = a.to_owned();
            push_char(&mut s, '\n');
            push_char(&mut s, '-');
            push_char(&mut s, '-');
            push_char(&mut s, '-');
            push_char(&mut s, '\n');
            s.append(prompt);
            s
        },
        None => prompt.to_owned(),
    }
}

/// A bench of the full set: its identifier and the prompt it sends.
pub struct ComposedBench {
    pub id: BenchId,
    pub prompt: String,
}

/// The bench set planned from discovered benches and agents: for each bench,
/// its baseline (identifier and prompt unchanged), then one entry per agent
/// (`id+agent`, agent prompt followed by the bench prompt).
pub open spec fn bench_plan(
    benches: Seq<DiscoveredBench>,
    agents: Seq<(String, String)>,
) -> Seq<(Seq<char>, Seq<char>)>
    decreases benches.len(),
{
    if benches.len() == 0 {
        Seq::empty()
    } else {
        let b = benches.last();
        bench_plan(benches.drop_last(), agents) + seq![(b.id@, b.prompt@)] + agents.map_values(
            |a: (String, String)|
                (with_agent_text(b.id@, a.0@), composed_prompt(Some(a.1@), b.prompt@)),
        )
    }
}

/// The identifier and prompt of a planned bench.
pub open spec fn composed_view(c: ComposedBench) -> (Seq<char>, Seq<char>) {
    (c.id.text(), c.prompt@)
}

/// Builds the full bench set: baseline benches and their cartesian product
/// with the agents.
pub fn build_bench_set(benches: &[DiscoveredBench], agents: &[(String, String)]) -> (r: Vec<
    ComposedBench,
>)
    ensures
        r@.map_values(|c: ComposedBench| composed_view(c)) == bench_plan(benches@, agents@),
{
    let mut out: Vec<ComposedBench> = Vec::new();
    let mut i: usize = 0;
    while i < benches.len()
        invariant
            i <= benches@.len(),
            out@.map_values(|c: ComposedBench| composed_view(c)) == bench_plan(
                benches@.take(i as int),
                agents@,
            ),
        decreases benches.len() - i,
    {
        let b = &benches[i];
        let ghost base = out@.map_values(|c: ComposedBench| composed_view(c));
        assert(benches@.take(i as int + 1).drop_last() =~= benches@.take(i as int));
        out.push(
            ComposedBench {
                id: BenchId(b.id.clone()),
                prompt: compose_prompt(None, b.prompt.as_str()),
            },
        );
        assert(out@.map_values(|c: ComposedBench| composed_view(c)) =~= base + seq![
            (b.id@, b.prompt@),
        ]);
        let mut j: usize = 0;
        while j < agents.len()
            invariant
                i < benches@.len(),
                b == benches@[i as int],
                j <= agents@.len(),
                out@.map_values(|c: ComposedBench| composed_view(c)) == base + seq![
                    (b.id@, b.prompt@),
                ] + agents@.take(j as int).map_values(
                    |a: (String, String)|
                        (with_agent_text(b.id@, a.0@), composed_prompt(Some(a.1@), b.prompt@)),
                ),
            decreases agents.len() - j,
        {
            let ghost before = out@.map_values(|c: ComposedBench| composed_view(c));
            let id = with_agent(b.id.as_str(), agents[j].0.as_str());
            let prompt = compose_prompt(Some(agents[j].1.as_str()), b.prompt.as_str());
            out.push(ComposedBench { id, prompt });
            assert(agents@.take(j as int + 1) =~= agents@.take(j as int).push(agents@[j as int]));
            assert(out@.map_values(|c: ComposedBench| composed_view(c)) =~= before.push(
                (with_agent_text(b.id@, agents@[j as int].0@), composed_prompt(
                    Some(agents@[j as int].1@),
                    b.prompt@,
                )),
            ));
            j += 1;
        }
        assert(agents@.take(agents@.len() as int) =~= agents@);
        i += 1;
    }
    assert(benches@.take(benches@.len() as int) =~= benches@);
    out
}

/// The evaluators built from discovered benches and agents: for each bench,
/// its identifier then `id+agent` per agent, each expecting the bench's
/// expected answer (normalised).
pub open spec fn evaluator_plan(
    benches: Seq<DiscoveredBench>,
    agents: Seq<(String, String)>,
) -> Seq<(Seq<char>, Seq<char>)>
    decreases benches.len(),
{
    if benches.len() == 0 {
        Seq::empty()
    } else {
        let b = benches.last();
        evaluator_plan(benches.drop_last(), agents) + seq![(b.id@, normalized(b.expected@))]
            + agents.map_values(
            |a: (String, String)| (with_agent_text(b.id@, a.0@), normalized(b.expected@)),
        )
    }
}

/// The identifier and expected answer of an evaluator entry.
pub open spec fn evaluator_view(e: (BenchId, Evaluator)) -> (Seq<char>, Seq<char>) {
    (e.0.text(), e.1.expected@)
}

/// Builds evaluators keyed by full bench identifier (with the `+agent`
/// suffix for composed benches).
pub fn build_evaluators(benches: &[DiscoveredBench], agents: &[(String, String)]) -> (r: Vec<
    (BenchId, Evaluator),
>)
    ensures
        r@.map_values(|e: (BenchId, Evaluator)| evaluator_view(e)) == evaluator_plan(
            benches@,
            agents@,
        ),
{
    let mut out: Vec<(BenchId, Evaluator)> = Vec::new();
    let mut i: usize = 0;
    while i < benches.len()
        invariant
            i <= benches@.len(),
            out@.map_values(|e: (BenchId, Evaluator)| evaluator_view(e)) == evaluator_plan(
                benches@.take(i as int),
                agents@,
            ),
        decreases benches.len() - i,
    {
        let b = &benches[i];
        let ghost base = out@.map_values(|e: (BenchId, Evaluator)| evaluator_view(e));
        assert(benches@.take(i as int + 1).drop_last() =~= benches@.take(i as int));
        out.push((BenchId(b.id.clone()), make_evaluator(b.expected.as_str())));
        assert(out@.map_values(|e: (BenchId, Evaluator)| evaluator_view(e)) =~= base + seq![
            (b.id@, normalized(b.expected@)),
        ]);
        let mut j: usize = 0;
        while j < agents.len()
            invariant
                i < benches@.len(),
                b == benches@[i as int],
                j <= agents@.len(),
                out@.map_values(|e: (BenchId, Evaluator)| evaluator_view(e)) == base + seq![
                    (b.id@, normalized(b.expected@)),
                ] + agents@.take(j as int).map_values(
                    |a: (String, String)| (with_agent_text(b.id@, a.0@), normalized(b.expected@)),
                ),
            decreases agents.len() - j,
        {
            let ghost before = out@.map_values(|e: (BenchId, Evaluator)| evaluator_view(e));
            let id = with_agent(b.id.as_str(), agents[j].0.as_str());
            out.push((id, make_evaluator(b.expected.as_str())));
            assert(agents@.take(j as int + 1) =~= agents@.take(j as int).push(agents@[j as int]));
            assert(out@.map_values(|e: (BenchId, Evaluator)| evaluator_view(e)) =~= before.push(
                (with_agent_text(b.id@, agents@[j as int].0@), normalized(b.expected@)),
            ));
            j += 1;
        }
        assert(agents@.take(agents@.len() as int) =~= agents@);
        i += 1;
    }
    assert(benches@.take(benches@.len() as int) =~= benches@);
    out
}

// ── Ordering discovered benches ─────────────────────────────────────────────

/// Position of the first bench of `s`, at or after `i`, with identifier `id`.
pub open spec fn first_pos_from(s: Seq<DiscoveredBench>, id: Seq<char>, i: int) -> Option<int>
    decreases s.len() - i,
{
    if i < 0 || i >= s.len() {
        None
    } else if s[i].id@ == id {
        Some(i)
    } else {
        first_pos_from(s, id, i + 1)
    }
}

/// Position of the first bench of `s` with identifier `id`.
pub open spec fn first_pos(s: Seq<DiscoveredBench>, id: Seq<char>) -> Option<int> {
    first_pos_from(s, id, 0)
}

/// Some bench of `s` has identifier `id`.
pub open spec fn has_id(s: Seq<DiscoveredBench>, id: Seq<char>) -> bool {
    exists|i: int| 0 <= i < s.len() && (#[trigger] s[i]).id@ == id
}

/// Identifiers strictly ascending.
pub open spec fn ids_ascending(out: Seq<DiscoveredBench>) -> bool {
    forall|i: int, j: int| 0 <= i < j < out.len() ==> lex_lt(out[i].id@, out[j].id@)
}

/// Every entry of `out` is the first bench of `all` with its identifier.
pub open spec fn entries_first(out: Seq<DiscoveredBench>, all: Seq<DiscoveredBench>) -> bool {
    forall|i: int|
        0 <= i < out.len() ==> match first_pos(all, (#[trigger] out[i]).id@) {
            Some(m) => out[i] == all[m],
            None => false,
        }
}

/// Every identifier of `all` is in `out`.
pub open spec fn ids_covered(out: Seq<DiscoveredBench>, all: Seq<DiscoveredBench>) -> bool {
    forall|k: int| 0 <= k < all.len() ==> has_id(out, (#[trigger] all[k]).id@)
}

/// The benches sorted by identifier with duplicates removed, the first of
/// each identifier kept: strictly ascending identifiers, each entry the first
/// input bench with its identifier, every input identifier present.
pub open spec fn sorted_unique_of(out: Seq<DiscoveredBench>, all: Seq<DiscoveredBench>) -> bool {
    &&& ids_ascending(out)
    &&& entries_first(out, all)
    &&& ids_covered(out, all)
}

proof fn lemma_first_pos_from(s: Seq<DiscoveredBench>, id: Seq<char>, i: int)
    requires
        0 <= i,
    ensures
        match first_pos_from(s, id, i) {
            Some(p) => i <= p < s.len() && s[p].id@ == id && forall|q: int|
                i <= q < p ==> (#[trigger] s[q]).id@ != id,
            None => forall|q: int| i <= q < s.len() ==> (#[trigger] s[q]).id@ != id,
        },
    decreases s.len() - i,
{
    if i < s.len() && s[i].id@ != id {
        lemma_first_pos_from(s, id, i + 1);
    }
}

proof fn lemma_first_pos_push(s: Seq<DiscoveredBench>, x: DiscoveredBench, id: Seq<char>, i: int)
    requires
        0 <= i <= s.len(),
    ensures
        first_pos_from(s.push(x), id, i) == match first_pos_from(s, id, i) {
            Some(p) => Some(p),
            None => if x.id@ == id {
                Some(s.len() as int)
            } else {
                None::<int>
            },
        },
    decreases s.len() - i,
{
    let t = s.push(x);
    if i < s.len() {
        assert(t[i] == s[i]);
        if s[i].id@ != id {
            lemma_first_pos_push(s, x, id, i + 1);
        }
    } else {
        assert(t[i] == x);
        if x.id@ != id {
            assert(first_pos_from(t, id, i + 1) is None);
        }
    }
}

proof fn lemma_entries_first_extend(out: Seq<DiscoveredBench>, done: Seq<DiscoveredBench>, x: DiscoveredBench)
    requires
        entries_first(out, done),
    ensures
        entries_first(out, done.push(x)),
{
    assert forall|i: int| 0 <= i < out.len() implies match first_pos(done.push(x), (#[trigger] out[i]).id@) {
        Some(m) => out[i] == done.push(x)[m],
        None => false,
    } by {
        lemma_first_pos_push(done, x, out[i].id@, 0);
        lemma_first_pos_from(done, out[i].id@, 0);
    }
}

proof fn lemma_dedup_same(out: Seq<DiscoveredBench>, done: Seq<DiscoveredBench>, x: DiscoveredBench, j: int)
    requires
        sorted_unique_of(out, done),
        0 <= j < out.len(),
        out[j].id@ == x.id@,
    ensures
        sorted_unique_of(out, done.push(x)),
{
    lemma_entries_first_extend(out, done, x);
    let next = done.push(x);
    assert forall|kk: int| 0 <= kk < next.len() implies has_id(out, (#[trigger] next[kk]).id@) by {
        if kk < done.len() {
            assert(next[kk] == done[kk]);
        } else {
            assert(out[j].id@ == next[kk].id@);
        }
    }
}

proof fn lemma_dedup_insert_sorted(out: Seq<DiscoveredBench>, x: DiscoveredBench, j: int)
    requires
        ids_ascending(out),
        0 <= j <= out.len(),
        forall|i: int| 0 <= i < j ==> lex_lt((#[trigger] out[i]).id@, x.id@),
        j < out.len() ==> lex_lt(x.id@, out[j].id@),
    ensures
        ids_ascending(out.insert(j, x)),
{
    let n = out.insert(j, x);
    assert forall|a: int, b: int| 0 <= a < b < n.len() implies lex_lt(n[a].id@, n[b].id@) by {
        if b < j {
        } else if b == j {
        } else if a < j {
            assert(n[b] == out[b - 1]);
            if b - 1 > j {
                lemma_lex_transitive(x.id@, out[j].id@, out[b - 1].id@);
            }
            lemma_lex_transitive(n[a].id@, x.id@, n[b].id@);
        } else if a == j {
            assert(n[b] == out[b - 1]);
            if b - 1 > j {
                lemma_lex_transitive(x.id@, out[j].id@, out[b - 1].id@);
            }
        } else {
            assert(n[a] == out[a - 1]);
            assert(n[b] == out[b - 1]);
        }
    }
}

proof fn lemma_dedup_insert(out: Seq<DiscoveredBench>, done: Seq<DiscoveredBench>, x: DiscoveredBench, j: int)
    requires
        sorted_unique_of(out, done),
        0 <= j <= out.len(),
        forall|i: int| 0 <= i < j ==> lex_lt((#[trigger] out[i]).id@, x.id@),
        j < out.len() ==> lex_lt(x.id@, out[j].id@),
    ensures
        sorted_unique_of(out.insert(j, x), done.push(x)),
{
    let next = done.push(x);
    let n = out.insert(j, x);
    lemma_dedup_insert_sorted(out, x, j);
    // `x` is the first bench with its identifier: no earlier bench has it.
    assert(!has_id(done, x.id@)) by {
        if has_id(done, x.id@) {
            let q = choose|q: int| 0 <= q < done.len() && (#[trigger] done[q]).id@ == x.id@;
            assert(has_id(out, done[q].id@));
            let i = choose|i: int| 0 <= i < out.len() && (#[trigger] out[i]).id@ == done[q].id@;
            lemma_lex_irreflexive(x.id@);
            if i > j {
                lemma_lex_transitive(x.id@, out[j].id@, out[i].id@);
            }
        }
    }
    lemma_first_pos_from(done, x.id@, 0);
    lemma_first_pos_push(done, x, x.id@, 0);
    assert forall|i: int| 0 <= i < n.len() implies match first_pos(next, (#[trigger] n[i]).id@) {
        Some(m) => n[i] == next[m],
        None => false,
    } by {
        if i == j {
            assert(n[i] == x);
            assert(first_pos(next, x.id@) == Some(done.len() as int));
            assert(next[done.len() as int] == x);
        } else {
            let oi = if i < j { i } else { i - 1 };
            assert(n[i] == out[oi]);
            let id = out[oi].id@;
            lemma_first_pos_push(done, x, id, 0);
            lemma_first_pos_from(done, id, 0);
            let m = first_pos(done, id)->0;
            assert(out[oi] == done[m]);
            assert(next[m] == done[m]);
        }
    }
    assert forall|kk: int| 0 <= kk < next.len() implies has_id(n, (#[trigger] next[kk]).id@) by {
        if kk < done.len() {
            assert(next[kk] == done[kk]);
            assert(has_id(out, done[kk].id@));
            let i = choose|i: int| 0 <= i < out.len() && (#[trigger] out[i]).id@ == done[kk].id@;
            if i < j {
                assert(n[i] == out[i]);
            } else {
                assert(n[i + 1] == out[i]);
            }
        } else {
            assert(n[j] == x);
        }
    }
}

/// Sorts benches by identifier and drops later benches with an identifier
/// already seen, as a stable sort followed by `dedup_by` on the identifier.
pub fn sort_dedup_by_id(benches: Vec<DiscoveredBench>) -> (r: Vec<DiscoveredBench>)
    ensures
        sorted_unique_of(r@, benches@),
{
    let ghost all = benches@;
    let mut rest = benches;
    let mut rev: Vec<DiscoveredBench> = Vec::new();
    while rest.len() > 0
        invariant
            all == rest@ + rev@.reverse(),
        decreases rest.len(),
    {
        let ghost before = rest@;
        let ghost rv = rev@;
        let p = rest.pop().unwrap();
        rev.push(p);
        assert(rev@.reverse() =~= seq![p] + rv.reverse());
        assert(before =~= rest@.push(p));
    }
    assert(all =~= rev@.reverse());
    let mut out: Vec<DiscoveredBench> = Vec::new();
    let ghost mut k: int = 0;
    assert(all.skip(0) =~= all);
    while rev.len() > 0
        invariant
            0 <= k <= all.len(),
            all.skip(k) == rev@.reverse(),
            sorted_unique_of(out@, all.take(k)),
        decreases rev.len(),
    {
        let ghost rv = rev@;
        let x = rev.pop().unwrap();
        assert(rv.reverse() =~= seq![x] + rev@.reverse());
        assert(all[k] == x) by {
            assert(all.skip(k)[0] == all[k]);
        }
        assert(all.skip(k + 1) =~= all.skip(k).drop_first());
        assert(all.take(k + 1) =~= all.take(k).push(x));
        let xc = chars_of(x.id.as_str());
        let mut j: usize = 0;
        let mut same = false;
        while j < out.len()
            invariant_except_break
                !same,
            invariant
                j <= out@.len(),
                xc@ == x.id@,
                forall|i: int| 0 <= i < j ==> lex_lt((#[trigger] out@[i]).id@, x.id@),
            ensures
                j <= out@.len(),
                forall|i: int| 0 <= i < j ==> lex_lt((#[trigger] out@[i]).id@, x.id@),
                same ==> j < out@.len() && out@[j as int].id@ == x.id@,
                !same && j < out@.len() ==> lex_lt(x.id@, out@[j as int].id@),
            decreases out.len() - j,
        {
            let oc = chars_of(out[j].id.as_str());
            match lex_compare(&oc, &xc) {
                LexOrder::Before => {},
                LexOrder::Same => {
                    same = true;
                    break;
                },
                LexOrder::After => {
                    break;
                },
            }
            j += 1;
        }
        if same {
            proof {
                lemma_dedup_same(out@, all.take(k), x, j as int);
            }
        } else {
            proof {
                lemma_dedup_insert(out@, all.take(k), x, j as int);
            }
            out.insert(j, x);
        }
        proof {
            k = k + 1;
        }
    }
    assert(all.take(all.len() as int) =~= all);
    out
}

// ── Laws of composition ─────────────────────────────────────────────────────

/// The bench set holds each bench once as a baseline and once per agent:
/// `benches × (1 + agents)` entries.
pub proof fn lemma_bench_plan_len(benches: Seq<DiscoveredBench>, agents: Seq<(String, String)>)
    ensures
        bench_plan(benches, agents).len() == benches.len() * (1 + agents.len()),
        evaluator_plan(benches, agents).len() == benches.len() * (1 + agents.len()),
    decreases benches.len(),
{
    if benches.len() > 0 {
        lemma_bench_plan_len(benches.drop_last(), agents);
        assert(benches.len() * (1 + agents.len()) == (benches.len() - 1) * (1 + agents.len()) + 1
            + agents.len()) by (nonlinear_arith);
    }
}

/// Every bench of the set has its evaluator, at the same position and with
/// the same identifier.
pub proof fn lemma_bench_set_matches_evaluators(
    benches: Seq<DiscoveredBench>,
    agents: Seq<(String, String)>,
)
    ensures
        bench_plan(benches, agents).len() == evaluator_plan(benches, agents).len(),
        forall|k: int|
            0 <= k < bench_plan(benches, agents).len() ==> (#[trigger] bench_plan(benches, agents)[k]).0
                == evaluator_plan(benches, agents)[k].0,
    decreases benches.len(),
{
    if benches.len() > 0 {
        let d = benches.drop_last();
        lemma_bench_set_matches_evaluators(d, agents);
        let b = benches.last();
        let bp = bench_plan(benches, agents);
        let ep = evaluator_plan(benches, agents);
        let bp0 = bench_plan(d, agents);
        let ep0 = evaluator_plan(d, agents);
        assert forall|k: int| 0 <= k < bp.len() implies (#[trigger] bp[k]).0 == ep[k].0 by {
            if k < bp0.len() {
                assert(bp[k] == bp0[k]);
                assert(ep[k] == ep0[k]);
            } else if k == bp0.len() {
            } else {
                let j = k - bp0.len() - 1;
                assert(bp[k] == (with_agent_text(b.id@, agents[j].0@), composed_prompt(
                    Some(agents[j].1@),
                    b.prompt@,
                )));
                assert(ep[k] == (with_agent_text(b.id@, agents[j].0@), normalized(b.expected@)));
            }
        }
    }
}

/// An evaluator of the set, for bench `b` with agent `a` (a name without
/// `+`), is found again by splitting its identifier: base `b`, agent `a`.
/// A baseline evaluator of a bench without `+` splits into the bench alone.
pub proof fn lemma_evaluator_ids_split(
    benches: Seq<DiscoveredBench>,
    agents: Seq<(String, String)>,
    k: int,
)
    requires
        0 <= k < evaluator_plan(benches, agents).len(),
        forall|j: int| 0 <= j < agents.len() ==> !has_char((#[trigger] agents[j]).0@, '+'),
        forall|i: int| 0 <= i < benches.len() ==> !has_char((#[trigger] benches[i]).id@, '+'),
    ensures
        exists|i: int|
            0 <= i < benches.len() && {
                let (base, agent) = agent_split(evaluator_plan(benches, agents)[k].0);
                &&& base == (#[trigger] benches[i]).id@
                &&& evaluator_plan(benches, agents)[k].1 == normalized(benches[i].expected@)
                &&& match agent {
                    None => true,
                    Some(a) => exists|j: int| 0 <= j < agents.len() && (#[trigger] agents[j]).0@ == a,
                }
            },
    decreases benches.len(),
{
    let d = benches.drop_last();
    let ep = evaluator_plan(benches, agents);
    let ep0 = evaluator_plan(d, agents);
    let b = benches.last();
    let last = benches.len() - 1;
    assert(benches[last] == b);
    if k < ep0.len() {
        assert forall|i: int| 0 <= i < d.len() implies !has_char((#[trigger] d[i]).id@, '+') by {
            assert(d[i] == benches[i]);
        }
        lemma_evaluator_ids_split(d, agents, k);
        assert(ep[k] == ep0[k]);
        let i = choose|i: int|
            0 <= i < d.len() && {
                let (base, agent) = agent_split(ep0[k].0);
                &&& base == (#[trigger] d[i]).id@
                &&& ep0[k].1 == normalized(d[i].expected@)
                &&& match agent {
                    None => true,
                    Some(a) => exists|j: int| 0 <= j < agents.len() && (#[trigger] agents[j]).0@ == a,
                }
            };
        assert(d[i] == benches[i]);
    } else if k == ep0.len() {
        assert(ep[k] == (b.id@, normalized(b.expected@)));
        assert(!has_char(benches[last].id@, '+'));
        crate::text::lemma_last_index_before(b.id@, '+', b.id@.len() as int);
    } else {
        let j = k - ep0.len() - 1;
        assert(ep[k] == (with_agent_text(b.id@, agents[j].0@), normalized(b.expected@)));
        assert(!has_char(agents[j].0@, '+'));
        lemma_split_with_agent(b.id@, agents[j].0@);
    }
}

/// A set of benches to run.
pub struct Benches {
    pub benches: Vec<ComposedBench>,
}

impl Benches {
    /// Whether some bench has identifier `id`.
    pub fn contains(&self, id: &BenchId) -> (r: bool)
        ensures
            r == exists|i: int|
                0 <= i < self.benches@.len() && (#[trigger] self.benches@[i]).id.text() == id.text(),
    {
        let mut i: usize = 0;
        while i < self.benches.len()
            invariant
                i <= self.benches@.len(),
                forall|k: int| 0 <= k < i ==> (#[trigger] self.benches@[k]).id.text() != id.text(),
            decreases self.benches.len() - i,
        {
            if crate::text::str_eq(self.benches[i].id.as_str(), id.as_str()) {
                return true;
            }
            i += 1;
        }
        false
    }

    /// The benches, in order.
    pub fn iter(&self) -> (r: &[ComposedBench])
        ensures
            r@ == self.benches@,
    {
        self.benches.as_slice()
    }
}

// ── The sorted, deduplicated benches are determined by their input ─────────

proof fn lemma_ascending_first_least(s: Seq<DiscoveredBench>, p: int)
    requires
        ids_ascending(s),
        0 < p < s.len(),
    ensures
        lex_lt(s[0].id@, s[p].id@),
{
}

proof fn lemma_ascending_tail(s: Seq<DiscoveredBench>)
    requires
        ids_ascending(s),
        s.len() > 0,
    ensures
        ids_ascending(s.drop_first()),
        forall|x: Seq<char>| has_id(s.drop_first(), x) <==> (has_id(s, x) && x != s[0].id@),
{
    let t = s.drop_first();
    assert forall|x: Seq<char>| has_id(t, x) <==> (has_id(s, x) && x != s[0].id@) by {
        if has_id(t, x) {
            let i = choose|i: int| 0 <= i < t.len() && (#[trigger] t[i]).id@ == x;
            assert(s[i + 1] == t[i]);
            lemma_lex_irreflexive(x);
        }
        if has_id(s, x) && x != s[0].id@ {
            let i = choose|i: int| 0 <= i < s.len() && (#[trigger] s[i]).id@ == x;
            assert(t[i - 1] == s[i]);
        }
    }
}

/// Two lists with ascending identifiers and the same identifiers list them
/// in the same order.
proof fn lemma_ascending_same_ids(s1: Seq<DiscoveredBench>, s2: Seq<DiscoveredBench>)
    requires
        ids_ascending(s1),
        ids_ascending(s2),
        forall|x: Seq<char>| has_id(s1, x) <==> has_id(s2, x),
    ensures
        s1.len() == s2.len(),
        forall|k: int| 0 <= k < s1.len() ==> (#[trigger] s1[k]).id@ == s2[k].id@,
    decreases s1.len() + s2.len(),
{
    if s1.len() == 0 || s2.len() == 0 {
        if s1.len() > 0 {
            assert(has_id(s1, s1[0].id@));
        }
        if s2.len() > 0 {
            assert(has_id(s2, s2[0].id@));
        }
    } else {
        let a = s1[0].id@;
        let b = s2[0].id@;
        assert(has_id(s1, a));
        assert(has_id(s2, b));
        if a != b {
            lemma_lex_total(a, b);
            if lex_lt(a, b) {
                let p = choose|p: int| 0 <= p < s2.len() && (#[trigger] s2[p]).id@ == a;
                if p > 0 {
                    lemma_ascending_first_least(s2, p);
                    lemma_lex_asymmetric(a, b);
                }
                lemma_lex_irreflexive(a);
            } else {
                let p = choose|p: int| 0 <= p < s1.len() && (#[trigger] s1[p]).id@ == b;
                if p > 0 {
                    lemma_ascending_first_least(s1, p);
                    lemma_lex_asymmetric(b, a);
                }
                lemma_lex_irreflexive(b);
            }
        }
        lemma_ascending_tail(s1);
        lemma_ascending_tail(s2);
        assert(a == b);
        assert forall|x: Seq<char>|
            has_id(s1.drop_first(), x) <==> has_id(s2.drop_first(), x) by {
            assert(has_id(s1.drop_first(), x) <==> (has_id(s1, x) && x != a));
            assert(has_id(s2.drop_first(), x) <==> (has_id(s2, x) && x != b));
        }
        lemma_ascending_same_ids(s1.drop_first(), s2.drop_first());
        assert forall|k: int| 0 <= k < s1.len() implies (#[trigger] s1[k]).id@ == s2[k].id@ by {
            if k > 0 {
                assert(s1[k] == s1.drop_first()[k - 1]);
                assert(s2[k] == s2.drop_first()[k - 1]);
            }
        }
    }
}

/// Sorting benches by identifier and keeping the first of each identifier
/// has one result: two lists that both meet `sorted_unique_of` for the same
/// benches are equal.
pub proof fn lemma_sorted_unique_determined(
    o1: Seq<DiscoveredBench>,
    o2: Seq<DiscoveredBench>,
    all: Seq<DiscoveredBench>,
)
    requires
        sorted_unique_of(o1, all),
        sorted_unique_of(o2, all),
    ensures
        o1 == o2,
{
    assert forall|x: Seq<char>| has_id(o1, x) <==> has_id(o2, x) by {
        if has_id(o1, x) {
            let i = choose|i: int| 0 <= i < o1.len() && (#[trigger] o1[i]).id@ == x;
            lemma_first_pos_from(all, x, 0);
            let m = first_pos(all, o1[i].id@)->0;
            assert(has_id(o2, all[m].id@));
        }
        if has_id(o2, x) {
            let i = choose|i: int| 0 <= i < o2.len() && (#[trigger] o2[i]).id@ == x;
            lemma_first_pos_from(all, x, 0);
            let m = first_pos(all, o2[i].id@)->0;
            assert(has_id(o1, all[m].id@));
        }
    }
    lemma_ascending_same_ids(o1, o2);
    assert forall|k: int| 0 <= k < o1.len() implies o1[k] == o2[k] by {
        assert(o1[k].id@ == o2[k].id@);
    }
    assert(o1 =~= o2);
}

} // verus!
