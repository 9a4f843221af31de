//! Bench identifiers (`category/name`, `category/name+agent`) and bench
//! selection patterns.
use crate::glob_pattern::{contains_glob_chars, glob_valid, has_glob_meta, GlobPattern};
use crate::text::{
    chars_of, find_first, find_last, first_index, has_char, last_index, lemma_first_index_from,
    lemma_last_index_before, push_char, string_of_range,
};
use vstd::prelude::*;
use vstd::string::StringExecFns;

verus! {

/// Identifier of a benchmark, `category/name`, optionally with an
/// `+agent` suffix when the bench is composed with an agent prompt.
pub struct BenchId(pub String);

/// Why a bench identifier or pattern was refused.
#[derive(Debug, Clone, Copy, PartialEq, Eq, Structural)]
pub enum BenchErrorKind {
    /// Nothing before the `/`.
    MissingCategory,
    /// Nothing after the `/`.
    MissingName,
    /// No `/` at all: the format is `category/benchname`.
    InvalidFormat,
    /// A glob pattern that does not compile.
    InvalidGlob,
}

/// A refused bench identifier or pattern, with the input that was refused.
pub struct BenchError {
    pub kind: BenchErrorKind,
    pub input: String,
}

impl BenchError {
    /// The reason and the refused input.
    pub open spec fn view_pair(&self) -> (BenchErrorKind, Seq<char>) {
        (self.kind, self.input@)
    }
}

/// What is wrong with `s` as a bench identifier, or `None` when it is one:
/// a `/` must split it into a non-empty category and a non-empty name.
pub open spec fn bench_id_problem(s: Seq<char>) -> Option<BenchErrorKind> {
    match first_index(s, '/') {
        None => Some(BenchErrorKind::InvalidFormat),
        Some(k) => if k == 0 {
            Some(BenchErrorKind::MissingCategory)
        } else if k + 1 == s.len() {
            Some(BenchErrorKind::MissingName)
        } else {
            None
        },
    }
}

impl BenchId {
    /// The identifier's text.
    pub open spec fn text(&self) -> Seq<char> {
        self.0@
    }

    /// Parses `category/benchname`. The category is what precedes the first
    /// `/` and the name what follows it; both must be non-empty.
    pub fn parse(s: &str) -> (r: Result<BenchId, BenchError>)
        ensures
            r is Ok <==> bench_id_problem(s@) is None,
            r matches Ok(id) ==> id.text() == s@,
            r matches Err(e) ==> bench_id_problem(s@) == Some(e.kind) && e.input@ == s@,
    {
        let v = chars_of(s);
        match find_first(&v, '/') {
            None => Err(BenchError { kind: BenchErrorKind::InvalidFormat, input: s.to_owned() }),
            Some(k) => {
                proof {
                    lemma_first_index_from(v@, '/', 0);
                }
                if k == 0 {
                    Err(BenchError { kind: BenchErrorKind::MissingCategory, input: s.to_owned() })
                } else if k == v.len() - 1 {
                    Err(BenchError { kind: BenchErrorKind::MissingName, input: s.to_owned() })
                } else {
                    Ok(BenchId(s.to_owned()))
                }
            },
        }
    }

    /// Length of the identifier in bytes (UTF-8).
    pub fn len(&self) -> (n: usize)
        ensures
            n == vstd::utf8::encode_utf8(self.0@).len() as usize,
    {
        self.0.as_str().len()
    }

    /// The identifier's text.
    pub fn as_str(&self) -> (s: &str)
        ensures
            s@ == self.0@,
    {
        self.0.as_str()
    }

    /// A copy of the identifier.
    pub fn duplicate(&self) -> (r: BenchId)
        ensures
            r.text() == self.text(),
    {
        BenchId(self.0.clone())
    }
}

impl core::str::FromStr for BenchId {
    type Err = BenchError;

    fn from_str(s: &str) -> (r: Result<BenchId, BenchError>)
        ensures
            r is Ok <==> bench_id_problem(s@) is None,
            r matches Ok(id) ==> id.text() == s@,
            r matches Err(e) ==> bench_id_problem(s@) == Some(e.kind) && e.input@ == s@,
    {
        BenchId::parse(s)
    }
}

// ── Agent suffix ────────────────────────────────────────────────────────────

/// `category/name+agent` split at its last `+` into the base and the agent;
/// an identifier without `+` is all base.
pub open spec fn agent_split(s: Seq<char>) -> (Seq<char>, Option<Seq<char>>) {
    match last_index(s, '+') {
        Some(k) => (s.subrange(0, k), Some(s.subrange(k + 1, s.len() as int))),
        None => (s, None),
    }
}

/// The identifier of `base` composed with agent `agent`: `base+agent`.
pub open spec fn with_agent_text(base: Seq<char>, agent: Seq<char>) -> Seq<char> {
    base + seq!['+'] + agent
}

/// Splits `category/name+agent` into (`category/name`, `Some(agent)`) at the
/// last `+`; an identifier without `+` gives (`id`, `None`).
pub fn split_agent_suffix(id: &str) -> (r: (String, Option<String>))
    ensures
        r.0@ == agent_split(id@).0,
        match r.1 {
            Some(a) => agent_split(id@).1 == Some(a@),
            None => agent_split(id@).1 is None,
        },
{
    let v = chars_of(id);
    match find_last(&v, '+') {
        Some(k) => {
            proof {
                lemma_last_index_before(v@, '+', v@.len() as int);
            }
            let base = string_of_range(&v, 0, k);
            let agent = string_of_range(&v, k + 1, v.len());
            (base, Some(agent))
        },
        None => (id.to_owned(), None),
    }
}

/// The identifier of bench `base` run with agent prompt `agent`.
pub fn with_agent(base: &str, agent: &str) -> (r: BenchId)
    ensures
        r.text() == with_agent_text(base@, agent@),
{
    let mut s = base.to_owned();
    push_char(&mut s, '+');
    s.append(agent);
    BenchId(s)
}

/// Splitting a composed identifier gives back its parts, provided the agent
/// name holds no `+`.
pub proof fn lemma_split_with_agent(base: Seq<char>, agent: Seq<char>)
    requires
        !has_char(agent, '+'),
    ensures
        agent_split(with_agent_text(base, agent)) == (base, Some(agent)),
{
    let s = with_agent_text(base, agent);
    lemma_last_index_before(s, '+', s.len() as int);
    let b = base.len() as int;
    assert(s[b] == '+');
    match last_index(s, '+') {
        Some(k) => {
            if k > b {
                assert(agent[k - b - 1] == '+');
            }
            if k < b {
                assert(false);
            }
            assert(s.subrange(0, b) =~= base);
            assert(s.subrange(b + 1, s.len() as int) =~= agent);
        },
        None => {
            assert(false);
        },
    }
}

/// The two parts of a split identifier put back together give the
/// identifier, and the agent part holds no `+`; an identifier left whole
/// holds no `+`.
pub proof fn lemma_agent_split_parts(s: Seq<char>)
    ensures
        match agent_split(s) {
            (b, Some(a)) => with_agent_text(b, a) == s && !has_char(a, '+'),
            (b, None) => b == s && !has_char(s, '+'),
        },
{
    lemma_last_index_before(s, '+', s.len() as int);
    match last_index(s, '+') {
        Some(k) => {
            let a = s.subrange(k + 1, s.len() as int);
            assert(with_agent_text(s.subrange(0, k), a) =~= s);
            if has_char(a, '+') {
                let m = choose|m: int| 0 <= m < a.len() && a[m] == '+';
                assert(s[k + 1 + m] == '+');
            }
        },
        None => {},
    }
}

// ── Bench patterns ──────────────────────────────────────────────────────────

/// What is wrong with `s` as a bench pattern: a pattern with glob
/// metacharacters must compile, any other must be a bench identifier.
pub open spec fn pattern_problem(s: Seq<char>) -> Option<BenchErrorKind> {
    if has_glob_meta(s) {
        if glob_valid(s) {
            None
        } else {
            Some(BenchErrorKind::InvalidGlob)
        }
    } else {
        bench_id_problem(s)
    }
}

/// Validates a bench pattern: non-glob patterns must follow the
/// `category/benchname` format, glob patterns must compile.
pub fn validate_bench_pattern(input: &str) -> (r: Result<String, BenchError>)
    ensures
        r is Ok <==> pattern_problem(input@) is None,
        r matches Ok(p) ==> p@ == input@,
        r matches Err(e) ==> pattern_problem(input@) == Some(e.kind) && e.input@ == input@,
{
    if contains_glob_chars(input) {
        match GlobPattern::new(input) {
            Some(_) => Ok(input.to_owned()),
            None => Err(BenchError { kind: BenchErrorKind::InvalidGlob, input: input.to_owned() }),
        }
    } else {
        match BenchId::parse(input) {
            Ok(_) => Ok(input.to_owned()),
            Err(e) => Err(e),
        }
    }
}

/// The errors of a list of patterns, in order: one per refused pattern.
pub open spec fn pattern_errors(inputs: Seq<Seq<char>>) -> Seq<(BenchErrorKind, Seq<char>)>
    decreases inputs.len(),
{
    if inputs.len() == 0 {
        Seq::empty()
    } else {
        let rest = pattern_errors(inputs.drop_last());
        match pattern_problem(inputs.last()) {
            Some(k) => rest.push((k, inputs.last())),
            None => rest,
        }
    }
}

/// The texts of a list of strings.
pub open spec fn texts(v: Seq<String>) -> Seq<Seq<char>> {
    v.map_values(|s: String| s@)
}

/// Validates every bench pattern. All valid: the patterns, in order. Any
/// refused: one error per refused pattern, in order.
pub fn get_bench_patterns(inputs: &Vec<String>) -> (r: Result<Vec<String>, Vec<BenchError>>)
    ensures
        r is Ok <==> pattern_errors(texts(inputs@)).len() == 0,
        r matches Ok(v) ==> texts(v@) == texts(inputs@),
        r matches Err(e) ==> e@.map_values(|x: BenchError| x.view_pair()) == pattern_errors(
            texts(inputs@),
        ),
{
    let mut oks: Vec<String> = Vec::new();
    let mut errs: Vec<BenchError> = Vec::new();
    let mut i: usize = 0;
    while i < inputs.len()
        invariant
            i <= inputs@.len(),
            pattern_errors(texts(inputs@.take(i as int))).len() == 0 ==> texts(oks@) == texts(
                inputs@.take(i as int),
            ),
            errs@.map_values(|x: BenchError| x.view_pair()) == pattern_errors(
                texts(inputs@.take(i as int)),
            ),
        decreases inputs.len() - i,
    {
        let ghost before = inputs@.take(i as int);
        let ghost after = inputs@.take(i as int + 1);
        assert(texts(after).drop_last() =~= texts(before));
        assert(texts(after).last() == inputs@[i as int]@);
        let ghost prev = oks@;
        match validate_bench_pattern(inputs[i].as_str()) {
            Ok(p) => {
                oks.push(p);
                assert(texts(oks@) =~= texts(prev).push(inputs@[i as int]@));
                assert(texts(after) =~= texts(before).push(inputs@[i as int]@));
            },
            Err(e) => {
                errs.push(e);
            },
        }
        assert(pattern_errors(texts(after)).len() == 0 ==> texts(oks@) =~= texts(after));
        i += 1;
    }
    assert(inputs@.take(inputs@.len() as int) =~= inputs@);
    if errs.len() == 0 {
        Ok(oks)
    } else {
        Err(errs)
    }
}

/// The errors of a list of identifiers, in order: one per refused one.
pub open spec fn id_errors(inputs: Seq<Seq<char>>) -> Seq<(BenchErrorKind, Seq<char>)>
    decreases inputs.len(),
{
    if inputs.len() == 0 {
        Seq::empty()
    } else {
        let rest = id_errors(inputs.drop_last());
        match bench_id_problem(inputs.last()) {
            Some(k) => rest.push((k, inputs.last())),
            None => rest,
        }
    }
}

/// Parses every bench identifier. All valid: the identifiers, in order.
/// Any refused: one error per refused identifier, in order.
pub fn parse_bench_ids(inputs: &Vec<String>) -> (r: Result<Vec<BenchId>, Vec<BenchError>>)
    ensures
        r is Ok <==> id_errors(texts(inputs@)).len() == 0,
        r matches Ok(v) ==> v@.map_values(|b: BenchId| b.text()) == texts(inputs@),
        r matches Err(e) ==> e@.map_values(|x: BenchError| x.view_pair()) == id_errors(
            texts(inputs@),
        ),
{
    let mut oks: Vec<BenchId> = Vec::new();
    let mut errs: Vec<BenchError> = Vec::new();
    let mut i: usize = 0;
    while i < inputs.len()
        invariant
            i <= inputs@.len(),
            id_errors(texts(inputs@.take(i as int))).len() == 0 ==> oks@.map_values(
                |b: BenchId| b.text(),
            ) == texts(inputs@.take(i as int)),
            errs@.map_values(|x: BenchError| x.view_pair()) == id_errors(
                texts(inputs@.take(i as int)),
            ),
        decreases inputs.len() - i,
    {
        let ghost before = inputs@.take(i as int);
        let ghost after = inputs@.take(i as int + 1);
        assert(texts(after).drop_last() =~= texts(before));
        assert(texts(after).last() == inputs@[i as int]@);
        let ghost prev = oks@.map_values(|b: BenchId| b.text());
        match BenchId::parse(inputs[i].as_str()) {
            Ok(id) => {
                oks.push(id);
                assert(oks@.map_values(|b: BenchId| b.text()) =~= prev.push(inputs@[i as int]@));
                assert(texts(after) =~= texts(before).push(inputs@[i as int]@));
            },
            Err(e) => {
                errs.push(e);
            },
        }
        assert(id_errors(texts(after)).len() == 0 ==> oks@.map_values(|b: BenchId| b.text())
            =~= texts(after));
        i += 1;
    }
    assert(inputs@.take(inputs@.len() as int) =~= inputs@);
    if errs.len() == 0 {
        Ok(oks)
    } else {
        Err(errs)
    }
}

} // verus!
