//! The arguments of the program's commands, as parsed from the command line.
use crate::bench_id::BenchId;
use crate::formatter::SortColumn;
use crate::model::ModelId;
use vstd::prelude::*;
use vstd::string::StringExecFns;

verus! {

/// Arguments of a benchmark run.
pub struct BenchArgs {
    /// The benches to run (identifiers or glob patterns); all by default.
    pub benches: Vec<String>,
    /// The models to run on; all configured models by default.
    pub models: Vec<ModelId>,
    /// Groups of models defined in the configuration.
    pub model_groups: Vec<String>,
    /// OpenRouter API key, when not in the environment.
    pub api_key: Option<String>,
    /// Number of runs per bench and model.
    pub n_runs: u32,
    /// Agent prompt name or glob pattern: each bench also runs composed
    /// with each matching agent prompt.
    pub agents: Option<String>,
}

/// Arguments of an evaluation.
pub struct EvalArgs {
    /// The benches to evaluate (identifiers or glob patterns).
    pub benches: Vec<String>,
    /// The models to show.
    pub models: Vec<ModelId>,
    /// Groups of models defined in the configuration.
    pub model_groups: Vec<String>,
    /// Column the rows are sorted by.
    pub sort: SortColumn,
    /// Leave out the responses of each row.
    pub condensed: bool,
    /// Agent prompt name or glob pattern.
    pub agents: Option<String>,
    /// Hide results without agent when agents are asked for.
    pub no_bare: bool,
    /// Directory of the prompts, when not the default.
    pub prompts_dir: Option<String>,
}

/// Arguments of a reset: the bench whose results are deleted.
pub struct ResetArgs {
    pub bench: BenchId,
}

/// A command of the program.
pub enum Command {
    Bench(BenchArgs),
    Eval(EvalArgs),
    Reset(ResetArgs),
}

/// The patterns benches are discovered with: the given ones, or `*` when
/// none is given.
pub open spec fn discovery_patterns_of(benches: Seq<String>) -> Seq<Seq<char>> {
    if benches.len() == 0 {
        seq!["*"@]
    } else {
        benches.map_values(|b: String| b@)
    }
}

impl EvalArgs {
    /// The patterns benches are discovered with: the bench patterns given,
    /// or `*` (every bench) when none is.
    pub fn discovery_patterns(&self) -> (r: Vec<String>)
        ensures
            r@.map_values(|s: String| s@) == discovery_patterns_of(self.benches@),
    {
        let mut out: Vec<String> = Vec::new();
        if self.benches.len() == 0 {
            out.push(String::from_str("*"));
            assert(out@.map_values(|s: String| s@) =~= seq!["*"@]);
            return out;
        }
        let mut i: usize = 0;
        while i < self.benches.len()
            invariant
                i <= self.benches@.len(),
                out@.map_values(|s: String| s@) == self.benches@.take(i as int).map_values(
                    |b: String| b@,
                ),
            decreases self.benches.len() - i,
        {
            let ghost before = out@.map_values(|s: String| s@);
            out.push(String::from_str(self.benches[i].as_str()));
            assert(out@.map_values(|s: String| s@) =~= before.push(self.benches@[i as int]@));
            assert(self.benches@.take(i as int + 1).map_values(|b: String| b@) =~= self.benches@.take(
                i as int,
            ).map_values(|b: String| b@).push(self.benches@[i as int]@));
            i += 1;
        }
        assert(self.benches@.take(self.benches@.len() as int) =~= self.benches@);
        out
    }

    /// Whether results without agent are shown.
    pub fn show_bare(&self) -> (r: bool)
        ensures
            r == !self.no_bare,
    {
        !self.no_bare
    }

    /// The directory of the prompts: the one given, or `src/prompts`.
    pub fn prompts_dir_or_default(&self) -> (r: String)
        ensures
            r@ == match self.prompts_dir {
                Some(d) => d@,
                None => "src/prompts"@,
            },
    {
        match &self.prompts_dir {
            Some(d) => String::from_str(d.as_str()),
            None => String::from_str("src/prompts"),
        }
    }
}

} // verus!
