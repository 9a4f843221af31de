//! Command-line decisions: which models a run uses, where the API key comes
//! from, and the arguments of the `bench`, `eval` and `reset` commands.
use crate::model::{copy_models, ModelGroup, ModelId, Models, SelectedModels};
use crate::text::str_eq;
use vstd::prelude::*;

verus! {

/// What went wrong on the command line.
#[derive(Debug, Clone, Copy, PartialEq, Eq, Structural)]
pub enum CliErrorKind {
    /// A requested model group is not in the configuration.
    GroupNotFound,
    /// The selection holds no model.
    NoModelsSelected,
    /// Neither `OPENROUTER_API_KEY` nor `--api-key` was given.
    MissingApiKey,
    /// A bench pattern was refused.
    InvalidBenchPattern,
    /// No bench matched the given patterns.
    NoBenchesMatched,
}

/// A command-line error, with its context (a group name, a pattern).
pub struct CliError {
    pub kind: CliErrorKind,
    pub context: String,
}

impl CliError {
    /// The kind of error and its context.
    pub open spec fn view_pair(&self) -> (CliErrorKind, Seq<char>) {
        (self.kind, self.context@)
    }
}

/// Some string of `req` has the text `name`.
pub open spec fn names_contain(req: Seq<String>, name: Seq<char>) -> bool {
    exists|i: int| 0 <= i < req.len() && (#[trigger] req[i])@ == name
}

/// Some group of `gs` is named `name`.
pub open spec fn has_group_named(gs: Seq<ModelGroup>, name: Seq<char>) -> bool {
    exists|i: int| 0 <= i < gs.len() && (#[trigger] gs[i]).name@ == name
}

/// The requested group names that the configuration lacks, in request order.
pub open spec fn missing_groups(req: Seq<String>, gs: Seq<ModelGroup>) -> Seq<Seq<char>>
    decreases req.len(),
{
    if req.len() == 0 {
        Seq::empty()
    } else {
        let rest = missing_groups(req.drop_last(), gs);
        if has_group_named(gs, req.last()@) {
            rest
        } else {
            rest.push(req.last()@)
        }
    }
}

/// The models of the configured groups whose name was requested, group after
/// group in configuration order.
pub open spec fn grouped_models(gs: Seq<ModelGroup>, req: Seq<String>) -> Seq<ModelId>
    decreases gs.len(),
{
    if gs.len() == 0 {
        Seq::empty()
    } else {
        let rest = grouped_models(gs.drop_last(), req);
        if names_contain(req, gs.last().name@) {
            rest + gs.last().models@
        } else {
            rest
        }
    }
}

/// Whether some string of `req` equals `name`.
fn contains_name(req: &Vec<String>, name: &str) -> (r: bool)
    ensures
        r == names_contain(req@, name@),
{
    let mut i: usize = 0;
    while i < req.len()
        invariant
            i <= req@.len(),
            forall|k: int| 0 <= k < i ==> (#[trigger] req@[k])@ != name@,
        decreases req.len() - i,
    {
        if str_eq(req[i].as_str(), name) {
            return true;
        }
        i += 1;
    }
    false
}

/// Whether some group is named `name`.
fn has_group(gs: &[ModelGroup], name: &str) -> (r: bool)
    ensures
        r == has_group_named(gs@, name@),
{
    let mut i: usize = 0;
    while i < gs.len()
        invariant
            i <= gs@.len(),
            forall|k: int| 0 <= k < i ==> (#[trigger] gs@[k]).name@ != name@,
        decreases gs.len() - i,
    {
        if str_eq(gs[i].name.as_str(), name) {
            return true;
        }
        i += 1;
    }
    false
}

/// Chooses the models of a run. Explicit models are taken as given; requested
/// groups are looked up in the configuration, every missing group giving an
/// error; with neither, every configured model is selected. Models and
/// groups are never both given (the command line makes them exclusive).
pub fn select_models(models: &Vec<ModelId>, groups: &Vec<String>, config: &Models) -> (r: Result<
    SelectedModels,
    Vec<CliError>,
>)
    requires
        models@.len() == 0 || groups@.len() == 0,
    ensures
        models@.len() > 0 ==> (r matches Ok(s) && s@ == models@),
        models@.len() == 0 && groups@.len() == 0 ==> (r matches Ok(s) && s@ == config.model_list()),
        groups@.len() > 0 ==> (r is Ok <==> missing_groups(groups@, config.groups()).len() == 0),
        groups@.len() > 0 ==> (r matches Ok(s) ==> s@ == grouped_models(
            config.groups(),
            groups@,
        )),
        r matches Err(e) ==> e@.map_values(|x: CliError| x.view_pair()) == missing_groups(
            groups@,
            config.groups(),
        ).map_values(|n: Seq<char>| (CliErrorKind::GroupNotFound, n)),
{
    if models.len() > 0 {
        return Ok(SelectedModels::from_vec(copy_models(models.as_slice())));
    }
    if groups.len() == 0 {
        return Ok(SelectedModels::from_vec(copy_models(config.models())));
    }
    let gs = config.iter_groups();
    let mut errors: Vec<CliError> = Vec::new();
    let mut i: usize = 0;
    while i < groups.len()
        invariant
            i <= groups@.len(),
            gs@ == config.groups(),
            errors@.map_values(|x: CliError| x.view_pair()) == missing_groups(
                groups@.take(i as int),
                gs@,
            ).map_values(|n: Seq<char>| (CliErrorKind::GroupNotFound, n)),
        decreases groups.len() - i,
    {
        let ghost before = groups@.take(i as int);
        let ghost after = groups@.take(i as int + 1);
        assert(after.drop_last() =~= before);
        let ghost prev = errors@;
        if !has_group(gs, groups[i].as_str()) {
            errors.push(CliError { kind: CliErrorKind::GroupNotFound, context: groups[i].clone() });
            assert(errors@.map_values(|x: CliError| x.view_pair()) =~= prev.map_values(
                |x: CliError| x.view_pair(),
            ).push((CliErrorKind::GroupNotFound, groups@[i as int]@)));
        }
        assert(missing_groups(after, gs@).map_values(
            |n: Seq<char>| (CliErrorKind::GroupNotFound, n),
        ) =~= errors@.map_values(|x: CliError| x.view_pair()));
        i += 1;
    }
    assert(groups@.take(groups@.len() as int) =~= groups@);
    if errors.len() > 0 {
        return Err(errors);
    }
    let mut selected: Vec<ModelId> = Vec::new();
    let mut g: usize = 0;
    while g < gs.len()
        invariant
            g <= gs@.len(),
            selected@ == grouped_models(gs@.take(g as int), groups@),
        decreases gs.len() - g,
    {
        assert(gs@.take(g as int + 1).drop_last() =~= gs@.take(g as int));
        if contains_name(groups, gs[g].name.as_str()) {
            let ms = &gs[g].models;
            let ghost base = selected@;
            let mut k: usize = 0;
            while k < ms.len()
                invariant
                    k <= ms@.len(),
                    selected@ == base + ms@.take(k as int),
                decreases ms.len() - k,
            {
                assert(ms@.take(k as int + 1) =~= ms@.take(k as int).push(ms@[k as int]));
                selected.push(ms[k].clone());
                k += 1;
            }
            assert(ms@.take(ms@.len() as int) =~= ms@);
        }
        g += 1;
    }
    assert(gs@.take(gs@.len() as int) =~= gs@);
    Ok(SelectedModels::from_vec(selected))
}

/// Chooses models as `select_models` does and refuses an empty selection.
pub fn select_and_validate_models(models: &Vec<ModelId>, groups: &Vec<String>, config: &Models) -> (r:
    Result<SelectedModels, Vec<CliError>>)
    requires
        models@.len() == 0 || groups@.len() == 0,
    ensures
        r matches Ok(s) ==> s@.len() > 0,
        r matches Err(e) ==> e@.len() > 0,
        models@.len() > 0 ==> (r matches Ok(s) && s@ == models@),
        models@.len() == 0 && groups@.len() == 0 ==> (r is Ok <==> config.model_list().len() > 0),
        models@.len() == 0 && groups@.len() == 0 ==> (r matches Ok(s) ==> s@
            == config.model_list()),
        groups@.len() > 0 ==> (r is Ok <==> missing_groups(groups@, config.groups()).len() == 0
            && grouped_models(config.groups(), groups@).len() > 0),
        groups@.len() > 0 ==> (r matches Ok(s) ==> s@ == grouped_models(
            config.groups(),
            groups@,
        )),
        groups@.len() > 0 && missing_groups(groups@, config.groups()).len() > 0 ==> (r matches Err(
            e,
        ) ==> e@.map_values(|x: CliError| x.view_pair()) == missing_groups(
            groups@,
            config.groups(),
        ).map_values(|n: Seq<char>| (CliErrorKind::GroupNotFound, n))),
        r matches Err(e) ==> ((models@.len() > 0 || missing_groups(groups@, config.groups()).len()
            == 0) ==> e@.len() == 1 && e@[0].kind == CliErrorKind::NoModelsSelected),
{
    match select_models(models, groups, config) {
        Ok(s) => {
            if s.is_empty() {
                let mut e: Vec<CliError> = Vec::new();
                e.push(CliError { kind: CliErrorKind::NoModelsSelected, context: String::new() });
                Err(e)
            } else {
                Ok(s)
            }
        },
        Err(e) => {
            proof {
                assert(e@.map_values(|x: CliError| x.view_pair()).len() == e@.len());
            }
            Err(e)
        },
    }
}

/// The API key: the `OPENROUTER_API_KEY` environment value when set,
/// otherwise the `--api-key` argument, otherwise an error.
pub fn get_api_key(env_value: Option<String>, arg: Option<String>) -> (r: Result<String, CliError>)
    ensures
        env_value matches Some(k) ==> r == Ok::<String, CliError>(k),
        env_value is None && arg is Some ==> r == Ok::<String, CliError>(arg->0),
        env_value is None && arg is None ==> (r matches Err(e) && e.kind
            == CliErrorKind::MissingApiKey),
{
    match env_value {
        Some(k) => Ok(k),
        None => match arg {
            Some(k) => Ok(k),
            None => Err(CliError { kind: CliErrorKind::MissingApiKey, context: String::new() }),
        },
    }
}

} // verus!
