//! Model identifiers, the models and model groups of the configuration, and
//! the choice of models for a run.
use crate::text::{chars_of, is_substring, str_contains};
use vstd::prelude::*;

verus! {

/// An OpenRouter model identifier, such as `openai/gpt-4o`.
pub struct ModelId(pub String);

impl View for ModelId {
    type V = Seq<char>;

    open spec fn view(&self) -> Seq<char> {
        self.0@
    }
}

impl Clone for ModelId {
    fn clone(&self) -> (r: Self)
        ensures
            r == *self,
    {
        ModelId(self.0.clone())
    }
}

impl ModelId {
    /// Length of the identifier in bytes (UTF-8).
    pub fn len(&self) -> (n: usize)
        ensures
            n == vstd::utf8::encode_utf8(self@).len() as usize,
    {
        self.0.as_str().len()
    }

    /// The identifier's text.
    pub fn as_str(&self) -> (s: &str)
        ensures
            s@ == self@,
    {
        self.0.as_str()
    }

    /// Whether `other` occurs within this identifier.
    pub fn contains(&self, other: &ModelId) -> (r: bool)
        ensures
            r == is_substring(other@, self@),
    {
        str_contains(self.0.as_str(), other.0.as_str())
    }
}

/// A copy of a list of model identifiers.
pub fn copy_models(v: &[ModelId]) -> (r: Vec<ModelId>)
    ensures
        r@ == v@,
{
    let mut r: Vec<ModelId> = Vec::new();
    let mut i: usize = 0;
    while i < v.len()
        invariant
            i <= v@.len(),
            r@ == v@.take(i as int),
        decreases v.len() - i,
    {
        assert(v@.take(i as int + 1) =~= v@.take(i as int).push(v@[i as int]));
        r.push(v[i].clone());
        i += 1;
    }
    assert(v@.take(v@.len() as int) =~= v@);
    r
}

/// Models to use in a bench or an evaluation.
pub struct SelectedModels {
    models: Vec<ModelId>,
}

impl View for SelectedModels {
    type V = Seq<ModelId>;

    closed spec fn view(&self) -> Seq<ModelId> {
        self.models@
    }
}

impl SelectedModels {
    /// The selection holding `models`, in order.
    pub fn from_vec(models: Vec<ModelId>) -> (r: SelectedModels)
        ensures
            r@ == models@,
    {
        SelectedModels { models }
    }

    pub fn is_empty(&self) -> (r: bool)
        ensures
            r == (self@.len() == 0),
    {
        self.models.len() == 0
    }

    pub fn len(&self) -> (r: usize)
        ensures
            r == self@.len(),
    {
        self.models.len()
    }

    /// The selected models, in order.
    pub fn iter(&self) -> (r: &[ModelId])
        ensures
            r@ == self@,
    {
        self.models.as_slice()
    }

    /// Adds `more` after the selected models, in order.
    pub fn extend(&mut self, more: Vec<ModelId>)
        ensures
            final(self)@ == old(self)@ + more@,
    {
        let mut more = more;
        self.models.append(&mut more);
    }

    /// The selected models, taken out.
    pub fn into_vec(self) -> (r: Vec<ModelId>)
        ensures
            r@ == self@,
    {
        self.models
    }
}

/// A named group of models from the configuration.
pub struct ModelGroup {
    pub name: String,
    pub models: Vec<ModelId>,
}

/// No two groups share a name.
pub open spec fn distinct_names(gs: Seq<ModelGroup>) -> bool {
    forall|i: int, j: int|
        0 <= i < gs.len() && 0 <= j < gs.len() && i != j ==> gs[i].name@ != gs[j].name@
}

/// Models from the configuration file: a list of models and named groups of
/// models, no two groups with the same name.
pub struct Models {
    models: Vec<ModelId>,
    model_groups: Vec<ModelGroup>,
}

impl Models {
    #[verifier::type_invariant]
    spec fn names_distinct(self) -> bool {
        distinct_names(self.model_groups@)
    }

    /// The configured models, in order.
    pub closed spec fn model_list(&self) -> Seq<ModelId> {
        self.models@
    }

    /// The configured groups.
    pub closed spec fn groups(&self) -> Seq<ModelGroup> {
        self.model_groups@
    }

    /// Whether two groups share a name.
    fn has_duplicate_name(groups: &Vec<ModelGroup>) -> (r: bool)
        ensures
            r == !distinct_names(groups@),
    {
        let mut i: usize = 0;
        while i < groups.len()
            invariant
                i <= groups@.len(),
                forall|a: int, b: int|
                    0 <= a < i && 0 <= b < groups@.len() && a != b ==> groups@[a].name@
                        != groups@[b].name@,
            decreases groups.len() - i,
        {
            let mut j: usize = 0;
            while j < groups.len()
                invariant
                    i < groups@.len(),
                    j <= groups@.len(),
                    forall|a: int, b: int|
                        0 <= a < i && 0 <= b < groups@.len() && a != b ==> groups@[a].name@
                            != groups@[b].name@,
                    forall|b: int| 0 <= b < j && i != b ==> groups@[i as int].name@ != groups@[b].name@,
                decreases groups.len() - j,
            {
                if i != j && crate::text::str_eq(groups[i].name.as_str(), groups[j].name.as_str()) {
                    return true;
                }
                j += 1;
            }
            i += 1;
        }
        false
    }

    /// Configuration with `models` and `groups`; `None` when two groups share
    /// a name.
    pub fn new(models: Vec<ModelId>, groups: Vec<ModelGroup>) -> (r: Option<Models>)
        ensures
            r is Some <==> distinct_names(groups@),
            r matches Some(m) ==> m.model_list() == models@ && m.groups() == groups@,
    {
        if Self::has_duplicate_name(&groups) {
            None
        } else {
            Some(Models { models, model_groups: groups })
        }
    }

    /// Configuration with the given models and no groups.
    pub fn from_models(models: Vec<ModelId>) -> (r: Models)
        ensures
            r.model_list() == models@,
            r.groups().len() == 0,
    {
        Models { models, model_groups: Vec::new() }
    }

    /// No model configured.
    pub fn is_empty(&self) -> (r: bool)
        ensures
            r == (self.model_list().len() == 0),
    {
        self.models.len() == 0
    }

    /// The configured models, in order.
    pub fn models(&self) -> (r: &[ModelId])
        ensures
            r@ == self.model_list(),
    {
        self.models.as_slice()
    }

    /// The model groups.
    pub fn iter_groups(&self) -> (r: &[ModelGroup])
        ensures
            r@ == self.groups(),
            distinct_names(r@),
    {
        proof {
            use_type_invariant(self);
        }
        self.model_groups.as_slice()
    }
}

#[derive(Debug)]
pub struct ModelsError;

} // verus!
