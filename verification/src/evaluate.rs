//! Evaluators: whether the choices returned for a bench pass it.
use crate::text::{lowercase, lowercase_of, normalize_expected, normalized, str_eq, trim, trim_spec};
use crate::text::{alphanumeric_only, keep_alphanumeric};
use vstd::prelude::*;

verus! {

/// One choice of a completion response, as far as evaluators read it: the
/// message of a chat (non-streaming) choice, or a choice of another kind
/// (streaming delta or plain text), which evaluators do not support.
pub enum Choice {
    NonStreaming { content: Option<String> },
    Other,
}

impl Clone for Choice {
    fn clone(&self) -> (r: Self)
        ensures
            r == *self,
    {
        match self {
            Choice::NonStreaming { content } => match content {
                Some(s) => Choice::NonStreaming { content: Some(s.clone()) },
                None => Choice::NonStreaming { content: None },
            },
            Choice::Other => Choice::Other,
        }
    }
}

/// Reads the message of a choice.
pub trait GetMessageExt {
    /// The choice carries a chat message.
    spec fn is_chat(&self) -> bool;

    /// The message, if any. Only chat (non-streaming) choices are supported.
    fn get_message(&self) -> (r: Option<String>)
        requires
            self.is_chat(),
    ;
}

/// The text of an optional message.
pub open spec fn message_text(m: Option<String>) -> Option<Seq<char>> {
    match m {
        Some(s) => Some(s@),
        None => None,
    }
}

impl Choice {
    /// The message text of a chat choice.
    pub open spec fn message(&self) -> Option<Seq<char>> {
        match self {
            Choice::NonStreaming { content } => message_text(*content),
            Choice::Other => None,
        }
    }
}

impl GetMessageExt for Choice {
    open spec fn is_chat(&self) -> bool {
        self is NonStreaming
    }

    fn get_message(&self) -> (r: Option<String>)
        ensures
            message_text(r) == self.message(),
    {
        match self {
            Choice::NonStreaming { content } => match content {
                Some(s) => Some(s.clone()),
                None => None,
            },
            Choice::Other => None,
        }
    }
}

/// Whether a single answer, once normalised, equals `expected`.
fn answer_is(answer: &String, expected: &str) -> (r: bool)
    ensures
        r == (normalized(answer@) == expected@),
{
    let n = normalize_expected(answer.as_str());
    str_eq(n.as_str(), expected)
}

/// Evaluates a bench whose answer is known: the responses pass when there
/// is exactly one choice, it carries a message, and the message normalised
/// equals the expected value normalised.
pub struct Evaluator {
    pub bench: String,
    /// The expected answer, already normalised.
    pub expected: String,
}

/// The bench passes when there is a single choice whose message normalises
/// to `expected_norm`.
pub open spec fn single_answer_passes(cs: Seq<Choice>, expected_norm: Seq<char>) -> bool {
    cs.len() == 1 && match cs[0].message() {
        Some(m) => normalized(m) == expected_norm,
        None => false,
    }
}

impl Evaluator {
    /// Scores `responses`.
    pub fn eval(&self, responses: &[Choice]) -> (pass: bool)
        requires
            responses@.len() == 1 ==> responses@[0].is_chat(),
        ensures
            pass == single_answer_passes(responses@, self.expected@),
    {
        if responses.len() == 1 {
            match responses[0].get_message() {
                Some(a) => answer_is(&a, self.expected.as_str()),
                None => false,
            }
        } else {
            false
        }
    }
}

/// An evaluator expecting `expected`, compared after normalisation.
pub fn make_evaluator(expected: &str) -> (r: Evaluator)
    ensures
        r.expected@ == normalized(expected@),
        r.bench@.len() == 0,
{
    Evaluator { bench: String::new(), expected: normalize_expected(expected) }
}

// ── The task-priority benches ───────────────────────────────────────────────

/// The expected answer of the task-priority benches.
pub open spec fn game_engine() -> Seq<char> {
    "pick a game engine"@
}

/// Chain-of-thought variant: one choice, normalised to the expected task.
pub fn eval_task_priority_cot(responses: &[Choice]) -> (pass: bool)
    requires
        responses@.len() == 1 ==> responses@[0].is_chat(),
    ensures
        pass == single_answer_passes(responses@, game_engine()),
{
    if responses.len() == 1 {
        match responses[0].get_message() {
            Some(a) => answer_is(&a, "pick a game engine"),
            None => false,
        }
    } else {
        false
    }
}

/// Metaprompt variant: two choices (the generated prompt, then the answer);
/// the answer, normalised, is the expected task.
pub fn eval_task_priority_metaprompt(responses: &[Choice]) -> (pass: bool)
    requires
        responses@.len() == 2 ==> responses@[1].is_chat(),
    ensures
        pass == (responses@.len() == 2 && match responses@[1].message() {
            Some(m) => normalized(m) == game_engine(),
            None => false,
        }),
{
    if responses.len() == 2 {
        match responses[1].get_message() {
            Some(a) => answer_is(&a, "pick a game engine"),
            None => false,
        }
    } else {
        false
    }
}

/// Naive variant: one choice, lowercased and reduced to alphanumeric
/// characters and whitespace, then trimmed (chat tags are not removed).
pub fn eval_task_priority_naive(responses: &[Choice]) -> (pass: bool)
    requires
        responses@.len() == 1 ==> responses@[0].is_chat(),
    ensures
        pass == (responses@.len() == 1 && match responses@[0].message() {
            Some(m) => trim_spec(keep_alphanumeric(lowercase_of(m))) == game_engine(),
            None => false,
        }),
{
    if responses.len() == 1 {
        match responses[0].get_message() {
            Some(a) => {
                let l = lowercase(a.as_str());
                let k = alphanumeric_only(l.as_str());
                let t = trim(k.as_str());
                str_eq(t.as_str(), "pick a game engine")
            },
            None => false,
        }
    } else {
        false
    }
}

/// Recheck variant: two choices, the task then a confirmation; the first
/// normalises to the expected task and the second to `yes`.
pub fn eval_task_priority_recheck(responses: &[Choice]) -> (pass: bool)
    requires
        responses@.len() == 2 ==> responses@[0].is_chat() && responses@[1].is_chat(),
    ensures
        pass == (responses@.len() == 2 && match (responses@[0].message(), responses@[1].message()) {
            (Some(a), Some(b)) => normalized(a) == game_engine() && normalized(b) == "yes"@,
            _ => false,
        }),
{
    if responses.len() == 2 {
        match (responses[0].get_message(), responses[1].get_message()) {
            (Some(a), Some(b)) => {
                let p1 = answer_is(&a, "pick a game engine");
                let p2 = answer_is(&b, "yes");
                p1 && p2
            },
            _ => false,
        }
    } else {
        false
    }
}

/// Plain variant: one choice whose message, lowercased, is exactly the
/// expected task.
pub fn eval_task_priority(responses: &[Choice]) -> (pass: bool)
    requires
        responses@.len() == 1 ==> responses@[0].is_chat(),
    ensures
        pass == (responses@.len() == 1 && match responses@[0].message() {
            Some(m) => lowercase_of(m) == game_engine(),
            None => false,
        }),
{
    if responses.len() == 1 {
        match responses[0].get_message() {
            Some(a) => {
                let l = lowercase(a.as_str());
                str_eq(l.as_str(), "pick a game engine")
            },
            None => false,
        }
    } else {
        false
    }
}

/// Prompt-ception variant: at least two choices, both with a message; the
/// second, lowercased and trimmed, is the expected task.
pub fn eval_task_priority_promptception(responses: &[Choice]) -> (pass: bool)
    requires
        responses@.len() >= 2 ==> responses@[0].is_chat() && responses@[1].is_chat(),
    ensures
        pass == (responses@.len() >= 2 && match (responses@[0].message(), responses@[1].message()) {
            (Some(_), Some(b)) => trim_spec(lowercase_of(b)) == game_engine(),
            _ => false,
        }),
{
    if responses.len() >= 2 {
        match (responses[0].get_message(), responses[1].get_message()) {
            (Some(_), Some(b)) => {
                let l = lowercase(b.as_str());
                let t = trim(l.as_str());
                str_eq(t.as_str(), "pick a game engine")
            },
            _ => false,
        }
    } else {
        false
    }
}

/// The summary-spam bench always passes: it exists to look at the output.
pub fn eval_summary_spam(responses: &[Choice]) -> (pass: bool)
    ensures
        pass,
{
    true
}

/// An evaluator built from an expected answer passes a lone chat answer
/// exactly when both, normalised (lowercased, chat tags stripped, only
/// letters, digits and whitespace kept, trimmed), are equal.
pub proof fn lemma_answer_passes_iff_normalized_equal(answer: String, expected: Seq<char>)
    ensures
        single_answer_passes(
            seq![Choice::NonStreaming { content: Some(answer) }],
            normalized(expected),
        ) == (normalized(answer@) == normalized(expected)),
{
}

} // verus!
