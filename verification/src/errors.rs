//! Error markers of the program's stages, and the notes attached to error
//! reports.
use vstd::prelude::*;
use vstd::string::StringExecFns;

verus! {

/// Loading the stored bench results failed.
pub struct AllBenchResultsError;

impl AllBenchResultsError {
    /// What the error says.
    pub fn message(&self) -> (r: String)
        ensures
            r@ == "an AllBenchResultsError error occurred"@,
    {
        String::from_str("an AllBenchResultsError error occurred")
    }
}

/// Loading the stored responses failed.
pub struct AllResponsesError;

impl AllResponsesError {
    /// What the error says.
    pub fn message(&self) -> (r: String)
        ensures
            r@ == "an AllResponsesError error occurred"@,
    {
        String::from_str("an AllResponsesError error occurred")
    }
}

/// A run of completions for a model failed.
pub struct RunCompletion;

impl RunCompletion {
    /// What the error says.
    pub fn message(&self) -> (r: String)
        ensures
            r@ == "a RunCompletion occurred"@,
    {
        String::from_str("a RunCompletion occurred")
    }
}

/// A completion request failed.
pub struct CompletionError;

impl CompletionError {
    /// What the error says.
    pub fn message(&self) -> (r: String)
        ensures
            r@ == "a RunCompletion occurred"@,
    {
        String::from_str("a RunCompletion occurred")
    }
}

/// Saving a result failed.
pub struct SaveError;

impl SaveError {
    /// What the error says.
    pub fn message(&self) -> (r: String)
        ensures
            r@ == "a SaveError occurred"@,
    {
        String::from_str("a SaveError occurred")
    }
}

/// Building a prompt request failed.
pub struct PromptRequestError;

impl PromptRequestError {
    /// What the error says.
    pub fn message(&self) -> (r: String)
        ensures
            r@ == "prompt request error"@,
    {
        String::from_str("prompt request error")
    }
}

/// Loading a results dump failed.
pub struct ResultsDumpError;

impl ResultsDumpError {
    /// What the error says.
    pub fn message(&self) -> (r: String)
        ensures
            r@ == "a ResultsDump error occurred"@,
    {
        String::from_str("a ResultsDump error occurred")
    }
}

/// A suggestion attached to an error report.
pub struct Suggestion(pub &'static str);

impl Suggestion {
    /// The suggestion's text.
    pub fn message(&self) -> (r: String)
        ensures
            r@ == self.0@,
    {
        String::from_str(self.0)
    }

    /// The line an error report shows for it: `suggestion: <text>`.
    pub fn report_line(&self) -> (r: String)
        ensures
            r@ == "suggestion: "@ + self.0@,
    {
        let mut s = String::from_str("suggestion: ");
        s.append(self.0);
        s
    }
}

/// Context attached to an error report.
pub struct ErrContext(pub String);

impl ErrContext {
    /// Context with the given text.
    pub fn new(context: String) -> (r: ErrContext)
        ensures
            r.0@ == context@,
    {
        ErrContext(context)
    }

    /// The context's text.
    pub fn message(&self) -> (r: String)
        ensures
            r@ == self.0@,
    {
        String::from_str(self.0.as_str())
    }

    /// The line an error report shows for it: `context: <text>`.
    pub fn report_line(&self) -> (r: String)
        ensures
            r@ == "context: "@ + self.0@,
    {
        let mut s = String::from_str("context: ");
        s.append(self.0.as_str());
        s
    }
}

} // verus!
