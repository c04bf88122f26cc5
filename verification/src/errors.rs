use vstd::prelude::*;

verus! {

/// The error taxonomy of the tool. Every failure surfaces immediately with
/// enough context (which step, which hint, which profile) for the operator
/// to act; there is no retry anywhere in the core.
#[derive(Debug)]
pub enum AppError {
    /// The credential store was unreadable or malformed, or a profile that
    /// was listed is no longer present at lookup time.
    Config(String),
    /// A remote inventory query failed; `step` names the cascade step.
    Query { step: String, detail: String },
    /// A hint matched no candidate, or a required derived attribute
    /// (the runtime platform) was absent.
    NotFound { label: String, hint: String },
    /// An interactive prompt could not run: nothing to choose from, or the
    /// input stream was closed.
    Interaction(String),
    /// The external authentication helper exited with a failure status.
    Auth(String),
    /// The final attach process could not be spawned.
    Launch(String),
}

} // verus!
