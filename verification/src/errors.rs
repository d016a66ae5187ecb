//! Failures that tell the caller what to do next.
use vstd::prelude::*;

verus! {

/// What went wrong, what that came from where something else failed first, and what the caller can do
/// about it.
#[derive(Debug)]
pub struct Failure {
    pub message: String,
    pub cause: Option<String>,
    pub hint: Option<String>,
}

/// The text of a failure.
pub struct FailureModel {
    pub message: Seq<char>,
    pub cause: Option<Seq<char>>,
    pub hint: Option<Seq<char>>,
}

impl DeepView for Failure {
    type V = FailureModel;

    open spec fn deep_view(&self) -> FailureModel {
        FailureModel {
            message: self.message@,
            cause: self.cause.deep_view(),
            hint: self.hint.deep_view(),
        }
    }
}

/// A failure with a hint, as contracts write it.
pub open spec fn hinted_failure(message: Seq<char>, hint: Seq<char>) -> FailureModel {
    FailureModel { message, cause: None, hint: Some(hint) }
}

/// A failure without a hint, as contracts write it.
pub open spec fn bare_failure(message: Seq<char>) -> FailureModel {
    FailureModel { message, cause: None, hint: None }
}

/// A failure that came from another, as contracts write it.
pub open spec fn caused_failure(message: Seq<char>, cause: Seq<char>) -> FailureModel {
    FailureModel { message, cause: Some(cause), hint: None }
}

/// A failure with a hint.
pub fn hinted(message: String, hint: &str) -> (f: Failure)
    ensures
        f.deep_view() == hinted_failure(message@, hint@),
{
    Failure { message, cause: None, hint: Some(hint.to_owned()) }
}

/// A failure without a hint.
pub fn unhinted(message: String) -> (f: Failure)
    ensures
        f.deep_view() == bare_failure(message@),
{
    Failure { message, cause: None, hint: None }
}

/// A failure that came from another.
pub fn caused(message: String, cause: String) -> (f: Failure)
    ensures
        f.deep_view() == caused_failure(message@, cause@),
{
    Failure { message, cause: Some(cause), hint: None }
}

/// A failure with another hint.
pub fn rehinted(failure: Failure, hint: String) -> (f: Failure)
    ensures
        f.deep_view() == (FailureModel { hint: Some(hint@), ..failure.deep_view() }),
{
    Failure { message: failure.message, cause: failure.cause, hint: Some(hint) }
}

/// What went wrong, with what it came from behind it.
pub open spec fn told(failure: FailureModel) -> Seq<char> {
    match failure.cause {
        Some(cause) => failure.message + ": "@ + cause,
        None => failure.message,
    }
}

/// What a tool answers where it failed: what went wrong and, on a line of its own, what to do about
/// it.
pub open spec fn rendered(tool: Seq<char>, failure: FailureModel) -> Seq<char> {
    tool + " failed: "@ + told(failure) + (match failure.hint {
        Some(hint) => "\nhint: "@ + hint,
        None => Seq::empty(),
    })
}

/// Writes out what a tool answers where it failed.
pub fn render(tool: &str, failure: &Failure) -> (r: String)
    ensures
        r@ == rendered(tool@, failure.deep_view()),
{
    let mut r = tool.to_owned();
    r.append(" failed: ");
    r.append(failure.message.as_str());
    match &failure.cause {
        Some(cause) => {
            r.append(": ");
            r.append(cause.as_str());
        },
        None => {},
    }
    let ghost said = r@;
    assert(said =~= tool@ + " failed: "@ + told(failure.deep_view()));
    match &failure.hint {
        Some(hint) => {
            r.append("\nhint: ");
            r.append(hint.as_str());
            assert(r@ =~= rendered(tool@, failure.deep_view()));
        },
        None => {
            assert(said + Seq::<char>::empty() =~= said);
        },
    }
    r
}

/// What a tool answers where it failed starts with its name, tells what went wrong and what that came from,
/// and has the hint, where there is one, on a line of its own at the end.
pub proof fn a_failure_is_told_whole(tool: Seq<char>, message: Seq<char>, cause: Seq<char>, hint: Seq<char>)
    ensures
        rendered(tool, bare_failure(message)) == tool + " failed: "@ + message,
        rendered(tool, hinted_failure(message, hint)) == tool + " failed: "@ + message + "\nhint: "@
            + hint,
        rendered(tool, caused_failure(message, cause)) == tool + " failed: "@ + message + ": "@ + cause,
{
    let none = Seq::<char>::empty();
    assert(rendered(tool, bare_failure(message)) =~= tool + " failed: "@ + message);
    assert(rendered(tool, hinted_failure(message, hint)) =~= tool + " failed: "@ + message
        + "\nhint: "@ + hint);
    assert(rendered(tool, caused_failure(message, cause)) =~= tool + " failed: "@ + message + ": "@
        + cause);
}

} // verus!
