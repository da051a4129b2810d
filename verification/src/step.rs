//! Steps, their actions and outcomes, and the lifecycle status of a step.
use std::time::Duration;
use vstd::prelude::*;

verus! {

/// The length of a time span in nanoseconds, as `Duration::as_nanos` gives it.
pub uninterp spec fn span_nanos(span: Duration) -> nat;

/// Calls `Duration::from_secs`.
///
/// Trusted: the span that comes back lasts the given number of whole seconds.
#[verifier::external_body]
pub(crate) fn duration_from_secs(secs: u64) -> (span: Duration)
    ensures
        span_nanos(span) == secs * 1_000_000_000,
{
    Duration::from_secs(secs)
}

/// The result of running a step, or of failing to run it.
#[derive(Debug, PartialEq)]
pub struct Outcome {
    pub output: Option<String>,
    /// Present exactly when the step counts as failed for the steps after it.
    pub error: Option<String>,
    pub duration: Duration,
}

/// An outcome as plain values.
pub struct OutcomeView {
    pub output: Option<Seq<char>>,
    pub error: Option<Seq<char>>,
    pub nanos: nat,
}

impl View for Outcome {
    type V = OutcomeView;

    open spec fn view(&self) -> OutcomeView {
        OutcomeView {
            output: match self.output {
                Some(text) => Some(text@),
                None => None,
            },
            error: match self.error {
                Some(text) => Some(text@),
                None => None,
            },
            nanos: span_nanos(self.duration),
        }
    }
}

/// The outcome given to a step that was never run because one of its
/// dependencies failed: empty output, a fixed error, no time spent.
pub open spec fn dependency_not_met() -> OutcomeView {
    OutcomeView {
        output: Some(Seq::<char>::empty()),
        error: Some("Dependency Not Met"@),
        nanos: 0,
    }
}

fn clone_text(text: &Option<String>) -> (copy: Option<String>)
    ensures
        copy == *text,
{
    match text {
        Some(inner) => Some(inner.clone()),
        None => None,
    }
}

impl Clone for Outcome {
    fn clone(&self) -> (copy: Self)
        ensures
            copy == *self,
    {
        Outcome {
            output: clone_text(&self.output),
            error: clone_text(&self.error),
            duration: self.duration,
        }
    }
}

impl Outcome {
    /// Builds the outcome of a step whose dependency failed.
    pub fn dependency_not_met() -> (outcome: Outcome)
        ensures
            outcome@ == dependency_not_met(),
    {
        let output: String = "".to_owned();
        let error: String = "Dependency Not Met".to_owned();
        let duration = duration_from_secs(0);
        proof {
            reveal_strlit("");
            assert(output@ =~= Seq::<char>::empty());
        }
        Outcome { output: Some(output), error: Some(error), duration }
    }
}

/// The action of a step.
#[derive(Debug, PartialEq)]
pub enum RunType {
    /// An action that is executed as it is written.
    Command(String),
    /// The name of another step. When the step is dispatched, the name is
    /// replaced by the output that the named step recorded.
    Step(String),
}

/// An action as plain values.
pub enum RunTypeView {
    Command(Seq<char>),
    Step(Seq<char>),
}

impl View for RunType {
    type V = RunTypeView;

    open spec fn view(&self) -> RunTypeView {
        match *self {
            RunType::Command(text) => RunTypeView::Command(text@),
            RunType::Step(text) => RunTypeView::Step(text@),
        }
    }
}

impl Clone for RunType {
    fn clone(&self) -> (copy: Self)
        ensures
            copy == *self,
    {
        match self {
            RunType::Command(text) => RunType::Command(text.clone()),
            RunType::Step(text) => RunType::Step(text.clone()),
        }
    }
}

/// Where a step stands: `Outstanding` until it is dispatched or skipped,
/// `InProgress` while it runs, `Completed` for good once it has an outcome.
#[derive(Debug, PartialEq)]
pub enum Status {
    InProgress,
    Outstanding,
    Completed(Outcome),
}

/// A status as plain values.
pub enum StatusView {
    InProgress,
    Outstanding,
    Completed(OutcomeView),
}

impl View for Status {
    type V = StatusView;

    open spec fn view(&self) -> StatusView {
        match *self {
            Status::InProgress => StatusView::InProgress,
            Status::Outstanding => StatusView::Outstanding,
            Status::Completed(outcome) => StatusView::Completed(outcome@),
        }
    }
}

impl Clone for Status {
    fn clone(&self) -> (copy: Self)
        ensures
            copy == *self,
    {
        match self {
            Status::InProgress => Status::InProgress,
            Status::Outstanding => Status::Outstanding,
            Status::Completed(outcome) => Status::Completed(outcome.clone()),
        }
    }
}

impl Status {
    /// The step has an outcome.
    pub open spec fn is_completed(self) -> bool {
        self is Completed
    }

    /// The step has an outcome with an error.
    pub open spec fn has_failed(self) -> bool {
        self matches Status::Completed(outcome) && outcome.error is Some
    }

    /// The step has an outcome without an error.
    pub open spec fn has_succeeded(self) -> bool {
        self matches Status::Completed(outcome) && outcome.error is None
    }

    /// The step was skipped: its outcome is the one for a failed dependency.
    pub open spec fn was_skipped(self) -> bool {
        self matches Status::Completed(outcome) && outcome@ == dependency_not_met()
    }
}

/// A named unit of work. `E`, `R` and `F` are the expectation, the retry
/// policy and the output filter: the scheduler hands them to the executor
/// as they are and never looks inside.
#[derive(Debug, Clone, PartialEq)]
pub struct Step<E, R, F> {
    pub name: String,
    pub run: RunType,
    pub expect: E,
    pub retry: R,
    pub filters: Vec<F>,
    /// Empty until the step has run or has been skipped.
    pub outcome: Option<Outcome>,
}

} // verus!
