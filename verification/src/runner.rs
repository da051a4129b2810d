//! The reactive unit of one step: given the status table, decide whether the
//! step may start, must be failed outright, or stays dormant.
use crate::graph::{dependencies, neighbors_directed};
use crate::step::{Outcome, RunType, Status, Step};
use petgraph::graphmap::GraphMap;
use petgraph::{Directed, Direction};
use vstd::prelude::*;

verus! {

/// The names of the steps, by position.
pub open spec fn names_of<E, R, F>(steps: Seq<Step<E, R, F>>) -> Seq<String> {
    Seq::new(steps.len(), |i: int| steps[i].name)
}

/// The position of the last name equal to `name`, if there is one.
pub open spec fn lookup_index(names: Seq<String>, name: Seq<char>) -> Option<int>
    decreases names.len(),
{
    if names.len() == 0 {
        None
    } else if names.last()@ == name {
        Some(names.len() - 1)
    } else {
        lookup_index(names.drop_last(), name)
    }
}

/// A position that `lookup_index` finds holds the name that was looked up.
pub proof fn lemma_lookup_finds_name(names: Seq<String>, name: Seq<char>)
    ensures
        lookup_index(names, name) matches Some(at) ==> 0 <= at < names.len() && names[at]@ == name,
    decreases names.len(),
{
    if names.len() > 0 && names.last()@ != name {
        lemma_lookup_finds_name(names.drop_last(), name);
    }
}

/// Looks for the last step of the given name.
pub fn lookup_name<E, R, F>(steps: &Vec<Step<E, R, F>>, name: &String) -> (found: Option<usize>)
    ensures
        lookup_index(names_of(steps@), name@) == match found {
            Some(at) => Some(at as int),
            None => None::<int>,
        },
{
    let ghost names = names_of(steps@);
    let mut upto: usize = steps.len();
    assert(names.take(upto as int) =~= names);
    while upto > 0
        invariant
            upto <= steps.len(),
            names == names_of(steps@),
            lookup_index(names, name@) == lookup_index(names.take(upto as int), name@),
        decreases upto,
    {
        assert(names.take(upto as int).drop_last() =~= names.take(upto - 1));
        assert(names.take(upto as int).last() == steps@[upto - 1].name);
        if steps[upto - 1].name == *name {
            return Some(upto - 1);
        }
        upto -= 1;
    }
    None
}

/// What `poll` finds when it looks at a step and its dependencies.
pub enum Verdict {
    /// The step already has its outcome.
    Done,
    /// The first dependency that has not succeeded has no outcome yet.
    Blocked,
    /// The first dependency that has not succeeded has failed.
    Failed,
    /// Every dependency has succeeded.
    Ready,
}

/// The first `upto` dependencies have all succeeded.
pub open spec fn all_succeeded(table: Seq<Status>, deps: Seq<usize>, upto: int) -> bool {
    forall|k: int| 0 <= k < upto ==> (#[trigger] table[deps[k] as int]).has_succeeded()
}

/// The verdict on step `index`, whose dependencies are examined in the order
/// of `deps` up to the first that has not succeeded.
pub open spec fn verdict(table: Seq<Status>, deps: Seq<usize>, index: int) -> Verdict {
    if table[index].is_completed() {
        Verdict::Done
    } else if exists|k: int|
        0 <= k < deps.len() && all_succeeded(table, deps, k) && (#[trigger] table[deps[k] as int]).has_failed() {
        Verdict::Failed
    } else if all_succeeded(table, deps, deps.len() as int) {
        Verdict::Ready
    } else {
        Verdict::Blocked
    }
}

/// The action that a step is dispatched with: where it names another step
/// whose recorded outcome has an output, that output takes the name's place.
pub open spec fn resolve(run: RunType, names: Seq<String>, table: Seq<Status>) -> RunType {
    match run {
        RunType::Step(name) => match lookup_index(names, name@) {
            Some(at) => match table[at] {
                Status::Completed(outcome) => match outcome.output {
                    Some(text) => RunType::Step(text),
                    None => run,
                },
                _ => run,
            },
            None => run,
        },
        _ => run,
    }
}

/// How one poll of step `index` changes the table: only the entry of the
/// step itself, and that as the verdict says.
pub open spec fn poll_step(
    before: Seq<Status>,
    after: Seq<Status>,
    deps: Seq<usize>,
    index: int,
) -> bool {
    &&& after.len() == before.len()
    &&& forall|j: int| 0 <= j < before.len() && j != index ==> after[j] == before[j]
    &&& match verdict(before, deps, index) {
        Verdict::Done | Verdict::Blocked => after == before,
        Verdict::Failed => after[index].was_skipped(),
        Verdict::Ready => after == if before[index] is Outstanding {
            before.update(index, Status::InProgress)
        } else {
            before
        },
    }
}

/// What the caller of `poll` has to do next.
#[derive(Debug, PartialEq)]
pub enum Action {
    /// Nothing: the step is dormant, running or done.
    Wait,
    /// The step was skipped and has its outcome: signal its completion.
    Notify,
    /// The step is now in progress: execute the action given here with the
    /// runner's expectation, filters and retry policy, record the outcome,
    /// then signal its completion.
    Dispatch(RunType),
}

/// Everything needed to decide about one step.
pub struct StepRunner<'a, E, R, F> {
    pub run: RunType,
    pub expect: &'a E,
    pub retry: &'a R,
    pub filters: &'a Vec<F>,
    pub graph: &'a GraphMap<usize, (), Directed>,
    /// All steps, for finding the step that an action names.
    pub name_lookup: &'a Vec<Step<E, R, F>>,
    pub index: usize,
}

fn is_completed(status: &Status) -> (yes: bool)
    ensures
        yes == status.is_completed(),
{
    match status {
        Status::Completed(_) => true,
        _ => false,
    }
}

fn is_outstanding(status: &Status) -> (yes: bool)
    ensures
        yes == (*status is Outstanding),
{
    match status {
        Status::Outstanding => true,
        _ => false,
    }
}

fn has_failed(status: &Status) -> (yes: bool)
    ensures
        yes == status.has_failed(),
{
    match status {
        Status::Completed(outcome) => outcome.error.is_some(),
        _ => false,
    }
}

impl<'a, E, R, F> StepRunner<'a, E, R, F> {
    /// The runner can be polled against a table of `len` statuses: its own
    /// step and its dependencies have an entry, and so has the step that its
    /// action names.
    pub open spec fn fits(&self, len: nat) -> bool {
        &&& self.index < len
        &&& forall|k: int|
            0 <= k < dependencies(*self.graph, self.index).len() ==> #[trigger] dependencies(
                *self.graph,
                self.index,
            )[k] < len
        &&& (self.run matches RunType::Step(name) ==> (lookup_index(
            names_of(self.name_lookup@),
            name@,
        ) matches Some(at) && at < len))
    }

    /// The action that a poll returns, given the table before and after it.
    pub open spec fn action_of(&self, before: Seq<Status>, after: Seq<Status>) -> Action {
        match verdict(before, dependencies(*self.graph, self.index), self.index as int) {
            Verdict::Done | Verdict::Blocked => Action::Wait,
            Verdict::Failed => Action::Notify,
            Verdict::Ready => if before[self.index as int] is Outstanding {
                Action::Dispatch(resolve(self.run, names_of(self.name_lookup@), after))
            } else {
                Action::Wait
            },
        }
    }

    /// The runner's action with the named step's recorded output, if it names
    /// a step that has one.
    fn resolve_run(&self, steps: &Vec<Status>) -> (run: RunType)
        requires
            self.fits(steps@.len()),
        ensures
            run == resolve(self.run, names_of(self.name_lookup@), steps@),
    {
        if let RunType::Step(name) = &self.run {
            let found = lookup_name(self.name_lookup, name);
            if let Some(at) = found {
                if let Status::Completed(outcome) = &steps[at] {
                    if let Some(text) = &outcome.output {
                        return RunType::Step(text.clone());
                    }
                }
            }
        }
        self.run.clone()
    }

    /// Looks at the step and at its dependencies in the graph's order.
    ///
    /// A step that has its outcome is left alone. Otherwise the first
    /// dependency that has not succeeded decides: if it failed, the step gets
    /// the outcome for an unmet dependency and its completion is to be
    /// signalled; if it has no outcome yet, nothing happens. With every
    /// dependency succeeded, an outstanding step goes in progress and is
    /// handed out for execution; one already in progress is left alone.
    pub fn poll(&self, steps: &mut Vec<Status>) -> (action: Action)
        requires
            self.fits(old(steps)@.len()),
        ensures
            poll_step(
                old(steps)@,
                final(steps)@,
                dependencies(*self.graph, self.index),
                self.index as int,
            ),
            action == self.action_of(old(steps)@, final(steps)@),
    {
        if is_completed(&steps[self.index]) {
            return Action::Wait;
        }
        let deps = neighbors_directed(self.graph, self.index, Direction::Incoming);
        let mut k: usize = 0;
        let mut has_error = false;
        while k < deps.len() && !has_error
            invariant
                k <= deps.len(),
                deps@ == dependencies(*self.graph, self.index),
                self.fits(steps@.len()),
                steps@ == old(steps)@,
                !has_error ==> all_succeeded(steps@, deps@, k as int),
                has_error ==> k < deps.len() && all_succeeded(steps@, deps@, k as int)
                    && steps@[deps@[k as int] as int].has_failed(),
            decreases deps.len() - k + if has_error { 0int } else { 1int },
        {
            if has_failed(&steps[deps[k]]) {
                has_error = true;
            } else if is_completed(&steps[deps[k]]) {
                k += 1;
            } else {
                assert(!steps@[deps@[k as int] as int].has_succeeded());
                return Action::Wait;
            }
        }
        if has_error {
            steps.set(self.index, Status::Completed(Outcome::dependency_not_met()));
            return Action::Notify;
        }
        if is_outstanding(&steps[self.index]) {
            steps.set(self.index, Status::InProgress);
            let run = self.resolve_run(steps);
            return Action::Dispatch(run);
        }
        Action::Wait
    }
}

/// Records the outcome of a step that has run.
pub fn record_outcome(steps: &mut Vec<Status>, index: usize, outcome: Outcome)
    requires
        index < old(steps)@.len(),
    ensures
        final(steps)@ == old(steps)@.update(index as int, Status::Completed(outcome)),
{
    steps.set(index, Status::Completed(outcome));
}

/// A step that names another step is dispatched with the output that the
/// named step recorded, not with the name.
pub proof fn lemma_named_step_gives_its_output(
    run: RunType,
    names: Seq<String>,
    table: Seq<Status>,
    at: int,
    text: String,
)
    requires
        run matches RunType::Step(name) && lookup_index(names, name@) == Some(at),
        table[at] matches Status::Completed(outcome) && outcome.output == Some(text),
    ensures
        resolve(run, names, table) == RunType::Step(text),
{
}

/// A second poll right after the first changes nothing and asks for nothing.
pub proof fn lemma_poll_again_is_idle(
    before: Seq<Status>,
    between: Seq<Status>,
    after: Seq<Status>,
    deps: Seq<usize>,
    index: int,
)
    requires
        0 <= index < before.len(),
        forall|k: int| 0 <= k < deps.len() ==> #[trigger] deps[k] < before.len(),
        poll_step(before, between, deps, index),
        poll_step(between, after, deps, index),
    ensures
        after == between,
        !(verdict(between, deps, index) is Failed),
        !(verdict(between, deps, index) is Ready && between[index] is Outstanding),
{
    let first = verdict(before, deps, index);
    let len = deps.len() as int;
    if first is Ready && before[index] is Outstanding {
        assert forall|k: int| 0 <= k < len implies (#[trigger] between[deps[k] as int]).has_succeeded() by {
            assert(before[deps[k] as int].has_succeeded());
        }
        if exists|k: int|
            0 <= k < len && all_succeeded(between, deps, k) && (
            #[trigger] between[deps[k] as int]).has_failed() {
            let k = choose|k: int|
                0 <= k < len && all_succeeded(between, deps, k) && (
                #[trigger] between[deps[k] as int]).has_failed();
            assert(between[deps[k] as int].has_succeeded());
        }
    } else if first is Blocked {
        assert(between == before);
    }
}

/// A poll dispatches a step only out of `Outstanding`, and leaves it in
/// progress: no later poll finds it outstanding, so none dispatches it again.
pub proof fn lemma_dispatch_takes_outstanding<'a, E, R, F>(
    runner: StepRunner<'a, E, R, F>,
    before: Seq<Status>,
    after: Seq<Status>,
)
    requires
        runner.index < before.len(),
        poll_step(before, after, dependencies(*runner.graph, runner.index), runner.index as int),
        runner.action_of(before, after) is Dispatch,
    ensures
        before[runner.index as int] is Outstanding,
        after[runner.index as int] is InProgress,
{
}

} // verus!
