//! What the outcomes in a status table have to do with the graph and with the
//! steps' actions: which steps ran, on what, and which were skipped.
use crate::graph::{
    acyclic, dependencies, graph_fits, lemma_endless_descent_is_a_cycle, listed_within,
};
use crate::runner::{all_succeeded, lemma_lookup_finds_name, lookup_index, poll_step, resolve, verdict, Verdict};
use crate::step::{dependency_not_met, Outcome, RunType, Status};
use petgraph::graphmap::GraphMap;
use petgraph::Directed;
use vstd::prelude::*;

verus! {

/// What is fixed before a run starts: the graph, and every step's action and
/// name, by position.
pub struct Plan {
    pub graph: GraphMap<usize, (), Directed>,
    pub runs: Seq<RunType>,
    pub names: Seq<String>,
}

impl Plan {
    /// The plan is one for `len` steps, over a graph of those steps.
    pub open spec fn well_formed(self, len: nat) -> bool {
        &&& len <= usize::MAX
        &&& self.runs.len() == len
        &&& self.names.len() == len
        &&& graph_fits(self.graph, len)
    }

    /// The step that the action of `step` names, if it names one.
    pub open spec fn cited(self, step: int) -> Option<int> {
        match self.runs[step] {
            RunType::Step(name) => lookup_index(self.names, name@),
            _ => None,
        }
    }

    /// The action of `step` names one of the step's own dependencies.
    pub open spec fn cites_dependency(self, step: int) -> bool {
        self.cited(step) matches Some(at) && dependencies(self.graph, step as usize).contains(
            at as usize,
        )
    }

    /// Every step whose action names a step depends on the step it names.
    pub open spec fn cites_only_dependencies(self) -> bool {
        forall|step: int|
            0 <= step < self.runs.len() && (#[trigger] self.cited(step)) is Some
                ==> self.cites_dependency(step)
    }

    /// `outcome` is what executing `step` gave. The action it was executed
    /// with is the step's own, with the output of the step it names in the
    /// name's place; a step that does not depend on the step it names may
    /// also have run on the name itself.
    pub open spec fn ran_as(
        self,
        produced: spec_fn(int, RunType, Outcome) -> bool,
        table: Seq<Status>,
        step: int,
        outcome: Outcome,
    ) -> bool {
        ||| produced(step, resolve(self.runs[step], self.names, table), outcome)
        ||| (!self.cites_dependency(step) && produced(step, self.runs[step], outcome))
    }

    /// The status of `step` is accounted for: a step in progress has only
    /// succeeded dependencies; a completed step either was skipped, and then
    /// one of its dependencies has failed, or has only succeeded
    /// dependencies and the outcome of its own execution.
    pub open spec fn justified_at(
        self,
        produced: spec_fn(int, RunType, Outcome) -> bool,
        table: Seq<Status>,
        step: int,
    ) -> bool {
        let deps = dependencies(self.graph, step as usize);
        match table[step] {
            Status::Outstanding => true,
            Status::InProgress => all_succeeded(table, deps, deps.len() as int),
            Status::Completed(outcome) => {
                ||| (outcome@ == dependency_not_met() && exists|k: int|
                    0 <= k < deps.len() && (#[trigger] table[deps[k] as int]).has_failed())
                ||| (all_succeeded(table, deps, deps.len() as int) && self.ran_as(
                    produced,
                    table,
                    step,
                    outcome,
                ))
            },
        }
    }

    /// Every status in the table is accounted for.
    pub open spec fn justified(
        self,
        produced: spec_fn(int, RunType, Outcome) -> bool,
        table: Seq<Status>,
    ) -> bool {
        &&& self.well_formed(table.len())
        &&& forall|step: int|
            0 <= step < table.len() ==> #[trigger] self.justified_at(produced, table, step)
    }

    /// The table is that of a finished run: every step has completed and
    /// every outcome is accounted for.
    pub open spec fn settled(
        self,
        produced: spec_fn(int, RunType, Outcome) -> bool,
        table: Seq<Status>,
    ) -> bool {
        &&& self.justified(produced, table)
        &&& forall|step: int| 0 <= step < table.len() ==> (#[trigger] table[step]).is_completed()
    }
}

/// Executing the same step on the same action gives the same outcome.
pub open spec fn deterministic(produced: spec_fn(int, RunType, Outcome) -> bool) -> bool {
    forall|step: int, a: RunType, b: RunType, x: Outcome, y: Outcome|
        #[trigger] produced(step, a, x) && #[trigger] produced(step, b, y) && a@ == b@ ==> x@
            == y@
}

/// What is accounted for at one step stays so when the status of another
/// step, not yet completed, changes.
proof fn lemma_justified_elsewhere(
    plan: Plan,
    produced: spec_fn(int, RunType, Outcome) -> bool,
    before: Seq<Status>,
    after: Seq<Status>,
    changed: int,
    step: int,
)
    requires
        plan.well_formed(before.len()),
        after.len() == before.len(),
        forall|j: int| 0 <= j < before.len() && j != changed ==> after[j] == before[j],
        0 <= changed < before.len(),
        !before[changed].is_completed(),
        0 <= step < before.len(),
        step != changed,
        plan.justified_at(produced, before, step),
    ensures
        plan.justified_at(produced, after, step),
{
    let deps = dependencies(plan.graph, step as usize);
    let len = deps.len() as int;
    assert(listed_within(plan.graph, step as usize, true, before.len()));
    if all_succeeded(before, deps, len) {
        assert forall|k: int| 0 <= k < len implies (#[trigger] after[deps[k] as int]).has_succeeded() by {
            assert(before[deps[k] as int].has_succeeded());
        }
    }
    if let Status::Completed(outcome) = before[step] {
        if exists|k: int| 0 <= k < len && (#[trigger] before[deps[k] as int]).has_failed() {
            let k = choose|k: int| 0 <= k < len && (#[trigger] before[deps[k] as int]).has_failed();
            assert(after[deps[k] as int].has_failed());
        }
        if all_succeeded(before, deps, len) && plan.ran_as(produced, before, step, outcome) {
            if let RunType::Step(name) = plan.runs[step] {
                lemma_lookup_finds_name(plan.names, name@);
                if plan.cited(step) == Some(changed) {
                    if plan.cites_dependency(step) {
                        let k = choose|k: int| 0 <= k < len && deps[k] == changed as usize;
                        assert(before[deps[k] as int].has_succeeded());
                    }
                    assert(resolve(plan.runs[step], plan.names, before) == plan.runs[step]);
                }
            }
            assert(plan.ran_as(produced, after, step, outcome));
        }
    }
}

/// A poll keeps every status accounted for.
pub proof fn lemma_poll_keeps_justified(
    plan: Plan,
    produced: spec_fn(int, RunType, Outcome) -> bool,
    before: Seq<Status>,
    after: Seq<Status>,
    step: int,
)
    requires
        plan.justified(produced, before),
        0 <= step < before.len(),
        poll_step(before, after, dependencies(plan.graph, step as usize), step),
    ensures
        plan.justified(produced, after),
{
    let deps = dependencies(plan.graph, step as usize);
    let len = deps.len() as int;
    let v = verdict(before, deps, step);
    assert(listed_within(plan.graph, step as usize, true, before.len()));
    if after != before {
        assert(!before[step].is_completed());
        assert forall|other: int| 0 <= other < after.len() implies #[trigger] plan.justified_at(
            produced,
            after,
            other,
        ) by {
            assert(plan.justified_at(produced, before, other));
            if other != step {
                lemma_justified_elsewhere(plan, produced, before, after, step, other);
            } else if v is Failed {
                let k = choose|k: int|
                    0 <= k < deps.len() && all_succeeded(before, deps, k) && (
                    #[trigger] before[deps[k] as int]).has_failed();
                assert(after[deps[k] as int].has_failed());
            } else {
                assert(v is Ready);
                assert forall|k: int| 0 <= k < len implies (
                #[trigger] after[deps[k] as int]).has_succeeded() by {
                    assert(before[deps[k] as int].has_succeeded());
                }
            }
        }
    }
}

/// Recording the outcome of a step in progress keeps every status accounted
/// for, provided the outcome is what executing the step gave.
pub proof fn lemma_recording_keeps_justified(
    plan: Plan,
    produced: spec_fn(int, RunType, Outcome) -> bool,
    before: Seq<Status>,
    step: int,
    outcome: Outcome,
)
    requires
        plan.justified(produced, before),
        0 <= step < before.len(),
        before[step] is InProgress,
        plan.ran_as(produced, before, step, outcome),
    ensures
        plan.justified(produced, before.update(step, Status::Completed(outcome))),
{
    let after = before.update(step, Status::Completed(outcome));
    let deps = dependencies(plan.graph, step as usize);
    let len = deps.len() as int;
    assert(listed_within(plan.graph, step as usize, true, before.len()));
    assert forall|other: int| 0 <= other < after.len() implies #[trigger] plan.justified_at(
        produced,
        after,
        other,
    ) by {
        assert(plan.justified_at(produced, before, other));
        if other != step {
            lemma_justified_elsewhere(plan, produced, before, after, step, other);
        } else {
            assert forall|k: int| 0 <= k < len implies (
            #[trigger] after[deps[k] as int]).has_succeeded() by {
                assert(before[deps[k] as int].has_succeeded());
            }
            if let RunType::Step(name) = plan.runs[step] {
                lemma_lookup_finds_name(plan.names, name@);
                if plan.cited(step) == Some(step) {
                    if plan.cites_dependency(step) {
                        let k = choose|k: int| 0 <= k < len && deps[k] == step as usize;
                        assert(before[deps[k] as int].has_succeeded());
                    }
                    assert(resolve(plan.runs[step], plan.names, before) == plan.runs[step]);
                }
            }
            assert(plan.ran_as(produced, after, step, outcome));
        }
    }
}

/// Failure spreads downstream: along a chain of dependencies that starts at
/// a failed step, no step ever runs. Each is outstanding or was skipped, and
/// a skipped step counts as failed itself.
pub proof fn lemma_failure_reaches_dependents(
    plan: Plan,
    produced: spec_fn(int, RunType, Outcome) -> bool,
    table: Seq<Status>,
    path: Seq<usize>,
    at: int,
)
    requires
        plan.justified(produced, table),
        forall|k: int| 0 <= k < path.len() ==> (#[trigger] path[k]) < table.len(),
        forall|k: int|
            0 < k < path.len() ==> dependencies(plan.graph, #[trigger] path[k]).contains(
                path[k - 1],
            ),
        0 < at < path.len(),
        table[path[0] as int].has_failed(),
    ensures
        table[path[at] as int] is Outstanding || table[path[at] as int].was_skipped(),
        table[path[at] as int].is_completed() ==> table[path[at] as int].has_failed(),
    decreases at,
{
    if at > 1 {
        lemma_failure_reaches_dependents(plan, produced, table, path, at - 1);
    }
    let before = path[at - 1];
    let here = path[at];
    let deps = dependencies(plan.graph, here);
    assert(!table[before as int].has_succeeded());
    assert(deps.contains(before));
    let k = choose|k: int| 0 <= k < deps.len() && deps[k] == before;
    assert(!(#[trigger] table[deps[k] as int]).has_succeeded());
    assert(plan.justified_at(produced, table, here as int));
}

/// Two steps whose dependencies ended alike, resolve their action alike.
proof fn lemma_resolve_alike(plan: Plan, first: Seq<Status>, second: Seq<Status>, step: int)
    requires
        plan.well_formed(first.len()),
        second.len() == first.len(),
        0 <= step < first.len(),
        plan.cited(step) matches Some(at) ==> first[at]@ == second[at]@,
    ensures
        resolve(plan.runs[step], plan.names, first)@ == resolve(
            plan.runs[step],
            plan.names,
            second,
        )@,
{
    if let RunType::Step(name) = plan.runs[step] {
        lemma_lookup_finds_name(plan.names, name@);
    }
}

/// Two finished runs of the same plan that agree on every dependency of
/// `step` agree on `step`.
proof fn lemma_settled_tables_agree_at(
    plan: Plan,
    produced: spec_fn(int, RunType, Outcome) -> bool,
    first: Seq<Status>,
    second: Seq<Status>,
    step: int,
)
    requires
        plan.settled(produced, first),
        plan.settled(produced, second),
        second.len() == first.len(),
        plan.cites_only_dependencies(),
        deterministic(produced),
        0 <= step < first.len(),
        forall|k: int|
            0 <= k < dependencies(plan.graph, step as usize).len() ==> first[(
            #[trigger] dependencies(plan.graph, step as usize)[k]) as int]@
                == second[dependencies(plan.graph, step as usize)[k] as int]@,
    ensures
        first[step]@ == second[step]@,
{
    let deps = dependencies(plan.graph, step as usize);
    let len = deps.len() as int;
    assert(listed_within(plan.graph, step as usize, true, first.len()));
    assert(plan.justified_at(produced, first, step));
    assert(plan.justified_at(produced, second, step));
    let one = first[step]->Completed_0;
    let two = second[step]->Completed_0;
    if exists|k: int| 0 <= k < len && (#[trigger] first[deps[k] as int]).has_failed() {
        let k = choose|k: int| 0 <= k < len && (#[trigger] first[deps[k] as int]).has_failed();
        assert(first[deps[k] as int]@ == second[deps[k] as int]@);
        assert(second[deps[k] as int].has_failed());
        assert(!first[deps[k] as int].has_succeeded());
        assert(!second[deps[k] as int].has_succeeded());
    } else {
        if exists|k: int| 0 <= k < len && (#[trigger] second[deps[k] as int]).has_failed() {
            let k = choose|k: int| 0 <= k < len && (#[trigger] second[deps[k] as int]).has_failed();
            assert(first[deps[k] as int]@ == second[deps[k] as int]@);
            assert(first[deps[k] as int].has_failed());
        }
        if plan.cited(step) is Some {
            let at = plan.cited(step)->Some_0;
            lemma_lookup_finds_name(plan.names, plan.runs[step]->Step_0@);
            assert(plan.cites_dependency(step));
            let k = choose|k: int| 0 <= k < len && deps[k] == at as usize;
            assert(first[deps[k] as int]@ == second[deps[k] as int]@);
        }
        lemma_resolve_alike(plan, first, second, step);
        assert(produced(step, resolve(plan.runs[step], plan.names, first), one));
        assert(produced(step, resolve(plan.runs[step], plan.names, second), two));
    }
}

/// The order in which steps complete does not show in the result. In an
/// acyclic graph in which every step that names another depends on it, and
/// with an executor that gives the same outcome for the same step and
/// action, any two finished runs end with the same table.
pub proof fn lemma_settled_tables_agree(
    plan: Plan,
    produced: spec_fn(int, RunType, Outcome) -> bool,
    first: Seq<Status>,
    second: Seq<Status>,
)
    requires
        plan.settled(produced, first),
        plan.settled(produced, second),
        second.len() == first.len(),
        acyclic(plan.graph, first.len()),
        plan.cites_only_dependencies(),
        deterministic(produced),
    ensures
        forall|step: int| 0 <= step < first.len() ==> (#[trigger] first[step])@ == second[step]@,
{
    let apart = Set::new(
        |step: usize| step < first.len() && first[step as int]@ != second[step as int]@,
    );
    if exists|step: int| 0 <= step < first.len() && (#[trigger] first[step])@ != second[step]@ {
        let start = choose|step: int|
            0 <= step < first.len() && (#[trigger] first[step])@ != second[step]@;
        assert forall|step: usize| step < first.len() && #[trigger] apart.contains(
            step,
        ) implies exists|k: int|
            0 <= k < dependencies(plan.graph, step).len() && apart.contains(
                #[trigger] dependencies(plan.graph, step)[k],
            ) by {
            let deps = dependencies(plan.graph, step);
            assert(listed_within(plan.graph, step, true, first.len()));
            if forall|k: int|
                0 <= k < deps.len() ==> first[(#[trigger] deps[k]) as int]@
                    == second[deps[k] as int]@ {
                lemma_settled_tables_agree_at(plan, produced, first, second, step as int);
            }
            let k = choose|k: int|
                0 <= k < deps.len() && first[(#[trigger] deps[k]) as int]@
                    != second[deps[k] as int]@;
            assert(apart.contains(deps[k]));
        }
        assert(apart.contains(start as usize));
        lemma_endless_descent_is_a_cycle(plan.graph, first.len(), apart, start as usize);
    }
}

} // verus!
