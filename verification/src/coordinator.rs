//! The coordinator: it polls every step once, then polls the dependents of
//! each step that signals its completion, until every step has signalled.
use crate::cascade::{
    at_rest, lemma_blocked_steps_need_a_cycle, lemma_idle_coordinator_leaves_blocked_steps,
    lemma_initial_is_consistent, lemma_moving_on_keeps_consistent, lemma_one_signal_per_step,
    lemma_poll_keeps_consistent, lemma_recording_keeps_consistent,
    lemma_signal_keeps_consistent, Cascade,
};
use crate::graph::{
    acyclic, check_graph, dependencies, dependents, graph_fits, listed_within,
    neighbors_directed,
};
use crate::plan::{lemma_poll_keeps_justified, lemma_recording_keeps_justified, Plan};
use crate::runner::{
    lemma_lookup_finds_name, lookup_index, lookup_name, names_of, poll_step, record_outcome,
    resolve, verdict, Action, StepRunner, Verdict,
};
use crate::step::{Outcome, RunType, Status, Step};
use petgraph::graphmap::GraphMap;
use petgraph::{Directed, Direction};
use vstd::prelude::*;

verus! {

/// Why a run could not be carried through.
#[derive(Debug, Clone, Copy, PartialEq, Eq)]
pub enum RunError {
    /// The action of a step names a step that does not exist.
    UnknownStep,
    /// The graph has a neighbour that is no step.
    InvalidGraph,
    /// No signal is left to receive and none can come, yet not every step
    /// has signalled: the steps that remain wait for each other, which they
    /// can only around a cycle.
    Disconnected,
}

/// The plan that a list of steps and a graph make.
pub open spec fn plan_of<E, R, F>(
    graph: GraphMap<usize, (), Directed>,
    steps: Seq<Step<E, R, F>>,
) -> Plan {
    Plan { graph, runs: Seq::new(steps.len(), |i: int| steps[i].run), names: names_of(steps) }
}

/// The outcomes that the executor may give a step when it runs on `run`
/// with the step's own expectation, filters and retry policy.
pub open spec fn produced_by<E, R, F, X: Fn(&RunType, &E, &Vec<F>, &R) -> Outcome>(
    execute: X,
    steps: Seq<Step<E, R, F>>,
) -> spec_fn(int, RunType, Outcome) -> bool {
    |step: int, run: RunType, outcome: Outcome|
        call_ensures(
            execute,
            (&run, &steps[step].expect, &steps[step].filters, &steps[step].retry),
            outcome,
        )
}

/// The executor accepts every input.
pub open spec fn total<E, R, F, X: Fn(&RunType, &E, &Vec<F>, &R) -> Outcome>(execute: X) -> bool {
    forall|run: &RunType, expect: &E, filters: &Vec<F>, retry: &R|
        call_requires(execute, (run, expect, filters, retry))
}

/// Every action that names a step names one that exists.
pub open spec fn references_resolve<E, R, F>(steps: Seq<Step<E, R, F>>) -> bool {
    forall|step: int|
        0 <= step < steps.len() ==> ((#[trigger] steps[step]).run matches RunType::Step(name)
            ==> lookup_index(names_of(steps), name@) is Some)
}

/// The status table that the outcomes of the steps amount to.
pub open spec fn table_of<E, R, F>(steps: Seq<Step<E, R, F>>) -> Seq<Status> {
    Seq::new(
        steps.len(),
        |i: int|
            match steps[i].outcome {
                Some(outcome) => Status::Completed(outcome),
                None => Status::Outstanding,
            },
    )
}

/// The table is one on which a run has come to a halt before its end: every
/// status in it is accounted for and nothing moves in it, yet a step is
/// outstanding.
pub open spec fn stalled(
    plan: Plan,
    produced: spec_fn(int, RunType, Outcome) -> bool,
    table: Seq<Status>,
) -> bool {
    &&& plan.justified(produced, table)
    &&& at_rest(table, plan.graph)
    &&& exists|i: int| 0 <= i < table.len() && (#[trigger] table[i]) is Outstanding
}

/// The two steps differ in their outcome at most.
pub open spec fn same_work<E, R, F>(one: Step<E, R, F>, other: Step<E, R, F>) -> bool {
    other == Step { outcome: other.outcome, ..one }
}

/// Checks that every action that names a step names one that exists.
pub fn check_references<E, R, F>(steps: &Vec<Step<E, R, F>>) -> (ok: bool)
    ensures
        ok == references_resolve(steps@),
{
    let mut i: usize = 0;
    while i < steps.len()
        invariant
            i <= steps.len(),
            forall|step: int|
                0 <= step < i ==> ((#[trigger] steps@[step]).run matches RunType::Step(name)
                    ==> lookup_index(names_of(steps@), name@) is Some),
        decreases steps.len() - i,
    {
        if let RunType::Step(name) = &steps[i].run {
            if lookup_name(steps, name).is_none() {
                return false;
            }
        }
        i += 1;
    }
    true
}

/// The runners can be polled against a table with one status for each of
/// them: each stands at its own position and fits such a table.
pub open spec fn in_line<'a, E, R, F>(runners: Seq<StepRunner<'a, E, R, F>>) -> bool {
    forall|i: int|
        0 <= i < runners.len() ==> (#[trigger] runners[i]).index == i && runners[i].fits(
            runners.len(),
        )
}

/// The runners are those of the steps over the graph, in order, and the graph
/// is one over the steps.
pub open spec fn runners_for<'a, E, R, F>(
    runners: Seq<StepRunner<'a, E, R, F>>,
    steps: Seq<Step<E, R, F>>,
    graph: GraphMap<usize, (), Directed>,
) -> bool {
    &&& runners.len() == steps.len()
    &&& graph_fits(graph, steps.len())
    &&& in_line(runners)
    &&& forall|i: int|
        0 <= i < runners.len() ==> {
            let runner = #[trigger] runners[i];
            &&& runner.run == steps[i].run
            &&& *runner.expect == steps[i].expect
            &&& *runner.retry == steps[i].retry
            &&& *runner.filters == steps[i].filters
            &&& *runner.graph == graph
            &&& runner.name_lookup@ == steps
        }
}

/// Makes one runner for each step, provided that the steps and the graph go
/// together: every action that names a step names one that exists, and the
/// graph is one over the steps.
pub fn build_runners<'a, E, R, F>(
    steps: &'a Vec<Step<E, R, F>>,
    graph: &'a GraphMap<usize, (), Directed>,
) -> (result: Result<Vec<StepRunner<'a, E, R, F>>, RunError>)
    ensures
        match result {
            Ok(runners) => references_resolve(steps@) && runners_for(runners@, steps@, *graph),
            Err(RunError::UnknownStep) => !references_resolve(steps@),
            Err(RunError::InvalidGraph) => references_resolve(steps@) && !graph_fits(
                *graph,
                steps@.len(),
            ),
            Err(RunError::Disconnected) => false,
        },
{
    if !check_references(steps) {
        return Err(RunError::UnknownStep);
    }
    if !check_graph(graph, steps.len()) {
        return Err(RunError::InvalidGraph);
    }
    let mut runners: Vec<StepRunner<'a, E, R, F>> = Vec::new();
    let mut i: usize = 0;
    while i < steps.len()
        invariant
            i <= steps.len(),
            runners@.len() == i,
            references_resolve(steps@),
            graph_fits(*graph, steps@.len()),
            forall|j: int|
                0 <= j < i ==> {
                    let runner = #[trigger] runners@[j];
                    &&& runner.index == j
                    &&& runner.fits(steps@.len())
                    &&& runner.run == steps@[j].run
                    &&& *runner.expect == steps@[j].expect
                    &&& *runner.retry == steps@[j].retry
                    &&& *runner.filters == steps@[j].filters
                    &&& *runner.graph == *graph
                    &&& runner.name_lookup@ == steps@
                },
        decreases steps.len() - i,
    {
        let runner = StepRunner {
            run: steps[i].run.clone(),
            expect: &steps[i].expect,
            retry: &steps[i].retry,
            filters: &steps[i].filters,
            graph,
            name_lookup: steps,
            index: i,
        };
        proof {
            assert(listed_within(*graph, i, true, steps@.len() as nat));
            if let RunType::Step(name) = steps@[i as int].run {
                lemma_lookup_finds_name(names_of(steps@), name@);
            }
        }
        runners.push(runner);
        i += 1;
    }
    Ok(runners)
}

/// A table in which every step is outstanding.
pub fn outstanding_table(len: usize) -> (table: Vec<Status>)
    ensures
        table@ == Cascade::initial(len as nat).table,
{
    let mut table: Vec<Status> = Vec::new();
    let mut i: usize = 0;
    while i < len
        invariant
            i <= len,
            table@.len() == i,
            forall|j: int| 0 <= j < i ==> table@[j] is Outstanding,
        decreases len - i,
    {
        table.push(Status::Outstanding);
        i += 1;
    }
    assert(table@ =~= Cascade::initial(len as nat).table);
    table
}

/// Writes the outcome of each completed step into the step.
pub fn collect_outcomes<E, R, F>(steps: &mut Vec<Step<E, R, F>>, table: Vec<Status>)
    requires
        table@.len() == old(steps)@.len(),
    ensures
        final(steps)@.len() == old(steps)@.len(),
        forall|i: int|
            0 <= i < old(steps)@.len() ==> same_work(old(steps)@[i], #[trigger] final(steps)@[i]),
        forall|i: int|
            0 <= i < old(steps)@.len() ==> (#[trigger] final(steps)@[i]).outcome == match table@[i] {
                Status::Completed(outcome) => Some(outcome),
                _ => old(steps)@[i].outcome,
            },
{
    let mut table = table;
    let ghost whole = table@;
    while table.len() > 0
        invariant
            table@.len() <= whole.len(),
            whole.len() == old(steps)@.len(),
            steps@.len() == old(steps)@.len(),
            table@ == whole.take(table@.len() as int),
            forall|i: int|
                0 <= i < old(steps)@.len() ==> same_work(old(steps)@[i], #[trigger] steps@[i]),
            forall|i: int| 0 <= i < table@.len() ==> (#[trigger] steps@[i]) == old(steps)@[i],
            forall|i: int|
                table@.len() <= i < old(steps)@.len() ==> (#[trigger] steps@[i]).outcome
                    == match whole[i] {
                    Status::Completed(outcome) => Some(outcome),
                    _ => old(steps)@[i].outcome,
                },
        decreases table@.len(),
    {
        let status = table.pop().unwrap();
        let i = table.len();
        assert(whole.take(i as int + 1).drop_last() =~= whole.take(i as int));
        if let Status::Completed(outcome) = status {
            steps[i].outcome = Some(outcome);
        }
    }
}

/// Polls of the steps in `order`, one after the other, lead through the
/// tables in `tables`, from the first to the last, and `asked` holds each
/// step with the action that its poll returned.
pub open spec fn polled_each<'a, E, R, F>(
    runners: Seq<StepRunner<'a, E, R, F>>,
    order: Seq<usize>,
    tables: Seq<Seq<Status>>,
    asked: Seq<(usize, Action)>,
) -> bool {
    &&& tables.len() == order.len() + 1
    &&& asked.len() == order.len()
    &&& forall|k: int|
        0 <= k < order.len() ==> {
            let runner = runners[order[k] as int];
            &&& (#[trigger] asked[k]).0 == order[k]
            &&& poll_step(
                tables[k],
                tables[k + 1],
                dependencies(*runner.graph, runner.index),
                runner.index as int,
            )
            &&& asked[k].1 == runner.action_of(tables[k], tables[k + 1])
        }
}

/// Polls of the steps in `order`, one after the other, lead from the table
/// `before` to the table `after`, and `asked` holds each step with the action
/// that its poll returned.
pub open spec fn polled_through<'a, E, R, F>(
    runners: Seq<StepRunner<'a, E, R, F>>,
    order: Seq<usize>,
    before: Seq<Status>,
    after: Seq<Status>,
    asked: Seq<(usize, Action)>,
) -> bool {
    exists|tables: Seq<Seq<Status>>|
        #[trigger] polled_each(runners, order, tables, asked) && tables.first() == before
            && tables.last() == after
}

/// Polls the steps in `order`, one after the other.
fn poll_each<'a, E, R, F>(
    runners: &Vec<StepRunner<'a, E, R, F>>,
    order: &Vec<usize>,
    table: &mut Vec<Status>,
) -> (asked: Vec<(usize, Action)>)
    requires
        in_line(runners@),
        old(table)@.len() == runners@.len(),
        forall|k: int| 0 <= k < order@.len() ==> (#[trigger] order@[k]) < runners@.len(),
    ensures
        final(table)@.len() == old(table)@.len(),
        polled_through(runners@, order@, old(table)@, final(table)@, asked@),
{
    let mut asked: Vec<(usize, Action)> = Vec::new();
    let mut k: usize = 0;
    let ghost mut tables: Seq<Seq<Status>> = seq![table@];
    while k < order.len()
        invariant
            k <= order.len(),
            in_line(runners@),
            table@.len() == runners@.len(),
            forall|at: int| 0 <= at < order@.len() ==> (#[trigger] order@[at]) < runners@.len(),
            tables.first() == old(table)@,
            tables.last() == table@,
            polled_each(runners@, order@.take(k as int), tables, asked@),
        decreases order.len() - k,
    {
        let step = order[k];
        let ghost before = tables;
        let ghost so_far = asked@;
        let action = runners[step].poll(table);
        asked.push((step, action));
        proof {
            tables = tables.push(table@);
            assert forall|at: int| 0 <= at < k + 1 implies {
                let runner = runners@[order@.take(k as int + 1)[at] as int];
                &&& (#[trigger] asked@[at]).0 == order@.take(k as int + 1)[at]
                &&& poll_step(
                    tables[at],
                    tables[at + 1],
                    dependencies(*runner.graph, runner.index),
                    runner.index as int,
                )
                &&& asked@[at].1 == runner.action_of(tables[at], tables[at + 1])
            } by {
                if at < k {
                    assert(so_far[at].0 == order@.take(k as int)[at]);
                    assert(asked@[at] == so_far[at]);
                    assert(tables[at] == before[at]);
                    assert(tables[at + 1] == before[at + 1]);
                }
            }
        }
        k += 1;
    }
    assert(order@.take(k as int) =~= order@);
    asked
}

/// The first pass: polls every step once, in order, and returns each step
/// with what its poll asks for. The steps without dependencies are
/// dispatched here.
pub fn activate<'a, E, R, F>(
    runners: &Vec<StepRunner<'a, E, R, F>>,
    table: &mut Vec<Status>,
) -> (asked: Vec<(usize, Action)>)
    requires
        in_line(runners@),
        old(table)@.len() == runners@.len(),
    ensures
        final(table)@.len() == old(table)@.len(),
        polled_through(
            runners@,
            Seq::new(runners@.len(), |i: int| i as usize),
            old(table)@,
            final(table)@,
            asked@,
        ),
{
    let mut order: Vec<usize> = Vec::new();
    let mut i: usize = 0;
    while i < runners.len()
        invariant
            i <= runners.len(),
            order@.len() == i,
            forall|j: int| 0 <= j < i ==> order@[j] == j,
        decreases runners.len() - i,
    {
        order.push(i);
        i += 1;
    }
    assert(order@ =~= Seq::new(runners@.len(), |i: int| i as usize));
    poll_each(runners, &order, table)
}

/// The answer to the completion signal of `finished`: polls every step that
/// depends on it, in the graph's order, and returns each with what its poll
/// asks for.
pub fn wake<'a, E, R, F>(
    runners: &Vec<StepRunner<'a, E, R, F>>,
    finished: usize,
    table: &mut Vec<Status>,
) -> (asked: Vec<(usize, Action)>)
    requires
        in_line(runners@),
        old(table)@.len() == runners@.len(),
        finished < runners@.len(),
        listed_within(*runners@[finished as int].graph, finished, false, runners@.len()),
    ensures
        final(table)@.len() == old(table)@.len(),
        polled_through(
            runners@,
            dependents(*runners@[finished as int].graph, finished),
            old(table)@,
            final(table)@,
            asked@,
        ),
{
    let order = neighbors_directed(runners[finished].graph, finished, Direction::Outgoing);
    poll_each(runners, &order, table)
}

/// What holds of every state of a run in which a step is executed the moment
/// it is dispatched: the state is consistent, every status is accounted for,
/// no step is in progress and no signal is still to be sent.
spec fn on_track(
    plan: Plan,
    produced: spec_fn(int, RunType, Outcome) -> bool,
    c: Cascade,
) -> bool {
    &&& c.consistent(plan.graph)
    &&& plan.justified(produced, c.table)
    &&& c.unsent == Set::<usize>::empty()
    &&& forall|j: int| 0 <= j < c.table.len() ==> !((#[trigger] c.table[j]) is InProgress)
}

/// What one turn does to the table and to the signals: a poll of `step`,
/// and right away the execution that the poll asked for.
spec fn turn_effect(
    plan: Plan,
    produced: spec_fn(int, RunType, Outcome) -> bool,
    step: int,
    before: Seq<Status>,
    sent_before: Seq<usize>,
    after: Seq<Status>,
    sent_after: Seq<usize>,
) -> bool {
    let deps = dependencies(plan.graph, step as usize);
    match verdict(before, deps, step) {
        Verdict::Done | Verdict::Blocked => after == before && sent_after == sent_before,
        Verdict::Failed => poll_step(before, after, deps, step) && sent_after == sent_before.push(
            step as usize,
        ),
        Verdict::Ready => if before[step] is Outstanding {
            &&& after[step] matches Status::Completed(outcome) && produced(
                step,
                resolve(plan.runs[step], plan.names, before.update(step, Status::InProgress)),
                outcome,
            )
            &&& after == before.update(step, after[step])
            &&& sent_after == sent_before.push(step as usize)
        } else {
            after == before && sent_after == sent_before
        },
    }
}

/// The step that the coordinator polls next.
spec fn polled_next(graph: GraphMap<usize, (), Directed>, c: Cascade) -> usize {
    if c.activated < c.table.len() {
        c.activated as usize
    } else {
        dependents(graph, c.current())[c.cursor]
    }
}

/// A turn keeps a run on track.
proof fn lemma_turn_stays_on_track(
    plan: Plan,
    produced: spec_fn(int, RunType, Outcome) -> bool,
    c: Cascade,
    next: Cascade,
)
    requires
        on_track(plan, produced, c),
        c.activated == c.table.len() ==> c.handled < c.sent.len() && 0 <= c.cursor < dependents(
            plan.graph,
            c.current(),
        ).len(),
        polled_next(plan.graph, c) < c.table.len(),
        next.handled == c.handled,
        next.unsent == c.unsent,
        next.activated == if c.activated < c.table.len() {
            c.activated + 1
        } else {
            c.activated
        },
        next.cursor == if c.activated < c.table.len() {
            c.cursor
        } else {
            c.cursor + 1
        },
        turn_effect(
            plan,
            produced,
            polled_next(plan.graph, c) as int,
            c.table,
            c.sent,
            next.table,
            next.sent,
        ),
    ensures
        on_track(plan, produced, next),
{
    let step = polled_next(plan.graph, c);
    let deps = dependencies(plan.graph, step);
    let v = verdict(c.table, deps, step as int);
    if v is Ready && c.table[step as int] is Outstanding {
        let outcome = next.table[step as int]->Completed_0;
        let polled = Cascade {
            table: c.table.update(step as int, Status::InProgress),
            cursor: next.cursor,
            activated: next.activated,
            ..c
        };
        let recorded = Cascade { table: next.table, unsent: c.unsent.insert(step), ..polled };
        assert(c.polls(plan.graph, step, polled));
        lemma_poll_keeps_consistent(c, plan.graph, polled);
        lemma_poll_keeps_justified(plan, produced, c.table, polled.table, step as int);
        assert(next.table =~= polled.table.update(step as int, Status::Completed(outcome)));
        assert(polled.records(step, outcome, recorded));
        lemma_recording_keeps_consistent(polled, plan.graph, step, outcome, recorded);
        lemma_recording_keeps_justified(plan, produced, polled.table, step as int, outcome);
        assert(recorded.unsent.remove(step) =~= next.unsent);
        assert(recorded.signals(step, next));
        lemma_signal_keeps_consistent(recorded, plan.graph, step, next);
    } else {
        assert(c.polls(plan.graph, step, next));
        lemma_poll_keeps_consistent(c, plan.graph, next);
        lemma_poll_keeps_justified(plan, produced, c.table, next.table, step as int);
    }
}

/// One turn: polls the runner's step and does what the poll asks for. A
/// skipped step is signalled; a dispatched step is executed, its outcome
/// recorded, and then signalled.
fn take_turn<'a, E, R, F, X>(
    runner: &StepRunner<'a, E, R, F>,
    table: &mut Vec<Status>,
    sent: &mut Vec<usize>,
    execute: &X,
    Ghost(plan): Ghost<Plan>,
    Ghost(produced): Ghost<spec_fn(int, RunType, Outcome) -> bool>,
) where X: Fn(&RunType, &E, &Vec<F>, &R) -> Outcome
    requires
        runner.fits(old(table)@.len()),
        total(*execute),
        runner.run == plan.runs[runner.index as int],
        names_of(runner.name_lookup@) == plan.names,
        *runner.graph == plan.graph,
        forall|run: RunType, outcome: Outcome| #[trigger]
            call_ensures(*execute, (&run, runner.expect, runner.filters, runner.retry), outcome)
                ==> produced(runner.index as int, run, outcome),
    ensures
        final(table)@.len() == old(table)@.len(),
        turn_effect(
            plan,
            produced,
            runner.index as int,
            old(table)@,
            old(sent)@,
            final(table)@,
            final(sent)@,
        ),
{
    let action = runner.poll(table);
    match action {
        Action::Wait => {},
        Action::Notify => {
            sent.push(runner.index);
        },
        Action::Dispatch(run) => {
            let outcome = execute(&run, runner.expect, runner.filters, runner.retry);
            record_outcome(table, runner.index, outcome);
            sent.push(runner.index);
            assert(table@ =~= old(table)@.update(runner.index as int, table@[runner.index as int]));
        },
    }
}

/// Runs the whole graph, executing each step the moment it is dispatched,
/// and returns the final status table.
fn drive<'a, E, R, F, X>(
    runners: &Vec<StepRunner<'a, E, R, F>>,
    graph: &GraphMap<usize, (), Directed>,
    execute: &X,
    Ghost(steps): Ghost<Seq<Step<E, R, F>>>,
) -> (result: Result<Vec<Status>, RunError>) where X: Fn(&RunType, &E, &Vec<F>, &R) -> Outcome
    requires
        runners_for(runners@, steps, *graph),
        total(*execute),
    ensures
        match result {
            Ok(table) => plan_of(*graph, steps).settled(produced_by(*execute, steps), table@),
            Err(error) => error == RunError::Disconnected && exists|table: Seq<Status>|
                stalled(plan_of(*graph, steps), produced_by(*execute, steps), table),
        },
        acyclic(*graph, steps.len()) ==> result is Ok,
{
    let len = runners.len();
    let ghost plan = plan_of(*graph, steps);
    let ghost produced = produced_by(*execute, steps);
    let mut table = outstanding_table(len);
    let mut sent: Vec<usize> = Vec::new();
    proof {
        lemma_initial_is_consistent(*graph, len as nat);
        assert(sent@ =~= Cascade::initial(len as nat).sent);
        assert forall|step: int| 0 <= step < len implies #[trigger] plan.justified_at(
            produced,
            table@,
            step,
        ) by {}
    }
    let mut activated: usize = 0;
    while activated < len
        invariant
            activated <= len,
            len == steps.len(),
            table@.len() == len,
            plan == plan_of(*graph, steps),
            produced == produced_by(*execute, steps),
            total(*execute),
            runners_for(runners@, steps, *graph),
            on_track(
                plan,
                produced,
                Cascade {
                    table: table@,
                    sent: sent@,
                    unsent: Set::empty(),
                    handled: 0,
                    cursor: 0,
                    activated: activated as int,
                },
            ),
        decreases len - activated,
    {
        let ghost c = Cascade {
            table: table@,
            sent: sent@,
            unsent: Set::empty(),
            handled: 0,
            cursor: 0,
            activated: activated as int,
        };
        take_turn(&runners[activated], &mut table, &mut sent, execute, Ghost(plan), Ghost(produced));
        proof {
            lemma_turn_stays_on_track(
                plan,
                produced,
                c,
                Cascade {
                    table: table@,
                    sent: sent@,
                    unsent: Set::empty(),
                    handled: 0,
                    cursor: 0,
                    activated: activated as int + 1,
                },
            );
        }
        activated += 1;
    }
    let mut handled: usize = 0;
    while handled < len
        invariant
            handled <= len,
            len == steps.len(),
            table@.len() == len,
            plan == plan_of(*graph, steps),
            produced == produced_by(*execute, steps),
            total(*execute),
            runners_for(runners@, steps, *graph),
            on_track(
                plan,
                produced,
                Cascade {
                    table: table@,
                    sent: sent@,
                    unsent: Set::empty(),
                    handled: handled as int,
                    cursor: 0,
                    activated: len as int,
                },
            ),
        decreases len - handled,
    {
        if handled >= sent.len() {
            proof {
                let c = Cascade {
                    table: table@,
                    sent: sent@,
                    unsent: Set::empty(),
                    handled: handled as int,
                    cursor: 0,
                    activated: len as int,
                };
                lemma_idle_coordinator_leaves_blocked_steps(c, *graph);
                lemma_one_signal_per_step(c);
                assert(stalled(plan, produced, table@));
                if acyclic(*graph, len as nat) {
                    lemma_blocked_steps_need_a_cycle(table@, *graph);
                }
            }
            return Err(RunError::Disconnected);
        }
        let finished = sent[handled];
        let woken = neighbors_directed(graph, finished, Direction::Outgoing);
        assert(finished < len);
        assert(listed_within(*graph, finished, false, len as nat));
        let mut cursor: usize = 0;
        while cursor < woken.len()
            invariant
                cursor <= woken.len(),
                woken@ == dependents(*graph, finished),
                handled < sent@.len(),
                finished == sent@[handled as int],
                listed_within(*graph, finished, false, len as nat),
                len == steps.len(),
                table@.len() == len,
                plan == plan_of(*graph, steps),
                produced == produced_by(*execute, steps),
                total(*execute),
                runners_for(runners@, steps, *graph),
                on_track(
                    plan,
                    produced,
                    Cascade {
                        table: table@,
                        sent: sent@,
                        unsent: Set::empty(),
                        handled: handled as int,
                        cursor: cursor as int,
                        activated: len as int,
                    },
                ),
            decreases woken.len() - cursor,
        {
            let ghost c = Cascade {
                table: table@,
                sent: sent@,
                unsent: Set::empty(),
                handled: handled as int,
                cursor: cursor as int,
                activated: len as int,
            };
            let step = woken[cursor];
            take_turn(&runners[step], &mut table, &mut sent, execute, Ghost(plan), Ghost(produced));
            proof {
                lemma_turn_stays_on_track(
                    plan,
                    produced,
                    c,
                    Cascade {
                        table: table@,
                        sent: sent@,
                        unsent: Set::empty(),
                        handled: handled as int,
                        cursor: cursor as int + 1,
                        activated: len as int,
                    },
                );
            }
            cursor += 1;
        }
        proof {
            lemma_moving_on_keeps_consistent(
                Cascade {
                    table: table@,
                    sent: sent@,
                    unsent: Set::empty(),
                    handled: handled as int,
                    cursor: cursor as int,
                    activated: len as int,
                },
                *graph,
                Cascade {
                    table: table@,
                    sent: sent@,
                    unsent: Set::empty(),
                    handled: handled as int + 1,
                    cursor: 0,
                    activated: len as int,
                },
            );
        }
        handled += 1;
    }
    proof {
        lemma_one_signal_per_step(
            Cascade {
                table: table@,
                sent: sent@,
                unsent: Set::empty(),
                handled: handled as int,
                cursor: 0,
                activated: len as int,
            },
        );
    }
    Ok(table)
}

/// Runs every step of the graph and stores each step's outcome in the step.
///
/// Every step is polled once; after that the dependents of each step that
/// signals its completion are polled, one signal after the other. A step is
/// executed when a poll dispatches it, with every dependency succeeded; it is
/// skipped, with the outcome for an unmet dependency, when a poll finds a
/// failed dependency first. In an acyclic graph every step ends up with an
/// outcome. That a step has failed is no error of the run.
pub fn run_steps<E, R, F, X>(
    steps: &mut Vec<Step<E, R, F>>,
    graph: &GraphMap<usize, (), Directed>,
    execute: X,
) -> (result: Result<(), RunError>) where X: Fn(&RunType, &E, &Vec<F>, &R) -> Outcome
    requires
        total(execute),
    ensures
        final(steps)@.len() == old(steps)@.len(),
        forall|i: int|
            0 <= i < old(steps)@.len() ==> same_work(old(steps)@[i], #[trigger] final(steps)@[i]),
        match result {
            Ok(()) => {
                &&& references_resolve(old(steps)@)
                &&& graph_fits(*graph, old(steps)@.len())
                &&& plan_of(*graph, old(steps)@).settled(
                    produced_by(execute, old(steps)@),
                    table_of(final(steps)@),
                )
            },
            Err(RunError::UnknownStep) => {
                &&& !references_resolve(old(steps)@)
                &&& final(steps)@ == old(steps)@
            },
            Err(RunError::InvalidGraph) => {
                &&& references_resolve(old(steps)@)
                &&& !graph_fits(*graph, old(steps)@.len())
                &&& final(steps)@ == old(steps)@
            },
            Err(RunError::Disconnected) => {
                &&& references_resolve(old(steps)@)
                &&& graph_fits(*graph, old(steps)@.len())
                &&& exists|table: Seq<Status>|
                    stalled(plan_of(*graph, old(steps)@), produced_by(execute, old(steps)@), table)
                &&& final(steps)@ == old(steps)@
            },
        },
        references_resolve(old(steps)@) && graph_fits(*graph, old(steps)@.len()) && acyclic(
            *graph,
            old(steps)@.len(),
        ) ==> result is Ok,
{
    let table = {
        let runners = match build_runners(steps, graph) {
            Ok(runners) => runners,
            Err(error) => {
                return Err(error);
            },
        };
        match drive(&runners, graph, &execute, Ghost(steps@)) {
            Ok(table) => table,
            Err(error) => {
                return Err(error);
            },
        }
    };
    collect_outcomes(steps, table);
    proof {
        assert(table_of(steps@) =~= table@);
    }
    Ok(())
}

} // verus!
