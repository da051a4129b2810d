//! The run of a whole graph as a sequence of small steps, and what holds of
//! every state that such a run passes through.
//!
//! A state holds the status table, the completion signals sent so far and those
//! still to be sent, and how far the coordinator has come: through its first
//! pass over all steps, through the signals, and through the dependents of the
//! signal it is handling. Workers may record outcomes and send their signals
//! at any moment and in any order.
use crate::graph::{
    acyclic, dependencies, dependents, graph_fits, lemma_distinct_steps_are_few,
    lemma_endless_descent_is_a_cycle, lemma_neighbours_are_mutual, listed_within,
};
use crate::runner::{all_succeeded, poll_step, verdict, Verdict};
use crate::step::{Outcome, Status};
use petgraph::graphmap::GraphMap;
use petgraph::Directed;
use vstd::prelude::*;

verus! {

/// A moment in the run of a graph.
pub struct Cascade {
    /// The status of every step.
    pub table: Seq<Status>,
    /// The completion signals sent so far, oldest first.
    pub sent: Seq<usize>,
    /// The steps whose outcome is recorded and whose signal is yet to be sent.
    pub unsent: Set<usize>,
    /// How many signals the coordinator has dealt with in full.
    pub handled: int,
    /// How many dependents of the signal now being handled were polled.
    pub cursor: int,
    /// How many steps the first pass has polled.
    pub activated: int,
}

/// Nothing moves in the table: no step is in progress, and every outstanding
/// step is blocked, the first of its dependencies that has not succeeded
/// being without an outcome.
pub open spec fn at_rest(table: Seq<Status>, graph: GraphMap<usize, (), Directed>) -> bool {
    forall|j: int|
        0 <= j < table.len() ==> match #[trigger] table[j] {
            Status::Outstanding => verdict(table, dependencies(graph, j as usize), j) is Blocked,
            Status::InProgress => false,
            Status::Completed(_) => true,
        }
}

/// Among the dependencies of a step that has not all of them succeeded, there
/// is a first one that has not.
pub proof fn lemma_first_unmet(table: Seq<Status>, deps: Seq<usize>, upto: int) -> (first: int)
    requires
        0 <= upto <= deps.len(),
        !all_succeeded(table, deps, upto),
    ensures
        0 <= first < upto,
        all_succeeded(table, deps, first),
        !table[deps[first] as int].has_succeeded(),
    decreases upto,
{
    if all_succeeded(table, deps, upto - 1) {
        upto - 1
    } else {
        lemma_first_unmet(table, deps, upto - 1)
    }
}

impl Cascade {
    /// The state before anything has happened.
    pub open spec fn initial(len: nat) -> Cascade {
        Cascade {
            table: Seq::new(len, |i: int| Status::Outstanding),
            sent: Seq::empty(),
            unsent: Set::empty(),
            handled: 0,
            cursor: 0,
            activated: 0,
        }
    }

    /// The step whose signal is being handled.
    pub open spec fn current(self) -> usize {
        self.sent[self.handled]
    }

    /// Every completed step has one signal, sent or still to be sent, and no
    /// other step has one.
    pub open spec fn signalled_once(self) -> bool {
        &&& self.table.len() <= usize::MAX
        &&& self.sent.no_duplicates()
        &&& forall|p: int|
            0 <= p < self.sent.len() ==> (#[trigger] self.sent[p]) < self.table.len()
                && self.table[self.sent[p] as int].is_completed() && !self.unsent.contains(
                self.sent[p],
            )
        &&& forall|step: usize| #[trigger]
            self.unsent.contains(step) ==> step < self.table.len()
                && self.table[step as int].is_completed()
        &&& forall|i: int|
            0 <= i < self.table.len() && (#[trigger] self.table[i]).is_completed()
                ==> self.sent.contains(i as usize) || self.unsent.contains(i as usize)
    }

    /// The coordinator's counters are in range, no signal is handled before
    /// the first pass is over, and a step that the first pass has not reached
    /// is outstanding.
    pub open spec fn in_order(self, graph: GraphMap<usize, (), Directed>) -> bool {
        &&& 0 <= self.handled <= self.sent.len()
        &&& 0 <= self.activated <= self.table.len()
        &&& 0 <= self.cursor
        &&& self.handled == self.sent.len() ==> self.cursor == 0
        &&& self.handled < self.sent.len() ==> self.cursor <= dependents(graph, self.current()).len()
        &&& self.activated < self.table.len() ==> self.handled == 0 && self.cursor == 0
        &&& forall|i: int|
            self.activated <= i < self.table.len() ==> (#[trigger] self.table[i]) is Outstanding
    }

    /// The signal being handled has already led to a poll of `step`.
    pub open spec fn woken(self, graph: GraphMap<usize, (), Directed>, step: usize) -> bool {
        exists|q: int|
            0 <= q < self.cursor && (#[trigger] dependents(graph, self.current())[q]) == step
    }

    /// The signal at position `at` has led to a poll of `step`, if `step`
    /// depends on the step that sent it.
    pub open spec fn delivered_at(
        self,
        graph: GraphMap<usize, (), Directed>,
        at: int,
        step: usize,
    ) -> bool {
        at < self.handled || (at == self.handled && self.woken(graph, step))
    }

    /// The completion of `from` has been signalled and the signal has led to
    /// a poll of `step`.
    pub open spec fn delivered(
        self,
        graph: GraphMap<usize, (), Directed>,
        from: usize,
        step: usize,
    ) -> bool {
        exists|p: int|
            0 <= p < self.sent.len() && (#[trigger] self.sent[p]) == from && self.delivered_at(
                graph,
                p,
                step,
            )
    }

    /// A poll of `step` is still to come: one of its dependencies has
    /// completed, and its signal has not led to a poll of `step` yet.
    pub open spec fn owed_a_poll(self, graph: GraphMap<usize, (), Directed>, step: usize) -> bool {
        exists|k: int|
            0 <= k < dependencies(graph, step).len() && self.table[(#[trigger] dependencies(
                graph,
                step,
            )[k]) as int].is_completed() && !self.delivered(
                graph,
                dependencies(graph, step)[k],
                step,
            )
    }

    /// No outstanding step has been forgotten: each one that the first pass
    /// has polled is blocked by a dependency without an outcome, or will be
    /// polled again.
    pub open spec fn none_forgotten(self, graph: GraphMap<usize, (), Directed>) -> bool {
        forall|i: int|
            0 <= i < self.activated && (#[trigger] self.table[i]) is Outstanding
                ==> self.owed_a_poll(graph, i as usize) || verdict(
                self.table,
                dependencies(graph, i as usize),
                i,
            ) is Blocked
    }

    /// What holds of every state of a run.
    pub open spec fn consistent(self, graph: GraphMap<usize, (), Directed>) -> bool {
        &&& self.signalled_once()
        &&& self.in_order(graph)
        &&& self.none_forgotten(graph)
    }

    /// One poll of `step` leads from this state to `next`; where it skips
    /// the step, the step's completion is signalled.
    pub open spec fn polls(
        self,
        graph: GraphMap<usize, (), Directed>,
        step: usize,
        next: Cascade,
    ) -> bool {
        &&& step < self.table.len()
        &&& poll_step(self.table, next.table, dependencies(graph, step), step as int)
        &&& next.sent == if verdict(self.table, dependencies(graph, step), step as int) is Failed {
            self.sent.push(step)
        } else {
            self.sent
        }
        &&& next.unsent == self.unsent
        &&& next.handled == self.handled
    }

    /// The first pass polls its next step.
    pub open spec fn activates(self, graph: GraphMap<usize, (), Directed>, next: Cascade) -> bool {
        &&& self.activated < self.table.len()
        &&& self.polls(graph, self.activated as usize, next)
        &&& next.activated == self.activated + 1
        &&& next.cursor == self.cursor
    }

    /// The coordinator polls the next dependent of the signal it is handling.
    pub open spec fn wakes(self, graph: GraphMap<usize, (), Directed>, next: Cascade) -> bool {
        &&& self.activated == self.table.len()
        &&& self.handled < self.sent.len()
        &&& 0 <= self.cursor < dependents(graph, self.current()).len()
        &&& self.polls(graph, dependents(graph, self.current())[self.cursor], next)
        &&& next.activated == self.activated
        &&& next.cursor == self.cursor + 1
    }

    /// The coordinator has polled every dependent of the signal it was
    /// handling and turns to the next signal.
    pub open spec fn moves_on(self, graph: GraphMap<usize, (), Directed>, next: Cascade) -> bool {
        &&& self.activated == self.table.len()
        &&& self.handled < self.sent.len()
        &&& self.cursor == dependents(graph, self.current()).len()
        &&& next == Cascade { handled: self.handled + 1, cursor: 0, ..self }
    }

    /// A worker records the outcome of a step in progress.
    pub open spec fn records(self, step: usize, outcome: Outcome, next: Cascade) -> bool {
        &&& step < self.table.len()
        &&& self.table[step as int] is InProgress
        &&& next == Cascade {
            table: self.table.update(step as int, Status::Completed(outcome)),
            unsent: self.unsent.insert(step),
            ..self
        }
    }

    /// A worker that has recorded the outcome of `step` sends its signal.
    pub open spec fn signals(self, step: usize, next: Cascade) -> bool {
        &&& self.unsent.contains(step)
        &&& next == Cascade {
            sent: self.sent.push(step),
            unsent: self.unsent.remove(step),
            ..self
        }
    }

    /// One step of a run leads from this state to `next`.
    pub open spec fn steps_to(self, graph: GraphMap<usize, (), Directed>, next: Cascade) -> bool {
        ||| self.activates(graph, next)
        ||| self.wakes(graph, next)
        ||| self.moves_on(graph, next)
        ||| exists|step: usize, outcome: Outcome| self.records(step, outcome, next)
        ||| exists|step: usize| self.signals(step, next)
    }
}

/// The initial state is consistent.
pub proof fn lemma_initial_is_consistent(graph: GraphMap<usize, (), Directed>, len: nat)
    requires
        len <= usize::MAX,
    ensures
        Cascade::initial(len).consistent(graph),
{
}

/// A signal for a completed step that has none among those sent joins them
/// without disturbing them.
proof fn lemma_new_signal(c: Cascade, step: usize, next: Cascade)
    requires
        c.signalled_once(),
        step < c.table.len(),
        forall|p: int| 0 <= p < c.sent.len() ==> c.sent[p] != step,
        next.table.len() == c.table.len(),
        forall|j: int| 0 <= j < c.table.len() && j != step ==> next.table[j] == c.table[j],
        next.table[step as int].is_completed(),
        next.sent == c.sent.push(step),
        next.unsent == c.unsent.remove(step),
    ensures
        next.signalled_once(),
{
    assert forall|a: int, b: int|
        0 <= a < next.sent.len() && 0 <= b < next.sent.len() && a != b implies next.sent[a]
        != next.sent[b] by {
        if a < c.sent.len() && b < c.sent.len() {
            assert(c.sent[a] != c.sent[b]);
        }
    }
    assert forall|p: int| 0 <= p < next.sent.len() implies (#[trigger] next.sent[p])
        < next.table.len() && next.table[next.sent[p] as int].is_completed()
        && !next.unsent.contains(next.sent[p]) by {
        if p < c.sent.len() {
            assert(c.table[c.sent[p] as int].is_completed());
        }
    }
    assert forall|i: int|
        0 <= i < next.table.len() && (#[trigger] next.table[i]).is_completed() implies next.sent.contains(
        i as usize,
    ) || next.unsent.contains(i as usize) by {
        if i == step {
            assert(next.sent[c.sent.len() as int] == step);
        } else {
            assert(c.table[i].is_completed());
            if c.sent.contains(i as usize) {
                let p = choose|p: int| 0 <= p < c.sent.len() && c.sent[p] == i as usize;
                assert(next.sent[p] == i as usize);
            }
        }
    }
}

/// A poll leaves the signals sent matching the completed steps.
proof fn lemma_poll_keeps_signals(
    c: Cascade,
    graph: GraphMap<usize, (), Directed>,
    step: usize,
    next: Cascade,
)
    requires
        c.signalled_once(),
        c.polls(graph, step, next),
    ensures
        next.signalled_once(),
{
    let deps = dependencies(graph, step);
    if verdict(c.table, deps, step as int) is Failed {
        assert forall|p: int| 0 <= p < c.sent.len() implies c.sent[p] != step by {
            assert(c.table[c.sent[p] as int].is_completed());
        }
        assert(c.unsent.remove(step) =~= c.unsent);
        lemma_new_signal(c, step, next);
    } else {
        assert forall|p: int| 0 <= p < next.sent.len() implies (#[trigger] next.sent[p])
            < next.table.len() && next.table[next.sent[p] as int].is_completed()
            && !next.unsent.contains(next.sent[p]) by {
            assert(c.table[c.sent[p] as int].is_completed());
        }
        assert forall|step: usize| #[trigger] next.unsent.contains(step) implies step
            < next.table.len() && next.table[step as int].is_completed() by {
            assert(c.table[step as int].is_completed());
        }
        assert forall|i: int|
            0 <= i < next.table.len() && (#[trigger] next.table[i]).is_completed() implies next.sent.contains(
            i as usize,
        ) || next.unsent.contains(i as usize) by {
            assert(c.table[i].is_completed());
        }
    }
}

/// The verdict on a step stays the same while the step and its dependencies
/// keep what the verdict looks at.
proof fn lemma_verdict_unmoved(
    before: Seq<Status>,
    after: Seq<Status>,
    deps: Seq<usize>,
    index: int,
)
    requires
        before[index].is_completed() == after[index].is_completed(),
        forall|k: int|
            0 <= k < deps.len() ==> (#[trigger] before[deps[k] as int]).has_succeeded()
                == after[deps[k] as int].has_succeeded() && before[deps[k] as int].has_failed()
                == after[deps[k] as int].has_failed(),
    ensures
        verdict(after, deps, index) == verdict(before, deps, index),
{
    assert forall|upto: int| 0 <= upto <= deps.len() implies #[trigger] all_succeeded(
        before,
        deps,
        upto,
    ) == all_succeeded(after, deps, upto) by {
        if all_succeeded(before, deps, upto) {
            assert forall|k: int| 0 <= k < upto implies (
            #[trigger] after[deps[k] as int]).has_succeeded() by {
                assert(before[deps[k] as int].has_succeeded());
            }
        }
        if all_succeeded(after, deps, upto) {
            assert forall|k: int| 0 <= k < upto implies (
            #[trigger] before[deps[k] as int]).has_succeeded() by {
                assert(after[deps[k] as int].has_succeeded());
            }
        }
    }
    if exists|k: int|
        0 <= k < deps.len() && all_succeeded(before, deps, k) && (
        #[trigger] before[deps[k] as int]).has_failed() {
        let k = choose|k: int|
            0 <= k < deps.len() && all_succeeded(before, deps, k) && (
            #[trigger] before[deps[k] as int]).has_failed();
        assert(all_succeeded(after, deps, k));
        assert(after[deps[k] as int].has_failed());
    }
    if exists|k: int|
        0 <= k < deps.len() && all_succeeded(after, deps, k) && (
        #[trigger] after[deps[k] as int]).has_failed() {
        let k = choose|k: int|
            0 <= k < deps.len() && all_succeeded(after, deps, k) && (
            #[trigger] after[deps[k] as int]).has_failed();
        assert(all_succeeded(before, deps, k));
        assert(before[deps[k] as int].has_failed());
    }
    assert(all_succeeded(before, deps, deps.len() as int) == all_succeeded(
        after,
        deps,
        deps.len() as int,
    ));
}

/// A signal that has not led to a poll of `step` has not done so either
/// after more signals were sent and the coordinator has polled another step.
proof fn lemma_still_undelivered(
    c: Cascade,
    graph: GraphMap<usize, (), Directed>,
    next: Cascade,
    from: usize,
    step: usize,
)
    requires
        c.in_order(graph),
        next.handled == c.handled,
        c.sent.len() <= next.sent.len(),
        forall|p: int| 0 <= p < c.sent.len() ==> next.sent[p] == c.sent[p],
        next.cursor == c.cursor || (next.cursor == c.cursor + 1 && c.handled < c.sent.len()
            && dependents(graph, c.current())[c.cursor] != step),
        !c.delivered(graph, from, step),
    ensures
        !next.delivered(graph, from, step),
{
    if next.delivered(graph, from, step) {
        let p = choose|p: int|
            0 <= p < next.sent.len() && (#[trigger] next.sent[p]) == from && next.delivered_at(
                graph,
                p,
                step,
            );
        if p < c.sent.len() {
            assert(c.sent[p] == from);
            if p == next.handled {
                let q = choose|q: int|
                    0 <= q < next.cursor && (#[trigger] dependents(graph, next.current())[q])
                        == step;
                assert(0 <= q < c.cursor && dependents(graph, c.current())[q] == step);
            }
            assert(c.delivered_at(graph, p, step));
            assert(c.delivered(graph, from, step));
        }
        assert(false);
    }
}

/// An outstanding step that was not forgotten is not forgotten after a step
/// of the run that leaves its own status alone, tells it of no signal, and
/// changes the table at `changed` at most, where it gives no outcome or one
/// whose signal is yet to reach the step.
proof fn lemma_not_forgotten(
    c: Cascade,
    graph: GraphMap<usize, (), Directed>,
    next: Cascade,
    changed: usize,
    me: usize,
)
    requires
        c.signalled_once(),
        c.in_order(graph),
        graph_fits(graph, c.table.len()),
        me < c.table.len(),
        changed < c.table.len(),
        me != changed,
        c.owed_a_poll(graph, me) || verdict(c.table, dependencies(graph, me), me as int) is Blocked,
        next.table.len() == c.table.len(),
        forall|j: int| 0 <= j < c.table.len() && j != changed ==> next.table[j] == c.table[j],
        c.table[changed as int].is_completed() ==> next.table[changed as int]
            == c.table[changed as int],
        forall|p: int| 0 <= p < c.sent.len() ==> c.sent[p] != changed || next.table[changed as int]
            == c.table[changed as int],
        next.handled == c.handled,
        c.sent.len() <= next.sent.len(),
        forall|p: int| 0 <= p < c.sent.len() ==> next.sent[p] == c.sent[p],
        next.cursor == c.cursor || (next.cursor == c.cursor + 1 && c.handled < c.sent.len()
            && dependents(graph, c.current())[c.cursor] != me),
    ensures
        next.owed_a_poll(graph, me) || verdict(next.table, dependencies(graph, me), me as int) is Blocked,
{
    let mine = dependencies(graph, me);
    let fresh = next.table[changed as int].is_completed() && !c.table[changed as int].is_completed();
    assert(listed_within(graph, me, true, c.table.len()));
    if c.owed_a_poll(graph, me) {
        let k = choose|k: int|
            0 <= k < mine.len() && c.table[(#[trigger] mine[k]) as int].is_completed()
                && !c.delivered(graph, mine[k], me);
        lemma_still_undelivered(c, graph, next, mine[k], me);
        assert(next.table[mine[k] as int].is_completed());
    } else if fresh && mine.contains(changed) {
        let k = choose|k: int| 0 <= k < mine.len() && mine[k] == changed;
        if c.delivered(graph, changed, me) {
            let p = choose|p: int|
                0 <= p < c.sent.len() && (#[trigger] c.sent[p]) == changed && c.delivered_at(
                    graph,
                    p,
                    me,
                );
            assert(c.table[c.sent[p] as int].is_completed());
        }
        lemma_still_undelivered(c, graph, next, changed, me);
        assert(next.table[mine[k] as int].is_completed() && !next.delivered(graph, mine[k], me));
    } else {
        assert forall|k: int| 0 <= k < mine.len() implies (
        #[trigger] c.table[mine[k] as int]).has_succeeded()
            == next.table[mine[k] as int].has_succeeded() && c.table[mine[k] as int].has_failed()
            == next.table[mine[k] as int].has_failed() by {
            if mine[k] == changed {
                assert(mine.contains(changed));
            }
        }
        lemma_verdict_unmoved(c.table, next.table, mine, me as int);
    }
}

/// A poll, in the first pass or for a signal, keeps the state consistent.
pub proof fn lemma_poll_keeps_consistent(
    c: Cascade,
    graph: GraphMap<usize, (), Directed>,
    next: Cascade,
)
    requires
        c.consistent(graph),
        graph_fits(graph, c.table.len()),
        c.activates(graph, next) || c.wakes(graph, next),
    ensures
        next.consistent(graph),
{
    let first_pass = c.activated < c.table.len();
    let step: usize = if first_pass {
        c.activated as usize
    } else {
        dependents(graph, c.current())[c.cursor]
    };
    assert(c.polls(graph, step, next));
    lemma_poll_keeps_signals(c, graph, step, next);
    if !first_pass {
        assert(next.sent[next.handled] == c.sent[c.handled]);
    }
    assert(next.in_order(graph));
    assert forall|i: int|
        0 <= i < next.activated && (#[trigger] next.table[i]) is Outstanding implies next.owed_a_poll(
        graph,
        i as usize,
    ) || verdict(next.table, dependencies(graph, i as usize), i) is Blocked by {
        if i != step {
            assert(c.table[i] == next.table[i]);
            assert forall|p: int| 0 <= p < c.sent.len() implies c.sent[p] != step
                || next.table[step as int] == c.table[step as int] by {
                assert(c.table[c.sent[p] as int].is_completed());
            }
            lemma_not_forgotten(c, graph, next, step, i as usize);
        }
    }
}

/// Recording the outcome of a step in progress keeps the state consistent.
pub proof fn lemma_recording_keeps_consistent(
    c: Cascade,
    graph: GraphMap<usize, (), Directed>,
    step: usize,
    outcome: Outcome,
    next: Cascade,
)
    requires
        c.consistent(graph),
        graph_fits(graph, c.table.len()),
        c.records(step, outcome, next),
    ensures
        next.consistent(graph),
{
    assert forall|p: int| 0 <= p < next.sent.len() implies (#[trigger] next.sent[p])
        < next.table.len() && next.table[next.sent[p] as int].is_completed()
        && !next.unsent.contains(next.sent[p]) by {
        assert(c.table[c.sent[p] as int].is_completed());
    }
    assert forall|i: int|
        0 <= i < next.activated && (#[trigger] next.table[i]) is Outstanding implies next.owed_a_poll(
        graph,
        i as usize,
    ) || verdict(next.table, dependencies(graph, i as usize), i) is Blocked by {
        assert(c.table[i] == next.table[i]);
        assert forall|p: int| 0 <= p < c.sent.len() implies c.sent[p] != step
            || next.table[step as int] == c.table[step as int] by {
            assert(c.table[c.sent[p] as int].is_completed());
        }
        lemma_not_forgotten(c, graph, next, step, i as usize);
    }
}

/// Sending the signal of a recorded outcome keeps the state consistent.
pub proof fn lemma_signal_keeps_consistent(
    c: Cascade,
    graph: GraphMap<usize, (), Directed>,
    step: usize,
    next: Cascade,
)
    requires
        c.consistent(graph),
        graph_fits(graph, c.table.len()),
        c.signals(step, next),
    ensures
        next.consistent(graph),
{
    assert forall|p: int| 0 <= p < c.sent.len() implies c.sent[p] != step by {
        assert(!c.unsent.contains(c.sent[p]));
    }
    lemma_new_signal(c, step, next);
    if c.handled < c.sent.len() {
        assert(next.sent[next.handled] == c.sent[c.handled]);
    }
    assert(next.in_order(graph));
    assert forall|i: int|
        0 <= i < next.activated && (#[trigger] next.table[i]) is Outstanding implies next.owed_a_poll(
        graph,
        i as usize,
    ) || verdict(next.table, dependencies(graph, i as usize), i) is Blocked by {
        let me = i as usize;
        let mine = dependencies(graph, me);
        if c.owed_a_poll(graph, me) {
            let k = choose|k: int|
                0 <= k < mine.len() && c.table[(#[trigger] mine[k]) as int].is_completed()
                    && !c.delivered(graph, mine[k], me);
            lemma_still_undelivered(c, graph, next, mine[k], me);
        }
    }
}

/// Turning to the next signal keeps the state consistent: by then the signal
/// has reached every step that depends on its sender.
pub proof fn lemma_moving_on_keeps_consistent(
    c: Cascade,
    graph: GraphMap<usize, (), Directed>,
    next: Cascade,
)
    requires
        c.consistent(graph),
        graph_fits(graph, c.table.len()),
        c.moves_on(graph, next),
    ensures
        next.consistent(graph),
{
    assert(next.in_order(graph));
    assert forall|i: int|
        0 <= i < next.activated && (#[trigger] next.table[i]) is Outstanding implies next.owed_a_poll(
        graph,
        i as usize,
    ) || verdict(next.table, dependencies(graph, i as usize), i) is Blocked by {
        let me = i as usize;
        let mine = dependencies(graph, me);
        if c.owed_a_poll(graph, me) {
            let k = choose|k: int|
                0 <= k < mine.len() && c.table[(#[trigger] mine[k]) as int].is_completed()
                    && !c.delivered(graph, mine[k], me);
            let d = mine[k];
            if next.delivered(graph, d, me) {
                let p = choose|p: int|
                    0 <= p < next.sent.len() && (#[trigger] next.sent[p]) == d
                        && next.delivered_at(graph, p, me);
                assert(!next.woken(graph, me));
                if p == c.handled {
                    assert(mine.contains(d));
                    assert(c.sent[c.handled] < c.table.len());
                    lemma_neighbours_are_mutual(graph, c.table.len(), d, me);
                    let q = choose|q: int|
                        0 <= q < dependents(graph, d).len() && dependents(graph, d)[q] == me;
                    assert(0 <= q < c.cursor && dependents(graph, c.current())[q] == me);
                    assert(c.woken(graph, me));
                }
                assert(c.delivered_at(graph, p, me));
                assert(c.delivered(graph, d, me));
                assert(false);
            }
        }
    }
}

/// Every step of a run keeps the state consistent.
pub proof fn lemma_step_keeps_consistent(
    c: Cascade,
    graph: GraphMap<usize, (), Directed>,
    next: Cascade,
)
    requires
        c.consistent(graph),
        graph_fits(graph, c.table.len()),
        c.steps_to(graph, next),
    ensures
        next.consistent(graph),
{
    if c.activates(graph, next) || c.wakes(graph, next) {
        lemma_poll_keeps_consistent(c, graph, next);
    } else if c.moves_on(graph, next) {
        lemma_moving_on_keeps_consistent(c, graph, next);
    } else if exists|step: usize, outcome: Outcome| c.records(step, outcome, next) {
        let (step, outcome) = choose|step: usize, outcome: Outcome|
            c.records(step, outcome, next);
        lemma_recording_keeps_consistent(c, graph, step, outcome, next);
    } else {
        let step = choose|step: usize| c.signals(step, next);
        lemma_signal_keeps_consistent(c, graph, step, next);
    }
}

/// Statuses only move forward: a completed step keeps its outcome for good,
/// and a step that has left `Outstanding` never returns to it.
pub proof fn lemma_statuses_only_advance(
    c: Cascade,
    graph: GraphMap<usize, (), Directed>,
    next: Cascade,
)
    requires
        c.steps_to(graph, next),
    ensures
        next.table.len() == c.table.len(),
        forall|i: int|
            0 <= i < c.table.len() && (#[trigger] c.table[i]).is_completed() ==> next.table[i]
                == c.table[i],
        forall|i: int|
            0 <= i < c.table.len() && !((#[trigger] c.table[i]) is Outstanding) ==> !(
            next.table[i] is Outstanding),
{
}

/// A step without dependencies does not wait for any signal: the first pass
/// finds it outstanding and ready, and leaves it in progress.
pub proof fn lemma_free_step_starts_in_first_pass(
    c: Cascade,
    graph: GraphMap<usize, (), Directed>,
    next: Cascade,
)
    requires
        c.consistent(graph),
        c.activates(graph, next),
        dependencies(graph, c.activated as usize).len() == 0,
    ensures
        c.table[c.activated] is Outstanding,
        verdict(c.table, dependencies(graph, c.activated as usize), c.activated) is Ready,
        next.table[c.activated] is InProgress,
{
}

/// Every step is signalled at most once, so there are never more signals
/// than steps. Once there are as many, every step has completed; and once
/// every step has completed and every signal is sent, there are as many.
pub proof fn lemma_one_signal_per_step(c: Cascade)
    requires
        c.signalled_once(),
    ensures
        c.sent.len() <= c.table.len(),
        c.sent.len() == c.table.len() ==> forall|i: int|
            0 <= i < c.table.len() ==> (#[trigger] c.table[i]).is_completed(),
        c.unsent =~= Set::empty() && (forall|i: int|
            0 <= i < c.table.len() ==> (#[trigger] c.table[i]).is_completed()) ==> c.sent.len()
            == c.table.len(),
{
    lemma_distinct_steps_are_few(c.sent, c.table.len());
    if c.sent.len() == c.table.len() {
        assert forall|i: int| 0 <= i < c.table.len() implies (#[trigger] c.table[i]).is_completed() by {
            assert(c.sent.contains(i as usize));
            let p = choose|p: int| 0 <= p < c.sent.len() && c.sent[p] == i as usize;
            assert(c.table[c.sent[p] as int].is_completed());
        }
    }
    if c.unsent =~= Set::empty() && (forall|i: int|
        0 <= i < c.table.len() ==> (#[trigger] c.table[i]).is_completed()) {
        assert forall|step: usize| step < c.table.len() implies #[trigger] c.sent.contains(
            step,
        ) by {
            assert(c.table[step as int].is_completed());
        }
        lemma_all_steps_are_many(c.sent, c.table.len());
    }
}

/// Steps among which every step below `len` occurs are `len` at least.
proof fn lemma_all_steps_are_many(steps: Seq<usize>, len: nat)
    requires
        len <= usize::MAX,
        forall|step: usize| step < len ==> #[trigger] steps.contains(step),
    ensures
        steps.len() >= len,
    decreases len,
{
    if len > 0 {
        let last = (len - 1) as usize;
        assert(steps.contains(last));
        let p = choose|p: int| 0 <= p < steps.len() && steps[p] == last;
        let rest = steps.remove(p);
        assert forall|step: usize| step < len - 1 implies #[trigger] rest.contains(step) by {
            assert(steps.contains(step));
            let q = choose|q: int| 0 <= q < steps.len() && steps[q] == step;
            if q < p {
                assert(rest[q] == step);
            } else {
                assert(rest[q - 1] == step);
            }
        }
        lemma_all_steps_are_many(rest, (len - 1) as nat);
    }
}

/// Once the coordinator has dealt with every signal that was sent and no
/// signal is still to be sent, every outstanding step is blocked: the first
/// of its dependencies that has not succeeded has no outcome.
pub proof fn lemma_idle_coordinator_leaves_blocked_steps(
    c: Cascade,
    graph: GraphMap<usize, (), Directed>,
)
    requires
        c.consistent(graph),
        graph_fits(graph, c.table.len()),
        c.activated == c.table.len(),
        c.handled == c.sent.len(),
        c.unsent =~= Set::empty(),
    ensures
        forall|i: int|
            0 <= i < c.table.len() && (#[trigger] c.table[i]) is Outstanding ==> verdict(
                c.table,
                dependencies(graph, i as usize),
                i,
            ) is Blocked,
{
    assert forall|i: int| 0 <= i < c.table.len() && (#[trigger] c.table[i]) is Outstanding implies verdict(
        c.table,
        dependencies(graph, i as usize),
        i,
    ) is Blocked by {
        let me = i as usize;
        let mine = dependencies(graph, me);
        if c.owed_a_poll(graph, me) {
            let k = choose|k: int|
                0 <= k < mine.len() && c.table[(#[trigger] mine[k]) as int].is_completed()
                    && !c.delivered(graph, mine[k], me);
            let d = mine[k];
            assert(listed_within(graph, me, true, c.table.len()));
            assert(c.sent.contains(d) || c.unsent.contains(d));
            let p = choose|p: int| 0 <= p < c.sent.len() && c.sent[p] == d;
            assert(c.delivered_at(graph, p, me));
            assert(c.delivered(graph, d, me));
        }
    }
}

/// Steps can only wait for each other around a cycle: in an acyclic graph, a
/// table in which nothing moves is one in which every step has completed.
pub proof fn lemma_blocked_steps_need_a_cycle(
    table: Seq<Status>,
    graph: GraphMap<usize, (), Directed>,
)
    requires
        table.len() <= usize::MAX,
        graph_fits(graph, table.len()),
        acyclic(graph, table.len()),
        at_rest(table, graph),
    ensures
        forall|i: int| 0 <= i < table.len() ==> (#[trigger] table[i]).is_completed(),
{
    let waiting = Set::new(|step: usize| step < table.len() && table[step as int] is Outstanding);
    if exists|i: int| 0 <= i < table.len() && !(#[trigger] table[i]).is_completed() {
        let i = choose|i: int| 0 <= i < table.len() && !(#[trigger] table[i]).is_completed();
        assert(table[i] is Outstanding);
        assert forall|step: usize| step < table.len() && #[trigger] waiting.contains(
            step,
        ) implies exists|k: int|
            0 <= k < dependencies(graph, step).len() && waiting.contains(
                #[trigger] dependencies(graph, step)[k],
            ) by {
            let mine = dependencies(graph, step);
            assert(table[step as int] is Outstanding);
            assert(listed_within(graph, step, true, table.len()));
            let k = lemma_first_unmet(table, mine, mine.len() as int);
            assert(!table[mine[k] as int].has_failed());
            assert(table[mine[k] as int] is Outstanding);
            assert(waiting.contains(mine[k]));
        }
        lemma_endless_descent_is_a_cycle(graph, table.len(), waiting, i as usize);
    }
}

/// In an acyclic graph, a coordinator that waits for a signal before it has
/// received one for every step does not wait in vain: a step is in progress,
/// or a signal is still to be sent.
pub proof fn lemma_waiting_is_not_in_vain(c: Cascade, graph: GraphMap<usize, (), Directed>)
    requires
        c.consistent(graph),
        graph_fits(graph, c.table.len()),
        acyclic(graph, c.table.len()),
        c.activated == c.table.len(),
        c.handled == c.sent.len(),
        c.handled < c.table.len(),
    ensures
        !(c.unsent =~= Set::empty()) || exists|j: int|
            0 <= j < c.table.len() && (#[trigger] c.table[j]) is InProgress,
{
    if c.unsent =~= Set::empty() && forall|j: int|
        0 <= j < c.table.len() ==> !((#[trigger] c.table[j]) is InProgress) {
        lemma_quiescent_run_is_complete(c, graph);
    }
}

/// In an acyclic graph, once the coordinator has dealt with every signal
/// that was sent, no signal is still to be sent and no step is in progress,
/// the run is over: every step has completed, and the coordinator has
/// received exactly one signal for each.
pub proof fn lemma_quiescent_run_is_complete(c: Cascade, graph: GraphMap<usize, (), Directed>)
    requires
        c.consistent(graph),
        graph_fits(graph, c.table.len()),
        acyclic(graph, c.table.len()),
        c.activated == c.table.len(),
        c.handled == c.sent.len(),
        c.unsent =~= Set::empty(),
        forall|j: int| 0 <= j < c.table.len() ==> !((#[trigger] c.table[j]) is InProgress),
    ensures
        forall|i: int| 0 <= i < c.table.len() ==> (#[trigger] c.table[i]).is_completed(),
        c.handled == c.table.len(),
{
    lemma_idle_coordinator_leaves_blocked_steps(c, graph);
    lemma_blocked_steps_need_a_cycle(c.table, graph);
    lemma_one_signal_per_step(c);
}

} // verus!
