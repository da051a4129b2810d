//! The dependency graph, held in a `petgraph` graph map, and what the
//! scheduler assumes and checks of it.
use petgraph::graphmap::GraphMap;
use petgraph::{Directed, Direction};
use vstd::prelude::*;
use vstd::relations::injective;
use vstd::set_lib::{lemma_int_range, lemma_len_subset, lemma_subset_equality, set_int_range};

verus! {

/// `petgraph::graphmap::GraphMap`, taken as it is: nothing is assumed of
/// what is inside.
#[verifier::external_type_specification]
#[verifier::external_body]
#[verifier::reject_recursive_types(N)]
#[verifier::reject_recursive_types(E)]
#[verifier::reject_recursive_types(Ty)]
#[verifier::reject_recursive_types(S)]
pub struct ExGraphMap<N, E, Ty, S: std::hash::BuildHasher>(GraphMap<N, E, Ty, S>);

/// `petgraph::Direction`, with its two variants `Outgoing` and `Incoming`.
#[verifier::external_type_specification]
pub struct ExDirection(Direction);

/// `petgraph::Directed`, the marker of a graph with directed edges.
#[verifier::external_type_specification]
#[verifier::external_body]
pub struct ExDirected(Directed);

/// The edges that a graph holds, each as the pair of the node it leaves and
/// the node it enters: the pairs for which `GraphMap::contains_edge` holds.
pub uninterp spec fn edge_set(graph: GraphMap<usize, (), Directed>) -> Set<(usize, usize)>;

/// What `GraphMap::neighbors_directed` yields for `node`, in the order in
/// which it yields it: the nodes with an edge into `node` where `incoming` is
/// set, those with an edge out of `node` where it is not.
pub uninterp spec fn neighbor_order(
    graph: GraphMap<usize, (), Directed>,
    node: usize,
    incoming: bool,
) -> Seq<usize>;

/// The steps that `node` depends on, in the order in which they are examined.
pub open spec fn dependencies(graph: GraphMap<usize, (), Directed>, node: usize) -> Seq<usize> {
    neighbor_order(graph, node, true)
}

/// The steps that depend on `node`, in the order in which they are woken.
pub open spec fn dependents(graph: GraphMap<usize, (), Directed>, node: usize) -> Seq<usize> {
    neighbor_order(graph, node, false)
}

/// Calls `GraphMap::neighbors_directed` and collects what it yields.
///
/// Trusted: the result is the graph's own listing of the neighbours of `node`
/// in the chosen direction, and a node is listed exactly when the graph holds
/// the edge between the two in that direction (a self loop is listed both
/// ways).
#[verifier::external_body]
pub(crate) fn neighbors_directed(
    graph: &GraphMap<usize, (), Directed>,
    node: usize,
    direction: Direction,
) -> (found: Vec<usize>)
    ensures
        found@ == neighbor_order(*graph, node, direction is Incoming),
        forall|other: usize| #[trigger]
            found@.contains(other) <==> edge_set(*graph).contains(
                if direction is Incoming {
                    (other, node)
                } else {
                    (node, other)
                },
            ),
{
    graph.neighbors_directed(node, direction).collect()
}

/// Whether every neighbour in `found` is below `len`.
fn all_below(found: &Vec<usize>, len: usize) -> (yes: bool)
    ensures
        yes == forall|k: int| 0 <= k < found@.len() ==> #[trigger] found@[k] < len,
{
    let mut k: usize = 0;
    while k < found.len()
        invariant
            k <= found.len(),
            forall|at: int| 0 <= at < k ==> #[trigger] found@[at] < len,
        decreases found.len() - k,
    {
        if found[k] >= len {
            return false;
        }
        k += 1;
    }
    true
}

/// The neighbours that the graph lists for `node` on one side are steps
/// below `len`, and they are the nodes joined to `node` by an edge on that
/// side.
pub open spec fn listed_within(
    graph: GraphMap<usize, (), Directed>,
    node: usize,
    incoming: bool,
    len: nat,
) -> bool {
    &&& forall|k: int|
        0 <= k < neighbor_order(graph, node, incoming).len() ==> #[trigger] neighbor_order(
            graph,
            node,
            incoming,
        )[k] < len
    &&& forall|other: usize| #[trigger]
        neighbor_order(graph, node, incoming).contains(other) <==> edge_set(graph).contains(
            if incoming {
                (other, node)
            } else {
                (node, other)
            },
        )
}

/// The graph is one over the steps `0..len`: no step below `len` has a
/// neighbour outside that range, and the neighbours listed for it on either
/// side are those that the edges give it.
pub open spec fn graph_fits(graph: GraphMap<usize, (), Directed>, len: nat) -> bool {
    forall|node: usize, incoming: bool|
        node < len ==> #[trigger] listed_within(graph, node, incoming, len)
}

/// Checks that the graph is one over the steps `0..len`.
pub fn check_graph(graph: &GraphMap<usize, (), Directed>, len: usize) -> (ok: bool)
    ensures
        ok == graph_fits(*graph, len as nat),
{
    let mut node: usize = 0;
    while node < len
        invariant
            node <= len,
            forall|at: usize, incoming: bool|
                at < node ==> #[trigger] listed_within(*graph, at, incoming, len as nat),
        decreases len - node,
    {
        let into = neighbors_directed(graph, node, Direction::Incoming);
        let out = neighbors_directed(graph, node, Direction::Outgoing);
        if !all_below(&into, len) || !all_below(&out, len) {
            assert(!listed_within(*graph, node, true, len as nat) || !listed_within(
                *graph,
                node,
                false,
                len as nat,
            ));
            return false;
        }
        assert forall|at: usize, incoming: bool| at < node + 1 implies #[trigger] listed_within(
            *graph,
            at,
            incoming,
            len as nat,
        ) by {
            if at == node {
                if incoming {
                    assert(listed_within(*graph, node, true, len as nat));
                } else {
                    assert(listed_within(*graph, node, false, len as nat));
                }
            }
        }
        node += 1;
    }
    true
}

/// `path` leads along edges of the graph over the steps `0..len`: every step
/// on it is a dependency of the step after it.
pub open spec fn is_path(graph: GraphMap<usize, (), Directed>, len: nat, path: Seq<usize>) -> bool {
    &&& forall|k: int| 0 <= k < path.len() ==> (#[trigger] path[k]) < len
    &&& forall|k: int|
        0 < k < path.len() ==> dependencies(graph, #[trigger] path[k]).contains(path[k - 1])
}

/// The graph over the steps `0..len` has a cycle: a path of one edge or more
/// that ends at the step at which it starts.
pub open spec fn has_cycle(graph: GraphMap<usize, (), Directed>, len: nat) -> bool {
    exists|path: Seq<usize>|
        #[trigger] is_path(graph, len, path) && path.len() >= 2 && path.first() == path.last()
}

/// The graph over the steps `0..len` has no cycle.
pub open spec fn acyclic(graph: GraphMap<usize, (), Directed>, len: nat) -> bool {
    !has_cycle(graph, len)
}

/// `rank` numbers the steps `0..len` so that every dependency has a smaller
/// number than the step that depends on it.
pub open spec fn is_ranking(graph: GraphMap<usize, (), Directed>, len: nat, rank: Seq<nat>) -> bool {
    &&& rank.len() == len
    &&& forall|node: usize, k: int|
        node < len && 0 <= k < dependencies(graph, node).len() && (#[trigger] dependencies(
            graph,
            node,
        )[k]) < len ==> rank[dependencies(graph, node)[k] as int] < rank[node as int]
}

/// Along a path, the numbers of a ranking grow.
proof fn lemma_rank_grows_along_path(
    graph: GraphMap<usize, (), Directed>,
    len: nat,
    rank: Seq<nat>,
    path: Seq<usize>,
    at: int,
)
    requires
        is_ranking(graph, len, rank),
        is_path(graph, len, path),
        0 < at < path.len(),
    ensures
        rank[path[0] as int] < rank[path[at] as int],
    decreases at,
{
    let deps = dependencies(graph, path[at]);
    let k = choose|k: int| 0 <= k < deps.len() && deps[k] == path[at - 1];
    assert(rank[deps[k] as int] < rank[path[at] as int]);
    if at > 1 {
        lemma_rank_grows_along_path(graph, len, rank, path, at - 1);
    }
}

/// A graph whose steps can be numbered so that every edge leads from a
/// smaller number to a larger one has no cycle.
pub proof fn lemma_ranking_rules_out_cycles(
    graph: GraphMap<usize, (), Directed>,
    len: nat,
    rank: Seq<nat>,
)
    requires
        is_ranking(graph, len, rank),
    ensures
        acyclic(graph, len),
{
    if has_cycle(graph, len) {
        let path = choose|path: Seq<usize>|
            #[trigger] is_path(graph, len, path) && path.len() >= 2 && path.first()
                == path.last();
        lemma_rank_grows_along_path(graph, len, rank, path, path.len() - 1);
    }
}

/// Distinct steps below `len` are `len` at most, and if they are `len`, every
/// step below `len` is among them.
pub proof fn lemma_distinct_steps_are_few(steps: Seq<usize>, len: nat)
    requires
        steps.no_duplicates(),
        forall|p: int| 0 <= p < steps.len() ==> (#[trigger] steps[p]) < len,
    ensures
        steps.len() <= len,
        steps.len() == len ==> forall|step: usize| step < len ==> steps.contains(step),
{
    let widen = |step: usize| step as int;
    assert(injective(widen));
    steps.lemma_no_duplicates_injective(widen);
    let wide = steps.map_values(widen);
    wide.unique_seq_to_set();
    lemma_int_range(0, len as int);
    assert forall|step: int| wide.to_set().contains(step) implies set_int_range(
        0,
        len as int,
    ).contains(step) by {
        let p = choose|p: int| 0 <= p < wide.len() && wide[p] == step;
        assert(steps[p] < len);
    }
    lemma_len_subset(wide.to_set(), set_int_range(0, len as int));
    if steps.len() == len {
        lemma_subset_equality(wide.to_set(), set_int_range(0, len as int));
        assert forall|step: usize| step < len implies steps.contains(step) by {
            assert(set_int_range(0, len as int).contains(step as int));
            assert(wide.to_set().contains(step as int));
            let p = choose|p: int| 0 <= p < wide.len() && wide[p] == step as int;
            assert(steps[p] == step);
        }
    }
}

/// A dependency of `of` that lies in `bad`, where there is one.
spec fn bad_dependency(graph: GraphMap<usize, (), Directed>, bad: Set<usize>, of: usize) -> usize {
    let deps = dependencies(graph, of);
    deps[choose|k: int| 0 <= k < deps.len() && bad.contains(#[trigger] deps[k])]
}

/// The path of `edges` edges that ends at `start` and is found by going
/// from each step to a dependency of it that lies in `bad`.
spec fn descent(
    graph: GraphMap<usize, (), Directed>,
    bad: Set<usize>,
    start: usize,
    edges: nat,
) -> Seq<usize>
    decreases edges,
{
    if edges == 0 {
        seq![start]
    } else {
        let above = descent(graph, bad, start, (edges - 1) as nat);
        seq![bad_dependency(graph, bad, above.first())] + above
    }
}

/// Where every step in `bad` has a dependency in `bad`, the descent from a
/// step in `bad` is a path through `bad` of any length.
proof fn lemma_descent_is_path(
    graph: GraphMap<usize, (), Directed>,
    len: nat,
    bad: Set<usize>,
    start: usize,
    edges: nat,
)
    requires
        graph_fits(graph, len),
        start < len,
        bad.contains(start),
        forall|step: usize|
            step < len && #[trigger] bad.contains(step) ==> exists|k: int|
                0 <= k < dependencies(graph, step).len() && bad.contains(
                    #[trigger] dependencies(graph, step)[k],
                ),
    ensures
        descent(graph, bad, start, edges).len() == edges + 1,
        is_path(graph, len, descent(graph, bad, start, edges)),
        forall|k: int|
            0 <= k < edges + 1 ==> bad.contains(#[trigger] descent(graph, bad, start, edges)[k]),
    decreases edges,
{
    let path = descent(graph, bad, start, edges);
    if edges > 0 {
        let above = descent(graph, bad, start, (edges - 1) as nat);
        lemma_descent_is_path(graph, len, bad, start, (edges - 1) as nat);
        let top = above.first();
        assert(bad.contains(above[0]));
        assert(listed_within(graph, top, true, len));
        let deps = dependencies(graph, top);
        let k = choose|k: int| 0 <= k < deps.len() && bad.contains(#[trigger] deps[k]);
        assert(path[0] == deps[k]);
        assert forall|at: int| 0 <= at < path.len() implies (#[trigger] path[at]) < len
            && bad.contains(path[at]) by {
            if at > 0 {
                assert(path[at] == above[at - 1]);
            }
        }
        assert forall|at: int| 0 < at < path.len() implies dependencies(
            graph,
            #[trigger] path[at],
        ).contains(path[at - 1]) by {
            assert(path[at] == above[at - 1]);
            if at > 1 {
                assert(path[at - 1] == above[at - 2]);
                assert(dependencies(graph, above[at - 1]).contains(above[at - 1 - 1]));
            }
        }
    }
}

/// Steps cannot depend on each other without end, but around a cycle: where
/// every step of a set has a dependency in the set, and the set is not
/// empty, the graph has a cycle.
pub proof fn lemma_endless_descent_is_a_cycle(
    graph: GraphMap<usize, (), Directed>,
    len: nat,
    bad: Set<usize>,
    start: usize,
)
    requires
        graph_fits(graph, len),
        start < len,
        bad.contains(start),
        forall|step: usize|
            step < len && #[trigger] bad.contains(step) ==> exists|k: int|
                0 <= k < dependencies(graph, step).len() && bad.contains(
                    #[trigger] dependencies(graph, step)[k],
                ),
    ensures
        has_cycle(graph, len),
{
    let path = descent(graph, bad, start, len);
    lemma_descent_is_path(graph, len, bad, start, len);
    if path.no_duplicates() {
        lemma_distinct_steps_are_few(path, len);
    }
    let (a, b) = choose|a: int, b: int|
        0 <= a < path.len() && 0 <= b < path.len() && a != b && path[a] == path[b];
    let (low, high) = if a < b {
        (a, b)
    } else {
        (b, a)
    };
    let round = path.subrange(low, high + 1);
    assert forall|k: int| 0 < k < round.len() implies dependencies(
        graph,
        #[trigger] round[k],
    ).contains(round[k - 1]) by {
        assert(round[k] == path[low + k]);
        assert(round[k - 1] == path[low + k - 1]);
    }
    assert(is_path(graph, len, round));
    assert(round.first() == round.last());
}

/// In a graph over the steps `0..len`, a step is listed among the dependents
/// of each of its dependencies, and among the dependencies of each of its
/// dependents.
pub proof fn lemma_neighbours_are_mutual(
    graph: GraphMap<usize, (), Directed>,
    len: nat,
    from: usize,
    to: usize,
)
    requires
        graph_fits(graph, len),
        from < len,
        to < len,
    ensures
        dependencies(graph, to).contains(from) <==> dependents(graph, from).contains(to),
{
    assert(listed_within(graph, to, true, len));
    assert(listed_within(graph, from, false, len));
}

} // verus!
