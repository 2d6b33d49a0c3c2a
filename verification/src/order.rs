//! The build-order model: a depth-first traversal of the dependency graph
//! that emits every node after its children and each id at most once.

use vstd::prelude::*;
use crate::graph::Node;
use crate::graph::PackageModel;
use crate::graph::graph_of;
use crate::graph::is_root_package;

verus! {

/// State threaded through the traversal: the ids already seen, and the
/// node indices emitted so far, in order.
pub ghost struct DfsState {
    pub visited: Set<Seq<char>>,
    pub order: Seq<usize>,
}

/// Every listed child index points at a node of the arena.
pub open spec fn wf_children(children: Seq<usize>, n: nat) -> bool {
    forall|k: int| 0 <= k < children.len() ==> (#[trigger] children[k] as nat) < n
}

/// Every node's child indices point at nodes of the arena.
pub open spec fn wf_nodes(nodes: Seq<Node>) -> bool {
    forall|i: int|
        0 <= i < nodes.len() ==> wf_children(#[trigger] nodes[i].children@, nodes.len())
}

/// The ids of the nodes, in arena order.
pub open spec fn id_seq(nodes: Seq<Node>) -> Seq<Seq<char>> {
    nodes.map_values(|n: Node| n.id@)
}

/// The set of ids present in the arena.
pub open spec fn all_ids(nodes: Seq<Node>) -> Set<Seq<char>> {
    id_seq(nodes).to_set()
}

/// How many ids of the arena a traversal has not seen yet.
pub open spec fn unvisited_count(nodes: Seq<Node>, visited: Set<Seq<char>>) -> nat {
    all_ids(nodes).difference(visited).len()
}

/// The character sequences held by a list of strings.
pub open spec fn id_views(v: Seq<String>) -> Seq<Seq<char>> {
    v.map_values(|s: String| s@)
}

/// The ids held by a list of visited-id strings.
pub open spec fn visited_set(v: Seq<String>) -> Set<Seq<char>> {
    id_views(v).to_set()
}

/// Visit one node: skip it if its id was seen, otherwise mark it, visit its
/// children first, and emit it after them.  `depth` bounds the nesting of
/// the traversal; one more than the number of arena ids always suffices,
/// since every level of nesting marks a fresh id.
pub open spec fn dfs_node(nodes: Seq<Node>, i: usize, st: DfsState, depth: nat) -> DfsState
    decreases depth, 0nat, 0nat,
{
    if depth == 0 {
        st
    } else if st.visited.contains(nodes[i as int].id@) {
        st
    } else {
        let st1 = DfsState { visited: st.visited.insert(nodes[i as int].id@), order: st.order };
        let st2 = dfs_seq(nodes, nodes[i as int].children@, st1, (depth - 1) as nat);
        DfsState { visited: st2.visited, order: st2.order.push(i) }
    }
}

/// Visit a list of nodes left to right, threading the state through.
pub open spec fn dfs_seq(nodes: Seq<Node>, todo: Seq<usize>, st: DfsState, depth: nat) -> DfsState
    decreases depth, 1nat, todo.len(),
{
    if todo.len() == 0 {
        st
    } else {
        let st1 = dfs_node(nodes, todo[0], st, depth);
        dfs_seq(nodes, todo.drop_first(), st1, depth)
    }
}

/// The traversal that has seen nothing and emitted nothing.
pub open spec fn init_state() -> DfsState {
    DfsState { visited: Set::empty(), order: Seq::empty() }
}

/// A nesting bound that always suffices for the arena.
pub open spec fn depth0(nodes: Seq<Node>) -> nat {
    nodes.len() + 1
}

/// The build order of a node's dependencies: its children's subtrees in
/// declaration order, without the node itself.
pub open spec fn spec_dependency_order(nodes: Seq<Node>, i: usize) -> Seq<usize> {
    dfs_seq(nodes, nodes[i as int].children@, init_state(), depth0(nodes)).order
}

/// The build order of the whole workspace: the dependency order of the
/// synthetic root, which owns every package as a child.
pub open spec fn spec_overall_order(nodes: Seq<Node>) -> Seq<usize> {
    spec_dependency_order(nodes, 0)
}

broadcast use {vstd::set::group_set_axioms, vstd::seq_lib::seq_to_set_is_finite};

/// A sequence yields at most as many distinct values as it has entries.
pub proof fn lemma_to_set_card<A>(s: Seq<A>)
    ensures
        s.to_set().finite(),
        s.to_set().len() <= s.len(),
    decreases s.len(),
{
    if s.len() == 0 {
        assert(s.to_set() =~= Set::<A>::empty());
    } else {
        lemma_to_set_card(s.drop_last());
        Seq::lemma_push_to_set_commute(s.drop_last(), s.last());
        assert(s.drop_last().push(s.last()) =~= s);
    }
}

/// The id of an arena node is among the arena's ids.
pub proof fn lemma_id_in_all(nodes: Seq<Node>, i: int)
    requires
        0 <= i < nodes.len(),
    ensures
        all_ids(nodes).contains(nodes[i].id@),
{
    assert(id_seq(nodes)[i] == nodes[i].id@);
    assert(id_seq(nodes).contains(nodes[i].id@));
}

/// There are never more unseen ids than nodes.
pub proof fn lemma_unvisited_le(nodes: Seq<Node>, visited: Set<Seq<char>>)
    ensures
        all_ids(nodes).finite(),
        all_ids(nodes).difference(visited).finite(),
        unvisited_count(nodes, visited) <= nodes.len(),
{
    lemma_to_set_card(id_seq(nodes));
    assert(all_ids(nodes).difference(visited).subset_of(all_ids(nodes)));
    vstd::set_lib::lemma_len_subset(all_ids(nodes).difference(visited), all_ids(nodes));
}

/// Seeing more ids never raises the count of unseen ones.
pub proof fn lemma_unvisited_monotone(nodes: Seq<Node>, v1: Set<Seq<char>>, v2: Set<Seq<char>>)
    requires
        v1.subset_of(v2),
    ensures
        unvisited_count(nodes, v2) <= unvisited_count(nodes, v1),
{
    lemma_unvisited_le(nodes, v1);
    assert(all_ids(nodes).difference(v2).subset_of(all_ids(nodes).difference(v1)));
    vstd::set_lib::lemma_len_subset(
        all_ids(nodes).difference(v2),
        all_ids(nodes).difference(v1),
    );
}

/// Seeing a fresh id of the arena lowers the count of unseen ones by one.
pub proof fn lemma_unvisited_insert_fresh(nodes: Seq<Node>, visited: Set<Seq<char>>, id: Seq<char>)
    requires
        all_ids(nodes).contains(id),
        !visited.contains(id),
    ensures
        unvisited_count(nodes, visited.insert(id)) == unvisited_count(nodes, visited) - 1,
{
    lemma_unvisited_le(nodes, visited);
    assert(all_ids(nodes).difference(visited.insert(id)) =~= all_ids(nodes).difference(
        visited,
    ).remove(id));
    assert(all_ids(nodes).difference(visited).contains(id));
}

/// What one visit does to the state: the seen set only grows, and only by
/// ids of the arena; the emitted list is extended, by valid indices whose
/// ids were unseen before and are pairwise distinct.
pub proof fn lemma_dfs_node_frame(nodes: Seq<Node>, i: usize, st: DfsState, depth: nat)
    requires
        wf_nodes(nodes),
        (i as int) < nodes.len(),
    ensures
        ({
            let st2 = dfs_node(nodes, i, st, depth);
            &&& st.visited.subset_of(st2.visited)
            &&& st2.visited.subset_of(st.visited.union(all_ids(nodes)))
            &&& st2.order.len() >= st.order.len()
            &&& st2.order.take(st.order.len() as int) == st.order
            &&& (forall|m: int|
                st.order.len() <= m < st2.order.len() ==> {
                    &&& ((#[trigger] st2.order[m]) as int) < nodes.len()
                    &&& st2.visited.contains(nodes[st2.order[m] as int].id@)
                    &&& !st.visited.contains(nodes[st2.order[m] as int].id@)
                })
            &&& (forall|m1: int, m2: int|
                st.order.len() <= m1 < m2 < st2.order.len()
                    ==> nodes[(#[trigger] st2.order[m1]) as int].id@ != nodes[(#[trigger] st2.order[m2]) as int].id@)
        }),
    decreases depth, 0nat, 0nat,
{
    let stf = dfs_node(nodes, i, st, depth);
    if depth == 0 || st.visited.contains(nodes[i as int].id@) {
        assert(stf == st);
        assert(st.order.take(st.order.len() as int) =~= st.order);
    } else {
        let id = nodes[i as int].id@;
        let st1 = DfsState { visited: st.visited.insert(id), order: st.order };
        let children = nodes[i as int].children@;
        let st2 = dfs_seq(nodes, children, st1, (depth - 1) as nat);
        lemma_dfs_seq_frame(nodes, children, st1, (depth - 1) as nat);
        lemma_id_in_all(nodes, i as int);
        let l0 = st.order.len() as int;
        assert(stf.order == st2.order.push(i));
        assert(stf.order.take(l0) =~= st2.order.take(l0));
        assert(st.visited.subset_of(stf.visited));
        assert forall|x: Seq<char>| stf.visited.contains(x) implies st.visited.union(
            all_ids(nodes),
        ).contains(x) by {
            assert(st1.visited.union(all_ids(nodes)).contains(x));
        }
        assert forall|m: int| l0 <= m < stf.order.len() implies {
            &&& ((#[trigger] stf.order[m]) as int) < nodes.len()
            &&& stf.visited.contains(nodes[stf.order[m] as int].id@)
            &&& !st.visited.contains(nodes[stf.order[m] as int].id@)
        } by {
            if m < st2.order.len() {
                assert(stf.order[m] == st2.order[m]);
            } else {
                assert(stf.order[m] == i);
                assert(st1.visited.contains(id));
            }
        }
        assert forall|m1: int, m2: int| l0 <= m1 < m2 < stf.order.len() implies nodes[(
        #[trigger] stf.order[m1]) as int].id@ != nodes[(#[trigger] stf.order[m2]) as int].id@ by {
            if m2 < st2.order.len() {
                assert(stf.order[m1] == st2.order[m1]);
                assert(stf.order[m2] == st2.order[m2]);
            } else {
                assert(stf.order[m2] == i);
                assert(stf.order[m1] == st2.order[m1]);
                assert(!st1.visited.contains(nodes[st2.order[m1] as int].id@));
                assert(st1.visited.contains(id));
            }
        }
    }
}

/// The list form of [`lemma_dfs_node_frame`], over every node of a list.
pub proof fn lemma_dfs_seq_frame(nodes: Seq<Node>, todo: Seq<usize>, st: DfsState, depth: nat)
    requires
        wf_nodes(nodes),
        wf_children(todo, nodes.len()),
    ensures
        ({
            let st2 = dfs_seq(nodes, todo, st, depth);
            &&& st.visited.subset_of(st2.visited)
            &&& st2.visited.subset_of(st.visited.union(all_ids(nodes)))
            &&& st2.order.len() >= st.order.len()
            &&& st2.order.take(st.order.len() as int) == st.order
            &&& (forall|m: int|
                st.order.len() <= m < st2.order.len() ==> {
                    &&& ((#[trigger] st2.order[m]) as int) < nodes.len()
                    &&& st2.visited.contains(nodes[st2.order[m] as int].id@)
                    &&& !st.visited.contains(nodes[st2.order[m] as int].id@)
                })
            &&& (forall|m1: int, m2: int|
                st.order.len() <= m1 < m2 < st2.order.len()
                    ==> nodes[(#[trigger] st2.order[m1]) as int].id@ != nodes[(#[trigger] st2.order[m2]) as int].id@)
        }),
    decreases depth, 1nat, todo.len(),
{
    let stf = dfs_seq(nodes, todo, st, depth);
    if todo.len() == 0 {
        assert(stf == st);
        assert(st.order.take(st.order.len() as int) =~= st.order);
    } else {
        assert((todo[0] as nat) < nodes.len());
        let st1 = dfs_node(nodes, todo[0], st, depth);
        lemma_dfs_node_frame(nodes, todo[0], st, depth);
        let rest = todo.drop_first();
        assert forall|k: int| 0 <= k < rest.len() implies ((#[trigger] rest[k]) as nat)
            < nodes.len() by {
            assert(rest[k] == todo[k + 1]);
        }
        let st2 = dfs_seq(nodes, rest, st1, depth);
        lemma_dfs_seq_frame(nodes, rest, st1, depth);
        assert(stf == st2);
        let l0 = st.order.len() as int;
        let l1 = st1.order.len() as int;
        assert(st2.order.take(l0) =~= st1.order.take(l0)) by {
            assert(st2.order.take(l1) == st1.order);
            assert forall|k: int| 0 <= k < l0 implies st2.order.take(l0)[k] == st1.order.take(
                l0,
            )[k] by {
                assert(st2.order.take(l1)[k] == st1.order[k]);
            }
        }
        assert forall|x: Seq<char>| st2.visited.contains(x) implies st.visited.union(
            all_ids(nodes),
        ).contains(x) by {
            assert(st1.visited.union(all_ids(nodes)).contains(x));
        }
        assert forall|m: int| l0 <= m < st2.order.len() implies {
            &&& ((#[trigger] st2.order[m]) as int) < nodes.len()
            &&& st2.visited.contains(nodes[st2.order[m] as int].id@)
            &&& !st.visited.contains(nodes[st2.order[m] as int].id@)
        } by {
            if m < l1 {
                assert(st2.order.take(l1)[m] == st1.order[m]);
                assert(st2.order[m] == st1.order[m]);
                assert(st1.visited.contains(nodes[st1.order[m] as int].id@));
                assert(st1.visited.subset_of(st2.visited));
            } else {
                assert(!st1.visited.contains(nodes[st2.order[m] as int].id@));
                assert(st.visited.subset_of(st1.visited));
            }
        }
        assert forall|m1: int, m2: int| l0 <= m1 < m2 < st2.order.len() implies nodes[(
        #[trigger] st2.order[m1]) as int].id@ != nodes[(#[trigger] st2.order[m2]) as int].id@ by {
            if m2 < l1 {
                assert(st2.order[m1] == st1.order[m1]);
                assert(st2.order[m2] == st1.order[m2]);
            } else if m1 < l1 {
                assert(st2.order[m1] == st1.order[m1]);
                assert(st1.visited.contains(nodes[st1.order[m1] as int].id@));
                assert(!st1.visited.contains(nodes[st2.order[m2] as int].id@));
            }
        }
    }
}

/// There is a dependency edge from node `i` to node `c`.
pub open spec fn has_edge(nodes: Seq<Node>, i: usize, c: usize) -> bool {
    nodes[i as int].children@.contains(c)
}

/// The indices follow dependency edges from first to last.
pub open spec fn is_dep_path(nodes: Seq<Node>, p: Seq<usize>) -> bool
    decreases p.len(),
{
    if p.len() == 0 {
        false
    } else if p.len() == 1 {
        (p[0] as int) < nodes.len()
    } else {
        &&& (p[0] as int) < nodes.len()
        &&& has_edge(nodes, p[0], p[1])
        &&& is_dep_path(nodes, p.drop_first())
    }
}

/// Node `j` can be reached from node `i` along dependency edges; every
/// node reaches itself.
pub open spec fn reaches(nodes: Seq<Node>, i: usize, j: usize) -> bool {
    exists|p: Seq<usize>|
        #[trigger] is_dep_path(nodes, p) && p.first() == i && p.last() == j
}

/// Node `j` can be reached from node `i` along at least one dependency
/// edge: `j` is a dependency of `i`, directly or transitively.
pub open spec fn properly_reaches(nodes: Seq<Node>, i: usize, j: usize) -> bool {
    exists|p: Seq<usize>|
        #[trigger] is_dep_path(nodes, p) && p.len() >= 2 && p.first() == i && p.last() == j
}

/// No node is a dependency of itself, directly or transitively.
pub open spec fn acyclic(nodes: Seq<Node>) -> bool {
    forall|i: usize| !properly_reaches(nodes, i, i)
}

/// No two nodes of the arena share an id.
pub open spec fn unique_ids(nodes: Seq<Node>) -> bool {
    forall|i: int, j: int| 0 <= i < j < nodes.len() ==> nodes[i].id@ != nodes[j].id@
}

/// Some entry of the emitted order has the given id.
pub open spec fn order_has_id(nodes: Seq<Node>, order: Seq<usize>, id: Seq<char>) -> bool {
    exists|m: int| 0 <= m < order.len() && nodes[(#[trigger] order[m]) as int].id@ == id
}

/// The ids of the emitted nodes.
pub open spec fn order_ids(nodes: Seq<Node>, order: Seq<usize>) -> Set<Seq<char>> {
    Set::new(|id: Seq<char>| order_has_id(nodes, order, id))
}

/// Every emitted node's dependencies stand earlier in the order, unless
/// their ids belong to `grey`, the nodes whose visit is still under way.
pub open spec fn order_closed(nodes: Seq<Node>, order: Seq<usize>, grey: Set<Seq<char>>) -> bool {
    forall|m: int, c: usize|
        0 <= m < order.len() && #[trigger] has_edge(nodes, order[m], c) ==> grey.contains(
            nodes[c as int].id@,
        ) || order_has_id(nodes, order.take(m), nodes[c as int].id@)
}

/// The traversal invariant: emitted indices are valid and carry pairwise
/// distinct ids, the seen set is exactly the emitted ids plus the grey
/// ones, and the order is closed up to grey.
pub open spec fn state_inv(nodes: Seq<Node>, st: DfsState, grey: Set<Seq<char>>) -> bool {
    &&& forall|m: int| 0 <= m < st.order.len() ==> ((#[trigger] st.order[m]) as int) < nodes.len()
    &&& forall|m1: int, m2: int|
        0 <= m1 < m2 < st.order.len() ==> nodes[(#[trigger] st.order[m1]) as int].id@ != nodes[(
        #[trigger] st.order[m2]) as int].id@
    &&& st.visited == order_ids(nodes, st.order).union(grey)
    &&& order_closed(nodes, st.order, grey)
}

/// A single node is a path.
pub proof fn lemma_reaches_refl(nodes: Seq<Node>, i: usize)
    requires
        (i as int) < nodes.len(),
    ensures
        reaches(nodes, i, i),
{
    let p = seq![i];
    assert(is_dep_path(nodes, p));
    assert(p.first() == i && p.last() == i);
}

/// A path extended backwards over an edge is a path: whatever a child
/// reaches, its parent reaches properly.
pub proof fn lemma_reaches_step(nodes: Seq<Node>, i: usize, c: usize, j: usize)
    requires
        (i as int) < nodes.len(),
        has_edge(nodes, i, c),
        reaches(nodes, c, j),
    ensures
        properly_reaches(nodes, i, j),
        reaches(nodes, i, j),
{
    let p = choose|p: Seq<usize>|
        #[trigger] is_dep_path(nodes, p) && p.first() == c && p.last() == j;
    let q = seq![i] + p;
    assert(q.drop_first() =~= p);
    assert(q[0] == i && q[1] == p[0]);
    assert(is_dep_path(nodes, q));
    assert(q.first() == i && q.last() == j && q.len() >= 2);
}

/// Every node on a path is reachable from the path's first node.
pub proof fn lemma_path_nodes_reachable(nodes: Seq<Node>, p: Seq<usize>, k: int)
    requires
        is_dep_path(nodes, p),
        0 <= k < p.len(),
    ensures
        (p[k] as int) < nodes.len(),
        reaches(nodes, p.first(), p[k]),
    decreases k,
{
    if k == 0 {
        if p.len() == 1 {
        } else {
            assert((p[0] as int) < nodes.len());
        }
        lemma_reaches_refl(nodes, p.first());
    } else {
        let rest = p.drop_first();
        lemma_path_nodes_reachable(nodes, rest, k - 1);
        assert(rest[k - 1] == p[k]);
        lemma_reaches_step(nodes, p.first(), rest.first(), p[k]);
    }
}

/// In an order closed without grey leftovers, whatever an entry properly
/// reaches was emitted strictly earlier.
pub proof fn lemma_closed_reach(
    nodes: Seq<Node>,
    order: Seq<usize>,
    grey: Set<Seq<char>>,
    m: int,
    p: Seq<usize>,
)
    requires
        wf_nodes(nodes),
        unique_ids(nodes),
        forall|t: int| 0 <= t < order.len() ==> ((#[trigger] order[t]) as int) < nodes.len(),
        order_closed(nodes, order, grey),
        0 <= m < order.len(),
        is_dep_path(nodes, p),
        p.first() == order[m],
        p.len() >= 2,
        forall|k: int| 0 <= k < p.len() ==> !grey.contains(nodes[(#[trigger] p[k]) as int].id@),
    ensures
        order_has_id(nodes, order.take(m), nodes[p.last() as int].id@),
    decreases m, p.len(),
{
    let c = p[1];
    assert(has_edge(nodes, order[m], c));
    assert(!grey.contains(nodes[c as int].id@));
    assert(order_has_id(nodes, order.take(m), nodes[c as int].id@));
    let m2 = choose|m2: int|
        0 <= m2 < order.take(m).len() && nodes[(#[trigger] order.take(m)[m2]) as int].id@
            == nodes[c as int].id@;
    assert(order.take(m)[m2] == order[m2]);
    lemma_path_nodes_reachable(nodes, p, 1);
    assert((c as int) < nodes.len());
    assert(order[m2] == c) by {
        if order[m2] != c {
            assert(nodes[order[m2] as int].id@ != nodes[c as int].id@);
        }
    }
    if p.len() == 2 {
        assert(p.last() == c);
        assert(order_has_id(nodes, order.take(m), nodes[c as int].id@));
    } else {
        let rest = p.drop_first();
        assert(is_dep_path(nodes, rest));
        assert(rest.first() == order[m2]);
        assert forall|k: int| 0 <= k < rest.len() implies !grey.contains(
            nodes[(#[trigger] rest[k]) as int].id@,
        ) by {
            assert(rest[k] == p[k + 1]);
        }
        lemma_closed_reach(nodes, order, grey, m2, rest);
        assert(rest.last() == p.last());
        let m3 = choose|m3: int|
            0 <= m3 < order.take(m2).len() && nodes[(#[trigger] order.take(m2)[m3]) as int].id@
                == nodes[p.last() as int].id@;
        assert(order.take(m)[m3] == order[m3]);
        assert(order_has_id(nodes, order.take(m), nodes[p.last() as int].id@));
    }
}

/// A path extended forwards over an edge is a path.
pub proof fn lemma_path_push(nodes: Seq<Node>, p: Seq<usize>, c: usize)
    requires
        is_dep_path(nodes, p),
        has_edge(nodes, p.last(), c),
        (c as int) < nodes.len(),
        (p.last() as int) < nodes.len(),
    ensures
        is_dep_path(nodes, p.push(c)),
    decreases p.len(),
{
    if p.len() == 1 {
        assert(p.push(c)[0] == p[0]);
        assert(p.push(c)[1] == c);
        assert(p.push(c).drop_first() =~= seq![c]);
        assert(is_dep_path(nodes, seq![c]));
    } else {
        lemma_path_push(nodes, p.drop_first(), c);
        assert(p.drop_first().last() == p.last());
        assert(p.push(c).drop_first() =~= p.drop_first().push(c));
        assert(p.push(c)[0] == p[0]);
        assert(p.push(c)[1] == p[1]);
    }
}

/// A node that reaches a parent of itself is its own dependency.
pub proof fn lemma_reaches_edge_close(nodes: Seq<Node>, i: usize, j: usize)
    requires
        reaches(nodes, i, j),
        has_edge(nodes, j, i),
        (i as int) < nodes.len(),
        (j as int) < nodes.len(),
    ensures
        properly_reaches(nodes, i, i),
{
    let p = choose|p: Seq<usize>|
        #[trigger] is_dep_path(nodes, p) && p.first() == i && p.last() == j;
    lemma_path_push(nodes, p, i);
    let q = p.push(i);
    assert(q.first() == i && q.last() == i && q.len() >= 2);
}

/// Visiting a node whose reachable set holds no grey id keeps the
/// traversal invariant, emits the node's id, leaves every id reachable
/// from the node seen, and emits only nodes reachable from it.
pub proof fn lemma_dfs_node_closed(
    nodes: Seq<Node>,
    i: usize,
    st: DfsState,
    depth: nat,
    grey: Set<Seq<char>>,
)
    requires
        wf_nodes(nodes),
        unique_ids(nodes),
        acyclic(nodes),
        (i as int) < nodes.len(),
        depth >= unvisited_count(nodes, st.visited) + 1,
        state_inv(nodes, st, grey),
        forall|j: usize| reaches(nodes, i, j) ==> !grey.contains(nodes[j as int].id@),
    ensures
        ({
            let st2 = dfs_node(nodes, i, st, depth);
            &&& state_inv(nodes, st2, grey)
            &&& st2.order.len() >= st.order.len()
            &&& st2.order.take(st.order.len() as int) == st.order
            &&& order_has_id(nodes, st2.order, nodes[i as int].id@)
            &&& (forall|j: usize|
                reaches(nodes, i, j) ==> st2.visited.contains(nodes[j as int].id@))
            &&& (forall|m: int|
                st.order.len() <= m < st2.order.len() ==> reaches(
                    nodes,
                    i,
                    #[trigger] st2.order[m],
                ))
        }),
    decreases depth, 0nat, 0nat,
{
    let id = nodes[i as int].id@;
    lemma_reaches_refl(nodes, i);
    lemma_dfs_node_frame(nodes, i, st, depth);
    if st.visited.contains(id) {
        let st2 = dfs_node(nodes, i, st, depth);
        assert(st2 == st);
        assert(st.order.take(st.order.len() as int) =~= st.order);
        assert(!grey.contains(id));
        assert(order_has_id(nodes, st.order, id));
        let mi = choose|mi: int|
            0 <= mi < st.order.len() && nodes[(#[trigger] st.order[mi]) as int].id@ == id;
        assert(st.order[mi] == i) by {
            if st.order[mi] != i {
                assert(nodes[st.order[mi] as int].id@ != nodes[i as int].id@);
            }
        }
        assert forall|j: usize| reaches(nodes, i, j) implies st.visited.contains(
            nodes[j as int].id@,
        ) by {
            let p = choose|p: Seq<usize>|
                #[trigger] is_dep_path(nodes, p) && p.first() == i && p.last() == j;
            if p.len() == 1 {
                assert(j == i);
            } else {
                assert forall|k: int| 0 <= k < p.len() implies !grey.contains(
                    nodes[(#[trigger] p[k]) as int].id@,
                ) by {
                    lemma_path_nodes_reachable(nodes, p, k);
                }
                lemma_closed_reach(nodes, st.order, grey, mi, p);
                let mj = choose|mj: int|
                    0 <= mj < st.order.take(mi).len() && nodes[(#[trigger] st.order.take(
                        mi,
                    )[mj]) as int].id@ == nodes[j as int].id@;
                assert(st.order[mj] == st.order.take(mi)[mj]);
                assert(order_has_id(nodes, st.order, nodes[j as int].id@));
            }
        }
    } else {
        let grey2 = grey.insert(id);
        let st1 = DfsState { visited: st.visited.insert(id), order: st.order };
        let children = nodes[i as int].children@;
        assert(wf_children(children, nodes.len()));
        lemma_id_in_all(nodes, i as int);
        lemma_unvisited_insert_fresh(nodes, st.visited, id);

        // The state invariant holds of `st1` against the larger grey set.
        assert(st1.visited =~= order_ids(nodes, st1.order).union(grey2));
        assert(order_closed(nodes, st1.order, grey2)) by {
            assert forall|m: int, c: usize|
                0 <= m < st1.order.len() && #[trigger] has_edge(nodes, st1.order[m], c) implies grey2.contains(
                nodes[c as int].id@,
            ) || order_has_id(nodes, st1.order.take(m), nodes[c as int].id@) by {
                assert(has_edge(nodes, st.order[m], c));
            }
        }

        // No node reachable from a child has a grey2 id: not a grey id
        // since the parent reaches it too, and not this node's id since
        // that would close a dependency cycle.
        assert forall|ti: int, j: usize|
            0 <= ti < children.len() && #[trigger] reaches(nodes, children[ti], j) implies !grey2.contains(
            nodes[j as int].id@,
        ) by {
            assert(has_edge(nodes, i, children[ti]));
            lemma_reaches_step(nodes, i, children[ti], j);
            assert(!grey.contains(nodes[j as int].id@));
            let p = choose|p: Seq<usize>|
                #[trigger] is_dep_path(nodes, p) && p.first() == children[ti] && p.last() == j;
            lemma_path_nodes_reachable(nodes, p, p.len() - 1);
            if nodes[j as int].id@ == id {
                assert(j == i) by {
                    if j != i {
                        assert(nodes[j as int].id@ != nodes[i as int].id@);
                    }
                }
                lemma_reaches_edge_close(nodes, children[ti], j);
                assert(properly_reaches(nodes, children[ti], children[ti]));
                assert(false);
            }
        }

        lemma_dfs_seq_closed(nodes, children, st1, (depth - 1) as nat, grey2);
        lemma_dfs_seq_frame(nodes, children, st1, (depth - 1) as nat);
        let st2 = dfs_seq(nodes, children, st1, (depth - 1) as nat);
        let stf = dfs_node(nodes, i, st, depth);
        assert(stf.order == st2.order.push(i));
        assert(stf.visited == st2.visited);
        let l0 = st.order.len() as int;
        let l2 = st2.order.len() as int;
        assert(stf.order.take(l0) =~= st2.order.take(l0));

        // The seen set is the emitted ids plus grey: the node's own id
        // moves from grey2 into the emitted ids.
        assert(order_has_id(nodes, stf.order, id)) by {
            assert(stf.order[l2] == i);
        }
        assert(stf.visited =~= order_ids(nodes, stf.order).union(grey)) by {
            assert forall|x: Seq<char>| stf.visited.contains(x) implies order_ids(
                nodes,
                stf.order,
            ).union(grey).contains(x) by {
                assert(st2.visited == order_ids(nodes, st2.order).union(grey2));
                if order_ids(nodes, st2.order).contains(x) {
                    let mx = choose|mx: int|
                        0 <= mx < st2.order.len() && nodes[(#[trigger] st2.order[mx]) as int].id@
                            == x;
                    assert(stf.order[mx] == st2.order[mx]);
                    assert(order_has_id(nodes, stf.order, x));
                }
            }
            assert forall|x: Seq<char>| order_ids(nodes, stf.order).union(grey).contains(
                x,
            ) implies stf.visited.contains(x) by {
                if order_has_id(nodes, stf.order, x) {
                    let mx = choose|mx: int|
                        0 <= mx < stf.order.len() && nodes[(#[trigger] stf.order[mx]) as int].id@
                            == x;
                    if mx < l2 {
                        assert(st2.order[mx] == stf.order[mx]);
                        assert(order_has_id(nodes, st2.order, x));
                    } else {
                        assert(stf.order[mx] == i);
                        assert(st1.visited.contains(id));
                        assert(st1.visited.subset_of(st2.visited));
                    }
                }
            }
        }

        // Distinct ids: the node's id was unseen, and everything emitted
        // before it was seen when it was emitted.
        assert forall|m1: int, m2: int| 0 <= m1 < m2 < stf.order.len() implies nodes[(
        #[trigger] stf.order[m1]) as int].id@ != nodes[(#[trigger] stf.order[m2]) as int].id@ by {
            if m2 == l2 {
                assert(stf.order[m2] == i);
                assert(stf.order[m1] == st2.order[m1]);
                if m1 < l0 {
                    assert(order_has_id(nodes, st.order, nodes[st.order[m1] as int].id@));
                    assert(st.visited.contains(nodes[st.order[m1] as int].id@));
                } else {
                    assert(!st1.visited.contains(nodes[st2.order[m1] as int].id@));
                    assert(st1.visited.contains(id));
                }
            } else {
                assert(stf.order[m1] == st2.order[m1]);
                assert(stf.order[m2] == st2.order[m2]);
            }
        }

        // Everything newly emitted is reachable from this node.
        assert forall|m: int| l0 <= m < stf.order.len() implies reaches(
            nodes,
            i,
            #[trigger] stf.order[m],
        ) by {
            if m == l2 {
                assert(stf.order[m] == i);
            } else {
                assert(stf.order[m] == st2.order[m]);
                let ti = choose|ti: int|
                    0 <= ti < children.len() && reaches(nodes, children[ti], st2.order[m]);
                assert(has_edge(nodes, i, children[ti]));
                lemma_reaches_step(nodes, i, children[ti], st2.order[m]);
            }
        }

        // Everything reachable from this node has been seen.
        assert forall|j: usize| reaches(nodes, i, j) implies stf.visited.contains(
            nodes[j as int].id@,
        ) by {
            let p = choose|p: Seq<usize>|
                #[trigger] is_dep_path(nodes, p) && p.first() == i && p.last() == j;
            if p.len() == 1 {
                assert(j == i);
                assert(st1.visited.contains(id));
                assert(st1.visited.subset_of(st2.visited));
            } else {
                let c = p[1];
                assert(has_edge(nodes, i, c));
                let ti = choose|ti: int| 0 <= ti < children.len() && children[ti] == c;
                assert(is_dep_path(nodes, p.drop_first()));
                assert(p.drop_first().first() == c && p.drop_first().last() == j);
                assert(reaches(nodes, children[ti], j));
                assert(st2.visited.contains(nodes[j as int].id@));
            }
        }

        // The new order is closed against the old grey set.
        assert forall|m: int, c: usize|
            0 <= m < stf.order.len() && #[trigger] has_edge(nodes, stf.order[m], c) implies grey.contains(
            nodes[c as int].id@,
        ) || order_has_id(nodes, stf.order.take(m), nodes[c as int].id@) by {
            assert((c as int) < nodes.len()) by {
                if m == l2 {
                    assert(wf_children(nodes[i as int].children@, nodes.len()));
                    let tc = choose|tc: int| 0 <= tc < children.len() && children[tc] == c;
                    assert((children[tc] as nat) < nodes.len());
                } else {
                    assert(stf.order[m] == st2.order[m]);
                    let tc = choose|tc: int|
                        0 <= tc < nodes[st2.order[m] as int].children@.len()
                            && nodes[st2.order[m] as int].children@[tc] == c;
                    assert((nodes[st2.order[m] as int].children@[tc] as nat) < nodes.len());
                }
            }
            if m == l2 {
                // The freshly emitted node: each child was fully visited.
                assert(stf.order[m] == i);
                let ti = choose|ti: int| 0 <= ti < children.len() && children[ti] == c;
                lemma_reaches_refl(nodes, c);
                assert(reaches(nodes, children[ti], c));
                assert(st2.visited.contains(nodes[c as int].id@));
                if !grey.contains(nodes[c as int].id@) {
                    if nodes[c as int].id@ == id {
                        assert(c == i) by {
                            if c != i {
                                assert(nodes[c as int].id@ != nodes[i as int].id@);
                            }
                        }
                        lemma_reaches_edge_close(nodes, c, c);
                        assert(false);
                    }
                    assert(order_has_id(nodes, st2.order, nodes[c as int].id@));
                    let mx = choose|mx: int|
                        0 <= mx < st2.order.len() && nodes[(#[trigger] st2.order[mx]) as int].id@
                            == nodes[c as int].id@;
                    assert(stf.order.take(m)[mx] == st2.order[mx]);
                    assert(order_has_id(nodes, stf.order.take(m), nodes[c as int].id@));
                }
            } else {
                assert(stf.order[m] == st2.order[m]);
                assert(has_edge(nodes, st2.order[m], c));
                assert(order_closed(nodes, st2.order, grey2));
                if grey2.contains(nodes[c as int].id@) && !grey.contains(nodes[c as int].id@) {
                    // The edge would point back at the node under visit,
                    // closing a cycle.
                    assert(nodes[c as int].id@ == id);
                    assert(c == i) by {
                        if c != i {
                            assert(nodes[c as int].id@ != nodes[i as int].id@);
                        }
                    }
                    if m < l0 {
                        assert(has_edge(nodes, st.order[m], i));
                        assert(order_closed(nodes, st.order, grey));
                        assert(grey.contains(id) || order_has_id(
                            nodes,
                            st.order.take(m),
                            nodes[i as int].id@,
                        ));
                        let mx = choose|mx: int|
                            0 <= mx < st.order.take(m).len() && nodes[(#[trigger] st.order.take(
                                m,
                            )[mx]) as int].id@ == id;
                        assert(st.order[mx] == st.order.take(m)[mx]);
                        assert(order_has_id(nodes, st.order, id));
                        assert(st.visited.contains(id));
                        assert(false);
                    } else {
                        assert(reaches(nodes, i, st2.order[m]));
                        lemma_reaches_edge_close(nodes, i, st2.order[m]);
                        assert(false);
                    }
                } else if !grey2.contains(nodes[c as int].id@) {
                    assert(order_has_id(nodes, st2.order.take(m), nodes[c as int].id@));
                    let mx = choose|mx: int|
                        0 <= mx < st2.order.take(m).len() && nodes[(#[trigger] st2.order.take(
                            m,
                        )[mx]) as int].id@ == nodes[c as int].id@;
                    assert(st2.order.take(m)[mx] == st2.order[mx]);
                    assert(stf.order.take(m)[mx] == st2.order[mx]);
                    assert(order_has_id(nodes, stf.order.take(m), nodes[c as int].id@));
                }
            }
        }
        assert(state_inv(nodes, stf, grey));
        assert(stf.order.take(l0) == st.order) by {
            assert(st2.order.take(l0) == st.order);
        }
    }
}

/// The list form of [`lemma_dfs_node_closed`].
pub proof fn lemma_dfs_seq_closed(
    nodes: Seq<Node>,
    todo: Seq<usize>,
    st: DfsState,
    depth: nat,
    grey: Set<Seq<char>>,
)
    requires
        wf_nodes(nodes),
        unique_ids(nodes),
        acyclic(nodes),
        wf_children(todo, nodes.len()),
        depth >= unvisited_count(nodes, st.visited) + 1,
        state_inv(nodes, st, grey),
        forall|ti: int, j: usize|
            0 <= ti < todo.len() && #[trigger] reaches(nodes, todo[ti], j) ==> !grey.contains(
                nodes[j as int].id@,
            ),
    ensures
        ({
            let st2 = dfs_seq(nodes, todo, st, depth);
            &&& state_inv(nodes, st2, grey)
            &&& st2.order.len() >= st.order.len()
            &&& st2.order.take(st.order.len() as int) == st.order
            &&& (forall|ti: int, j: usize|
                0 <= ti < todo.len() && #[trigger] reaches(nodes, todo[ti], j)
                    ==> st2.visited.contains(nodes[j as int].id@))
            &&& (forall|m: int|
                st.order.len() <= m < st2.order.len() ==> exists|ti: int|
                    0 <= ti < todo.len() && reaches(nodes, todo[ti], #[trigger] st2.order[m]))
        }),
    decreases depth, 1nat, todo.len(),
{
    let stf = dfs_seq(nodes, todo, st, depth);
    if todo.len() == 0 {
        assert(stf == st);
        assert(st.order.take(st.order.len() as int) =~= st.order);
    } else {
        assert((todo[0] as nat) < nodes.len());
        assert forall|j: usize| reaches(nodes, todo[0], j) implies !grey.contains(
            nodes[j as int].id@,
        ) by {
            assert(reaches(nodes, todo[0], j));
        }
        lemma_dfs_node_closed(nodes, todo[0], st, depth, grey);
        lemma_dfs_node_frame(nodes, todo[0], st, depth);
        let st1 = dfs_node(nodes, todo[0], st, depth);
        lemma_unvisited_monotone(nodes, st.visited, st1.visited);
        let rest = todo.drop_first();
        assert forall|k: int| 0 <= k < rest.len() implies ((#[trigger] rest[k]) as nat)
            < nodes.len() by {
            assert(rest[k] == todo[k + 1]);
        }
        assert forall|ti: int, j: usize|
            0 <= ti < rest.len() && #[trigger] reaches(nodes, rest[ti], j) implies !grey.contains(
            nodes[j as int].id@,
        ) by {
            assert(rest[ti] == todo[ti + 1]);
            assert(reaches(nodes, todo[ti + 1], j));
        }
        lemma_dfs_seq_closed(nodes, rest, st1, depth, grey);
        lemma_dfs_seq_frame(nodes, rest, st1, depth);
        let st2 = dfs_seq(nodes, rest, st1, depth);
        assert(stf == st2);
        let l0 = st.order.len() as int;
        let l1 = st1.order.len() as int;
        assert(st2.order.take(l0) =~= st1.order.take(l0)) by {
            assert(st2.order.take(l1) == st1.order);
            assert forall|k: int| 0 <= k < l0 implies st2.order.take(l0)[k] == st1.order.take(
                l0,
            )[k] by {
                assert(st2.order.take(l1)[k] == st1.order[k]);
            }
        }
        assert forall|ti: int, j: usize|
            0 <= ti < todo.len() && #[trigger] reaches(nodes, todo[ti], j) implies st2.visited.contains(
            nodes[j as int].id@,
        ) by {
            if ti == 0 {
                assert(st1.visited.contains(nodes[j as int].id@));
                assert(st1.visited.subset_of(st2.visited));
            } else {
                assert(rest[ti - 1] == todo[ti]);
                assert(reaches(nodes, rest[ti - 1], j));
            }
        }
        assert forall|m: int| l0 <= m < st2.order.len() implies exists|ti: int|
            0 <= ti < todo.len() && reaches(nodes, todo[ti], #[trigger] st2.order[m]) by {
            if m < l1 {
                assert(st2.order.take(l1)[m] == st1.order[m]);
                assert(st2.order[m] == st1.order[m]);
                assert(reaches(nodes, todo[0], st1.order[m]));
            } else {
                let ti = choose|ti: int|
                    0 <= ti < rest.len() && reaches(nodes, rest[ti], st2.order[m]);
                assert(rest[ti] == todo[ti + 1]);
                assert(reaches(nodes, todo[ti + 1], st2.order[m]));
            }
        }
    }
}

/// Any two sufficient nesting bounds give the same traversal: one level
/// per fresh id is all the traversal ever needs.
pub proof fn lemma_dfs_node_depth(nodes: Seq<Node>, i: usize, st: DfsState, d1: nat, d2: nat)
    requires
        wf_nodes(nodes),
        (i as int) < nodes.len(),
        d1 >= unvisited_count(nodes, st.visited) + 1,
        d2 >= unvisited_count(nodes, st.visited) + 1,
    ensures
        dfs_node(nodes, i, st, d1) == dfs_node(nodes, i, st, d2),
    decreases d1 + d2, 0nat, 0nat,
{
    let id = nodes[i as int].id@;
    if !st.visited.contains(id) {
        let st1 = DfsState { visited: st.visited.insert(id), order: st.order };
        lemma_id_in_all(nodes, i as int);
        lemma_unvisited_insert_fresh(nodes, st.visited, id);
        let children = nodes[i as int].children@;
        lemma_dfs_seq_depth(nodes, children, st1, (d1 - 1) as nat, (d2 - 1) as nat);
    }
}

/// The list form of [`lemma_dfs_node_depth`].
pub proof fn lemma_dfs_seq_depth(nodes: Seq<Node>, todo: Seq<usize>, st: DfsState, d1: nat, d2: nat)
    requires
        wf_nodes(nodes),
        wf_children(todo, nodes.len()),
        d1 >= unvisited_count(nodes, st.visited) + 1,
        d2 >= unvisited_count(nodes, st.visited) + 1,
    ensures
        dfs_seq(nodes, todo, st, d1) == dfs_seq(nodes, todo, st, d2),
    decreases d1 + d2, 1nat, todo.len(),
{
    if todo.len() > 0 {
        assert((todo[0] as nat) < nodes.len());
        lemma_dfs_node_depth(nodes, todo[0], st, d1, d2);
        let st1 = dfs_node(nodes, todo[0], st, d1);
        lemma_dfs_node_frame(nodes, todo[0], st, d1);
        lemma_unvisited_monotone(nodes, st.visited, st1.visited);
        let rest = todo.drop_first();
        assert forall|k: int| 0 <= k < rest.len() implies ((#[trigger] rest[k]) as nat)
            < nodes.len() by {
            assert(rest[k] == todo[k + 1]);
        }
        lemma_dfs_seq_depth(nodes, rest, st1, d1, d2);
    }
}

/// The traversal reads only ids and edges, never the packages carried
/// along.
proof fn lemma_dfs_node_skeleton(n1: Seq<Node>, n2: Seq<Node>, i: usize, st: DfsState, depth: nat)
    requires
        wf_nodes(n1),
        n1.len() == n2.len(),
        forall|t: int|
            0 <= t < n1.len() ==> (#[trigger] n1[t]).id@ == n2[t].id@ && n1[t].children@
                == n2[t].children@,
        (i as int) < n1.len(),
    ensures
        dfs_node(n1, i, st, depth) == dfs_node(n2, i, st, depth),
    decreases depth, 0nat, 0nat,
{
    if depth != 0 && !st.visited.contains(n1[i as int].id@) {
        let st1 = DfsState { visited: st.visited.insert(n1[i as int].id@), order: st.order };
        assert(wf_children(n1[i as int].children@, n1.len()));
        lemma_dfs_seq_skeleton(n1, n2, n1[i as int].children@, st1, (depth - 1) as nat);
    }
}

/// The list form of [`lemma_dfs_node_skeleton`].
proof fn lemma_dfs_seq_skeleton(
    n1: Seq<Node>,
    n2: Seq<Node>,
    todo: Seq<usize>,
    st: DfsState,
    depth: nat,
)
    requires
        wf_nodes(n1),
        n1.len() == n2.len(),
        forall|t: int|
            0 <= t < n1.len() ==> (#[trigger] n1[t]).id@ == n2[t].id@ && n1[t].children@
                == n2[t].children@,
        wf_children(todo, n1.len()),
    ensures
        dfs_seq(n1, todo, st, depth) == dfs_seq(n2, todo, st, depth),
    decreases depth, 1nat, todo.len(),
{
    if todo.len() > 0 {
        assert((todo[0] as nat) < n1.len());
        lemma_dfs_node_skeleton(n1, n2, todo[0], st, depth);
        let st1 = dfs_node(n1, todo[0], st, depth);
        let rest = todo.drop_first();
        assert forall|k: int| 0 <= k < rest.len() implies ((#[trigger] rest[k]) as nat)
            < n1.len() by {
            assert(rest[k] == todo[k + 1]);
        }
        lemma_dfs_seq_skeleton(n1, n2, rest, st1, depth);
    }
}

/// Determinism: two graphs built from the same package list carry the same
/// ids and edges, and so yield the same overall build order, with the same
/// packages along it.
pub proof fn lemma_build_order_deterministic(
    packages: Seq<PackageModel>,
    nodes1: Seq<Node>,
    nodes2: Seq<Node>,
)
    requires
        graph_of(packages, nodes1),
        wf_nodes(nodes1),
        graph_of(packages, nodes2),
        wf_nodes(nodes2),
    ensures
        spec_overall_order(nodes1) == spec_overall_order(nodes2),
        spec_overall_order(nodes1).map_values(|k: usize| nodes1[k as int].package@)
            == spec_overall_order(nodes2).map_values(|k: usize| nodes2[k as int].package@),
{
    assert forall|t: int|
        0 <= t < nodes1.len() implies (#[trigger] nodes1[t]).id@ == nodes2[t].id@
        && nodes1[t].children@ == nodes2[t].children@ by {
        if t >= 1 {
            assert(nodes1[t].id@ == packages[t - 1].name);
            assert(nodes2[t].id@ == packages[t - 1].name);
        }
    }
    assert(wf_children(nodes1[0].children@, nodes1.len()));
    lemma_dfs_seq_skeleton(nodes1, nodes2, nodes1[0].children@, init_state(), depth0(nodes1));
    let order = spec_overall_order(nodes1);
    assert(spec_overall_order(nodes2) == order);
    lemma_dfs_seq_frame(nodes1, nodes1[0].children@, init_state(), depth0(nodes1));
    assert forall|m: int| 0 <= m < order.len() implies nodes1[(#[trigger] order[m]) as int].package@
        == nodes2[order[m] as int].package@ by {
        let k = order[m] as int;
        if k == 0 {
            assert(is_root_package(nodes1[0].package@));
            assert(is_root_package(nodes2[0].package@));
        } else {
            assert(nodes1[k].package@ == packages[k - 1]);
            assert(nodes2[k].package@ == packages[k - 1]);
        }
    }
    assert(order.map_values(|k: usize| nodes1[k as int].package@) =~= order.map_values(
        |k: usize| nodes2[k as int].package@,
    ));
}

/// Dedup: however many paths lead to a package, any node's dependency
/// build order — the overall order is the root's — emits only nodes of
/// the arena, and each id at most once.
pub proof fn lemma_build_order_dedup(nodes: Seq<Node>, i: usize)
    requires
        wf_nodes(nodes),
        (i as int) < nodes.len(),
    ensures
        ({
            let order = spec_dependency_order(nodes, i);
            &&& (forall|m: int|
                0 <= m < order.len() ==> ((#[trigger] order[m]) as int) < nodes.len())
            &&& (forall|m1: int, m2: int|
                0 <= m1 < m2 < order.len() ==> nodes[(#[trigger] order[m1]) as int].id@ != nodes[(
                #[trigger] order[m2]) as int].id@)
        }),
{
    assert(wf_children(nodes[i as int].children@, nodes.len()));
    lemma_dfs_seq_frame(nodes, nodes[i as int].children@, init_state(), depth0(nodes));
}

/// Topological correctness: in a workspace graph whose packages carry
/// distinct names and whose dependencies form no cycle, every package
/// stands in the overall build order, and everything a package
/// transitively depends on stands strictly before it.
pub proof fn lemma_build_order_topological(nodes: Seq<Node>)
    requires
        wf_nodes(nodes),
        nodes.len() >= 1,
        nodes[0].children@ == Seq::new((nodes.len() - 1) as nat, |k: int| (k + 1) as usize),
        unique_ids(nodes),
        acyclic(nodes),
    ensures
        ({
            let order = spec_overall_order(nodes);
            &&& (forall|j: usize| 1 <= j < nodes.len() ==> order.contains(j))
            &&& (forall|mp: int, d: usize|
                0 <= mp < order.len() && #[trigger] properly_reaches(nodes, order[mp], d)
                    ==> exists|md: int| 0 <= md < mp && order[md] == d)
        }),
{
    let children = nodes[0].children@;
    assert(wf_children(children, nodes.len()));
    let st0 = init_state();
    let grey = Set::<Seq<char>>::empty();
    assert(st0.visited =~= order_ids(nodes, st0.order).union(grey));
    assert(state_inv(nodes, st0, grey));
    lemma_unvisited_le(nodes, st0.visited);
    lemma_dfs_seq_closed(nodes, children, st0, depth0(nodes), grey);
    let stf = dfs_seq(nodes, children, st0, depth0(nodes));
    let order = stf.order;
    assert(order == spec_overall_order(nodes));

    assert forall|j: usize| 1 <= j < nodes.len() implies order.contains(j) by {
        let ti = j - 1;
        assert(children[ti as int] == j);
        lemma_reaches_refl(nodes, j);
        assert(reaches(nodes, children[ti as int], j));
        assert(stf.visited.contains(nodes[j as int].id@));
        assert(order_has_id(nodes, order, nodes[j as int].id@));
        let m = choose|m: int|
            0 <= m < order.len() && nodes[(#[trigger] order[m]) as int].id@ == nodes[j as int].id@;
        assert(order[m] == j) by {
            if order[m] != j {
                assert(nodes[order[m] as int].id@ != nodes[j as int].id@);
            }
        }
        assert(order.contains(j));
    }

    assert forall|mp: int, d: usize|
        0 <= mp < order.len() && #[trigger] properly_reaches(nodes, order[mp], d) implies exists|
        md: int,
    | 0 <= md < mp && order[md] == d by {
        let p = choose|p: Seq<usize>|
            #[trigger] is_dep_path(nodes, p) && p.len() >= 2 && p.first() == order[mp] && p.last()
                == d;
        lemma_path_nodes_reachable(nodes, p, p.len() - 1);
        lemma_closed_reach(nodes, order, grey, mp, p);
        let md = choose|md: int|
            0 <= md < order.take(mp).len() && nodes[(#[trigger] order.take(mp)[md]) as int].id@
                == nodes[d as int].id@;
        assert(order.take(mp)[md] == order[md]);
        assert(order[md] == d) by {
            if order[md] != d {
                assert(nodes[order[md] as int].id@ != nodes[d as int].id@);
            }
        }
    }
}

/// The topological law at the workspace level: a graph built from packages
/// whose names are pairwise distinct, none of them `root`, and whose
/// dependencies form no cycle orders every package after all of its
/// transitive dependencies.
pub proof fn lemma_workspace_order_topological(packages: Seq<PackageModel>, nodes: Seq<Node>)
    requires
        graph_of(packages, nodes),
        wf_nodes(nodes),
        forall|i: int, j: int|
            0 <= i < j < packages.len() ==> (#[trigger] packages[i]).name != (
            #[trigger] packages[j]).name,
        forall|i: int| 0 <= i < packages.len() ==> (#[trigger] packages[i]).name != "root"@,
        acyclic(nodes),
    ensures
        ({
            let order = spec_overall_order(nodes);
            &&& (forall|j: usize| 1 <= j < nodes.len() ==> order.contains(j))
            &&& (forall|mp: int, d: usize|
                0 <= mp < order.len() && #[trigger] properly_reaches(nodes, order[mp], d)
                    ==> exists|md: int| 0 <= md < mp && order[md] == d)
        }),
{
    assert(unique_ids(nodes)) by {
        assert forall|i: int, j: int| 0 <= i < j < nodes.len() implies nodes[i].id@
            != nodes[j].id@ by {
            if i == 0 {
                assert(nodes[j].id@ == packages[j - 1].name);
            } else {
                assert(nodes[i].id@ == packages[i - 1].name);
                assert(nodes[j].id@ == packages[j - 1].name);
            }
        }
    }
    assert(nodes[0].children@ =~= Seq::new((nodes.len() - 1) as nat, |k: int| (k + 1) as usize));
    lemma_build_order_topological(nodes);
}

} // verus!
