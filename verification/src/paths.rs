//! Paths and breadth-first traversals over a fixed list of directed edges.
//!
//! A [`Steps`] value says which edges a traversal may follow. [`breadth_first`] says what a
//! breadth-first traversal is; for given edges and a given root there is exactly one, and the
//! paths it finds are shortest.

use vstd::prelude::*;

verus! {

/// The directed edges over nodes `0..nodes`, by edge number, and which of them may be followed.
#[verifier::ext_equal]
pub struct Steps {
    /// The number of nodes.
    pub nodes: int,
    /// Source and target of every edge.
    pub edges: Seq<(int, int)>,
    /// The numbers of the edges that may be followed.
    pub live: Set<int>,
}

impl Steps {
    /// Whether edge `edge` may be followed from `from` to `to`.
    pub open spec fn step(self, edge: int, from: int, to: int) -> bool {
        0 <= edge < self.edges.len() && self.edges[edge] == (from, to) && self.live.contains(edge)
    }

    /// Whether some edge may be followed from `from` to `to`.
    pub open spec fn linked(self, from: int, to: int) -> bool {
        exists|edge: int| self.step(edge, from, to)
    }

    /// Whether every edge joins two nodes.
    pub open spec fn bounded(self) -> bool {
        forall|edge: int|
            0 <= edge < self.edges.len() ==> 0 <= (#[trigger] self.edges[edge]).0 < self.nodes && 0
                <= self.edges[edge].1 < self.nodes
    }

    /// Whether `path` is a non-empty sequence of nodes, each linked to the next.
    pub open spec fn is_path(self, path: Seq<int>) -> bool {
        &&& path.len() > 0
        &&& forall|i: int|
            #![trigger path[i]]
            0 <= i < path.len() - 1 ==> self.linked(path[i], path[i + 1])
    }

    /// Whether `path` leads from `from` to `to`.
    pub open spec fn leads(self, path: Seq<int>, from: int, to: int) -> bool {
        self.is_path(path) && path[0] == from && path.last() == to
    }

    /// Whether some path leads from `from` to `to`.
    pub open spec fn reaches(self, from: int, to: int) -> bool {
        exists|path: Seq<int>| self.leads(path, from, to)
    }
}

/// The record of a traversal: the nodes in the order they were found, and for each of them
/// the position of the node it was found from and the edge it was found by.
#[verifier::ext_equal]
pub struct Trail {
    /// The nodes, in the order they were found.
    pub order: Seq<int>,
    /// The position in `order` of the node that each node was found from; 0 for the root.
    pub from: Seq<int>,
    /// The edge that each node was found by; 0 for the root.
    pub via: Seq<int>,
}

/// Whether `(k, e)` is scanned no later than `(l, f)`: nodes in the order they were found, and
/// the edges of one node by their numbers.
pub open spec fn no_later(k: int, e: int, l: int, f: int) -> bool {
    k < l || (k == l && e <= f)
}

/// Whether the sequences of `trail` fit together and start at `root`.
pub open spec fn rooted(trail: Trail, root: int) -> bool {
    &&& trail.order.len() == trail.from.len() == trail.via.len()
    &&& trail.order.len() > 0
    &&& trail.order[0] == root
    &&& trail.from[0] == 0
    &&& trail.via[0] == 0
    &&& trail.order.no_duplicates()
}

/// Whether every node but the root was found by an edge from an earlier node.
pub open spec fn discovered(steps: Steps, trail: Trail) -> bool {
    forall|i: int|
        #![trigger trail.from[i]]
        0 < i < trail.order.len() ==> 0 <= trail.from[i] < i && steps.step(
            trail.via[i],
            trail.order[trail.from[i]],
            trail.order[i],
        )
}

/// Whether the nodes stand in the order in which they were found.
pub open spec fn in_order(trail: Trail) -> bool {
    forall|i: int, j: int|
        #![trigger trail.from[i], trail.from[j]]
        0 < i < j < trail.order.len() ==> no_later(
            trail.from[i],
            trail.via[i],
            trail.from[j],
            trail.via[j],
        )
}

/// Whether every node was found by the first edge that leads to it.
pub open spec fn found_first(steps: Steps, trail: Trail) -> bool {
    forall|i: int, k: int, e: int|
        #![trigger steps.step(e, trail.order[k], trail.order[i])]
        0 < i < trail.order.len() && 0 <= k < trail.order.len() && steps.step(
            e,
            trail.order[k],
            trail.order[i],
        ) ==> no_later(trail.from[i], trail.via[i], k, e)
}

/// Whether no edge leads out of the nodes that were found.
pub open spec fn exhausted(steps: Steps, trail: Trail) -> bool {
    forall|k: int, e: int, v: int|
        #![trigger steps.step(e, trail.order[k], v)]
        0 <= k < trail.order.len() && steps.step(e, trail.order[k], v) ==> trail.order.contains(v)
}

/// Whether `trail` is the breadth-first traversal of `steps` from `root` that scans the edges
/// of a node by their numbers.
pub open spec fn breadth_first(steps: Steps, root: int, trail: Trail) -> bool {
    &&& rooted(trail, root)
    &&& discovered(steps, trail)
    &&& in_order(trail)
    &&& found_first(steps, trail)
    &&& exhausted(steps, trail)
}

/// The breadth-first traversal of `steps` from `root`.
pub open spec fn traversal(steps: Steps, root: int) -> Trail {
    choose|trail: Trail| breadth_first(steps, root, trail)
}

/// The path by which the node at position `i` was found, from the root to that node.
pub open spec fn trail_path(trail: Trail, i: int) -> Seq<int>
    decreases i,
{
    if i <= 0 || trail.from[i] < 0 || trail.from[i] >= i {
        seq![trail.order[0]]
    } else {
        trail_path(trail, trail.from[i]).push(trail.order[i])
    }
}

/// The position of `node` among the nodes that were found.
pub open spec fn position(trail: Trail, node: int) -> int {
    choose|i: int| 0 <= i < trail.order.len() && trail.order[i] == node
}

/// Two breadth-first traversals from one root agree up to any position.
proof fn traversals_agree(steps: Steps, root: int, a: Trail, b: Trail, upto: int)
    requires
        breadth_first(steps, root, a),
        breadth_first(steps, root, b),
        0 <= upto <= a.order.len(),
    ensures
        upto <= b.order.len(),
        forall|i: int|
            0 <= i < upto ==> #[trigger] a.order[i] == b.order[i] && a.from[i] == b.from[i]
                && a.via[i] == b.via[i],
    decreases upto,
{
    if upto > 0 {
        let i = upto - 1;
        traversals_agree(steps, root, a, b, i);
        if i > 0 {
            let v = a.order[i];
            assert(steps.step(a.via[i], a.order[a.from[i]], a.order[i]));
            assert(a.order[a.from[i]] == b.order[a.from[i]]);
            assert(steps.step(a.via[i], b.order[a.from[i]], v));
            assert(b.order.contains(v));
            let j = choose|j: int| 0 <= j < b.order.len() && b.order[j] == v;
            assert(j >= i) by {
                if j < i {
                    assert(a.order[j] == b.order[j]);
                }
            }
            assert(no_later(b.from[j], b.via[j], a.from[i], a.via[i]));
            assert(no_later(b.from[i], b.via[i], b.from[j], b.via[j]));
            // The same the other way round.
            let w = b.order[i];
            assert(steps.step(b.via[i], b.order[b.from[i]], b.order[i]));
            assert(a.order[b.from[i]] == b.order[b.from[i]]);
            assert(steps.step(b.via[i], a.order[b.from[i]], w));
            assert(a.order.contains(w));
            let l = choose|l: int| 0 <= l < a.order.len() && a.order[l] == w;
            assert(l >= i) by {
                if l < i {
                    assert(a.order[l] == b.order[l]);
                }
            }
            assert(no_later(a.from[l], a.via[l], b.from[i], b.via[i]));
            assert(no_later(a.from[i], a.via[i], a.from[l], a.via[l]));
        }
    }
}

/// A breadth-first traversal is determined by its edges and its root.
pub proof fn traversal_is_unique(steps: Steps, root: int, a: Trail, b: Trail)
    requires
        breadth_first(steps, root, a),
        breadth_first(steps, root, b),
    ensures
        a == b,
{
    traversals_agree(steps, root, a, b, a.order.len() as int);
    traversals_agree(steps, root, b, a, b.order.len() as int);
    assert(a =~= b) by {
        assert(a.order =~= b.order);
        assert forall|i: int| 0 <= i < a.from.len() implies a.from[i] == b.from[i] && a.via[i]
            == b.via[i] by {
            assert(a.order[i] == b.order[i]);
        }
        assert(a.from =~= b.from);
        assert(a.via =~= b.via);
    }
}

/// What was found by a breadth-first traversal is its traversal.
pub proof fn traversal_is(steps: Steps, root: int, trail: Trail)
    requires
        breadth_first(steps, root, trail),
    ensures
        traversal(steps, root) == trail,
        breadth_first(steps, root, traversal(steps, root)),
{
    traversal_is_unique(steps, root, traversal(steps, root), trail);
}

/// The path to a node that was found is a path from the root to it.
pub proof fn trail_path_leads(steps: Steps, root: int, trail: Trail, i: int)
    requires
        rooted(trail, root),
        discovered(steps, trail),
        0 <= i < trail.order.len(),
    ensures
        steps.leads(trail_path(trail, i), root, trail.order[i]),
        i > 0 ==> trail_path(trail, i) == trail_path(trail, trail.from[i]).push(trail.order[i]),
    decreases i,
{
    if i > 0 {
        let k = trail.from[i];
        trail_path_leads(steps, root, trail, k);
        let path = trail_path(trail, i);
        let before = trail_path(trail, k);
        assert(path == before.push(trail.order[i]));
        assert(steps.linked(before.last(), trail.order[i]));
        assert forall|j: int| 0 <= j < path.len() - 1 implies steps.linked(
            #[trigger] path[j],
            path[j + 1],
        ) by {
            if j < before.len() - 1 {
                assert(path[j] == before[j]);
                assert(path[j + 1] == before[j + 1]);
            } else {
                assert(path[j] == before.last());
            }
        }
    }
}

/// Later nodes are not nearer to the root.
pub proof fn later_is_no_nearer(steps: Steps, root: int, trail: Trail, i: int, j: int)
    requires
        breadth_first(steps, root, trail),
        0 <= i <= j < trail.order.len(),
    ensures
        trail_path(trail, i).len() <= trail_path(trail, j).len(),
    decreases j,
{
    trail_path_leads(steps, root, trail, i);
    trail_path_leads(steps, root, trail, j);
    if i > 0 {
        if i < j {
            assert(no_later(trail.from[i], trail.via[i], trail.from[j], trail.via[j]));
        }
        later_is_no_nearer(steps, root, trail, trail.from[i], trail.from[j]);
    }
}

/// Every node on a path from the root was found, and not farther from the root than the path
/// says.
proof fn path_is_found(steps: Steps, root: int, trail: Trail, path: Seq<int>, upto: int)
    requires
        breadth_first(steps, root, trail),
        steps.is_path(path),
        path[0] == root,
        0 <= upto < path.len(),
    ensures
        trail.order.contains(path[upto]),
        trail_path(trail, position(trail, path[upto])).len() <= upto + 1,
    decreases upto,
{
    if upto == 0 {
        assert(trail.order[0] == root);
        assert(position(trail, root) == 0);
    } else {
        path_is_found(steps, root, trail, path, upto - 1);
        let k = position(trail, path[upto - 1]);
        assert(trail.order[k] == path[upto - 1]);
        let (u, v) = (path[upto - 1], path[upto]);
        assert(steps.linked(u, path[upto - 1 + 1]));
        let e = choose|e: int| steps.step(e, u, v);
        assert(steps.step(e, trail.order[k], v));
        assert(trail.order.contains(path[upto]));
        let i = position(trail, path[upto]);
        assert(trail.order[i] == path[upto]);
        if i > 0 {
            assert(steps.step(e, trail.order[k], trail.order[i]));
            assert(no_later(trail.from[i], trail.via[i], k, e));
            trail_path_leads(steps, root, trail, i);
            later_is_no_nearer(steps, root, trail, trail.from[i], k);
        }
    }
}

/// A breadth-first traversal finds exactly the nodes that the root reaches.
pub proof fn traversal_finds_what_is_reached(steps: Steps, root: int, trail: Trail, node: int)
    requires
        breadth_first(steps, root, trail),
    ensures
        trail.order.contains(node) == steps.reaches(root, node),
{
    if trail.order.contains(node) {
        trail_path_leads(steps, root, trail, position(trail, node));
        assert(steps.leads(trail_path(trail, position(trail, node)), root, node));
    }
    if steps.reaches(root, node) {
        let path = choose|path: Seq<int>| steps.leads(path, root, node);
        path_is_found(steps, root, trail, path, path.len() - 1);
    }
}

/// The path by which a node was found is a shortest one.
pub proof fn trail_path_is_shortest(
    steps: Steps,
    root: int,
    trail: Trail,
    node: int,
    path: Seq<int>,
)
    requires
        breadth_first(steps, root, trail),
        steps.leads(path, root, node),
    ensures
        trail.order.contains(node),
        trail_path(trail, position(trail, node)).len() <= path.len(),
{
    path_is_found(steps, root, trail, path, path.len() - 1);
}

/// Whether edge `e` of the node at position `k` was scanned, when the nodes before position
/// `head` are done and of that node's edges those below `limit`.
pub open spec fn scanned(head: int, limit: int, k: int, e: int) -> bool {
    k < head || (k == head && e < limit)
}

/// What holds of a breadth-first search at any time.
#[verifier::opaque]
pub open spec fn searching(steps: Steps, root: int, trail: Trail, head: int, limit: int) -> bool {
    &&& rooted(trail, root)
    &&& discovered(steps, trail)
    &&& in_order(trail)
    &&& found_first(steps, trail)
    &&& forall|i: int|
        #![trigger trail.from[i]]
        0 < i < trail.order.len() ==> scanned(head, limit, trail.from[i], trail.via[i])
    &&& forall|k: int, e: int, v: int|
        #![trigger steps.step(e, trail.order[k], v)]
        0 <= k < trail.order.len() && scanned(head, limit, k, e) && steps.step(e, trail.order[k], v)
            ==> trail.order.contains(v)
}

/// The trail after node `to` was found from position `head` by edge `e`.
pub open spec fn extended(trail: Trail, to: int, head: int, e: int) -> Trail {
    Trail { order: trail.order.push(to), from: trail.from.push(head), via: trail.via.push(e) }
}

/// A search that finds a new node by edge `e` goes on with the edge after it.
pub proof fn search_finds(steps: Steps, root: int, trail: Trail, head: int, e: int, to: int)
    requires
        searching(steps, root, trail, head, e),
        0 <= head < trail.order.len(),
        steps.step(e, trail.order[head], to),
        !trail.order.contains(to),
    ensures
        searching(steps, root, extended(trail, to, head, e), head, e + 1),
{
    reveal(searching);
    let new = extended(trail, to, head, e);
    let last = trail.order.len() as int;
    assert forall|k: int, f: int, v: int|
        #![trigger steps.step(f, new.order[k], v)]
        0 <= k < new.order.len() && scanned(head, e + 1, k, f) && steps.step(f, new.order[k], v)
        implies new.order.contains(v) by {
        assert(steps.step(f, trail.order[k], v));
        if scanned(head, e, k, f) {
            assert(trail.order.contains(v));
            let i = choose|i: int| 0 <= i < trail.order.len() && trail.order[i] == v;
            assert(new.order[i] == v);
        } else {
            assert(v == to);
            assert(new.order[last] == to);
        }
    }
    assert(discovered(steps, new)) by {
        assert forall|i: int| #![trigger new.from[i]] 0 < i < new.order.len() implies 0
            <= new.from[i] < i && steps.step(new.via[i], new.order[new.from[i]], new.order[i]) by {
            if i < last {
                assert(new.from[i] == trail.from[i]);
            }
        }
    }
    assert(in_order(new)) by {
        assert forall|i: int, j: int|
            #![trigger new.from[i], new.from[j]]
            0 < i < j < new.order.len() implies no_later(
            new.from[i],
            new.via[i],
            new.from[j],
            new.via[j],
        ) by {
            assert(new.from[i] == trail.from[i]);
            if j < last {
                assert(new.from[j] == trail.from[j]);
            }
        }
    }
    assert(found_first(steps, new)) by {
        assert forall|i: int, k: int, f: int|
            #![trigger steps.step(f, new.order[k], new.order[i])]
            0 < i < new.order.len() && 0 <= k < new.order.len() && steps.step(
                f,
                new.order[k],
                new.order[i],
            ) implies no_later(new.from[i], new.via[i], k, f) by {
            if i < last && k < last {
                assert(steps.step(f, trail.order[k], trail.order[i]));
            } else if i < last {
                assert(new.from[i] == trail.from[i]);
            } else if k < last {
                assert(steps.step(f, trail.order[k], to));
            }
        }
    }
    assert forall|i: int| #![trigger new.from[i]] 0 < i < new.order.len() implies scanned(
        head,
        e + 1,
        new.from[i],
        new.via[i],
    ) by {
        if i < last {
            assert(new.from[i] == trail.from[i]);
        }
    }
}

/// A search passes over edges that lead from its head to nothing new.
pub proof fn search_skips(steps: Steps, root: int, trail: Trail, head: int, limit: int, next: int)
    requires
        searching(steps, root, trail, head, limit),
        0 <= head < trail.order.len(),
        limit <= next,
        forall|e: int, v: int|
            #![trigger steps.step(e, trail.order[head], v)]
            limit <= e < next && steps.step(e, trail.order[head], v) ==> trail.order.contains(v),
    ensures
        searching(steps, root, trail, head, next),
{
    reveal(searching);
}

/// A search that has tried every edge of its head goes on with the next node.
pub proof fn search_moves_on(steps: Steps, root: int, trail: Trail, head: int)
    requires
        searching(steps, root, trail, head, steps.edges.len() as int),
        0 <= head < trail.order.len(),
    ensures
        searching(steps, root, trail, head + 1, 0),
{
    reveal(searching);
}

/// A search whose head has passed every node found is a breadth-first traversal.
pub proof fn search_ends(steps: Steps, root: int, trail: Trail)
    requires
        searching(steps, root, trail, trail.order.len() as int, 0),
    ensures
        breadth_first(steps, root, trail),
{
    reveal(searching);
}

/// A search finds no more nodes than there are.
pub proof fn order_is_short(steps: Steps, root: int, trail: Trail, head: int, limit: int)
    requires
        steps.bounded(),
        searching(steps, root, trail, head, limit),
        0 <= root < steps.nodes,
    ensures
        trail.order.len() <= steps.nodes,
        trail.order.len() == trail.from.len() == trail.via.len(),
        trail.order.len() > 0,
        trail.order.no_duplicates(),
        forall|i: int|
            0 <= i < trail.order.len() ==> 0 <= #[trigger] trail.from[i] < trail.order.len(),
{
    reveal(searching);
    let all = vstd::set_lib::set_int_range(0, steps.nodes);
    vstd::set_lib::lemma_int_range(0, steps.nodes);
    trail.order.unique_seq_to_set();
    assert(trail.order.to_set().subset_of(all)) by {
        assert forall|v: int| trail.order.to_set().contains(v) implies all.contains(v) by {
            assert(trail.order.contains(v));
            let i = choose|i: int| 0 <= i < trail.order.len() && trail.order[i] == v;
            if i > 0 {
                assert(trail.from[i] < i);
                assert(0 <= steps.edges[trail.via[i]].1 < steps.nodes);
            }
        }
    }
    vstd::set_lib::lemma_len_subset(trail.order.to_set(), all);
}

/// A search that is under way has an end.
proof fn search_has_end(steps: Steps, root: int, trail: Trail, head: int, limit: int) -> (end: Trail)
    requires
        steps.bounded(),
        0 <= root < steps.nodes,
        searching(steps, root, trail, head, limit),
        0 <= head <= trail.order.len(),
        0 <= limit <= steps.edges.len(),
        head == trail.order.len() ==> limit == 0,
    ensures
        breadth_first(steps, root, end),
    decreases steps.nodes - head, steps.edges.len() - limit,
{
    order_is_short(steps, root, trail, head, limit);
    if head == trail.order.len() {
        search_ends(steps, root, trail);
        trail
    } else if limit == steps.edges.len() {
        search_moves_on(steps, root, trail, head);
        search_has_end(steps, root, trail, head + 1, 0)
    } else {
        let (from, to) = steps.edges[limit];
        if steps.step(limit, trail.order[head], to) && !trail.order.contains(to) {
            search_finds(steps, root, trail, head, limit, to);
            search_has_end(steps, root, extended(trail, to, head, limit), head, limit + 1)
        } else {
            search_skips(steps, root, trail, head, limit, limit + 1);
            search_has_end(steps, root, trail, head, limit + 1)
        }
    }
}

/// Every root has a breadth-first traversal.
pub proof fn traversal_exists(steps: Steps, root: int)
    requires
        steps.bounded(),
        0 <= root < steps.nodes,
    ensures
        breadth_first(steps, root, traversal(steps, root)),
{
    let trail = Trail { order: seq![root], from: seq![0int], via: seq![0int] };
    assert(searching(steps, root, trail, 0, 0)) by {
        reveal(searching);
    }
    let end = search_has_end(steps, root, trail, 0, 0);
    assert(breadth_first(steps, root, end));
}

/// With more edges to follow, a root reaches no less.
pub proof fn more_steps_reach_no_less(narrow: Steps, wide: Steps, from: int, to: int)
    requires
        narrow.edges == wide.edges,
        narrow.live.subset_of(wide.live),
        narrow.reaches(from, to),
    ensures
        wide.reaches(from, to),
{
    let path = choose|path: Seq<int>| narrow.leads(path, from, to);
    assert forall|i: int| 0 <= i < path.len() - 1 implies wide.linked(
        #[trigger] path[i],
        path[i + 1],
    ) by {
        assert(narrow.linked(path[i], path[i + 1]));
        let (u, v) = (path[i], path[i + 1]);
        let edge = choose|edge: int| narrow.step(edge, u, v);
        assert(wide.step(edge, u, v));
    }
    assert(wide.leads(path, from, to));
}

/// The edges of `steps` the other way round.
pub open spec fn reversed(steps: Steps) -> Steps {
    Steps {
        nodes: steps.nodes,
        edges: Seq::new(steps.edges.len(), |e: int| (steps.edges[e].1, steps.edges[e].0)),
        live: steps.live,
    }
}

/// A path read backwards is a path of the edges the other way round.
pub proof fn reversed_path_leads(steps: Steps, path: Seq<int>, from: int, to: int)
    requires
        steps.leads(path, from, to),
    ensures
        reversed(steps).leads(path.reverse(), to, from),
{
    let back = path.reverse();
    assert forall|i: int| 0 <= i < back.len() - 1 implies reversed(steps).linked(
        #[trigger] back[i],
        back[i + 1],
    ) by {
        let j = path.len() - 2 - i;
        assert(back[i] == path[j + 1] && back[i + 1] == path[j]);
        assert(steps.linked(path[j], path[j + 1]));
        let (u, v) = (path[j], path[j + 1]);
        let edge = choose|edge: int| steps.step(edge, u, v);
        assert(reversed(steps).step(edge, v, u));
    }
}

/// One node reaches another exactly when, with the edges the other way round, the other
/// reaches the one.
pub proof fn reversing_steps_reverses_reach(steps: Steps, from: int, to: int)
    ensures
        steps.reaches(from, to) == reversed(steps).reaches(to, from),
{
    if steps.reaches(from, to) {
        let path = choose|path: Seq<int>| steps.leads(path, from, to);
        reversed_path_leads(steps, path, from, to);
    }
    if reversed(steps).reaches(to, from) {
        let path = choose|path: Seq<int>| reversed(steps).leads(path, to, from);
        reversed_path_leads(reversed(steps), path, to, from);
        assert(reversed(reversed(steps)).edges =~= steps.edges);
        assert(reversed(reversed(steps)) =~= steps);
    }
}

} // verus!
