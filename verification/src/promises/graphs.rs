//! What a `cargo metadata` document says of the graph.

use super::policy::pushed_is_held;
use crate::graph::{
    build_fault, distinct_numbers_cover, edge_fault, edges_below, edges_fault, edges_of,
    graph_fault, graph_of, has_id, id_fault, is_normal_edge, member_fault, members_below,
    members_below_are, names_below, names_below_are, node_fault, node_with, occurs_below,
    resolve_entry, Edge,
};
use crate::metadata::{Decoded, Dep, Meta, Node, Pkg};
use vstd::prelude::*;

verus! {

/// Whether a dependency of a resolve node is a normal one: some entry of its kinds is.
pub open spec fn is_normal(dep: Dep) -> bool {
    dep.dep_kinds matches Some(Decoded::Value(kinds)) && exists|i: int|
        0 <= i < kinds@.len() && (#[trigger] kinds@[i]).kind is None
}

proof fn ids_are_unique(packages: Seq<Pkg>, upto: int)
    requires
        0 <= upto <= packages.len(),
        id_fault(packages, upto) is None,
    ensures
        forall|i: int, j: int|
            0 <= i < j < upto ==> (#[trigger] packages[i]).id@ != (#[trigger] packages[j]).id@,
    decreases upto,
{
    if upto > 0 {
        ids_are_unique(packages, upto - 1);
        assert forall|i: int, j: int| 0 <= i < j < upto implies (#[trigger] packages[i]).id@ != (
        #[trigger] packages[j]).id@ by {
            if j == upto - 1 && packages[i].id@ == packages[j].id@ {
                assert(has_id(packages, i, packages[j].id@));
                assert(occurs_below(packages, packages[j].id@, upto - 1));
            }
        }
    }
}

proof fn id_is_of(packages: Seq<Pkg>, n: int, id: Seq<char>)
    requires
        id_fault(packages, packages.len() as int) is None,
        0 <= n < packages.len(),
        packages[n].id@ == id,
    ensures
        node_with(packages, id) == Some(n),
{
    ids_are_unique(packages, packages.len() as int);
    assert(has_id(packages, n, id));
    let other = choose|i: int| has_id(packages, i, id);
    assert(has_id(packages, other, id));
    if other < n {
        assert(packages[other].id@ != packages[n].id@);
    } else if n < other {
        assert(packages[n].id@ != packages[other].id@);
    }
}

proof fn nodes_are_of_packages(packages: Seq<Pkg>, nodes: Seq<Node>, upto: int)
    requires
        0 <= upto <= nodes.len(),
        node_fault(packages, nodes, upto) is None,
    ensures
        forall|r: int|
            0 <= r < upto ==> node_with(packages, (#[trigger] nodes[r]).id@) is Some,
        forall|r: int, s: int|
            0 <= r < s < upto ==> (#[trigger] nodes[r]).id@ != (#[trigger] nodes[s]).id@,
    decreases upto,
{
    if upto > 0 {
        nodes_are_of_packages(packages, nodes, upto - 1);
        assert forall|r: int, s: int| 0 <= r < s < upto implies (#[trigger] nodes[r]).id@ != (
        #[trigger] nodes[s]).id@ by {
            if s == upto - 1 {
                assert(!(nodes[r].id@ == nodes[s].id@));
            }
        }
    }
}

/// Every package has its own resolve node.
proof fn packages_have_nodes(packages: Seq<Pkg>, nodes: Seq<Node>, u: int)
    requires
        nodes.len() == packages.len(),
        id_fault(packages, packages.len() as int) is None,
        node_fault(packages, nodes, nodes.len() as int) is None,
        0 <= u < packages.len(),
    ensures
        0 <= resolve_entry(nodes, packages, u) < nodes.len(),
        nodes[resolve_entry(nodes, packages, u)].id@ == packages[u].id@,
{
    let count = packages.len() as int;
    nodes_are_of_packages(packages, nodes, count);
    let at = Seq::new(nodes.len(), |r: int| node_with(packages, nodes[r].id@)->0);
    assert forall|r: int| 0 <= r < count implies 0 <= #[trigger] at[r] < count && packages[at[r]].id@
        == nodes[r].id@ by {
        assert(node_with(packages, nodes[r].id@) is Some);
        let i = choose|i: int| has_id(packages, i, nodes[r].id@);
        assert(has_id(packages, i, nodes[r].id@));
    }
    assert forall|r: int, s: int| 0 <= r < count && 0 <= s < count && r != s implies at[r]
        != at[s] by {
        if r < s {
            assert(nodes[r].id@ != nodes[s].id@);
        } else {
            assert(nodes[s].id@ != nodes[r].id@);
        }
    }
    distinct_numbers_cover(at, count, u);
    let r = choose|r: int| 0 <= r < at.len() && at[r] == u;
    assert(nodes[r].id@ == packages[u].id@);
}

/// Whether an edge stands for the dependency `k` of the resolve node of `u`.
spec fn stands_for(packages: Seq<Pkg>, nodes: Seq<Node>, edge: Edge, u: int, k: int) -> bool {
    let node = nodes[resolve_entry(nodes, packages, u)];
    &&& 0 <= k < node.deps@.len()
    &&& edge.from == u
    &&& edge.dep == node.deps@[k]
    &&& is_normal(edge.dep)
    &&& edge.to == node_with(packages, edge.dep.pkg@)->0
}

proof fn edges_of_stand_for(packages: Seq<Pkg>, from: int, node: Node, upto: int)
    requires
        0 <= upto <= node.deps@.len(),
    ensures
        forall|e: int|
            0 <= e < edges_of(packages, from, node, upto).len() ==> exists|k: int|
                0 <= k < upto && is_normal(#[trigger] node.deps@[k]) && (
                #[trigger] edges_of(packages, from, node, upto)[e]) == (Edge {
                    from,
                    to: node_with(packages, node.deps@[k].pkg@)->0,
                    dep: node.deps@[k],
                }),
        forall|k: int|
            0 <= k < upto && is_normal(#[trigger] node.deps@[k]) ==> edges_of(
                packages,
                from,
                node,
                upto,
            ).contains(
                Edge { from, to: node_with(packages, node.deps@[k].pkg@)->0, dep: node.deps@[k] },
            ),
    decreases upto,
{
    if upto > 0 {
        edges_of_stand_for(packages, from, node, upto - 1);
        let before = edges_of(packages, from, node, upto - 1);
        let now = edges_of(packages, from, node, upto);
        let last = node.deps@[upto - 1];
        let added = Edge { from, to: node_with(packages, last.pkg@)->0, dep: last };
        assert(is_normal(last) == is_normal_edge(last));
        assert forall|k: int| 0 <= k < upto && is_normal(#[trigger] node.deps@[k]) implies now.contains(
            Edge { from, to: node_with(packages, node.deps@[k].pkg@)->0, dep: node.deps@[k] },
        ) by {
            let edge = Edge {
                from,
                to: node_with(packages, node.deps@[k].pkg@)->0,
                dep: node.deps@[k],
            };
            pushed_is_held(before, added, edge);
            if k < upto - 1 {
                assert(before.contains(edge));
            }
        }
        assert forall|e: int| 0 <= e < now.len() implies exists|k: int|
            0 <= k < upto && is_normal(#[trigger] node.deps@[k]) && (#[trigger] now[e]) == (Edge {
                from,
                to: node_with(packages, node.deps@[k].pkg@)->0,
                dep: node.deps@[k],
            }) by {
            if e < before.len() {
                assert(now[e] == before[e]);
                let k = choose|k: int|
                    0 <= k < upto - 1 && is_normal(#[trigger] node.deps@[k]) && before[e]
                        == (Edge {
                        from,
                        to: node_with(packages, node.deps@[k].pkg@)->0,
                        dep: node.deps@[k],
                    });
                assert(is_normal(node.deps@[k]));
            } else {
                assert(now[e] == added);
                assert(is_normal(node.deps@[upto - 1]));
            }
        }
    }
}

proof fn edges_stand_for(packages: Seq<Pkg>, nodes: Seq<Node>, upto: int, e: int) -> (found: (int, int))
    requires
        0 <= e < edges_below(packages, nodes, upto).len(),
    ensures
        0 <= found.0 < upto,
        stands_for(packages, nodes, edges_below(packages, nodes, upto)[e], found.0, found.1),
    decreases upto,
{
    let before = edges_below(packages, nodes, upto - 1);
    if e < before.len() {
        edges_stand_for(packages, nodes, upto - 1, e)
    } else {
        let node = nodes[resolve_entry(nodes, packages, upto - 1)];
        let more = edges_of(packages, upto - 1, node, node.deps@.len() as int);
        edges_of_stand_for(packages, upto - 1, node, node.deps@.len() as int);
        let at = e - before.len();
        assert(edges_below(packages, nodes, upto)[e] == more[at]);
        let k = choose|k: int|
            0 <= k < node.deps@.len() && is_normal(#[trigger] node.deps@[k]) && more[at]
                == (Edge {
                from: upto - 1,
                to: node_with(packages, node.deps@[k].pkg@)->0,
                dep: node.deps@[k],
            });
        (upto - 1, k)
    }
}

proof fn dependencies_have_edges(packages: Seq<Pkg>, nodes: Seq<Node>, upto: int, u: int, k: int) -> (e:
    int)
    requires
        0 <= u < upto,
        0 <= k < nodes[resolve_entry(nodes, packages, u)].deps@.len(),
        is_normal(nodes[resolve_entry(nodes, packages, u)].deps@[k]),
    ensures
        0 <= e < edges_below(packages, nodes, upto).len(),
        stands_for(packages, nodes, edges_below(packages, nodes, upto)[e], u, k),
    decreases upto,
{
    let before = edges_below(packages, nodes, upto - 1);
    let now = edges_below(packages, nodes, upto);
    if u < upto - 1 {
        let e = dependencies_have_edges(packages, nodes, upto - 1, u, k);
        assert(now[e] == before[e]);
        e
    } else {
        let node = nodes[resolve_entry(nodes, packages, u)];
        let more = edges_of(packages, u, node, node.deps@.len() as int);
        edges_of_stand_for(packages, u, node, node.deps@.len() as int);
        let edge = Edge {
            from: u,
            to: node_with(packages, node.deps@[k].pkg@)->0,
            dep: node.deps@[k],
        };
        assert(more.contains(edge));
        let at = choose|at: int| 0 <= at < more.len() && more[at] == edge;
        assert(now[before.len() + at] == edge);
        before.len() + at
    }
}

proof fn edges_have_no_fault(packages: Seq<Pkg>, node: Node, upto: int, k: int)
    requires
        0 <= k < upto <= node.deps@.len(),
        edges_fault(packages, node, upto) is None,
    ensures
        edge_fault(packages, node.id@, node.deps@[k]) is None,
    decreases upto,
{
    if k < upto - 1 {
        edges_have_no_fault(packages, node, upto - 1, k);
    }
}

proof fn nodes_have_no_fault(packages: Seq<Pkg>, nodes: Seq<Node>, upto: int, u: int)
    requires
        0 <= u < upto,
        graph_fault(packages, nodes, upto) is None,
    ensures
        ({
            let node = nodes[resolve_entry(nodes, packages, u)];
            edges_fault(packages, node, node.deps@.len() as int) is None
        }),
    decreases upto,
{
    if u < upto - 1 {
        nodes_have_no_fault(packages, nodes, upto - 1, u);
    }
}

/// The edges of a graph are the normal dependencies of its document: each of them is an entry of
/// the resolve node of the package that it leaves and points to the package that the entry names,
/// and each normal entry of each resolve node is one of them. Build and dev dependencies are none.
pub proof fn edges_are_the_normal_dependencies(meta: Meta)
    requires
        build_fault(meta) is None,
    ensures
        ({
            let view = graph_of(meta);
            let packages = meta.packages@;
            let nodes = meta.resolve->0.nodes@;
            &&& view.meta == meta
            &&& meta.resolve is Some
            &&& forall|e: int|
                #![trigger view.edges[e]]
                0 <= e < view.edges.len() ==> {
                    let edge = view.edges[e];
                    &&& 0 <= edge.from < packages.len()
                    &&& 0 <= edge.to < packages.len()
                    &&& packages[edge.to].id@ == edge.dep.pkg@
                    &&& is_normal(edge.dep)
                    &&& exists|r: int|
                        0 <= r < nodes.len() && (#[trigger] nodes[r]).id@
                            == packages[edge.from].id@ && nodes[r].deps@.contains(edge.dep)
                }
            &&& forall|u: int, r: int, k: int|
                #![trigger packages[u], nodes[r].deps@[k]]
                0 <= u < packages.len() && 0 <= r < nodes.len() && nodes[r].id@ == packages[u].id@
                    && 0 <= k < nodes[r].deps@.len() && is_normal(nodes[r].deps@[k]) ==> exists|
                    e: int,
                |
                    #![trigger view.edges[e]]
                    0 <= e < view.edges.len() && view.edges[e].from == u && view.edges[e].dep
                        == nodes[r].deps@[k]
        }),
{
    let view = graph_of(meta);
    let packages = meta.packages@;
    let nodes = meta.resolve->0.nodes@;
    let count = packages.len() as int;
    nodes_are_of_packages(packages, nodes, count);
    assert forall|e: int| #![trigger view.edges[e]] 0 <= e < view.edges.len() implies {
        let edge = view.edges[e];
        &&& 0 <= edge.from < packages.len()
        &&& 0 <= edge.to < packages.len()
        &&& packages[edge.to].id@ == edge.dep.pkg@
        &&& is_normal(edge.dep)
        &&& exists|r: int|
            0 <= r < nodes.len() && (#[trigger] nodes[r]).id@ == packages[edge.from].id@
                && nodes[r].deps@.contains(edge.dep)
    } by {
        let (u, k) = edges_stand_for(packages, nodes, count, e);
        packages_have_nodes(packages, nodes, u);
        let r = resolve_entry(nodes, packages, u);
        nodes_have_no_fault(packages, nodes, count, u);
        edges_have_no_fault(packages, nodes[r], nodes[r].deps@.len() as int, k);
        let dep = nodes[r].deps@[k];
        assert(node_with(packages, dep.pkg@) is Some);
        let to = choose|i: int| has_id(packages, i, dep.pkg@);
        assert(has_id(packages, to, dep.pkg@));
        assert(nodes[r].deps@.contains(dep));
    }
    assert forall|u: int, r: int, k: int|
        #![trigger packages[u], nodes[r].deps@[k]]
        0 <= u < packages.len() && 0 <= r < nodes.len() && nodes[r].id@ == packages[u].id@ && 0 <= k
            < nodes[r].deps@.len() && is_normal(nodes[r].deps@[k]) implies exists|e: int|
        #![trigger view.edges[e]]
        0 <= e < view.edges.len() && view.edges[e].from == u && view.edges[e].dep
            == nodes[r].deps@[k] by {
        packages_have_nodes(packages, nodes, u);
        let s = resolve_entry(nodes, packages, u);
        assert(r == s) by {
            if r < s {
                assert(nodes[r].id@ != nodes[s].id@);
            } else if s < r {
                assert(nodes[s].id@ != nodes[r].id@);
            }
        }
        let e = dependencies_have_edges(packages, nodes, count, u, k);
        assert(view.edges[e].from == u);
    }
}

proof fn listed_members_are_members(packages: Seq<Pkg>, ids: Seq<String>, upto: int, n: int)
    requires
        0 <= upto <= ids.len(),
        id_fault(packages, packages.len() as int) is None,
        member_fault(packages, ids, upto) is None,
    ensures
        members_below(packages, ids, upto).contains(n) <==> 0 <= n < packages.len() && exists|i: int|
            0 <= i < upto && (#[trigger] ids[i])@ == packages[n].id@,
    decreases upto,
{
    if upto > 0 {
        listed_members_are_members(packages, ids, upto - 1, n);
        let last = ids[upto - 1]@;
        let node = node_with(packages, last)->0;
        let found = choose|i: int| has_id(packages, i, last);
        assert(has_id(packages, found, last));
        id_is_of(packages, found, last);
        pushed_is_held(members_below(packages, ids, upto - 1), node, n);
        if 0 <= n < packages.len() && packages[n].id@ == last {
            id_is_of(packages, n, last);
        }
    }
}

proof fn listed_names_are_names(packages: Seq<Pkg>, upto: int, name: Seq<char>)
    requires
        0 <= upto <= packages.len(),
    ensures
        names_below(packages, upto).contains(name) <==> exists|n: int|
            0 <= n < upto && (#[trigger] packages[n]).name@ == name,
    decreases upto,
{
    if upto > 0 {
        listed_names_are_names(packages, upto - 1, name);
        pushed_is_held(names_below(packages, upto - 1), packages[upto - 1].name@, name);
    }
}

/// The members of a graph are the packages whose ids the document lists as workspace members, each
/// once, and its names are those of its packages, each once.
pub proof fn members_and_names_are_those_of_the_document(meta: Meta)
    requires
        build_fault(meta) is None,
    ensures
        ({
            let view = graph_of(meta);
            let packages = meta.packages@;
            &&& forall|n: int| #[trigger]
                view.members.contains(n) <==> 0 <= n < packages.len() && exists|i: int|
                    0 <= i < meta.workspace_members@.len() && (
                    #[trigger] meta.workspace_members@[i])@ == packages[n].id@
            &&& view.members.no_duplicates()
            &&& forall|name: Seq<char>| #[trigger]
                view.names.contains(name) <==> exists|n: int|
                    0 <= n < packages.len() && (#[trigger] packages[n]).name@ == name
            &&& view.names.no_duplicates()
            &&& view.name_of.len() == packages.len()
            &&& forall|n: int|
                #![trigger view.name_of[n]]
                0 <= n < packages.len() ==> 0 <= view.name_of[n] < view.names.len()
                    && view.names[view.name_of[n]] == packages[n].name@
        }),
{
    let view = graph_of(meta);
    let packages = meta.packages@;
    let ids = meta.workspace_members@;
    members_below_are(packages, ids, ids.len() as int);
    names_below_are(packages, packages.len() as int);
    assert forall|n: int| #[trigger] view.members.contains(n) <==> 0 <= n < packages.len() && exists|
        i: int,
    |
        0 <= i < ids.len() && (#[trigger] ids[i])@ == packages[n].id@ by {
        listed_members_are_members(packages, ids, ids.len() as int, n);
    }
    assert forall|name: Seq<char>| #[trigger] view.names.contains(name) <==> exists|n: int|
        0 <= n < packages.len() && (#[trigger] packages[n]).name@ == name by {
        listed_names_are_names(packages, packages.len() as int, name);
    }
    assert forall|n: int| #![trigger view.name_of[n]] 0 <= n < packages.len() implies 0
        <= view.name_of[n] < view.names.len() && view.names[view.name_of[n]]
        == packages[n].name@ by {
        assert(view.names.contains(packages[n].name@));
        assert(view.name_of[n] == view.names.index_of(packages[n].name@));
    }
}

} // verus!
