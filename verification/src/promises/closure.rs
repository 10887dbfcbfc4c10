//! What is reached, and by which path.

use crate::config::{self, member_named, root_of};
use crate::graph::{
    first_found, first_named, names_node, nodes_named, witness, Direction, GraphView, KindEntry,
};
use crate::metadata::{Decoded, Dep};
use crate::paths::{self, position, traversal};
use crate::pipeline::{self, explain_root, explained, packages_named};
use crate::rules::{self, hops_of, HopView};
use vstd::prelude::*;

verus! {

/// Whether `path` leads from `from` to `to`: each package of it is joined to the next by a normal
/// edge of the graph, of those that `live` has.
pub open spec fn leads_along(view: GraphView, live: Set<int>, path: Seq<int>, from: int, to: int) -> bool {
    &&& path.len() > 0
    &&& path[0] == from
    &&& path[path.len() - 1] == to
    &&& forall|i: int|
        #![trigger path[i]]
        0 <= i < path.len() - 1 ==> exists|e: int|
            0 <= e < view.edges.len() && live.contains(e) && (#[trigger] view.edges[e]).from
                == path[i] && view.edges[e].to == path[i + 1]
}

/// Whether some path leads from `from` to `to`.
pub open spec fn is_reached(view: GraphView, live: Set<int>, from: int, to: int) -> bool {
    exists|path: Seq<int>| leads_along(view, live, path, from, to)
}

pub(crate) proof fn paths_are_paths(view: GraphView, live: Set<int>, path: Seq<int>, from: int, to: int)
    ensures
        leads_along(view, live, path, from, to) == view.steps(live).leads(path, from, to),
{
    let steps = view.steps(live);
    if leads_along(view, live, path, from, to) {
        assert forall|i: int|
            #![trigger path[i]]
            0 <= i < path.len() - 1 implies steps.linked(path[i], path[i + 1]) by {
            let e = choose|e: int|
                0 <= e < view.edges.len() && live.contains(e) && (#[trigger] view.edges[e]).from
                    == path[i] && view.edges[e].to == path[i + 1];
            assert(steps.edges[e] == (path[i], path[i + 1]));
            assert(steps.step(e, path[i], path[i + 1]));
        }
    }
    if steps.leads(path, from, to) {
        assert forall|i: int| #![trigger path[i]] 0 <= i < path.len() - 1 implies exists|e: int|
            0 <= e < view.edges.len() && live.contains(e) && (#[trigger] view.edges[e]).from
                == path[i] && view.edges[e].to == path[i + 1] by {
            let (left, right) = (path[i], path[i + 1]);
            assert(steps.linked(left, right));
            let e = choose|e: int| steps.step(e, left, right);
            assert(steps.edges[e] == (view.edges[e].from, view.edges[e].to));
            assert(view.edges[e].from == path[i]);
        }
    }
}

pub(crate) proof fn reach_is_reach(view: GraphView, live: Set<int>, from: int, to: int)
    ensures
        is_reached(view, live, from, to) == view.steps(live).reaches(from, to),
{
    if is_reached(view, live, from, to) {
        let path = choose|path: Seq<int>| leads_along(view, live, path, from, to);
        paths_are_paths(view, live, path, from, to);
        assert(view.steps(live).leads(path, from, to));
    }
    if view.steps(live).reaches(from, to) {
        let path = choose|path: Seq<int>| view.steps(live).leads(path, from, to);
        paths_are_paths(view, live, path, from, to);
        assert(leads_along(view, live, path, from, to));
    }
}

/// Whether `path` leads from `root` to a package called `name`, and no path to a package of that
/// name is shorter.
pub open spec fn is_shortest_to(
    view: GraphView,
    live: Set<int>,
    root: int,
    name: Seq<char>,
    path: Seq<int>,
) -> bool {
    let end = path[path.len() - 1];
    &&& leads_along(view, live, path, root, end)
    &&& 0 <= end < view.meta.packages@.len()
    &&& view.meta.packages@[end].name@ == name
    &&& forall|other: Seq<int>, node: int| #[trigger]
        leads_along(view, live, other, root, node) && 0 <= node < view.meta.packages@.len()
            && view.meta.packages@[node].name@ == name ==> path.len() <= other.len()
}

/// Whether `hops` show `path`: one hop for each package after the first, by its name and version.
pub open spec fn shows(view: GraphView, hops: Seq<HopView>, path: Seq<int>) -> bool {
    &&& hops.len() == path.len() - 1
    &&& forall|i: int|
        0 <= i < hops.len() ==> (#[trigger] hops[i]).name
            == view.meta.packages@[path[i + 1]].name@ && hops[i].version
            == view.meta.packages@[path[i + 1]].version@
    &&& forall|i: int|
        0 <= i < hops.len() ==> is_marked_as_joined(
            view,
            #[trigger] hops[i],
            path[i],
            path[i + 1],
        )
}

/// Whether a hop carries the marks of the first edge between its two packages: conditional when
/// every normal entry of the edge has a target, optional when the dependent's declarations of
/// that name are normal and all optional.
pub open spec fn is_marked_as_joined(view: GraphView, hop: HopView, from: int, to: int) -> bool {
    exists|e: int|
        #![trigger view.edges[e]]
        0 <= e < view.edges.len() && view.edges[e].from == from && view.edges[e].to == to && (
        forall|f: int|
            #![trigger view.edges[f]]
            0 <= f < e ==> !(view.edges[f].from == from && view.edges[f].to == to)) && {
            &&& hop.target is Some <==> is_conditional(view.edges[e].dep)
            &&& hop.optional <==> is_declared_optional(view, from, view.meta.packages@[to].name@)
        }
}

/// Whether an edge is there on some platforms only: it has a normal entry, and each of them has a
/// target.
pub open spec fn is_conditional(dep: Dep) -> bool {
    dep.dep_kinds matches Some(Decoded::Value(kinds)) && {
        &&& exists|i: int| 0 <= i < kinds@.len() && (#[trigger] kinds@[i]).kind is None
        &&& forall|i: int|
            0 <= i < kinds@.len() && (#[trigger] kinds@[i]).kind is None ==> kinds@[i].target
                is Some
    }
}

/// Whether a package declares a normal dependency on `name`, and every such declaration is
/// optional.
pub open spec fn is_declared_optional(view: GraphView, node: int, name: Seq<char>) -> bool {
    view.meta.packages@[node].dependencies matches Decoded::Value(declared) && {
        &&& exists|i: int|
            0 <= i < declared@.len() && (#[trigger] declared@[i]).kind is None
                && declared@[i].name@ == name
        &&& forall|i: int|
            0 <= i < declared@.len() && (#[trigger] declared@[i]).kind is None
                && declared@[i].name@ == name ==> declared@[i].optional
    }
}

proof fn targets_are_there(kinds: Seq<KindEntry>, i: int, upto: int)
    requires
        0 <= i < upto <= kinds.len(),
        kinds[i].target is Some,
    ensures
        rules::targets_below(kinds, upto).len() > 0,
    decreases upto,
{
    if i < upto - 1 {
        targets_are_there(kinds, i, upto - 1);
    }
}

proof fn first_edge_exists(view: GraphView, from: int, to: int, e: int) -> (first: int)
    requires
        view.joined(e, from, to),
    ensures
        rules::is_first_edge(view, from, to, first),
    decreases e,
{
    if exists|f: int| 0 <= f < e && #[trigger] view.joined(f, from, to) {
        let f = choose|f: int| 0 <= f < e && #[trigger] view.joined(f, from, to);
        first_edge_exists(view, from, to, f)
    } else {
        e
    }
}

proof fn hops_are_marked(view: GraphView, from: int, to: int, e: int)
    requires
        view.joined(e, from, to),
    ensures
        is_marked_as_joined(view, rules::hop_of(view, from, to), from, to),
{
    let first = first_edge_exists(view, from, to, e);
    rules::first_edge_is_one(view, from, to, first);
    let dep = view.edges[first].dep;
    if is_conditional(dep) {
        let kinds = dep.dep_kinds->0->Value_0;
        let i = choose|i: int| 0 <= i < kinds@.len() && (#[trigger] kinds@[i]).kind is None;
        targets_are_there(kinds@, i, kinds@.len() as int);
    }
    assert(view.edges[first].from == from && view.edges[first].to == to);
    assert forall|f: int| #![trigger view.edges[f]] 0 <= f < first implies !(view.edges[f].from
        == from && view.edges[f].to == to) by {
        assert(!view.joined(f, from, to));
    }
}

pub(crate) proof fn hops_show_the_path(view: GraphView, live: Set<int>, path: Seq<int>, from: int, to: int)
    requires
        leads_along(view, live, path, from, to),
    ensures
        shows(view, hops_of(view, path), path),
{
    let hops = hops_of(view, path);
    assert forall|i: int| 0 <= i < hops.len() implies is_marked_as_joined(
        view,
        #[trigger] hops[i],
        path[i],
        path[i + 1],
    ) by {
        let node = path[i];
        let e = choose|e: int|
            0 <= e < view.edges.len() && live.contains(e) && (#[trigger] view.edges[e]).from
                == path[i] && view.edges[e].to == path[i + 1];
        assert(view.joined(e, path[i], path[i + 1]));
        hops_are_marked(view, path[i], path[i + 1], e);
    }
}

/// The shortest path to a name is what is shown of it.
pub(crate) proof fn witness_is_shortest(view: GraphView, live: Set<int>, root: int, name: int)
    requires
        view.consistent(),
        0 <= root < view.count(),
        0 <= name < view.names.len(),
        names_node(traversal(view.steps(live), root).order, view.name_of, name),
    ensures
        ({
            let trail = traversal(view.steps(live), root);
            let first = first_found(view, trail, name);
            let path = witness(trail, Direction::Forward, first);
            &&& is_shortest_to(view, live, root, view.names[name], path)
            &&& path[path.len() - 1] == first
            &&& shows(view, hops_of(view, path), path)
        }),
{
    let steps = view.steps(live);
    let trail = traversal(steps, root);
    let first = first_found(view, trail, name);
    let path = witness(trail, Direction::Forward, first);
    rules::steps_have_a_traversal(view, live, root);
    let i = choose|i: int| first_named(trail.order, view.name_of, name, i);
    assert(first_named(trail.order, view.name_of, name, i));
    assert(first == trail.order[i]);
    assert(0 <= first < view.count());
    assert(trail.order.contains(first));
    assert(position(trail, first) == i);
    paths::trail_path_leads(steps, root, trail, i);
    rules::witnesses_are_shortest(view, live, root, name, path, first);
    paths_are_paths(view, live, path, root, first);
    hops_show_the_path(view, live, path, root, first);
    assert(view.names[view.name_of[first]] == view.name(first));
    assert forall|other: Seq<int>, node: int| #[trigger]
        leads_along(view, live, other, root, node) && 0 <= node < view.meta.packages@.len()
            && view.meta.packages@[node].name@ == view.names[name] implies path.len()
        <= other.len() by {
        paths_are_paths(view, live, other, root, node);
        assert(view.names[view.name_of[node]] == view.name(node));
        rules::witnesses_are_shortest(view, live, root, name, other, node);
    }
}

proof fn first_member_is_first(view: GraphView, name: Seq<char>, upto: int)
    requires
        0 <= upto <= view.members.len(),
    ensures
        match member_named(view, name, upto) {
            Some(node) => exists|k: int|
                #![trigger view.members[k]]
                0 <= k < upto && view.members[k] == node && view.meta.packages@[node].name@ == name
                    && forall|j: int|
                    0 <= j < k ==> view.meta.packages@[#[trigger] view.members[j]].name@ != name,
            None => forall|j: int|
                0 <= j < upto ==> view.meta.packages@[#[trigger] view.members[j]].name@ != name,
        },
    decreases upto,
{
    if upto > 0 {
        first_member_is_first(view, name, upto - 1);
        if member_named(view, name, upto - 1) is None {
            assert(view.members[upto - 1] == view.members[upto - 1]);
        }
    }
}

/// A rule on a package is rooted at the first workspace member of that name, and at nothing when
/// no member has it.
pub proof fn rules_are_rooted_at_members(view: GraphView, name: Seq<char>)
    ensures
        match root_of(view, name) {
            Some(root) => exists|k: int|
                #![trigger view.members[k]]
                0 <= k < view.members.len() && view.members[k] == root
                    && view.meta.packages@[root].name@ == name && forall|j: int|
                    0 <= j < k ==> view.meta.packages@[#[trigger] view.members[j]].name@ != name,
            None => forall|j: int|
                0 <= j < view.members.len()
                    ==> view.meta.packages@[#[trigger] view.members[j]].name@ != name,
        },
{
    first_member_is_first(view, name, view.members.len() as int);
}

pub(crate) proof fn named_are_those_named(name_of: Seq<int>, name: int, upto: int)
    ensures
        forall|node: int| #[trigger]
            nodes_named(name_of, name, upto).contains(node) <==> 0 <= node < upto && name_of[node]
                == name,
        nodes_named(name_of, name, upto).no_duplicates(),
    decreases upto,
{
    if upto > 0 {
        named_are_those_named(name_of, name, upto - 1);
        let before = nodes_named(name_of, name, upto - 1);
        let now = nodes_named(name_of, name, upto);
        assert forall|node: int| #[trigger] now.contains(node) <==> 0 <= node < upto
            && name_of[node] == name by {
            assert(before.contains(node) <==> 0 <= node < upto - 1 && name_of[node] == name);
            if now.len() > before.len() {
                assert(now[before.len() as int] == upto - 1);
                if before.contains(node) {
                    let i = choose|i: int| 0 <= i < before.len() && before[i] == node;
                    assert(now[i] == node);
                }
                if now.contains(node) {
                    let i = choose|i: int| 0 <= i < now.len() && now[i] == node;
                    if i < before.len() {
                        assert(before[i] == node);
                    }
                }
            }
        }
        if now.len() > before.len() {
            assert(!before.contains(upto - 1));
            assert forall|i: int, j: int| 0 <= i < now.len() && 0 <= j < now.len() && i
                != j implies now[i] != now[j] by {
                if i < before.len() {
                    assert(before.contains(before[i]));
                }
                if j < before.len() {
                    assert(before.contains(before[j]));
                }
            }
        }
    }
}

/// A query starts from the workspace member of the name it gives, and without one from the only
/// package of that name. It is refused exactly when there is no package of that name, or several
/// and none of them a member.
pub proof fn queries_start_where_they_say(view: GraphView, name: Seq<char>)
    requires
        view.consistent(),
    ensures
        match explain_root(view, name) {
            Ok(root) => {
                &&& 0 <= root < view.meta.packages@.len()
                &&& view.meta.packages@[root].name@ == name
                &&& view.members.contains(root) || forall|other: int|
                    0 <= other < view.meta.packages@.len() && (
                    #[trigger] view.meta.packages@[other]).name@ == name ==> other == root
            },
            Err(_) => {
                &&& forall|k: int|
                    0 <= k < view.members.len()
                        ==> view.meta.packages@[#[trigger] view.members[k]].name@ != name
                &&& forall|only: int|
                    0 <= only < view.meta.packages@.len() && (
                    #[trigger] view.meta.packages@[only]).name@ == name ==> exists|other: int|
                        0 <= other < view.meta.packages@.len() && other != only && (
                        #[trigger] view.meta.packages@[other]).name@ == name
            },
        },
{
    rules_are_rooted_at_members(view, name);
    if root_of(view, name) is Some {
        config::root_is_a_member(view, name);
    } else {
        let nodes = packages_named(view, name);
        let id = view.names.index_of(name);
        named_are_those_named(view.name_of, id, view.count());
        assert forall|node: int|
            0 <= node < view.count() && (#[trigger] view.meta.packages@[node]).name@
                == name implies nodes.contains(node) by {
            assert(view.names[view.name_of[node]] == view.name(node));
            pipeline::name_has_one_id(view, name, view.name_of[node]);
        }
        if view.names.contains(name) {
            assert(view.names[id] == name);
            assert forall|node: int| #[trigger] nodes.contains(node) implies 0 <= node
                < view.count() && view.meta.packages@[node].name@ == name by {
                assert(view.names[view.name_of[node]] == view.name(node));
            }
        }
        if nodes.len() == 1 {
            assert(nodes.contains(nodes[0]));
        } else if nodes.len() > 1 {
            assert forall|only: int|
                0 <= only < view.meta.packages@.len() && (#[trigger] view.meta.packages@[only]).name@
                    == name implies exists|other: int|
                0 <= other < view.meta.packages@.len() && other != only && (
                #[trigger] view.meta.packages@[other]).name@ == name by {
                let other = if nodes[0] == only {
                    nodes[1]
                } else {
                    nodes[0]
                };
                assert(nodes.contains(other));
                assert(view.meta.packages@[other].name@ == name);
            }
        }
    }
}

/// A query is answered with the truth: that the dependency is reachable exactly when some path of
/// normal edges leads from the package to one of that name, and then with a shortest such path,
/// package by package; and with no path otherwise.
pub proof fn explain_shows_a_shortest_path(
    view: GraphView,
    package: Seq<char>,
    dependency: Seq<char>,
)
    requires
        view.consistent(),
        explained(view, package, dependency) is Ok,
    ensures
        ({
            let answer = explained(view, package, dependency)->Ok_0;
            let root = explain_root(view, package)->Ok_0;
            &&& explain_root(view, package) is Ok
            &&& answer.root == package
            &&& answer.root_version == view.meta.packages@[root].version@
            &&& answer.dependency == dependency
            &&& answer.reachable ==> exists|path: Seq<int>|
                #![trigger shows(view, answer.path, path)]
                is_shortest_to(view, Set::full(), root, dependency, path) && shows(
                    view,
                    answer.path,
                    path,
                )
            &&& !answer.reachable ==> answer.path.len() == 0 && forall|node: int|
                0 <= node < view.meta.packages@.len() && (#[trigger] view.meta.packages@[node]).name@
                    == dependency ==> !is_reached(view, Set::full(), root, node)
        }),
{
    let answer = explained(view, package, dependency)->Ok_0;
    let root = explain_root(view, package)->Ok_0;
    let name = view.names.index_of(dependency);
    let trail = traversal(view.forward(), root);
    pipeline::explain_root_is_a_package(view, package);
    assert(view.names[name] == dependency);
    if answer.reachable {
        witness_is_shortest(view, Set::full(), root, name);
        let path = witness(trail, Direction::Forward, first_found(view, trail, name));
        assert(shows(view, answer.path, path));
    } else {
        pipeline::explain_answers_reachability(view, package, dependency);
        assert forall|node: int|
            0 <= node < view.meta.packages@.len() && (#[trigger] view.meta.packages@[node]).name@
                == dependency implies !is_reached(view, Set::full(), root, node) by {
            reach_is_reach(view, Set::full(), root, node);
            assert(view.name(node) == dependency);
        }
    }
}

/// A query is refused exactly when its package cannot be told, or no package at all is called as
/// the dependency.
pub proof fn queries_are_answered(view: GraphView, package: Seq<char>, dependency: Seq<char>)
    requires
        forall|name: Seq<char>| #[trigger]
            view.names.contains(name) <==> exists|node: int|
                0 <= node < view.meta.packages@.len() && (#[trigger] view.meta.packages@[node]).name@
                    == name,
    ensures
        explained(view, package, dependency) is Ok <==> explain_root(view, package) is Ok && exists|
            node: int,
        |
            0 <= node < view.meta.packages@.len() && (#[trigger] view.meta.packages@[node]).name@
                == dependency,
{
    assert(view.names.contains(dependency) <==> exists|node: int|
        0 <= node < view.meta.packages@.len() && (#[trigger] view.meta.packages@[node]).name@
            == dependency);
}

} // verus!
