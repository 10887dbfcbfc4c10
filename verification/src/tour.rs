//! The order in which an activation walk turns things on.
//!
//! What an activation holds does not depend on it; which package a walk meets first does, and so
//! does the error when several packages cannot be decoded. A walk keeps a stack of what it has
//! turned on and not yet worked on, and works on the top of the stack.

use crate::error::ErrorView;
use crate::features::{
    declarations, decode_fault, defines, entry_of, feature_table_of, links, suppresses, EntryView,
    Fact, SelectionView,
};
use crate::graph::{DeclaredDep, GraphView};
use crate::names;
use vstd::prelude::*;

verus! {

/// Where a walk stands.
pub struct Tour {
    /// What is turned on.
    pub facts: Set<Fact>,
    /// What is still to be worked on, the next one last.
    pub stack: Seq<Fact>,
    /// Per package, the feature requests on its dependencies, by extern name and feature, in the
    /// order in which they came.
    pub requests: Seq<Seq<(Seq<char>, Seq<char>)>>,
}

/// A walk after it has turned `fact` on: packages, dependencies and features go onto the stack
/// when they are new, and a request is kept.
pub open spec fn turned_on(tour: Tour, fact: Fact) -> Tour {
    match fact {
        Fact::Edge(_) => Tour { facts: tour.facts.insert(fact), ..tour },
        Fact::Request(node, name, feature) => Tour {
            facts: tour.facts.insert(fact),
            requests: tour.requests.update(node, tour.requests[node].push((name, feature))),
            ..tour
        },
        _ => if tour.facts.contains(fact) {
            tour
        } else {
            Tour { facts: tour.facts.insert(fact), stack: tour.stack.push(fact), ..tour }
        },
    }
}

/// A walk after it has turned each of `facts` on, one after the other.
#[verifier::opaque]
pub open spec fn all_turned_on(tour: Tour, facts: Seq<Fact>) -> Tour
    decreases facts.len(),
{
    if facts.len() == 0 {
        tour
    } else {
        turned_on(all_turned_on(tour, facts.drop_last()), facts.last())
    }
}

/// What turning on `node` turns on, from its first `upto` declarations: the dependencies that are
/// not gated behind a feature.
pub open spec fn node_list(view: GraphView, node: int, upto: int) -> Seq<Fact>
    decreases upto,
{
    if upto <= 0 {
        Seq::empty()
    } else {
        let before = node_list(view, node, upto - 1);
        let declaration = declarations(view, node)[upto - 1];
        if declaration.kind is None && !declaration.optional {
            before.push(Fact::Dependency(node, declaration.used_as()))
        } else {
            before
        }
    }
}

/// The edge and its package, and its default features where `declaration` uses them.
pub open spec fn link_head(view: GraphView, declaration: DeclaredDep, edge: int) -> Seq<Fact> {
    let to = view.edges[edge].to;
    let both = seq![Fact::Edge(edge), Fact::Node(to)];
    if declaration.uses_default_features {
        both.push(Fact::Feature(to, "default"@))
    } else {
        both
    }
}

/// What `declaration` turns on along `edge`, with the first `upto` features that it asks for.
pub open spec fn link_list(view: GraphView, declaration: DeclaredDep, edge: int, upto: int) -> Seq<
    Fact,
>
    decreases upto,
{
    if upto <= 0 {
        link_head(view, declaration, edge)
    } else {
        link_list(view, declaration, edge, upto - 1).push(
            Fact::Feature(view.edges[edge].to, declaration.features@[upto - 1]@),
        )
    }
}

/// What the `i`th declaration of `node`, which uses its package as `name`, turns on along those of
/// the first `upto` edges that it resolves to.
pub open spec fn declaration_list(
    view: GraphView,
    node: int,
    name: Seq<char>,
    i: int,
    upto: int,
) -> Seq<Fact>
    decreases upto,
{
    if upto <= 0 {
        Seq::empty()
    } else {
        let before = declaration_list(view, node, name, i, upto - 1);
        if links(view, node, name, i, upto - 1) {
            let declaration = declarations(view, node)[i];
            before + link_list(view, declaration, upto - 1, declaration.features@.len() as int)
        } else {
            before
        }
    }
}

/// What the first `upto` declarations of `node` turn on for dependency `name`.
pub open spec fn dependency_list(view: GraphView, node: int, name: Seq<char>, upto: int) -> Seq<Fact>
    decreases upto,
{
    if upto <= 0 {
        Seq::empty()
    } else {
        dependency_list(view, node, name, upto - 1) + declaration_list(
            view,
            node,
            name,
            upto - 1,
            view.edges.len() as int,
        )
    }
}

/// Those of the first `upto` edges that the `i`th declaration of `node` resolves to.
pub open spec fn declaration_edges(
    view: GraphView,
    node: int,
    name: Seq<char>,
    i: int,
    upto: int,
) -> Seq<int>
    decreases upto,
{
    if upto <= 0 {
        Seq::empty()
    } else {
        let before = declaration_edges(view, node, name, i, upto - 1);
        if links(view, node, name, i, upto - 1) {
            before.push(upto - 1)
        } else {
            before
        }
    }
}

/// The edges that the first `upto` declarations of `node` resolve dependency `name` to.
pub open spec fn dependency_edges(view: GraphView, node: int, name: Seq<char>, upto: int) -> Seq<int>
    decreases upto,
{
    if upto <= 0 {
        Seq::empty()
    } else {
        dependency_edges(view, node, name, upto - 1) + declaration_edges(
            view,
            node,
            name,
            upto - 1,
            view.edges.len() as int,
        )
    }
}

/// The edges that dependency `name` of `node` resolves to.
pub open spec fn edges_of(view: GraphView, node: int, name: Seq<char>) -> Seq<int> {
    dependency_edges(view, node, name, declarations(view, node).len() as int)
}

/// `feature` on what each of the first `upto` of `edges` points to.
pub open spec fn target_list(view: GraphView, edges: Seq<int>, feature: Seq<char>, upto: int) -> Seq<
    Fact,
>
    decreases upto,
{
    if upto <= 0 {
        Seq::empty()
    } else {
        target_list(view, edges, feature, upto - 1).push(
            Fact::Feature(view.edges[edges[upto - 1]].to, feature),
        )
    }
}

/// The features that the first `upto` of `requests` ask for on `name`.
pub open spec fn asked_of(requests: Seq<(Seq<char>, Seq<char>)>, name: Seq<char>, upto: int) -> Seq<
    Seq<char>,
>
    decreases upto,
{
    if upto <= 0 {
        Seq::empty()
    } else {
        let before = asked_of(requests, name, upto - 1);
        if requests[upto - 1].0 == name {
            before.push(requests[upto - 1].1)
        } else {
            before
        }
    }
}

/// The first `upto` of `features` on what each of `edges` points to.
pub open spec fn flush_list(view: GraphView, edges: Seq<int>, features: Seq<Seq<char>>, upto: int) -> Seq<
    Fact,
>
    decreases upto,
{
    if upto <= 0 {
        Seq::empty()
    } else {
        flush_list(view, edges, features, upto - 1) + target_list(
            view,
            edges,
            features[upto - 1],
            edges.len() as int,
        )
    }
}

/// Whether dependency `name` of `node` is on and was worked on.
pub open spec fn is_linked(tour: Tour, node: int, name: Seq<char>) -> bool {
    tour.facts.contains(Fact::Dependency(node, name)) && !tour.stack.contains(
        Fact::Dependency(node, name),
    )
}

/// What asking for `feature` on dependency `name` of `node` turns on: the feature on what the
/// dependency resolves to, if that is known by then, and the request.
pub open spec fn request_list(
    view: GraphView,
    tour: Tour,
    node: int,
    name: Seq<char>,
    feature: Seq<char>,
) -> Seq<Fact> {
    let edges = edges_of(view, node, name);
    let at_once = if is_linked(tour, node, name) {
        target_list(view, edges, feature, edges.len() as int)
    } else {
        Seq::empty()
    };
    at_once.push(Fact::Request(node, name, feature))
}

/// What an entry of a feature of `node` turns on.
pub open spec fn entry_list(view: GraphView, tour: Tour, node: int, entry: EntryView) -> Seq<Fact> {
    match entry {
        EntryView::Dependency(name) => seq![Fact::Dependency(node, name)],
        EntryView::Feature(feature) => seq![Fact::Feature(node, feature)],
        EntryView::Weak(name, feature) => request_list(view, tour, node, name, feature),
        EntryView::Strong(name, feature) => seq![Fact::Dependency(node, name)] + request_list(
            view,
            tour,
            node,
            name,
            feature,
        ),
    }
}

/// What the first `upto` of `entries` turn on.
pub open spec fn entries_list(
    view: GraphView,
    tour: Tour,
    node: int,
    entries: Seq<String>,
    upto: int,
) -> Seq<Fact>
    decreases upto,
{
    if upto <= 0 {
        Seq::empty()
    } else {
        entries_list(view, tour, node, entries, upto - 1) + entry_list(
            view,
            tour,
            node,
            entry_of(entries[upto - 1]@),
        )
    }
}

/// What the first `upto` lines of a feature table say of `feature`.
pub open spec fn table_list(
    view: GraphView,
    tour: Tour,
    node: int,
    feature: Seq<char>,
    upto: int,
) -> Seq<Fact>
    decreases upto,
{
    if upto <= 0 {
        Seq::empty()
    } else {
        let before = table_list(view, tour, node, feature, upto - 1);
        let line = feature_table_of(view, node)[upto - 1];
        if line.name@ == feature {
            before + entries_list(view, tour, node, line.entries@, line.entries@.len() as int)
        } else {
            before
        }
    }
}

/// What working on `fact` turns on, in order.
pub open spec fn expansion(view: GraphView, tour: Tour, fact: Fact) -> Seq<Fact> {
    match fact {
        Fact::Node(node) => node_list(view, node, declarations(view, node).len() as int),
        Fact::Dependency(node, name) => {
            let requests = tour.requests[node];
            let features = asked_of(requests, name, requests.len() as int);
            dependency_list(view, node, name, declarations(view, node).len() as int) + flush_list(
                view,
                edges_of(view, node, name),
                features,
                features.len() as int,
            )
        },
        Fact::Feature(node, feature) => {
            let table = feature_table_of(view, node);
            if defines(table, feature) {
                table_list(view, tour, node, feature, table.len() as int)
            } else if suppresses(table, feature) {
                Seq::empty()
            } else {
                seq![Fact::Dependency(node, feature)]
            }
        },
        _ => Seq::empty(),
    }
}

/// The names that `wanted` holds of, in order and each once.
pub open spec fn in_order(wanted: spec_fn(Seq<char>) -> bool) -> Seq<Seq<char>> {
    choose|list: Seq<Seq<char>>| names::ordered(list, wanted)
}

/// Whether some optional normal declaration of `node` carries an implicit feature `name`.
pub open spec fn carries(view: GraphView, node: int, name: Seq<char>) -> bool {
    let declared = declarations(view, node);
    let table = feature_table_of(view, node);
    exists|i: int|
        {
            &&& 0 <= i < declared.len()
            &&& (#[trigger] declared[i]).kind is None
            &&& declared[i].optional
            &&& declared[i].used_as() == name
            &&& !defines(table, name)
            &&& !suppresses(table, name)
        }
}

/// Whether `node` defines a feature.
pub open spec fn defined_by(view: GraphView, node: int) -> spec_fn(Seq<char>) -> bool {
    |name: Seq<char>| defines(feature_table_of(view, node), name)
}

/// Whether `node` carries an implicit feature.
pub open spec fn carried_by(view: GraphView, node: int) -> spec_fn(Seq<char>) -> bool {
    |name: Seq<char>| carries(view, node, name)
}

/// The features that a walk from `root` starts with, in order.
pub open spec fn seeds(view: GraphView, root: int, selection: SelectionView) -> Seq<Seq<char>> {
    match selection {
        SelectionView::Nothing => Seq::empty(),
        SelectionView::Default => seq!["default"@],
        SelectionView::List(features) => features,
        SelectionView::All => in_order(defined_by(view, root)) + in_order(carried_by(view, root)),
    }
}

/// The first `upto` of `features` on `root`.
pub open spec fn seed_list(root: int, features: Seq<Seq<char>>, upto: int) -> Seq<Fact>
    decreases upto,
{
    if upto <= 0 {
        Seq::empty()
    } else {
        seed_list(root, features, upto - 1).push(Fact::Feature(root, features[upto - 1]))
    }
}

/// A walk on which nothing is on yet.
pub open spec fn blank(view: GraphView) -> Tour {
    Tour {
        facts: Set::empty(),
        stack: Seq::empty(),
        requests: Seq::new(view.count() as nat, |node: int| Seq::empty()),
    }
}

/// A walk with the top taken off its stack.
pub open spec fn popped(tour: Tour) -> Tour {
    Tour { stack: tour.stack.drop_last(), ..tour }
}

/// A walk from `root` under `selection` after it has worked on `count` things.
pub open spec fn tour_at(view: GraphView, root: int, selection: SelectionView, count: nat) -> Tour
    decreases count,
{
    if count == 0 {
        let features = seeds(view, root, selection);
        all_turned_on(
            turned_on(blank(view), Fact::Node(root)),
            seed_list(root, features, features.len() as int),
        )
    } else {
        let tour = tour_at(view, root, selection, (count - 1) as nat);
        if tour.stack.len() == 0 {
            tour
        } else {
            all_turned_on(popped(tour), expansion(view, popped(tour), tour.stack.last()))
        }
    }
}

/// Why the package that has to be decoded to work on `fact` cannot be.
pub open spec fn fault_of(view: GraphView, fact: Fact) -> Option<ErrorView> {
    match fact {
        Fact::Node(node) => decode_fault(view, node),
        Fact::Dependency(node, _) => decode_fault(view, node),
        Fact::Feature(node, _) => decode_fault(view, node),
        _ => None,
    }
}

/// Why the package that a walk comes to next cannot be decoded.
pub open spec fn next_fault(view: GraphView, tour: Tour) -> Option<ErrorView> {
    if tour.stack.len() == 0 {
        None
    } else {
        fault_of(view, tour.stack.last())
    }
}

/// Whether a walk from `root` under `selection` comes to a package that cannot be decoded after
/// `count` others, which can, and `error` says why.
pub open spec fn stops_at(
    view: GraphView,
    root: int,
    selection: SelectionView,
    count: nat,
    error: ErrorView,
) -> bool {
    &&& next_fault(view, tour_at(view, root, selection, count)) == Some(error)
    &&& forall|earlier: nat|
        earlier < count ==> next_fault(
            view,
            #[trigger] tour_at(view, root, selection, earlier),
        ) is None
}

/// A walk stops at one place, for one reason.
pub proof fn a_walk_stops_once(
    view: GraphView,
    root: int,
    selection: SelectionView,
    count: nat,
    error: ErrorView,
    other: nat,
    reason: ErrorView,
)
    requires
        stops_at(view, root, selection, count, error),
        stops_at(view, root, selection, other, reason),
    ensures
        count == other,
        error == reason,
{
    if count < other {
        assert(next_fault(view, tour_at(view, root, selection, count)) is None);
    }
    if other < count {
        assert(next_fault(view, tour_at(view, root, selection, other)) is None);
    }
}

/// Turning on one list after another is turning on both.
pub(crate) proof fn one_after_the_other(tour: Tour, first: Seq<Fact>, second: Seq<Fact>)
    ensures
        all_turned_on(tour, first + second) == all_turned_on(all_turned_on(tour, first), second),
    decreases second.len(),
{
    reveal(all_turned_on);
    if second.len() == 0 {
        assert(first + second =~= first);
    } else {
        assert((first + second).drop_last() =~= first + second.drop_last());
        one_after_the_other(tour, first, second.drop_last());
    }
}

/// Turning nothing on changes nothing.
pub(crate) proof fn nothing_more(tour: Tour)
    ensures
        all_turned_on(tour, Seq::<Fact>::empty()) == tour,
{
    reveal(all_turned_on);
}

/// Turning on one fact more.
pub(crate) proof fn one_more(tour: Tour, facts: Seq<Fact>, fact: Fact)
    ensures
        all_turned_on(tour, facts.push(fact)) == turned_on(all_turned_on(tour, facts), fact),
{
    reveal(all_turned_on);
    assert(facts.push(fact).drop_last() =~= facts);
}

/// Turning things on links no dependency and unlinks none.
pub(crate) proof fn links_stay(tour: Tour, facts: Seq<Fact>, node: int, name: Seq<char>)
    ensures
        is_linked(all_turned_on(tour, facts), node, name) == is_linked(tour, node, name),
    decreases facts.len(),
{
    reveal(all_turned_on);
    if facts.len() > 0 {
        let before = all_turned_on(tour, facts.drop_last());
        let fact = facts.last();
        let dependency = Fact::Dependency(node, name);
        links_stay(tour, facts.drop_last(), node, name);
        let after = turned_on(before, fact);
        if after.stack != before.stack {
            assert(after.stack == before.stack.push(fact));
            if before.stack.contains(dependency) {
                let i = choose|i: int| 0 <= i < before.stack.len() && before.stack[i] == dependency;
                assert(after.stack[i] == dependency);
            }
            if after.stack.contains(dependency) && !before.stack.contains(dependency) {
                let i = choose|i: int| 0 <= i < after.stack.len() && after.stack[i] == dependency;
                if i < before.stack.len() {
                    assert(before.stack[i] == dependency);
                }
                assert(fact == dependency);
            }
            assert(after.stack[before.stack.len() as int] == fact);
        }
    }
}

/// What an entry turns on does not depend on what its feature has turned on so far.
pub(crate) proof fn entry_stays(
    view: GraphView,
    tour: Tour,
    facts: Seq<Fact>,
    node: int,
    entry: EntryView,
)
    ensures
        entry_list(view, all_turned_on(tour, facts), node, entry) == entry_list(
            view,
            tour,
            node,
            entry,
        ),
{
    match entry {
        EntryView::Weak(name, _) => {
            links_stay(tour, facts, node, name);
        },
        EntryView::Strong(name, _) => {
            links_stay(tour, facts, node, name);
        },
        _ => {},
    }
}

/// What entries turn on does not depend on what their feature has turned on so far.
pub(crate) proof fn entries_stay(
    view: GraphView,
    tour: Tour,
    facts: Seq<Fact>,
    node: int,
    entries: Seq<String>,
    upto: int,
)
    ensures
        entries_list(view, all_turned_on(tour, facts), node, entries, upto) == entries_list(
            view,
            tour,
            node,
            entries,
            upto,
        ),
    decreases upto,
{
    if upto > 0 {
        entries_stay(view, tour, facts, node, entries, upto - 1);
        entry_stays(view, tour, facts, node, entry_of(entries[upto - 1]@));
    }
}

/// Turning on one entry more.
pub(crate) proof fn one_entry_more(
    view: GraphView,
    tour: Tour,
    node: int,
    entries: Seq<String>,
    at: int,
)
    requires
        0 <= at < entries.len(),
    ensures
        ({
            let now = all_turned_on(tour, entries_list(view, tour, node, entries, at));
            all_turned_on(tour, entries_list(view, tour, node, entries, at + 1)) == all_turned_on(
                now,
                entry_list(view, now, node, entry_of(entries[at]@)),
            )
        }),
{
    let before = entries_list(view, tour, node, entries, at);
    let entry = entry_of(entries[at]@);
    entry_stays(view, tour, before, node, entry);
    one_after_the_other(tour, before, entry_list(view, tour, node, entry));
}

/// A walk comes to its root first.
pub(crate) proof fn the_root_comes_first(
    view: GraphView,
    root: int,
    features: Seq<Seq<char>>,
    upto: int,
)
    ensures
        ({
            let tour = all_turned_on(
                turned_on(blank(view), Fact::Node(root)),
                seed_list(root, features, upto),
            );
            next_fault(view, tour) == decode_fault(view, root) && tour.stack.len() > 0
        }),
    decreases upto,
{
    nothing_more(turned_on(blank(view), Fact::Node(root)));
    if upto > 0 {
        the_root_comes_first(view, root, features, upto - 1);
        one_more(
            turned_on(blank(view), Fact::Node(root)),
            seed_list(root, features, upto - 1),
            Fact::Feature(root, features[upto - 1]),
        );
    }
}

/// There is one list of names in order.
pub(crate) proof fn order_is(list: Seq<Seq<char>>, wanted: spec_fn(Seq<char>) -> bool)
    requires
        names::ordered(list, wanted),
    ensures
        in_order(wanted) == list,
{
    let other = in_order(wanted);
    assert(names::ordered(other, wanted));
    assert forall|name: Seq<char>| other.contains(name) <==> list.contains(name) by {
        assert(list.contains(name) <==> wanted(name));
        assert(other.contains(name) <==> wanted(name));
    }
    names::one_ascending_list(other, list);
}

/// Edges of other packages turn nothing on, so those before and behind the edges of `node` can be
/// left out.
pub(crate) proof fn other_edges_turn_nothing_on(
    view: GraphView,
    node: int,
    name: Seq<char>,
    i: int,
    from: int,
    to: int,
)
    requires
        0 <= from <= to <= view.edges.len(),
        forall|e: int| from <= e < to ==> (#[trigger] view.edges[e]).from != node,
    ensures
        declaration_list(view, node, name, i, to) == declaration_list(view, node, name, i, from),
        declaration_edges(view, node, name, i, to) == declaration_edges(view, node, name, i, from),
    decreases to - from,
{
    if from < to {
        other_edges_turn_nothing_on(view, node, name, i, from, to - 1);
        assert(view.edges[to - 1].from != node);
    }
}

/// A declaration that does not use its package as `name` resolves to nothing by that name.
pub(crate) proof fn others_turn_nothing_on(
    view: GraphView,
    node: int,
    name: Seq<char>,
    i: int,
    upto: int,
)
    requires
        forall|e: int| !(#[trigger] links(view, node, name, i, e)),
    ensures
        declaration_list(view, node, name, i, upto).len() == 0,
        declaration_edges(view, node, name, i, upto).len() == 0,
    decreases upto,
{
    if upto > 0 {
        others_turn_nothing_on(view, node, name, i, upto - 1);
    }
}

} // verus!
