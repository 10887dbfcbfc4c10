//! Why something is turned on, and what it turns on.

use super::selections::{alias_of, asks_for, declared_by, edges_are_linked, features_of, is_edge_of};
use crate::features::{
    activated, activation_is_closed, activation_is_least, activation_of, closed, declarations,
    declares, done, entry_done, entry_of, feature_table_of, holds_seed, link_done, links,
    names_dependency, request_done, resolves, seeded, suppresses, EntryView, Fact, SelectionView,
};
use crate::graph::GraphView;
use crate::metadata::Feature;
use crate::text;
use vstd::prelude::*;

verus! {

/// Whether a feature of a package is on in a build of `root` under `selection`.
pub open spec fn is_on(
    view: GraphView,
    root: int,
    selection: SelectionView,
    node: int,
    feature: Seq<char>,
) -> bool {
    activated(view, root, selection).contains(Fact::Feature(node, feature))
}

/// Whether a dependency of a package is on, by its alias.
pub open spec fn is_used(
    view: GraphView,
    root: int,
    selection: SelectionView,
    node: int,
    alias: Seq<char>,
) -> bool {
    activated(view, root, selection).contains(Fact::Dependency(node, alias))
}

/// Whether an entry of a feature of `node` says `entry`.
pub open spec fn entry_says(view: GraphView, node: int, feature: Seq<char>, entry: EntryView) -> bool {
    exists|i: int, j: int|
        #![trigger features_of(view, node)[i].entries@[j]]
        0 <= i < features_of(view, node).len() && features_of(view, node)[i].name@ == feature && 0
            <= j < features_of(view, node)[i].entries@.len() && entry_of(
            features_of(view, node)[i].entries@[j]@,
        ) == entry
}

/// Whether a feature of `node` that is on has an entry that asks for `feature` on what is used as
/// `alias`, strongly or weakly.
pub open spec fn is_requested(
    view: GraphView,
    root: int,
    selection: SelectionView,
    node: int,
    alias: Seq<char>,
    feature: Seq<char>,
) -> bool {
    exists|on: Seq<char>|
        #![trigger is_on(view, root, selection, node, on)]
        is_on(view, root, selection, node, on) && (entry_says(
            view,
            node,
            on,
            EntryView::Strong(alias, feature),
        ) || entry_says(view, node, on, EntryView::Weak(alias, feature)))
}

/// Whether a normal declaration of `node` under `alias` resolves to where `edge` points.
pub open spec fn leads_by(view: GraphView, node: int, alias: Seq<char>, i: int, edge: int) -> bool {
    &&& 0 <= i < declared_by(view, node).len()
    &&& declared_by(view, node)[i].kind is None
    &&& alias_of(declared_by(view, node)[i]) == alias
    &&& 0 <= edge < view.edges.len()
    &&& view.edges[edge].from == node
    &&& view.meta.packages@[view.edges[edge].to].name@ == declared_by(view, node)[i].name@
}

/// Whether something passes `feature` on to `node` over an edge that is on: the declaration asks
/// for it, or goes with the default features, or a feature of the dependent requests it.
pub open spec fn is_passed_on(
    view: GraphView,
    root: int,
    selection: SelectionView,
    node: int,
    feature: Seq<char>,
) -> bool {
    exists|i: int, edge: int, alias: Seq<char>|
        #![trigger leads_by(view, view.edges[edge].from, alias, i, edge)]
        {
            let from = view.edges[edge].from;
            let declared = declared_by(view, from)[i];
            &&& leads_by(view, from, alias, i, edge)
            &&& view.edges[edge].to == node
            &&& activation_of(view, root, selection).edges.contains(edge)
            &&& is_used(view, root, selection, from, alias)
            &&& {
                ||| declared.uses_default_features && feature == "default"@
                ||| exists|k: int|
                    0 <= k < declared.features@.len() && (#[trigger] declared.features@[k])@
                        == feature
                ||| is_requested(view, root, selection, from, alias, feature)
            }
        }
}

/// Whether a feature of `node` that is on lists `feature`.
pub open spec fn is_listed(
    view: GraphView,
    root: int,
    selection: SelectionView,
    node: int,
    feature: Seq<char>,
) -> bool {
    exists|on: Seq<char>|
        #![trigger is_on(view, root, selection, node, on)]
        is_on(view, root, selection, node, on) && entry_says(
            view,
            node,
            on,
            EntryView::Feature(feature),
        )
}

proof fn linked_leads(view: GraphView, node: int, alias: Seq<char>, i: int, edge: int)
    requires
        links(view, node, alias, i, edge),
    ensures
        leads_by(view, node, alias, i, edge),
{
    assert(declarations(view, node) == declared_by(view, node));
}

proof fn said_entries(view: GraphView, node: int, feature: Seq<char>, i: int, j: int)
    requires
        0 <= i < feature_table_of(view, node).len(),
        feature_table_of(view, node)[i].name@ == feature,
        0 <= j < feature_table_of(view, node)[i].entries@.len(),
    ensures
        entry_says(
            view,
            node,
            feature,
            entry_of(feature_table_of(view, node)[i].entries@[j]@),
        ),
{
    assert(feature_table_of(view, node) == features_of(view, node));
    assert(features_of(view, node)[i].entries@[j]@ == feature_table_of(
        view,
        node,
    )[i].entries@[j]@);
}

/// A request that is made was made by an entry.
proof fn requests_have_entries(
    view: GraphView,
    root: int,
    selection: SelectionView,
    node: int,
    alias: Seq<char>,
    feature: Seq<char>,
)
    requires
        activated(view, root, selection).contains(Fact::Request(node, alias, feature)),
    ensures
        is_requested(view, root, selection, node, alias, feature),
{
    let least = activated(view, root, selection);
    let gone = Fact::Request(node, alias, feature);
    activation_is_closed(view, root, selection);
    if !is_requested(view, root, selection, node, alias, feature) {
        let less = least.remove(gone);
        assert forall|fact: Fact| #[trigger] less.contains(fact) implies done(view, fact, less) by {
            assert(done(view, fact, least));
            match fact {
                Fact::Dependency(n, a) => {
                    assert forall|i: int, edge: int| #[trigger] links(view, n, a, i, edge) implies
                        link_done(view, declarations(view, n)[i], edge, less) by {
                        assert(link_done(view, declarations(view, n)[i], edge, least));
                    }
                    assert forall|f: Seq<char>| #[trigger]
                        less.contains(Fact::Request(n, a, f)) implies request_done(
                        view,
                        n,
                        a,
                        f,
                        less,
                    ) by {
                        assert(least.contains(Fact::Request(n, a, f)));
                        assert(request_done(view, n, a, f, least));
                    }
                },
                Fact::Feature(n, f) => {
                    let table = feature_table_of(view, n);
                    assert forall|i: int, j: int|
                        #![trigger table[i].entries@[j]]
                        0 <= i < table.len() && table[i].name@ == f && 0 <= j
                            < table[i].entries@.len() implies entry_done(
                        n,
                        entry_of(table[i].entries@[j]@),
                        less,
                    ) by {
                        said_entries(view, n, f, i, j);
                        assert(entry_done(n, entry_of(table[i].entries@[j]@), least));
                        assert(is_on(view, root, selection, n, f));
                    }
                },
                _ => {},
            }
        }
        assert(holds_seed(view, root, selection, less)) by {
            assert(holds_seed(view, root, selection, least));
            assert forall|f: Seq<char>|
                #![trigger less.contains(Fact::Feature(root, f))]
                seeded(view, root, selection, f) implies less.contains(Fact::Feature(root, f)) by {
                assert(least.contains(Fact::Feature(root, f)));
            }
        }
        assert(closed(view, root, selection, less));
        activation_is_least(view, root, selection, less);
        assert(less.contains(gone));
    }
}

/// A feature is on for a reason: it is selected, or listed by a feature of the same package that
/// is on, or passed on by a dependent over an edge that is on. Nothing else turns a feature on.
pub proof fn features_are_on_for_a_reason(
    view: GraphView,
    root: int,
    selection: SelectionView,
    node: int,
    feature: Seq<char>,
)
    requires
        is_on(view, root, selection, node, feature),
    ensures
        (node == root && seeded(view, root, selection, feature)) || is_listed(
            view,
            root,
            selection,
            node,
            feature,
        ) || is_passed_on(view, root, selection, node, feature),
{
    let least = activated(view, root, selection);
    let gone = Fact::Feature(node, feature);
    activation_is_closed(view, root, selection);
    if !(node == root && seeded(view, root, selection, feature)) && !is_listed(
        view,
        root,
        selection,
        node,
        feature,
    ) && !is_passed_on(view, root, selection, node, feature) {
        let less = least.remove(gone);
        assert forall|fact: Fact| #[trigger] less.contains(fact) implies done(view, fact, less) by {
            assert(done(view, fact, least));
            match fact {
                Fact::Dependency(n, a) => {
                    assert(is_used(view, root, selection, n, a));
                    assert forall|i: int, edge: int| #[trigger] links(view, n, a, i, edge) implies
                        link_done(view, declarations(view, n)[i], edge, less) by {
                        assert(link_done(view, declarations(view, n)[i], edge, least));
                        linked_leads(view, n, a, i, edge);
                        assert(leads_by(view, view.edges[edge].from, a, i, edge));
                        assert(declarations(view, n) == declared_by(view, n));
                    }
                    assert forall|f: Seq<char>| #[trigger]
                        less.contains(Fact::Request(n, a, f)) implies request_done(
                        view,
                        n,
                        a,
                        f,
                        less,
                    ) by {
                        assert(least.contains(Fact::Request(n, a, f)));
                        assert(request_done(view, n, a, f, least));
                        requests_have_entries(view, root, selection, n, a, f);
                        assert forall|edge: int| #[trigger]
                            resolves(view, n, a, edge) implies less.contains(
                            Fact::Feature(view.edges[edge].to, f),
                        ) by {
                            let i = choose|i: int| links(view, n, a, i, edge);
                            assert(link_done(view, declarations(view, n)[i], edge, least));
                            linked_leads(view, n, a, i, edge);
                            assert(leads_by(view, view.edges[edge].from, a, i, edge));
                        }
                    }
                },
                Fact::Feature(n, f) => {
                    let table = feature_table_of(view, n);
                    assert forall|i: int, j: int|
                        #![trigger table[i].entries@[j]]
                        0 <= i < table.len() && table[i].name@ == f && 0 <= j
                            < table[i].entries@.len() implies entry_done(
                        n,
                        entry_of(table[i].entries@[j]@),
                        less,
                    ) by {
                        said_entries(view, n, f, i, j);
                        assert(entry_done(n, entry_of(table[i].entries@[j]@), least));
                        assert(is_on(view, root, selection, n, f));
                    }
                },
                _ => {},
            }
        }
        assert(holds_seed(view, root, selection, less)) by {
            assert(holds_seed(view, root, selection, least));
            assert forall|f: Seq<char>|
                #![trigger less.contains(Fact::Feature(root, f))]
                seeded(view, root, selection, f) implies less.contains(Fact::Feature(root, f)) by {
                assert(least.contains(Fact::Feature(root, f)));
            }
        }
        assert(closed(view, root, selection, less));
        activation_is_least(view, root, selection, less);
        assert(less.contains(gone));
    }
}

/// Whether a package that is on declares a required normal dependency under `alias`.
pub open spec fn is_required_as(
    view: GraphView,
    root: int,
    selection: SelectionView,
    node: int,
    alias: Seq<char>,
) -> bool {
    activation_of(view, root, selection).nodes.contains(node) && exists|i: int|
        0 <= i < declared_by(view, node).len() && (#[trigger] declared_by(view, node)[i]).kind
            is None && !declared_by(view, node)[i].optional && alias_of(declared_by(view, node)[i])
            == alias
}

/// Whether a feature of `node` that is on brings the dependency `alias` in: with `dep:`, or by
/// asking for a feature of it.
pub open spec fn is_brought_in(
    view: GraphView,
    root: int,
    selection: SelectionView,
    node: int,
    alias: Seq<char>,
) -> bool {
    exists|on: Seq<char>|
        #![trigger is_on(view, root, selection, node, on)]
        is_on(view, root, selection, node, on) && (entry_says(
            view,
            node,
            on,
            EntryView::Dependency(alias),
        ) || exists|feature: Seq<char>| #[trigger]
            entry_says(view, node, on, EntryView::Strong(alias, feature)))
}

/// Whether the feature that an optional dependency gives its name to is on, and no feature of the
/// table has that name.
pub open spec fn is_named_by_a_feature(
    view: GraphView,
    root: int,
    selection: SelectionView,
    node: int,
    alias: Seq<char>,
) -> bool {
    &&& is_on(view, root, selection, node, alias)
    &&& forall|i: int|
        0 <= i < features_of(view, node).len() ==> (#[trigger] features_of(view, node)[i]).name@
            != alias
    &&& !suppresses(features_of(view, node), alias)
}

/// A dependency is on for a reason: a package that is on requires it, a feature that is on brings
/// it in, or the feature of its own name is on. Nothing else turns a dependency on: neither that
/// it is declared optional, nor an entry `x?/f`.
pub proof fn dependencies_are_on_for_a_reason(
    view: GraphView,
    root: int,
    selection: SelectionView,
    node: int,
    alias: Seq<char>,
)
    requires
        is_used(view, root, selection, node, alias),
    ensures
        is_required_as(view, root, selection, node, alias) || is_brought_in(
            view,
            root,
            selection,
            node,
            alias,
        ) || is_named_by_a_feature(view, root, selection, node, alias),
{
    let least = activated(view, root, selection);
    let gone = Fact::Dependency(node, alias);
    activation_is_closed(view, root, selection);
    if !is_required_as(view, root, selection, node, alias) && !is_brought_in(
        view,
        root,
        selection,
        node,
        alias,
    ) && !is_named_by_a_feature(view, root, selection, node, alias) {
        let less = least.remove(gone);
        assert forall|fact: Fact| #[trigger] less.contains(fact) implies done(view, fact, less) by {
            assert(done(view, fact, least));
            match fact {
                Fact::Node(n) => {
                    assert(declarations(view, n) == declared_by(view, n));
                    assert forall|i: int, a: Seq<char>|
                        #[trigger] declares(view, n, i, a) && !declarations(view, n)[i].optional
                        implies less.contains(Fact::Dependency(n, a)) by {
                        assert(least.contains(Fact::Dependency(n, a)));
                        assert(declared_by(view, n)[i].kind is None);
                    }
                },
                Fact::Dependency(n, a) => {
                    assert forall|i: int, edge: int| #[trigger] links(view, n, a, i, edge) implies
                        link_done(view, declarations(view, n)[i], edge, less) by {
                        assert(link_done(view, declarations(view, n)[i], edge, least));
                    }
                    assert forall|f: Seq<char>| #[trigger]
                        less.contains(Fact::Request(n, a, f)) implies request_done(
                        view,
                        n,
                        a,
                        f,
                        less,
                    ) by {
                        assert(least.contains(Fact::Request(n, a, f)));
                        assert(request_done(view, n, a, f, least));
                    }
                },
                Fact::Feature(n, f) => {
                    let table = feature_table_of(view, n);
                    assert(table == features_of(view, n));
                    assert(is_on(view, root, selection, n, f));
                    assert forall|i: int, j: int|
                        #![trigger table[i].entries@[j]]
                        0 <= i < table.len() && table[i].name@ == f && 0 <= j
                            < table[i].entries@.len() implies entry_done(
                        n,
                        entry_of(table[i].entries@[j]@),
                        less,
                    ) by {
                        said_entries(view, n, f, i, j);
                        assert(entry_done(n, entry_of(table[i].entries@[j]@), least));
                    }
                },
                _ => {},
            }
        }
        assert(holds_seed(view, root, selection, less)) by {
            assert(holds_seed(view, root, selection, least));
            assert forall|f: Seq<char>|
                #![trigger less.contains(Fact::Feature(root, f))]
                seeded(view, root, selection, f) implies less.contains(Fact::Feature(root, f)) by {
                assert(least.contains(Fact::Feature(root, f)));
            }
        }
        assert(closed(view, root, selection, less));
        activation_is_least(view, root, selection, less);
        assert(less.contains(gone));
    }
}

/// An edge is on for a reason: the package that it leaves uses, under some alias that is on, the
/// package that it points to.
pub proof fn edges_are_on_for_a_reason(
    view: GraphView,
    root: int,
    selection: SelectionView,
    edge: int,
)
    requires
        activation_of(view, root, selection).edges.contains(edge),
    ensures
        0 <= edge < view.edges.len(),
        exists|i: int, alias: Seq<char>|
            #![trigger leads_by(view, view.edges[edge].from, alias, i, edge)]
            leads_by(view, view.edges[edge].from, alias, i, edge) && is_used(
                view,
                root,
                selection,
                view.edges[edge].from,
                alias,
            ),
{
    let least = activated(view, root, selection);
    let gone = Fact::Edge(edge);
    activation_is_closed(view, root, selection);
    crate::features::activated_edges_join_activated_nodes(view, root, selection, edge);
    if !(exists|i: int, alias: Seq<char>|
        #![trigger leads_by(view, view.edges[edge].from, alias, i, edge)]
        leads_by(view, view.edges[edge].from, alias, i, edge) && is_used(
            view,
            root,
            selection,
            view.edges[edge].from,
            alias,
        )) {
        let less = least.remove(gone);
        assert forall|fact: Fact| #[trigger] less.contains(fact) implies done(view, fact, less) by {
            assert(done(view, fact, least));
            match fact {
                Fact::Dependency(n, a) => {
                    assert(is_used(view, root, selection, n, a));
                    assert forall|i: int, e: int| #[trigger] links(view, n, a, i, e) implies
                        link_done(view, declarations(view, n)[i], e, less) by {
                        assert(link_done(view, declarations(view, n)[i], e, least));
                        linked_leads(view, n, a, i, e);
                        assert(leads_by(view, view.edges[e].from, a, i, e));
                    }
                    assert forall|f: Seq<char>| #[trigger]
                        less.contains(Fact::Request(n, a, f)) implies request_done(
                        view,
                        n,
                        a,
                        f,
                        less,
                    ) by {
                        assert(least.contains(Fact::Request(n, a, f)));
                        assert(request_done(view, n, a, f, least));
                    }
                },
                Fact::Feature(n, f) => {
                    let table = feature_table_of(view, n);
                    assert forall|i: int, j: int|
                        #![trigger table[i].entries@[j]]
                        0 <= i < table.len() && table[i].name@ == f && 0 <= j
                            < table[i].entries@.len() implies entry_done(
                        n,
                        entry_of(table[i].entries@[j]@),
                        less,
                    ) by {
                        assert(entry_done(n, entry_of(table[i].entries@[j]@), least));
                    }
                },
                _ => {},
            }
        }
        assert(holds_seed(view, root, selection, less)) by {
            assert(holds_seed(view, root, selection, least));
            assert forall|f: Seq<char>|
                #![trigger less.contains(Fact::Feature(root, f))]
                seeded(view, root, selection, f) implies less.contains(Fact::Feature(root, f)) by {
                assert(least.contains(Fact::Feature(root, f)));
            }
        }
        assert(closed(view, root, selection, less));
        activation_is_least(view, root, selection, less);
        assert(less.contains(gone));
    }
}

/// What is selected is on.
pub proof fn selected_features_are_on(
    view: GraphView,
    root: int,
    selection: SelectionView,
    feature: Seq<char>,
)
    requires
        asks_for(view, root, selection, feature),
    ensures
        is_on(view, root, selection, root, feature),
{
    activation_is_closed(view, root, selection);
    assert(feature_table_of(view, root) == features_of(view, root));
    assert(seeded(view, root, selection, feature));
    assert(activated(view, root, selection).contains(Fact::Feature(root, feature)));
}

/// A feature that is on turns on what its entries say: features of the same package, dependencies,
/// and features of dependencies; those of the form `x?/f` only where `x` is on anyway.
pub proof fn features_turn_their_entries_on(
    view: GraphView,
    root: int,
    selection: SelectionView,
    node: int,
    on: Seq<char>,
    entry: EntryView,
)
    requires
        is_on(view, root, selection, node, on),
        entry_says(view, node, on, entry),
    ensures
        match entry {
            EntryView::Feature(feature) => is_on(view, root, selection, node, feature),
            EntryView::Dependency(alias) => is_used(view, root, selection, node, alias),
            EntryView::Strong(alias, feature) => is_used(view, root, selection, node, alias)
                && forall|i: int, edge: int| #[trigger]
                is_edge_of(view, edge, node, declared_by(view, node)[i]) && 0 <= i < declared_by(
                    view,
                    node,
                ).len() && declared_by(view, node)[i].kind is None && alias_of(
                    declared_by(view, node)[i],
                ) == alias ==> is_on(view, root, selection, view.edges[edge].to, feature),
            EntryView::Weak(alias, feature) => is_used(view, root, selection, node, alias)
                ==> forall|i: int, edge: int| #[trigger]
                is_edge_of(view, edge, node, declared_by(view, node)[i]) && 0 <= i < declared_by(
                    view,
                    node,
                ).len() && declared_by(view, node)[i].kind is None && alias_of(
                    declared_by(view, node)[i],
                ) == alias ==> is_on(view, root, selection, view.edges[edge].to, feature),
        },
{
    let facts = activated(view, root, selection);
    activation_is_closed(view, root, selection);
    let table = feature_table_of(view, node);
    assert(table == features_of(view, node));
    let (a, b) = choose|a: int, b: int|
        #![trigger features_of(view, node)[a].entries@[b]]
        0 <= a < features_of(view, node).len() && features_of(view, node)[a].name@ == on && 0 <= b
            < features_of(view, node)[a].entries@.len() && entry_of(
            features_of(view, node)[a].entries@[b]@,
        ) == entry;
    assert(done(view, Fact::Feature(node, on), facts));
    assert(entry_done(node, entry_of(table[a].entries@[b]@), facts));
    let asked = match entry {
        EntryView::Strong(alias, feature) => Some((alias, feature)),
        EntryView::Weak(alias, feature) => Some((alias, feature)),
        _ => None,
    };
    if let Some((alias, feature)) = asked {
        assert(facts.contains(Fact::Request(node, alias, feature)));
        if is_used(view, root, selection, node, alias) {
            assert(done(view, Fact::Dependency(node, alias), facts));
            assert(request_done(view, node, alias, feature, facts));
            assert forall|i: int, edge: int| #[trigger]
                is_edge_of(view, edge, node, declared_by(view, node)[i]) && 0 <= i < declared_by(
                    view,
                    node,
                ).len() && declared_by(view, node)[i].kind is None && alias_of(
                    declared_by(view, node)[i],
                ) == alias implies is_on(view, root, selection, view.edges[edge].to, feature) by {
                edges_are_linked(view, node, i, edge);
                assert(resolves(view, node, alias, edge));
            }
        }
    }
}

/// A dependency that is on turns on its edge and the package that it points to, with the features
/// that the declaration lists and, unless it goes without, with `default`.
pub proof fn dependencies_turn_their_packages_on(
    view: GraphView,
    root: int,
    selection: SelectionView,
    node: int,
    i: int,
    edge: int,
)
    requires
        0 <= i < declared_by(view, node).len(),
        declared_by(view, node)[i].kind is None,
        is_edge_of(view, edge, node, declared_by(view, node)[i]),
        is_used(view, root, selection, node, alias_of(declared_by(view, node)[i])),
    ensures
        ({
            let declared = declared_by(view, node)[i];
            let to = view.edges[edge].to;
            &&& activation_of(view, root, selection).edges.contains(edge)
            &&& activation_of(view, root, selection).nodes.contains(to)
            &&& declared.uses_default_features ==> is_on(view, root, selection, to, "default"@)
            &&& forall|k: int|
                0 <= k < declared.features@.len() ==> is_on(
                    view,
                    root,
                    selection,
                    to,
                    (#[trigger] declared.features@[k])@,
                )
        }),
{
    let facts = activated(view, root, selection);
    let alias = alias_of(declared_by(view, node)[i]);
    activation_is_closed(view, root, selection);
    edges_are_linked(view, node, i, edge);
    assert(declarations(view, node) == declared_by(view, node));
    assert(done(view, Fact::Dependency(node, alias), facts));
    assert(link_done(view, declarations(view, node)[i], edge, facts));
}

/// An edge whose name no declaration of its package gives, because the dependency calls its
/// library otherwise, belongs to every declaration of that package.
pub proof fn renamed_libraries_belong_to_their_package(
    view: GraphView,
    root: int,
    selection: SelectionView,
    node: int,
    i: int,
    edge: int,
)
    requires
        0 <= i < declared_by(view, node).len(),
        declared_by(view, node)[i].kind is None,
        0 <= edge < view.edges.len(),
        view.edges[edge].from == node,
        view.meta.packages@[view.edges[edge].to].name@ == declared_by(view, node)[i].name@,
        view.edges[edge].dep.name is Some,
        forall|k: int|
            0 <= k < declared_by(view, node).len() && (#[trigger] declared_by(view, node)[k]).kind
                is None && declared_by(view, node)[k].name@ == declared_by(view, node)[i].name@
                ==> alias_of(declared_by(view, node)[k]).len()
                != view.edges[edge].dep.name->0@.len(),
        is_used(view, root, selection, node, alias_of(declared_by(view, node)[i])),
    ensures
        activation_of(view, root, selection).edges.contains(edge),
{
    let facts = activated(view, root, selection);
    let declared = declared_by(view, node)[i];
    let alias = alias_of(declared);
    let given = view.edges[edge].dep.name->0@;
    activation_is_closed(view, root, selection);
    assert(declarations(view, node) == declared_by(view, node));
    assert(!crate::features::claims(view, node, declared.name@, given)) by {
        if crate::features::claims(view, node, declared.name@, given) {
            let k = choose|k: int|
                0 <= k < declarations(view, node).len() && (
                #[trigger] declarations(view, node)[k]).kind is None && declarations(
                    view,
                    node,
                )[k].name@ == declared.name@ && crate::features::library_name_of(
                    declarations(view, node)[k].used_as(),
                ) == given;
            assert(declared_by(view, node)[k].kind is None);
            assert(alias_of(declared_by(view, node)[k]).len() == given.len());
        }
    }
    assert(crate::features::belongs(view, view.edges[edge], declared));
    assert(links(view, node, alias, i, edge));
    assert(done(view, Fact::Dependency(node, alias), facts));
    assert(link_done(view, declarations(view, node)[i], edge, facts));
}

/// A dependency gives its name to no feature exactly when some entry names it with `dep:`, be it
/// with question marks behind it.
pub proof fn named_dependencies_are_no_features(table: Seq<Feature>, name: Seq<char>)
    requires
        name.len() > 0,
        name[name.len() - 1] != '?',
    ensures
        (exists|i: int, j: int|
            #![trigger table[i].entries@[j]]
            0 <= i < table.len() && 0 <= j < table[i].entries@.len() && table[i].entries@[j]@
                == "dep:"@ + name) ==> suppresses(table, name),
        suppresses(table, name) ==> exists|i: int, j: int|
            #![trigger table[i].entries@[j]]
            0 <= i < table.len() && 0 <= j < table[i].entries@.len() && {
                let entry = table[i].entries@[j]@;
                &&& entry.len() >= 4 + name.len()
                &&& entry.take((4 + name.len()) as int) == "dep:"@ + name
                &&& forall|k: int| 4 + name.len() <= k < entry.len() ==> #[trigger] entry[k] == '?'
            },
{
    reveal_strlit("dep:");
    if exists|i: int, j: int|
        #![trigger table[i].entries@[j]]
        0 <= i < table.len() && 0 <= j < table[i].entries@.len() && table[i].entries@[j]@ == "dep:"@
            + name {
        let (i, j) = choose|i: int, j: int|
            #![trigger table[i].entries@[j]]
            0 <= i < table.len() && 0 <= j < table[i].entries@.len() && table[i].entries@[j]@
                == "dep:"@ + name;
        let entry = table[i].entries@[j]@;
        assert(entry.take(4) =~= "dep:"@);
        assert(entry.skip(4) =~= name);
        assert(names_dependency(entry, name));
    }
    if suppresses(table, name) {
        let (i, j) = choose|i: int, j: int|
            0 <= i < table.len() && 0 <= j < table[i].entries@.len() && names_dependency(
                (#[trigger] table[i].entries@[j])@,
                name,
            );
        let entry = table[i].entries@[j]@;
        let rest = entry.skip(4);
        trimming_keeps_the_start(rest);
        assert(entry.take((4 + name.len()) as int) =~= "dep:"@ + name) by {
            assert forall|k: int| 0 <= k < 4 implies entry[k] == "dep:"@[k] by {
                assert(entry.take(4)[k] == entry[k]);
            }
            assert forall|k: int| 0 <= k < name.len() implies entry[4 + k] == name[k] by {
                assert(rest[k] == entry[4 + k]);
                assert(rest.take(name.len() as int)[k] == rest[k]);
            }
        }
        assert forall|k: int| 4 + name.len() <= k < entry.len() implies #[trigger] entry[k]
            == '?' by {
            assert(rest[k - 4] == entry[k]);
        }
    }
}

proof fn trimming_keeps_the_start(text: Seq<char>)
    ensures
        ({
            let kept = text::trimmed_end(text, '?');
            &&& kept.len() <= text.len()
            &&& text.take(kept.len() as int) == kept
            &&& forall|k: int| kept.len() <= k < text.len() ==> #[trigger] text[k] == '?'
        }),
    decreases text.len(),
{
    if text.len() > 0 && text.last() == '?' {
        let less = text.drop_last();
        trimming_keeps_the_start(less);
        let kept = text::trimmed_end(less, '?');
        assert(text.take(kept.len() as int) =~= less.take(kept.len() as int));
        assert forall|k: int| kept.len() <= k < text.len() implies #[trigger] text[k] == '?' by {
            if k < less.len() {
                assert(less[k] == text[k]);
            }
        }
    } else {
        assert(text.take(text.len() as int) =~= text);
    }
}

} // verus!
