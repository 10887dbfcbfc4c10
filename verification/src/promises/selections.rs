//! What a feature selection turns on.

use crate::features::{
    activated, activation_is_closed, activation_is_least, activation_of, belongs, closed,
    declarations, declares, defines, done, entry_of, feature_table_of, holds_seed, library_name_of,
    links, link_done, seeded, suppresses, EntryView, Fact, SelectionView,
};
use crate::graph::{DeclaredDep, GraphView};
use crate::metadata::{Decoded, Feature};
use crate::text;
use vstd::prelude::*;

verus! {

/// The dependencies that a package declares, when they can be decoded.
pub open spec fn declared_by(view: GraphView, node: int) -> Seq<DeclaredDep> {
    match view.meta.packages@[node].dependencies {
        Decoded::Value(declared) => declared@,
        Decoded::Malformed(_) => Seq::empty(),
    }
}

/// The `[features]` table of a package, when it can be decoded.
pub open spec fn features_of(view: GraphView, node: int) -> Seq<Feature> {
    match view.meta.packages@[node].features {
        Decoded::Value(table) => table@,
        Decoded::Malformed(_) => Seq::empty(),
    }
}

/// The name that feature syntax addresses a dependency by: its alias, or that of the package.
pub open spec fn alias_of(declared: DeclaredDep) -> Seq<char> {
    match declared.rename {
        Some(alias) => alias@,
        None => declared.name@,
    }
}

/// Whether an edge of `node` is that of a declaration: it points to a package of the declared
/// name, and where the document gives it a name, that is the alias with `_` for `-`.
pub open spec fn is_edge_of(view: GraphView, edge: int, node: int, declared: DeclaredDep) -> bool {
    &&& 0 <= edge < view.edges.len()
    &&& view.edges[edge].from == node
    &&& view.meta.packages@[view.edges[edge].to].name@ == declared.name@
    &&& view.edges[edge].dep.name matches Some(given) ==> {
        &&& given@.len() == alias_of(declared).len()
        &&& forall|i: int|
            0 <= i < given@.len() ==> #[trigger] given@[i] == if alias_of(declared)[i] == '-' {
                '_'
            } else {
                alias_of(declared)[i]
            }
    }
}

pub(crate) proof fn edges_are_linked(view: GraphView, node: int, i: int, edge: int)
    requires
        0 <= i < declared_by(view, node).len(),
        declared_by(view, node)[i].kind is None,
        is_edge_of(view, edge, node, declared_by(view, node)[i]),
    ensures
        links(view, node, alias_of(declared_by(view, node)[i]), i, edge),
{
    let declared = declared_by(view, node)[i];
    assert(declarations(view, node) == declared_by(view, node));
    if let Some(given) = view.edges[edge].dep.name {
        assert(given@ =~= library_name_of(declared.used_as()));
    }
    assert(belongs(view, view.edges[edge], declared));
}

/// Selecting nothing is selecting an empty list, and selecting the default features is selecting
/// the one feature `default`.
pub proof fn words_stand_for_lists(view: GraphView, root: int)
    ensures
        activation_of(view, root, SelectionView::Nothing) == activation_of(
            view,
            root,
            SelectionView::List(Seq::empty()),
        ),
        activation_of(view, root, SelectionView::Default) == activation_of(
            view,
            root,
            SelectionView::List(seq!["default"@]),
        ),
{
    alike_seeds_turn_on_alike(
        view,
        root,
        SelectionView::Nothing,
        SelectionView::List(Seq::empty()),
    );
    let list = seq!["default"@];
    assert forall|feature: Seq<char>| list.contains(feature) <==> feature == "default"@ by {
        assert(list[0] == "default"@);
    }
    alike_seeds_turn_on_alike(view, root, SelectionView::Default, SelectionView::List(list));
}

proof fn alike_seeds_turn_on_alike(
    view: GraphView,
    root: int,
    one: SelectionView,
    other: SelectionView,
)
    requires
        forall|feature: Seq<char>|
            seeded(view, root, one, feature) == #[trigger] seeded(view, root, other, feature),
    ensures
        activation_of(view, root, one) == activation_of(view, root, other),
{
    assert forall|feature: Seq<char>| #[trigger]
        seeded(view, root, one, feature) implies seeded(view, root, other, feature) by {
        assert(seeded(view, root, one, feature) == seeded(view, root, other, feature));
    }
    crate::features::activation_grows_with_the_selection(view, root, one, other);
    crate::features::activation_grows_with_the_selection(view, root, other, one);
    let (left, right) = (activation_of(view, root, one), activation_of(view, root, other));
    assert(left.nodes =~= right.nodes);
    assert(left.edges =~= right.edges);
}

/// Selecting all features is selecting each feature of the table, and each optional normal
/// dependency that no `dep:` entry names, by its alias.
pub proof fn all_is_every_feature(view: GraphView, root: int, list: Seq<Seq<char>>)
    requires
        forall|feature: Seq<char>| #[trigger]
            list.contains(feature) <==> {
                ||| exists|i: int|
                    0 <= i < features_of(view, root).len() && (
                    #[trigger] features_of(view, root)[i]).name@ == feature
                ||| !suppresses(features_of(view, root), feature) && exists|i: int|
                    0 <= i < declared_by(view, root).len() && (
                    #[trigger] declared_by(view, root)[i]).kind is None && declared_by(
                        view,
                        root,
                    )[i].optional && alias_of(declared_by(view, root)[i]) == feature
            },
    ensures
        activation_of(view, root, SelectionView::All) == activation_of(
            view,
            root,
            SelectionView::List(list),
        ),
{
    let declared = declared_by(view, root);
    let table = features_of(view, root);
    assert(declarations(view, root) == declared);
    assert(feature_table_of(view, root) == table);
    assert forall|feature: Seq<char>|
        seeded(view, root, SelectionView::All, feature) == #[trigger] seeded(
            view,
            root,
            SelectionView::List(list),
            feature,
        ) by {
        assert(list.contains(feature) <==> {
            ||| exists|i: int| 0 <= i < table.len() && (#[trigger] table[i]).name@ == feature
            ||| !suppresses(table, feature) && exists|i: int|
                0 <= i < declared.len() && (#[trigger] declared[i]).kind is None
                    && declared[i].optional && alias_of(declared[i]) == feature
        });
        if !suppresses(table, feature) && exists|i: int|
            0 <= i < declared.len() && (#[trigger] declared[i]).kind is None && declared[i].optional
                && alias_of(declared[i]) == feature {
            let i = choose|i: int|
                0 <= i < declared.len() && (#[trigger] declared[i]).kind is None
                    && declared[i].optional && alias_of(declared[i]) == feature;
            assert(declares(view, root, i, feature));
        }
        if exists|i: int|
            declares(view, root, i, feature) && declarations(view, root)[i].optional && !suppresses(
                feature_table_of(view, root),
                feature,
            ) {
            let i = choose|i: int|
                declares(view, root, i, feature) && declarations(view, root)[i].optional
                    && !suppresses(feature_table_of(view, root), feature);
            assert(declared[i].kind is None && alias_of(declared[i]) == feature);
        }
    }
    alike_seeds_turn_on_alike(view, root, SelectionView::All, SelectionView::List(list));
}

/// Whether `edge` leaves `node` by a declaration whose alias a required normal declaration of
/// that package has.
pub open spec fn is_required_edge(view: GraphView, node: int, edge: int) -> bool {
    exists|i: int, j: int|
        #![trigger declared_by(view, node)[i], declared_by(view, node)[j]]
        {
            let declared = declared_by(view, node);
            &&& 0 <= i < declared.len() && declared[i].kind is None
            &&& 0 <= j < declared.len() && declared[j].kind is None && !declared[j].optional
            &&& alias_of(declared[i]) == alias_of(declared[j])
            &&& view.meta.packages@[view.edges[edge].to].name@ == declared[i].name@
        }
}

/// Whether a package declares a required normal dependency under an alias.
spec fn requires_alias(view: GraphView, node: int, alias: Seq<char>) -> bool {
    exists|j: int| declares(view, node, j, alias) && !declarations(view, node)[j].optional
}

/// With no features selected a package brings in its required dependencies alone: an edge that
/// leaves it is turned on only for one of them, unless a dependency leads back to the package.
pub proof fn nothing_selected_brings_in_the_required(view: GraphView, root: int, edge: int)
    requires
        forall|e: int| 0 <= e < view.edges.len() ==> (#[trigger] view.edges[e]).to != root,
        0 <= edge < view.edges.len(),
        view.edges[edge].from == root,
        activation_of(view, root, SelectionView::Nothing).edges.contains(edge),
    ensures
        is_required_edge(view, root, edge),
{
    let selection = SelectionView::Nothing;
    assert(declarations(view, root) == declared_by(view, root));
    let facts = Set::new(
        |fact: Fact|
            match fact {
                Fact::Node(_) => true,
                Fact::Edge(e) => !(0 <= e < view.edges.len() && view.edges[e].from == root)
                    || is_required_edge(view, root, e),
                Fact::Dependency(node, alias) => node != root || requires_alias(view, root, alias),
                Fact::Feature(node, _) => node != root,
                Fact::Request(node, _, _) => node != root,
            },
    );
    assert forall|fact: Fact| #[trigger] facts.contains(fact) implies done(view, fact, facts) by {
        match fact {
            Fact::Node(node) => {
                assert forall|i: int, alias: Seq<char>|
                    #[trigger] declares(view, node, i, alias) && !declarations(view, node)[i].optional
                    implies facts.contains(Fact::Dependency(node, alias)) by {
                    if node == root {
                        assert(requires_alias(view, root, alias));
                    }
                }
            },
            Fact::Dependency(node, alias) => {
                assert forall|i: int, e: int| #[trigger]
                    links(view, node, alias, i, e) implies link_done(
                    view,
                    declarations(view, node)[i],
                    e,
                    facts,
                ) by {
                    if node == root {
                        let j = choose|j: int|
                            declares(view, root, j, alias) && !declarations(view, root)[j].optional;
                        assert(declared_by(view, root)[i].kind is None);
                        assert(!declared_by(view, root)[j].optional);
                        assert(is_required_edge(view, root, e));
                    }
                    assert(view.edges[e].to != root);
                }
                assert forall|feature: Seq<char>|
                    #[trigger] facts.contains(Fact::Request(node, alias, feature)) implies
                    crate::features::request_done(view, node, alias, feature, facts) by {
                    assert forall|e: int| #[trigger]
                        crate::features::resolves(view, node, alias, e) implies facts.contains(
                        Fact::Feature(view.edges[e].to, feature),
                    ) by {
                        let i = choose|i: int| links(view, node, alias, i, e);
                        assert(view.edges[e].to != root);
                    }
                }
            },
            Fact::Feature(node, feature) => {
                assert(crate::features::feature_done(view, node, feature, facts));
            },
            _ => {},
        }
    }
    assert(holds_seed(view, root, selection, facts));
    assert(closed(view, root, selection, facts));
    activation_is_least(view, root, selection, facts);
    assert(facts.contains(Fact::Edge(edge)));
}

/// Whatever is selected, a required normal dependency of a package that is turned on is turned on
/// with it.
pub proof fn required_dependencies_are_always_on(
    view: GraphView,
    root: int,
    selection: SelectionView,
    node: int,
    i: int,
    edge: int,
)
    requires
        activation_of(view, root, selection).nodes.contains(node),
        0 <= i < declared_by(view, node).len(),
        declared_by(view, node)[i].kind is None,
        !declared_by(view, node)[i].optional,
        is_edge_of(view, edge, node, declared_by(view, node)[i]),
    ensures
        activation_of(view, root, selection).edges.contains(edge),
        activation_of(view, root, selection).nodes.contains(view.edges[edge].to),
{
    let facts = activated(view, root, selection);
    let alias = alias_of(declared_by(view, node)[i]);
    activation_is_closed(view, root, selection);
    edges_are_linked(view, node, i, edge);
    assert(declares(view, node, i, alias));
    assert(facts.contains(Fact::Node(node)));
    assert(facts.contains(Fact::Dependency(node, alias)));
    assert(link_done(view, declarations(view, node)[i], edge, facts));
}

/// Whether a selection asks for a feature of `root`: by `default`, by name, or with all of them.
pub open spec fn asks_for(view: GraphView, root: int, selection: SelectionView, feature: Seq<char>) -> bool {
    match selection {
        SelectionView::Nothing => false,
        SelectionView::Default => feature == "default"@,
        SelectionView::List(list) => list.contains(feature),
        SelectionView::All => exists|i: int|
            0 <= i < features_of(view, root).len() && (#[trigger] features_of(view, root)[i]).name@
                == feature,
    }
}

/// Whether a feature of a package has the entry `entry`.
pub open spec fn has_entry(view: GraphView, node: int, feature: Seq<char>, entry: Seq<char>) -> bool {
    exists|i: int, j: int|
        #![trigger features_of(view, node)[i].entries@[j]]
        0 <= i < features_of(view, node).len() && features_of(view, node)[i].name@ == feature && 0
            <= j < features_of(view, node)[i].entries@.len() && features_of(
            view,
            node,
        )[i].entries@[j]@ == entry
}

proof fn dependency_entries_are_read(entry: Seq<char>, alias: Seq<char>)
    requires
        entry == "dep:"@ + alias,
    ensures
        entry_of(entry) == EntryView::Dependency(alias),
{
    reveal_strlit("dep:");
    assert(entry.take(4) =~= "dep:"@);
    assert(entry.skip(4) =~= alias);
}

proof fn feature_turns_its_dependency_on(
    view: GraphView,
    root: int,
    selection: SelectionView,
    node: int,
    feature: Seq<char>,
    i: int,
    edge: int,
)
    requires
        activated(view, root, selection).contains(Fact::Feature(node, feature)),
        0 <= i < declared_by(view, node).len(),
        declared_by(view, node)[i].kind is None,
        is_edge_of(view, edge, node, declared_by(view, node)[i]),
        has_entry(view, node, feature, "dep:"@ + alias_of(declared_by(view, node)[i])),
    ensures
        activation_of(view, root, selection).edges.contains(edge),
        activation_of(view, root, selection).nodes.contains(view.edges[edge].to),
{
    let facts = activated(view, root, selection);
    let alias = alias_of(declared_by(view, node)[i]);
    let entry = "dep:"@ + alias;
    activation_is_closed(view, root, selection);
    edges_are_linked(view, node, i, edge);
    dependency_entries_are_read(entry, alias);
    let table = feature_table_of(view, node);
    assert(table == features_of(view, node));
    let (a, b) = choose|a: int, b: int|
        #![trigger features_of(view, node)[a].entries@[b]]
        0 <= a < features_of(view, node).len() && features_of(view, node)[a].name@ == feature && 0
            <= b < features_of(view, node)[a].entries@.len() && features_of(
            view,
            node,
        )[a].entries@[b]@ == entry;
    assert(done(view, Fact::Feature(node, feature), facts));
    assert(table[a].entries@[b]@ == entry);
    assert(facts.contains(Fact::Dependency(node, alias)));
    assert(link_done(view, declarations(view, node)[i], edge, facts));
}

/// A feature that is selected turns on the dependency that it names with `dep:`.
pub proof fn selected_features_turn_their_dependencies_on(
    view: GraphView,
    root: int,
    selection: SelectionView,
    feature: Seq<char>,
    i: int,
    edge: int,
)
    requires
        asks_for(view, root, selection, feature),
        0 <= i < declared_by(view, root).len(),
        declared_by(view, root)[i].kind is None,
        is_edge_of(view, edge, root, declared_by(view, root)[i]),
        has_entry(view, root, feature, "dep:"@ + alias_of(declared_by(view, root)[i])),
    ensures
        activation_of(view, root, selection).edges.contains(edge),
        activation_of(view, root, selection).nodes.contains(view.edges[edge].to),
{
    activation_is_closed(view, root, selection);
    assert(feature_table_of(view, root) == features_of(view, root));
    assert(seeded(view, root, selection, feature));
    assert(activated(view, root, selection).contains(Fact::Feature(root, feature)));
    feature_turns_its_dependency_on(view, root, selection, root, feature, i, edge);
}

/// A required dependency is turned on with the features that its declaration asks for, and with
/// `default` unless the declaration goes without it: what such a feature names with `dep:` is on.
pub proof fn declarations_pass_their_features_on(
    view: GraphView,
    root: int,
    selection: SelectionView,
    node: int,
    i: int,
    edge: int,
    feature: Seq<char>,
    k: int,
    further: int,
)
    requires
        activation_of(view, root, selection).nodes.contains(node),
        0 <= i < declared_by(view, node).len(),
        declared_by(view, node)[i].kind is None,
        !declared_by(view, node)[i].optional,
        is_edge_of(view, edge, node, declared_by(view, node)[i]),
        (declared_by(view, node)[i].uses_default_features && feature == "default"@) || (exists|f: int|
            0 <= f < declared_by(view, node)[i].features@.len() && (
            #[trigger] declared_by(view, node)[i].features@[f])@ == feature),
        0 <= k < declared_by(view, view.edges[edge].to).len(),
        declared_by(view, view.edges[edge].to)[k].kind is None,
        is_edge_of(
            view,
            further,
            view.edges[edge].to,
            declared_by(view, view.edges[edge].to)[k],
        ),
        has_entry(
            view,
            view.edges[edge].to,
            feature,
            "dep:"@ + alias_of(declared_by(view, view.edges[edge].to)[k]),
        ),
    ensures
        activation_of(view, root, selection).edges.contains(further),
        activation_of(view, root, selection).nodes.contains(view.edges[further].to),
{
    let facts = activated(view, root, selection);
    let alias = alias_of(declared_by(view, node)[i]);
    activation_is_closed(view, root, selection);
    edges_are_linked(view, node, i, edge);
    assert(declares(view, node, i, alias));
    assert(facts.contains(Fact::Node(node)));
    assert(facts.contains(Fact::Dependency(node, alias)));
    assert(link_done(view, declarations(view, node)[i], edge, facts));
    assert(facts.contains(Fact::Feature(view.edges[edge].to, feature)));
    feature_turns_its_dependency_on(
        view,
        root,
        selection,
        view.edges[edge].to,
        feature,
        k,
        further,
    );
}

/// An optional dependency that the table neither defines a feature for nor names with `dep:` is
/// turned on by the feature of its own alias.
pub proof fn optional_dependencies_are_features(
    view: GraphView,
    root: int,
    list: Seq<Seq<char>>,
    i: int,
    edge: int,
)
    requires
        0 <= i < declared_by(view, root).len(),
        declared_by(view, root)[i].kind is None,
        is_edge_of(view, edge, root, declared_by(view, root)[i]),
        list.contains(alias_of(declared_by(view, root)[i])),
        forall|k: int|
            0 <= k < features_of(view, root).len() ==> (
            #[trigger] features_of(view, root)[k]).name@ != alias_of(declared_by(view, root)[i]),
        !suppresses(features_of(view, root), alias_of(declared_by(view, root)[i])),
    ensures
        activation_of(view, root, SelectionView::List(list)).edges.contains(edge),
        activation_of(view, root, SelectionView::List(list)).nodes.contains(view.edges[edge].to),
{
    let selection = SelectionView::List(list);
    let facts = activated(view, root, selection);
    let alias = alias_of(declared_by(view, root)[i]);
    activation_is_closed(view, root, selection);
    edges_are_linked(view, root, i, edge);
    assert(feature_table_of(view, root) == features_of(view, root));
    assert(seeded(view, root, selection, alias));
    assert(facts.contains(Fact::Feature(root, alias)));
    assert(done(view, Fact::Feature(root, alias), facts));
    assert(facts.contains(Fact::Dependency(root, alias)));
    assert(link_done(view, declarations(view, root)[i], edge, facts));
}

proof fn slash_is_first(before: Seq<char>, after: Seq<char>)
    requires
        !before.contains('/'),
    ensures
        text::split_once(before + seq!['/'] + after, '/') == Some((before, after)),
{
    let whole = before + seq!['/'] + after;
    let at = before.len() as int;
    assert(whole[at] == '/');
    assert forall|i: int| 0 <= i < at implies #[trigger] whole[i] != '/' by {
        assert(before.contains(before[i]));
    }
    assert(text::first_at(whole, '/', at));
    let other = choose|other: int| text::first_at(whole, '/', other);
    assert(other == at) by {
        if other < at {
            assert(whole[other] != '/');
        } else if at < other {
            assert(whole[at] != '/');
        }
    }
    assert(whole.take(at) =~= before);
    assert(whole.skip(at + 1) =~= after);
}

/// What an entry of a feature says goes by how it is written: `dep:x` is the dependency `x`, `x/f`
/// the dependency `x` with its feature `f`, `x?/f` that feature should `x` be on, and a word
/// without a slash a feature of the same package.
pub proof fn entries_are_read_as_written(alias: Seq<char>, feature: Seq<char>)
    requires
        !alias.contains('/'),
        !("dep:"@.len() <= alias.len() && alias.take("dep:"@.len() as int) == "dep:"@),
    ensures
        entry_of("dep:"@ + alias) == EntryView::Dependency(alias),
        entry_of(alias) == EntryView::Feature(alias),
        !alias.contains('?') ==> entry_of(alias + seq!['/'] + feature) == EntryView::Strong(
            alias,
            feature,
        ),
        entry_of(alias + seq!['?'] + seq!['/'] + feature) == EntryView::Weak(alias, feature),
{
    dependency_entries_are_read("dep:"@ + alias, alias);
    reveal_strlit("dep:");
    let prefix = "dep:"@;
    assert(text::split_once(alias, '/') is None) by {
        if exists|at: int| text::first_at(alias, '/', at) {
            let at = choose|at: int| text::first_at(alias, '/', at);
            assert(alias[at] == '/');
        }
    }
    slash_is_first(alias, feature);
    let strong = alias + seq!['/'] + feature;
    let asked = alias + seq!['?'];
    let weak = asked + seq!['/'] + feature;
    assert(!text::has_prefix(strong, prefix)) by {
        if text::has_prefix(strong, prefix) {
            assert(strong.take(4) == prefix);
            assert forall|i: int| 0 <= i < 4 implies strong[i] == #[trigger] prefix[i] by {
                assert(strong.take(4)[i] == strong[i]);
            }
            if alias.len() >= 4 {
                assert(alias.take(4) =~= prefix);
            } else {
                assert(strong[alias.len() as int] == '/');
                assert(prefix[alias.len() as int] != '/');
            }
        }
    }
    assert forall|i: int| 0 <= i < asked.len() implies asked[i] != '/' by {
        if i < alias.len() {
            assert(alias.contains(alias[i]));
        }
    }
    assert(!asked.contains('/'));
    slash_is_first(asked, feature);
    assert(asked.drop_last() =~= alias);
    assert(!text::has_prefix(weak, prefix)) by {
        if text::has_prefix(weak, prefix) {
            assert forall|i: int| 0 <= i < 4 implies weak[i] == #[trigger] prefix[i] by {
                assert(weak.take(4)[i] == weak[i]);
            }
            if alias.len() >= 4 {
                assert(alias.take(4) =~= prefix);
            } else {
                assert(weak[alias.len() as int] == '?');
                assert(prefix[alias.len() as int] != '?');
            }
        }
    }
    if !alias.contains('?') && alias.len() > 0 {
        assert(alias.contains(alias.last()));
    }
}

/// Entries of the form `x?/f` turn no dependency on: when the features that are selected have no
/// other entries, a package brings in its required dependencies alone, unless a dependency leads
/// back to it.
pub proof fn weak_entries_bring_nothing_in(
    view: GraphView,
    root: int,
    list: Seq<Seq<char>>,
    edge: int,
)
    requires
        forall|e: int| 0 <= e < view.edges.len() ==> (#[trigger] view.edges[e]).to != root,
        forall|feature: Seq<char>| #[trigger]
            list.contains(feature) ==> exists|i: int|
                0 <= i < features_of(view, root).len() && (
                #[trigger] features_of(view, root)[i]).name@ == feature,
        forall|i: int, j: int|
            #![trigger features_of(view, root)[i].entries@[j]]
            0 <= i < features_of(view, root).len() && list.contains(
                features_of(view, root)[i].name@,
            ) && 0 <= j < features_of(view, root)[i].entries@.len() ==> entry_of(
                features_of(view, root)[i].entries@[j]@,
            ) is Weak,
        0 <= edge < view.edges.len(),
        view.edges[edge].from == root,
        activation_of(view, root, SelectionView::List(list)).edges.contains(edge),
    ensures
        is_required_edge(view, root, edge),
{
    let selection = SelectionView::List(list);
    assert(declarations(view, root) == declared_by(view, root));
    assert(feature_table_of(view, root) == features_of(view, root));
    let facts = Set::new(
        |fact: Fact|
            match fact {
                Fact::Node(_) => true,
                Fact::Edge(e) => !(0 <= e < view.edges.len() && view.edges[e].from == root)
                    || is_required_edge(view, root, e),
                Fact::Dependency(node, alias) => node != root || requires_alias(view, root, alias),
                Fact::Feature(node, feature) => node != root || list.contains(feature),
                Fact::Request(_, _, _) => true,
            },
    );
    assert forall|fact: Fact| #[trigger] facts.contains(fact) implies done(view, fact, facts) by {
        match fact {
            Fact::Node(node) => {
                assert forall|i: int, alias: Seq<char>|
                    #[trigger] declares(view, node, i, alias) && !declarations(view, node)[i].optional
                    implies facts.contains(Fact::Dependency(node, alias)) by {
                    if node == root {
                        assert(requires_alias(view, root, alias));
                    }
                }
            },
            Fact::Dependency(node, alias) => {
                assert forall|i: int, e: int| #[trigger]
                    links(view, node, alias, i, e) implies link_done(
                    view,
                    declarations(view, node)[i],
                    e,
                    facts,
                ) by {
                    if node == root {
                        let j = choose|j: int|
                            declares(view, root, j, alias) && !declarations(view, root)[j].optional;
                        assert(declared_by(view, root)[i].kind is None);
                        assert(!declared_by(view, root)[j].optional);
                        assert(is_required_edge(view, root, e));
                    }
                    assert(view.edges[e].to != root);
                }
                assert forall|feature: Seq<char>|
                    #[trigger] facts.contains(Fact::Request(node, alias, feature)) implies
                    crate::features::request_done(view, node, alias, feature, facts) by {
                    assert forall|e: int| #[trigger]
                        crate::features::resolves(view, node, alias, e) implies facts.contains(
                        Fact::Feature(view.edges[e].to, feature),
                    ) by {
                        let i = choose|i: int| links(view, node, alias, i, e);
                        assert(view.edges[e].to != root);
                    }
                }
            },
            Fact::Feature(node, feature) => {
                if node == root {
                    let table = feature_table_of(view, root);
                    let i = choose|i: int|
                        0 <= i < features_of(view, root).len() && (
                        #[trigger] features_of(view, root)[i]).name@ == feature;
                    assert(defines(table, feature));
                    assert forall|i: int, j: int|
                        #![trigger table[i].entries@[j]]
                        0 <= i < table.len() && table[i].name@ == feature && 0 <= j
                            < table[i].entries@.len() implies crate::features::entry_done(
                        node,
                        entry_of(table[i].entries@[j]@),
                        facts,
                    ) by {
                        assert(entry_of(features_of(view, root)[i].entries@[j]@) is Weak);
                    }
                }
                assert(crate::features::feature_done(view, node, feature, facts));
            },
            _ => {},
        }
    }
    assert(holds_seed(view, root, selection, facts));
    assert(closed(view, root, selection, facts));
    activation_is_least(view, root, selection, facts);
    assert(facts.contains(Fact::Edge(edge)));
}

} // verus!
