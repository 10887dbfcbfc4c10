//! Package-rooted Cargo feature activation over one already-resolved metadata document.
//!
//! `cargo metadata` emits one activation for the whole workspace: the union over every member,
//! every dependency kind and every platform. This module answers the narrower question which
//! packages and edges one package turns on under one feature selection, by running Cargo's
//! feature resolution again from that package over the features, the declarations and the
//! edges that the document holds.
//!
//! What is turned on is a set of [`Fact`]s. [`closed`] says which facts follow from which, and
//! the activation is the least set that holds the selection and is closed under them.
//!
//! A feature entry addresses a dependency by its extern name, while an edge of the resolve
//! identifies a package. The name cargo records for an edge is the library target name: the
//! rename when the declaration renamed it, otherwise the dependency's own `[lib] name`, which
//! no declaration can spell. So the extern name tells the edges of one package apart and never
//! excludes an edge on its own: an edge belongs to a declaration when their names agree once
//! `-` is normalised to `_`, or when no declaration of that package name claims the edge's name
//! at all.
//!
//! All platforms are kept, only normal edges are followed, and every normal declaration of an
//! enabled name contributes the features it requests. Each of those widens the closure, and
//! widening cannot hide a `deny` finding.

use crate::bits;
use crate::error::{Error, ErrorView};
use crate::graph::{lists, DeclaredDep, Edge, Graph, GraphView};
use crate::index::{self, Index};
use crate::metadata::{Decoded, Feature};
use crate::names;
use crate::paths::{self, Steps};
use crate::source::saturated;
use crate::text::{self, has_prefix, trimmed_end};
use crate::tour::{self, all_turned_on, turned_on, Tour};
use fixedbitset::FixedBitSet;
use vstd::prelude::*;

verus! {

/// The feature selection an activation walk is seeded with.
#[derive(Clone, Debug, PartialEq, Eq)]
#[non_exhaustive]
pub enum Selection {
    /// `--no-default-features` with nothing else: only what the root pulls in
    /// unconditionally.
    Nothing,
    /// The root's `default` feature, as a plain `cargo tree -p <root>` resolves it.
    Default,
    /// Every feature of the root, including the implicit feature of each optional
    /// dependency cargo did not suppress with `dep:` syntax.
    All,
    /// An explicit list, resolved as `--no-default-features --features …`: `default` is
    /// active only when the list names it.
    List(Vec<String>),
}

/// A [`Selection`] by the characters of its strings.
pub enum SelectionView {
    Nothing,
    Default,
    All,
    List(Seq<Seq<char>>),
}

impl View for Selection {
    type V = SelectionView;

    open spec fn view(&self) -> SelectionView {
        match *self {
            Selection::Nothing => SelectionView::Nothing,
            Selection::Default => SelectionView::Default,
            Selection::All => SelectionView::All,
            Selection::List(features) => SelectionView::List(text::texts(features@)),
        }
    }
}

/// What an activation can turn on.
pub enum Fact {
    /// A package.
    Node(int),
    /// A normal edge.
    Edge(int),
    /// A declared dependency of a package, addressed by its extern name.
    Dependency(int, Seq<char>),
    /// A feature of a package.
    Feature(int, Seq<char>),
    /// A feature that a package asks for on a dependency, addressed by its extern name, should
    /// that dependency be turned on.
    Request(int, Seq<char>, Seq<char>),
}

/// One entry of a feature's value list.
pub enum EntryView {
    /// `dep:x` turns an optional dependency on without creating a feature.
    Dependency(Seq<char>),
    /// A bare token is a feature of the same package.
    Feature(Seq<char>),
    /// `x/feat` turns `x` on and requests `feat` on it.
    Strong(Seq<char>, Seq<char>),
    /// `x?/feat` requests `feat` only if something else turns `x` on.
    Weak(Seq<char>, Seq<char>),
}

/// What the entry `entry` of a feature says.
pub open spec fn entry_of(entry: Seq<char>) -> EntryView {
    if has_prefix(entry, "dep:"@) {
        EntryView::Dependency(entry.skip(4))
    } else {
        match text::split_once(entry, '/') {
            None => EntryView::Feature(entry),
            Some((dependency, feature)) => if dependency.len() > 0 && dependency.last() == '?' {
                EntryView::Weak(dependency.drop_last(), feature)
            } else {
                EntryView::Strong(dependency, feature)
            },
        }
    }
}

/// Cargo's library-target spelling of a dependency name: `-` becomes `_`.
pub open spec fn library_name_of(name: Seq<char>) -> Seq<char> {
    name.map_values(
        |c: char|
            if c == '-' {
                '_'
            } else {
                c
            },
    )
}

/// The declared dependencies of `node`; none when they cannot be decoded.
pub open spec fn declarations(view: GraphView, node: int) -> Seq<DeclaredDep> {
    match view.meta.packages@[node].dependencies {
        Decoded::Value(declared) => declared@,
        Decoded::Malformed(_) => Seq::empty(),
    }
}

/// The `[features]` table of `node`; an empty one when it cannot be decoded.
pub open spec fn feature_table_of(view: GraphView, node: int) -> Seq<Feature> {
    match view.meta.packages@[node].features {
        Decoded::Value(table) => table@,
        Decoded::Malformed(_) => Seq::empty(),
    }
}

/// Why the declarations or the features of `node` cannot be read.
pub open spec fn decode_fault(view: GraphView, node: int) -> Option<ErrorView> {
    match view.meta.packages@[node].dependencies {
        Decoded::Malformed(cause) => Some(
            ErrorView::CargoMetadataUnparseable { cause: cause@ },
        ),
        Decoded::Value(_) => match view.meta.packages@[node].features {
            Decoded::Malformed(cause) => Some(
                ErrorView::CargoMetadataUnparseable { cause: cause@ },
            ),
            Decoded::Value(_) => None,
        },
    }
}

/// Whether `table` has a feature `feature`.
pub open spec fn defines(table: Seq<Feature>, feature: Seq<char>) -> bool {
    exists|i: int| 0 <= i < table.len() && (#[trigger] table[i]).name@ == feature
}

/// Whether `entry` names the dependency `name` with `dep:` syntax.
pub open spec fn names_dependency(entry: Seq<char>, name: Seq<char>) -> bool {
    has_prefix(entry, "dep:"@) && trimmed_end(entry.skip(4), '?') == name
}

/// Whether some feature value already references `name` through `dep:` syntax: Cargo then
/// creates no implicit feature of that name.
pub open spec fn suppresses(table: Seq<Feature>, name: Seq<char>) -> bool {
    exists|i: int, j: int|
        0 <= i < table.len() && 0 <= j < table[i].entries@.len() && names_dependency(
            (#[trigger] table[i].entries@[j])@,
            name,
        )
}

/// Whether a normal declaration of package `package` by `node` has the library name `library`.
pub open spec fn claims(view: GraphView, node: int, package: Seq<char>, library: Seq<char>) -> bool {
    exists|i: int|
        0 <= i < declarations(view, node).len() && (#[trigger] declarations(view, node)[i]).kind
            is None && declarations(view, node)[i].name@ == package && library_name_of(
            declarations(view, node)[i].used_as(),
        ) == library
}

/// Whether `edge` belongs to the declaration `declaration` of the package it leaves.
///
/// Equal library names are a match. A name no declaration claims is a `[lib] name` override —
/// no declaration could have spelled it, so the edge belongs to whichever declarations name
/// that package. A document without the edge's name falls back to the package name alone.
pub open spec fn belongs(view: GraphView, edge: Edge, declaration: DeclaredDep) -> bool {
    &&& view.name(edge.to) == declaration.name@
    &&& match edge.dep.name {
        None => true,
        Some(actual) => actual@ == library_name_of(declaration.used_as()) || !claims(
            view,
            edge.from,
            declaration.name@,
            actual@,
        ),
    }
}

/// Whether the `i`th declaration of `node` is a normal one that uses its package as `name`.
pub open spec fn declares(view: GraphView, node: int, i: int, name: Seq<char>) -> bool {
    &&& 0 <= i < declarations(view, node).len()
    &&& declarations(view, node)[i].kind is None
    &&& declarations(view, node)[i].used_as() == name
}

/// Whether the `i`th declaration of `node`, which uses its package as `name`, resolves to the
/// package that `edge` points to.
pub open spec fn links(view: GraphView, node: int, name: Seq<char>, i: int, edge: int) -> bool {
    &&& declares(view, node, i, name)
    &&& 0 <= edge < view.edges.len()
    &&& view.edges[edge].from == node
    &&& belongs(view, view.edges[edge], declarations(view, node)[i])
}

/// Whether turning on dependency `name` of `node` turns on `edge`.
pub open spec fn resolves(view: GraphView, node: int, name: Seq<char>, edge: int) -> bool {
    exists|i: int| links(view, node, name, i, edge)
}

/// Whether a walk from `root` under `selection` starts with `feature`.
pub open spec fn seeded(view: GraphView, root: int, selection: SelectionView, feature: Seq<char>) -> bool {
    match selection {
        SelectionView::Nothing => false,
        SelectionView::Default => feature == "default"@,
        SelectionView::List(features) => features.contains(feature),
        SelectionView::All => defines(feature_table_of(view, root), feature) || (exists|i: int|
            declares(view, root, i, feature) && declarations(view, root)[i].optional && !suppresses(
                feature_table_of(view, root),
                feature,
            )),
    }
}

/// Whether `facts` hold what a walk from `root` under `selection` starts with.
pub open spec fn holds_seed(view: GraphView, root: int, selection: SelectionView, facts: Set<Fact>) -> bool {
    &&& facts.contains(Fact::Node(root))
    &&& forall|feature: Seq<char>|
        #![trigger facts.contains(Fact::Feature(root, feature))]
        seeded(view, root, selection, feature) ==> facts.contains(Fact::Feature(root, feature))
}

/// Whether `facts` hold what turning on `node` turns on: its unconditional normal
/// declarations.
pub open spec fn node_done(view: GraphView, node: int, facts: Set<Fact>) -> bool {
    forall|i: int, name: Seq<char>|
        #[trigger] declares(view, node, i, name) && !declarations(view, node)[i].optional
            ==> facts.contains(Fact::Dependency(node, name))
}

/// Whether `facts` hold what the declaration `declaration` passes on to the package that `edge`
/// points to.
pub open spec fn link_done(view: GraphView, declaration: DeclaredDep, edge: int, facts: Set<Fact>) -> bool {
    let to = view.edges[edge].to;
    &&& facts.contains(Fact::Edge(edge))
    &&& facts.contains(Fact::Node(to))
    &&& declaration.uses_default_features ==> facts.contains(Fact::Feature(to, "default"@))
    &&& forall|k: int|
        0 <= k < declaration.features@.len() ==> facts.contains(
            Fact::Feature(to, (#[trigger] declaration.features@[k])@),
        )
}

/// Whether `facts` hold what turning on dependency `name` of `node` turns on.
pub open spec fn dependency_done(view: GraphView, node: int, name: Seq<char>, facts: Set<Fact>) -> bool {
    &&& forall|i: int, edge: int|
        #[trigger] links(view, node, name, i, edge) ==> link_done(
            view,
            declarations(view, node)[i],
            edge,
            facts,
        )
    &&& forall|feature: Seq<char>|
        #[trigger] facts.contains(Fact::Request(node, name, feature)) ==> request_done(
            view,
            node,
            name,
            feature,
            facts,
        )
}

/// Whether `facts` hold `feature` on everything that dependency `name` of `node` resolves to.
pub open spec fn request_done(
    view: GraphView,
    node: int,
    name: Seq<char>,
    feature: Seq<char>,
    facts: Set<Fact>,
) -> bool {
    forall|edge: int|
        #[trigger] resolves(view, node, name, edge) ==> facts.contains(
            Fact::Feature(view.edges[edge].to, feature),
        )
}

/// Whether `facts` hold what an entry of a feature of `node` turns on.
pub open spec fn entry_done(node: int, entry: EntryView, facts: Set<Fact>) -> bool {
    match entry {
        EntryView::Dependency(name) => facts.contains(Fact::Dependency(node, name)),
        EntryView::Feature(feature) => facts.contains(Fact::Feature(node, feature)),
        EntryView::Strong(name, feature) => facts.contains(Fact::Dependency(node, name))
            && facts.contains(Fact::Request(node, name, feature)),
        EntryView::Weak(name, feature) => facts.contains(Fact::Request(node, name, feature)),
    }
}

/// Whether `facts` hold what turning on feature `feature` of `node` turns on.
///
/// A declared feature shadows the implicit feature of an optional dependency of the same name:
/// the table wins wherever it has a key, and the implicit feature applies only where it does
/// not, and not even there when `dep:` syntax decoupled the two. `default` is no exception.
pub open spec fn feature_done(view: GraphView, node: int, feature: Seq<char>, facts: Set<Fact>) -> bool {
    let table = feature_table_of(view, node);
    &&& !defines(table, feature) && !suppresses(table, feature) ==> facts.contains(
        Fact::Dependency(node, feature),
    )
    &&& forall|i: int, j: int|
        #![trigger table[i].entries@[j]]
        0 <= i < table.len() && table[i].name@ == feature && 0 <= j < table[i].entries@.len()
            ==> entry_done(node, entry_of(table[i].entries@[j]@), facts)
}

/// Whether `facts` hold what `fact` turns on.
pub open spec fn done(view: GraphView, fact: Fact, facts: Set<Fact>) -> bool {
    match fact {
        Fact::Node(node) => node_done(view, node, facts),
        Fact::Dependency(node, name) => dependency_done(view, node, name, facts),
        Fact::Feature(node, feature) => feature_done(view, node, feature, facts),
        _ => true,
    }
}

/// Whether `facts` hold the seed of a walk, and with every fact what it turns on.
pub open spec fn closed(view: GraphView, root: int, selection: SelectionView, facts: Set<Fact>) -> bool {
    &&& holds_seed(view, root, selection, facts)
    &&& forall|fact: Fact| #[trigger] facts.contains(fact) ==> done(view, fact, facts)
}

/// What a build of `root` under `selection` turns on: the least closed set of facts.
pub open spec fn activated(view: GraphView, root: int, selection: SelectionView) -> Set<Fact> {
    Set::new(
        |fact: Fact|
            forall|facts: Set<Fact>|
                #[trigger] closed(view, root, selection, facts) ==> facts.contains(fact),
    )
}


/// A fact that is done stays done when facts are added, unless they are requests.
proof fn done_stays(view: GraphView, fact: Fact, facts: Set<Fact>, more: Set<Fact>)
    requires
        done(view, fact, facts),
        facts.subset_of(more),
        forall|node: int, name: Seq<char>, feature: Seq<char>|
            #[trigger] more.contains(Fact::Request(node, name, feature)) ==> facts.contains(
                Fact::Request(node, name, feature),
            ),
    ensures
        done(view, fact, more),
{
    match fact {
        Fact::Node(node) => {
            assert(node_done(view, node, more));
        },
        Fact::Dependency(node, name) => {
            assert forall|i: int, edge: int| #[trigger] links(view, node, name, i, edge) implies
                link_done(view, declarations(view, node)[i], edge, more) by {
                assert(link_done(view, declarations(view, node)[i], edge, facts));
            }
            assert forall|feature: Seq<char>|
                #[trigger] more.contains(Fact::Request(node, name, feature)) implies request_done(
                view,
                node,
                name,
                feature,
                more,
            ) by {
                assert(request_done(view, node, name, feature, facts));
            }
        },
        Fact::Feature(node, feature) => {
            let table = feature_table_of(view, node);
            assert forall|i: int, j: int|
                #![trigger table[i].entries@[j]]
                0 <= i < table.len() && table[i].name@ == feature && 0 <= j
                    < table[i].entries@.len() implies entry_done(
                node,
                entry_of(table[i].entries@[j]@),
                more,
            ) by {
                assert(entry_done(node, entry_of(table[i].entries@[j]@), facts));
            }
        },
        _ => {},
    }
}

/// What is activated is closed: with every fact it holds what that fact turns on.
pub proof fn activation_is_closed(view: GraphView, root: int, selection: SelectionView)
    ensures
        closed(view, root, selection, activated(view, root, selection)),
{
    let least = activated(view, root, selection);
    assert forall|fact: Fact| #[trigger] least.contains(fact) implies done(view, fact, least) by {
        match fact {
            Fact::Node(node) => {
                assert forall|i: int, name: Seq<char>|
                    #[trigger] declares(view, node, i, name) && !declarations(view, node)[i].optional
                    implies least.contains(Fact::Dependency(node, name)) by {
                    assert forall|facts: Set<Fact>| #[trigger] closed(view, root, selection, facts)
                        implies facts.contains(Fact::Dependency(node, name)) by {
                        assert(facts.contains(fact));
                        assert(node_done(view, node, facts));
                    }
                }
            },
            Fact::Dependency(node, name) => {
                assert forall|i: int, edge: int| #[trigger] links(view, node, name, i, edge) implies
                    link_done(view, declarations(view, node)[i], edge, least) by {
                    let declaration = declarations(view, node)[i];
                    assert forall|facts: Set<Fact>| #[trigger] closed(view, root, selection, facts)
                        implies link_done(view, declaration, edge, facts) by {
                        assert(facts.contains(fact));
                        assert(dependency_done(view, node, name, facts));
                    }
                    assert forall|k: int| 0 <= k < declaration.features@.len() implies least.contains(
                        Fact::Feature(
                            view.edges[edge].to,
                            (#[trigger] declaration.features@[k])@,
                        ),
                    ) by {
                        assert forall|facts: Set<Fact>| #[trigger] closed(
                            view,
                            root,
                            selection,
                            facts,
                        ) implies facts.contains(
                            Fact::Feature(view.edges[edge].to, declaration.features@[k]@),
                        ) by {
                            assert(link_done(view, declaration, edge, facts));
                        }
                    }
                }
                assert forall|feature: Seq<char>|
                    #[trigger] least.contains(Fact::Request(node, name, feature)) implies
                    request_done(view, node, name, feature, least) by {
                    assert forall|edge: int| #[trigger] resolves(view, node, name, edge) implies
                        least.contains(Fact::Feature(view.edges[edge].to, feature)) by {
                        assert forall|facts: Set<Fact>| #[trigger] closed(
                            view,
                            root,
                            selection,
                            facts,
                        ) implies facts.contains(Fact::Feature(view.edges[edge].to, feature)) by {
                            assert(facts.contains(fact));
                            assert(dependency_done(view, node, name, facts));
                            assert(facts.contains(Fact::Request(node, name, feature)));
                            assert(request_done(view, node, name, feature, facts));
                        }
                    }
                }
            },
            Fact::Feature(node, feature) => {
                let table = feature_table_of(view, node);
                if !defines(table, feature) && !suppresses(table, feature) {
                    assert forall|facts: Set<Fact>| #[trigger] closed(view, root, selection, facts)
                        implies facts.contains(Fact::Dependency(node, feature)) by {
                        assert(facts.contains(fact));
                        assert(feature_done(view, node, feature, facts));
                    }
                }
                assert forall|i: int, j: int|
                    #![trigger table[i].entries@[j]]
                    0 <= i < table.len() && table[i].name@ == feature && 0 <= j
                        < table[i].entries@.len() implies entry_done(
                    node,
                    entry_of(table[i].entries@[j]@),
                    least,
                ) by {
                    let entry = entry_of(table[i].entries@[j]@);
                    assert forall|facts: Set<Fact>| #[trigger] closed(view, root, selection, facts)
                        implies entry_done(node, entry, facts) by {
                        assert(facts.contains(fact));
                        assert(feature_done(view, node, feature, facts));
                        assert(entry_done(node, entry_of(table[i].entries@[j]@), facts));
                    }
                }
            },
            _ => {},
        }
    }
}

/// What is closed holds everything that is activated.
pub(crate) proof fn activation_is_least(view: GraphView, root: int, selection: SelectionView, facts: Set<Fact>)
    requires
        closed(view, root, selection, facts),
    ensures
        activated(view, root, selection).subset_of(facts),
{
}

/// Everything in one of `parts`.
spec fn gathered<T>(parts: Seq<Set<T>>) -> Set<T>
    decreases parts.len(),
{
    if parts.len() == 0 {
        Set::empty()
    } else {
        gathered(parts.drop_last()).union(parts.last())
    }
}

proof fn gathered_holds<T>(parts: Seq<Set<T>>, i: int, x: T)
    requires
        0 <= i < parts.len(),
        parts[i].contains(x),
    ensures
        gathered(parts).contains(x),
    decreases parts.len(),
{
    if i < parts.len() - 1 {
        gathered_holds(parts.drop_last(), i, x);
    }
}

proof fn gathered_is_finite<T>(parts: Seq<Set<T>>)
    requires
        forall|i: int| 0 <= i < parts.len() ==> (#[trigger] parts[i]).finite(),
    ensures
        gathered(parts).finite(),
    decreases parts.len(),
{
    if parts.len() > 0 {
        assert forall|i: int| 0 <= i < parts.drop_last().len() implies (
        #[trigger] parts.drop_last()[i]).finite() by {
            assert(parts[i].finite());
        }
        gathered_is_finite(parts.drop_last());
        assert(parts[parts.len() - 1].finite());
    }
}

/// The names in an entry of a feature.
spec fn entry_words(entry: Seq<char>) -> Set<Seq<char>> {
    match entry_of(entry) {
        EntryView::Dependency(name) => set![name],
        EntryView::Feature(feature) => set![feature],
        EntryView::Strong(name, feature) => set![name, feature],
        EntryView::Weak(name, feature) => set![name, feature],
    }
}

/// The names in a feature.
spec fn feature_words(feature: Feature) -> Set<Seq<char>> {
    gathered(
        Seq::new(feature.entries@.len(), |j: int| entry_words(feature.entries@[j]@)),
    ).insert(feature.name@)
}

/// The names in a declaration.
spec fn declaration_words(declaration: DeclaredDep) -> Set<Seq<char>> {
    text::texts(declaration.features@).to_set().insert(declaration.used_as())
}

/// The names that `node` holds.
spec fn node_words(view: GraphView, node: int) -> Set<Seq<char>> {
    gathered(
        Seq::new(
            declarations(view, node).len(),
            |i: int| declaration_words(declarations(view, node)[i]),
        ),
    ).union(
        gathered(
            Seq::new(
                feature_table_of(view, node).len(),
                |i: int| feature_words(feature_table_of(view, node)[i]),
            ),
        ),
    )
}

/// The names that a walk can meet.
spec fn walk_words(view: GraphView, selection: SelectionView) -> Set<Seq<char>> {
    let held = gathered(Seq::new(view.count() as nat, |u: int| node_words(view, u))).insert(
        "default"@,
    );
    match selection {
        SelectionView::List(features) => held.union(features.to_set()),
        _ => held,
    }
}

proof fn walk_words_are_finite(view: GraphView, selection: SelectionView)
    ensures
        walk_words(view, selection).finite(),
{
    let nodes = Seq::new(view.count() as nat, |u: int| node_words(view, u));
    assert forall|u: int| 0 <= u < nodes.len() implies (#[trigger] nodes[u]).finite() by {
        let declared = Seq::new(
            declarations(view, u).len(),
            |i: int| declaration_words(declarations(view, u)[i]),
        );
        let table = Seq::new(
            feature_table_of(view, u).len(),
            |i: int| feature_words(feature_table_of(view, u)[i]),
        );
        assert forall|i: int| 0 <= i < declared.len() implies (#[trigger] declared[i]).finite() by {
            vstd::seq_lib::seq_to_set_is_finite(text::texts(declarations(view, u)[i].features@));
        }
        assert forall|i: int| 0 <= i < table.len() implies (#[trigger] table[i]).finite() by {
            let feature = feature_table_of(view, u)[i];
            let entries = Seq::new(
                feature.entries@.len(),
                |j: int| entry_words(feature.entries@[j]@),
            );
            assert forall|j: int| 0 <= j < entries.len() implies (#[trigger] entries[j]).finite() by {
            }
            gathered_is_finite(entries);
        }
        gathered_is_finite(declared);
        gathered_is_finite(table);
    }
    gathered_is_finite(nodes);
    if let SelectionView::List(features) = selection {
        vstd::seq_lib::seq_to_set_is_finite(features);
    }
}

/// Whether `fact` is about a package, an edge and names that a walk can meet.
spec fn within(view: GraphView, words: Set<Seq<char>>, fact: Fact) -> bool {
    match fact {
        Fact::Node(node) => 0 <= node < view.count(),
        Fact::Edge(edge) => 0 <= edge < view.edges.len(),
        Fact::Dependency(node, name) => 0 <= node < view.count() && words.contains(name),
        Fact::Feature(node, feature) => 0 <= node < view.count() && words.contains(feature),
        Fact::Request(node, name, feature) => 0 <= node < view.count() && words.contains(name)
            && words.contains(feature),
    }
}

proof fn declared_words_are_met(view: GraphView, selection: SelectionView, node: int, i: int)
    requires
        0 <= node < view.count(),
        0 <= i < declarations(view, node).len(),
    ensures
        walk_words(view, selection).contains(declarations(view, node)[i].used_as()),
        forall|k: int|
            0 <= k < declarations(view, node)[i].features@.len() ==> walk_words(
                view,
                selection,
            ).contains((#[trigger] declarations(view, node)[i].features@[k])@),
{
    let nodes = Seq::new(view.count() as nat, |u: int| node_words(view, u));
    let declared = Seq::new(
        declarations(view, node).len(),
        |i: int| declaration_words(declarations(view, node)[i]),
    );
    let declaration = declarations(view, node)[i];
    gathered_holds(declared, i, declaration.used_as());
    gathered_holds(nodes, node, declaration.used_as());
    assert forall|k: int| 0 <= k < declaration.features@.len() implies walk_words(
        view,
        selection,
    ).contains((#[trigger] declaration.features@[k])@) by {
        let words = text::texts(declaration.features@);
        let word = declaration.features@[k]@;
        assert(words[k] == word);
        assert(words.contains(word));
        assert(declared[i].contains(word));
        gathered_holds(declared, i, word);
        gathered_holds(nodes, node, word);
    }
}

proof fn feature_words_are_met(view: GraphView, selection: SelectionView, node: int, i: int)
    requires
        0 <= node < view.count(),
        0 <= i < feature_table_of(view, node).len(),
    ensures
        walk_words(view, selection).contains(feature_table_of(view, node)[i].name@),
        forall|j: int, word: Seq<char>|
            #![trigger feature_table_of(view, node)[i].entries@[j], walk_words(view, selection).contains(word)]
            0 <= j < feature_table_of(view, node)[i].entries@.len() && entry_words(
                feature_table_of(view, node)[i].entries@[j]@,
            ).contains(word) ==> walk_words(view, selection).contains(word),
{
    let nodes = Seq::new(view.count() as nat, |u: int| node_words(view, u));
    let table = Seq::new(
        feature_table_of(view, node).len(),
        |i: int| feature_words(feature_table_of(view, node)[i]),
    );
    let feature = feature_table_of(view, node)[i];
    gathered_holds(table, i, feature.name@);
    gathered_holds(nodes, node, feature.name@);
    let entries = Seq::new(feature.entries@.len(), |j: int| entry_words(feature.entries@[j]@));
    assert forall|j: int, word: Seq<char>|
        #![trigger feature.entries@[j], walk_words(view, selection).contains(word)]
        0 <= j < feature.entries@.len() && entry_words(feature.entries@[j]@).contains(word) implies
        walk_words(view, selection).contains(word) by {
        gathered_holds(entries, j, word);
        gathered_holds(table, i, word);
        gathered_holds(nodes, node, word);
    }
}

/// The facts that a walk can meet are closed.
proof fn within_is_closed(view: GraphView, root: int, selection: SelectionView)
    requires
        view.consistent(),
        0 <= root < view.count(),
    ensures
        closed(
            view,
            root,
            selection,
            Set::new(|fact: Fact| within(view, walk_words(view, selection), fact)),
        ),
{
    let words = walk_words(view, selection);
    let facts = Set::new(|fact: Fact| within(view, words, fact));
    assert forall|feature: Seq<char>|
        #![trigger facts.contains(Fact::Feature(root, feature))]
        seeded(view, root, selection, feature) implies facts.contains(
        Fact::Feature(root, feature),
    ) by {
        if let SelectionView::All = selection {
            let table = feature_table_of(view, root);
            if defines(table, feature) {
                let i = choose|i: int|
                    0 <= i < table.len() && (#[trigger] table[i]).name@ == feature;
                feature_words_are_met(view, selection, root, i);
            } else {
                let i = choose|i: int|
                    declares(view, root, i, feature) && declarations(view, root)[i].optional
                        && !suppresses(table, feature);
                declared_words_are_met(view, selection, root, i);
            }
        }
    }
    assert forall|fact: Fact| #[trigger] facts.contains(fact) implies done(view, fact, facts) by {
        match fact {
            Fact::Node(node) => {
                assert forall|i: int, name: Seq<char>|
                    #[trigger] declares(view, node, i, name) && !declarations(view, node)[i].optional
                    implies facts.contains(Fact::Dependency(node, name)) by {
                    declared_words_are_met(view, selection, node, i);
                }
            },
            Fact::Dependency(node, name) => {
                assert forall|i: int, edge: int| #[trigger] links(view, node, name, i, edge) implies
                    link_done(view, declarations(view, node)[i], edge, facts) by {
                    declared_words_are_met(view, selection, node, i);
                    assert(0 <= view.edges[edge].to < view.count());
                }
                assert forall|feature: Seq<char>|
                    #[trigger] facts.contains(Fact::Request(node, name, feature)) implies
                    request_done(view, node, name, feature, facts) by {
                    assert forall|edge: int| #[trigger] resolves(view, node, name, edge) implies
                        facts.contains(Fact::Feature(view.edges[edge].to, feature)) by {
                        let i = choose|i: int| links(view, node, name, i, edge);
                        assert(links(view, node, name, i, edge));
                        assert(0 <= view.edges[edge].to < view.count());
                    }
                }
            },
            Fact::Feature(node, feature) => {
                let table = feature_table_of(view, node);
                assert forall|i: int, j: int|
                    #![trigger table[i].entries@[j]]
                    0 <= i < table.len() && table[i].name@ == feature && 0 <= j
                        < table[i].entries@.len() implies entry_done(
                    node,
                    entry_of(table[i].entries@[j]@),
                    facts,
                ) by {
                    feature_words_are_met(view, selection, node, i);
                    let entry = table[i].entries@[j]@;
                    match entry_of(entry) {
                        EntryView::Dependency(name) => {
                            assert(entry_words(entry).contains(name));
                            assert(words.contains(name));
                        },
                        EntryView::Feature(feature) => {
                            assert(entry_words(entry).contains(feature));
                            assert(words.contains(feature));
                        },
                        EntryView::Strong(name, feature) => {
                            assert(entry_words(entry).contains(name));
                            assert(entry_words(entry).contains(feature));
                            assert(words.contains(name));
                            assert(words.contains(feature));
                        },
                        EntryView::Weak(name, feature) => {
                            assert(entry_words(entry).contains(name));
                            assert(entry_words(entry).contains(feature));
                            assert(words.contains(name));
                            assert(words.contains(feature));
                        },
                    }
                }
            },
            _ => {},
        }
    }
}

/// The facts that a walk can still have to work on.
spec fn workload(view: GraphView, words: Set<Seq<char>>) -> Set<Fact> {
    gathered(
        Seq::new(
            view.count() as nat,
            |u: int|
                words.map(|word: Seq<char>| Fact::Dependency(u, word)).union(
                    words.map(|word: Seq<char>| Fact::Feature(u, word)),
                ).insert(Fact::Node(u)),
        ),
    )
}

proof fn workload_is_finite(view: GraphView, words: Set<Seq<char>>)
    requires
        words.finite(),
    ensures
        workload(view, words).finite(),
{
    let parts = Seq::new(
        view.count() as nat,
        |u: int|
            words.map(|word: Seq<char>| Fact::Dependency(u, word)).union(
                words.map(|word: Seq<char>| Fact::Feature(u, word)),
            ).insert(Fact::Node(u)),
    );
    assert forall|u: int| 0 <= u < parts.len() implies (#[trigger] parts[u]).finite() by {
        words.lemma_map_finite(|word: Seq<char>| Fact::Dependency(u, word));
        words.lemma_map_finite(|word: Seq<char>| Fact::Feature(u, word));
    }
    gathered_is_finite(parts);
}

proof fn workload_holds(view: GraphView, words: Set<Seq<char>>, fact: Fact)
    requires
        within(view, words, fact),
        fact is Node || fact is Dependency || fact is Feature,
    ensures
        workload(view, words).contains(fact),
{
    let parts = Seq::new(
        view.count() as nat,
        |u: int|
            words.map(|word: Seq<char>| Fact::Dependency(u, word)).union(
                words.map(|word: Seq<char>| Fact::Feature(u, word)),
            ).insert(Fact::Node(u)),
    );
    match fact {
        Fact::Node(node) => {
            gathered_holds(parts, node, fact);
        },
        Fact::Dependency(node, name) => {
            let image = words.map(|word: Seq<char>| Fact::Dependency(node, word));
            assert(image.contains(fact)) by {
                assert(words.contains(name));
            }
            gathered_holds(parts, node, fact);
        },
        Fact::Feature(node, feature) => {
            let image = words.map(|word: Seq<char>| Fact::Feature(node, word));
            assert(image.contains(fact)) by {
                assert(words.contains(feature));
            }
            gathered_holds(parts, node, fact);
        },
        _ => {},
    }
}


/// Cargo's library-target spelling of a dependency name: `-` becomes `_`.
fn library_name(name: &str) -> (library: String)
    ensures
        library@ == library_name_of(name@),
{
    let chars = text::chars_of(name);
    let mut library = String::new();
    let mut at: usize = 0;
    while at < chars.len()
        invariant
            at <= chars@.len(),
            chars@ == name@,
            library@ == library_name_of(name@).take(at as int),
        decreases chars@.len() - at,
    {
        if chars[at] == '-' {
            library.push('_');
        } else {
            library.push(chars[at]);
        }
        at = at + 1;
        assert(library@ =~= library_name_of(name@).take(at as int));
    }
    assert(library_name_of(name@).take(at as int) =~= library_name_of(name@));
    library
}

/// One entry of a feature's value list, as text.
enum Entry {
    Dependency(String),
    Feature(String),
    Strong(String, String),
    Weak(String, String),
}

impl View for Entry {
    type V = EntryView;

    closed spec fn view(&self) -> EntryView {
        match *self {
            Entry::Dependency(name) => EntryView::Dependency(name@),
            Entry::Feature(feature) => EntryView::Feature(feature@),
            Entry::Strong(name, feature) => EntryView::Strong(name@, feature@),
            Entry::Weak(name, feature) => EntryView::Weak(name@, feature@),
        }
    }
}

/// Takes an entry of a feature's value list apart.
fn parse_entry(entry: &str) -> (parsed: Entry)
    ensures
        parsed@ == entry_of(entry@),
{
    proof {
        reveal_strlit("dep:");
    }
    if let Some(name) = text::strip_prefix(entry, "dep:") {
        return Entry::Dependency(name);
    }
    match text::split_at_first(entry, '/') {
        None => Entry::Feature(entry.to_owned()),
        Some((dependency, feature)) => {
            let chars = text::chars_of(dependency.as_str());
            if chars.len() > 0 && chars[chars.len() - 1] == '?' {
                let weak = text::string_of(&chars, 0, chars.len() - 1);
                assert(weak@ =~= dependency@.drop_last());
                Entry::Weak(weak, feature)
            } else {
                Entry::Strong(dependency, feature)
            }
        },
    }
}

/// Whether some feature value already references `name` through `dep:` syntax.
fn is_suppressed(table: &Vec<Feature>, name: &str) -> (suppressed: bool)
    ensures
        suppressed == suppresses(table@, name@),
{
    proof {
        reveal_strlit("dep:");
    }
    let mut at: usize = 0;
    while at < table.len()
        invariant
            "dep:"@.len() == 4,
            at <= table@.len(),
            forall|i: int, j: int|
                0 <= i < at && 0 <= j < table@[i].entries@.len() ==> !names_dependency(
                    (#[trigger] table@[i].entries@[j])@,
                    name@,
                ),
        decreases table@.len() - at,
    {
        let entries = &table[at].entries;
        let mut next: usize = 0;
        while next < entries.len()
            invariant
                "dep:"@.len() == 4,
                at < table@.len(),
                *entries == table@[at as int].entries,
                next <= entries@.len(),
                forall|j: int|
                    0 <= j < next ==> !names_dependency((#[trigger] entries@[j])@, name@),
            decreases entries@.len() - next,
        {
            if let Some(dependency) = text::strip_prefix(entries[next].as_str(), "dep:") {
                let trimmed = text::trim_end(dependency.as_str(), '?');
                if text::same(trimmed.as_str(), name) {
                    assert(names_dependency(table@[at as int].entries@[next as int]@, name@));
                    return true;
                }
            }
            next = next + 1;
        }
        at = at + 1;
    }
    false
}

/// Whether `table` has a feature `feature`.
fn is_defined(table: &Vec<Feature>, feature: &str) -> (defined: bool)
    ensures
        defined == defines(table@, feature@),
{
    let mut at: usize = 0;
    while at < table.len()
        invariant
            at <= table@.len(),
            forall|i: int| 0 <= i < at ==> (#[trigger] table@[i]).name@ != feature@,
        decreases table@.len() - at,
    {
        if text::same(table[at].name.as_str(), feature) {
            return true;
        }
        at = at + 1;
    }
    false
}

/// Decodes the `[features]` table of `node`.
fn feature_table<'m>(graph: &Graph<'m>, node: u32) -> (table: Result<&'m Vec<Feature>, Error>)
    requires
        graph.wf(),
        node < graph@.count(),
    ensures
        match graph@.meta.packages@[node as int].features {
            Decoded::Value(value) => table == Ok::<&Vec<Feature>, Error>(&value),
            Decoded::Malformed(cause) => table is Err && table->Err_0@
                == (ErrorView::CargoMetadataUnparseable { cause: cause@ }),
        },
{
    match &graph.package(node).features {
        Decoded::Value(table) => Ok(table),
        Decoded::Malformed(cause) => Err(
            Error::CargoMetadataUnparseable { cause: cause.as_str().to_owned() },
        ),
    }
}

/// Whether a normal declaration of `package` among `declared` has the library name `library`.
fn is_claimed(declared: &Vec<DeclaredDep>, package: &str, library: &str) -> (claimed: bool)
    ensures
        claimed == exists|i: int|
            0 <= i < declared@.len() && (#[trigger] declared@[i]).kind is None && declared@[i].name@
                == package@ && library_name_of(declared@[i].used_as()) == library@,
{
    let mut at: usize = 0;
    while at < declared.len()
        invariant
            at <= declared@.len(),
            forall|i: int|
                0 <= i < at ==> !((#[trigger] declared@[i]).kind is None && declared@[i].name@
                    == package@ && library_name_of(declared@[i].used_as()) == library@),
        decreases declared@.len() - at,
    {
        let dep = &declared[at];
        if dep.is_normal() && text::same(dep.name.as_str(), package) {
            let spelled = library_name(dep.extern_name());
            if text::same(spelled.as_str(), library) {
                return true;
            }
        }
        at = at + 1;
    }
    false
}

/// Whether `edge` belongs to the declaration `declaration` of the package it leaves.
fn edge_belongs(
    graph: &Graph<'_>,
    declared: &Vec<DeclaredDep>,
    declaration: &DeclaredDep,
    edge: u32,
) -> (belonging: bool)
    requires
        graph.wf(),
        edge < graph@.edges.len(),
        declarations(graph@, graph@.edges[edge as int].from) == declared@,
    ensures
        belonging == belongs(graph@, graph@.edges[edge as int], *declaration),
{
    let target = graph.edge_target(edge);
    if !text::same(graph.name(target), declaration.name.as_str()) {
        return false;
    }
    match graph.edge_extern_name(edge) {
        None => true,
        Some(actual) => {
            let wanted = library_name(declaration.extern_name());
            text::same(actual, wanted.as_str()) || !is_claimed(
                declared,
                declaration.name.as_str(),
                actual,
            )
        },
    }
}

/// One unit of pending work. Every task is enqueued at most once, guarded by the fact it stands
/// for, so the walk is linear in what it activates.
enum Task {
    /// Pull a package's unconditional normal declarations.
    Node(u32),
    /// Turn one declared dependency of a package on, addressed by its extern name.
    Dependency(u32, String),
    /// Expand one feature of a package.
    Feature(u32, String),
}

/// The fact that a task stands for.
spec fn fact_of(task: Task) -> Fact {
    match task {
        Task::Node(node) => Fact::Node(node as int),
        Task::Dependency(node, name) => Fact::Dependency(node as int, name@),
        Task::Feature(node, feature) => Fact::Feature(node as int, feature@),
    }
}

/// The facts that the tasks of `queue` stand for.
spec fn queued(queue: Seq<Task>) -> Set<Fact> {
    Set::new(|fact: Fact| exists|i: int| 0 <= i < queue.len() && fact_of(#[trigger] queue[i]) == fact)
}

/// Whether the tasks of `queue` stand for facts of `facts`, each once.
spec fn queue_is(queue: Seq<Task>, facts: Set<Fact>) -> bool {
    &&& forall|i: int| 0 <= i < queue.len() ==> facts.contains(fact_of(#[trigger] queue[i]))
    &&& forall|i: int, j: int|
        #![trigger queue[i], queue[j]]
        0 <= i < j < queue.len() ==> fact_of(queue[i]) != fact_of(queue[j])
}

proof fn queue_pushed(queue: Seq<Task>, task: Task, facts: Set<Fact>)
    requires
        queue_is(queue, facts),
        !facts.contains(fact_of(task)),
    ensures
        queue_is(queue.push(task), facts.insert(fact_of(task))),
        queued(queue.push(task)) == queued(queue).insert(fact_of(task)),
{
    let now = queue.push(task);
    let fact = fact_of(task);
    assert(now[queue.len() as int] == task);
    assert forall|f: Fact| queued(now).contains(f) == queued(queue).insert(fact).contains(f) by {
        if queued(now).contains(f) {
            let i = choose|i: int| 0 <= i < now.len() && fact_of(#[trigger] now[i]) == f;
            if i < queue.len() {
                assert(fact_of(queue[i]) == f);
            }
        }
        if queued(queue).contains(f) {
            let i = choose|i: int| 0 <= i < queue.len() && fact_of(#[trigger] queue[i]) == f;
            assert(fact_of(now[i]) == f);
        }
    }
    assert(queued(now) =~= queued(queue).insert(fact));
    assert forall|i: int| 0 <= i < now.len() implies facts.insert(fact).contains(
        fact_of(#[trigger] now[i]),
    ) by {
        if i < queue.len() {
            assert(facts.contains(fact_of(queue[i])));
        }
    }
    assert forall|i: int, j: int|
        #![trigger now[i], now[j]]
        0 <= i < j < now.len() implies fact_of(now[i]) != fact_of(now[j]) by {
        assert(facts.contains(fact_of(queue[i])));
        if j < queue.len() {
            assert(fact_of(queue[i]) != fact_of(queue[j]));
        }
    }
}

proof fn queue_popped(queue: Seq<Task>, facts: Set<Fact>)
    requires
        queue_is(queue, facts),
        queue.len() > 0,
    ensures
        queue_is(queue.drop_last(), facts),
        queued(queue) == queued(queue.drop_last()).insert(fact_of(queue.last())),
        !queued(queue.drop_last()).contains(fact_of(queue.last())),
        facts.contains(fact_of(queue.last())),
{
    let less = queue.drop_last();
    let fact = fact_of(queue.last());
    assert forall|f: Fact| queued(queue).contains(f) == queued(less).insert(fact).contains(f) by {
        if queued(queue).contains(f) {
            let i = choose|i: int| 0 <= i < queue.len() && fact_of(#[trigger] queue[i]) == f;
            if i < less.len() {
                assert(fact_of(less[i]) == f);
            }
        }
        if queued(less).contains(f) {
            let i = choose|i: int| 0 <= i < less.len() && fact_of(#[trigger] less[i]) == f;
            assert(fact_of(queue[i]) == f);
        }
        assert(fact_of(queue[queue.len() - 1]) == fact);
    }
    assert(queued(queue) =~= queued(less).insert(fact));
    if queued(less).contains(fact) {
        let i = choose|i: int| 0 <= i < less.len() && fact_of(#[trigger] less[i]) == fact;
        assert(fact_of(queue[i]) != fact_of(queue[queue.len() - 1]));
    }
}

/// Whether every fact of `facts` but those of `open` is done.
spec fn done_but(view: GraphView, facts: Set<Fact>, open: Set<Fact>) -> bool {
    forall|fact: Fact|
        #[trigger] facts.contains(fact) && !open.contains(fact) ==> done(view, fact, facts)
}

/// A fact that is no request can be added, to be done later.
proof fn done_but_added(view: GraphView, facts: Set<Fact>, open: Set<Fact>, fact: Fact)
    requires
        done_but(view, facts, open),
        !(fact is Request),
    ensures
        done_but(view, facts.insert(fact), open.insert(fact)),
        facts.contains(fact) || fact is Edge ==> done_but(view, facts.insert(fact), open),
{
    let more = facts.insert(fact);
    assert forall|f: Fact| #[trigger] facts.contains(f) && !open.contains(f) implies done(
        view,
        f,
        more,
    ) by {
        done_stays(view, f, facts, more);
    }
    if facts.contains(fact) {
        assert(more =~= facts);
    }
}

/// The numbers of what a walk has turned on.
struct Progress {
    nodes: FixedBitSet,
    edges: FixedBitSet,
    /// Per node, the features requested on it.
    features: Vec<Index>,
    /// Per node, the extern names of the dependencies turned on.
    dependencies: Vec<Index>,
    /// Per node, the extern names of the dependencies that were linked to their edges.
    linked: Vec<Index>,
    /// Per node, the feature requests on its dependencies: extern name and feature.
    requests: Vec<Vec<(String, String)>>,
    queue: Vec<Task>,
    facts: Ghost<Set<Fact>>,
}

/// Whether `lists[node]` has exactly the names of the facts that `fact` builds.
spec fn has_names(lists: Seq<Index>, nodes: int, fact: spec_fn(int, Seq<char>) -> bool) -> bool {
    &&& lists.len() == nodes
    &&& forall|u: int, name: Seq<char>|
        #![trigger index::entries(lists[u]).dom().contains(name)]
        0 <= u < nodes ==> (index::entries(lists[u]).dom().contains(name) <==> fact(u, name))
}

impl Progress {
    /// Whether the tables hold exactly `facts`, and `queue` what is still to be worked on.
    spec fn tracks(&self, view: GraphView) -> bool {
        let facts = self.facts@;
        &&& bits::capacity(self.nodes) == view.count()
        &&& bits::capacity(self.edges) == view.edges.len()
        &&& forall|u: int|
            #[trigger] bits::ones(self.nodes).contains(u) <==> facts.contains(Fact::Node(u))
        &&& forall|e: int|
            #[trigger] bits::ones(self.edges).contains(e) <==> facts.contains(Fact::Edge(e))
        &&& has_names(
            self.features@,
            view.count(),
            |u: int, name: Seq<char>| facts.contains(Fact::Feature(u, name)),
        )
        &&& has_names(
            self.dependencies@,
            view.count(),
            |u: int, name: Seq<char>| facts.contains(Fact::Dependency(u, name)),
        )
        &&& has_names(
            self.linked@,
            view.count(),
            |u: int, name: Seq<char>|
                facts.contains(Fact::Dependency(u, name)) && !queued(self.queue@).contains(
                    Fact::Dependency(u, name),
                ),
        )
        &&& self.requests@.len() == view.count()
        &&& forall|u: int, name: Seq<char>, feature: Seq<char>|
            #![trigger facts.contains(Fact::Request(u, name, feature))]
            0 <= u < view.count() ==> (facts.contains(Fact::Request(u, name, feature))
                <==> is_requested(self.requests@[u]@, name, feature))
        &&& queue_is(self.queue@, facts)
        &&& forall|fact: Fact| #[trigger] facts.contains(fact) ==> in_range(view, fact)
    }
}

/// Requests by their characters.
spec fn asked(requests: Seq<(String, String)>) -> Seq<(Seq<char>, Seq<char>)> {
    Seq::new(requests.len(), |i: int| (requests[i].0@, requests[i].1@))
}

impl Progress {
    /// Where the walk stands.
    #[verifier::opaque]
    spec fn tour(&self) -> Tour {
        Tour {
            facts: self.facts@,
            stack: Seq::new(self.queue@.len(), |i: int| fact_of(self.queue@[i])),
            requests: Seq::new(self.requests@.len(), |u: int| asked(self.requests@[u]@)),
        }
    }
}

/// What is queued stands on the stack of the tour.
proof fn stack_is_queue(progress: Progress, fact: Fact)
    ensures
        progress.tour().stack.contains(fact) == queued(progress.queue@).contains(fact),
{
    reveal(Progress::tour);
    let stack = progress.tour().stack;
    if stack.contains(fact) {
        let i = choose|i: int| 0 <= i < stack.len() && stack[i] == fact;
        assert(fact_of(progress.queue@[i]) == fact);
    }
    if queued(progress.queue@).contains(fact) {
        let i = choose|i: int|
            0 <= i < progress.queue@.len() && fact_of(#[trigger] progress.queue@[i]) == fact;
        assert(stack[i] == fact);
    }
}

/// What turning a fact on that is no request does to the tour.
proof fn tour_goes_on(from: Progress, to: Progress, fact: Fact)
    requires
        !(fact is Request),
        to.facts@ == from.facts@.insert(fact),
        to.requests@ == from.requests@,
        from.facts@.contains(fact) || fact is Edge ==> to.queue@ == from.queue@,
        !from.facts@.contains(fact) && !(fact is Edge) ==> to.queue@.len() == from.queue@.len() + 1
            && to.queue@ == from.queue@.push(to.queue@.last()) && fact_of(to.queue@.last()) == fact,
    ensures
        to.tour() == turned_on(from.tour(), fact),
{
    reveal(Progress::tour);
    if from.facts@.contains(fact) {
        assert(from.facts@.insert(fact) =~= from.facts@);
    }
    if from.facts@.contains(fact) || fact is Edge {
        assert(to.tour().stack =~= from.tour().stack);
    } else {
        assert(to.tour().stack =~= from.tour().stack.push(fact));
    }
}

/// Whether `fact` is about a package and an edge of the graph.
spec fn in_range(view: GraphView, fact: Fact) -> bool {
    match fact {
        Fact::Node(node) => 0 <= node < view.count(),
        Fact::Edge(edge) => 0 <= edge < view.edges.len(),
        Fact::Dependency(node, _) => 0 <= node < view.count(),
        Fact::Feature(node, _) => 0 <= node < view.count(),
        Fact::Request(node, _, _) => 0 <= node < view.count(),
    }
}

/// Whether `feature` is requested on `name`.
spec fn is_requested(requests: Seq<(String, String)>, name: Seq<char>, feature: Seq<char>) -> bool {
    exists|i: int|
        0 <= i < requests.len() && (#[trigger] requests[i]).0@ == name && requests[i].1@ == feature
}

/// Whether every package of `facts` but those of `open` can be decoded.
spec fn readable_but(view: GraphView, facts: Set<Fact>, open: Set<Fact>) -> bool {
    forall|node: int|
        #[trigger] facts.contains(Fact::Node(node)) && !open.contains(Fact::Node(node))
            ==> decode_fault(view, node) is None
}

/// The package that a fact is about.
spec fn home(fact: Fact) -> Fact {
    match fact {
        Fact::Node(node) => fact,
        Fact::Edge(edge) => fact,
        Fact::Dependency(node, _) => Fact::Node(node),
        Fact::Feature(node, _) => Fact::Node(node),
        Fact::Request(node, _, _) => Fact::Node(node),
    }
}

/// What a walk works towards.
struct Aim {
    /// The graph.
    view: GraphView,
    /// The facts that are being worked on.
    open: Set<Fact>,
    /// The facts that may be turned on.
    goal: Set<Fact>,
}

impl Aim {
    /// Whether the goal holds with every fact what it turns on.
    spec fn sound(self) -> bool {
        forall|fact: Fact| #[trigger] self.goal.contains(fact) ==> done(self.view, fact, self.goal)
    }

    /// The same aim, with nothing being worked on.
    spec fn at_rest(self) -> Aim {
        Aim { open: Set::empty(), ..self }
    }
}

impl Progress {
    /// Whether only facts of the goal are on, and all of them done but those that are queued or
    /// being worked on.
    spec fn steady(&self, aim: Aim) -> bool {
        &&& self.tracks(aim.view)
        &&& self.facts@.subset_of(aim.goal)
        &&& done_but(aim.view, self.facts@, queued(self.queue@).union(aim.open))
        &&& readable_but(aim.view, self.facts@, queued(self.queue@).union(aim.open))
        &&& forall|fact: Fact| #[trigger] self.facts@.contains(fact) ==> self.facts@.contains(home(fact))
    }
}

/// Whether no package, dependency or feature was turned on on the way from `before` to `after`.
spec fn idle(before: Set<Fact>, after: Set<Fact>) -> bool {
    forall|fact: Fact|
        #[trigger] after.contains(fact) && !(fact is Edge) && !(fact is Request) ==> before.contains(
            fact,
        )
}

/// Whether `to` has what `from` has, and more work only with more facts.
spec fn advanced(from: Progress, to: Progress) -> bool {
    &&& from.facts@.subset_of(to.facts@)
    &&& idle(from.facts@, to.facts@) ==> to.queue@ == from.queue@
}

proof fn advanced_twice(from: Progress, on: Progress, to: Progress)
    requires
        advanced(from, on),
        advanced(on, to),
    ensures
        advanced(from, to),
{
    if idle(from.facts@, to.facts@) {
        assert(idle(from.facts@, on.facts@));
        assert(idle(on.facts@, to.facts@));
    }
}

proof fn steadied(from: Progress, to: Progress, fact: Fact, aim: Aim)
    requires
        from.steady(aim),
        to.tracks(aim.view),
        !(fact is Request),
        aim.goal.contains(fact),
        home(fact) == fact || from.facts@.contains(home(fact)),
        to.facts@ == from.facts@.insert(fact),
        from.facts@.contains(fact) || fact is Edge ==> to.queue@ == from.queue@,
        !from.facts@.contains(fact) && !(fact is Edge) ==> queued(to.queue@) == queued(
            from.queue@,
        ).insert(fact),
    ensures
        to.steady(aim),
        advanced(from, to),
{
    let open = queued(from.queue@).union(aim.open);
    done_but_added(aim.view, from.facts@, open, fact);
    if from.facts@.contains(fact) || fact is Edge {
        assert(queued(to.queue@) == queued(from.queue@));
    } else {
        assert(queued(to.queue@).union(aim.open) =~= open.insert(fact));
        assert(to.facts@.contains(fact) && !from.facts@.contains(fact));
        assert(!idle(from.facts@, to.facts@));
    }
}

impl Progress {
    /// Turns a package on.
    fn enable_node(&mut self, node: u32, Ghost(aim): Ghost<Aim>)
        requires
            old(self).steady(aim),
            node < aim.view.count(),
            aim.goal.contains(Fact::Node(node as int)),
        ensures
            final(self).steady(aim),
            final(self).facts@ == old(self).facts@.insert(Fact::Node(node as int)),
            advanced(*old(self), *final(self)),
            final(self).requests == old(self).requests,
            final(self).tour() == turned_on(old(self).tour(), Fact::Node(node as int)),
    {
        let ghost view = aim.view;
        let ghost fact = Fact::Node(node as int);
        let ghost facts = self.facts@;
        let ghost was = *self;
        if !bits::put(&mut self.nodes, node as usize) {
            proof {
                queue_pushed(self.queue@, Task::Node(node), facts);
            }
            self.queue.push(Task::Node(node));
        } else {
            assert(facts.insert(fact) =~= facts);
        }
        proof {
            self.facts@ = facts.insert(fact);
        }
        proof {
            assert(self.tracks(view));
            steadied(was, *self, fact, aim);
            tour_goes_on(was, *self, fact);
        }
    }

    /// Turns an edge on.
    fn enable_edge(&mut self, edge: u32, Ghost(aim): Ghost<Aim>)
        requires
            old(self).steady(aim),
            edge < aim.view.edges.len(),
            aim.goal.contains(Fact::Edge(edge as int)),
        ensures
            final(self).steady(aim),
            final(self).facts@ == old(self).facts@.insert(Fact::Edge(edge as int)),
            advanced(*old(self), *final(self)),
            final(self).requests == old(self).requests,
            final(self).tour() == turned_on(old(self).tour(), Fact::Edge(edge as int)),
    {
        let ghost view = aim.view;
        let ghost was = *self;
        let ghost facts = self.facts@;
        bits::insert(&mut self.edges, edge as usize);
        proof {
            self.facts@ = facts.insert(Fact::Edge(edge as int));
        }
        proof {
            assert(self.tracks(view));
            steadied(was, *self, Fact::Edge(edge as int), aim);
            tour_goes_on(was, *self, Fact::Edge(edge as int));
        }
    }

    /// Turns a dependency on.
    fn enable_dependency(&mut self, node: u32, name: &str, Ghost(aim): Ghost<Aim>)
        requires
            old(self).steady(aim),
            node < aim.view.count(),
            aim.goal.contains(Fact::Dependency(node as int, name@)),
            old(self).facts@.contains(Fact::Node(node as int)),
        ensures
            final(self).steady(aim),
            final(self).facts@ == old(self).facts@.insert(Fact::Dependency(node as int, name@)),
            advanced(*old(self), *final(self)),
            final(self).requests == old(self).requests,
            final(self).tour() == turned_on(old(self).tour(), Fact::Dependency(node as int, name@)),
    {
        let ghost view = aim.view;
        let ghost fact = Fact::Dependency(node as int, name@);
        let ghost facts = self.facts@;
        let ghost was = *self;
        if index::get(&self.dependencies[node as usize], name).is_none() {
            let task = Task::Dependency(node, name.to_owned());
            proof {
                queue_pushed(self.queue@, task, facts);
            }
            self.queue.push(task);
            index::insert(&mut self.dependencies[node as usize], name, node);
        } else {
            assert(facts.insert(fact) =~= facts);
        }
        proof {
            self.facts@ = facts.insert(fact);
            assert(has_names(
                self.dependencies@,
                view.count(),
                |u: int, name: Seq<char>| self.facts@.contains(Fact::Dependency(u, name)),
            )) by {
                assert forall|u: int, n: Seq<char>|
                    #![trigger index::entries(self.dependencies@[u]).dom().contains(n)]
                    0 <= u < view.count() implies (index::entries(
                    self.dependencies@[u],
                ).dom().contains(n) <==> self.facts@.contains(Fact::Dependency(u, n))) by {
                    assert(index::entries(was.dependencies@[u]).dom().contains(n)
                        == facts.contains(Fact::Dependency(u, n)));
                }
            }
            assert(has_names(
                self.linked@,
                view.count(),
                |u: int, name: Seq<char>|
                    self.facts@.contains(Fact::Dependency(u, name)) && !queued(
                        self.queue@,
                    ).contains(Fact::Dependency(u, name)),
            )) by {
                assert forall|u: int, n: Seq<char>|
                    #![trigger index::entries(self.linked@[u]).dom().contains(n)]
                    0 <= u < view.count() implies (index::entries(self.linked@[u]).dom().contains(n)
                    <==> self.facts@.contains(Fact::Dependency(u, n)) && !queued(
                    self.queue@,
                ).contains(Fact::Dependency(u, n))) by {
                    assert(index::entries(was.linked@[u]).dom().contains(n) == (facts.contains(
                        Fact::Dependency(u, n),
                    ) && !queued(was.queue@).contains(Fact::Dependency(u, n))));
                }
            }
            assert(self.tracks(view));
            steadied(was, *self, fact, aim);
            tour_goes_on(was, *self, fact);
        }
    }

    /// Requests a feature of a package.
    fn request_feature(&mut self, node: u32, feature: &str, Ghost(aim): Ghost<Aim>)
        requires
            old(self).steady(aim),
            node < aim.view.count(),
            aim.goal.contains(Fact::Feature(node as int, feature@)),
            old(self).facts@.contains(Fact::Node(node as int)),
        ensures
            final(self).steady(aim),
            final(self).facts@ == old(self).facts@.insert(Fact::Feature(node as int, feature@)),
            advanced(*old(self), *final(self)),
            final(self).requests == old(self).requests,
            final(self).tour() == turned_on(old(self).tour(), Fact::Feature(node as int, feature@)),
    {
        let ghost view = aim.view;
        let ghost fact = Fact::Feature(node as int, feature@);
        let ghost facts = self.facts@;
        let ghost was = *self;
        if index::get(&self.features[node as usize], feature).is_none() {
            let task = Task::Feature(node, feature.to_owned());
            proof {
                queue_pushed(self.queue@, task, facts);
            }
            self.queue.push(task);
            index::insert(&mut self.features[node as usize], feature, node);
        } else {
            assert(facts.insert(fact) =~= facts);
        }
        proof {
            self.facts@ = facts.insert(fact);
            assert(has_names(
                self.features@,
                view.count(),
                |u: int, name: Seq<char>| self.facts@.contains(Fact::Feature(u, name)),
            )) by {
                assert forall|u: int, n: Seq<char>|
                    #![trigger index::entries(self.features@[u]).dom().contains(n)]
                    0 <= u < view.count() implies (index::entries(
                    self.features@[u],
                ).dom().contains(n) <==> self.facts@.contains(Fact::Feature(u, n))) by {
                    assert(index::entries(was.features@[u]).dom().contains(n) == facts.contains(
                        Fact::Feature(u, n),
                    ));
                }
            }
            assert(self.tracks(view));
            steadied(was, *self, fact, aim);
            tour_goes_on(was, *self, fact);
        }
    }
}


/// Nothing is being worked on once the fact that was is done.
proof fn settled(progress: Progress, aim: Aim, fact: Fact)
    requires
        progress.steady(aim),
        aim.open == set![fact],
        done(aim.view, fact, progress.facts@),
        fact is Node ==> decode_fault(aim.view, fact->Node_0) is None,
    ensures
        progress.steady(aim.at_rest()),
{
    let open = queued(progress.queue@).union(aim.open);
    let rest = queued(progress.queue@).union(aim.at_rest().open);
    assert forall|f: Fact| #[trigger] progress.facts@.contains(f) && !rest.contains(f) implies done(
        aim.view,
        f,
        progress.facts@,
    ) by {
        if open.contains(f) {
            assert(f == fact);
        }
    }
    assert forall|node: int|
        #[trigger] progress.facts@.contains(Fact::Node(node)) && !rest.contains(
            Fact::Node(node),
        ) implies decode_fault(aim.view, node) is None by {
        if open.contains(Fact::Node(node)) {
            assert(Fact::Node(node) == fact);
        }
    }
}

/// The declarations and the features of `node`.
fn decode<'m>(graph: &Graph<'m>, node: u32) -> (decoded: Result<
    (&'m Vec<DeclaredDep>, &'m Vec<Feature>),
    Error,
>)
    requires
        graph.wf(),
        node < graph@.count(),
    ensures
        match decoded {
            Ok((declared, table)) => {
                &&& decode_fault(graph@, node as int) is None
                &&& declared@ == declarations(graph@, node as int)
                &&& table@ == feature_table_of(graph@, node as int)
            },
            Err(error) => decode_fault(graph@, node as int) == Some(error@),
        },
{
    let declared = match graph.declared_deps(node) {
        Ok(declared) => declared,
        Err(error) => return Err(error),
    };
    match feature_table(graph, node) {
        Ok(table) => Ok((declared, table)),
        Err(error) => Err(error),
    }
}

/// The edges that dependency `name` of `node` resolves to.
fn resolved_edges(
    graph: &Graph<'_>,
    node: u32,
    declared: &Vec<DeclaredDep>,
    name: &str,
) -> (edges: Vec<u32>)
    requires
        graph.wf(),
        node < graph@.count(),
        declared@ == declarations(graph@, node as int),
    ensures
        forall|k: int|
            0 <= k < edges@.len() ==> resolves(graph@, node as int, name@, #[trigger] edges@[k] as int),
        forall|edge: int|
            #[trigger] resolves(graph@, node as int, name@, edge) ==> exists|k: int|
                0 <= k < edges@.len() && #[trigger] edges@[k] == edge,
        lists(edges@, tour::edges_of(graph@, node as int, name@)),
{
    let mut found: Vec<u32> = Vec::new();
    let range = graph.edges_from(node);
    let mut at: usize = 0;
    while at < declared.len()
        invariant
            graph.wf(),
            node < graph@.count(),
            declared@ == declarations(graph@, node as int),
            at <= declared@.len(),
            range.start <= range.end <= graph@.edges.len(),
            forall|e: int|
                #![trigger graph@.edges[e]]
                range.start <= e < range.end <==> 0 <= e < graph@.edges.len()
                    && graph@.edges[e].from == node,
            forall|k: int|
                0 <= k < found@.len() ==> resolves(
                    graph@,
                    node as int,
                    name@,
                    #[trigger] found@[k] as int,
                ),
            forall|i: int, edge: int|
                #[trigger] links(graph@, node as int, name@, i, edge) && i < at ==> exists|k: int|
                    0 <= k < found@.len() && #[trigger] found@[k] == edge,
            lists(found@, tour::dependency_edges(graph@, node as int, name@, at as int)),
        decreases declared@.len() - at,
    {
        let declaration = &declared[at];
        if declaration.is_normal() && text::same(declaration.extern_name(), name) {
            let ghost before = found@;
            let ghost sofar = tour::dependency_edges(graph@, node as int, name@, at as int);
            let mut edge: u32 = range.start;
            proof {
                tour::other_edges_turn_nothing_on(
                    graph@,
                    node as int,
                    name@,
                    at as int,
                    0,
                    range.start as int,
                );
            }
            while edge < range.end
                invariant
                    graph.wf(),
                    node < graph@.count(),
                    declared@ == declarations(graph@, node as int),
                    at < declared@.len(),
                    *declaration == declared@[at as int],
                    declares(graph@, node as int, at as int, name@),
                    range.start <= edge <= range.end <= graph@.edges.len(),
                    forall|e: int|
                        #![trigger graph@.edges[e]]
                        range.start <= e < range.end <==> 0 <= e < graph@.edges.len()
                            && graph@.edges[e].from == node,
                    before.len() <= found@.len(),
                    forall|k: int| 0 <= k < before.len() ==> #[trigger] before[k] == found@[k],
                    forall|k: int|
                        0 <= k < found@.len() ==> resolves(
                            graph@,
                            node as int,
                            name@,
                            #[trigger] found@[k] as int,
                        ),
                    forall|e: int|
                        #[trigger] links(graph@, node as int, name@, at as int, e) && e < edge
                            ==> exists|k: int| 0 <= k < found@.len() && #[trigger] found@[k] == e,
                    lists(
                        found@,
                        sofar + tour::declaration_edges(
                            graph@,
                            node as int,
                            name@,
                            at as int,
                            edge as int,
                        ),
                    ),
                decreases range.end - edge,
            {
                assert(graph@.edges[edge as int].from == node);
                let ghost now = found@;
                if edge_belongs(graph, declared, declaration, edge) {
                    assert(links(graph@, node as int, name@, at as int, edge as int));
                    found.push(edge);
                    assert(found@[now.len() as int] == edge);
                }
                assert forall|e: int|
                    #[trigger] links(graph@, node as int, name@, at as int, e) && e < edge
                        + 1 implies exists|k: int|
                    0 <= k < found@.len() && #[trigger] found@[k] == e by {
                    if e < edge {
                        let k = choose|k: int| 0 <= k < now.len() && #[trigger] now[k] == e;
                        assert(found@[k] == e);
                    }
                }
                edge = edge + 1;
            }
            proof {
                tour::other_edges_turn_nothing_on(
                    graph@,
                    node as int,
                    name@,
                    at as int,
                    range.end as int,
                    graph@.edges.len() as int,
                );
            }
            assert forall|i: int, e: int|
                #[trigger] links(graph@, node as int, name@, i, e) && i < at + 1 implies exists|
                k: int,
            |
                0 <= k < found@.len() && #[trigger] found@[k] == e by {
                assert(graph@.edges[e].from == node);
                if i < at {
                    let k = choose|k: int| 0 <= k < before.len() && #[trigger] before[k] == e;
                    assert(found@[k] == e);
                }
            }
        } else {
            proof {
                tour::others_turn_nothing_on(
                    graph@,
                    node as int,
                    name@,
                    at as int,
                    graph@.edges.len() as int,
                );
            }
        }
        at = at + 1;
    }
    assert forall|edge: int| #[trigger] resolves(graph@, node as int, name@, edge) implies exists|
        k: int,
    |
        0 <= k < found@.len() && #[trigger] found@[k] == edge by {
        let i = choose|i: int| links(graph@, node as int, name@, i, edge);
        assert(links(graph@, node as int, name@, i, edge));
    }
    found
}

/// Whether `after` holds no request that `before` does not.
spec fn same_requests(before: Set<Fact>, after: Set<Fact>) -> bool {
    forall|node: int, name: Seq<char>, feature: Seq<char>|
        #[trigger] after.contains(Fact::Request(node, name, feature)) ==> before.contains(
            Fact::Request(node, name, feature),
        )
}

impl Progress {
    /// Turning a package on pulls every normal declaration it does not gate behind a feature.
    fn expand_node(&mut self, graph: &Graph<'_>, node: u32, Ghost(aim): Ghost<Aim>) -> (result: Result<
        (),
        Error,
    >)
        requires
            graph.wf(),
            aim.view == graph@,
            aim.sound(),
            aim.open == set![Fact::Node(node as int)],
            node < graph@.count(),
            old(self).steady(aim),
            old(self).facts@.contains(Fact::Node(node as int)),
        ensures
            match result {
                Ok(_) => {
                    &&& final(self).steady(aim.at_rest())
                    &&& advanced(*old(self), *final(self))
                    &&& decode_fault(graph@, node as int) is None
                    &&& final(self).tour() == all_turned_on(
                        old(self).tour(),
                        tour::node_list(
                            graph@,
                            node as int,
                            declarations(graph@, node as int).len() as int,
                        ),
                    )
                },
                Err(error) => decode_fault(graph@, node as int) == Some(error@),
            },
    {
        let ghost start = *self;
        proof {
            tour::nothing_more(start.tour());
        }
        let (declared, _table) = match decode(graph, node) {
            Ok(decoded) => decoded,
            Err(error) => return Err(error),
        };
        let mut at: usize = 0;
        while at < declared.len()
            invariant
                aim.view == graph@,
                aim.sound(),
                node < graph@.count(),
                at <= declared@.len(),
                declared@ == declarations(graph@, node as int),
                self.steady(aim),
                advanced(start, *self),
                self.tour() == all_turned_on(
                    start.tour(),
                    tour::node_list(graph@, node as int, at as int),
                ),
                self.facts@.contains(Fact::Node(node as int)),
                forall|i: int, name: Seq<char>|
                    #[trigger] declares(graph@, node as int, i, name) && i < at
                        && !declared@[i].optional ==> self.facts@.contains(
                        Fact::Dependency(node as int, name),
                    ),
            decreases declared@.len() - at,
        {
            let declaration = &declared[at];
            if declaration.is_normal() && !declaration.optional {
                proof {
                    assert(declares(graph@, node as int, at as int, declaration.used_as()));
                    assert(aim.goal.contains(Fact::Node(node as int)));
                    assert(node_done(graph@, node as int, aim.goal));
                }
                let ghost was = *self;
                self.enable_dependency(node, declaration.extern_name(), Ghost(aim));
                proof {
                    advanced_twice(start, was, *self);
                    tour::one_more(
                        start.tour(),
                        tour::node_list(graph@, node as int, at as int),
                        Fact::Dependency(node as int, declaration.used_as()),
                    );
                }
            }
            at = at + 1;
        }
        proof {
            assert(node_done(graph@, node as int, self.facts@));
            settled(*self, aim, Fact::Node(node as int));
        }
        Ok(())
    }

    /// Turns on the package that `edge` points to, with what `declaration` asks of it.
    fn link(
        &mut self,
        graph: &Graph<'_>,
        declaration: &DeclaredDep,
        edge: u32,
        Ghost(aim): Ghost<Aim>,
    )
        requires
            graph.wf(),
            aim.view == graph@,
            edge < graph@.edges.len(),
            old(self).steady(aim),
            link_done(graph@, *declaration, edge as int, aim.goal),
        ensures
            final(self).steady(aim),
            advanced(*old(self), *final(self)),
            same_requests(old(self).facts@, final(self).facts@),
            final(self).requests == old(self).requests,
            link_done(graph@, *declaration, edge as int, final(self).facts@),
            final(self).tour() == all_turned_on(
                old(self).tour(),
                tour::link_list(
                    graph@,
                    *declaration,
                    edge as int,
                    declaration.features@.len() as int,
                ),
            ),
    {
        let ghost start = *self;
        let target = graph.edge_target(edge);
        self.enable_edge(edge, Ghost(aim));
        let ghost one = *self;
        self.enable_node(target, Ghost(aim));
        let ghost two = *self;
        let ghost both = seq![Fact::Edge(edge as int), Fact::Node(target as int)];
        proof {
            advanced_twice(start, one, two);
            let none = Seq::<Fact>::empty();
            tour::nothing_more(start.tour());
            tour::one_more(start.tour(), none, Fact::Edge(edge as int));
            tour::one_more(
                start.tour(),
                none.push(Fact::Edge(edge as int)),
                Fact::Node(target as int),
            );
            assert(none.push(Fact::Edge(edge as int)).push(Fact::Node(target as int)) =~= both);
        }
        if declaration.uses_default_features {
            self.request_feature(target, "default", Ghost(aim));
            proof {
                advanced_twice(start, two, *self);
                tour::one_more(start.tour(), both, Fact::Feature(target as int, "default"@));
            }
        }
        let mut at: usize = 0;
        while at < declaration.features.len()
            invariant
                at <= declaration.features@.len(),
                aim.view == graph@,
                target == graph@.edges[edge as int].to,
                target < graph@.count(),
                link_done(graph@, *declaration, edge as int, aim.goal),
                self.steady(aim),
                advanced(start, *self),
                self.tour() == all_turned_on(
                    start.tour(),
                    tour::link_list(graph@, *declaration, edge as int, at as int),
                ),
                same_requests(start.facts@, self.facts@),
                self.requests == start.requests,
                self.facts@.contains(Fact::Edge(edge as int)),
                self.facts@.contains(Fact::Node(target as int)),
                declaration.uses_default_features ==> self.facts@.contains(
                    Fact::Feature(target as int, "default"@),
                ),
                forall|k: int|
                    0 <= k < at ==> self.facts@.contains(
                        Fact::Feature(target as int, (#[trigger] declaration.features@[k])@),
                    ),
            decreases declaration.features@.len() - at,
        {
            let ghost was = *self;
            self.request_feature(target, declaration.features[at].as_str(), Ghost(aim));
            proof {
                advanced_twice(start, was, *self);
                tour::one_more(
                    start.tour(),
                    tour::link_list(graph@, *declaration, edge as int, at as int),
                    Fact::Feature(target as int, declaration.features@[at as int]@),
                );
            }
            at = at + 1;
        }
    }
}


impl Progress {
    /// Links one normal declaration of `name` to its resolve edges and passes on the features
    /// that it requests.
    fn link_declaration(
        &mut self,
        graph: &Graph<'_>,
        node: u32,
        name: &str,
        declared: &Vec<DeclaredDep>,
        index: usize,
        Ghost(aim): Ghost<Aim>,
    )
        requires
            graph.wf(),
            aim.view == graph@,
            aim.sound(),
            node < graph@.count(),
            declared@ == declarations(graph@, node as int),
            declares(graph@, node as int, index as int, name@),
            aim.goal.contains(Fact::Dependency(node as int, name@)),
            old(self).steady(aim),
        ensures
            final(self).steady(aim),
            advanced(*old(self), *final(self)),
            same_requests(old(self).facts@, final(self).facts@),
            final(self).requests == old(self).requests,
            forall|edge: int|
                #[trigger] links(graph@, node as int, name@, index as int, edge) ==> link_done(
                    graph@,
                    declared@[index as int],
                    edge,
                    final(self).facts@,
                ),
            final(self).tour() == all_turned_on(
                old(self).tour(),
                tour::declaration_list(
                    graph@,
                    node as int,
                    name@,
                    index as int,
                    graph@.edges.len() as int,
                ),
            ),
    {
        let ghost start = *self;
        proof {
            tour::nothing_more(start.tour());
        }
        let declaration = &declared[index];
        let range = graph.edges_from(node);
        let mut edge: u32 = range.start;
        proof {
            tour::other_edges_turn_nothing_on(
                graph@,
                node as int,
                name@,
                index as int,
                0,
                range.start as int,
            );
        }
        while edge < range.end
            invariant
                graph.wf(),
                aim.view == graph@,
                aim.sound(),
                node < graph@.count(),
                declared@ == declarations(graph@, node as int),
                declares(graph@, node as int, index as int, name@),
                *declaration == declared@[index as int],
                aim.goal.contains(Fact::Dependency(node as int, name@)),
                range.start <= edge <= range.end <= graph@.edges.len(),
                forall|e: int|
                    #![trigger graph@.edges[e]]
                    range.start <= e < range.end <==> 0 <= e < graph@.edges.len()
                        && graph@.edges[e].from == node,
                self.steady(aim),
                advanced(start, *self),
                same_requests(start.facts@, self.facts@),
                self.requests == start.requests,
                self.tour() == all_turned_on(
                    start.tour(),
                    tour::declaration_list(
                        graph@,
                        node as int,
                        name@,
                        index as int,
                        edge as int,
                    ),
                ),
                forall|e: int|
                    #[trigger] links(graph@, node as int, name@, index as int, e) && e < edge
                        ==> link_done(graph@, *declaration, e, self.facts@),
            decreases range.end - edge,
        {
            assert(graph@.edges[edge as int].from == node);
            let ghost was = *self;
            if edge_belongs(graph, declared, declaration, edge) {
                proof {
                    assert(links(graph@, node as int, name@, index as int, edge as int));
                    assert(dependency_done(graph@, node as int, name@, aim.goal));
                }
                self.link(graph, declaration, edge, Ghost(aim));
                proof {
                    advanced_twice(start, was, *self);
                    tour::one_after_the_other(
                        start.tour(),
                        tour::declaration_list(
                            graph@,
                            node as int,
                            name@,
                            index as int,
                            edge as int,
                        ),
                        tour::link_list(
                            graph@,
                            *declaration,
                            edge as int,
                            declaration.features@.len() as int,
                        ),
                    );
                }
            }
            assert forall|e: int|
                #[trigger] links(graph@, node as int, name@, index as int, e) && e < edge
                    + 1 implies link_done(graph@, *declaration, e, self.facts@) by {
                if e < edge {
                    assert(link_done(graph@, *declaration, e, was.facts@));
                }
            }
            edge = edge + 1;
        }
        proof {
            tour::other_edges_turn_nothing_on(
                graph@,
                node as int,
                name@,
                index as int,
                range.end as int,
                graph@.edges.len() as int,
            );
        }
        assert forall|e: int| #[trigger]
            links(graph@, node as int, name@, index as int, e) implies link_done(
            graph@,
            declared@[index as int],
            e,
            self.facts@,
        ) by {
            assert(graph@.edges[e].from == node);
        }
    }

    /// Requests `feature` on what `edges` point to.
    fn request_on_targets(
        &mut self,
        graph: &Graph<'_>,
        edges: &Vec<u32>,
        feature: &str,
        Ghost(aim): Ghost<Aim>,
        Ghost(places): Ghost<Seq<int>>,
    )
        requires
            lists(edges@, places),
            graph.wf(),
            aim.view == graph@,
            old(self).steady(aim),
            forall|k: int|
                0 <= k < edges@.len() ==> #[trigger] edges@[k] < graph@.edges.len()
                    && aim.goal.contains(Fact::Feature(graph@.edges[edges@[k] as int].to, feature@))
                    && old(self).facts@.contains(Fact::Node(graph@.edges[edges@[k] as int].to)),
        ensures
            final(self).steady(aim),
            advanced(*old(self), *final(self)),
            same_requests(old(self).facts@, final(self).facts@),
            forall|k: int|
                0 <= k < edges@.len() ==> final(self).facts@.contains(
                    Fact::Feature(graph@.edges[#[trigger] edges@[k] as int].to, feature@),
                ),
            final(self).tour() == all_turned_on(
                old(self).tour(),
                tour::target_list(graph@, places, feature@, places.len() as int),
            ),
    {
        let ghost start = *self;
        proof {
            tour::nothing_more(start.tour());
        }
        let mut at: usize = 0;
        while at < edges.len()
            invariant
                graph.wf(),
                aim.view == graph@,
                at <= edges@.len(),
                lists(edges@, places),
                self.tour() == all_turned_on(
                    start.tour(),
                    tour::target_list(graph@, places, feature@, at as int),
                ),
                self.steady(aim),
                advanced(start, *self),
                same_requests(start.facts@, self.facts@),
                forall|k: int|
                    0 <= k < edges@.len() ==> #[trigger] edges@[k] < graph@.edges.len()
                        && aim.goal.contains(
                        Fact::Feature(graph@.edges[edges@[k] as int].to, feature@),
                    ) && start.facts@.contains(Fact::Node(graph@.edges[edges@[k] as int].to)),
                forall|k: int|
                    0 <= k < at ==> self.facts@.contains(
                        Fact::Feature(graph@.edges[#[trigger] edges@[k] as int].to, feature@),
                    ),
            decreases edges@.len() - at,
        {
            let ghost was = *self;
            let target = graph.edge_target(edges[at]);
            self.request_feature(target, feature, Ghost(aim));
            proof {
                advanced_twice(start, was, *self);
                tour::one_more(
                    start.tour(),
                    tour::target_list(graph@, places, feature@, at as int),
                    Fact::Feature(target as int, feature@),
                );
            }
            at = at + 1;
        }
    }

    /// The features requested on dependency `name` of `node`.
    fn requested(&self, node: u32, name: &str, Ghost(view): Ghost<GraphView>) -> (features: Vec<String>)
        requires
            self.tracks(view),
            node < view.count(),
        ensures
            forall|feature: Seq<char>|
                self.facts@.contains(Fact::Request(node as int, name@, feature))
                    <==> #[trigger] text::texts(features@).contains(feature),
            text::texts(features@) == tour::asked_of(
                self.tour().requests[node as int],
                name@,
                self.tour().requests[node as int].len() as int,
            ),
    {
        let requests = &self.requests[node as usize];
        let mut features: Vec<String> = Vec::new();
        let ghost list = self.tour().requests[node as int];
        proof {
            reveal(Progress::tour);
        }
        let mut at: usize = 0;
        assert(text::texts(features@) =~= tour::asked_of(list, name@, 0));
        while at < requests.len()
            invariant
                at <= requests@.len(),
                list == asked(requests@),
                text::texts(features@) == tour::asked_of(list, name@, at as int),
                forall|feature: Seq<char>| #[trigger]
                    text::texts(features@).contains(feature) <==> is_requested(
                        requests@.take(at as int),
                        name@,
                        feature,
                    ),
            decreases requests@.len() - at,
        {
            let ghost was = features@;
            let ghost before = requests@.take(at as int);
            let ghost now = requests@.take(at + 1);
            if text::same(requests[at].0.as_str(), name) {
                features.push(requests[at].1.as_str().to_owned());
                assert(text::texts(features@) =~= text::texts(was).push(requests@[at as int].1@));
            }
            assert forall|feature: Seq<char>| #[trigger]
                text::texts(features@).contains(feature) <==> is_requested(now, name@, feature) by {
                assert(now[at as int] == requests@[at as int]);
                assert(text::texts(was).contains(feature) <==> is_requested(before, name@, feature));
                if text::texts(features@).contains(feature) {
                    let k = choose|k: int|
                        0 <= k < features@.len() && text::texts(features@)[k] == feature;
                    if k < was.len() {
                        assert(text::texts(was)[k] == feature);
                        let i = choose|i: int|
                            0 <= i < before.len() && (#[trigger] before[i]).0@ == name@
                                && before[i].1@ == feature;
                        assert(now[i] == before[i]);
                    }
                }
                if is_requested(now, name@, feature) {
                    let i = choose|i: int|
                        0 <= i < now.len() && (#[trigger] now[i]).0@ == name@ && now[i].1@
                            == feature;
                    if i < at {
                        assert(before[i] == now[i]);
                        let k = choose|k: int|
                            0 <= k < was.len() && text::texts(was)[k] == feature;
                        assert(text::texts(features@)[k] == feature);
                    } else {
                        assert(text::texts(features@)[was.len() as int] == feature);
                    }
                }
            }
            at = at + 1;
        }
        proof {
            assert(requests@.take(at as int) =~= requests@);
        }
        features
    }

    /// Requests `features`, which wait for dependency `name` of `node`, on what it resolves to.
    fn flush(
        &mut self,
        graph: &Graph<'_>,
        node: u32,
        name: &str,
        edges: &Vec<u32>,
        features: &Vec<String>,
        Ghost(aim): Ghost<Aim>,
    )
        requires
            graph.wf(),
            aim.view == graph@,
            aim.sound(),
            aim.open == set![Fact::Dependency(node as int, name@)],
            old(self).steady(aim),
            old(self).facts@.contains(Fact::Dependency(node as int, name@)),
            forall|i: int, edge: int|
                #[trigger] links(graph@, node as int, name@, i, edge) ==> link_done(
                    graph@,
                    declarations(graph@, node as int)[i],
                    edge,
                    old(self).facts@,
                ),
            forall|k: int|
                0 <= k < edges@.len() ==> resolves(
                    graph@,
                    node as int,
                    name@,
                    #[trigger] edges@[k] as int,
                ),
            forall|edge: int|
                #[trigger] resolves(graph@, node as int, name@, edge) ==> exists|k: int|
                    0 <= k < edges@.len() && #[trigger] edges@[k] == edge,
            forall|feature: Seq<char>|
                old(self).facts@.contains(Fact::Request(node as int, name@, feature))
                    <==> #[trigger] text::texts(features@).contains(feature),
            lists(edges@, tour::edges_of(graph@, node as int, name@)),
        ensures
            final(self).steady(aim.at_rest()),
            advanced(*old(self), *final(self)),
            final(self).tour() == all_turned_on(
                old(self).tour(),
                tour::flush_list(
                    graph@,
                    tour::edges_of(graph@, node as int, name@),
                    text::texts(features@),
                    features@.len() as int,
                ),
            ),
    {
        let ghost start = *self;
        proof {
            tour::nothing_more(start.tour());
        }
        let ghost places = tour::edges_of(graph@, node as int, name@);
        let ghost wanted = text::texts(features@);
        let mut at: usize = 0;
        while at < features.len()
            invariant
                graph.wf(),
                aim.view == graph@,
                aim.sound(),
                at <= features@.len(),
                lists(edges@, places),
                wanted == text::texts(features@),
                self.tour() == all_turned_on(
                    start.tour(),
                    tour::flush_list(graph@, places, wanted, at as int),
                ),
                self.steady(aim),
                advanced(start, *self),
                same_requests(start.facts@, self.facts@),
                aim.goal.contains(Fact::Dependency(node as int, name@)),
                forall|k: int|
                    0 <= k < edges@.len() ==> resolves(
                        graph@,
                        node as int,
                        name@,
                        #[trigger] edges@[k] as int,
                    ),
                forall|i: int, edge: int|
                    #[trigger] links(graph@, node as int, name@, i, edge) ==> link_done(
                        graph@,
                        declarations(graph@, node as int)[i],
                        edge,
                        start.facts@,
                    ),
                forall|feature: Seq<char>|
                    start.facts@.contains(Fact::Request(node as int, name@, feature))
                        <==> #[trigger] text::texts(features@).contains(feature),
                forall|f: int, k: int|
                    #![trigger text::texts(features@)[f], edges@[k]]
                    0 <= f < at && 0 <= k < edges@.len() ==> self.facts@.contains(
                        Fact::Feature(
                            graph@.edges[edges@[k] as int].to,
                            text::texts(features@)[f],
                        ),
                    ),
            decreases features@.len() - at,
        {
            let ghost was = *self;
            let ghost feature = features@[at as int]@;
            assert forall|k: int| 0 <= k < edges@.len() implies #[trigger] edges@[k]
                < graph@.edges.len() && aim.goal.contains(
                Fact::Feature(graph@.edges[edges@[k] as int].to, feature),
            ) && self.facts@.contains(Fact::Node(graph@.edges[edges@[k] as int].to)) by {
                let edge = edges@[k] as int;
                assert(resolves(graph@, node as int, name@, edge));
                let i = choose|i: int| links(graph@, node as int, name@, i, edge);
                assert(links(graph@, node as int, name@, i, edge));
                assert(link_done(graph@, declarations(graph@, node as int)[i], edge, start.facts@));
                assert(text::texts(features@)[at as int] == feature);
                assert(text::texts(features@).contains(feature));
                assert(start.facts@.contains(Fact::Request(node as int, name@, feature)));
                assert(self.facts@.contains(Fact::Request(node as int, name@, feature)));
                assert(aim.goal.contains(Fact::Request(node as int, name@, feature)));
                assert(done(graph@, Fact::Dependency(node as int, name@), aim.goal));
                assert(request_done(graph@, node as int, name@, feature, aim.goal));
            }
            self.request_on_targets(
                graph,
                edges,
                features[at].as_str(),
                Ghost(aim),
                Ghost(places),
            );
            proof {
                tour::one_after_the_other(
                    start.tour(),
                    tour::flush_list(graph@, places, wanted, at as int),
                    tour::target_list(graph@, places, feature, places.len() as int),
                );
                advanced_twice(start, was, *self);
                assert forall|f: int, k: int|
                    #![trigger text::texts(features@)[f], edges@[k]]
                    0 <= f < at + 1 && 0 <= k < edges@.len() implies self.facts@.contains(
                    Fact::Feature(graph@.edges[edges@[k] as int].to, text::texts(features@)[f]),
                ) by {
                    if f < at {
                        assert(was.facts@.contains(
                            Fact::Feature(
                                graph@.edges[edges@[k] as int].to,
                                text::texts(features@)[f],
                            ),
                        ));
                    }
                }
            }
            at = at + 1;
        }
        proof {
            assert forall|i: int, edge: int| #[trigger]
                links(graph@, node as int, name@, i, edge) implies link_done(
                graph@,
                declarations(graph@, node as int)[i],
                edge,
                self.facts@,
            ) by {
                assert(link_done(graph@, declarations(graph@, node as int)[i], edge, start.facts@));
            }
            assert forall|feature: Seq<char>|
                #[trigger] self.facts@.contains(Fact::Request(node as int, name@, feature)) implies
                request_done(graph@, node as int, name@, feature, self.facts@) by {
                assert(start.facts@.contains(Fact::Request(node as int, name@, feature)));
                assert(text::texts(features@).contains(feature));
                let f = choose|f: int| 0 <= f < features@.len() && text::texts(features@)[f] == feature;
                assert forall|edge: int| #[trigger]
                    resolves(graph@, node as int, name@, edge) implies self.facts@.contains(
                    Fact::Feature(graph@.edges[edge].to, feature),
                ) by {
                    let k = choose|k: int| 0 <= k < edges@.len() && #[trigger] edges@[k] == edge;
                    assert(text::texts(features@)[f] == feature && edges@[k] == edge);
                }
            }
            assert(dependency_done(graph@, node as int, name@, self.facts@));
            settled(*self, aim, Fact::Dependency(node as int, name@));
        }
    }

    /// Links every normal declaration of `name` to its resolve edges and passes on the features
    /// those declarations request.
    ///
    /// A name can be declared more than once — `[dependencies]` beside
    /// `[target.'cfg(unix)'.dependencies]` — and each declaration contributes its own `features`
    /// and `default`.
    fn expand_dependency(
        &mut self,
        graph: &Graph<'_>,
        node: u32,
        name: &str,
        Ghost(aim): Ghost<Aim>,
    ) -> (result: Result<(), Error>)
        requires
            graph.wf(),
            aim.view == graph@,
            aim.sound(),
            aim.open == set![Fact::Dependency(node as int, name@)],
            node < graph@.count(),
            old(self).steady(aim),
            old(self).facts@.contains(Fact::Dependency(node as int, name@)),
        ensures
            match result {
                Ok(_) => {
                    &&& final(self).steady(aim.at_rest())
                    &&& advanced(*old(self), *final(self))
                    &&& decode_fault(graph@, node as int) is None
                    &&& final(self).tour() == all_turned_on(
                        old(self).tour(),
                        tour::expansion(
                            graph@,
                            old(self).tour(),
                            Fact::Dependency(node as int, name@),
                        ),
                    )
                },
                Err(error) => decode_fault(graph@, node as int) == Some(error@),
            },
    {
        let ghost start = *self;
        proof {
            tour::nothing_more(start.tour());
        }
        let (declared, _table) = match decode(graph, node) {
            Ok(decoded) => decoded,
            Err(error) => return Err(error),
        };
        let mut at: usize = 0;
        while at < declared.len()
            invariant
                graph.wf(),
                aim.view == graph@,
                aim.sound(),
                node < graph@.count(),
                at <= declared@.len(),
                declared@ == declarations(graph@, node as int),
                aim.goal.contains(Fact::Dependency(node as int, name@)),
                self.steady(aim),
                advanced(start, *self),
                same_requests(start.facts@, self.facts@),
                self.requests == start.requests,
                self.tour() == all_turned_on(
                    start.tour(),
                    tour::dependency_list(graph@, node as int, name@, at as int),
                ),
                forall|i: int, edge: int|
                    #[trigger] links(graph@, node as int, name@, i, edge) && i < at ==> link_done(
                        graph@,
                        declared@[i],
                        edge,
                        self.facts@,
                    ),
            decreases declared@.len() - at,
        {
            let ghost was = *self;
            let declaration = &declared[at];
            if declaration.is_normal() && text::same(declaration.extern_name(), name) {
                self.link_declaration(graph, node, name, declared, at, Ghost(aim));
                proof {
                    advanced_twice(start, was, *self);
                }
            } else {
                proof {
                    tour::others_turn_nothing_on(
                        graph@,
                        node as int,
                        name@,
                        at as int,
                        graph@.edges.len() as int,
                    );
                }
            }
            proof {
                tour::one_after_the_other(
                    start.tour(),
                    tour::dependency_list(graph@, node as int, name@, at as int),
                    tour::declaration_list(
                        graph@,
                        node as int,
                        name@,
                        at as int,
                        graph@.edges.len() as int,
                    ),
                );
            }
            assert forall|i: int, edge: int|
                #[trigger] links(graph@, node as int, name@, i, edge) && i < at + 1 implies link_done(
                graph@,
                declared@[i],
                edge,
                self.facts@,
            ) by {
                if i < at {
                    assert(link_done(graph@, declared@[i], edge, was.facts@));
                }
            }
            at = at + 1;
        }
        let edges = resolved_edges(graph, node, declared, name);
        let features = self.requested(node, name, Ghost(aim.view));
        let ghost was = *self;
        self.flush(graph, node, name, &edges, &features, Ghost(aim));
        proof {
            advanced_twice(start, was, *self);
            let wanted = text::texts(features@);
            reveal(Progress::tour);
            assert(was.tour().requests[node as int] == start.tour().requests[node as int]);
            tour::one_after_the_other(
                start.tour(),
                tour::dependency_list(graph@, node as int, name@, declared@.len() as int),
                tour::flush_list(
                    graph@,
                    tour::edges_of(graph@, node as int, name@),
                    wanted,
                    wanted.len() as int,
                ),
            );
        }
        Ok(())
    }
}


impl Progress {
    /// Requests `feature` on whatever dependency `name` of `node` resolves to, once it is on.
    fn request_on_dependency(
        &mut self,
        graph: &Graph<'_>,
        node: u32,
        declared: &Vec<DeclaredDep>,
        name: &str,
        feature: &str,
        Ghost(aim): Ghost<Aim>,
    )
        requires
            graph.wf(),
            aim.view == graph@,
            aim.sound(),
            forall|fact: Fact| #[trigger] aim.open.contains(fact) ==> fact is Feature,
            node < graph@.count(),
            declared@ == declarations(graph@, node as int),
            aim.goal.contains(Fact::Request(node as int, name@, feature@)),
            old(self).steady(aim),
            old(self).facts@.contains(Fact::Node(node as int)),
        ensures
            final(self).steady(aim),
            advanced(*old(self), *final(self)),
            final(self).facts@.contains(Fact::Request(node as int, name@, feature@)),
            final(self).tour() == all_turned_on(
                old(self).tour(),
                tour::request_list(graph@, old(self).tour(), node as int, name@, feature@),
            ),
    {
        let ghost start = *self;
        proof {
            tour::nothing_more(start.tour());
        }
        let ghost dependency = Fact::Dependency(node as int, name@);
        let ghost places = tour::edges_of(graph@, node as int, name@);
        let ghost mut at_once = Seq::<Fact>::empty();
        proof {
            stack_is_queue(*self, dependency);
            assert(self.tour().facts == self.facts@) by {
                reveal(Progress::tour);
            }
            assert(index::entries(self.linked@[node as int]).dom().contains(name@)
                == tour::is_linked(self.tour(), node as int, name@));
        }
        if index::get(&self.linked[node as usize], name).is_some() {
            proof {
                assert(self.facts@.contains(dependency));
                assert(done(graph@, dependency, self.facts@));
                assert(done(graph@, dependency, aim.goal));
                assert(request_done(graph@, node as int, name@, feature@, aim.goal));
            }
            let edges = resolved_edges(graph, node, declared, name);
            assert forall|k: int| 0 <= k < edges@.len() implies #[trigger] edges@[k]
                < graph@.edges.len() && aim.goal.contains(
                Fact::Feature(graph@.edges[edges@[k] as int].to, feature@),
            ) && self.facts@.contains(Fact::Node(graph@.edges[edges@[k] as int].to)) by {
                let edge = edges@[k] as int;
                assert(resolves(graph@, node as int, name@, edge));
                let i = choose|i: int| links(graph@, node as int, name@, i, edge);
                assert(links(graph@, node as int, name@, i, edge));
                assert(link_done(graph@, declarations(graph@, node as int)[i], edge, self.facts@));
            }
            self.request_on_targets(graph, &edges, feature, Ghost(aim), Ghost(places));
            proof {
                at_once = tour::target_list(graph@, places, feature@, places.len() as int);
            }
            assert forall|edge: int| #[trigger]
                resolves(graph@, node as int, name@, edge) implies self.facts@.contains(
                Fact::Feature(graph@.edges[edge].to, feature@),
            ) by {
                let k = choose|k: int| 0 <= k < edges@.len() && #[trigger] edges@[k] == edge;
                assert(self.facts@.contains(
                    Fact::Feature(graph@.edges[edges@[k] as int].to, feature@),
                ));
            }
            assert(request_done(graph@, node as int, name@, feature@, self.facts@));
        } else {
            assert(self.facts@.contains(dependency) ==> queued(self.queue@).contains(dependency));
        }
        let ghost was = *self;
        self.note_request(node, name, feature, Ghost(aim));
        proof {
            advanced_twice(start, was, *self);
            tour::one_more(
                start.tour(),
                at_once,
                Fact::Request(node as int, name@, feature@),
            );
        }
    }

    /// Keeps the request of `feature` on dependency `name` of `node`.
    fn note_request(&mut self, node: u32, name: &str, feature: &str, Ghost(aim): Ghost<Aim>)
        requires
            node < aim.view.count(),
            aim.goal.contains(Fact::Request(node as int, name@, feature@)),
            old(self).steady(aim),
            old(self).facts@.contains(Fact::Node(node as int)),
            request_done(aim.view, node as int, name@, feature@, old(self).facts@) || !old(
                self,
            ).facts@.contains(Fact::Dependency(node as int, name@)) || queued(
                old(self).queue@,
            ).contains(Fact::Dependency(node as int, name@)),
        ensures
            final(self).steady(aim),
            advanced(*old(self), *final(self)),
            final(self).facts@.contains(Fact::Request(node as int, name@, feature@)),
            final(self).tour() == turned_on(
                old(self).tour(),
                Fact::Request(node as int, name@, feature@),
            ),
    {
        let ghost was = *self;
        let ghost fact = Fact::Request(node as int, name@, feature@);
        self.requests[node as usize].push((name.to_owned(), feature.to_owned()));
        proof {
            self.facts@ = was.facts@.insert(fact);
            let before = was.requests@[node as int]@;
            let now = self.requests@[node as int]@;
            assert forall|u: int, n: Seq<char>, f: Seq<char>|
                #![trigger self.facts@.contains(Fact::Request(u, n, f))]
                0 <= u < aim.view.count() implies (self.facts@.contains(Fact::Request(u, n, f))
                <==> is_requested(self.requests@[u]@, n, f)) by {
                assert(was.facts@.contains(Fact::Request(u, n, f)) <==> is_requested(
                    was.requests@[u]@,
                    n,
                    f,
                ));
                if u == node {
                    assert(now.last().0@ == name@ && now.last().1@ == feature@);
                    if is_requested(before, n, f) {
                        let i = choose|i: int|
                            0 <= i < before.len() && (#[trigger] before[i]).0@ == n && before[i].1@
                                == f;
                        assert(now[i] == before[i]);
                    }
                    if is_requested(now, n, f) {
                        let i = choose|i: int|
                            0 <= i < now.len() && (#[trigger] now[i]).0@ == n && now[i].1@ == f;
                        if i < before.len() {
                            assert(now[i] == before[i]);
                        }
                    }
                    if n == name@ && f == feature@ {
                        assert(now[before.len() as int].0@ == n);
                    }
                }
            }
            assert(self.tracks(aim.view));
            let open = queued(was.queue@).union(aim.open);
            assert forall|f: Fact| #[trigger]
                self.facts@.contains(f) && !open.contains(f) implies done(
                aim.view,
                f,
                self.facts@,
            ) by {
                if f != fact {
                    assert(was.facts@.contains(f));
                    requests_added(aim.view, f, was.facts@, fact);
                }
            }
            assert(self.steady(aim));
            reveal(Progress::tour);
            assert(asked(now) =~= asked(before).push((name@, feature@)));
            assert(self.tour().requests =~= was.tour().requests.update(
                node as int,
                asked(before).push((name@, feature@)),
            ));
            assert(self.tour().stack =~= was.tour().stack);
        }
    }

    /// Applies one entry of a feature's value list.
    ///
    /// A bare token is a feature of this package even where a dependency has the same name:
    /// `utmpx = ["time", "time/macros"]` means the feature in the first entry and the dependency
    /// in the second.
    fn expand_entry(
        &mut self,
        graph: &Graph<'_>,
        node: u32,
        declared: &Vec<DeclaredDep>,
        entry: &str,
        Ghost(aim): Ghost<Aim>,
    )
        requires
            graph.wf(),
            aim.view == graph@,
            aim.sound(),
            forall|fact: Fact| #[trigger] aim.open.contains(fact) ==> fact is Feature,
            node < graph@.count(),
            declared@ == declarations(graph@, node as int),
            entry_done(node as int, entry_of(entry@), aim.goal),
            old(self).steady(aim),
            old(self).facts@.contains(Fact::Node(node as int)),
        ensures
            final(self).steady(aim),
            advanced(*old(self), *final(self)),
            entry_done(node as int, entry_of(entry@), final(self).facts@),
            final(self).tour() == all_turned_on(
                old(self).tour(),
                tour::entry_list(graph@, old(self).tour(), node as int, entry_of(entry@)),
            ),
    {
        let ghost start = *self;
        let ghost none = Seq::<Fact>::empty();
        proof {
            tour::nothing_more(start.tour());
        }
        match parse_entry(entry) {
            Entry::Dependency(dependency) => {
                self.enable_dependency(node, dependency.as_str(), Ghost(aim));
                proof {
                    let fact = Fact::Dependency(node as int, dependency@);
                    tour::one_more(start.tour(), none, fact);
                    assert(none.push(fact) =~= seq![fact]);
                }
            },
            Entry::Feature(feature) => {
                self.request_feature(node, feature.as_str(), Ghost(aim));
                proof {
                    let fact = Fact::Feature(node as int, feature@);
                    tour::one_more(start.tour(), none, fact);
                    assert(none.push(fact) =~= seq![fact]);
                }
            },
            Entry::Weak(dependency, feature) => {
                self.request_on_dependency(
                    graph,
                    node,
                    declared,
                    dependency.as_str(),
                    feature.as_str(),
                    Ghost(aim),
                );
            },
            Entry::Strong(dependency, feature) => {
                self.enable_dependency(node, dependency.as_str(), Ghost(aim));
                let ghost was = *self;
                self.request_on_dependency(
                    graph,
                    node,
                    declared,
                    dependency.as_str(),
                    feature.as_str(),
                    Ghost(aim),
                );
                proof {
                    advanced_twice(start, was, *self);
                    let fact = Fact::Dependency(node as int, dependency@);
                    let first = seq![fact];
                    tour::one_more(start.tour(), none, fact);
                    assert(none.push(fact) =~= first);
                    tour::links_stay(start.tour(), first, node as int, dependency@);
                    tour::one_after_the_other(
                        start.tour(),
                        first,
                        tour::request_list(
                            graph@,
                            start.tour(),
                            node as int,
                            dependency@,
                            feature@,
                        ),
                    );
                }
            },
        }
    }

    /// Applies every entry of `entries`.
    fn expand_entries(
        &mut self,
        graph: &Graph<'_>,
        node: u32,
        declared: &Vec<DeclaredDep>,
        entries: &Vec<String>,
        Ghost(aim): Ghost<Aim>,
    )
        requires
            graph.wf(),
            aim.view == graph@,
            aim.sound(),
            forall|fact: Fact| #[trigger] aim.open.contains(fact) ==> fact is Feature,
            node < graph@.count(),
            declared@ == declarations(graph@, node as int),
            forall|j: int|
                0 <= j < entries@.len() ==> entry_done(
                    node as int,
                    entry_of((#[trigger] entries@[j])@),
                    aim.goal,
                ),
            old(self).steady(aim),
            old(self).facts@.contains(Fact::Node(node as int)),
        ensures
            final(self).steady(aim),
            advanced(*old(self), *final(self)),
            forall|j: int|
                0 <= j < entries@.len() ==> entry_done(
                    node as int,
                    entry_of((#[trigger] entries@[j])@),
                    final(self).facts@,
                ),
            final(self).tour() == all_turned_on(
                old(self).tour(),
                tour::entries_list(
                    graph@,
                    old(self).tour(),
                    node as int,
                    entries@,
                    entries@.len() as int,
                ),
            ),
    {
        let ghost start = *self;
        proof {
            tour::nothing_more(start.tour());
        }
        let mut at: usize = 0;
        while at < entries.len()
            invariant
                graph.wf(),
                aim.view == graph@,
                aim.sound(),
                forall|fact: Fact| #[trigger] aim.open.contains(fact) ==> fact is Feature,
                node < graph@.count(),
                declared@ == declarations(graph@, node as int),
                at <= entries@.len(),
                forall|j: int|
                    0 <= j < entries@.len() ==> entry_done(
                        node as int,
                        entry_of((#[trigger] entries@[j])@),
                        aim.goal,
                    ),
                self.steady(aim),
                advanced(start, *self),
                self.tour() == all_turned_on(
                    start.tour(),
                    tour::entries_list(graph@, start.tour(), node as int, entries@, at as int),
                ),
                self.facts@.contains(Fact::Node(node as int)),
                forall|j: int|
                    0 <= j < at ==> entry_done(
                        node as int,
                        entry_of((#[trigger] entries@[j])@),
                        self.facts@,
                    ),
            decreases entries@.len() - at,
        {
            let ghost was = *self;
            self.expand_entry(graph, node, declared, entries[at].as_str(), Ghost(aim));
            proof {
                advanced_twice(start, was, *self);
                tour::one_entry_more(graph@, start.tour(), node as int, entries@, at as int);
                assert forall|j: int| 0 <= j < at + 1 implies entry_done(
                    node as int,
                    entry_of((#[trigger] entries@[j])@),
                    self.facts@,
                ) by {
                    if j < at {
                        assert(entry_done(node as int, entry_of(entries@[j]@), was.facts@));
                    }
                }
            }
            at = at + 1;
        }
    }

    /// Expands one feature of one package.
    ///
    /// A name that is neither a feature nor a dependency is a no-op rather than an error: the
    /// document, not this walk, is the authority on which features exist.
    fn expand_feature(
        &mut self,
        graph: &Graph<'_>,
        node: u32,
        feature: &str,
        Ghost(aim): Ghost<Aim>,
    ) -> (result: Result<(), Error>)
        requires
            graph.wf(),
            aim.view == graph@,
            aim.sound(),
            aim.open == set![Fact::Feature(node as int, feature@)],
            node < graph@.count(),
            old(self).steady(aim),
            old(self).facts@.contains(Fact::Feature(node as int, feature@)),
        ensures
            match result {
                Ok(_) => {
                    &&& final(self).steady(aim.at_rest())
                    &&& advanced(*old(self), *final(self))
                    &&& decode_fault(graph@, node as int) is None
                    &&& final(self).tour() == all_turned_on(
                        old(self).tour(),
                        tour::expansion(
                            graph@,
                            old(self).tour(),
                            Fact::Feature(node as int, feature@),
                        ),
                    )
                },
                Err(error) => decode_fault(graph@, node as int) == Some(error@),
            },
    {
        let ghost start = *self;
        proof {
            tour::nothing_more(start.tour());
        }
        let ghost fact = Fact::Feature(node as int, feature@);
        let (declared, table) = match decode(graph, node) {
            Ok(decoded) => decoded,
            Err(error) => return Err(error),
        };
        proof {
            assert(aim.goal.contains(fact));
            assert(feature_done(graph@, node as int, feature@, aim.goal));
            assert(self.facts@.contains(home(fact)));
        }
        if !is_defined(table, feature) {
            let ghost none = Seq::<Fact>::empty();
            if !is_suppressed(table, feature) {
                self.enable_dependency(node, feature, Ghost(aim));
                proof {
                    let dependency = Fact::Dependency(node as int, feature@);
                    tour::one_more(start.tour(), none, dependency);
                    assert(none.push(dependency) =~= seq![dependency]);
                }
            }
            proof {
                assert(feature_done(graph@, node as int, feature@, self.facts@));
                settled(*self, aim, fact);
            }
            return Ok(());
        }
        let mut at: usize = 0;
        while at < table.len()
            invariant
                graph.wf(),
                aim.view == graph@,
                aim.sound(),
                aim.open == set![fact],
                fact == Fact::Feature(node as int, feature@),
                node < graph@.count(),
                declared@ == declarations(graph@, node as int),
                table@ == feature_table_of(graph@, node as int),
                at <= table@.len(),
                feature_done(graph@, node as int, feature@, aim.goal),
                self.steady(aim),
                advanced(start, *self),
                self.tour() == all_turned_on(
                    start.tour(),
                    tour::table_list(graph@, start.tour(), node as int, feature@, at as int),
                ),
                self.facts@.contains(Fact::Node(node as int)),
                forall|i: int, j: int|
                    #![trigger table@[i].entries@[j]]
                    0 <= i < at && table@[i].name@ == feature@ && 0 <= j < table@[i].entries@.len()
                        ==> entry_done(
                        node as int,
                        entry_of(table@[i].entries@[j]@),
                        self.facts@,
                    ),
            decreases table@.len() - at,
        {
            let ghost was = *self;
            if text::same(table[at].name.as_str(), feature) {
                self.expand_entries(graph, node, declared, &table[at].entries, Ghost(aim));
                proof {
                    advanced_twice(start, was, *self);
                    let sofar = tour::table_list(
                        graph@,
                        start.tour(),
                        node as int,
                        feature@,
                        at as int,
                    );
                    let entries = table@[at as int].entries@;
                    tour::entries_stay(
                        graph@,
                        start.tour(),
                        sofar,
                        node as int,
                        entries,
                        entries.len() as int,
                    );
                    tour::one_after_the_other(
                        start.tour(),
                        sofar,
                        tour::entries_list(
                            graph@,
                            start.tour(),
                            node as int,
                            entries,
                            entries.len() as int,
                        ),
                    );
                }
            }
            assert forall|i: int, j: int|
                #![trigger table@[i].entries@[j]]
                0 <= i < at + 1 && table@[i].name@ == feature@ && 0 <= j
                    < table@[i].entries@.len() implies entry_done(
                node as int,
                entry_of(table@[i].entries@[j]@),
                self.facts@,
            ) by {
                if i < at {
                    assert(entry_done(
                        node as int,
                        entry_of(table@[i].entries@[j]@),
                        was.facts@,
                    ));
                }
            }
            at = at + 1;
        }
        proof {
            assert(feature_done(graph@, node as int, feature@, self.facts@));
            settled(*self, aim, fact);
        }
        Ok(())
    }
}

/// A fact that is done stays done when a request is added, unless it is the dependency that the
/// request is about.
proof fn requests_added(view: GraphView, fact: Fact, facts: Set<Fact>, request: Fact)
    requires
        done(view, fact, facts),
        request is Request,
        fact == Fact::Dependency(request->Request_0, request->Request_1) ==> request_done(
            view,
            request->Request_0,
            request->Request_1,
            request->Request_2,
            facts,
        ),
    ensures
        done(view, fact, facts.insert(request)),
{
    let more = facts.insert(request);
    match fact {
        Fact::Dependency(node, name) => {
            assert forall|i: int, edge: int| #[trigger] links(view, node, name, i, edge) implies
                link_done(view, declarations(view, node)[i], edge, more) by {
                assert(link_done(view, declarations(view, node)[i], edge, facts));
            }
            assert forall|feature: Seq<char>|
                #[trigger] more.contains(Fact::Request(node, name, feature)) implies request_done(
                view,
                node,
                name,
                feature,
                more,
            ) by {
                assert(request_done(view, node, name, feature, facts));
            }
        },
        Fact::Feature(node, feature) => {
            let table = feature_table_of(view, node);
            assert forall|i: int, j: int|
                #![trigger table[i].entries@[j]]
                0 <= i < table.len() && table[i].name@ == feature && 0 <= j
                    < table[i].entries@.len() implies entry_done(
                node,
                entry_of(table[i].entries@[j]@),
                more,
            ) by {
                assert(entry_done(node, entry_of(table[i].entries@[j]@), facts));
            }
        },
        _ => {},
    }
}


/// The declared features of a table, in order.
fn defined_names(table: &Vec<Feature>) -> (list: Vec<String>)
    ensures
        names::ordered(text::texts(list@), |name: Seq<char>| defines(table@, name)),
{
    let mut list: Vec<String> = Vec::new();
    let mut at: usize = 0;
    while at < table.len()
        invariant
            at <= table@.len(),
            names::ascending(text::texts(list@)),
            forall|name: Seq<char>| #[trigger]
                text::texts(list@).contains(name) <==> defines(table@.take(at as int), name),
        decreases table@.len() - at,
    {
        let ghost was = text::texts(list@);
        names::insert(&mut list, table[at].name.as_str());
        proof {
            let before = table@.take(at as int);
            let now = table@.take(at + 1);
            assert forall|name: Seq<char>| #[trigger]
                text::texts(list@).contains(name) <==> defines(now, name) by {
                assert(was.contains(name) <==> defines(before, name));
                assert(now[at as int] == table@[at as int]);
                if defines(before, name) {
                    let i = choose|i: int|
                        0 <= i < before.len() && (#[trigger] before[i]).name@ == name;
                    assert(now[i] == before[i]);
                }
                if defines(now, name) {
                    let i = choose|i: int| 0 <= i < now.len() && (#[trigger] now[i]).name@ == name;
                    if i < at {
                        assert(before[i] == now[i]);
                    }
                }
            }
        }
        at = at + 1;
    }
    assert(table@.take(at as int) =~= table@);
    list
}

/// Whether the `i`th declaration of `declared` is an optional normal one that carries an
/// implicit feature `name`.
spec fn is_implicit(declared: Seq<DeclaredDep>, table: Seq<Feature>, i: int, name: Seq<char>) -> bool {
    &&& 0 <= i < declared.len()
    &&& declared[i].kind is None
    &&& declared[i].optional
    &&& declared[i].used_as() == name
    &&& !defines(table, name)
    &&& !suppresses(table, name)
}

/// The implicit features of optional dependencies that the table of a package does not spell
/// out, in order.
///
/// A document that Cargo wrote has none: Cargo puts each implicit feature into the table.
fn implicit_names(declared: &Vec<DeclaredDep>, table: &Vec<Feature>) -> (list: Vec<String>)
    ensures
        names::ordered(
            text::texts(list@),
            |name: Seq<char>| exists|i: int| is_implicit(declared@, table@, i, name),
        ),
{
    let mut list: Vec<String> = Vec::new();
    let mut at: usize = 0;
    while at < declared.len()
        invariant
            at <= declared@.len(),
            names::ascending(text::texts(list@)),
            forall|name: Seq<char>| #[trigger]
                text::texts(list@).contains(name) <==> exists|i: int|
                    i < at && is_implicit(declared@, table@, i, name),
        decreases declared@.len() - at,
    {
        let ghost was = text::texts(list@);
        let declaration = &declared[at];
        if declaration.is_normal() && declaration.optional {
            let name = declaration.extern_name();
            if !is_defined(table, name) && !is_suppressed(table, name) {
                names::insert(&mut list, name);
                assert(is_implicit(declared@, table@, at as int, name@));
            }
        }
        assert forall|name: Seq<char>| #[trigger]
            text::texts(list@).contains(name) <==> exists|i: int|
            i < at + 1 && is_implicit(declared@, table@, i, name) by {
            assert(was.contains(name) <==> exists|i: int|
                i < at && is_implicit(declared@, table@, i, name));
            if was.contains(name) {
                let i = choose|i: int| i < at && is_implicit(declared@, table@, i, name);
                assert(i < at + 1 && is_implicit(declared@, table@, i, name));
            }
        }
        at = at + 1;
    }
    assert forall|name: Seq<char>| #[trigger]
        text::texts(list@).contains(name) <==> exists|i: int| is_implicit(declared@, table@, i, name) by {
        if exists|i: int| is_implicit(declared@, table@, i, name) {
            let i = choose|i: int| is_implicit(declared@, table@, i, name);
            assert(i < at && is_implicit(declared@, table@, i, name));
        }
    }
    list
}

/// The features the root starts with.
fn seed(graph: &Graph<'_>, root: u32, selection: &Selection) -> (seeds: Result<Vec<String>, Error>)
    requires
        graph.wf(),
        root < graph@.count(),
    ensures
        match seeds {
            Ok(list) => {
                &&& text::texts(list@) == tour::seeds(graph@, root as int, selection@)
                &&& forall|feature: Seq<char>| #[trigger]
                    text::texts(list@).contains(feature) <==> seeded(
                        graph@,
                        root as int,
                        selection@,
                        feature,
                    )
            },
            Err(error) => decode_fault(graph@, root as int) == Some(error@),
        },
{
    match selection {
        Selection::Nothing => {
            let list: Vec<String> = Vec::new();
            assert(text::texts(list@) =~= Seq::<Seq<char>>::empty());
            Ok(list)
        },
        Selection::Default => {
            let mut list: Vec<String> = Vec::new();
            list.push("default".to_owned());
            assert(text::texts(list@) =~= seq!["default"@]);
            assert(seq!["default"@][0] == "default"@);
            Ok(list)
        },
        Selection::List(features) => Ok(text::copy_all(features)),
        Selection::All => {
            let (declared, table) = match decode(graph, root) {
                Ok(decoded) => decoded,
                Err(error) => return Err(error),
            };
            let mut list = defined_names(table);
            let mut implicit = implicit_names(declared, table);
            let ghost first = text::texts(list@);
            let ghost second = text::texts(implicit@);
            list.append(&mut implicit);
            proof {
                let both = text::texts(list@);
                assert(both =~= first + second);
                seeds_are_in_order(graph@, root as int, first, second);
                assert forall|feature: Seq<char>| #[trigger]
                    both.contains(feature) <==> seeded(
                        graph@,
                        root as int,
                        selection@,
                        feature,
                    ) by {
                    seeds_of_all(graph@, root as int, first, second, feature);
                }
            }
            Ok(list)
        },
    }
}

/// The declared and the implicit features of a package are its seeds in order.
proof fn seeds_are_in_order(
    view: GraphView,
    root: int,
    defined: Seq<Seq<char>>,
    implicit: Seq<Seq<char>>,
)
    requires
        names::ordered(
            defined,
            |name: Seq<char>| defines(feature_table_of(view, root), name),
        ),
        names::ordered(
            implicit,
            |name: Seq<char>|
                exists|i: int|
                    is_implicit(declarations(view, root), feature_table_of(view, root), i, name),
        ),
    ensures
        tour::seeds(view, root, SelectionView::All) == defined + implicit,
{
    let declared = declarations(view, root);
    let table = feature_table_of(view, root);
    assert forall|name: Seq<char>| #[trigger]
        defined.contains(name) <==> tour::defined_by(view, root)(name) by {
        assert(defined.contains(name) <==> defines(table, name));
    }
    tour::order_is(defined, tour::defined_by(view, root));
    assert forall|name: Seq<char>| #[trigger]
        implicit.contains(name) <==> tour::carried_by(view, root)(name) by {
        assert(implicit.contains(name) <==> exists|i: int| is_implicit(declared, table, i, name));
        if exists|i: int| is_implicit(declared, table, i, name) {
            let i = choose|i: int| is_implicit(declared, table, i, name);
            assert(declared[i].used_as() == name);
        }
        if tour::carries(view, root, name) {
            let i = choose|i: int|
                0 <= i < declared.len() && (#[trigger] declared[i]).kind is None
                    && declared[i].optional && declared[i].used_as() == name && !defines(
                    table,
                    name,
                ) && !suppresses(table, name);
            assert(is_implicit(declared, table, i, name));
        }
    }
    tour::order_is(implicit, tour::carried_by(view, root));
}

proof fn seeds_of_all(
    view: GraphView,
    root: int,
    defined: Seq<Seq<char>>,
    implicit: Seq<Seq<char>>,
    feature: Seq<char>,
)
    requires
        forall|name: Seq<char>| #[trigger]
            defined.contains(name) <==> defines(feature_table_of(view, root), name),
        forall|name: Seq<char>| #[trigger]
            implicit.contains(name) <==> exists|i: int|
                is_implicit(declarations(view, root), feature_table_of(view, root), i, name),
    ensures
        (defined + implicit).contains(feature) <==> seeded(view, root, SelectionView::All, feature),
{
    let table = feature_table_of(view, root);
    let declared = declarations(view, root);
    let both = defined + implicit;
    if both.contains(feature) {
        let k = choose|k: int| 0 <= k < both.len() && both[k] == feature;
        if k < defined.len() {
            assert(defined[k] == feature);
            assert(defined.contains(feature));
        } else {
            assert(implicit[k - defined.len()] == feature);
            assert(implicit.contains(feature));
            let i = choose|i: int| is_implicit(declared, table, i, feature);
            assert(declares(view, root, i, feature));
        }
    }
    if seeded(view, root, SelectionView::All, feature) {
        if defines(table, feature) {
            assert(defined.contains(feature));
            let k = choose|k: int| 0 <= k < defined.len() && defined[k] == feature;
            assert(both[k] == feature);
        } else {
            let i = choose|i: int|
                declares(view, root, i, feature) && declared[i].optional && !suppresses(
                    table,
                    feature,
                );
            assert(is_implicit(declared, table, i, feature));
            assert(implicit.contains(feature));
            let k = choose|k: int| 0 <= k < implicit.len() && implicit[k] == feature;
            assert(both[defined.len() + k] == feature);
        }
    }
}


/// `count` maps without entries.
fn empty_lists(count: usize) -> (lists: Vec<Index>)
    ensures
        lists@.len() == count,
        forall|u: int|
            0 <= u < count ==> index::entries(#[trigger] lists@[u]) == Map::<Seq<char>, u32>::empty(),
{
    let mut lists: Vec<Index> = Vec::new();
    while lists.len() < count
        invariant
            lists@.len() <= count,
            forall|u: int|
                0 <= u < lists@.len() ==> index::entries(#[trigger] lists@[u]) == Map::<
                    Seq<char>,
                    u32,
                >::empty(),
        decreases count - lists@.len(),
    {
        lists.push(index::empty());
    }
    lists
}

/// `count` empty lists.
fn empty_requests(count: usize) -> (lists: Vec<Vec<(String, String)>>)
    ensures
        lists@.len() == count,
        forall|u: int| 0 <= u < count ==> (#[trigger] lists@[u])@.len() == 0,
{
    let mut lists: Vec<Vec<(String, String)>> = Vec::new();
    while lists.len() < count
        invariant
            lists@.len() <= count,
            forall|u: int| 0 <= u < lists@.len() ==> (#[trigger] lists@[u])@.len() == 0,
        decreases count - lists@.len(),
    {
        lists.push(Vec::new());
    }
    lists
}

impl Progress {
    /// Whether the tables fit a graph with as many packages and edges as `view`.
    spec fn fits(&self, view: GraphView) -> bool {
        bits::capacity(self.nodes) == view.count() && bits::capacity(self.edges)
            == view.edges.len()
    }

    /// Nothing turned on yet.
    fn new(graph: &Graph<'_>) -> (progress: Progress)
        requires
            graph.wf(),
        ensures
            progress.fits(graph@),
    {
        let nodes = graph.node_count() as usize;
        let edges = graph.edge_count() as usize;
        Progress {
            nodes: bits::with_capacity(nodes),
            edges: bits::with_capacity(edges),
            features: Vec::new(),
            dependencies: Vec::new(),
            linked: Vec::new(),
            requests: Vec::new(),
            queue: Vec::new(),
            facts: Ghost(Set::empty()),
        }
    }

    /// Clears everything one run owns.
    fn reset(&mut self, graph: &Graph<'_>)
        requires
            graph.wf(),
            old(self).fits(graph@),
        ensures
            final(self).tracks(graph@),
            final(self).facts@ == Set::<Fact>::empty(),
            final(self).queue@.len() == 0,
            final(self).tour() == tour::blank(graph@),
    {
        let nodes = graph.node_count() as usize;
        bits::clear(&mut self.nodes);
        bits::clear(&mut self.edges);
        self.features = empty_lists(nodes);
        self.dependencies = empty_lists(nodes);
        self.linked = empty_lists(nodes);
        self.requests = empty_requests(nodes);
        self.queue = Vec::new();
        proof {
            self.facts@ = Set::empty();
            assert(self.tracks(graph@));
            reveal(Progress::tour);
            assert forall|u: int| 0 <= u < graph@.count() implies #[trigger] asked(
                self.requests@[u]@,
            ) == Seq::<(Seq<char>, Seq<char>)>::empty() by {
                assert(asked(self.requests@[u]@) =~= Seq::<(Seq<char>, Seq<char>)>::empty());
            }
            assert(self.tour().requests =~= tour::blank(graph@).requests);
            assert(self.tour().stack =~= tour::blank(graph@).stack);
        }
    }

    /// Takes the task that was put off last.
    fn take(&mut self, Ghost(aim): Ghost<Aim>) -> (task: Option<Task>)
        requires
            old(self).steady(aim),
            aim.open == Set::<Fact>::empty(),
        ensures
            final(self).facts@ == old(self).facts@,
            match task {
                None => old(self).queue@.len() == 0,
                Some(task) => {
                    &&& old(self).queue@.len() > 0
                    &&& final(self).queue@ == old(self).queue@.drop_last()
                    &&& final(self).facts@.contains(fact_of(task))
                    &&& final(self).tour() == tour::popped(old(self).tour())
                    &&& old(self).tour().stack.len() > 0
                    &&& old(self).tour().stack.last() == fact_of(task)
                    &&& final(self).steady((Aim { open: set![fact_of(task)], ..aim }))
                },
            },
    {
        let ghost was = *self;
        match self.queue.pop() {
            None => None,
            Some(task) => {
                proof {
                    queue_popped(was.queue@, was.facts@);
                    assert(in_range(aim.view, fact_of(task)));
                }
                if let Task::Dependency(node, name) = &task {
                    index::insert(&mut self.linked[*node as usize], name.as_str(), *node);
                }
                proof {
                    assert forall|u: int, n: Seq<char>|
                        #![trigger index::entries(self.linked@[u]).dom().contains(n)]
                        0 <= u < aim.view.count() implies (index::entries(
                        self.linked@[u],
                    ).dom().contains(n) <==> self.facts@.contains(Fact::Dependency(u, n)) && !queued(
                        self.queue@,
                    ).contains(Fact::Dependency(u, n))) by {
                        assert(index::entries(was.linked@[u]).dom().contains(n) == (
                        was.facts@.contains(Fact::Dependency(u, n)) && !queued(
                            was.queue@,
                        ).contains(Fact::Dependency(u, n))));
                    }
                    assert(self.tracks(aim.view));
                    reveal(Progress::tour);
                    assert(self.tour().stack =~= was.tour().stack.drop_last());
                    let now = Aim { open: set![fact_of(task)], ..aim };
                    assert(queued(self.queue@).union(now.open) =~= queued(was.queue@).union(
                        aim.open,
                    ));
                }
                Some(task)
            },
        }
    }

    /// Requests `features` of `root`.
    fn request_all(&mut self, root: u32, features: &Vec<String>, Ghost(aim): Ghost<Aim>)
        requires
            old(self).steady(aim),
            root < aim.view.count(),
            old(self).facts@.contains(Fact::Node(root as int)),
            forall|feature: Seq<char>| #[trigger]
                text::texts(features@).contains(feature) ==> aim.goal.contains(
                    Fact::Feature(root as int, feature),
                ),
        ensures
            final(self).steady(aim),
            old(self).facts@.subset_of(final(self).facts@),
            forall|feature: Seq<char>| #[trigger]
                text::texts(features@).contains(feature) ==> final(self).facts@.contains(
                    Fact::Feature(root as int, feature),
                ),
            final(self).tour() == all_turned_on(
                old(self).tour(),
                tour::seed_list(root as int, text::texts(features@), features@.len() as int),
            ),
    {
        let ghost start = *self;
        let ghost wanted = text::texts(features@);
        proof {
            tour::nothing_more(start.tour());
        }
        let mut at: usize = 0;
        while at < features.len()
            invariant
                at <= features@.len(),
                start == *old(self),
                wanted == text::texts(features@),
                self.tour() == all_turned_on(
                    start.tour(),
                    tour::seed_list(root as int, wanted, at as int),
                ),
                self.steady(aim),
                root < aim.view.count(),
                old(self).facts@.subset_of(self.facts@),
                old(self).facts@.contains(Fact::Node(root as int)),
                forall|feature: Seq<char>| #[trigger]
                    text::texts(features@).contains(feature) ==> aim.goal.contains(
                        Fact::Feature(root as int, feature),
                    ),
                forall|k: int|
                    0 <= k < at ==> self.facts@.contains(
                        Fact::Feature(root as int, #[trigger] text::texts(features@)[k]),
                    ),
            decreases features@.len() - at,
        {
            assert(text::texts(features@)[at as int] == features@[at as int]@);
            assert(text::texts(features@).contains(features@[at as int]@));
            proof {
                tour::one_more(
                    start.tour(),
                    tour::seed_list(root as int, wanted, at as int),
                    Fact::Feature(root as int, wanted[at as int]),
                );
            }
            self.request_feature(root, features[at].as_str(), Ghost(aim));
            at = at + 1;
        }
    }

    /// Works on one task.
    fn expand(&mut self, graph: &Graph<'_>, task: Task, Ghost(aim): Ghost<Aim>) -> (result: Result<
        (),
        Error,
    >)
        requires
            graph.wf(),
            aim.view == graph@,
            aim.sound(),
            aim.open == set![fact_of(task)],
            old(self).steady(aim),
            old(self).facts@.contains(fact_of(task)),
        ensures
            match result {
                Ok(_) => {
                    &&& final(self).steady(aim.at_rest())
                    &&& advanced(*old(self), *final(self))
                    &&& tour::fault_of(graph@, fact_of(task)) is None
                    &&& final(self).tour() == all_turned_on(
                        old(self).tour(),
                        tour::expansion(graph@, old(self).tour(), fact_of(task)),
                    )
                },
                Err(error) => {
                    &&& tour::fault_of(graph@, fact_of(task)) == Some(error@)
                    &&& exists|node: int|
                        aim.goal.contains(Fact::Node(node)) && #[trigger] decode_fault(
                            graph@,
                            node,
                        ) == Some(error@)
                },
            },
    {
        let ghost fact = fact_of(task);
        proof {
            assert(in_range(aim.view, fact));
            assert(self.facts@.contains(home(fact)));
            assert(aim.goal.contains(home(fact)));
        }
        let result = match task {
            Task::Node(node) => self.expand_node(graph, node, Ghost(aim)),
            Task::Dependency(node, name) => self.expand_dependency(
                graph,
                node,
                name.as_str(),
                Ghost(aim),
            ),
            Task::Feature(node, feature) => self.expand_feature(
                graph,
                node,
                feature.as_str(),
                Ghost(aim),
            ),
        };
        result
    }

    /// Runs one walk from `root`.
    fn run(&mut self, graph: &Graph<'_>, root: u32, selection: &Selection) -> (result: Result<
        (),
        Error,
    >)
        requires
            graph.wf(),
            root < graph@.count(),
            old(self).tracks(graph@),
            old(self).facts@ == Set::<Fact>::empty(),
            old(self).queue@.len() == 0,
            old(self).tour() == tour::blank(graph@),
        ensures
            match result {
                Ok(_) => {
                    &&& final(self).tracks(graph@)
                    &&& final(self).facts@ == activated(graph@, root as int, selection@)
                    &&& forall|node: int|
                        activated(graph@, root as int, selection@).contains(Fact::Node(node))
                            ==> #[trigger] decode_fault(graph@, node) is None
                },
                Err(error) => is_decode_fault(graph@, root as int, selection@, error@),
            },
    {
        let ghost view = graph@;
        let ghost goal = activated(view, root as int, selection@);
        let ghost aim = Aim { view, open: Set::empty(), goal };
        let ghost words = walk_words(view, selection@);
        proof {
            graph.is_consistent();
            activation_is_closed(view, root as int, selection@);
            within_is_closed(view, root as int, selection@);
            activation_is_least(
                view,
                root as int,
                selection@,
                Set::new(|fact: Fact| within(view, words, fact)),
            );
            walk_words_are_finite(view, selection@);
            workload_is_finite(view, words);
            assert(self.steady(aim));
        }
        self.enable_node(root, Ghost(aim));
        let seeds = match seed(graph, root, selection) {
            Ok(seeds) => seeds,
            Err(error) => {
                assert(goal.contains(Fact::Node(root as int)) && decode_fault(graph@, root as int)
                    == Some(error@));
                proof {
                    let features = tour::seeds(view, root as int, selection@);
                    tour::the_root_comes_first(
                        view,
                        root as int,
                        features,
                        features.len() as int,
                    );
                    assert(tour::stops_at(view, root as int, selection@, 0, error@));
                }
                return Err(error);
            },
        };
        self.request_all(root, &seeds, Ghost(aim));
        assert forall|feature: Seq<char>|
            #![trigger self.facts@.contains(Fact::Feature(root as int, feature))]
            seeded(view, root as int, selection@, feature) implies self.facts@.contains(
            Fact::Feature(root as int, feature),
        ) by {
            assert(text::texts(seeds@).contains(feature));
        }
        let ghost mut count: nat = 0;
        while self.queue.len() > 0
            invariant
                self.tour() == tour::tour_at(view, root as int, selection@, count),
                forall|earlier: nat|
                    earlier < count ==> tour::next_fault(
                        view,
                        #[trigger] tour::tour_at(view, root as int, selection@, earlier),
                    ) is None,
                graph.wf(),
                view == graph@,
                root < view.count(),
                goal == activated(view, root as int, selection@),
                aim == (Aim { view, open: Set::empty(), goal }),
                aim.sound(),
                self.steady(aim),
                holds_seed(view, root as int, selection@, self.facts@),
                forall|fact: Fact| #[trigger] goal.contains(fact) ==> within(view, words, fact),
                workload(view, words).finite(),
            decreases workload(view, words).difference(self.facts@).len(), self.queue@.len(),
        {
            let ghost start = *self;
            let task = match self.take(Ghost(aim)) {
                Some(task) => task,
                None => return Ok(()),
            };
            let ghost was = *self;
            let ghost now = Aim { open: set![fact_of(task)], ..aim };
            match self.expand(graph, task, Ghost(now)) {
                Ok(_) => {},
                Err(error) => {
                    assert(tour::stops_at(view, root as int, selection@, count, error@));
                    return Err(error);
                },
            }
            proof {
                count = count + 1;
                assert(now.at_rest() == aim);
                work_shrinks(view, words, goal, was, *self);
                assert(holds_seed(view, root as int, selection@, self.facts@));
            }
        }
        proof {
            assert(queued(self.queue@) =~= Set::empty());
            assert(closed(view, root as int, selection@, self.facts@));
            activation_is_least(view, root as int, selection@, self.facts@);
            assert(self.facts@ =~= goal);
        }
        Ok(())
    }
}

/// What is left to turn on shrinks with each fact that a walk adds.
proof fn work_shrinks(
    view: GraphView,
    words: Set<Seq<char>>,
    goal: Set<Fact>,
    from: Progress,
    to: Progress,
)
    requires
        advanced(from, to),
        to.facts@.subset_of(goal),
        forall|fact: Fact| #[trigger] goal.contains(fact) ==> within(view, words, fact),
        workload(view, words).finite(),
    ensures
        workload(view, words).difference(to.facts@).len() <= workload(view, words).difference(
            from.facts@,
        ).len(),
        workload(view, words).difference(to.facts@).len() == workload(view, words).difference(
            from.facts@,
        ).len() ==> to.queue@ == from.queue@,
{
    let all = workload(view, words);
    let before = all.difference(from.facts@);
    let after = all.difference(to.facts@);
    assert(after.subset_of(before));
    vstd::set_lib::lemma_len_subset(after, before);
    if !idle(from.facts@, to.facts@) {
        let fact = choose|fact: Fact| #[trigger]
            to.facts@.contains(fact) && !(fact is Edge) && !(fact is Request)
                && !from.facts@.contains(fact);
        workload_holds(view, words, fact);
        assert(before.contains(fact) && !after.contains(fact));
        assert(after.subset_of(before.remove(fact)));
        vstd::set_lib::lemma_len_subset(after, before.remove(fact));
    }
}


/// What an activation holds.
pub struct ActivationView {
    /// The package that the walk started from.
    pub root: int,
    /// The activated packages.
    pub nodes: Set<int>,
    /// The activated edges.
    pub edges: Set<int>,
}

/// What a build of `root` under `selection` turns on, as packages and edges.
pub open spec fn activation_of(view: GraphView, root: int, selection: SelectionView) -> ActivationView {
    let facts = activated(view, root, selection);
    ActivationView {
        root,
        nodes: Set::new(|node: int| facts.contains(Fact::Node(node))),
        edges: Set::new(|edge: int| facts.contains(Fact::Edge(edge))),
    }
}

/// Whether everything that a walk from `root` under `selection` turns on can be decoded.
pub open spec fn is_decodable(view: GraphView, root: int, selection: SelectionView) -> bool {
    forall|node: int|
        activated(view, root, selection).contains(Fact::Node(node)) ==> #[trigger] decode_fault(
            view,
            node,
        ) is None
}

/// Whether `error` is why the first package that a walk from `root` under `selection` comes to and
/// that cannot be decoded, cannot be.
pub open spec fn is_decode_fault(view: GraphView, root: int, selection: SelectionView, error: ErrorView) -> bool {
    &&& exists|count: nat| tour::stops_at(view, root, selection, count, error)
    &&& exists|node: int|
        activated(view, root, selection).contains(Fact::Node(node)) && #[trigger] decode_fault(
            view,
            node,
        ) == Some(error)
}

/// What one package-rooted walk turned on: the activated nodes and the normal edges between
/// them.
///
/// Both sets are sized to the graph the walk ran on, and the root is always activated.
#[derive(Clone, Debug, PartialEq, Eq)]
pub struct Activation {
    root: u32,
    nodes: FixedBitSet,
    edges: FixedBitSet,
}

impl View for Activation {
    type V = ActivationView;

    closed spec fn view(&self) -> ActivationView {
        ActivationView {
            root: self.root as int,
            nodes: bits::ones(self.nodes),
            edges: bits::ones(self.edges),
        }
    }
}

impl Activation {
    /// Whether the sets are sized to `view`.
    pub closed spec fn fits(&self, view: GraphView) -> bool {
        &&& bits::capacity(self.nodes) == view.count()
        &&& bits::capacity(self.edges) == view.edges.len()
        &&& view.count() <= u32::MAX
        &&& forall|node: int| #[trigger] self@.nodes.contains(node) ==> 0 <= node < view.count()
        &&& forall|edge: int| #[trigger] self@.edges.contains(edge) ==> 0 <= edge < view.edges.len()
    }

    /// The node the walk started from.
    #[must_use]
    pub fn root(&self) -> (root: u32)
        ensures
            root == self@.root,
    {
        self.root
    }

    /// The activated nodes, as a bitset over node numbers.
    #[must_use]
    pub fn nodes(&self) -> (nodes: &FixedBitSet)
        ensures
            bits::ones(*nodes) == self@.nodes,
            forall|view: GraphView| #[trigger] self.fits(view) ==> bits::capacity(*nodes) == view.count(),
    {
        &self.nodes
    }

    /// The activated normal edges, as a bitset over edge numbers.
    #[must_use]
    pub fn edges(&self) -> (edges: &FixedBitSet)
        ensures
            bits::ones(*edges) == self@.edges,
            forall|view: GraphView| #[trigger] self.fits(view) ==> bits::capacity(*edges) == view.edges.len(),
    {
        &self.edges
    }

    /// Whether `node` is activated.
    #[must_use]
    pub fn contains_node(&self, node: u32) -> (found: bool)
        ensures
            forall|view: GraphView| #[trigger] self.fits(view) ==> found == self@.nodes.contains(node as int),
    {
        bits::contains(&self.nodes, node as usize)
    }

    /// Whether `edge` is activated.
    #[must_use]
    pub fn contains_edge(&self, edge: u32) -> (found: bool)
        ensures
            forall|view: GraphView| #[trigger] self.fits(view) ==> found == self@.edges.contains(edge as int),
    {
        bits::contains(&self.edges, edge as usize)
    }

    /// The number of activated nodes, the root included.
    #[must_use]
    pub fn node_count(&self) -> (count: u32)
        ensures
            forall|view: GraphView| #[trigger] self.fits(view) ==> count == self@.nodes.len(),
    {
        let count = bits::count_ones(&self.nodes);
        if count > 4294967295 {
            u32::MAX
        } else {
            count as u32
        }
    }
}

/// A reusable activation walk over one graph.
///
/// Build one per graph; a walk borrows the graph and the document it was built from.
pub struct Walk<'g, 'm> {
    graph: &'g Graph<'m>,
    progress: Progress,
}

impl<'g, 'm> Walk<'g, 'm> {
    /// The graph that the walk runs on.
    pub closed spec fn view_of_graph(&self) -> GraphView {
        self.graph@
    }

    /// Whether the walk can run.
    pub closed spec fn wf(&self) -> bool {
        self.graph.wf() && self.progress.fits(self.graph@)
    }

    /// Allocates walk state sized for `graph`.
    #[must_use]
    pub fn new(graph: &'g Graph<'m>) -> (walk: Walk<'g, 'm>)
        requires
            graph.wf(),
        ensures
            walk.wf(),
            walk.view_of_graph() == graph@,
    {
        Walk { graph, progress: Progress::new(graph) }
    }

    /// Runs one walk from `root` and returns what it turned on.
    ///
    /// # Errors
    ///
    /// [`Error::CargoMetadataUnparseable`] when the declarations or the features of a package
    /// that is turned on are malformed, for the first such package that the walk comes to.
    pub fn activate(&mut self, root: u32, selection: &Selection) -> (result: Result<Activation, Error>)
        requires
            old(self).wf(),
            root < old(self).view_of_graph().count(),
        ensures
            final(self).wf(),
            final(self).view_of_graph() == old(self).view_of_graph(),
            match result {
                Ok(activation) => {
                    &&& is_decodable(old(self).view_of_graph(), root as int, selection@)
                    &&& activation.fits(old(self).view_of_graph())
                    &&& activation@ == activation_of(
                        old(self).view_of_graph(),
                        root as int,
                        selection@,
                    )
                },
                Err(error) => is_decode_fault(
                    old(self).view_of_graph(),
                    root as int,
                    selection@,
                    error@,
                ),
            },
    {
        let graph = self.graph;
        self.progress.reset(graph);
        match self.progress.run(graph, root, selection) {
            Ok(_) => {},
            Err(error) => {
                self.progress = Progress::new(graph);
                return Err(error);
            },
        }
        let activation = Activation {
            root,
            nodes: self.progress.nodes.clone(),
            edges: self.progress.edges.clone(),
        };
        proof {
            graph.is_consistent();
            assert(activation@.nodes =~= activation_of(graph@, root as int, selection@).nodes);
            assert(activation@.edges =~= activation_of(graph@, root as int, selection@).edges);
            assert forall|node: int| #[trigger] activation@.nodes.contains(node) implies 0 <= node
                < graph@.count() by {
                assert(in_range(graph@, Fact::Node(node)));
            }
            assert forall|edge: int| #[trigger] activation@.edges.contains(edge) implies 0 <= edge
                < graph@.edges.len() by {
                assert(in_range(graph@, Fact::Edge(edge)));
            }
        }
        Ok(activation)
    }
}

/// Runs one package-rooted activation walk from `root`.
///
/// The result is the node and edge subset a build of `root` under `selection` would use,
/// restricted to what the document's unified resolve contains.
///
/// # Errors
///
/// [`Error::CargoMetadataUnparseable`] when the declarations or the features of a package that
/// is turned on are malformed, for the first such package that the walk comes to.
pub fn activate(graph: &Graph<'_>, root: u32, selection: &Selection) -> (result: Result<
    Activation,
    Error,
>)
    requires
        graph.wf(),
        root < graph@.count(),
    ensures
        match result {
            Ok(activation) => {
                &&& is_decodable(graph@, root as int, selection@)
                &&& activation.fits(graph@)
                &&& activation@ == activation_of(graph@, root as int, selection@)
            },
            Err(error) => is_decode_fault(graph@, root as int, selection@, error@),
        },
{
    let mut walk = Walk::new(graph);
    walk.activate(root, selection)
}


/// A workspace member the document was not resolved with all the features of.
#[derive(Clone, Debug, PartialEq, Eq)]
pub struct UnactivatedMember {
    /// The member's package name.
    pub package: String,
    /// How many of its declared features the resolve did not activate.
    pub unactivated: u32,
}

/// The features that the resolve activated on `node`; none when they cannot be decoded.
pub open spec fn resolved_features(view: GraphView, node: int) -> Seq<Seq<char>> {
    match view.nodes[node].features {
        Decoded::Value(features) => text::texts(features@),
        Decoded::Malformed(_) => Seq::empty(),
    }
}

/// How many of the first `upto` features of `node` the resolve did not activate.
pub open spec fn unactivated_features(view: GraphView, node: int, upto: int) -> nat
    decreases upto,
{
    if upto <= 0 {
        0
    } else {
        unactivated_features(view, node, upto - 1) + if resolved_features(view, node).contains(
            feature_table_of(view, node)[upto - 1].name@,
        ) {
            0nat
        } else {
            1nat
        }
    }
}

/// Why the features of `node`, declared or resolved, cannot be read.
pub open spec fn features_fault(view: GraphView, node: int) -> Option<ErrorView> {
    match view.meta.packages@[node].features {
        Decoded::Malformed(cause) => Some(
            ErrorView::CargoMetadataUnparseable { cause: cause@ },
        ),
        Decoded::Value(_) => match view.nodes[node].features {
            Decoded::Malformed(cause) => Some(
                ErrorView::CargoMetadataUnparseable { cause: cause@ },
            ),
            Decoded::Value(_) => None,
        },
    }
}

/// Whether the resolve activated every feature of `node`.
pub open spec fn fully_activated(view: GraphView, node: int) -> bool {
    &&& features_fault(view, node) is None
    &&& forall|i: int|
        0 <= i < feature_table_of(view, node).len() ==> resolved_features(view, node).contains(
            (#[trigger] feature_table_of(view, node)[i]).name@,
        )
}

/// Whether member `i` is the first that is not fully activated.
pub open spec fn first_lacking(view: GraphView, i: int) -> bool {
    &&& 0 <= i < view.members.len()
    &&& !fully_activated(view, view.members[i])
    &&& forall|j: int| 0 <= j < i ==> fully_activated(view, #[trigger] view.members[j])
}

/// The first of the first `upto` members that is not fully activated.
pub open spec fn lacking_member(view: GraphView, upto: int) -> Option<int>
    decreases upto,
{
    if upto <= 0 {
        None
    } else {
        match lacking_member(view, upto - 1) {
            Some(i) => Some(i),
            None => if fully_activated(view, view.members[upto - 1]) {
                None
            } else {
                Some(upto - 1)
            },
        }
    }
}

/// The first member that lacks a feature is found wherever it stands.
pub proof fn lacking_member_is_first(view: GraphView, i: int, upto: int)
    requires
        0 <= i < upto <= view.members.len(),
        forall|j: int| 0 <= j < i ==> fully_activated(view, #[trigger] view.members[j]),
    ensures
        !fully_activated(view, view.members[i]) ==> lacking_member(view, upto) == Some(i),
        fully_activated(view, view.members[i]) && upto == i + 1 ==> lacking_member(view, upto)
            is None,
    decreases upto,
{
    if i + 1 < upto {
        lacking_member_is_first(view, i, upto - 1);
    } else if i > 0 {
        lacking_member_is_first(view, i - 1, i);
        assert(fully_activated(view, view.members[i - 1]));
    }
}

/// Decodes the features that the resolve activated on `node`.
fn activated_features<'m>(graph: &Graph<'m>, node: u32) -> (features: Result<&'m Vec<String>, Error>)
    requires
        graph.wf(),
        node < graph@.count(),
    ensures
        match graph@.nodes[node as int].features {
            Decoded::Value(value) => features == Ok::<&Vec<String>, Error>(&value),
            Decoded::Malformed(cause) => features is Err && features->Err_0@
                == (ErrorView::CargoMetadataUnparseable { cause: cause@ }),
        },
{
    match &graph.resolve_node(node).features {
        Decoded::Value(features) => Ok(features),
        Decoded::Malformed(cause) => Err(
            Error::CargoMetadataUnparseable { cause: cause.as_str().to_owned() },
        ),
    }
}

proof fn unactivated_are_counted(view: GraphView, node: int, upto: int)
    requires
        0 <= upto <= feature_table_of(view, node).len(),
    ensures
        unactivated_features(view, node, upto) <= upto,
        unactivated_features(view, node, upto) == 0 <==> forall|i: int|
            0 <= i < upto ==> resolved_features(view, node).contains(
                (#[trigger] feature_table_of(view, node)[i]).name@,
            ),
    decreases upto,
{
    if upto > 0 {
        unactivated_are_counted(view, node, upto - 1);
        assert(feature_table_of(view, node)[upto - 1].name@
            == feature_table_of(view, node)[upto - 1].name@);
    }
}

/// The first workspace member whose declared features the resolve did not fully activate.
///
/// This is the guard a feature-aware rule needs before it may narrow a closure: it finds nothing
/// exactly when every member carries all of its features, which is the premise that makes an
/// activation a subset of the resolve rather than a different graph. Members are checked in
/// `workspace_members` order, so the answer is stable for a given document.
///
/// # Errors
///
/// [`Error::CargoMetadataUnparseable`] when the features of a member, or those of its resolve
/// node, are malformed.
pub fn first_unactivated_member(graph: &Graph<'_>) -> (result: Result<
    Option<UnactivatedMember>,
    Error,
>)
    requires
        graph.wf(),
    ensures
        match result {
            Ok(None) => forall|i: int|
                0 <= i < graph@.members.len() ==> fully_activated(
                    graph@,
                    #[trigger] graph@.members[i],
                ),
            Ok(Some(member)) => exists|i: int|
                first_lacking(graph@, i) && {
                    let node = graph@.members[i];
                    &&& features_fault(graph@, node) is None
                    &&& member.package@ == graph@.name(node)
                    &&& member.unactivated == saturated(
                        unactivated_features(
                            graph@,
                            node,
                            feature_table_of(graph@, node).len() as int,
                        ),
                    )
                },
            Err(error) => exists|i: int|
                first_lacking(graph@, i) && #[trigger] features_fault(graph@, graph@.members[i])
                    == Some(error@),
        },
{
    let members = graph.members();
    proof {
        graph.is_consistent();
    }
    let mut at: usize = 0;
    while at < members.len()
        invariant
            graph.wf(),
            graph@.consistent(),
            at <= members@.len(),
            lists(members@, graph@.members),
            forall|j: int| 0 <= j < at ==> fully_activated(graph@, #[trigger] graph@.members[j]),
        decreases members@.len() - at,
    {
        let member = members[at];
        let ghost node = graph@.members[at as int];
        assert(member == node);
        let declared = match feature_table(graph, member) {
            Ok(declared) => declared,
            Err(error) => {
                assert(first_lacking(graph@, at as int));
                assert(features_fault(graph@, graph@.members[at as int]) == Some(error@));
                return Err(error);
            },
        };
        let active = match activated_features(graph, member) {
            Ok(active) => active,
            Err(error) => {
                assert(first_lacking(graph@, at as int));
                assert(features_fault(graph@, graph@.members[at as int]) == Some(error@));
                return Err(error);
            },
        };
        let mut unactivated: usize = 0;
        let mut next: usize = 0;
        while next < declared.len()
            invariant
                next <= declared@.len(),
                declared@ == feature_table_of(graph@, node),
                text::texts(active@) == resolved_features(graph@, node),
                unactivated == unactivated_features(graph@, node, next as int),
                unactivated <= next,
            decreases declared@.len() - next,
        {
            if !text::contains(active, declared[next].name.as_str()) {
                unactivated = unactivated + 1;
            }
            next = next + 1;
        }
        proof {
            unactivated_are_counted(graph@, node, declared@.len() as int);
        }
        if unactivated > 0 {
            let lacking: u32 = if unactivated > 4294967295 {
                u32::MAX
            } else {
                unactivated as u32
            };
            assert(first_lacking(graph@, at as int));
            return Ok(
                Some(
                    UnactivatedMember {
                        package: graph.name(member).to_owned(),
                        unactivated: lacking,
                    },
                ),
            );
        }
        at = at + 1;
    }
    Ok(None)
}

/// Whether `requested[i]` is the first that the table of `node` does not define.
pub open spec fn first_undefined(view: GraphView, node: int, requested: Seq<String>, i: int) -> bool {
    &&& 0 <= i < requested.len()
    &&& !defines(feature_table_of(view, node), requested[i]@)
    &&& forall|j: int|
        0 <= j < i ==> defines(feature_table_of(view, node), (#[trigger] requested[j])@)
}

/// The first entry of `requested` that `node`'s own `[features]` table does not define.
///
/// A selection may name an optional dependency, because Cargo puts that dependency's implicit
/// feature into the table; anything else names a feature the root cannot enable, which would
/// activate nothing and narrow the closure for a reason the policy did not intend.
///
/// # Errors
///
/// [`Error::CargoMetadataUnparseable`] when the features of the package are malformed.
pub fn first_undeclared_feature<'r>(graph: &Graph<'_>, node: u32, requested: &'r Vec<String>) -> (result:
    Result<Option<&'r str>, Error>)
    requires
        graph.wf(),
        node < graph@.count(),
    ensures
        match result {
            Ok(None) => graph@.meta.packages@[node as int].features is Value && forall|j: int|
                0 <= j < requested@.len() ==> defines(
                    feature_table_of(graph@, node as int),
                    (#[trigger] requested@[j])@,
                ),
            Ok(Some(feature)) => graph@.meta.packages@[node as int].features is Value && exists|
                i: int,
            |
                first_undefined(graph@, node as int, requested@, i) && feature@ == requested@[i]@,
            Err(error) => graph@.meta.packages@[node as int].features is Malformed && error@
                == (ErrorView::CargoMetadataUnparseable {
                cause: graph@.meta.packages@[node as int].features->Malformed_0@,
            }),
        },
{
    let table = match feature_table(graph, node) {
        Ok(table) => table,
        Err(error) => return Err(error),
    };
    let mut at: usize = 0;
    while at < requested.len()
        invariant
            at <= requested@.len(),
            graph@.meta.packages@[node as int].features is Value,
            table@ == feature_table_of(graph@, node as int),
            forall|j: int| 0 <= j < at ==> defines(table@, (#[trigger] requested@[j])@),
        decreases requested@.len() - at,
    {
        if !is_defined(table, requested[at].as_str()) {
            assert(first_undefined(graph@, node as int, requested@, at as int));
            return Ok(Some(requested[at].as_str()));
        }
        at = at + 1;
    }
    Ok(None)
}


/// The selection the way a policy spells it.
pub open spec fn selection_text(selection: SelectionView) -> Seq<char> {
    match selection {
        SelectionView::Nothing => "\"none\""@,
        SelectionView::Default => "\"default\""@,
        SelectionView::All => "\"all\""@,
        SelectionView::List(features) => "["@ + text::joined(quoted_all(features), ", "@) + "]"@,
    }
}

/// Each of `features` in double quotes.
pub open spec fn quoted_all(features: Seq<Seq<char>>) -> Seq<Seq<char>> {
    Seq::new(features.len(), |i: int| text::quoted(features[i]))
}

impl Selection {
    /// A copy of the selection.
    pub(crate) fn copied(&self) -> (selection: Selection)
        ensures
            selection@ == self@,
    {
        match self {
            Selection::Nothing => Selection::Nothing,
            Selection::Default => Selection::Default,
            Selection::All => Selection::All,
            Selection::List(features) => Selection::List(text::copy_all(features)),
        }
    }

    /// Writes the selection the way a policy spells it, so a report can echo the key back.
    #[must_use]
    pub fn describe(&self) -> (written: String)
        ensures
            written@ == selection_text(self@),
    {
        match self {
            Selection::Nothing => "\"none\"".to_owned(),
            Selection::Default => "\"default\"".to_owned(),
            Selection::All => "\"all\"".to_owned(),
            Selection::List(features) => {
                let mut quotes: Vec<String> = Vec::new();
                let mut at: usize = 0;
                while at < features.len()
                    invariant
                        at <= features@.len(),
                        quotes@.len() == at,
                        forall|i: int|
                            0 <= i < at ==> (#[trigger] quotes@[i])@ == text::quoted(features@[i]@),
                    decreases features@.len() - at,
                {
                    quotes.push(text::quote(features[at].as_str()));
                    at = at + 1;
                }
                assert(text::texts(quotes@) =~= quoted_all(text::texts(features@)));
                let mut written = "[".to_owned();
                let inside = text::join(&quotes, ", ");
                written.push_str(inside.as_str());
                written.push_str("]");
                written
            },
        }
    }
}

/// A walk that starts with more features turns on no less: activation grows with the selection.
pub proof fn activation_grows_with_the_selection(
    view: GraphView,
    root: int,
    narrow: SelectionView,
    wide: SelectionView,
)
    requires
        forall|feature: Seq<char>| #[trigger]
            seeded(view, root, narrow, feature) ==> seeded(view, root, wide, feature),
    ensures
        activated(view, root, narrow).subset_of(activated(view, root, wide)),
        activation_of(view, root, narrow).nodes.subset_of(activation_of(view, root, wide).nodes),
        activation_of(view, root, narrow).edges.subset_of(activation_of(view, root, wide).edges),
{
    activation_is_closed(view, root, wide);
    let facts = activated(view, root, wide);
    assert forall|feature: Seq<char>|
        #![trigger facts.contains(Fact::Feature(root, feature))]
        seeded(view, root, narrow, feature) implies facts.contains(Fact::Feature(root, feature)) by {
        assert(seeded(view, root, wide, feature));
    }
    activation_is_least(view, root, narrow, facts);
}

/// What `default` activates lies within what `all` activates, though a package need not have a
/// feature of that name.
pub proof fn default_activates_no_more_than_all(view: GraphView, root: int)
    ensures
        activation_of(view, root, SelectionView::Default).nodes.subset_of(
            activation_of(view, root, SelectionView::All).nodes,
        ),
        activation_of(view, root, SelectionView::Default).edges.subset_of(
            activation_of(view, root, SelectionView::All).edges,
        ),
{
    let all = activated(view, root, SelectionView::All);
    let feature = Fact::Feature(root, "default"@);
    let dependency = Fact::Dependency(root, "default"@);
    activation_is_closed(view, root, SelectionView::All);
    if seeded(view, root, SelectionView::All, "default"@) {
        activation_grows_with_the_selection(
            view,
            root,
            SelectionView::Default,
            SelectionView::All,
        );
    } else {
        let suppressed = suppresses(feature_table_of(view, root), "default"@);
        let facts = if suppressed {
            all.insert(feature)
        } else {
            all.insert(feature).insert(dependency)
        };
        assert forall|fact: Fact| #[trigger] facts.contains(fact) implies done(view, fact, facts) by {
            if all.contains(fact) {
                done_stays(view, fact, all, facts);
            } else if fact == dependency {
                assert forall|i: int, edge: int|
                    !(#[trigger] links(view, root, "default"@, i, edge)) by {
                    if links(view, root, "default"@, i, edge) {
                        assert(declares(view, root, i, "default"@));
                        assert(node_done(view, root, all)) by {
                            assert(done(view, Fact::Node(root), all));
                        }
                    }
                }
                assert(dependency_done(view, root, "default"@, facts));
            } else {
                assert(fact == feature);
                assert(feature_done(view, root, "default"@, facts));
            }
        }
        assert(closed(view, root, SelectionView::Default, facts));
        activation_is_least(view, root, SelectionView::Default, facts);
    }
}

/// The root is always activated.
pub proof fn the_root_is_activated(view: GraphView, root: int, selection: SelectionView)
    ensures
        activation_of(view, root, selection).nodes.contains(root),
{
    activation_is_closed(view, root, selection);
}

/// Whether the package that `fact` is about is reached from `root` over activated edges, and is
/// activated, as the end of an edge is.
spec fn is_reached(view: GraphView, root: int, selection: SelectionView, fact: Fact) -> bool {
    let facts = activated(view, root, selection);
    let steps = view.steps(activation_of(view, root, selection).edges);
    &&& facts.contains(fact)
    &&& facts.contains(home(fact))
    &&& match fact {
        Fact::Edge(edge) => {
            &&& 0 <= edge < view.edges.len()
            &&& facts.contains(Fact::Node(view.edges[edge].from))
            &&& facts.contains(Fact::Node(view.edges[edge].to))
        },
        Fact::Node(node) => steps.reaches(root, node),
        Fact::Dependency(node, _) => steps.reaches(root, node),
        Fact::Feature(node, _) => steps.reaches(root, node),
        Fact::Request(node, _, _) => steps.reaches(root, node),
    }
}

/// A path goes on over one more edge.
proof fn reached_by_one_more(steps: Steps, root: int, edge: int, from: int, to: int)
    requires
        steps.reaches(root, from),
        steps.step(edge, from, to),
    ensures
        steps.reaches(root, to),
{
    let path = choose|path: Seq<int>| steps.leads(path, root, from);
    let longer = path.push(to);
    assert forall|i: int| #![trigger longer[i]] 0 <= i < longer.len() - 1 implies steps.linked(
        longer[i],
        longer[i + 1],
    ) by {
        if i < path.len() - 1 {
            assert(path[i] == longer[i]);
            assert(steps.linked(path[i], path[i + 1]));
        }
    }
    assert(steps.leads(longer, root, to));
}

proof fn everything_is_reached(view: GraphView, root: int, selection: SelectionView)
    ensures
        forall|fact: Fact| #[trigger]
            activated(view, root, selection).contains(fact) ==> is_reached(
                view,
                root,
                selection,
                fact,
            ),
{
    let facts = activated(view, root, selection);
    let steps = view.steps(activation_of(view, root, selection).edges);
    let found = Set::new(|fact: Fact| is_reached(view, root, selection, fact));
    activation_is_closed(view, root, selection);
    assert(found.contains(Fact::Node(root))) by {
        let path = seq![root];
        assert(steps.leads(path, root, root));
    }
    assert forall|fact: Fact| #[trigger] found.contains(fact) implies done(view, fact, found) by {
        assert(done(view, fact, facts));
        match fact {
            Fact::Node(node) => {
                assert(node_done(view, node, found));
            },
            Fact::Dependency(node, name) => {
                assert forall|i: int, edge: int| #[trigger] links(view, node, name, i, edge) implies
                    link_done(view, declarations(view, node)[i], edge, found) by {
                    assert(link_done(view, declarations(view, node)[i], edge, facts));
                    assert(steps.step(edge, node, view.edges[edge].to));
                    reached_by_one_more(steps, root, edge, node, view.edges[edge].to);
                }
                assert forall|feature: Seq<char>|
                    #[trigger] found.contains(Fact::Request(node, name, feature)) implies
                    request_done(view, node, name, feature, found) by {
                    assert(facts.contains(Fact::Request(node, name, feature)));
                    assert(request_done(view, node, name, feature, facts));
                    assert forall|edge: int| #[trigger] resolves(view, node, name, edge) implies
                        found.contains(Fact::Feature(view.edges[edge].to, feature)) by {
                        let i = choose|i: int| links(view, node, name, i, edge);
                        assert(links(view, node, name, i, edge));
                        assert(link_done(view, declarations(view, node)[i], edge, facts));
                        assert(steps.step(edge, node, view.edges[edge].to));
                        reached_by_one_more(steps, root, edge, node, view.edges[edge].to);
                        assert(facts.contains(Fact::Feature(view.edges[edge].to, feature)));
                    }
                }
            },
            Fact::Feature(node, feature) => {
                let table = feature_table_of(view, node);
                assert forall|i: int, j: int|
                    #![trigger table[i].entries@[j]]
                    0 <= i < table.len() && table[i].name@ == feature && 0 <= j
                        < table[i].entries@.len() implies entry_done(
                    node,
                    entry_of(table[i].entries@[j]@),
                    found,
                ) by {
                    assert(entry_done(node, entry_of(table[i].entries@[j]@), facts));
                }
            },
            _ => {},
        }
    }
    assert(closed(view, root, selection, found));
    activation_is_least(view, root, selection, found);
}

/// An activated edge joins two activated packages.
pub proof fn activated_edges_join_activated_nodes(
    view: GraphView,
    root: int,
    selection: SelectionView,
    edge: int,
)
    requires
        activation_of(view, root, selection).edges.contains(edge),
    ensures
        0 <= edge < view.edges.len(),
        activation_of(view, root, selection).nodes.contains(view.edges[edge].from),
        activation_of(view, root, selection).nodes.contains(view.edges[edge].to),
{
    everything_is_reached(view, root, selection);
    assert(is_reached(view, root, selection, Fact::Edge(edge)));
}

/// The activated packages are exactly those that a traversal over the activated edges reaches
/// from the root.
pub proof fn activated_nodes_are_reached(
    view: GraphView,
    root: int,
    selection: SelectionView,
    node: int,
)
    ensures
        activation_of(view, root, selection).nodes.contains(node) == view.steps(
            activation_of(view, root, selection).edges,
        ).reaches(root, node),
{
    let activation = activation_of(view, root, selection);
    let steps = view.steps(activation.edges);
    everything_is_reached(view, root, selection);
    the_root_is_activated(view, root, selection);
    if activation.nodes.contains(node) {
        assert(is_reached(view, root, selection, Fact::Node(node)));
    }
    if steps.reaches(root, node) {
        let path = choose|path: Seq<int>| steps.leads(path, root, node);
        path_is_activated(view, root, selection, path, path.len() - 1);
    }
}

proof fn path_is_activated(
    view: GraphView,
    root: int,
    selection: SelectionView,
    path: Seq<int>,
    upto: int,
)
    requires
        view.steps(activation_of(view, root, selection).edges).is_path(path),
        path[0] == root,
        0 <= upto < path.len(),
    ensures
        activation_of(view, root, selection).nodes.contains(path[upto]),
    decreases upto,
{
    let steps = view.steps(activation_of(view, root, selection).edges);
    if upto == 0 {
        the_root_is_activated(view, root, selection);
    } else {
        path_is_activated(view, root, selection, path, upto - 1);
        assert(steps.linked(path[upto - 1], path[upto - 1 + 1]));
        let (from, to) = (path[upto - 1], path[upto]);
        let edge = choose|edge: int| steps.step(edge, from, to);
        activated_edges_join_activated_nodes(view, root, selection, edge);
    }
}

/// What a selection turns on lies within the closure of the whole graph: an activation narrows a
/// closure and never widens it.
pub proof fn activation_stays_within_the_closure(
    view: GraphView,
    root: int,
    selection: SelectionView,
    node: int,
)
    requires
        activation_of(view, root, selection).nodes.contains(node),
    ensures
        view.forward().reaches(root, node),
{
    let live = activation_of(view, root, selection).edges;
    activated_nodes_are_reached(view, root, selection, node);
    paths::more_steps_reach_no_less(view.steps(live), view.forward(), root, node);
}

} // verus!
