//! The normal-dependency graph: interning, compressed adjacency, and breadth-first search
//! with witnesses.
//!
//! Node ids are `packages[]` positions; name ids are dense and assigned in first-seen order.
//! Rules compare in name-id space, witnesses are node paths. The edges are numbered in node
//! order, and the edges out of one node by their order in the document; `forward.offsets[u]
//! .. forward.offsets[u + 1]` are the numbers of the edges out of node `u`.
//!
//! [`GraphView`] is the graph as a mathematical value, and [`graph_of`] says which graph a
//! document describes.

use crate::bits;
use crate::buckets::{self, bucket, grouped};
use crate::clock;
use crate::error::{Error, ErrorView};
use crate::index::{self, Index};
use crate::metadata::{resolve_is_null, resolve_of, Decoded, Dep, Meta, Node, Pkg, Resolve};
use crate::paths::{
    self, breadth_first, extended, order_is_short, position, scanned, search_ends, search_finds,
    search_moves_on, search_skips, searching, trail_path, Steps, Trail,
};
use crate::text::{self, decimal};
use crate::timings::Counters;
use fixedbitset::FixedBitSet;
use vstd::cell::invcell::InvCell;
use vstd::predicate::Predicate;
use vstd::prelude::*;
use vstd::slice::slice_subrange;

verus! {

/// One decoded `dep_kinds` entry.
#[derive(Clone, Debug, Default, PartialEq, Eq)]
pub struct KindEntry {
    /// `None` for a normal dependency; `"build"` or `"dev"` otherwise.
    pub kind: Option<String>,
    /// The `cfg(...)` or target triple the entry is conditional on.
    pub target: Option<String>,
}

impl KindEntry {
    /// Whether this entry is a normal (non-build, non-dev) dependency.
    #[must_use]
    pub fn is_normal(&self) -> (normal: bool)
        ensures
            normal == (self.kind is None),
    {
        self.kind.is_none()
    }
}

/// One declared `packages[].dependencies[]` entry.
#[derive(Clone, Debug, PartialEq, Eq)]
pub struct DeclaredDep {
    /// The dependency's package name (never the rename).
    pub name: String,
    /// `None` for a normal dependency; `"build"` or `"dev"` otherwise.
    pub kind: Option<String>,
    /// `optional = true`.
    pub optional: bool,
    /// The alias the package is used under, when renamed.
    pub rename: Option<String>,
    /// The `cfg(...)` or target triple the declaration is conditional on.
    pub target: Option<String>,
    /// The features this declaration requests on the dependency.
    pub features: Vec<String>,
    /// Whether the dependency's `default` feature is requested.
    pub uses_default_features: bool,
}

impl DeclaredDep {
    /// The name the dependency is used under.
    pub open spec fn used_as(self) -> Seq<char> {
        match self.rename {
            Some(rename) => rename@,
            None => self.name@,
        }
    }

    /// Whether this declaration is in a `[dependencies]` (or `target.*.dependencies`) table.
    #[must_use]
    pub fn is_normal(&self) -> (normal: bool)
        ensures
            normal == (self.kind is None),
    {
        self.kind.is_none()
    }

    /// The name the dependency is used under: the rename when it has one, else the
    /// package name.
    ///
    /// Feature syntax addresses a dependency by this name (`serde1/derive` refers to the
    /// rename). The resolve edge is found by [`DeclaredDep::name`] and told apart from the
    /// other edges of that package by [`Graph::edge_extern_name`].
    #[must_use]
    pub fn extern_name(&self) -> (name: &str)
        ensures
            name@ == self.used_as(),
    {
        match &self.rename {
            Some(rename) => rename.as_str(),
            None => self.name.as_str(),
        }
    }
}

/// What an edge's `dep_kinds` come to: how many entries there are, how many of them are
/// normal, and how many of those are conditional on a target.
#[derive(Clone, Copy, Debug, Default, PartialEq, Eq)]
pub struct KindFold {
    /// Number of `dep_kinds` entries.
    pub entries: usize,
    /// Number of entries with `kind == null`.
    pub normal: usize,
    /// Number of normal entries with a non-null `target`.
    pub normal_targeted: usize,
}

impl KindFold {
    /// Whether any entry is normal (`kind == null`) — the edge belongs to the graph.
    #[must_use]
    pub fn has_normal(&self) -> (has: bool)
        ensures
            has == (self.normal > 0),
    {
        self.normal > 0
    }

    /// Whether every normal entry is platform-conditional.
    #[must_use]
    pub fn all_normal_targeted(&self) -> (all: bool)
        ensures
            all == (self.normal > 0 && self.normal == self.normal_targeted),
    {
        self.normal > 0 && self.normal == self.normal_targeted
    }
}

/// The number of normal entries among the first `upto` of `kinds`.
pub open spec fn normal_entries(kinds: Seq<KindEntry>, upto: int) -> nat
    decreases upto,
{
    if upto <= 0 {
        0
    } else {
        normal_entries(kinds, upto - 1) + (if kinds[upto - 1].kind is None {
            1nat
        } else {
            0nat
        })
    }
}

/// The number of normal entries with a target among the first `upto` of `kinds`.
pub open spec fn targeted_entries(kinds: Seq<KindEntry>, upto: int) -> nat
    decreases upto,
{
    if upto <= 0 {
        0
    } else {
        targeted_entries(kinds, upto - 1) + (if kinds[upto - 1].kind is None
            && kinds[upto - 1].target is Some {
            1nat
        } else {
            0nat
        })
    }
}

/// Whether some entry of `kinds` is normal.
pub open spec fn any_normal(kinds: Seq<KindEntry>) -> bool {
    exists|i: int| 0 <= i < kinds.len() && (#[trigger] kinds[i]).kind is None
}

/// Whether every normal entry of `kinds` has a target.
pub open spec fn normal_are_targeted(kinds: Seq<KindEntry>) -> bool {
    forall|i: int|
        0 <= i < kinds.len() && (#[trigger] kinds[i]).kind is None ==> kinds[i].target is Some
}

proof fn counts_are_bounded(kinds: Seq<KindEntry>, upto: int)
    requires
        0 <= upto <= kinds.len(),
    ensures
        targeted_entries(kinds, upto) <= normal_entries(kinds, upto) <= upto,
    decreases upto,
{
    if upto > 0 {
        counts_are_bounded(kinds, upto - 1);
    }
}

/// The counts of a fold say whether some entry is normal and whether all normal ones have a
/// target.
proof fn counts_say(kinds: Seq<KindEntry>, upto: int)
    requires
        0 <= upto <= kinds.len(),
    ensures
        normal_entries(kinds, upto) > 0 <==> exists|i: int|
            0 <= i < upto && (#[trigger] kinds[i]).kind is None,
        normal_entries(kinds, upto) == targeted_entries(kinds, upto) <==> forall|i: int|
            0 <= i < upto && (#[trigger] kinds[i]).kind is None ==> kinds[i].target is Some,
    decreases upto,
{
    if upto > 0 {
        counts_say(kinds, upto - 1);
        counts_are_bounded(kinds, upto - 1);
        let last = kinds[upto - 1];
    }
}

/// Counts the entries of `dep.dep_kinds`. An absent array folds to zero entries.
///
/// # Errors
///
/// Returns [`Error::CargoMetadataUnparseable`] when `dep_kinds` is not an array of entries.
pub fn fold_dep_kinds(dep: &Dep) -> (fold: Result<KindFold, Error>)
    ensures
        match dep.dep_kinds {
            None => fold == Ok::<KindFold, Error>(
                KindFold { entries: 0, normal: 0, normal_targeted: 0 },
            ),
            Some(Decoded::Malformed(cause)) => fold is Err && fold->Err_0@
                == (ErrorView::CargoMetadataUnparseable { cause: cause@ }),
            Some(Decoded::Value(kinds)) => {
                &&& fold is Ok
                &&& fold->Ok_0.entries == kinds@.len()
                &&& fold->Ok_0.normal == normal_entries(kinds@, kinds@.len() as int)
                &&& fold->Ok_0.normal_targeted == targeted_entries(kinds@, kinds@.len() as int)
                &&& (fold->Ok_0.normal > 0) == any_normal(kinds@)
                &&& (fold->Ok_0.normal == fold->Ok_0.normal_targeted) == normal_are_targeted(kinds@)
            },
        },
{
    match &dep.dep_kinds {
        None => Ok(KindFold { entries: 0, normal: 0, normal_targeted: 0 }),
        Some(Decoded::Malformed(cause)) => Err(
            Error::CargoMetadataUnparseable { cause: cause.as_str().to_owned() },
        ),
        Some(Decoded::Value(kinds)) => {
            let mut fold = KindFold { entries: 0, normal: 0, normal_targeted: 0 };
            let mut at: usize = 0;
            while at < kinds.len()
                invariant
                    at <= kinds@.len(),
                    fold.entries == at,
                    fold.normal == normal_entries(kinds@, at as int),
                    fold.normal_targeted == targeted_entries(kinds@, at as int),
                decreases kinds@.len() - at,
            {
                proof {
                    counts_are_bounded(kinds@, at as int);
                }
                fold.entries = fold.entries + 1;
                if kinds[at].is_normal() {
                    fold.normal = fold.normal + 1;
                    if kinds[at].target.is_some() {
                        fold.normal_targeted = fold.normal_targeted + 1;
                    }
                }
                at = at + 1;
            }
            proof {
                counts_say(kinds@, at as int);
            }
            Ok(fold)
        },
    }
}

/// Whether the edge `dep` belongs to the graph.
pub open spec fn is_normal_edge(dep: Dep) -> bool {
    dep.dep_kinds matches Some(Decoded::Value(kinds)) && any_normal(kinds@)
}

/// Whether every normal `dep_kinds` entry of `dep` is platform-conditional.
pub open spec fn is_cfg_only(dep: Dep) -> bool {
    dep.dep_kinds matches Some(Decoded::Value(kinds)) && any_normal(kinds@) && normal_are_targeted(
        kinds@,
    )
}

/// One normal edge: the nodes it joins, and its entry in the document.
pub struct Edge {
    /// The node the edge leaves.
    pub from: int,
    /// The node the edge points to.
    pub to: int,
    /// The edge's `resolve.nodes[].deps[]` entry.
    pub dep: Dep,
}

/// A dependency graph as a mathematical value.
#[verifier::ext_equal]
pub struct GraphView {
    /// The document the graph was built from.
    pub meta: Meta,
    /// The normal edges, by edge number.
    pub edges: Seq<Edge>,
    /// The distinct package names, by name id.
    pub names: Seq<Seq<char>>,
    /// The name id of every node.
    pub name_of: Seq<int>,
    /// The workspace members.
    pub members: Seq<int>,
    /// The `resolve.nodes[]` entry of every node.
    pub nodes: Seq<Node>,
}

/// Whether the package at `i` has id `id`.
pub open spec fn has_id(packages: Seq<Pkg>, i: int, id: Seq<char>) -> bool {
    0 <= i < packages.len() && packages[i].id@ == id
}

/// Whether one of the first `upto` packages has id `id`.
pub open spec fn occurs_below(packages: Seq<Pkg>, id: Seq<char>, upto: int) -> bool {
    exists|j: int| j < upto && #[trigger] has_id(packages, j, id)
}

/// The node of the package with id `id`.
pub open spec fn node_with(packages: Seq<Pkg>, id: Seq<char>) -> Option<int> {
    if exists|i: int| has_id(packages, i, id) {
        Some(choose|i: int| has_id(packages, i, id))
    } else {
        None
    }
}

/// The resolve entry for the package at `u`.
pub open spec fn resolve_entry(nodes: Seq<Node>, packages: Seq<Pkg>, u: int) -> int {
    choose|r: int| 0 <= r < nodes.len() && (#[trigger] nodes[r]).id@ == packages[u].id@
}

/// The normal edges among the first `upto` edges of the resolve node `node`, which is the one
/// of package `from`.
pub open spec fn edges_of(packages: Seq<Pkg>, from: int, node: Node, upto: int) -> Seq<Edge>
    decreases upto,
{
    if upto <= 0 {
        Seq::empty()
    } else {
        let before = edges_of(packages, from, node, upto - 1);
        let dep = node.deps@[upto - 1];
        if is_normal_edge(dep) {
            before.push(Edge { from, to: node_with(packages, dep.pkg@)->0, dep })
        } else {
            before
        }
    }
}

/// The normal edges out of the packages below `upto`.
pub open spec fn edges_below(packages: Seq<Pkg>, nodes: Seq<Node>, upto: int) -> Seq<Edge>
    decreases upto,
{
    if upto <= 0 {
        Seq::empty()
    } else {
        let node = nodes[resolve_entry(nodes, packages, upto - 1)];
        edges_below(packages, nodes, upto - 1) + edges_of(
            packages,
            upto - 1,
            node,
            node.deps@.len() as int,
        )
    }
}

/// The distinct names of the first `upto` packages, in first-seen order.
pub open spec fn names_below(packages: Seq<Pkg>, upto: int) -> Seq<Seq<char>>
    decreases upto,
{
    if upto <= 0 {
        Seq::empty()
    } else {
        let before = names_below(packages, upto - 1);
        if before.contains(packages[upto - 1].name@) {
            before
        } else {
            before.push(packages[upto - 1].name@)
        }
    }
}

/// The nodes of the first `upto` members, each once, in order.
pub open spec fn members_below(packages: Seq<Pkg>, ids: Seq<String>, upto: int) -> Seq<int>
    decreases upto,
{
    if upto <= 0 {
        Seq::empty()
    } else {
        let before = members_below(packages, ids, upto - 1);
        let node = node_with(packages, ids[upto - 1]@)->0;
        if before.contains(node) {
            before
        } else {
            before.push(node)
        }
    }
}

/// The graph that a document without faults describes.
pub open spec fn graph_of(meta: Meta) -> GraphView {
    let packages = meta.packages@;
    let nodes = meta.resolve->0.nodes@;
    let names = names_below(packages, packages.len() as int);
    GraphView {
        meta,
        edges: edges_below(packages, nodes, packages.len() as int),
        names,
        name_of: Seq::new(packages.len(), |u: int| names.index_of(packages[u].name@)),
        members: members_below(
            packages,
            meta.workspace_members@,
            meta.workspace_members@.len() as int,
        ),
        nodes: Seq::new(packages.len(), |u: int| nodes[resolve_entry(nodes, packages, u)]),
    }
}

/// `message` as the error of a document that breaks a rule.
pub open spec fn invalid_metadata(message: Seq<char>) -> Option<ErrorView> {
    Some(ErrorView::MetadataInvalid { message })
}

/// The first of the first `upto` package ids that occurs twice.
pub open spec fn id_fault(packages: Seq<Pkg>, upto: int) -> Option<ErrorView>
    decreases upto,
{
    if upto <= 0 {
        None
    } else if id_fault(packages, upto - 1) is Some {
        id_fault(packages, upto - 1)
    } else if occurs_below(packages, packages[upto - 1].id@, upto - 1) {
        invalid_metadata("duplicate package id `"@ + packages[upto - 1].id@ + "`"@)
    } else {
        None
    }
}

/// The first of the first `upto` resolve nodes that has no package, or whose package already
/// has a node.
pub open spec fn node_fault(packages: Seq<Pkg>, nodes: Seq<Node>, upto: int) -> Option<ErrorView>
    decreases upto,
{
    if upto <= 0 {
        None
    } else if node_fault(packages, nodes, upto - 1) is Some {
        node_fault(packages, nodes, upto - 1)
    } else if node_with(packages, nodes[upto - 1].id@) is None {
        invalid_metadata("resolve node `"@ + nodes[upto - 1].id@ + "` has no `packages` entry"@)
    } else if exists|j: int| 0 <= j < upto - 1 && (#[trigger] nodes[j]).id@ == nodes[upto - 1].id@ {
        invalid_metadata("`resolve.nodes` lists `"@ + nodes[upto - 1].id@ + "` twice"@)
    } else {
        None
    }
}

/// The first of the first `upto` workspace members that is no package.
pub open spec fn member_fault(packages: Seq<Pkg>, ids: Seq<String>, upto: int) -> Option<ErrorView>
    decreases upto,
{
    if upto <= 0 {
        None
    } else if member_fault(packages, ids, upto - 1) is Some {
        member_fault(packages, ids, upto - 1)
    } else if node_with(packages, ids[upto - 1]@) is None {
        invalid_metadata("workspace member `"@ + ids[upto - 1]@ + "` is not in `packages`"@)
    } else {
        None
    }
}

/// What is wrong with the edge `dep` of the resolve node `id`.
pub open spec fn edge_fault(packages: Seq<Pkg>, id: Seq<char>, dep: Dep) -> Option<ErrorView> {
    let no_kinds = invalid_metadata(
        "edge `"@ + id + "` -> `"@ + dep.pkg@
            + "` has no `dep_kinds`; cargo 1.41 or newer is required"@,
    );
    if node_with(packages, dep.pkg@) is None {
        invalid_metadata(
            "edge `"@ + id + "` -> `"@ + dep.pkg@
                + "` points to a package that is not in `packages`"@,
        )
    } else {
        match dep.dep_kinds {
            None => no_kinds,
            Some(Decoded::Malformed(cause)) => Some(
                ErrorView::CargoMetadataUnparseable { cause: cause@ },
            ),
            Some(Decoded::Value(kinds)) => if kinds@.len() == 0 {
                no_kinds
            } else {
                None
            },
        }
    }
}

/// The first fault among the first `upto` edges of `node`.
pub open spec fn edges_fault(packages: Seq<Pkg>, node: Node, upto: int) -> Option<ErrorView>
    decreases upto,
{
    if upto <= 0 {
        None
    } else if edges_fault(packages, node, upto - 1) is Some {
        edges_fault(packages, node, upto - 1)
    } else {
        edge_fault(packages, node.id@, node.deps@[upto - 1])
    }
}

/// The first fault among the edges of the packages below `upto`.
pub open spec fn graph_fault(packages: Seq<Pkg>, nodes: Seq<Node>, upto: int) -> Option<ErrorView>
    decreases upto,
{
    if upto <= 0 {
        None
    } else if graph_fault(packages, nodes, upto - 1) is Some {
        graph_fault(packages, nodes, upto - 1)
    } else {
        let node = nodes[resolve_entry(nodes, packages, upto - 1)];
        edges_fault(packages, node, node.deps@.len() as int)
    }
}

/// The first of the first `upto` members whose declared dependencies cannot be decoded.
pub open spec fn declaration_fault(packages: Seq<Pkg>, members: Seq<int>, upto: int) -> Option<
    ErrorView,
>
    decreases upto,
{
    if upto <= 0 {
        None
    } else if declaration_fault(packages, members, upto - 1) is Some {
        declaration_fault(packages, members, upto - 1)
    } else {
        match packages[members[upto - 1]].dependencies {
            Decoded::Malformed(cause) => Some(
                ErrorView::CargoMetadataUnparseable { cause: cause@ },
            ),
            Decoded::Value(_) => None,
        }
    }
}

/// The number of edges of the first `upto` resolve nodes, of every kind.
pub open spec fn dep_count(nodes: Seq<Node>, upto: int) -> nat
    decreases upto,
{
    if upto <= 0 {
        0
    } else {
        dep_count(nodes, upto - 1) + nodes[upto - 1].deps@.len()
    }
}

/// The first rule of a graph that `meta` breaks.
pub open spec fn build_fault(meta: Meta) -> Option<ErrorView> {
    let packages = meta.packages@;
    let ids = meta.workspace_members@;
    if meta.resolve is None {
        Some(resolve_is_null())
    } else {
        let nodes = meta.resolve->0.nodes@;
        let all = packages.len() as int;
        let members = members_below(packages, ids, ids.len() as int);
        if packages.len() > u32::MAX {
            invalid_metadata(decimal(packages.len()) + " packages exceed the supported node count"@)
        } else if ids.len() == 0 {
            invalid_metadata("`workspace_members` is empty"@)
        } else if nodes.len() != packages.len() {
            invalid_metadata(
                "`resolve.nodes` has "@ + decimal(nodes.len()) + " entries but `packages` has "@
                    + decimal(packages.len()),
            )
        } else if dep_count(nodes, all) > u32::MAX {
            invalid_metadata(
                decimal(dep_count(nodes, all)) + " resolve edges exceed the supported edge count"@,
            )
        } else if id_fault(packages, all) is Some {
            id_fault(packages, all)
        } else if node_fault(packages, nodes, all) is Some {
            node_fault(packages, nodes, all)
        } else if member_fault(packages, ids, ids.len() as int) is Some {
            member_fault(packages, ids, ids.len() as int)
        } else if graph_fault(packages, nodes, all) is Some {
            graph_fault(packages, nodes, all)
        } else {
            declaration_fault(packages, members, members.len() as int)
        }
    }
}


/// The compressed adjacency: the edges out of node `u` are those numbered
/// `offsets[u]..offsets[u + 1]`, and edge `e` points to `adj[e]`.
#[derive(Debug)]
struct Csr {
    offsets: Vec<u32>,
    adj: Vec<u32>,
}

impl Csr {
    /// The numbers of the edges out of `node`.
    fn range(&self, node: usize) -> (range: (usize, usize))
        requires
            node + 1 < self.offsets@.len(),
        ensures
            range.0 == self.offsets@[node as int],
            range.1 == self.offsets@[node + 1],
    {
        let len: usize = self.offsets.len();
        assert(node < len);
        (self.offsets[node] as usize, self.offsets[node + 1] as usize)
    }
}

/// The transposed adjacency and, per transposed edge, the forward edge it mirrors.
#[derive(Debug)]
struct Transposed {
    csr: Csr,
    forward_edge: Vec<u32>,
}

/// Whether `offsets` cuts `0..total` into `count` runs.
spec fn cuts(offsets: Seq<u32>, count: int, total: int) -> bool {
    &&& offsets.len() == count + 1
    &&& offsets[0] == 0
    &&& offsets[count] == total
    &&& forall|u: int, v: int| 0 <= u <= v <= count ==> offsets[u] <= offsets[v]
}

/// Whether the runs of `forward` are the edges out of each node.
spec fn lays_out(forward: Csr, nodes: int, edges: Seq<Edge>) -> bool {
    &&& cuts(forward.offsets@, nodes, edges.len() as int)
    &&& forward.adj@.len() == edges.len() <= u32::MAX
    &&& forall|e: int|
        #![trigger edges[e]]
        0 <= e < edges.len() ==> {
            &&& 0 <= edges[e].from < nodes
            &&& 0 <= edges[e].to < nodes
            &&& forward.adj@[e] == edges[e].to
            &&& forward.offsets@[edges[e].from] <= e < forward.offsets@[edges[e].from + 1]
        }
}

fn invalid(message: String) -> (error: Error)
    ensures
        error@ == (ErrorView::MetadataInvalid { message: message@ }),
{
    Error::MetadataInvalid { message }
}

/// `before`, then `name`, then `after`.
fn quoting(before: &str, name: &str, after: &str) -> (message: String)
    ensures
        message@ == before@ + name@ + after@,
{
    let mut message = before.to_owned();
    message.push_str(name);
    message.push_str(after);
    message
}

/// Whether `map` holds the position of every package under its id, and nothing else.
spec fn indexes_ids(map: Map<Seq<char>, u32>, packages: Seq<Pkg>) -> bool {
    &&& forall|id: Seq<char>|
        #![trigger map.dom().contains(id)]
        map.dom().contains(id) ==> has_id(packages, map[id] as int, id)
    &&& forall|i: int|
        #![trigger packages[i]]
        0 <= i < packages.len() ==> map.dom().contains(packages[i].id@) && map[packages[i].id@] == i
}

proof fn index_finds(map: Map<Seq<char>, u32>, packages: Seq<Pkg>, id: Seq<char>)
    requires
        indexes_ids(map, packages),
    ensures
        map.dom().contains(id) == (node_with(packages, id) is Some),
        map.dom().contains(id) ==> node_with(packages, id) == Some(map[id] as int),
{
    if map.dom().contains(id) {
        assert(has_id(packages, map[id] as int, id));
        let i = choose|i: int| has_id(packages, i, id);
        assert(has_id(packages, i, id));
        assert(packages[i].id@ == id);
    }
    if exists|i: int| has_id(packages, i, id) {
        let i = choose|i: int| has_id(packages, i, id);
        assert(packages[i].id@ == id);
    }
}

/// Interns `packages[].id`, rejecting duplicates.
fn intern_ids(packages: &Vec<Pkg>) -> (ids: Result<Index, Error>)
    requires
        packages@.len() <= u32::MAX,
    ensures
        match ids {
            Ok(ids) => id_fault(packages@, packages@.len() as int) is None && indexes_ids(
                index::entries(ids),
                packages@,
            ),
            Err(error) => id_fault(packages@, packages@.len() as int) == Some(error@),
        },
{
    let mut ids = index::empty();
    let mut at: usize = 0;
    while at < packages.len()
        invariant
            at <= packages@.len() <= u32::MAX,
            id_fault(packages@, at as int) is None,
            forall|id: Seq<char>|
                #![trigger index::entries(ids).dom().contains(id)]
                index::entries(ids).dom().contains(id) ==> index::entries(ids)[id] < at && has_id(
                    packages@,
                    index::entries(ids)[id] as int,
                    id,
                ),
            forall|i: int|
                #![trigger packages@[i]]
                0 <= i < at ==> index::entries(ids).dom().contains(packages@[i].id@)
                    && index::entries(ids)[packages@[i].id@] == i,
        decreases packages@.len() - at,
    {
        let ghost before = index::entries(ids);
        let previous = index::insert(&mut ids, packages[at].id.as_str(), at as u32);
        let ghost id = packages@[at as int].id@;
        if previous.is_some() {
            assert(before.dom().contains(id));
            assert(has_id(packages@, before[id] as int, id));
            assert(occurs_below(packages@, id, at as int));
            proof {
                fault_stays(packages@, at + 1, packages@.len() as int);
            }
            return Err(
                invalid(quoting("duplicate package id `", packages[at].id.as_str(), "`")),
            );
        }
        assert(!occurs_below(packages@, id, at as int)) by {
            if occurs_below(packages@, id, at as int) {
                let j = choose|j: int| j < at && #[trigger] has_id(packages@, j, id);
                assert(packages@[j].id@ == id);
            }
        }
        at = at + 1;
    }
    Ok(ids)
}

proof fn fault_stays(packages: Seq<Pkg>, some: int, all: int)
    requires
        some <= all,
        id_fault(packages, some) is Some,
    ensures
        id_fault(packages, all) == id_fault(packages, some),
    decreases all - some,
{
    if some < all {
        fault_stays(packages, some, all - 1);
    }
}

proof fn node_fault_stays(packages: Seq<Pkg>, nodes: Seq<Node>, some: int, all: int)
    requires
        some <= all,
        node_fault(packages, nodes, some) is Some,
    ensures
        node_fault(packages, nodes, all) == node_fault(packages, nodes, some),
    decreases all - some,
{
    if some < all {
        node_fault_stays(packages, nodes, some, all - 1);
    }
}

proof fn member_fault_stays(packages: Seq<Pkg>, ids: Seq<String>, some: int, all: int)
    requires
        some <= all,
        member_fault(packages, ids, some) is Some,
    ensures
        member_fault(packages, ids, all) == member_fault(packages, ids, some),
    decreases all - some,
{
    if some < all {
        member_fault_stays(packages, ids, some, all - 1);
    }
}

proof fn edges_fault_stays(packages: Seq<Pkg>, node: Node, some: int, all: int)
    requires
        some <= all,
        edges_fault(packages, node, some) is Some,
    ensures
        edges_fault(packages, node, all) == edges_fault(packages, node, some),
    decreases all - some,
{
    if some < all {
        edges_fault_stays(packages, node, some, all - 1);
    }
}

proof fn graph_fault_stays(packages: Seq<Pkg>, nodes: Seq<Node>, some: int, all: int)
    requires
        some <= all,
        graph_fault(packages, nodes, some) is Some,
    ensures
        graph_fault(packages, nodes, all) == graph_fault(packages, nodes, some),
    decreases all - some,
{
    if some < all {
        graph_fault_stays(packages, nodes, some, all - 1);
    }
}

proof fn declaration_fault_stays(packages: Seq<Pkg>, members: Seq<int>, some: int, all: int)
    requires
        some <= all,
        declaration_fault(packages, members, some) is Some,
    ensures
        declaration_fault(packages, members, all) == declaration_fault(packages, members, some),
    decreases all - some,
{
    if some < all {
        declaration_fault_stays(packages, members, some, all - 1);
    }
}

/// A sequence of `n` distinct numbers below `n` holds every one of them.
pub(crate) proof fn distinct_numbers_cover(s: Seq<int>, n: int, x: int)
    requires
        s.len() == n,
        s.no_duplicates(),
        forall|i: int| 0 <= i < n ==> 0 <= #[trigger] s[i] < n,
        0 <= x < n,
    ensures
        s.contains(x),
{
    let all = vstd::set_lib::set_int_range(0, n);
    vstd::set_lib::lemma_int_range(0, n);
    s.unique_seq_to_set();
    assert(s.to_set().subset_of(all)) by {
        assert forall|v: int| s.to_set().contains(v) implies all.contains(v) by {
            assert(s.contains(v));
        }
    }
    vstd::set_lib::lemma_subset_equality(s.to_set(), all);
    assert(all.contains(x));
    assert(s.to_set().contains(x));
}

/// Whether every package has exactly one resolve node, at the position given for it.
spec fn joins(node_of_pkg: Seq<u32>, packages: Seq<Pkg>, nodes: Seq<Node>) -> bool {
    &&& node_of_pkg.len() == packages.len() == nodes.len()
    &&& forall|u: int|
        #![trigger node_of_pkg[u]]
        0 <= u < packages.len() ==> node_of_pkg[u] < nodes.len() && node_of_pkg[u] == resolve_entry(
            nodes,
            packages,
            u,
        ) && nodes[node_of_pkg[u] as int].id@ == packages[u].id@
}

/// Maps every package to its resolve node, requiring the two to be 1:1.
fn map_nodes(packages: &Vec<Pkg>, resolve: &Resolve, ids: &Index) -> (result: Result<Vec<u32>, Error>)
    requires
        packages@.len() == resolve.nodes@.len() <= u32::MAX,
        indexes_ids(index::entries(*ids), packages@),
    ensures
        match result {
            Ok(node_of_pkg) => node_fault(packages@, resolve.nodes@, packages@.len() as int) is None
                && joins(node_of_pkg@, packages@, resolve.nodes@),
            Err(error) => node_fault(packages@, resolve.nodes@, packages@.len() as int) == Some(
                error@,
            ),
        },
{
    let count: usize = packages.len();
    let ghost nodes = resolve.nodes@;
    let ghost map = index::entries(*ids);
    let mut node_of_pkg: Vec<u32> = Vec::new();
    node_of_pkg.resize(count, u32::MAX);
    // The package of every node seen so far.
    let ghost mut owners: Seq<int> = Seq::empty();
    let mut at: usize = 0;
    while at < resolve.nodes.len()
        invariant
            at <= count == packages@.len() == nodes.len() <= u32::MAX,
            nodes == resolve.nodes@,
            map == index::entries(*ids),
            indexes_ids(map, packages@),
            node_of_pkg@.len() == count,
            node_fault(packages@, nodes, at as int) is None,
            owners.len() == at,
            owners.no_duplicates(),
            forall|r: int|
                #![trigger owners[r]]
                0 <= r < at ==> has_id(packages@, owners[r], nodes[r].id@)
                    && node_of_pkg@[owners[r]] == r,
            forall|u: int|
                #![trigger node_of_pkg@[u]]
                0 <= u < count && node_of_pkg@[u] != u32::MAX ==> node_of_pkg@[u] < at
                    && owners[node_of_pkg@[u] as int] == u,
        decreases count - at,
    {
        let node = &resolve.nodes[at];
        let ghost id = node.id@;
        proof {
            index_finds(map, packages@, id);
        }
        match index::get(ids, node.id.as_str()) {
            None => {
                proof {
                    node_fault_stays(packages@, nodes, at + 1, count as int);
                }
                return Err(
                    invalid(
                        quoting("resolve node `", node.id.as_str(), "` has no `packages` entry"),
                    ),
                );
            },
            Some(pkg) => {
                assert(has_id(packages@, pkg as int, id));
                if node_of_pkg[pkg as usize] != u32::MAX {
                    proof {
                        let r = node_of_pkg@[pkg as int] as int;
                        assert(owners[r] == pkg);
                        assert(nodes[r].id@ == id);
                        node_fault_stays(packages@, nodes, at + 1, count as int);
                    }
                    return Err(
                        invalid(quoting("`resolve.nodes` lists `", node.id.as_str(), "` twice")),
                    );
                }
                proof {
                    assert forall|j: int| 0 <= j < at implies (#[trigger] nodes[j]).id@ != id by {
                        if nodes[j].id@ == id {
                            assert(has_id(packages@, owners[j], id));
                            assert(packages@[owners[j]].id@ == id);
                            assert(packages@[pkg as int].id@ == id);
                            assert(map[id] == owners[j]);
                        }
                    }
                    assert(!owners.contains(pkg as int)) by {
                        if owners.contains(pkg as int) {
                            let r = choose|r: int| 0 <= r < owners.len() && owners[r] == pkg;
                            assert(node_of_pkg@[owners[r]] == r);
                        }
                    }
                }
                let ghost before = node_of_pkg@;
                node_of_pkg.set(pkg as usize, at as u32);
                proof {
                    let old_owners = owners;
                    owners = owners.push(pkg as int);
                    assert forall|r: int|
                        #![trigger owners[r]]
                        0 <= r < at + 1 implies has_id(packages@, owners[r], nodes[r].id@)
                        && node_of_pkg@[owners[r]] == r by {
                        if r < at {
                            assert(owners[r] == old_owners[r]);
                            assert(old_owners.contains(old_owners[r]));
                        }
                    }
                    assert forall|u: int|
                        #![trigger node_of_pkg@[u]]
                        0 <= u < count && node_of_pkg@[u] != u32::MAX implies node_of_pkg@[u] < at
                        + 1 && owners[node_of_pkg@[u] as int] == u by {
                        if u != pkg {
                            assert(before[u] == node_of_pkg@[u]);
                        }
                    }
                }
            },
        }
        at = at + 1;
    }
    // Equal counts plus an injective node → package map leave no package without a node.
    proof {
        assert forall|i: int| 0 <= i < count implies 0 <= #[trigger] owners[i] < count by {
            assert(has_id(packages@, owners[i], nodes[i].id@));
        }
        assert forall|u: int| #![trigger node_of_pkg@[u]] 0 <= u < count implies node_of_pkg@[u]
            < nodes.len() && node_of_pkg@[u] == resolve_entry(nodes, packages@, u)
            && nodes[node_of_pkg@[u] as int].id@ == packages@[u].id@ by {
            distinct_numbers_cover(owners, count as int, u);
            let r = choose|r: int| 0 <= r < owners.len() && owners[r] == u;
            assert(node_of_pkg@[owners[r]] == r);
            assert(has_id(packages@, owners[r], nodes[r].id@));
            let s = resolve_entry(nodes, packages@, u);
            assert(nodes[r].id@ == packages@[u].id@);
            assert(nodes[s].id@ == packages@[u].id@);
            assert(has_id(packages@, owners[s], nodes[s].id@));
            assert(packages@[owners[s]].id@ == packages@[u].id@);
            assert(map[packages@[u].id@] == u);
            assert(owners[s] == u);
        }
    }
    Ok(node_of_pkg)
}


/// The sum of `deps` at the first `upto` entries of `at`.
spec fn deps_at(nodes: Seq<Node>, at: Seq<int>, upto: int) -> nat
    decreases upto,
{
    if upto <= 0 {
        0
    } else {
        deps_at(nodes, at, upto - 1) + nodes[at[upto - 1]].deps@.len()
    }
}

proof fn deps_at_without(nodes: Seq<Node>, at: Seq<int>, gone: int, upto: int)
    requires
        0 <= gone < at.len(),
        gone < upto <= at.len(),
    ensures
        deps_at(nodes, at, upto) == deps_at(nodes, at.remove(gone), upto - 1)
            + nodes[at[gone]].deps@.len(),
    decreases upto,
{
    let less = at.remove(gone);
    if gone == upto - 1 {
        deps_at_same(nodes, at, less, gone);
    } else {
        deps_at_without(nodes, at, gone, upto - 1);
        assert(less[upto - 2] == at[upto - 1]);
    }
}

proof fn deps_at_same(nodes: Seq<Node>, a: Seq<int>, b: Seq<int>, upto: int)
    requires
        upto <= a.len(),
        upto <= b.len(),
        forall|i: int| 0 <= i < upto ==> a[i] == b[i],
    ensures
        deps_at(nodes, a, upto) == deps_at(nodes, b, upto),
    decreases upto,
{
    if upto > 0 {
        deps_at_same(nodes, a, b, upto - 1);
    }
}

/// Distinct nodes have no more edges than all of them.
proof fn distinct_nodes_have_no_more(nodes: Seq<Node>, at: Seq<int>, below: int)
    requires
        0 <= below <= nodes.len(),
        at.no_duplicates(),
        forall|i: int| 0 <= i < at.len() ==> 0 <= #[trigger] at[i] < below,
    ensures
        deps_at(nodes, at, at.len() as int) <= dep_count(nodes, below),
    decreases below,
{
    if below == 0 {
        if at.len() > 0 {
            assert(0 <= at[0] < 0);
        }
    } else if at.contains(below - 1) {
        let gone = choose|i: int| 0 <= i < at.len() && at[i] == below - 1;
        let less = at.remove(gone);
        deps_at_without(nodes, at, gone, at.len() as int);
        assert forall|i: int| 0 <= i < less.len() implies 0 <= #[trigger] less[i] < below - 1 by {
            if i < gone {
                assert(less[i] == at[i]);
            } else {
                assert(less[i] == at[i + 1]);
            }
        }
        assert(less.no_duplicates()) by {
            assert forall|i: int, j: int| 0 <= i < j < less.len() implies less[i] != less[j] by {
                let a = if i < gone {
                    i
                } else {
                    i + 1
                };
                let b = if j < gone {
                    j
                } else {
                    j + 1
                };
                assert(less[i] == at[a] && less[j] == at[b]);
            }
        }
        distinct_nodes_have_no_more(nodes, less, below - 1);
    } else {
        assert forall|i: int| 0 <= i < at.len() implies 0 <= #[trigger] at[i] < below - 1 by {
            assert(at.contains(at[i]));
        }
        distinct_nodes_have_no_more(nodes, at, below - 1);
    }
}

proof fn edges_of_are_few(packages: Seq<Pkg>, from: int, node: Node, upto: int)
    requires
        0 <= upto,
    ensures
        edges_of(packages, from, node, upto).len() <= upto,
    decreases upto,
{
    if upto > 0 {
        edges_of_are_few(packages, from, node, upto - 1);
    }
}

proof fn edges_below_are_few(packages: Seq<Pkg>, nodes: Seq<Node>, at: Seq<int>, upto: int)
    requires
        0 <= upto <= at.len(),
        forall|u: int| 0 <= u < at.len() ==> at[u] == resolve_entry(nodes, packages, u),
    ensures
        edges_below(packages, nodes, upto).len() <= deps_at(nodes, at, upto),
    decreases upto,
{
    if upto > 0 {
        edges_below_are_few(packages, nodes, at, upto - 1);
        let node = nodes[resolve_entry(nodes, packages, upto - 1)];
        edges_of_are_few(packages, upto - 1, node, node.deps@.len() as int);
    }
}

proof fn deps_at_grow(nodes: Seq<Node>, at: Seq<int>, some: int, all: int)
    requires
        some <= all,
    ensures
        deps_at(nodes, at, some) <= deps_at(nodes, at, all),
    decreases all - some,
{
    if some < all {
        deps_at_grow(nodes, at, some, all - 1);
    }
}

/// There are no more normal edges than edges.
proof fn edges_fit(packages: Seq<Pkg>, nodes: Seq<Node>, node_of_pkg: Seq<u32>, upto: int)
    requires
        joins(node_of_pkg, packages, nodes),
        indexes_ids_once(packages),
        0 <= upto <= packages.len(),
    ensures
        edges_below(packages, nodes, upto).len() <= dep_count(nodes, nodes.len() as int),
        upto < packages.len() ==> edges_below(packages, nodes, upto).len() + nodes[resolve_entry(
            nodes,
            packages,
            upto,
        )].deps@.len() <= dep_count(nodes, nodes.len() as int),
{
    let at = Seq::new(packages.len(), |u: int| node_of_pkg[u] as int);
    assert forall|i: int| 0 <= i < at.len() implies 0 <= #[trigger] at[i] < nodes.len() by {
        assert(node_of_pkg[i] < nodes.len());
    }
    assert forall|u: int| 0 <= u < at.len() implies at[u] == resolve_entry(nodes, packages, u) by {
        assert(node_of_pkg[u] < nodes.len());
    }
    assert(at.no_duplicates()) by {
        assert forall|i: int, j: int| 0 <= i < j < at.len() implies at[i] != at[j] by {
            assert(nodes[node_of_pkg[i] as int].id@ == packages[i].id@);
            assert(nodes[node_of_pkg[j] as int].id@ == packages[j].id@);
        }
    }
    distinct_nodes_have_no_more(nodes, at, nodes.len() as int);
    edges_below_are_few(packages, nodes, at, upto);
    if upto < packages.len() {
        deps_at_grow(nodes, at, upto + 1, at.len() as int);
    } else {
        deps_at_grow(nodes, at, upto, at.len() as int);
    }
}

/// Whether no two packages have one id.
spec fn indexes_ids_once(packages: Seq<Pkg>) -> bool {
    forall|i: int, j: int|
        #![trigger packages[i], packages[j]]
        0 <= i < j < packages.len() ==> packages[i].id@ != packages[j].id@
}

/// The tables of [`intern_names`]: names by id, id by name, and the name of every node.
struct NameTables<'m> {
    names: Vec<&'m str>,
    name_ids: Index,
    node_to_name: Vec<u32>,
}

/// Whether `names` are the characters of `found`.
spec fn spells(names: Seq<&str>, found: Seq<Seq<char>>) -> bool {
    &&& names.len() == found.len()
    &&& forall|i: int| #![trigger names[i]] 0 <= i < names.len() ==> names[i]@ == found[i]
}

/// Whether `map` holds the position of every name under that name, and nothing else.
spec fn indexes_names(map: Map<Seq<char>, u32>, names: Seq<Seq<char>>) -> bool {
    &&& forall|name: Seq<char>|
        #![trigger map.dom().contains(name)]
        map.dom().contains(name) ==> map[name] < names.len() && names[map[name] as int] == name
    &&& forall|i: int|
        #![trigger names[i]]
        0 <= i < names.len() ==> map.dom().contains(names[i]) && map[names[i]] == i
}

pub(crate) proof fn names_below_are(packages: Seq<Pkg>, upto: int)
    requires
        0 <= upto <= packages.len(),
    ensures
        names_below(packages, upto).len() <= upto,
        names_below(packages, upto).no_duplicates(),
        forall|u: int|
            #![trigger packages[u]]
            0 <= u < upto ==> names_below(packages, upto).contains(packages[u].name@),
    decreases upto,
{
    if upto > 0 {
        names_below_are(packages, upto - 1);
        let before = names_below(packages, upto - 1);
        let now = names_below(packages, upto);
        assert forall|u: int| #![trigger packages[u]] 0 <= u < upto implies now.contains(
            packages[u].name@,
        ) by {
            if u < upto - 1 {
                assert(before.contains(packages[u].name@));
                let i = choose|i: int| 0 <= i < before.len() && before[i] == packages[u].name@;
                assert(now[i] == packages[u].name@);
            } else if !before.contains(packages[u].name@) {
                assert(now[before.len() as int] == packages[u].name@);
            }
        }
    }
}

proof fn names_below_grow(packages: Seq<Pkg>, some: int, all: int)
    requires
        0 <= some <= all <= packages.len(),
    ensures
        names_below(packages, some).len() <= names_below(packages, all).len(),
        forall|i: int|
            0 <= i < names_below(packages, some).len() ==> names_below(packages, some)[i]
                == #[trigger] names_below(packages, all)[i],
    decreases all - some,
{
    if some < all {
        names_below_grow(packages, some, all - 1);
    }
}

/// Assigns dense name ids in first-seen order and projects nodes onto them.
fn intern_names<'m>(packages: &'m Vec<Pkg>) -> (tables: NameTables<'m>)
    requires
        packages@.len() <= u32::MAX,
    ensures
        spells(tables.names@, names_below(packages@, packages@.len() as int)),
        indexes_names(
            index::entries(tables.name_ids),
            names_below(packages@, packages@.len() as int),
        ),
        tables.node_to_name@.len() == packages@.len(),
        forall|u: int|
            #![trigger tables.node_to_name@[u]]
            0 <= u < packages@.len() ==> tables.node_to_name@[u] < tables.names@.len()
                && names_below(packages@, packages@.len() as int)[tables.node_to_name@[u] as int]
                == packages@[u].name@,
{
    let mut name_ids = index::empty();
    let mut names: Vec<&'m str> = Vec::new();
    let mut node_to_name: Vec<u32> = Vec::new();
    let mut at: usize = 0;
    while at < packages.len()
        invariant
            at <= packages@.len() <= u32::MAX,
            spells(names@, names_below(packages@, at as int)),
            indexes_names(index::entries(name_ids), names_below(packages@, at as int)),
            node_to_name@.len() == at,
            forall|u: int|
                #![trigger node_to_name@[u]]
                0 <= u < at ==> node_to_name@[u] < names@.len() && names_below(
                    packages@,
                    at as int,
                )[node_to_name@[u] as int] == packages@[u].name@,
        decreases packages@.len() - at,
    {
        let name: &'m str = packages[at].name.as_str();
        let ghost before = names_below(packages@, at as int);
        let ghost now = names_below(packages@, at + 1);
        proof {
            names_below_are(packages@, at as int);
            names_below_grow(packages@, at as int, at + 1);
        }
        let id: u32 = match index::get(&name_ids, name) {
            Some(id) => {
                assert(before[id as int] == name@);
                assert(before.contains(name@));
                id
            },
            None => {
                assert(!before.contains(name@)) by {
                    if before.contains(name@) {
                        let i = choose|i: int| 0 <= i < before.len() && before[i] == name@;
                        assert(index::entries(name_ids).dom().contains(before[i]));
                    }
                }
                let ghost map = index::entries(name_ids);
                let id = names.len() as u32;
                names.push(name);
                index::insert(&mut name_ids, name, id);
                proof {
                    assert(now == before.push(name@));
                    let grown = index::entries(name_ids);
                    assert forall|n: Seq<char>| #![trigger grown.dom().contains(n)]
                        grown.dom().contains(n) implies grown[n] < now.len() && now[grown[n] as int]
                        == n by {
                        if n != name@ {
                            assert(map.dom().contains(n));
                        }
                    }
                    assert forall|i: int| #![trigger now[i]] 0 <= i < now.len() implies
                        grown.dom().contains(now[i]) && grown[now[i]] == i by {
                        if i < before.len() {
                            assert(now[i] == before[i]);
                            assert(map.dom().contains(before[i]));
                            assert(before.contains(before[i]));
                        }
                    }
                }
                id
            },
        };
        node_to_name.push(id);
        at = at + 1;
    }
    NameTables { names, name_ids, node_to_name }
}

pub(crate) proof fn members_below_are(packages: Seq<Pkg>, ids: Seq<String>, upto: int)
    requires
        0 <= upto <= ids.len(),
        member_fault(packages, ids, upto) is None,
    ensures
        members_below(packages, ids, upto).no_duplicates(),
        forall|i: int|
            #![trigger members_below(packages, ids, upto)[i]]
            0 <= i < members_below(packages, ids, upto).len() ==> 0 <= members_below(
                packages,
                ids,
                upto,
            )[i] < packages.len(),
    decreases upto,
{
    if upto > 0 {
        members_below_are(packages, ids, upto - 1);
        let i = node_with(packages, ids[upto - 1]@)->0;
        assert(has_id(packages, i, ids[upto - 1]@));
    }
}

/// Whether `set` holds exactly the numbers of `found`.
spec fn marks(set: FixedBitSet, found: Seq<int>, bits: int) -> bool {
    &&& bits::capacity(set) == bits
    &&& forall|u: int| #[trigger] bits::ones(set).contains(u) <==> found.contains(u)
}

/// Whether `found` are the numbers of `list`.
pub open spec fn lists(list: Seq<u32>, found: Seq<int>) -> bool {
    &&& list.len() == found.len()
    &&& forall|i: int| #![trigger list[i]] 0 <= i < list.len() ==> list[i] == found[i]
}

/// Resolves `workspace_members` to nodes, dropping duplicates.
fn collect_members(meta: &Meta, ids: &Index) -> (result: Result<(Vec<u32>, FixedBitSet), Error>)
    requires
        indexes_ids(index::entries(*ids), meta.packages@),
    ensures
        ({
            let fault = member_fault(
                meta.packages@,
                meta.workspace_members@,
                meta.workspace_members@.len() as int,
            );
            let found = members_below(
                meta.packages@,
                meta.workspace_members@,
                meta.workspace_members@.len() as int,
            );
            match result {
                Ok((members, is_member)) => fault is None && lists(members@, found) && marks(
                    is_member,
                    found,
                    meta.packages@.len() as int,
                ),
                Err(error) => fault == Some(error@),
            }
        }),
{
    let mut members: Vec<u32> = Vec::new();
    let mut is_member = bits::with_capacity(meta.packages.len());
    let ghost packages = meta.packages@;
    let ghost wanted = meta.workspace_members@;
    let mut at: usize = 0;
    while at < meta.workspace_members.len()
        invariant
            packages == meta.packages@,
            wanted == meta.workspace_members@,
            at <= wanted.len(),
            indexes_ids(index::entries(*ids), packages),
            member_fault(packages, wanted, at as int) is None,
            lists(members@, members_below(packages, wanted, at as int)),
            marks(is_member, members_below(packages, wanted, at as int), packages.len() as int),
        decreases wanted.len() - at,
    {
        let member = &meta.workspace_members[at];
        proof {
            index_finds(index::entries(*ids), packages, member@);
        }
        match index::get(ids, member.as_str()) {
            None => {
                proof {
                    member_fault_stays(packages, wanted, at + 1, wanted.len() as int);
                }
                return Err(
                    invalid(
                        quoting("workspace member `", member.as_str(), "` is not in `packages`"),
                    ),
                );
            },
            Some(pkg) => {
                let ghost before = members_below(packages, wanted, at as int);
                let ghost now = members_below(packages, wanted, at + 1);
                assert(has_id(packages, pkg as int, member@));
                if !bits::put(&mut is_member, pkg as usize) {
                    members.push(pkg);
                    assert(now == before.push(pkg as int));
                    assert forall|u: int| #[trigger] bits::ones(is_member).contains(u)
                        <==> now.contains(u) by {
                        if now.contains(u) && u != pkg {
                            let i = choose|i: int| 0 <= i < now.len() && now[i] == u;
                            assert(before[i] == u);
                        }
                        if before.contains(u) {
                            let i = choose|i: int| 0 <= i < before.len() && before[i] == u;
                            assert(now[i] == u);
                        }
                        assert(now[before.len() as int] == pkg);
                    }
                } else {
                    assert(now == before);
                }
            },
        }
        at = at + 1;
    }
    Ok((members, is_member))
}


/// The tables of [`build_csr`]: the adjacency, the document entry of every edge, and which
/// edges are platform-conditional.
struct Csrs<'m> {
    forward: Csr,
    edge_deps: Vec<&'m Dep>,
    edge_cfg_only: FixedBitSet,
}

/// Whether `deps` are the document entries of `edges`.
spec fn records(deps: Seq<&Dep>, edges: Seq<Edge>) -> bool {
    &&& deps.len() == edges.len()
    &&& forall|e: int| #![trigger deps[e]] 0 <= e < deps.len() ==> *deps[e] == edges[e].dep
}

/// Whether `set` marks the platform-conditional ones of `edges`.
spec fn marks_cfg_only(set: FixedBitSet, edges: Seq<Edge>) -> bool {
    &&& bits::capacity(set) == edges.len()
    &&& forall|e: int|
        #[trigger] bits::ones(set).contains(e) <==> 0 <= e < edges.len() && is_cfg_only(edges[e].dep)
}

/// Whether the edges found so far fit `offsets` and `adj`, with the run of the last node still
/// open.
spec fn lays_out_so_far(
    offsets: Seq<u32>,
    adj: Seq<u32>,
    nodes: int,
    edges: Seq<Edge>,
    cfg_only: Seq<u32>,
) -> bool {
    &&& adj.len() == edges.len()
    &&& offsets.len() > 0 ==> offsets[0] == 0
    &&& forall|u: int| 0 <= u < offsets.len() ==> offsets[u] <= edges.len()
    &&& forall|u: int, v: int| 0 <= u <= v < offsets.len() ==> offsets[u] <= offsets[v]
    &&& forall|e: int|
        #![trigger edges[e]]
        0 <= e < edges.len() ==> {
            &&& 0 <= edges[e].from < offsets.len()
            &&& 0 <= edges[e].to < nodes
            &&& adj[e] == edges[e].to
            &&& offsets[edges[e].from] <= e
            &&& edges[e].from + 1 < offsets.len() ==> e < offsets[edges[e].from + 1]
        }
    &&& forall|i: int|
        #![trigger cfg_only[i]]
        0 <= i < cfg_only.len() ==> cfg_only[i] < edges.len() && is_cfg_only(
            edges[cfg_only[i] as int].dep,
        )
    &&& forall|e: int|
        #![trigger edges[e]]
        0 <= e < edges.len() && is_cfg_only(edges[e].dep) ==> exists|i: int|
            0 <= i < cfg_only.len() && cfg_only[i] == e
}

/// The error of an edge without `dep_kinds`.
fn no_dep_kinds(id: &str, pkg: &str) -> (error: Error)
    ensures
        Some(error@) == invalid_metadata(
            "edge `"@ + id@ + "` -> `"@ + pkg@
                + "` has no `dep_kinds`; cargo 1.41 or newer is required"@,
        ),
{
    let mut message = quoting("edge `", id, "` -> `");
    message.push_str(pkg);
    message.push_str("` has no `dep_kinds`; cargo 1.41 or newer is required");
    invalid(message)
}

/// Folds every edge's `dep_kinds` and lays the normal edges out.
fn build_csr<'m>(
    packages: &Vec<Pkg>,
    resolve: &'m Resolve,
    node_of_pkg: &Vec<u32>,
    ids: &Index,
) -> (result: Result<Csrs<'m>, Error>)
    requires
        packages@.len() <= u32::MAX,
        indexes_ids(index::entries(*ids), packages@),
        joins(node_of_pkg@, packages@, resolve.nodes@),
        dep_count(resolve.nodes@, resolve.nodes@.len() as int) <= u32::MAX,
    ensures
        ({
            let all = packages@.len() as int;
            let edges = edges_below(packages@, resolve.nodes@, all);
            match result {
                Ok(csrs) => {
                    &&& graph_fault(packages@, resolve.nodes@, all) is None
                    &&& lays_out(csrs.forward, all, edges)
                    &&& records(csrs.edge_deps@, edges)
                    &&& marks_cfg_only(csrs.edge_cfg_only, edges)
                },
                Err(error) => graph_fault(packages@, resolve.nodes@, all) == Some(error@),
            }
        }),
{
    let mut offsets: Vec<u32> = Vec::new();
    let mut adj: Vec<u32> = Vec::new();
    let mut edge_deps: Vec<&'m Dep> = Vec::new();
    let mut cfg_only_edges: Vec<u32> = Vec::new();
    let ghost nodes = resolve.nodes@;
    let ghost map = index::entries(*ids);
    let ghost all = packages@.len() as int;
    let ghost mut edges: Seq<Edge> = Seq::empty();
    proof {
        assert forall|i: int, j: int|
            #![trigger packages@[i], packages@[j]]
            0 <= i < j < packages@.len() implies packages@[i].id@ != packages@[j].id@ by {
            assert(map[packages@[i].id@] == i && map[packages@[j].id@] == j);
        }
    }
    let mut at: usize = 0;
    while at < node_of_pkg.len()
        invariant
            at <= node_of_pkg@.len() == packages@.len() == all <= u32::MAX,
            nodes == resolve.nodes@,
            map == index::entries(*ids),
            indexes_ids(map, packages@),
            indexes_ids_once(packages@),
            joins(node_of_pkg@, packages@, nodes),
            dep_count(nodes, nodes.len() as int) <= u32::MAX,
            graph_fault(packages@, nodes, at as int) is None,
            edges == edges_below(packages@, nodes, at as int),
            offsets@.len() == at,
            lays_out_so_far(offsets@, adj@, all, edges, cfg_only_edges@),
            records(edge_deps@, edges),
        decreases all - at,
    {
        proof {
            edges_fit(packages@, nodes, node_of_pkg@, at as int);
        }
        offsets.push(adj.len() as u32);
        assert(node_of_pkg@[at as int] < nodes.len());
        let node = &resolve.nodes[node_of_pkg[at] as usize];
        let ghost before = edges;
        assert(edges_of(packages@, at as int, *node, 0) =~= Seq::empty());
        assert(before + Seq::<Edge>::empty() =~= before);
        let mut next: usize = 0;
        while next < node.deps.len()
            invariant
                at < node_of_pkg@.len() == packages@.len() == all <= u32::MAX,
                next <= node.deps@.len(),
                nodes == resolve.nodes@,
                map == index::entries(*ids),
                indexes_ids(map, packages@),
                *node == nodes[resolve_entry(nodes, packages@, at as int)],
                before == edges_below(packages@, nodes, at as int),
                before.len() + node.deps@.len() <= u32::MAX,
                graph_fault(packages@, nodes, at as int) is None,
                edges_fault(packages@, *node, next as int) is None,
                edges == before + edges_of(packages@, at as int, *node, next as int),
                offsets@.len() == at + 1,
                lays_out_so_far(offsets@, adj@, all, edges, cfg_only_edges@),
                records(edge_deps@, edges),
            decreases node.deps@.len() - next,
        {
            let dep = &node.deps[next];
            proof {
                index_finds(map, packages@, dep.pkg@);
                edges_of_are_few(packages@, at as int, *node, next as int);
            }
            let to: u32 = match index::get(ids, dep.pkg.as_str()) {
                Some(to) => to,
                None => {
                    let mut message = quoting("edge `", node.id.as_str(), "` -> `");
                    message.push_str(dep.pkg.as_str());
                    message.push_str("` points to a package that is not in `packages`");
                    proof {
                        edges_fault_stays(packages@, *node, next + 1, node.deps@.len() as int);
                        graph_fault_stays(packages@, nodes, at + 1, all);
                    }
                    return Err(invalid(message));
                },
            };
            assert(has_id(packages@, to as int, dep.pkg@));
            if dep.dep_kinds.is_none() {
                proof {
                    edges_fault_stays(packages@, *node, next + 1, node.deps@.len() as int);
                    graph_fault_stays(packages@, nodes, at + 1, all);
                }
                return Err(no_dep_kinds(node.id.as_str(), dep.pkg.as_str()));
            }
            let fold = match fold_dep_kinds(dep) {
                Ok(fold) => fold,
                Err(error) => {
                    proof {
                        edges_fault_stays(packages@, *node, next + 1, node.deps@.len() as int);
                        graph_fault_stays(packages@, nodes, at + 1, all);
                    }
                    return Err(error);
                },
            };
            if fold.entries == 0 {
                proof {
                    edges_fault_stays(packages@, *node, next + 1, node.deps@.len() as int);
                    graph_fault_stays(packages@, nodes, at + 1, all);
                }
                return Err(no_dep_kinds(node.id.as_str(), dep.pkg.as_str()));
            }
            let ghost was = edges;
            let ghost was_cfg_only = cfg_only_edges@;
            if fold.has_normal() {
                if fold.all_normal_targeted() {
                    cfg_only_edges.push(adj.len() as u32);
                }
                adj.push(to);
                edge_deps.push(dep);
                proof {
                    let edge = Edge { from: at as int, to: to as int, dep: *dep };
                    edges = edges.push(edge);
                    assert(edges =~= before + edges_of(
                        packages@,
                        at as int,
                        *node,
                        next + 1,
                    ));
                    assert forall|e: int|
                        #![trigger edges[e]]
                        0 <= e < edges.len() && is_cfg_only(edges[e].dep) implies exists|i: int|
                        0 <= i < cfg_only_edges@.len() && cfg_only_edges@[i] == e by {
                        if e < was.len() {
                            assert(edges[e] == was[e]);
                            let i = choose|i: int| 0 <= i < was_cfg_only.len() && was_cfg_only[i] == e;
                            assert(cfg_only_edges@[i] == e);
                        } else {
                            assert(cfg_only_edges@[was_cfg_only.len() as int] == e);
                        }
                    }
                    assert forall|i: int|
                        #![trigger cfg_only_edges@[i]]
                        0 <= i < cfg_only_edges@.len() implies cfg_only_edges@[i] < edges.len()
                        && is_cfg_only(edges[cfg_only_edges@[i] as int].dep) by {
                        if i < was_cfg_only.len() {
                            assert(was_cfg_only[i] == cfg_only_edges@[i]);
                            assert(edges[was_cfg_only[i] as int] == was[was_cfg_only[i] as int]);
                        }
                    }
                    assert forall|e: int|
                        #![trigger edges[e]]
                        0 <= e < edges.len() implies {
                        &&& 0 <= edges[e].from < offsets@.len()
                        &&& 0 <= edges[e].to < all
                        &&& adj@[e] == edges[e].to
                        &&& offsets@[edges[e].from] <= e
                        &&& edges[e].from + 1 < offsets@.len() ==> e < offsets@[edges[e].from + 1]
                    } by {
                        if e < was.len() {
                            assert(edges[e] == was[e]);
                        }
                    }
                }
            }
            next = next + 1;
        }
        at = at + 1;
    }
    proof {
        edges_fit(packages@, nodes, node_of_pkg@, all);
    }
    let ghost short = offsets@;
    offsets.push(adj.len() as u32);
    let mut edge_cfg_only = bits::with_capacity(adj.len());
    let mut next: usize = 0;
    while next < cfg_only_edges.len()
        invariant
            next <= cfg_only_edges@.len(),
            bits::capacity(edge_cfg_only) == edges.len(),
            lays_out_so_far(short, adj@, all, edges, cfg_only_edges@),
            forall|e: int|
                #[trigger] bits::ones(edge_cfg_only).contains(e) <==> exists|i: int|
                    0 <= i < next && cfg_only_edges@[i] == e,
        decreases cfg_only_edges@.len() - next,
    {
        let ghost was = bits::ones(edge_cfg_only);
        assert(cfg_only_edges@[next as int] < edges.len());
        bits::insert(&mut edge_cfg_only, cfg_only_edges[next] as usize);
        assert forall|e: int| #[trigger] bits::ones(edge_cfg_only).contains(e) <==> exists|i: int|
            0 <= i < next + 1 && cfg_only_edges@[i] == e by {
            if e == cfg_only_edges@[next as int] {
                assert(cfg_only_edges@[next as int] == e);
            } else if was.contains(e) {
                let i = choose|i: int| 0 <= i < next && cfg_only_edges@[i] == e;
                assert(cfg_only_edges@[i] == e);
            }
            if exists|i: int| 0 <= i < next + 1 && cfg_only_edges@[i] == e {
                let i = choose|i: int| 0 <= i < next + 1 && cfg_only_edges@[i] == e;
                if i < next {
                    assert(was.contains(e));
                }
            }
        }
        next = next + 1;
    }
    proof {
        assert(marks_cfg_only(edge_cfg_only, edges)) by {
            assert forall|e: int| #[trigger] bits::ones(edge_cfg_only).contains(e) <==> 0 <= e
                < edges.len() && is_cfg_only(edges[e].dep) by {
                if bits::ones(edge_cfg_only).contains(e) {
                    let i = choose|i: int|
                        0 <= i < cfg_only_edges@.len() && cfg_only_edges@[i] == e;
                    assert(cfg_only_edges@[i] == e);
                }
                if 0 <= e < edges.len() && is_cfg_only(edges[e].dep) {
                    assert(exists|i: int| 0 <= i < cfg_only_edges@.len() && cfg_only_edges@[i] == e);
                }
            }
        }
        assert forall|e: int|
            #![trigger edges[e]]
            0 <= e < edges.len() implies {
            &&& 0 <= edges[e].from < all
            &&& 0 <= edges[e].to < all
            &&& adj@[e] == edges[e].to
            &&& offsets@[edges[e].from] <= e < offsets@[edges[e].from + 1]
        } by {
            assert(offsets@[edges[e].from] == short[edges[e].from]);
        }
    }
    Ok(Csrs { forward: Csr { offsets, adj }, edge_deps, edge_cfg_only })
}


/// Whether `declared` has a normal declaration of `name`, and only optional ones.
///
/// A name declared required in one table and optional in another is unconditionally present,
/// so it is not optional.
pub open spec fn declares_optional(declared: Seq<DeclaredDep>, name: Seq<char>) -> bool {
    &&& exists|i: int|
        0 <= i < declared.len() && (#[trigger] declared[i]).kind is None && declared[i].name@ == name
    &&& forall|i: int|
        0 <= i < declared.len() && (#[trigger] declared[i]).kind is None && declared[i].name@
            == name ==> declared[i].optional
}

/// Folds the normal declarations of `name`.
fn is_declared_optional(declared: &Vec<DeclaredDep>, name: &str) -> (optional: bool)
    ensures
        optional == declares_optional(declared@, name@),
{
    let mut seen = false;
    let mut at: usize = 0;
    while at < declared.len()
        invariant
            at <= declared@.len(),
            seen == exists|i: int|
                0 <= i < at && (#[trigger] declared@[i]).kind is None && declared@[i].name@ == name@,
            forall|i: int|
                0 <= i < at && (#[trigger] declared@[i]).kind is None && declared@[i].name@
                    == name@ ==> declared@[i].optional,
        decreases declared@.len() - at,
    {
        let dep = &declared[at];
        if dep.is_normal() && text::same(dep.name.as_str(), name) {
            if !dep.optional {
                assert(!declared@[at as int].optional);
                return false;
            }
            seen = true;
        }
        at = at + 1;
    }
    seen
}

impl GraphView {
    /// The number of nodes.
    pub open spec fn count(self) -> int {
        self.meta.packages@.len() as int
    }

    /// The name of `node`.
    pub open spec fn name(self, node: int) -> Seq<char> {
        self.meta.packages@[node].name@
    }

    /// The version of `node`.
    pub open spec fn version(self, node: int) -> Seq<char> {
        self.meta.packages@[node].version@
    }

    /// Whether the package that `edge` leaves declares the package it points to optional.
    pub open spec fn optional_edge(self, edge: int) -> bool {
        self.meta.packages@[self.edges[edge].from].dependencies matches Decoded::Value(declared)
            && declares_optional(declared@, self.name(self.edges[edge].to))
    }

    /// Whether `edge` is in the graph although some build may go without it: it is
    /// platform-conditional, or it is an optional dependency of a workspace member.
    pub open spec fn superset_edge(self, edge: int) -> bool {
        is_cfg_only(self.edges[edge].dep) || (self.members.contains(self.edges[edge].from)
            && self.optional_edge(edge))
    }

    /// The edges, from dependent to dependency, as far as `live` has them.
    pub open spec fn steps(self, live: Set<int>) -> Steps {
        Steps {
            nodes: self.count(),
            edges: Seq::new(self.edges.len(), |e: int| (self.edges[e].from, self.edges[e].to)),
            live,
        }
    }

    /// Every edge, from dependent to dependency.
    pub open spec fn forward(self) -> Steps {
        self.steps(Set::full())
    }

    /// Every edge, from dependency to dependent.
    pub open spec fn backward(self) -> Steps {
        paths::reversed(self.forward())
    }

    /// Whether the ids of the view fit together.
    pub open spec fn consistent(self) -> bool {
        &&& self.count() <= u32::MAX
        &&& self.edges.len() <= u32::MAX
        &&& forall|e: int|
            #![trigger self.edges[e]]
            0 <= e < self.edges.len() ==> 0 <= self.edges[e].from < self.count() && 0
                <= self.edges[e].to < self.count() && self.edges[e].dep.dep_kinds is Some
                && self.edges[e].dep.dep_kinds->0 is Value
        &&& self.names.len() <= self.count()
        &&& self.names.no_duplicates()
        &&& self.name_of.len() == self.count()
        &&& forall|u: int|
            #![trigger self.name_of[u]]
            0 <= u < self.count() ==> 0 <= self.name_of[u] < self.names.len()
                && self.names[self.name_of[u]] == self.name(u)
        &&& self.members.no_duplicates()
        &&& forall|i: int|
            #![trigger self.members[i]]
            0 <= i < self.members.len() ==> 0 <= self.members[i] < self.count()
        &&& self.nodes.len() == self.count()
    }
}

/// Whether `t` is the transposed adjacency of `edges`, which point to `adj`.
spec fn mirrors(t: Transposed, nodes: int, adj: Seq<u32>, edges: Seq<Edge>) -> bool {
    &&& grouped(adj, nodes, t.csr.offsets@, t.forward_edge@)
    &&& t.csr.adj@.len() == edges.len()
    &&& forall|k: int|
        #![trigger t.csr.adj@[k]]
        0 <= k < edges.len() ==> t.csr.adj@[k] == edges[t.forward_edge@[k] as int].from
}

/// What the cache of the transposed adjacency may hold.
struct MirrorOf {
    nodes: int,
    adj: Seq<u32>,
    edges: Seq<Edge>,
}

impl Predicate<Option<Transposed>> for MirrorOf {
    closed spec fn predicate(&self, cached: Option<Transposed>) -> bool {
        cached is Some ==> mirrors(cached->0, self.nodes, self.adj, self.edges)
    }
}

/// The normal-dependency graph of one `cargo metadata` resolve.
///
/// Built once by [`Graph::build`].
pub struct Graph<'m> {
    meta: &'m Meta,
    forward: Csr,
    /// The document entry of every edge.
    edge_deps: Vec<&'m Dep>,
    /// Edges whose every normal `dep_kinds` entry carries a `target`.
    edge_cfg_only: FixedBitSet,
    /// Edges out of a member whose every normal declaration of the target's name is
    /// `optional = true`.
    edge_member_optional: FixedBitSet,
    node_to_name: Vec<u32>,
    names: Vec<&'m str>,
    name_ids: Index,
    /// Nodes grouped by name id: `nodes_by_name[name_offsets[n]..name_offsets[n + 1]]`.
    name_offsets: Vec<u32>,
    nodes_by_name: Vec<u32>,
    members: Vec<u32>,
    is_member: FixedBitSet,
    /// The `resolve.nodes[]` entry of every package.
    resolve_nodes: Vec<&'m Node>,
    /// The transposed adjacency, once something has asked for it.
    transposed: InvCell<Option<Transposed>, MirrorOf>,
    model: Ghost<GraphView>,
}

impl<'m> View for Graph<'m> {
    type V = GraphView;

    closed spec fn view(&self) -> GraphView {
        self.model@
    }
}

/// Marks the edges out of each member whose target is declared optional.
fn mark_member_optional(
    packages: &Vec<Pkg>,
    members: &Vec<u32>,
    forward: &Csr,
    Ghost(edges): Ghost<Seq<Edge>>,
    Ghost(found): Ghost<Seq<int>>,
) -> (result: Result<FixedBitSet, Error>)
    requires
        lays_out(*forward, packages@.len() as int, edges),
        lists(members@, found),
        forall|i: int| #![trigger found[i]] 0 <= i < found.len() ==> 0 <= found[i] < packages@.len(),
    ensures
        match result {
            Ok(set) => {
                &&& declaration_fault(packages@, found, found.len() as int) is None
                &&& bits::capacity(set) == edges.len()
                &&& forall|e: int|
                    #[trigger] bits::ones(set).contains(e) <==> 0 <= e < edges.len()
                        && optional_for(packages@, edges[e], found, found.len() as int)
            },
            Err(error) => declaration_fault(packages@, found, found.len() as int) == Some(error@),
        },
{
    let mut set = bits::with_capacity(forward.adj.len());
    let mut at: usize = 0;
    while at < members.len()
        invariant
            at <= members@.len(),
            lays_out(*forward, packages@.len() as int, edges),
            lists(members@, found),
            forall|i: int|
                #![trigger found[i]]
                0 <= i < found.len() ==> 0 <= found[i] < packages@.len(),
            declaration_fault(packages@, found, at as int) is None,
            bits::capacity(set) == edges.len(),
            forall|e: int|
                #[trigger] bits::ones(set).contains(e) <==> 0 <= e < edges.len() && optional_for(
                    packages@,
                    edges[e],
                    found,
                    at as int,
                ),
        decreases members@.len() - at,
    {
        let member = members[at] as usize;
        assert(found[at as int] == member);
        let declared = match &packages[member].dependencies {
            Decoded::Value(declared) => declared,
            Decoded::Malformed(cause) => {
                proof {
                    declaration_fault_stays(packages@, found, at + 1, found.len() as int);
                }
                return Err(Error::CargoMetadataUnparseable { cause: cause.as_str().to_owned() });
            },
        };
        let ghost before = bits::ones(set);
        let (start, end) = forward.range(member);
        let mut edge: usize = start;
        while edge < end
            invariant
                lays_out(*forward, packages@.len() as int, edges),
                member < packages@.len(),
                forward.offsets@[member as int] <= edge <= end == forward.offsets@[member + 1],
                bits::capacity(set) == edges.len(),
                packages@[member as int].dependencies == Decoded::Value(*declared),
                forall|e: int|
                    #[trigger] bits::ones(set).contains(e) <==> before.contains(e) || (
                    forward.offsets@[member as int] <= e < edge && declares_optional(
                        declared@,
                        packages@[edges[e].to].name@,
                    )),
            decreases end - edge,
        {
            assert(0 <= edges[edge as int].to < packages@.len());
            let to = forward.adj[edge] as usize;
            if is_declared_optional(declared, packages[to].name.as_str()) {
                bits::insert(&mut set, edge);
            }
            edge = edge + 1;
        }
        proof {
            assert forall|e: int| #[trigger] bits::ones(set).contains(e) <==> 0 <= e < edges.len()
                && optional_for(packages@, edges[e], found, at + 1) by {
                if 0 <= e < edges.len() {
                    let from = edges[e].from;
                    if from < member {
                        assert(forward.offsets@[from + 1] <= forward.offsets@[member as int]);
                    } else if from > member {
                        assert(forward.offsets@[member + 1] <= forward.offsets@[from]);
                    }
                    if optional_for(packages@, edges[e], found, at as int) {
                        let i = choose|i: int| 0 <= i < at && #[trigger] found[i] == from;
                        assert(0 <= i < at + 1 && found[i] == from);
                    }
                    if from == member {
                        assert(found[at as int] == from);
                    }
                }
            }
        }
        at = at + 1;
    }
    Ok(set)
}

/// Whether `edge` leaves one of the first `upto` members, which declares its target optional.
pub open spec fn optional_for(packages: Seq<Pkg>, edge: Edge, members: Seq<int>, upto: int) -> bool {
    &&& exists|i: int| 0 <= i < upto && #[trigger] members[i] == edge.from
    &&& packages[edge.from].dependencies matches Decoded::Value(declared) && declares_optional(
        declared@,
        packages[edge.to].name@,
    )
}


impl<'m> Graph<'m> {
    /// Whether the tables of the graph agree with its view.
    pub closed spec fn wf(&self) -> bool {
        let view = self.model@;
        &&& view.consistent()
        &&& view.meta == *self.meta
        &&& lays_out(self.forward, view.count(), view.edges)
        &&& records(self.edge_deps@, view.edges)
        &&& marks_cfg_only(self.edge_cfg_only, view.edges)
        &&& bits::capacity(self.edge_member_optional) == view.edges.len()
        &&& forall|e: int|
            #[trigger] bits::ones(self.edge_member_optional).contains(e) <==> 0 <= e
                < view.edges.len() && optional_for(
                view.meta.packages@,
                view.edges[e],
                view.members,
                view.members.len() as int,
            )
        &&& lists(self.node_to_name@, view.name_of)
        &&& spells(self.names@, view.names)
        &&& indexes_names(index::entries(self.name_ids), view.names)
        &&& grouped(
            self.node_to_name@,
            view.names.len() as int,
            self.name_offsets@,
            self.nodes_by_name@,
        )
        &&& lists(self.members@, view.members)
        &&& marks(self.is_member, view.members, view.count())
        &&& self.resolve_nodes@.len() == view.nodes.len()
        &&& forall|u: int|
            #![trigger self.resolve_nodes@[u]]
            0 <= u < view.nodes.len() ==> *self.resolve_nodes@[u] == view.nodes[u]
        &&& self.transposed.predicate() == (MirrorOf {
            nodes: view.count(),
            adj: self.forward.adj@,
            edges: view.edges,
        })
    }

    /// The view of a graph is consistent.
    pub proof fn is_consistent(&self)
        requires
            self.wf(),
        ensures
            self@.consistent(),
    {
    }

    /// Interns `meta` into a graph of normal edges, failing closed on any broken rule.
    ///
    /// # Errors
    ///
    /// Returns [`Error::MetadataInvalid`] when `resolve` is `null`, `workspace_members`
    /// is empty or names an unknown id, `resolve.nodes` is not 1:1 with `packages`,
    /// a package id is duplicated, an edge points to an unknown package, or an edge
    /// has an empty or absent `dep_kinds`. Returns [`Error::CargoMetadataUnparseable`]
    /// when a `dep_kinds` array, or the `dependencies` of a member, cannot be decoded.
    pub fn build(meta: &'m Meta) -> (result: Result<Graph<'m>, Error>)
        ensures
            match result {
                Ok(graph) => build_fault(*meta) is None && graph.wf() && graph@ == graph_of(*meta),
                Err(error) => build_fault(*meta) == Some(error@),
            },
    {
        let resolve = match resolve_of(meta) {
            Ok(resolve) => resolve,
            Err(error) => return Err(error),
        };
        let packages = &meta.packages;
        let package_count: usize = packages.len();
        if package_count as u128 > u32::MAX as u128 {
            let mut message = String::new();
            text::push_decimal(&mut message, package_count as u128);
            message.push_str(" packages exceed the supported node count");
            assert(message@ =~= decimal(packages@.len())
                + " packages exceed the supported node count"@);
            return Err(invalid(message));
        }
        if meta.workspace_members.len() == 0 {
            return Err(invalid("`workspace_members` is empty".to_owned()));
        }
        if resolve.nodes.len() != package_count {
            let mut message = "`resolve.nodes` has ".to_owned();
            text::push_decimal(&mut message, resolve.nodes.len() as u128);
            message.push_str(" entries but `packages` has ");
            text::push_decimal(&mut message, package_count as u128);
            return Err(invalid(message));
        }
        let total_deps: u128 = count_deps(resolve);
        if total_deps > u32::MAX as u128 {
            let mut message = String::new();
            text::push_decimal(&mut message, total_deps);
            message.push_str(" resolve edges exceed the supported edge count");
            assert(message@ =~= decimal(total_deps as nat)
                + " resolve edges exceed the supported edge count"@);
            return Err(invalid(message));
        }
        let ids = match intern_ids(packages) {
            Ok(ids) => ids,
            Err(error) => return Err(error),
        };
        let node_of_pkg = match map_nodes(packages, resolve, &ids) {
            Ok(node_of_pkg) => node_of_pkg,
            Err(error) => return Err(error),
        };
        let tables = intern_names(packages);
        let (members, is_member) = match collect_members(meta, &ids) {
            Ok(found) => found,
            Err(error) => return Err(error),
        };
        let csrs = match build_csr(packages, resolve, &node_of_pkg, &ids) {
            Ok(csrs) => csrs,
            Err(error) => return Err(error),
        };
        let ghost view = graph_of(*meta);
        proof {
            members_below_are(
                packages@,
                meta.workspace_members@,
                meta.workspace_members@.len() as int,
            );
        }
        let edge_member_optional = match mark_member_optional(
            packages,
            &members,
            &csrs.forward,
            Ghost(view.edges),
            Ghost(view.members),
        ) {
            Ok(set) => set,
            Err(error) => return Err(error),
        };
        proof {
            names_below_are(packages@, packages@.len() as int);
            assert forall|u: int|
                #![trigger view.name_of[u]]
                0 <= u < view.count() implies 0 <= view.name_of[u] < view.names.len()
                && view.names[view.name_of[u]] == view.name(u) by {
                assert(view.names.contains(packages@[u].name@));
            }
            assert forall|u: int|
                #![trigger tables.node_to_name@[u]]
                0 <= u < packages@.len() implies tables.node_to_name@[u] == view.name_of[u] by {
                let id = tables.node_to_name@[u] as int;
                assert(view.names[id] == packages@[u].name@);
                assert(view.names[view.name_of[u]] == packages@[u].name@);
            }
            edges_have_kinds(packages@, resolve.nodes@, packages@.len() as int);
        }
        let name_count: usize = tables.names.len();
        proof {
            assert forall|i: int| 0 <= i < tables.node_to_name@.len() implies tables.node_to_name@[i]
                < name_count by {
                assert(tables.node_to_name@[i] < tables.names@.len());
            }
        }
        let (name_offsets, nodes_by_name) = buckets::group(&tables.node_to_name, name_count);
        let mut resolve_nodes: Vec<&'m Node> = Vec::new();
        let mut at: usize = 0;
        while at < node_of_pkg.len()
            invariant
                at <= node_of_pkg@.len(),
                joins(node_of_pkg@, packages@, resolve.nodes@),
                resolve_nodes@.len() == at,
                forall|u: int|
                    #![trigger resolve_nodes@[u]]
                    0 <= u < at ==> *resolve_nodes@[u] == resolve.nodes@[resolve_entry(
                        resolve.nodes@,
                        packages@,
                        u,
                    )],
            decreases node_of_pkg@.len() - at,
        {
            assert(node_of_pkg@[at as int] < resolve.nodes@.len());
            resolve_nodes.push(&resolve.nodes[node_of_pkg[at] as usize]);
            at = at + 1;
        }
        let mirror = Ghost(
            MirrorOf { nodes: view.count(), adj: csrs.forward.adj@, edges: view.edges },
        );
        let transposed = InvCell::new(None, mirror);
        Ok(
            Graph {
                meta,
                forward: csrs.forward,
                edge_deps: csrs.edge_deps,
                edge_cfg_only: csrs.edge_cfg_only,
                edge_member_optional,
                node_to_name: tables.node_to_name,
                names: tables.names,
                name_ids: tables.name_ids,
                name_offsets,
                nodes_by_name,
                members,
                is_member,
                resolve_nodes,
                transposed,
                model: Ghost(view),
            },
        )
    }
}

/// The number of edges of all resolve nodes.
fn count_deps(resolve: &Resolve) -> (total: u128)
    requires
        resolve.nodes@.len() <= u32::MAX,
    ensures
        total == dep_count(resolve.nodes@, resolve.nodes@.len() as int),
{
    let mut total: u128 = 0;
    let mut at: usize = 0;
    while at < resolve.nodes.len()
        invariant
            at <= resolve.nodes@.len() <= u32::MAX,
            total == dep_count(resolve.nodes@, at as int),
            total <= at * 0x1_0000_0000_0000_0000,
        decreases resolve.nodes@.len() - at,
    {
        let deps: u64 = resolve.nodes[at].deps.len() as u64;
        total = total + deps as u128;
        at = at + 1;
    }
    total
}

proof fn edges_of_have_kinds(packages: Seq<Pkg>, from: int, node: Node, upto: int)
    requires
        0 <= upto <= node.deps@.len(),
    ensures
        forall|e: int|
            #![trigger edges_of(packages, from, node, upto)[e]]
            0 <= e < edges_of(packages, from, node, upto).len() ==> is_normal_edge(
                edges_of(packages, from, node, upto)[e].dep,
            ),
    decreases upto,
{
    if upto > 0 {
        edges_of_have_kinds(packages, from, node, upto - 1);
    }
}

proof fn edges_have_kinds(packages: Seq<Pkg>, nodes: Seq<Node>, upto: int)
    requires
        0 <= upto,
    ensures
        forall|e: int|
            #![trigger edges_below(packages, nodes, upto)[e]]
            0 <= e < edges_below(packages, nodes, upto).len() ==> is_normal_edge(
                edges_below(packages, nodes, upto)[e].dep,
            ),
    decreases upto,
{
    if upto > 0 {
        edges_have_kinds(packages, nodes, upto - 1);
        let node = nodes[resolve_entry(nodes, packages, upto - 1)];
        edges_of_have_kinds(packages, upto - 1, node, node.deps@.len() as int);
        let before = edges_below(packages, nodes, upto - 1);
        let added = edges_of(packages, upto - 1, node, node.deps@.len() as int);
        assert forall|e: int|
            #![trigger edges_below(packages, nodes, upto)[e]]
            0 <= e < edges_below(packages, nodes, upto).len() implies is_normal_edge(
            edges_below(packages, nodes, upto)[e].dep,
        ) by {
            if e < before.len() {
                assert(edges_below(packages, nodes, upto)[e] == before[e]);
            } else {
                assert(edges_below(packages, nodes, upto)[e] == added[e - before.len()]);
            }
        }
    }
}


/// The numbers below `upto` of the edges that leave `node`.
pub open spec fn edges_out(edges: Seq<Edge>, node: int, upto: int) -> Seq<int>
    decreases upto,
{
    if upto <= 0 {
        Seq::empty()
    } else if edges[upto - 1].from == node {
        edges_out(edges, node, upto - 1).push(upto - 1)
    } else {
        edges_out(edges, node, upto - 1)
    }
}

/// The nodes below `upto` whose name id is `name`.
pub open spec fn nodes_named(name_of: Seq<int>, name: int, upto: int) -> Seq<int>
    decreases upto,
{
    if upto <= 0 {
        Seq::empty()
    } else if name_of[upto - 1] == name {
        nodes_named(name_of, name, upto - 1).push(upto - 1)
    } else {
        nodes_named(name_of, name, upto - 1)
    }
}

impl GraphView {
    /// The numbers of the edges that leave `node`, in order.
    pub open spec fn out(self, node: int) -> Seq<int> {
        edges_out(self.edges, node, self.edges.len() as int)
    }

    /// The direct dependencies of `node`, in edge order.
    pub open spec fn direct(self, node: int) -> Seq<int> {
        self.out(node).map_values(|e: int| self.edges[e].to)
    }

    /// The nodes with name id `name`, in order.
    pub open spec fn named(self, name: int) -> Seq<int> {
        nodes_named(self.name_of, name, self.count())
    }

    /// Whether an edge leads from `from` to `to`.
    pub open spec fn joined(self, edge: int, from: int, to: int) -> bool {
        0 <= edge < self.edges.len() && self.edges[edge].from == from && self.edges[edge].to == to
    }
}

proof fn named_as_grouped(keys: Seq<u32>, name_of: Seq<int>, name: int, upto: int)
    requires
        lists(keys, name_of),
        0 <= upto <= keys.len(),
    ensures
        nodes_named(name_of, name, upto) == buckets::positions(keys, name, upto),
    decreases upto,
{
    if upto > 0 {
        named_as_grouped(keys, name_of, name, upto - 1);
        assert(keys[upto - 1] == name_of[upto - 1]);
    }
}

/// The run of a node holds exactly the edges that leave it.
proof fn run_is(forward: Csr, nodes: int, edges: Seq<Edge>, e: int, u: int)
    requires
        lays_out(forward, nodes, edges),
        0 <= e < edges.len(),
        0 <= u < nodes,
    ensures
        (forward.offsets@[u] <= e < forward.offsets@[u + 1]) == (edges[e].from == u),
{
    let from = edges[e].from;
    if from < u {
        assert(forward.offsets@[from + 1] <= forward.offsets@[u]);
    } else if from > u {
        assert(forward.offsets@[u + 1] <= forward.offsets@[from]);
    }
}

proof fn out_is_run(forward: Csr, nodes: int, edges: Seq<Edge>, u: int, upto: int)
    requires
        lays_out(forward, nodes, edges),
        0 <= u < nodes,
        0 <= upto <= edges.len(),
    ensures
        ({
            let start = forward.offsets@[u] as int;
            let end = forward.offsets@[u + 1] as int;
            let found = edges_out(edges, u, upto);
            &&& found.len() == (if upto <= start {
                0
            } else if upto < end {
                upto - start
            } else {
                end - start
            })
            &&& forall|i: int| 0 <= i < found.len() ==> found[i] == start + i
        }),
    decreases upto,
{
    assert(forward.offsets@[u] <= forward.offsets@[u + 1]);
    if upto > 0 {
        out_is_run(forward, nodes, edges, u, upto - 1);
        run_is(forward, nodes, edges, upto - 1, u);
    }
}

impl<'m> Graph<'m> {
    /// The metadata this graph was built from.
    #[must_use]
    pub fn meta(&self) -> (meta: &'m Meta)
        requires
            self.wf(),
        ensures
            *meta == self@.meta,
    {
        self.meta
    }

    /// Number of nodes (= `packages[]` entries).
    #[must_use]
    pub fn node_count(&self) -> (count: u32)
        requires
            self.wf(),
        ensures
            count == self@.count(),
    {
        self.meta.packages.len() as u32
    }

    /// Number of normal edges.
    #[must_use]
    pub fn edge_count(&self) -> (count: u32)
        requires
            self.wf(),
        ensures
            count == self@.edges.len(),
    {
        self.forward.adj.len() as u32
    }

    /// Number of distinct package names.
    #[must_use]
    pub fn name_count(&self) -> (count: u32)
        requires
            self.wf(),
        ensures
            count == self@.names.len(),
    {
        self.names.len() as u32
    }

    /// The graph-size counters plus `unrebased_path_deps` from the metadata.
    ///
    /// `superset_extra_edges` is a traversal property: read it from
    /// [`Scratch::superset_extra_edges`] after the rule pass. The rule counters
    /// stay zero here.
    #[must_use]
    pub fn counters(&self) -> (counters: Counters)
        requires
            self.wf(),
        ensures
            counters == (Counters {
                packages: self@.count() as u32,
                members: self@.members.len() as u32,
                normal_edges: self@.edges.len() as u32,
                names: self@.names.len() as u32,
                superset_extra_edges: 0,
                direct_optional_decls: 0,
                unrebased_path_deps: self@.meta.unrebased_path_deps,
                rules: 0,
                violations: 0,
                matches: 0,
            }),
    {
        Counters {
            packages: self.node_count(),
            members: self.members.len() as u32,
            normal_edges: self.edge_count(),
            names: self.name_count(),
            superset_extra_edges: 0,
            direct_optional_decls: 0,
            unrebased_path_deps: self.meta.unrebased_path_deps,
            rules: 0,
            violations: 0,
            matches: 0,
        }
    }

    /// The `packages[]` entry of `node`.
    #[must_use]
    pub fn package(&self, node: u32) -> (package: &'m Pkg)
        requires
            self.wf(),
            node < self@.count(),
        ensures
            *package == self@.meta.packages@[node as int],
    {
        &self.meta.packages[node as usize]
    }

    /// The `resolve.nodes[]` entry of `node`.
    #[must_use]
    pub fn resolve_node(&self, node: u32) -> (entry: &'m Node)
        requires
            self.wf(),
            node < self@.count(),
        ensures
            *entry == self@.nodes[node as int],
    {
        self.resolve_nodes[node as usize]
    }

    /// The package name of `node`.
    #[must_use]
    pub fn name(&self, node: u32) -> (name: &'m str)
        requires
            self.wf(),
            node < self@.count(),
        ensures
            name@ == self@.name(node as int),
    {
        self.meta.packages[node as usize].name.as_str()
    }

    /// The package version of `node`.
    #[must_use]
    pub fn version(&self, node: u32) -> (version: &'m str)
        requires
            self.wf(),
            node < self@.count(),
        ensures
            version@ == self@.version(node as int),
    {
        self.meta.packages[node as usize].version.as_str()
    }

    /// The (possibly rebased) manifest path of `node`.
    #[must_use]
    pub fn manifest_path(&self, node: u32) -> (path: &'m str)
        requires
            self.wf(),
            node < self@.count(),
        ensures
            path@ == self@.meta.packages@[node as int].manifest_path@,
    {
        self.meta.packages[node as usize].manifest_path.as_str()
    }

    /// The name id of `node`.
    #[must_use]
    pub fn name_id(&self, node: u32) -> (name: u32)
        requires
            self.wf(),
            node < self@.count(),
        ensures
            name == self@.name_of[node as int],
            name < self@.names.len(),
    {
        assert(self@.name_of[node as int] < self@.names.len());
        assert(self.node_to_name@[node as int] == self@.name_of[node as int]);
        self.node_to_name[node as usize]
    }

    /// The `node → name id` projection, indexed by node.
    #[must_use]
    pub fn node_to_name(&self) -> (names: &Vec<u32>)
        requires
            self.wf(),
        ensures
            lists(names@, self@.name_of),
    {
        &self.node_to_name
    }

    /// The name with id `name`.
    #[must_use]
    pub fn name_str(&self, name: u32) -> (text: &'m str)
        requires
            self.wf(),
            name < self@.names.len(),
        ensures
            text@ == self@.names[name as int],
    {
        assert(self.names@[name as int]@ == self@.names[name as int]);
        self.names[name as usize]
    }

    /// All names, indexed by name id.
    #[must_use]
    pub fn names(&self) -> (names: &Vec<&'m str>)
        requires
            self.wf(),
        ensures
            names@.len() == self@.names.len(),
            forall|i: int|
                #![trigger names@[i]]
                0 <= i < names@.len() ==> names@[i]@ == self@.names[i],
    {
        &self.names
    }

    /// Looks a package name up; `None` when no package in the resolve has it.
    #[must_use]
    pub fn lookup_name(&self, name: &str) -> (id: Option<u32>)
        requires
            self.wf(),
        ensures
            match id {
                Some(id) => id < self@.names.len() && self@.names[id as int] == name@,
                None => !self@.names.contains(name@),
            },
    {
        let id = index::get(&self.name_ids, name);
        proof {
            if id is None && self@.names.contains(name@) {
                let i = choose|i: int| 0 <= i < self@.names.len() && self@.names[i] == name@;
                assert(index::entries(self.name_ids).dom().contains(self@.names[i]));
            }
        }
        id
    }

    /// The nodes (versions) carrying name id `name`, in node order.
    #[must_use]
    pub fn nodes_of_name(&self, name: u32) -> (nodes: &[u32])
        requires
            self.wf(),
            name < self@.names.len(),
        ensures
            lists(nodes@, self@.named(name as int)),
    {
        let ghost keys = self.node_to_name@;
        let ghost count = self@.names.len() as int;
        proof {
            buckets::offsets_are_below(
                keys,
                count,
                self.name_offsets@,
                self.nodes_by_name@,
                name as int,
            );
            named_as_grouped(keys, self@.name_of, name as int, keys.len() as int);
            assert(self.name_offsets@[name as int] + bucket(keys, name as int).len()
                == self.name_offsets@[name + 1]);
        }
        let len: usize = self.name_offsets.len();
        assert(name < len);
        let start: usize = self.name_offsets[name as usize] as usize;
        let end: usize = self.name_offsets[name as usize + 1] as usize;
        let nodes = slice_subrange(self.nodes_by_name.as_slice(), start, end);
        proof {
            assert forall|i: int| #![trigger nodes@[i]] 0 <= i < nodes@.len() implies nodes@[i]
                == self@.named(name as int)[i] by {
                assert(nodes@[i] == self.nodes_by_name@[start + i]);
                assert(self.nodes_by_name@[self.name_offsets@[name as int] + i] == bucket(
                    keys,
                    name as int,
                )[i]);
            }
        }
        nodes
    }

    /// Workspace member nodes in `workspace_members` order (duplicates dropped).
    #[must_use]
    pub fn members(&self) -> (members: &Vec<u32>)
        requires
            self.wf(),
        ensures
            lists(members@, self@.members),
    {
        &self.members
    }

    /// Whether `node` is a workspace member.
    #[must_use]
    pub fn is_member(&self, node: u32) -> (member: bool)
        requires
            self.wf(),
        ensures
            member == self@.members.contains(node as int),
    {
        proof {
            if self@.members.contains(node as int) {
                let i = choose|i: int|
                    0 <= i < self@.members.len() && self@.members[i] == node as int;
                assert(0 <= self@.members[i] < self@.count());
            }
        }
        bits::contains(&self.is_member, node as usize)
    }

    /// The direct normal dependencies of `node`, as nodes.
    #[must_use]
    pub fn direct_nodes(&self, node: u32) -> (nodes: &[u32])
        requires
            self.wf(),
            node < self@.count(),
        ensures
            lists(nodes@, self@.direct(node as int)),
    {
        let (start, end) = self.forward.range(node as usize);
        proof {
            out_is_run(
                self.forward,
                self@.count(),
                self@.edges,
                node as int,
                self@.edges.len() as int,
            );
            assert(self.forward.offsets@[node + 1] <= self.forward.offsets@[self@.count()]);
        }
        let nodes = slice_subrange(self.forward.adj.as_slice(), start, end);
        proof {
            assert forall|i: int| #![trigger nodes@[i]] 0 <= i < nodes@.len() implies nodes@[i]
                == self@.direct(node as int)[i] by {
                assert(nodes@[i] == self.forward.adj@[start + i]);
                assert(self@.out(node as int)[i] == start + i);
                assert(self.forward.adj@[start + i] == self@.edges[start + i].to);
            }
        }
        nodes
    }

    /// The direct normal dependencies of `node`, projected to name ids.
    ///
    /// Two versions of one name yield the same id twice; callers treat the result
    /// as a set.
    #[must_use]
    pub fn direct(&self, node: u32) -> (names: Vec<u32>)
        requires
            self.wf(),
            node < self@.count(),
        ensures
            lists(names@, self@.direct(node as int).map_values(|to: int| self@.name_of[to])),
    {
        let nodes = self.direct_nodes(node);
        let mut names: Vec<u32> = Vec::new();
        let mut at: usize = 0;
        proof {
            self.direct_are_nodes(node as int);
        }
        while at < nodes.len()
            invariant
                self.wf(),
                at <= nodes@.len(),
                lists(nodes@, self@.direct(node as int)),
                forall|i: int|
                    0 <= i < self@.direct(node as int).len() ==> 0 <= #[trigger] self@.direct(
                        node as int,
                    )[i] < self@.count(),
                names@.len() == at,
                forall|i: int|
                    #![trigger names@[i]]
                    0 <= i < at ==> names@[i] == self@.name_of[self@.direct(node as int)[i]],
            decreases nodes@.len() - at,
        {
            assert(nodes@[at as int] == self@.direct(node as int)[at as int]);
            names.push(self.name_id(nodes[at]));
            at = at + 1;
        }
        names
    }

    /// The direct dependencies of a node are nodes.
    pub proof fn direct_are_nodes(&self, node: int)
        requires
            self.wf(),
            0 <= node < self@.count(),
        ensures
            forall|i: int|
                0 <= i < self@.direct(node).len() ==> 0 <= #[trigger] self@.direct(node)[i]
                    < self@.count(),
    {
        out_is_run(self.forward, self@.count(), self@.edges, node, self@.edges.len() as int);
        assert forall|i: int| 0 <= i < self@.direct(node).len() implies 0 <= #[trigger] self@.direct(
            node,
        )[i] < self@.count() by {
            assert(self@.out(node)[i] == self.forward.offsets@[node] + i);
            assert(self.forward.offsets@[node + 1] <= self.forward.offsets@[self@.count()]);
            let e = self@.out(node)[i];
            assert(0 <= self@.edges[e].to < self@.count());
        }
    }

    /// The numbers of the edges leaving `node`.
    #[must_use]
    pub fn edges_from(&self, node: u32) -> (edges: std::ops::Range<u32>)
        requires
            self.wf(),
            node < self@.count(),
        ensures
            edges.start <= edges.end <= self@.edges.len(),
            forall|e: int|
                #![trigger self@.edges[e]]
                edges.start <= e < edges.end <==> 0 <= e < self@.edges.len() && self@.edges[e].from
                    == node,
            self@.out(node as int) == Seq::new(
                (edges.end - edges.start) as nat,
                |i: int| edges.start + i,
            ),
    {
        let (start, end) = self.forward.range(node as usize);
        proof {
            assert(self.forward.offsets@[node as int] <= self.forward.offsets@[node + 1]);
            assert(self.forward.offsets@[node + 1] <= self.forward.offsets@[self@.count()]);
            assert forall|e: int|
                #![trigger self@.edges[e]]
                start <= e < end <==> 0 <= e < self@.edges.len() && self@.edges[e].from == node by {
                if 0 <= e < self@.edges.len() {
                    run_is(self.forward, self@.count(), self@.edges, e, node as int);
                }
            }
            out_is_run(
                self.forward,
                self@.count(),
                self@.edges,
                node as int,
                self@.edges.len() as int,
            );
            assert(self@.out(node as int) =~= Seq::new(
                (end - start) as nat,
                |i: int| start + i,
            ));
        }
        start as u32..end as u32
    }

    /// The first edge `from → to`, if `to` is a direct normal dependency of `from`.
    #[must_use]
    pub fn edge_between(&self, from: u32, to: u32) -> (edge: Option<u32>)
        requires
            self.wf(),
            from < self@.count(),
        ensures
            match edge {
                Some(edge) => {
                    &&& self@.joined(edge as int, from as int, to as int)
                    &&& forall|e: int|
                        0 <= e < edge ==> !#[trigger] self@.joined(e, from as int, to as int)
                },
                None => forall|e: int| !#[trigger] self@.joined(e, from as int, to as int),
            },
    {
        let (start, end) = self.forward.range(from as usize);
        assert(self.forward.offsets@[from + 1] <= self.forward.offsets@[self@.count()]);
        let mut edge: usize = start;
        proof {
            assert forall|e: int| 0 <= e < start implies !#[trigger] self@.joined(
                e,
                from as int,
                to as int,
            ) by {
                if e < self@.edges.len() {
                    run_is(self.forward, self@.count(), self@.edges, e, from as int);
                }
            }
        }
        while edge < end
            invariant
                self.wf(),
                from < self@.count(),
                start == self.forward.offsets@[from as int],
                start <= edge,
                end == self.forward.offsets@[from + 1] <= self@.edges.len(),
                forall|e: int|
                    0 <= e < edge ==> !#[trigger] self@.joined(e, from as int, to as int),
            decreases end - edge,
        {
            proof {
                run_is(self.forward, self@.count(), self@.edges, edge as int, from as int);
            }
            assert(self.forward.adj@[edge as int] == self@.edges[edge as int].to);
            if self.forward.adj[edge] == to {
                assert(self@.joined(edge as int, from as int, to as int));
                return Some(edge as u32);
            }
            edge = edge + 1;
        }
        proof {
            assert forall|e: int| !#[trigger] self@.joined(e, from as int, to as int) by {
                if edge <= e < self@.edges.len() {
                    run_is(self.forward, self@.count(), self@.edges, e, from as int);
                }
            }
        }
        None
    }

    /// The node `edge` points to.
    #[must_use]
    pub fn edge_target(&self, edge: u32) -> (to: u32)
        requires
            self.wf(),
            edge < self@.edges.len(),
        ensures
            to == self@.edges[edge as int].to,
            to < self@.count(),
    {
        assert(self.forward.adj@[edge as int] == self@.edges[edge as int].to);
        self.forward.adj[edge as usize]
    }

    /// The node `edge` leaves; a binary search of the offsets table. What lies behind the last edge
    /// leaves the node behind the last.
    #[must_use]
    pub fn edge_source(&self, edge: u32) -> (from: u32)
        requires
            self.wf(),
        ensures
            edge < self@.edges.len() ==> from == self@.edges[edge as int].from && from
                < self@.count(),
            edge >= self@.edges.len() ==> from == self@.count(),
    {
        if edge >= self.edge_count() {
            return self.node_count();
        }
        let ghost offsets = self.forward.offsets@;
        let ghost from = self@.edges[edge as int].from;
        assert(offsets[from] <= edge < offsets[from + 1]);
        // `offsets[low] <= edge < offsets[high]` throughout.
        let mut low: usize = 0;
        let mut high: usize = self.meta.packages.len();
        while high - low > 1
            invariant
                self.wf(),
                offsets == self.forward.offsets@,
                edge < self@.edges.len(),
                from == self@.edges[edge as int].from,
                offsets[from] <= edge < offsets[from + 1],
                0 <= low <= from < high <= self@.count(),
            decreases high - low,
        {
            let middle: usize = low + (high - low) / 2;
            if self.forward.offsets[middle] <= edge {
                assert(from >= middle) by {
                    if from < middle {
                        assert(offsets[from + 1] <= offsets[middle as int]);
                    }
                }
                low = middle;
            } else {
                assert(from < middle) by {
                    if from >= middle {
                        assert(offsets[middle as int] <= offsets[from]);
                    }
                }
                high = middle;
            }
        }
        low as u32
    }

    /// Whether every normal `dep_kinds` entry of `edge` is platform-conditional.
    #[must_use]
    pub fn edge_is_cfg_only(&self, edge: u32) -> (cfg_only: bool)
        requires
            self.wf(),
        ensures
            cfg_only == (edge < self@.edges.len() && is_cfg_only(self@.edges[edge as int].dep)),
    {
        bits::contains(&self.edge_cfg_only, edge as usize)
    }

    /// Whether `edge` leaves a workspace member that declares the target's name
    /// `optional = true` — the precomputed answer of [`Graph::edge_declared_optional`]
    /// for member out-edges; always `false` for a non-member source.
    #[must_use]
    pub fn edge_is_member_optional(&self, edge: u32) -> (optional: bool)
        requires
            self.wf(),
        ensures
            optional == (edge < self@.edges.len() && self@.members.contains(
                self@.edges[edge as int].from,
            ) && self@.optional_edge(edge as int)),
    {
        proof {
            if edge < self@.edges.len() {
                self.member_optional_is(edge as int);
            }
        }
        bits::contains(&self.edge_member_optional, edge as usize)
    }

    proof fn member_optional_is(&self, edge: int)
        requires
            self.wf(),
            0 <= edge < self@.edges.len(),
        ensures
            bits::ones(self.edge_member_optional).contains(edge) == (self@.members.contains(
                self@.edges[edge].from,
            ) && self@.optional_edge(edge)),
    {
        let from = self@.edges[edge].from;
        if self@.members.contains(from) {
            let i = choose|i: int| 0 <= i < self@.members.len() && self@.members[i] == from;
            assert(self@.members[i] == from);
        }
    }

    /// Whether the source package of `edge` declares the target's name optional
    /// under *every* normal declaration of it, member or not.
    ///
    /// A name declared required in one table and optional in another
    /// (`[dependencies]` versus `[target.'cfg(…)'.dependencies]`) is unconditionally
    /// present, so it is *not* optional.
    ///
    /// # Errors
    ///
    /// Returns [`Error::CargoMetadataUnparseable`] when the source's `dependencies` cannot be
    /// decoded.
    pub fn edge_declared_optional(&self, edge: u32) -> (optional: Result<bool, Error>)
        requires
            self.wf(),
            edge < self@.edges.len(),
        ensures
            match self@.meta.packages@[self@.edges[edge as int].from].dependencies {
                Decoded::Value(_) => optional == Ok::<bool, Error>(
                    self@.optional_edge(edge as int),
                ),
                Decoded::Malformed(cause) => optional is Err && optional->Err_0@
                    == (ErrorView::CargoMetadataUnparseable { cause: cause@ }),
            },
    {
        let declared = match self.declared_deps(self.edge_source(edge)) {
            Ok(declared) => declared,
            Err(error) => return Err(error),
        };
        let to = self.edge_target(edge);
        Ok(is_declared_optional(declared, self.name(to)))
    }

    /// The `dep_kinds` of `edge`, as the document has them.
    #[must_use]
    pub fn edge_dep_kinds(&self, edge: u32) -> (kinds: &'m Option<Decoded<Vec<KindEntry>>>)
        requires
            self.wf(),
            edge < self@.edges.len(),
        ensures
            *kinds == self@.edges[edge as int].dep.dep_kinds,
    {
        assert(*self.edge_deps@[edge as int] == self@.edges[edge as int].dep);
        &self.edge_deps[edge as usize].dep_kinds
    }

    /// The `deps[].name` of `edge`: the dependency's **library target** name, renamed if
    /// the declaration renamed it, or `None` on a document that predates the field.
    ///
    /// It is not the package name — `md-5` is reported as `md5` — so this only ever
    /// distinguishes two edges of one source, never identifies a package.
    #[must_use]
    pub fn edge_extern_name(&self, edge: u32) -> (name: Option<&'m str>)
        requires
            self.wf(),
            edge < self@.edges.len(),
        ensures
            match self@.edges[edge as int].dep.name {
                Some(text) => name is Some && name->0@ == text@,
                None => name is None,
            },
    {
        assert(*self.edge_deps@[edge as int] == self@.edges[edge as int].dep);
        match &self.edge_deps[edge as usize].name {
            Some(name) => Some(name.as_str()),
            None => None,
        }
    }

    /// The `dep_kinds` entries of `edge`.
    #[must_use]
    pub fn edge_kinds(&self, edge: u32) -> (kinds: &'m Vec<KindEntry>)
        requires
            self.wf(),
            edge < self@.edges.len(),
        ensures
            self@.edges[edge as int].dep.dep_kinds == Some(Decoded::Value(*kinds)),
    {
        assert(*self.edge_deps@[edge as int] == self@.edges[edge as int].dep);
        match &self.edge_deps[edge as usize].dep_kinds {
            Some(Decoded::Value(kinds)) => kinds,
            _ => {
                assert(false);
                vstd::pervasive::unreached()
            },
        }
    }

    /// The declared `dependencies` of `node` (all kinds, optional flags, targets).
    ///
    /// # Errors
    ///
    /// Returns [`Error::CargoMetadataUnparseable`] when they cannot be decoded.
    pub fn declared_deps(&self, node: u32) -> (declared: Result<&'m Vec<DeclaredDep>, Error>)
        requires
            self.wf(),
            node < self@.count(),
        ensures
            match self@.meta.packages@[node as int].dependencies {
                Decoded::Value(value) => declared == Ok::<&Vec<DeclaredDep>, Error>(&value),
                Decoded::Malformed(cause) => declared is Err && declared->Err_0@
                    == (ErrorView::CargoMetadataUnparseable { cause: cause@ }),
            },
    {
        match &self.meta.packages[node as usize].dependencies {
            Decoded::Value(declared) => Ok(declared),
            Decoded::Malformed(cause) => Err(
                Error::CargoMetadataUnparseable { cause: cause.as_str().to_owned() },
            ),
        }
    }
}


/// The numbers below `upto` of the edges that point to `node`.
pub open spec fn edges_in(edges: Seq<Edge>, node: int, upto: int) -> Seq<int>
    decreases upto,
{
    if upto <= 0 {
        Seq::empty()
    } else if edges[upto - 1].to == node {
        edges_in(edges, node, upto - 1).push(upto - 1)
    } else {
        edges_in(edges, node, upto - 1)
    }
}

proof fn edges_in_as_grouped(adj: Seq<u32>, edges: Seq<Edge>, node: int, upto: int)
    requires
        adj.len() == edges.len(),
        forall|e: int| #![trigger edges[e]] 0 <= e < edges.len() ==> adj[e] == edges[e].to,
        0 <= upto <= adj.len(),
    ensures
        edges_in(edges, node, upto) == buckets::positions(adj, node, upto),
    decreases upto,
{
    if upto > 0 {
        edges_in_as_grouped(adj, edges, node, upto - 1);
        assert(adj[upto - 1] == edges[upto - 1].to);
    }
}

impl GraphView {
    /// The nodes that directly depend on `node`, in the order of their edges.
    pub open spec fn dependents(self, node: int) -> Seq<int> {
        edges_in(self.edges, node, self.edges.len() as int).map_values(|e: int| self.edges[e].from)
    }
}

/// The forward edge at slot `slot` of an adjacency.
spec fn edge_at(forward_edge: Option<Seq<u32>>, slot: int) -> int {
    match forward_edge {
        Some(map) => map[slot] as int,
        None => slot,
    }
}

/// Whether the runs of `csr` are, for each node, the edges of `steps` out of it, by number.
#[verifier::opaque]
spec fn scans(csr: Csr, forward_edge: Option<Seq<u32>>, steps: Steps) -> bool {
    &&& steps.bounded()
    &&& cuts(csr.offsets@, steps.nodes, steps.edges.len() as int)
    &&& csr.adj@.len() == steps.edges.len()
    &&& forward_edge is Some ==> forward_edge->0.len() == steps.edges.len()
    &&& forall|u: int, k: int|
        #![trigger csr.offsets@[u], edge_at(forward_edge, k)]
        0 <= u < steps.nodes && csr.offsets@[u] <= k < csr.offsets@[u + 1] ==> 0 <= edge_at(
            forward_edge,
            k,
        ) < steps.edges.len() && steps.edges[edge_at(forward_edge, k)] == (u, csr.adj@[k] as int)
    &&& forall|u: int, k: int, l: int|
        #![trigger csr.offsets@[u], edge_at(forward_edge, k), edge_at(forward_edge, l)]
        0 <= u < steps.nodes && csr.offsets@[u] <= k < l < csr.offsets@[u + 1] ==> edge_at(
            forward_edge,
            k,
        ) < edge_at(forward_edge, l)
    &&& forall|e: int|
        #![trigger steps.edges[e]]
        0 <= e < steps.edges.len() ==> has_slot(csr, forward_edge, steps.edges[e].0, e)
}

/// Whether edge `e` has a slot in the run of node `u`.
spec fn has_slot(csr: Csr, forward_edge: Option<Seq<u32>>, u: int, e: int) -> bool {
    exists|k: int|
        csr.offsets@[u] <= k < csr.offsets@[u + 1] && #[trigger] edge_at(forward_edge, k) == e
}

/// What stands at a slot of the run of node `u`.
proof fn slot_is(csr: Csr, map: Option<Seq<u32>>, steps: Steps, u: int, k: int)
    requires
        scans(csr, map, steps),
        0 <= u < steps.nodes,
        csr.offsets@[u] <= k < csr.offsets@[u + 1],
    ensures
        0 <= edge_at(map, k) < steps.edges.len(),
        steps.edges[edge_at(map, k)] == (u, csr.adj@[k] as int),
        csr.adj@[k] < steps.nodes,
        forall|l: int|
            #![trigger edge_at(map, l)]
            k < l < csr.offsets@[u + 1] ==> edge_at(map, k) < edge_at(map, l),
{
    reveal(scans);
    let e = edge_at(map, k);
    assert(steps.edges[e] == (u, csr.adj@[k] as int));
    assert forall|l: int|
        #![trigger edge_at(map, l)]
        k < l < csr.offsets@[u + 1] implies edge_at(map, k) < edge_at(map, l) by {
        assert(csr.offsets@[u] <= k);
    }
}

/// The run of node `u`.
proof fn run_of(csr: Csr, map: Option<Seq<u32>>, steps: Steps, u: int)
    requires
        scans(csr, map, steps),
        0 <= u < steps.nodes,
    ensures
        csr.offsets@.len() == steps.nodes + 1,
        csr.adj@.len() == steps.edges.len(),
        map is Some ==> map->0.len() == steps.edges.len(),
        csr.offsets@[u] <= csr.offsets@[u + 1] <= steps.edges.len(),
        steps.bounded(),
{
    reveal(scans);
    assert(csr.offsets@[u + 1] <= csr.offsets@[steps.nodes]);
}

proof fn forward_scans(forward: Csr, view: GraphView, live: Set<int>)
    requires
        view.consistent(),
        lays_out(forward, view.count(), view.edges),
    ensures
        scans(forward, None, view.steps(live)),
{
    reveal(scans);
    let steps = view.steps(live);
    assert forall|e: int| 0 <= e < steps.edges.len() implies 0 <= (#[trigger] steps.edges[e]).0
        < steps.nodes && 0 <= steps.edges[e].1 < steps.nodes by {
        assert(0 <= view.edges[e].from < view.count());
    }
    assert forall|u: int, k: int|
        #![trigger forward.offsets@[u], edge_at(None, k)]
        0 <= u < steps.nodes && forward.offsets@[u] <= k < forward.offsets@[u + 1] implies 0
        <= edge_at(None, k) < steps.edges.len() && steps.edges[edge_at(None, k)] == (
        u,
        forward.adj@[k] as int,
    ) by {
        assert(forward.offsets@[u + 1] <= forward.offsets@[steps.nodes]);
        run_is(forward, view.count(), view.edges, k, u);
    }
    assert forall|e: int| #![trigger steps.edges[e]] 0 <= e < steps.edges.len() implies has_slot(
        forward,
        None,
        steps.edges[e].0,
        e,
    ) by {
        assert(edge_at(None, e) == e);
        assert(forward.offsets@[view.edges[e].from] <= e);
    }
}

/// What stands at a slot of a transposed adjacency.
proof fn transposed_slot(t: Transposed, adj: Seq<u32>, view: GraphView, u: int, k: int)
    requires
        mirrors(t, view.count(), adj, view.edges),
        adj.len() == view.edges.len(),
        0 <= u < view.count(),
        t.csr.offsets@[u] <= k < t.csr.offsets@[u + 1],
    ensures
        0 <= k < adj.len(),
        0 <= k - t.csr.offsets@[u] < bucket(adj, u).len(),
        t.forward_edge@[k] == bucket(adj, u)[k - t.csr.offsets@[u]],
        0 <= t.forward_edge@[k] < adj.len(),
        adj[t.forward_edge@[k] as int] == u,
        t.csr.adj@[k] == view.edges[t.forward_edge@[k] as int].from,
{
    let offsets = t.csr.offsets@;
    let found = bucket(adj, u);
    let i = k - offsets[u];
    assert(offsets[u] + found.len() == offsets[u + 1]);
    buckets::offsets_are_below(adj, view.count(), offsets, t.forward_edge@, u);
    buckets::positions_are(adj, u, adj.len() as int);
    assert(t.forward_edge@[offsets[u] + i] == found[i]);
    assert(t.csr.adj@[k] == view.edges[t.forward_edge@[k] as int].from);
}

proof fn transposed_has_slot(t: Transposed, adj: Seq<u32>, view: GraphView, e: int)
    requires
        mirrors(t, view.count(), adj, view.edges),
        adj.len() == view.edges.len(),
        0 <= e < adj.len(),
        0 <= adj[e] < view.count(),
    ensures
        has_slot(t.csr, Some(t.forward_edge@), adj[e] as int, e),
{
    let offsets = t.csr.offsets@;
    let u = adj[e] as int;
    let found = bucket(adj, u);
    buckets::positions_are(adj, u, adj.len() as int);
    assert(found.contains(e));
    let i = choose|i: int| 0 <= i < found.len() && found[i] == e;
    assert(offsets[u] + found.len() == offsets[u + 1]);
    assert(t.forward_edge@[offsets[u] + i] == found[i]);
    assert(edge_at(Some(t.forward_edge@), offsets[u] + i) == e);
}

proof fn transposed_scans(t: Transposed, adj: Seq<u32>, view: GraphView)
    requires
        view.consistent(),
        mirrors(t, view.count(), adj, view.edges),
        adj.len() == view.edges.len(),
        forall|e: int| #![trigger view.edges[e]] 0 <= e < view.edges.len() ==> adj[e]
            == view.edges[e].to,
    ensures
        scans(t.csr, Some(t.forward_edge@), view.backward()),
{
    reveal(scans);
    let steps = view.backward();
    let map = Some(t.forward_edge@);
    let n = view.count();
    let offsets = t.csr.offsets@;
    assert forall|e: int| 0 <= e < steps.edges.len() implies 0 <= (#[trigger] steps.edges[e]).0
        < steps.nodes && 0 <= steps.edges[e].1 < steps.nodes by {
        assert(0 <= view.edges[e].from < view.count());
    }
    assert(cuts(offsets, n, steps.edges.len() as int)) by {
        assert forall|u: int, v: int| 0 <= u <= v <= n implies offsets[u] <= offsets[v] by {
            buckets::offsets_climb_between(adj, n, offsets, t.forward_edge@, u, v);
        }
    }
    assert forall|u: int, k: int|
        #![trigger t.csr.offsets@[u], edge_at(map, k)]
        0 <= u < steps.nodes && offsets[u] <= k < offsets[u + 1] implies 0 <= edge_at(map, k)
        < steps.edges.len() && steps.edges[edge_at(map, k)] == (u, t.csr.adj@[k] as int) by {
        transposed_slot(t, adj, view, u, k);
        assert(adj[edge_at(map, k)] == view.edges[edge_at(map, k)].to);
    }
    assert forall|u: int, k: int, l: int|
        #![trigger t.csr.offsets@[u], edge_at(map, k), edge_at(map, l)]
        0 <= u < steps.nodes && offsets[u] <= k < l < offsets[u + 1] implies edge_at(map, k)
        < edge_at(map, l) by {
        transposed_slot(t, adj, view, u, k);
        transposed_slot(t, adj, view, u, l);
        buckets::positions_are(adj, u, adj.len() as int);
    }
    assert forall|e: int| #![trigger steps.edges[e]] 0 <= e < steps.edges.len() implies has_slot(
        t.csr,
        map,
        steps.edges[e].0,
        e,
    ) by {
        assert(adj[e] == view.edges[e].to);
        assert(0 <= view.edges[e].to < n);
        transposed_has_slot(t, adj, view, e);
    }
}

/// Whether `i` is the position of the first node with name id `name`.
pub open spec fn first_named(order: Seq<int>, name_of: Seq<int>, name: int, i: int) -> bool {
    &&& 0 <= i < order.len()
    &&& name_of[order[i]] == name
    &&& forall|j: int| 0 <= j < i ==> name_of[#[trigger] order[j]] != name
}

/// Whether some node of `order` has name id `name`.
pub open spec fn names_node(order: Seq<int>, name_of: Seq<int>, name: int) -> bool {
    exists|i: int| first_named(order, name_of, name, i)
}

/// A name that some node of `order` has, has a first node.
pub proof fn named_has_first(order: Seq<int>, name_of: Seq<int>, name: int, at: int)
    requires
        0 <= at < order.len(),
        name_of[order[at]] == name,
    ensures
        names_node(order, name_of, name),
    decreases at,
{
    if forall|j: int| 0 <= j < at ==> name_of[#[trigger] order[j]] != name {
        assert(first_named(order, name_of, name, at));
    } else {
        let j = choose|j: int| 0 <= j < at && name_of[#[trigger] order[j]] == name;
        named_has_first(order, name_of, name, j);
    }
}

/// Reusable traversal state; allocate once per run with [`Scratch::new`].
pub struct Scratch {
    visited: FixedBitSet,
    reach: FixedBitSet,
    parent: Vec<u32>,
    first_node: Vec<u32>,
    queue: Vec<u32>,
    extra: FixedBitSet,
    traversals: u32,
    nanos: u64,
    trail: Ghost<Trail>,
    steps: Ghost<Steps>,
}

impl Scratch {
    /// Whether the state has the dimensions of `view`.
    pub closed spec fn fits(&self, view: GraphView) -> bool {
        &&& bits::capacity(self.visited) == view.count()
        &&& bits::capacity(self.reach) == view.names.len()
        &&& self.parent@.len() == view.count()
        &&& self.first_node@.len() == view.names.len()
        &&& bits::capacity(self.extra) == view.edges.len()
    }

    /// Whether the parts of the state have dimensions that some graph has.
    pub closed spec fn wf(&self) -> bool {
        &&& bits::capacity(self.visited) == self.parent@.len()
        &&& bits::capacity(self.reach) == self.first_node@.len()
        &&& bits::capacity(self.extra) <= u32::MAX
        &&& bits::ones(self.extra).finite()
        &&& forall|e: int|
            #[trigger] bits::ones(self.extra).contains(e) ==> 0 <= e < bits::capacity(self.extra)
    }

    /// The superset edges traversed since the last [`Scratch::reset_extra`].
    pub closed spec fn extra_edges(&self) -> Set<int> {
        bits::ones(self.extra)
    }

    /// The number of traversals so far, as far as it can be counted.
    pub closed spec fn runs(&self) -> u32 {
        self.traversals
    }

    /// The nanoseconds that traversals have taken so far, as far as they can be counted.
    pub closed spec fn spent(&self) -> u64 {
        self.nanos
    }

    /// The state with `nanos` more counted, and nothing else changed.
    pub closed spec fn later(self, nanos: u64) -> Scratch {
        Scratch { nanos: longer(self.nanos, nanos), ..self }
    }

    /// Whether the state records `trail`.
    spec fn records(&self, view: GraphView, trail: Trail) -> bool {
        &&& self.fits(view)
        &&& lists(self.queue@, trail.order)
        &&& forall|u: int|
            #[trigger] bits::ones(self.visited).contains(u) <==> trail.order.contains(u)
        &&& forall|i: int|
            #![trigger trail.order[i]]
            0 <= i < trail.order.len() ==> 0 <= trail.order[i] < view.count()
                && self.parent@[trail.order[i]] == trail.order[trail.from[i]]
        &&& forall|name: int|
            #[trigger] bits::ones(self.reach).contains(name) <==> names_node(
                trail.order,
                view.name_of,
                name,
            )
        &&& forall|name: int, i: int|
            #[trigger] first_named(trail.order, view.name_of, name, i) ==> self.first_node@[name]
                == trail.order[i]
    }

    /// Allocates traversal state sized for `graph`.
    #[must_use]
    pub fn new(graph: &Graph<'_>) -> (scratch: Scratch)
        requires
            graph.wf(),
        ensures
            scratch.wf(),
            scratch.fits(graph@),
            scratch.extra_edges() == Set::<int>::empty(),
            scratch.runs() == 0,
            scratch.spent() == 0,
    {
        let nodes: usize = graph.meta.packages.len();
        let names: usize = graph.names.len();
        let mut parent: Vec<u32> = Vec::new();
        parent.resize(nodes, u32::MAX);
        let mut first_node: Vec<u32> = Vec::new();
        first_node.resize(names, u32::MAX);
        Scratch {
            visited: bits::with_capacity(nodes),
            reach: bits::with_capacity(names),
            parent,
            first_node,
            queue: Vec::new(),
            extra: bits::with_capacity(graph.forward.adj.len()),
            traversals: 0,
            nanos: 0,
            trail: Ghost(Trail { order: Seq::empty(), from: Seq::empty(), via: Seq::empty() }),
            steps: Ghost(graph@.forward()),
        }
    }

    /// Resizes the state to exactly `graph`'s dimensions when it was allocated for a
    /// different graph, growing or shrinking, so [`Reach::nodes`] and
    /// [`Reach::names`] never carry a stale length. The superset union is reallocated
    /// whenever any dimension changes: its edge ids belong to one graph (a different graph
    /// with identical node, name and edge counts is indistinguishable here — reuse a
    /// scratch across graphs only after [`Scratch::reset_extra`]).
    fn prepare(&mut self, graph: &Graph<'_>)
        requires
            graph.wf(),
            old(self).wf(),
        ensures
            final(self).wf(),
            final(self).fits(graph@),
            final(self).runs() == old(self).runs(),
            final(self).spent() == old(self).spent(),
            final(self).extra_edges() == (if old(self).fits(graph@) {
                old(self).extra_edges()
            } else {
                Set::<int>::empty()
            }),
    {
        let nodes: usize = graph.meta.packages.len();
        let names: usize = graph.names.len();
        let edges: usize = graph.forward.adj.len();
        if self.parent.len() == nodes && self.first_node.len() == names && bits::len(&self.extra)
            == edges {
            return ;
        }
        self.visited = bits::with_capacity(nodes);
        let mut parent: Vec<u32> = Vec::new();
        parent.resize(nodes, u32::MAX);
        self.parent = parent;
        self.reach = bits::with_capacity(names);
        let mut first_node: Vec<u32> = Vec::new();
        first_node.resize(names, u32::MAX);
        self.first_node = first_node;
        self.extra = bits::with_capacity(edges);
    }

    /// Records that the root of a traversal was found.
    fn start(&mut self, graph: &Graph<'_>, root: u32)
        requires
            graph.wf(),
            old(self).fits(graph@),
            root < graph@.count(),
        ensures
            final(self).records(
                graph@,
                Trail { order: seq![root as int], from: seq![0int], via: seq![0int] },
            ),
            final(self).extra == old(self).extra,
            final(self).traversals == old(self).traversals,
            final(self).nanos == old(self).nanos,
    {
        bits::clear(&mut self.visited);
        bits::clear(&mut self.reach);
        self.queue.clear();
        let name = graph.name_id(root);
        bits::insert(&mut self.visited, root as usize);
        self.parent.set(root as usize, root);
        bits::insert(&mut self.reach, name as usize);
        self.first_node.set(name as usize, root);
        self.queue.push(root);
        proof {
            let order = seq![root as int];
            let name_of = graph@.name_of;
            assert(order[0] == root);
            assert forall|u: int| #[trigger] bits::ones(self.visited).contains(u)
                <==> order.contains(u) by {
                assert(order.contains(root as int));
            }
            assert forall|n: int| #[trigger] bits::ones(self.reach).contains(n) <==> names_node(
                order,
                name_of,
                n,
            ) by {
                if n == name {
                    assert(first_named(order, name_of, n, 0));
                }
                if names_node(order, name_of, n) {
                    let i = choose|i: int| first_named(order, name_of, n, i);
                    assert(order[i] == root);
                }
            }
            assert forall|n: int, i: int| #[trigger] first_named(order, name_of, n, i) implies
                self.first_node@[n] == order[i] by {
                assert(order[i] == root);
            }
        }
    }

    /// Records that `to` was found from `from`, unless it was found before.
    fn enter(
        &mut self,
        graph: &Graph<'_>,
        to: u32,
        from: u32,
        Ghost(trail): Ghost<Trail>,
        Ghost(at): Ghost<int>,
        Ghost(via): Ghost<int>,
    ) -> (entered: bool)
        requires
            graph.wf(),
            old(self).records(graph@, trail),
            trail.order.len() == trail.from.len() == trail.via.len(),
            trail.order.no_duplicates(),
            forall|i: int|
                0 <= i < trail.order.len() ==> 0 <= #[trigger] trail.from[i] < trail.order.len(),
            0 <= at < trail.order.len(),
            trail.order[at] == from,
            to < graph@.count(),
        ensures
            entered == !trail.order.contains(to as int),
            final(self).records(
                graph@,
                if entered {
                    Trail {
                        order: trail.order.push(to as int),
                        from: trail.from.push(at),
                        via: trail.via.push(via),
                    }
                } else {
                    trail
                },
            ),
            final(self).extra == old(self).extra,
            final(self).traversals == old(self).traversals,
            final(self).nanos == old(self).nanos,
    {
        if bits::put(&mut self.visited, to as usize) {
            assert(bits::ones(self.visited) =~= bits::ones(old(self).visited));
            return false;
        }
        let name = graph.name_id(to);
        self.parent.set(to as usize, from);
        let ghost was_named = bits::ones(self.reach).contains(name as int);
        if !bits::put(&mut self.reach, name as usize) {
            self.first_node.set(name as usize, to);
        }
        self.queue.push(to);
        proof {
            let order = trail.order;
            let now = order.push(to as int);
            let name_of = graph@.name_of;
            let new = Trail {
                order: now,
                from: trail.from.push(at),
                via: trail.via.push(via),
            };
            assert(now[order.len() as int] == to);
            assert forall|u: int| #[trigger] bits::ones(self.visited).contains(u) <==> now.contains(
                u,
            ) by {
                if order.contains(u) {
                    let i = choose|i: int| 0 <= i < order.len() && order[i] == u;
                    assert(now[i] == u);
                }
                if now.contains(u) && u != to {
                    let i = choose|i: int| 0 <= i < now.len() && now[i] == u;
                    assert(order[i] == u);
                }
            }
            assert forall|i: int| #![trigger new.order[i]] 0 <= i < new.order.len() implies 0
                <= new.order[i] < graph@.count() && self.parent@[new.order[i]]
                == new.order[new.from[i]] by {
                if i < order.len() {
                    assert(new.order[i] == order[i]);
                    assert(order.contains(order[i]));
                    assert(0 <= trail.from[i] < order.len());
                }
            }
            assert forall|n: int, i: int| #[trigger] first_named(now, name_of, n, i) implies
                self.first_node@[n] == now[i] by {
                if i < order.len() {
                    assert forall|j: int| 0 <= j < i implies name_of[#[trigger] order[j]] != n by {
                        assert(now[j] == order[j]);
                    }
                    assert(first_named(order, name_of, n, i));
                    assert(names_node(order, name_of, n));
                } else {
                    assert(n == name);
                    assert(!was_named) by {
                        if was_named {
                            assert(names_node(order, name_of, n));
                            let j = choose|j: int| first_named(order, name_of, n, j);
                            assert(now[j] == order[j]);
                        }
                    }
                }
            }
            assert forall|n: int| #[trigger] bits::ones(self.reach).contains(n) <==> names_node(
                now,
                name_of,
                n,
            ) by {
                if names_node(order, name_of, n) {
                    let i = choose|i: int| first_named(order, name_of, n, i);
                    assert(now[i] == order[i]);
                    named_has_first(now, name_of, n, i);
                }
                if n == name {
                    named_has_first(now, name_of, n, order.len() as int);
                }
                if names_node(now, name_of, n) && n != name {
                    let i = choose|i: int| first_named(now, name_of, n, i);
                    assert(now[i] == order[i]);
                    named_has_first(order, name_of, n, i);
                }
            }
        }
        true
    }

    /// Distinct cfg-only or member-optional edges traversed by any traversal since the
    /// last [`Scratch::reset_extra`] — the `superset_extra_edges` counter, a union
    /// over roots, never a sum.
    #[must_use]
    pub fn superset_extra_edges(&self) -> (count: u32)
        requires
            self.wf(),
        ensures
            count == self.extra_edges().len(),
    {
        bits::count_ones(&self.extra) as u32
    }

    /// Clears the superset-edge union so the next traversals start a fresh count.
    pub fn reset_extra(&mut self)
        requires
            old(self).wf(),
        ensures
            final(self).wf(),
            final(self).extra_edges() == Set::<int>::empty(),
            final(self).runs() == old(self).runs(),
            final(self).spent() == old(self).spent(),
            forall|view: GraphView| #[trigger] final(self).fits(view) == old(self).fits(view),
    {
        bits::clear(&mut self.extra);
    }

    /// Counts time that went into traversals.
    pub(crate) fn spend(&mut self, nanos: u64)
        ensures
            final(self).wf() == old(self).wf(),
            final(self).extra_edges() == old(self).extra_edges(),
            final(self).runs() == old(self).runs(),
            final(self).spent() == longer(old(self).spent(), nanos),
            forall|view: GraphView| #[trigger] final(self).fits(view) == old(self).fits(view),
            *final(self) == old(self).later(nanos),
    {
        self.nanos = self.nanos.saturating_add(nanos);
    }

    /// The nanoseconds that traversals have taken so far, by the clock.
    #[must_use]
    pub fn nanos(&self) -> (nanos: u64)
        ensures
            nanos == self.spent(),
    {
        self.nanos
    }

    /// Number of traversals performed so far.
    #[must_use]
    pub fn traversals(&self) -> (count: u32)
        ensures
            count == self.runs(),
    {
        self.traversals
    }
}

/// Which way the traversal that produced a [`Reach`] walked the edges.
#[derive(Clone, Copy, Debug, PartialEq, Eq, Structural)]
pub enum Direction {
    /// Dependencies of the root.
    Forward,
    /// Dependents of the root.
    Reverse,
}


/// Whether edge `e` leaves a node of `order` and was scanned.
spec fn was_seen(steps: Steps, order: Seq<int>, head: int, limit: int, e: int) -> bool {
    exists|k: int|
        0 <= k < order.len() && #[trigger] order[k] == steps.edges[e].0 && scanned(head, limit, k, e)
}

/// Whether `now` is `base` and the superset edges that were scanned.
#[verifier::opaque]
spec fn collects(
    now: Set<int>,
    base: Set<int>,
    view: GraphView,
    steps: Steps,
    order: Seq<int>,
    head: int,
    limit: int,
) -> bool {
    forall|e: int|
        #[trigger] now.contains(e) <==> base.contains(e) || (0 <= e < steps.edges.len()
            && steps.live.contains(e) && view.superset_edge(e) && was_seen(
            steps,
            order,
            head,
            limit,
            e,
        ))
}

/// No edge of node `u` lies between two neighbouring slots of its run.
proof fn no_edge_between(
    csr: Csr,
    map: Option<Seq<u32>>,
    steps: Steps,
    u: int,
    slot: int,
    limit: int,
    next: int,
)
    requires
        scans(csr, map, steps),
        0 <= u < steps.nodes,
        csr.offsets@[u] <= slot <= csr.offsets@[u + 1],
        0 <= limit,
        next <= steps.edges.len(),
        forall|l: int|
            #![trigger edge_at(map, l)]
            csr.offsets@[u] <= l < slot ==> edge_at(map, l) < limit,
        forall|l: int|
            #![trigger edge_at(map, l)]
            slot <= l < csr.offsets@[u + 1] ==> next <= edge_at(map, l),
    ensures
        forall|f: int| limit <= f < next ==> (#[trigger] steps.edges[f]).0 != u,
{
    reveal(scans);
    assert forall|f: int| limit <= f < next implies (#[trigger] steps.edges[f]).0 != u by {
        if steps.edges[f].0 == u {
            assert(has_slot(csr, map, u, f));
            let l = choose|l: int|
                csr.offsets@[u] <= l < csr.offsets@[u + 1] && #[trigger] edge_at(map, l) == f;
            assert(edge_at(map, l) == f);
        }
    }
}

/// Scanning edge `e` collects it if it is live and a superset edge.
proof fn collects_next(
    now: Set<int>,
    next: Set<int>,
    base: Set<int>,
    view: GraphView,
    steps: Steps,
    order: Seq<int>,
    grown: Seq<int>,
    head: int,
    limit: int,
    e: int,
)
    requires
        collects(now, base, view, steps, order, head, limit),
        0 <= head < order.len() <= grown.len(),
        forall|i: int| 0 <= i < order.len() ==> order[i] == grown[i],
        0 <= limit <= e < steps.edges.len(),
        steps.edges[e].0 == order[head],
        forall|f: int| limit <= f < e ==> (#[trigger] steps.edges[f]).0 != order[head],
        next == (if steps.live.contains(e) && view.superset_edge(e) {
            now.insert(e)
        } else {
            now
        }),
    ensures
        collects(next, base, view, steps, grown, head, e + 1),
{
    reveal(collects);
    assert forall|f: int|
        #[trigger] next.contains(f) <==> base.contains(f) || (0 <= f < steps.edges.len()
            && steps.live.contains(f) && view.superset_edge(f) && was_seen(
            steps,
            grown,
            head,
            e + 1,
            f,
        )) by {
        if 0 <= f < steps.edges.len() {
            if was_seen(steps, order, head, limit, f) {
                let k = choose|k: int|
                    0 <= k < order.len() && #[trigger] order[k] == steps.edges[f].0 && scanned(
                        head,
                        limit,
                        k,
                        f,
                    );
                assert(grown[k] == steps.edges[f].0);
                assert(scanned(head, e + 1, k, f));
                assert(was_seen(steps, grown, head, e + 1, f));
            }
            if f == e {
                assert(grown[head] == steps.edges[f].0);
                assert(was_seen(steps, grown, head, e + 1, f));
            } else if was_seen(steps, grown, head, e + 1, f) {
                let k = choose|k: int|
                    0 <= k < grown.len() && #[trigger] grown[k] == steps.edges[f].0 && scanned(
                        head,
                        e + 1,
                        k,
                        f,
                    );
                assert(order[k] == grown[k]);
                assert(scanned(head, limit, k, f));
                assert(was_seen(steps, order, head, limit, f));
            }
            assert(now.contains(f) == now.contains(f));
        }
    }
}

/// Going on to the next node collects nothing.
proof fn collects_on(
    now: Set<int>,
    base: Set<int>,
    view: GraphView,
    steps: Steps,
    order: Seq<int>,
    head: int,
    limit: int,
)
    requires
        collects(now, base, view, steps, order, head, limit),
        0 <= head < order.len(),
        0 <= limit,
        forall|f: int|
            limit <= f < steps.edges.len() ==> (#[trigger] steps.edges[f]).0 != order[head],
    ensures
        collects(now, base, view, steps, order, head + 1, 0),
{
    reveal(collects);
    assert forall|f: int| 0 <= f < steps.edges.len() implies #[trigger] was_seen(
        steps,
        order,
        head,
        limit,
        f,
    ) == was_seen(steps, order, head + 1, 0, f) by {
        if was_seen(steps, order, head, limit, f) {
            let k = choose|k: int|
                0 <= k < order.len() && #[trigger] order[k] == steps.edges[f].0 && scanned(
                    head,
                    limit,
                    k,
                    f,
                );
            assert(scanned(head + 1, 0, k, f));
        }
        if was_seen(steps, order, head + 1, 0, f) {
            let k = choose|k: int|
                0 <= k < order.len() && #[trigger] order[k] == steps.edges[f].0 && scanned(
                    head + 1,
                    0,
                    k,
                    f,
                );
            assert(scanned(head, limit, k, f));
        }
    }
    assert forall|e: int|
        #[trigger] now.contains(e) <==> base.contains(e) || (0 <= e < steps.edges.len()
            && steps.live.contains(e) && view.superset_edge(e) && was_seen(
            steps,
            order,
            head + 1,
            0,
            e,
        )) by {
        if 0 <= e < steps.edges.len() {
            assert(was_seen(steps, order, head, limit, e) == was_seen(
                steps,
                order,
                head + 1,
                0,
                e,
            ));
        }
    }
}

/// The superset edges that a traversal of `steps` crosses when it finds the nodes of `order`.
pub open spec fn crossed(view: GraphView, steps: Steps, order: Seq<int>) -> Set<int> {
    Set::new(
        |e: int|
            0 <= e < view.edges.len() && steps.live.contains(e) && view.superset_edge(e)
                && order.contains(steps.edges[e].0),
    )
}

impl<'m> Graph<'m> {
    /// Whether the traversal is to be told about `edge` as a superset edge.
    fn is_superset_edge(&self, edge: usize) -> (superset: bool)
        requires
            self.wf(),
            edge < self@.edges.len(),
        ensures
            superset == self@.superset_edge(edge as int),
    {
        self.edge_is_cfg_only(edge as u32) || self.edge_is_member_optional(edge as u32)
    }

    /// Scans edge `edge` of the node `from`, which stands at position `head`.
    fn scan(
        &self,
        scratch: &mut Scratch,
        from: u32,
        to: u32,
        edge: usize,
        live: bool,
        Ghost(steps): Ghost<Steps>,
        Ghost(root): Ghost<int>,
        Ghost(trail): Ghost<Trail>,
        Ghost(head): Ghost<int>,
        Ghost(extra): Ghost<Set<int>>,
        Ghost(limit): Ghost<int>,
    ) -> (found: Ghost<Trail>)
        requires
            self.wf(),
            steps.bounded(),
            steps.nodes == self@.count(),
            steps.edges.len() == self@.edges.len(),
            0 <= root < steps.nodes,
            old(scratch).records(self@, trail),
            searching(steps, root, trail, head, limit),
            0 <= head < trail.order.len(),
            trail.order[head] == from,
            0 <= limit <= edge < steps.edges.len(),
            steps.edges[edge as int] == (from as int, to as int),
            live == steps.live.contains(edge as int),
            forall|f: int| limit <= f < edge ==> (#[trigger] steps.edges[f]).0 != from,
            bits::ones(old(scratch).extra).finite(),
            collects(
                bits::ones(old(scratch).extra),
                extra,
                self@,
                steps,
                trail.order,
                head,
                limit,
            ),
        ensures
            final(scratch).records(self@, found@),
            final(scratch).traversals == old(scratch).traversals,
            final(scratch).nanos == old(scratch).nanos,
            searching(steps, root, found@, head, edge + 1),
            head < found@.order.len() <= steps.nodes,
            found@.order[head] == from,
            bits::ones(final(scratch).extra).finite(),
            collects(
                bits::ones(final(scratch).extra),
                extra,
                self@,
                steps,
                found@.order,
                head,
                edge + 1,
            ),
    {
        let ghost before = bits::ones(scratch.extra);
        let ghost mut found = trail;
        assert(0 <= steps.edges[edge as int].1 < steps.nodes);
        proof {
            search_skips(steps, root, trail, head, limit, edge as int);
            order_is_short(steps, root, trail, head, edge as int);
        }
        if live {
            if self.is_superset_edge(edge) {
                bits::insert(&mut scratch.extra, edge);
            }
            assert(scratch.records(self@, trail));
            let entered = scratch.enter(
                self,
                to,
                from,
                Ghost(trail),
                Ghost(head),
                Ghost(edge as int),
            );
            assert(steps.step(edge as int, from as int, to as int));
            proof {
                if entered {
                    search_finds(steps, root, trail, head, edge as int, to as int);
                    found = extended(trail, to as int, head, edge as int);
                    order_is_short(steps, root, found, head, edge + 1);
                } else {
                    search_skips(steps, root, trail, head, edge as int, edge + 1);
                }
            }
        } else {
            proof {
                search_skips(steps, root, trail, head, edge as int, edge + 1);
            }
        }
        proof {
            collects_next(
                before,
                bits::ones(scratch.extra),
                extra,
                self@,
                steps,
                trail.order,
                found.order,
                head,
                limit,
                edge as int,
            );
        }
        Ghost(found)
    }

    /// Searches `csr` breadth-first from `root`, following the edges that `activated` has.
    fn bfs(
        &self,
        csr: &Csr,
        forward_edge: Option<&Vec<u32>>,
        root: u32,
        scratch: &mut Scratch,
        activated: Option<&FixedBitSet>,
        Ghost(steps): Ghost<Steps>,
    )
        requires
            self.wf(),
            old(scratch).wf(),
            old(scratch).fits(self@),
            root < self@.count(),
            steps.nodes == self@.count(),
            steps.edges.len() == self@.edges.len(),
            scans(
                *csr,
                match forward_edge {
                    Some(map) => Some(map@),
                    None => None,
                },
                steps,
            ),
            activated is Some ==> bits::capacity(*activated->0) == self@.edges.len(),
            forall|e: int|
                0 <= e < self@.edges.len() ==> (#[trigger] steps.live.contains(e) <==> (
                activated is Some ==> bits::ones(*activated->0).contains(e))),
        ensures
            final(scratch).wf(),
            final(scratch).steps@ == steps,
            breadth_first(steps, root as int, final(scratch).trail@),
            final(scratch).records(self@, final(scratch).trail@),
            final(scratch).spent() == old(scratch).spent(),
            final(scratch).runs() == one_more(old(scratch).runs()),
            final(scratch).extra_edges() == old(scratch).extra_edges().union(
                crossed(self@, steps, final(scratch).trail@.order),
            ),
    {
        let ghost map = match forward_edge {
            Some(map) => Some(map@),
            None => None,
        };
        let ghost extra = bits::ones(scratch.extra);
        scratch.traversals = scratch.traversals.saturating_add(1);
        scratch.start(self, root);
        let ghost runs = scratch.traversals;
        let ghost nanos = scratch.nanos;
        let ghost mut trail = Trail {
            order: seq![root as int],
            from: seq![0int],
            via: seq![0int],
        };
        let ghost edges = steps.edges.len() as int;
        let mut head: usize = 0;
        proof {
            reveal(searching);
            reveal(collects);
            assert(searching(steps, root as int, trail, 0, 0));
            assert(collects(extra, extra, self@, steps, trail.order, 0, 0));
        }
        while head < scratch.queue.len()
            invariant
                self.wf(),
                root < self@.count(),
                steps.nodes == self@.count(),
                edges == steps.edges.len() == self@.edges.len(),
                map == (match forward_edge {
                    Some(map) => Some(map@),
                    None => None,
                }),
                scans(*csr, map, steps),
                activated is Some ==> bits::capacity(*activated->0) == self@.edges.len(),
                forall|e: int|
                    0 <= e < self@.edges.len() ==> (#[trigger] steps.live.contains(e) <==> (
                    activated is Some ==> bits::ones(*activated->0).contains(e))),
                scratch.records(self@, trail),
                scratch.traversals == runs,
                scratch.nanos == nanos,
                head <= trail.order.len() <= steps.nodes,
                searching(steps, root as int, trail, head as int, 0),
                bits::ones(scratch.extra).finite(),
                collects(
                    bits::ones(scratch.extra),
                    extra,
                    self@,
                    steps,
                    trail.order,
                    head as int,
                    0,
                ),
            decreases steps.nodes - head,
        {
            let from: u32 = scratch.queue[head];
            let ghost u = from as int;
            assert(from == trail.order[head as int]);
            proof {
                run_of(*csr, map, steps, u);
            }
            let (start, end) = csr.range(from as usize);
            let mut slot: usize = start;
            let ghost mut limit: int = 0;
            proof {
                assert forall|l: int| #![trigger edge_at(map, l)] slot <= l < end implies 0
                    <= edge_at(map, l) by {
                    slot_is(*csr, map, steps, u, l);
                }
            }
            while slot < end
                invariant
                    self.wf(),
                    root < self@.count(),
                    steps.nodes == self@.count(),
                    edges == steps.edges.len() == self@.edges.len(),
                    map == (match forward_edge {
                        Some(map) => Some(map@),
                        None => None,
                    }),
                    scans(*csr, map, steps),
                    activated is Some ==> bits::capacity(*activated->0) == self@.edges.len(),
                    forall|e: int|
                        0 <= e < self@.edges.len() ==> (#[trigger] steps.live.contains(e) <==> (
                        activated is Some ==> bits::ones(*activated->0).contains(e))),
                    scratch.records(self@, trail),
                    scratch.traversals == runs,
                    scratch.nanos == nanos,
                    head < trail.order.len() <= steps.nodes,
                    trail.order[head as int] == u == from,
                    0 <= u < steps.nodes,
                    start == csr.offsets@[u],
                    end == csr.offsets@[u + 1] <= edges,
                    start <= slot <= end,
                    searching(steps, root as int, trail, head as int, limit),
                    0 <= limit <= edges,
                    forall|l: int|
                        #![trigger edge_at(map, l)]
                        start <= l < slot ==> edge_at(map, l) < limit,
                    forall|l: int|
                        #![trigger edge_at(map, l)]
                        slot <= l < end ==> limit <= edge_at(map, l),
                    bits::ones(scratch.extra).finite(),
                    collects(
                        bits::ones(scratch.extra),
                        extra,
                        self@,
                        steps,
                        trail.order,
                        head as int,
                        limit,
                    ),
                decreases end - slot,
            {
                proof {
                    run_of(*csr, map, steps, u);
                    slot_is(*csr, map, steps, u, slot as int);
                }
                let to = csr.adj[slot];
                let forward: usize = match forward_edge {
                    Some(map) => map[slot] as usize,
                    None => slot,
                };
                let ghost e = edge_at(map, slot as int);
                assert(forward == e);
                proof {
                    no_edge_between(*csr, map, steps, u, slot as int, limit, e);
                }
                let live = match activated {
                    Some(activated) => bits::contains(activated, forward),
                    None => true,
                };
                assert(live == steps.live.contains(e));
                let found = self.scan(
                    scratch,
                    from,
                    to,
                    forward,
                    live,
                    Ghost(steps),
                    Ghost(root as int),
                    Ghost(trail),
                    Ghost(head as int),
                    Ghost(extra),
                    Ghost(limit),
                );
                proof {
                    trail = found@;
                    limit = e + 1;
                }
                slot = slot + 1;
            }
            proof {
                no_edge_between(*csr, map, steps, u, slot as int, limit, edges);
                search_skips(steps, root as int, trail, head as int, limit, edges);
                search_moves_on(steps, root as int, trail, head as int);
                collects_on(
                    bits::ones(scratch.extra),
                    extra,
                    self@,
                    steps,
                    trail.order,
                    head as int,
                    limit,
                );
            }
            head = head + 1;
        }
        proof {
            reveal(collects);
            search_ends(steps, root as int, trail);
            scratch.trail@ = trail;
            scratch.steps@ = steps;
            assert(bits::ones(scratch.extra) =~= extra.union(crossed(self@, steps, trail.order)))
                by {
                assert forall|e: int|
                    bits::ones(scratch.extra).contains(e) == extra.union(
                        crossed(self@, steps, trail.order),
                    ).contains(e) by {
                    if 0 <= e < edges && trail.order.contains(steps.edges[e].0) {
                        let k = choose|k: int|
                            0 <= k < trail.order.len() && trail.order[k] == steps.edges[e].0;
                        assert(scanned(head as int, 0, k, e));
                        assert(was_seen(steps, trail.order, head as int, 0, e));
                    }
                }
            }
        }
    }
}


/// The result of one traversal, valid until the next traversal on the same [`Scratch`].
pub struct Reach<'s, 'm> {
    graph: &'s Graph<'m>,
    scratch: &'s Scratch,
    root: u32,
    direction: Direction,
}

/// The nodes below `upto`, other than `root`, that were found and are members.
pub open spec fn members_found(order: Seq<int>, members: Seq<int>, root: int, upto: int) -> Seq<int>
    decreases upto,
{
    if upto <= 0 {
        Seq::empty()
    } else {
        let before = members_found(order, members, root, upto - 1);
        if order.contains(upto - 1) && upto - 1 != root && members.contains(upto - 1) {
            before.push(upto - 1)
        } else {
            before
        }
    }
}

/// The nodes of `nodes` among the first `upto`, other than `first`, that were found.
pub open spec fn others_found(order: Seq<int>, nodes: Seq<int>, first: int, upto: int) -> Seq<int>
    decreases upto,
{
    if upto <= 0 {
        Seq::empty()
    } else {
        let before = others_found(order, nodes, first, upto - 1);
        if nodes[upto - 1] != first && order.contains(nodes[upto - 1]) {
            before.push(nodes[upto - 1])
        } else {
            before
        }
    }
}

/// The first node with name id `name` that a traversal found.
pub open spec fn first_found(view: GraphView, trail: Trail, name: int) -> int {
    trail.order[choose|i: int| first_named(trail.order, view.name_of, name, i)]
}

/// The path between the root of a traversal and a node that it found, from dependent to
/// dependency.
pub open spec fn witness(trail: Trail, direction: Direction, node: int) -> Seq<int> {
    let path = trail_path(trail, position(trail, node));
    match direction {
        Direction::Forward => path,
        Direction::Reverse => path.reverse(),
    }
}

/// A name has one first node.
proof fn first_is_one(view: GraphView, trail: Trail, name: int, i: int)
    requires
        first_named(trail.order, view.name_of, name, i),
    ensures
        first_found(view, trail, name) == trail.order[i],
{
    let j = choose|j: int| first_named(trail.order, view.name_of, name, j);
    if j < i {
        assert(view.name_of[trail.order[j]] != name);
    } else if i < j {
        assert(view.name_of[trail.order[i]] != name);
    }
}

impl<'s, 'm> Reach<'s, 'm> {
    /// The graph that was traversed.
    pub closed spec fn view_of_graph(&self) -> GraphView {
        self.graph@
    }

    /// The edges that the traversal could follow.
    pub closed spec fn steps(&self) -> Steps {
        self.scratch.steps@
    }

    /// The record of the traversal.
    pub closed spec fn trail(&self) -> Trail {
        self.scratch.trail@
    }

    /// The root of the traversal.
    pub closed spec fn start(&self) -> int {
        self.root as int
    }

    /// The way the edges were walked.
    pub closed spec fn way(&self) -> Direction {
        self.direction
    }

    /// The state that holds the result.
    pub closed spec fn state(&self) -> Scratch {
        *self.scratch
    }

    /// Whether the scratch holds a breadth-first traversal of the graph.
    pub closed spec fn wf(&self) -> bool {
        &&& self.graph.wf()
        &&& self.scratch.records(self.graph@, self.scratch.trail@)
        &&& breadth_first(self.scratch.steps@, self.root as int, self.scratch.trail@)
        &&& self.root < self.graph@.count()
    }

    /// What a reach is made of: the traversal of its edges from its root.
    pub proof fn is_traversal(&self)
        requires
            self.wf(),
        ensures
            self.view_of_graph().consistent(),
            self.trail() == paths::traversal(self.steps(), self.start()),
            breadth_first(self.steps(), self.start(), self.trail()),
            forall|i: int|
                0 <= i < self.trail().order.len() ==> 0 <= #[trigger] self.trail().order[i]
                    < self.view_of_graph().count(),
            0 <= self.start() < self.view_of_graph().count(),
    {
        paths::traversal_is(self.steps(), self.start(), self.trail());
    }

    /// The root of the traversal.
    #[must_use]
    pub fn root(&self) -> (root: u32)
        ensures
            root == self.start(),
    {
        self.root
    }

    /// Whether this reach was produced by [`Graph::reach`] or [`Graph::reverse_reach`].
    #[must_use]
    pub fn direction(&self) -> (direction: Direction)
        ensures
            direction == self.way(),
    {
        self.direction
    }

    /// The reached nodes (the root included), as a bitset over node ids.
    #[must_use]
    pub fn nodes(&self) -> (nodes: &FixedBitSet)
        requires
            self.wf(),
        ensures
            bits::capacity(*nodes) == self.view_of_graph().count(),
            forall|u: int|
                #[trigger] bits::ones(*nodes).contains(u) <==> self.trail().order.contains(u),
    {
        &self.scratch.visited
    }

    /// The reached names (the root's included), as a bitset over name ids.
    #[must_use]
    pub fn names(&self) -> (names: &FixedBitSet)
        requires
            self.wf(),
        ensures
            bits::capacity(*names) == self.view_of_graph().names.len(),
            forall|name: int|
                #[trigger] bits::ones(*names).contains(name) <==> names_node(
                    self.trail().order,
                    self.view_of_graph().name_of,
                    name,
                ),
    {
        &self.scratch.reach
    }

    /// Whether `node` was reached.
    #[must_use]
    pub fn contains_node(&self, node: u32) -> (found: bool)
        requires
            self.wf(),
        ensures
            found == self.trail().order.contains(node as int),
            found ==> node < self.view_of_graph().count(),
    {
        proof {
            if self.trail().order.contains(node as int) {
                let order = self.trail().order;
                let i = choose|i: int| 0 <= i < order.len() && order[i] == node as int;
                assert(0 <= order[i] < self.graph@.count());
            }
        }
        bits::contains(&self.scratch.visited, node as usize)
    }

    /// Whether any node named `name` was reached.
    #[must_use]
    pub fn contains_name(&self, name: u32) -> (found: bool)
        requires
            self.wf(),
        ensures
            found == names_node(
                self.trail().order,
                self.view_of_graph().name_of,
                name as int,
            ),
            found ==> name < self.view_of_graph().names.len(),
    {
        proof {
            let order = self.trail().order;
            let name_of = self.graph@.name_of;
            if names_node(order, name_of, name as int) {
                let i = choose|i: int| first_named(order, name_of, name as int, i);
                assert(0 <= order[i] < self.graph@.count());
                assert(0 <= name_of[order[i]] < self.graph@.names.len());
            }
        }
        bits::contains(&self.scratch.reach, name as usize)
    }

    /// The first node of `name` the traversal reached — the one a witness ends at.
    #[must_use]
    pub fn first_node_of_name(&self, name: u32) -> (first: Option<u32>)
        requires
            self.wf(),
        ensures
            match first {
                Some(node) => {
                    &&& names_node(self.trail().order, self.view_of_graph().name_of, name as int)
                    &&& node == first_found(self.view_of_graph(), self.trail(), name as int)
                    &&& self.trail().order.contains(node as int)
                    &&& self.view_of_graph().name_of[node as int] == name
                    &&& node < self.view_of_graph().count()
                },
                None => !names_node(
                    self.trail().order,
                    self.view_of_graph().name_of,
                    name as int,
                ),
            },
    {
        if !self.contains_name(name) {
            return None;
        }
        proof {
            let order = self.trail().order;
            let name_of = self.graph@.name_of;
            let i = choose|i: int| first_named(order, name_of, name as int, i);
            assert(first_named(order, name_of, name as int, i));
            first_is_one(self.graph@, self.trail(), name as int, i);
            assert(self.scratch.first_node@[name as int] == order[i]);
            assert(0 <= order[i] < self.graph@.count());
        }
        Some(self.scratch.first_node[name as usize])
    }

    /// Reached workspace members other than the root, in node order.
    #[must_use]
    pub fn reached_members(&self) -> (members: Vec<u32>)
        requires
            self.wf(),
        ensures
            lists(
                members@,
                members_found(
                    self.trail().order,
                    self.view_of_graph().members,
                    self.start(),
                    self.view_of_graph().count(),
                ),
            ),
    {
        let mut members: Vec<u32> = Vec::new();
        let count: u32 = self.graph.node_count();
        let mut node: u32 = 0;
        while node < count
            invariant
                self.wf(),
                node <= count == self.view_of_graph().count(),
                lists(
                    members@,
                    members_found(
                        self.trail().order,
                        self.view_of_graph().members,
                        self.start(),
                        node as int,
                    ),
                ),
            decreases count - node,
        {
            if self.contains_node(node) && node != self.root && self.graph.is_member(node) {
                members.push(node);
            }
            node = node + 1;
        }
        members
    }

    /// The witness path to `node`: a forward dependency path read back from the
    /// parent chain, shortest by construction.
    ///
    /// For a forward reach the path runs `root → … → node`; for a reverse reach it
    /// runs `node → … → root`. `None` when `node` was not reached.
    #[must_use]
    pub fn witness_to_node(&self, node: u32) -> (path: Option<Vec<u32>>)
        requires
            self.wf(),
        ensures
            match path {
                Some(path) => {
                    &&& self.trail().order.contains(node as int)
                    &&& lists(path@, witness(self.trail(), self.way(), node as int))
                },
                None => !self.trail().order.contains(node as int),
            },
    {
        if !self.contains_node(node) {
            return None;
        }
        let ghost trail = self.trail();
        let ghost steps = self.steps();
        let ghost whole = trail_path(trail, position(trail, node as int));
        let ghost mut at = position(trail, node as int);
        let mut path: Vec<u32> = Vec::new();
        let mut current: u32 = node;
        path.push(current);
        proof {
            paths::trail_path_leads(steps, self.root as int, trail, at);
            assert(trail.order[at] == node);
            assert(trail_path(trail, at) + path@.map_values(|n: u32| n as int).reverse().skip(1)
                =~= whole);
        }
        while current != self.root
            invariant
                self.wf(),
                trail == self.trail(),
                steps == self.steps(),
                0 <= at < trail.order.len(),
                trail.order[at] == current,
                path@.len() > 0,
                path@.last() == current,
                whole == trail_path(trail, position(trail, node as int)),
                trail_path(trail, at) + path@.map_values(|n: u32| n as int).reverse().skip(1)
                    == whole,
            decreases at,
        {
            let ghost before = path@;
            proof {
                assert(at > 0);
                assert(self.scratch.parent@[trail.order[at]] == trail.order[trail.from[at]]);
                paths::trail_path_leads(steps, self.root as int, trail, at);
            }
            current = self.scratch.parent[current as usize];
            path.push(current);
            proof {
                let next = trail.from[at];
                paths::trail_path_leads(steps, self.root as int, trail, next);
                let back = before.map_values(|n: u32| n as int).reverse();
                let now = path@.map_values(|n: u32| n as int).reverse();
                assert(now.skip(1) =~= back);
                assert(back =~= seq![trail.order[at]] + back.skip(1));
                assert(trail_path(trail, next) + now.skip(1) =~= trail_path(trail, at)
                    + back.skip(1));
                at = next;
            }
        }
        proof {
            let back = path@.map_values(|n: u32| n as int).reverse();
            assert(at == 0) by {
                if at > 0 {
                    assert(trail.order[0] == trail.order[at]);
                }
            }
            assert(trail_path(trail, 0) =~= seq![self.root as int]);
            assert(back =~= seq![self.root as int] + back.skip(1));
            assert(back =~= whole);
        }
        match self.direction {
            Direction::Forward => {
                let forward = reversed_vec(&path);
                assert(lists(forward@, whole)) by {
                    assert forall|i: int| #![trigger forward@[i]] 0 <= i < forward@.len() implies
                        forward@[i] == whole[i] by {
                        assert(path@.map_values(|n: u32| n as int).reverse()[i] == forward@[i]);
                    }
                }
                Some(forward)
            },
            Direction::Reverse => {
                assert(lists(path@, whole.reverse())) by {
                    assert(whole.reverse() =~= path@.map_values(|n: u32| n as int));
                }
                Some(path)
            },
        }
    }

    /// The witness path to the first reached node of `name`.
    #[must_use]
    pub fn witness_to_name(&self, name: u32) -> (path: Option<Vec<u32>>)
        requires
            self.wf(),
        ensures
            match path {
                Some(path) => {
                    &&& names_node(self.trail().order, self.view_of_graph().name_of, name as int)
                    &&& lists(
                        path@,
                        witness(
                            self.trail(),
                            self.way(),
                            first_found(self.view_of_graph(), self.trail(), name as int),
                        ),
                    )
                },
                None => !names_node(
                    self.trail().order,
                    self.view_of_graph().name_of,
                    name as int,
                ),
            },
    {
        match self.first_node_of_name(name) {
            Some(first) => self.witness_to_node(first),
            None => None,
        }
    }

    /// Materialises the witness to the first reached node of `name`, plus the
    /// other reached nodes of that name.
    ///
    /// The witness ends at that node for a forward reach and begins at it for a
    /// reverse one; the "other versions" never include that node — so for the root's
    /// own name (where the root is the first reached node) they never include the root.
    #[must_use]
    pub fn witness_with_versions(&self, name: u32) -> (found: Option<(Vec<u32>, Vec<u32>)>)
        requires
            self.wf(),
        ensures
            match found {
                Some((path, others)) => {
                    let view = self.view_of_graph();
                    let first = first_found(view, self.trail(), name as int);
                    let named = view.named(name as int);
                    &&& names_node(self.trail().order, view.name_of, name as int)
                    &&& lists(path@, witness(self.trail(), self.way(), first))
                    &&& lists(
                        others@,
                        others_found(self.trail().order, named, first, named.len() as int),
                    )
                    &&& forall|i: int|
                        0 <= i < others@.len() ==> (#[trigger] others@[i]) < view.count()
                },
                None => !names_node(
                    self.trail().order,
                    self.view_of_graph().name_of,
                    name as int,
                ),
            },
    {
        let first = match self.first_node_of_name(name) {
            Some(first) => first,
            None => return None,
        };
        let path = match self.witness_to_node(first) {
            Some(path) => path,
            None => return None,
        };
        assert(self.graph@.name_of[first as int] < self.graph@.names.len());
        let nodes = self.graph.nodes_of_name(name);
        let ghost named = self.graph@.named(name as int);
        let mut others: Vec<u32> = Vec::new();
        let mut at: usize = 0;
        while at < nodes.len()
            invariant
                self.wf(),
                at <= nodes@.len(),
                lists(nodes@, named),
                lists(
                    others@,
                    others_found(self.trail().order, named, first as int, at as int),
                ),
                forall|i: int|
                    0 <= i < others@.len() ==> (#[trigger] others@[i])
                        < self.view_of_graph().count(),
            decreases nodes@.len() - at,
        {
            let node = nodes[at];
            assert(node == named[at as int]);
            if node != first && self.contains_node(node) {
                others.push(node);
            }
            at = at + 1;
        }
        Some((path, others))
    }
}

/// The numbers of `list`, last first.
fn reversed_vec(list: &Vec<u32>) -> (backwards: Vec<u32>)
    ensures
        backwards@ == list@.reverse(),
{
    let mut backwards: Vec<u32> = Vec::new();
    let mut at: usize = list.len();
    while at > 0
        invariant
            at <= list@.len(),
            backwards@.len() == list@.len() - at,
            forall|i: int| 0 <= i < backwards@.len() ==> backwards@[i] == list@[list@.len() - 1 - i],
        decreases at,
    {
        at = at - 1;
        backwards.push(list[at]);
    }
    assert(backwards@ =~= list@.reverse());
    backwards
}

impl<'m> Graph<'m> {
    /// Takes the transposed adjacency out of its cache, building it if it is not there.
    fn transposed(&self) -> (transposed: Transposed)
        requires
            self.wf(),
        ensures
            mirrors(transposed, self@.count(), self.forward.adj@, self@.edges),
    {
        match self.transposed.replace(None) {
            Some(transposed) => transposed,
            None => self.transpose(),
        }
    }

    /// Builds the transposed adjacency.
    fn transpose(&self) -> (transposed: Transposed)
        requires
            self.wf(),
        ensures
            mirrors(transposed, self@.count(), self.forward.adj@, self@.edges),
    {
        proof {
            assert forall|i: int| 0 <= i < self.forward.adj@.len() implies self.forward.adj@[i]
                < self.meta.packages@.len() by {
                assert(self.forward.adj@[i] == self@.edges[i].to);
            }
        }
        let (offsets, forward_edge) = buckets::group(&self.forward.adj, self.meta.packages.len());
        let ghost keys = self.forward.adj@;
        let mut adj: Vec<u32> = Vec::new();
        let mut at: usize = 0;
        while at < forward_edge.len()
            invariant
                self.wf(),
                keys == self.forward.adj@,
                at <= forward_edge@.len() == self@.edges.len(),
                grouped(keys, self@.count(), offsets@, forward_edge@),
                adj@.len() == at,
                forall|k: int|
                    #![trigger adj@[k]]
                    0 <= k < at ==> adj@[k] == self@.edges[forward_edge@[k] as int].from,
            decreases forward_edge@.len() - at,
        {
            proof {
                buckets::items_are_positions(
                    keys,
                    self@.count(),
                    offsets@,
                    forward_edge@,
                    at as int,
                );
            }
            adj.push(self.edge_source(forward_edge[at]));
            at = at + 1;
        }
        Transposed { csr: Csr { offsets, adj }, forward_edge }
    }

    /// Whether the transposed adjacency has been built (it is built lazily by
    /// [`Graph::reverse_reach`]).
    ///
    /// The graph caches it behind a shared reference, so what is returned depends on the calls
    /// made so far and is not stated.
    #[must_use]
    pub fn has_transposed(&self) -> bool
        requires
            self.wf(),
    {
        let cached = self.transposed.replace(None);
        let has = cached.is_some();
        self.transposed.replace(cached);
        has
    }

    /// The nodes that directly depend on `node` (in-neighbours), building the
    /// transposed adjacency on first use.
    #[must_use]
    pub fn dependents(&self, node: u32) -> (nodes: Vec<u32>)
        requires
            self.wf(),
            node < self@.count(),
        ensures
            lists(nodes@, self@.dependents(node as int)),
    {
        let transposed = self.transposed();
        let ghost keys = self.forward.adj@;
        let ghost found = edges_in(self@.edges, node as int, self@.edges.len() as int);
        proof {
            edges_in_as_grouped(keys, self@.edges, node as int, keys.len() as int);
            assert(transposed.csr.offsets@[node as int] + bucket(keys, node as int).len()
                == transposed.csr.offsets@[node + 1]);
        }
        let (start, end) = transposed.csr.range(node as usize);
        let mut nodes: Vec<u32> = Vec::new();
        let mut slot: usize = start;
        while slot < end
            invariant
                self.wf(),
                keys == self.forward.adj@,
                node < self@.count(),
                mirrors(transposed, self@.count(), keys, self@.edges),
                found == bucket(keys, node as int),
                start == transposed.csr.offsets@[node as int],
                end == transposed.csr.offsets@[node + 1],
                start <= slot <= end,
                nodes@.len() == slot - start,
                forall|i: int|
                    #![trigger nodes@[i]]
                    0 <= i < nodes@.len() ==> nodes@[i] == self@.edges[found[i]].from,
            decreases end - slot,
        {
            proof {
                transposed_slot(transposed, keys, self@, node as int, slot as int);
            }
            nodes.push(transposed.csr.adj[slot]);
            slot = slot + 1;
        }
        self.transposed.replace(Some(transposed));
        nodes
    }

    /// Runs one forward traversal from `root` and returns its reach.
    ///
    /// Every cfg-only or member-optional edge whose source is reached is added to
    /// the scratch's union of traversed superset edges. Materialise all witnesses
    /// before the next call — the borrow checker enforces it.
    pub fn reach<'s>(&'s self, root: u32, scratch: &'s mut Scratch) -> (reach: Reach<'s, 'm>)
        requires
            self.wf(),
            old(scratch).wf(),
            root < self@.count(),
        ensures
            reach.wf(),
            reach.view_of_graph() == self@,
            reach.steps() == self@.forward(),
            reach.start() == root,
            reach.way() == Direction::Forward,
            reach.state() == *final(scratch),
            final(scratch).wf(),
            final(scratch).fits(self@),
            final(scratch).runs() == one_more(old(scratch).runs()),
            final(scratch).spent() >= old(scratch).spent(),
            final(scratch).extra_edges() == kept_extra(*old(scratch), self@).union(
                crossed(self@, self@.forward(), reach.trail().order),
            ),
    {
        let started = clock::now();
        scratch.prepare(self);
        proof {
            forward_scans(self.forward, self@, Set::full());
        }
        self.bfs(&self.forward, None, root, scratch, None, Ghost(self@.forward()));
        scratch.spend(clock::nanos_since(&started));
        Reach { graph: self, scratch, root, direction: Direction::Forward }
    }

    /// Runs one forward traversal from `root` over the edges `activated` selects.
    ///
    /// `activated` is a bitset over edge numbers — an activation's edge set — so the reach is
    /// the closure a build of `root` under that feature selection would compile, with the
    /// witnesses [`Graph::reach`] produces on the unified graph. An edge the activation left
    /// out is not traversed and does not enter the superset-edge union either.
    pub fn reach_activated<'s>(
        &'s self,
        root: u32,
        activated: &FixedBitSet,
        scratch: &'s mut Scratch,
    ) -> (reach: Reach<'s, 'm>)
        requires
            self.wf(),
            old(scratch).wf(),
            root < self@.count(),
            bits::capacity(*activated) == self@.edges.len(),
        ensures
            reach.wf(),
            reach.view_of_graph() == self@,
            reach.steps() == self@.steps(bits::ones(*activated)),
            reach.start() == root,
            reach.way() == Direction::Forward,
            reach.state() == *final(scratch),
            final(scratch).wf(),
            final(scratch).fits(self@),
            final(scratch).runs() == one_more(old(scratch).runs()),
            final(scratch).spent() >= old(scratch).spent(),
            final(scratch).extra_edges() == kept_extra(*old(scratch), self@).union(
                crossed(self@, self@.steps(bits::ones(*activated)), reach.trail().order),
            ),
    {
        let started = clock::now();
        scratch.prepare(self);
        proof {
            forward_scans(self.forward, self@, bits::ones(*activated));
        }
        self.bfs(
            &self.forward,
            None,
            root,
            scratch,
            Some(activated),
            Ghost(self@.steps(bits::ones(*activated))),
        );
        scratch.spend(clock::nanos_since(&started));
        Reach { graph: self, scratch, root, direction: Direction::Forward }
    }

    /// Runs one reverse traversal from `root` over the lazily built transposed adjacency.
    ///
    /// The reach contains every node that transitively depends on `root`;
    /// [`Reach::witness_to_node`] then yields the forward path from that node down
    /// to `root`. Shares [`Scratch`] with [`Graph::reach`] under the same rules.
    pub fn reverse_reach<'s>(&'s self, root: u32, scratch: &'s mut Scratch) -> (reach: Reach<'s, 'm>)
        requires
            self.wf(),
            old(scratch).wf(),
            root < self@.count(),
        ensures
            reach.wf(),
            reach.view_of_graph() == self@,
            reach.steps() == self@.backward(),
            reach.start() == root,
            reach.way() == Direction::Reverse,
            reach.state() == *final(scratch),
            final(scratch).wf(),
            final(scratch).fits(self@),
            final(scratch).runs() == one_more(old(scratch).runs()),
            final(scratch).spent() >= old(scratch).spent(),
            final(scratch).extra_edges() == kept_extra(*old(scratch), self@).union(
                crossed(self@, self@.backward(), reach.trail().order),
            ),
    {
        let started = clock::now();
        scratch.prepare(self);
        let transposed = self.transposed();
        proof {
            transposed_scans(transposed, self.forward.adj@, self@);
        }
        self.bfs(
            &transposed.csr,
            Some(&transposed.forward_edge),
            root,
            scratch,
            None,
            Ghost(self@.backward()),
        );
        self.transposed.replace(Some(transposed));
        scratch.spend(clock::nanos_since(&started));
        Reach { graph: self, scratch, root, direction: Direction::Reverse }
    }
}

/// The time `spent` and `more`, as far as it can be counted.
pub open spec fn longer(spent: u64, more: u64) -> u64 {
    if spent + more <= u64::MAX {
        (spent + more) as u64
    } else {
        u64::MAX
    }
}

/// One run more, as far as it can be counted.
pub open spec fn one_more(runs: u32) -> u32 {
    if runs < u32::MAX {
        (runs + 1) as u32
    } else {
        u32::MAX
    }
}

/// The superset edges that a scratch keeps when it is used for `view`: those it has, or none
/// when it was allocated for a graph of other dimensions.
pub open spec fn kept_extra(scratch: Scratch, view: GraphView) -> Set<int> {
    if scratch.fits(view) {
        scratch.extra_edges()
    } else {
        Set::empty()
    }
}

} // verus!
