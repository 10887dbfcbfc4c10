//! Evaluation of dependency graph rules and their witnesses.
//!
//! What a rule says of a graph is [`verdict_of`]: it depends on the graph, the rule and the
//! internal packages alone, not on the other rules. [`evaluate`] answers all rules of a policy
//! together, so that rules on one package share their traversals.

use crate::bits;
use crate::clock;
use crate::config::{
    self, find_root, root_of, Config, ConfigView, PatternView, RequirePattern, Rule, RuleKind,
    RuleKindView, RuleView, Span,
};
use crate::features::{self, activation_of, is_decodable, Selection, SelectionView};
use crate::globs;
use crate::graph::{
    crossed, first_found, is_cfg_only, kept_extra, lists, members_found, names_node, others_found,
    witness, Direction, Graph, GraphView, KindEntry, Reach, Scratch,
};
use crate::metadata::Decoded;
use crate::names;
use crate::paths::{self, breadth_first, position, trail_path, traversal, Steps, Trail};
use crate::source::saturated;
use crate::text::{self, text_view, texts};
use fixedbitset::FixedBitSet;
use vstd::prelude::*;

verus! {

/// One edge in a dependency witness.
#[derive(Clone, Debug, PartialEq, Eq)]
pub struct WitnessHop {
    /// The package name at the end of this edge.
    pub name: String,
    /// The package version at the end of this edge.
    pub version: String,
    /// Joined cfg targets when this edge is cfg-only.
    pub target: Option<String>,
    /// Whether the source package declares this dependency optional.
    pub optional: bool,
}

/// A [`WitnessHop`] by the characters of its strings.
pub struct HopView {
    pub name: Seq<char>,
    pub version: Seq<char>,
    pub target: Option<Seq<char>>,
    pub optional: bool,
}

impl View for WitnessHop {
    type V = HopView;

    open spec fn view(&self) -> HopView {
        HopView {
            name: self.name@,
            version: self.version@,
            target: text_view(self.target),
            optional: self.optional,
        }
    }
}

/// The characters of each hop.
pub open spec fn hop_views(hops: Seq<WitnessHop>) -> Seq<HopView> {
    Seq::new(hops.len(), |i: int| hops[i]@)
}

/// One matched or unexpected package name with its shortest witness.
#[derive(Clone, Debug, PartialEq, Eq)]
pub struct Match {
    /// The package name.
    pub name: String,
    /// The version of the first reached node for this name.
    pub version: String,
    /// The forward-readable witness path to the first reached node.
    pub witness: Vec<WitnessHop>,
    /// Versions of the same name reached in addition to the witness endpoint.
    pub other_versions: Vec<String>,
}

/// A [`Match`] by the characters of its strings.
pub struct MatchView {
    pub name: Seq<char>,
    pub version: Seq<char>,
    pub witness: Seq<HopView>,
    pub other_versions: Seq<Seq<char>>,
}

impl View for Match {
    type V = MatchView;

    open spec fn view(&self) -> MatchView {
        MatchView {
            name: self.name@,
            version: self.version@,
            witness: hop_views(self.witness@),
            other_versions: texts(self.other_versions@),
        }
    }
}

/// The characters of each match.
pub open spec fn match_views(matches: Seq<Match>) -> Seq<MatchView> {
    Seq::new(matches.len(), |i: int| matches[i]@)
}

/// One workspace member that consumes a sealed package.
#[derive(Clone, Debug, PartialEq, Eq)]
pub struct SealedEntry {
    /// The consuming workspace member's package name.
    pub member: String,
    /// The forward-readable path from the consumer to the sealed package.
    pub witness: Vec<WitnessHop>,
}

/// A [`SealedEntry`] by the characters of its strings.
pub struct SealedView {
    pub member: Seq<char>,
    pub witness: Seq<HopView>,
}

impl View for SealedEntry {
    type V = SealedView;

    open spec fn view(&self) -> SealedView {
        SealedView { member: self.member@, witness: hop_views(self.witness@) }
    }
}

/// The characters of each entry.
pub open spec fn sealed_views(entries: Seq<SealedEntry>) -> Seq<SealedView> {
    Seq::new(entries.len(), |i: int| entries[i]@)
}

/// One failed graph rule and its evidence.
#[derive(Clone, Debug, PartialEq, Eq)]
pub struct Violation {
    /// The stable identifier of the failed rule.
    pub rule_id: String,
    /// The workspace package targeted by the failed rule.
    pub package: String,
    /// The rule kind (`deny`, `require`, `internal`, `leaf`, `direct`, or `sealed`).
    pub kind: &'static str,
    /// Names matched by a deny rule.
    pub matches: Vec<Match>,
    /// Unexpected names found by an exact-set rule.
    pub extra: Vec<Match>,
    /// Expected names absent from an exact-set rule's actual set, or the `require` patterns
    /// that matched nothing in the rule's closure.
    pub missing: Vec<String>,
    /// Workspace members that consume a sealed package.
    pub sealed_by: Vec<SealedEntry>,
    /// The source span of the failed rule.
    pub span: Span,
    /// The feature selection the failed rule's closure was narrowed to, or `None` when it read
    /// the workspace-unified closure.
    pub features: Option<Selection>,
    /// Names in the rule's unified closure that its activation removed, alphabetically; empty
    /// for a rule that narrows nothing.
    pub activation_pruned: Vec<String>,
}

/// A [`Violation`] by the characters of its strings.
pub struct ViolationView {
    pub rule_id: Seq<char>,
    pub package: Seq<char>,
    pub kind: Seq<char>,
    pub matches: Seq<MatchView>,
    pub extra: Seq<MatchView>,
    pub missing: Seq<Seq<char>>,
    pub sealed_by: Seq<SealedView>,
    pub span: (Seq<char>, nat, nat),
    pub features: Option<SelectionView>,
    pub activation_pruned: Seq<Seq<char>>,
}

/// The characters of a selection, if there is one.
pub open spec fn selection_view(selection: Option<Selection>) -> Option<SelectionView> {
    match selection {
        Some(selection) => Some(selection@),
        None => None,
    }
}

impl View for Violation {
    type V = ViolationView;

    open spec fn view(&self) -> ViolationView {
        ViolationView {
            rule_id: self.rule_id@,
            package: self.package@,
            kind: self.kind@,
            matches: match_views(self.matches@),
            extra: match_views(self.extra@),
            missing: texts(self.missing@),
            sealed_by: sealed_views(self.sealed_by@),
            span: self.span@,
            features: selection_view(self.features),
            activation_pruned: texts(self.activation_pruned@),
        }
    }
}

/// The characters of each violation.
pub open spec fn violation_views(violations: Seq<Violation>) -> Seq<ViolationView> {
    Seq::new(violations.len(), |i: int| violations[i]@)
}

/// The pass/fail status of one configured rule.
#[derive(Clone, Debug, PartialEq, Eq)]
pub struct RuleStatus {
    /// The stable rule identifier.
    pub id: String,
    /// The workspace package targeted by the rule, or `None` for the manifest rule.
    pub package: Option<String>,
    /// The rule kind (`deny`, `require`, `internal`, `leaf`, `direct`, or `sealed`).
    pub kind: &'static str,
    /// Whether the rule passed.
    pub passed: bool,
    /// The number of deny, extra or sealed entries for this rule; always zero for a `require`
    /// rule, whose count of unmatched patterns is `Violation::missing` instead.
    pub matched: u32,
    /// The feature selection this rule's closure was narrowed to, or `None` when it read the
    /// workspace-unified closure.
    pub features: Option<Selection>,
    /// Names in this rule's unified closure that its activation removed, alphabetically.
    ///
    /// Always empty for a rule without a selection, which narrows nothing.
    pub activation_pruned: Vec<String>,
}

/// A [`RuleStatus`] by the characters of its strings.
pub struct StatusView {
    pub id: Seq<char>,
    pub package: Option<Seq<char>>,
    pub kind: Seq<char>,
    pub passed: bool,
    pub matched: nat,
    pub features: Option<SelectionView>,
    pub activation_pruned: Seq<Seq<char>>,
}

impl View for RuleStatus {
    type V = StatusView;

    open spec fn view(&self) -> StatusView {
        StatusView {
            id: self.id@,
            package: text_view(self.package),
            kind: self.kind@,
            passed: self.passed,
            matched: self.matched as nat,
            features: selection_view(self.features),
            activation_pruned: texts(self.activation_pruned@),
        }
    }
}

/// The complete result of one rule evaluation pass.
#[derive(Clone, Debug, PartialEq, Eq)]
#[non_exhaustive]
pub struct Evaluation {
    /// One status for every configured rule, in configuration order.
    pub statuses: Vec<RuleStatus>,
    /// The failed rules, in their relative configuration order.
    pub violations: Vec<Violation>,
    /// The total number of deny, extra and sealed entries.
    ///
    /// `require` contributes nothing: its finding counts the patterns that matched nothing,
    /// which is not the same quantity every other contributor reports.
    pub matches: u32,
    /// The union of cfg-only and member-optional edges traversed by all traversals.
    pub superset_extra_edges: u32,
}

/// Whether `edge` is the first that leads from `from` to `to`.
pub open spec fn is_first_edge(view: GraphView, from: int, to: int, edge: int) -> bool {
    &&& view.joined(edge, from, to)
    &&& forall|e: int| 0 <= e < edge ==> !#[trigger] view.joined(e, from, to)
}

/// The first edge from `from` to `to`, if there is one.
pub open spec fn edge_of(view: GraphView, from: int, to: int) -> Option<int> {
    if exists|edge: int| is_first_edge(view, from, to, edge) {
        Some(choose|edge: int| is_first_edge(view, from, to, edge))
    } else {
        None
    }
}

pub(crate) proof fn first_edge_is_one(view: GraphView, from: int, to: int, edge: int)
    requires
        is_first_edge(view, from, to, edge),
    ensures
        edge_of(view, from, to) == Some(edge),
{
    let other = edge_of(view, from, to)->0;
    assert(is_first_edge(view, from, to, other));
    if other < edge {
        assert(!view.joined(other, from, to));
    } else if edge < other {
        assert(!view.joined(edge, from, to));
    }
}

/// The conditions of the first `upto` entries.
pub open spec fn targets_below(kinds: Seq<KindEntry>, upto: int) -> Seq<Seq<char>>
    decreases upto,
{
    if upto <= 0 {
        Seq::empty()
    } else {
        match kinds[upto - 1].target {
            Some(target) => targets_below(kinds, upto - 1).push(target@),
            None => targets_below(kinds, upto - 1),
        }
    }
}

/// The joined conditions of an edge that is there on some platforms only.
pub open spec fn edge_target_text(view: GraphView, edge: int) -> Option<Seq<char>> {
    let dep = view.edges[edge].dep;
    if !is_cfg_only(dep) {
        None
    } else {
        match dep.dep_kinds {
            Some(Decoded::Value(kinds)) => {
                let targets = targets_below(kinds@, kinds@.len() as int);
                if targets.len() == 0 {
                    None
                } else {
                    Some(text::joined(targets, ", "@))
                }
            },
            _ => None,
        }
    }
}

/// Whether the package that an edge leaves declares the dependency optional.
pub open spec fn is_optional_edge(view: GraphView, edge: int) -> bool {
    view.meta.packages@[view.edges[edge].from].dependencies is Value && view.optional_edge(edge)
}

/// The hop from `from` to `to`.
pub open spec fn hop_of(view: GraphView, from: int, to: int) -> HopView {
    let edge = edge_of(view, from, to);
    HopView {
        name: view.name(to),
        version: view.version(to),
        target: match edge {
            Some(edge) => edge_target_text(view, edge),
            None => None,
        },
        optional: match edge {
            Some(edge) => is_optional_edge(view, edge),
            None => false,
        },
    }
}

/// The hops of a path.
pub open spec fn hops_of(view: GraphView, path: Seq<int>) -> Seq<HopView> {
    Seq::new(
        if path.len() == 0 {
            0
        } else {
            (path.len() - 1) as nat
        },
        |i: int| hop_of(view, path[i], path[i + 1]),
    )
}

/// The versions of `nodes`.
pub open spec fn versions_of(view: GraphView, nodes: Seq<int>) -> Seq<Seq<char>> {
    Seq::new(nodes.len(), |i: int| view.version(nodes[i]))
}

/// Returns joined `cfg(...)` targets for an edge, or `None` when unconditional.
fn cfg_target(graph: &Graph<'_>, edge: u32) -> (target: Option<String>)
    requires
        graph.wf(),
        edge < graph@.edges.len(),
    ensures
        text_view(target) == edge_target_text(graph@, edge as int),
{
    if !graph.edge_is_cfg_only(edge) {
        return None;
    }
    let kinds = graph.edge_kinds(edge);
    let mut targets: Vec<String> = Vec::new();
    let mut at: usize = 0;
    assert(texts(targets@) =~= Seq::<Seq<char>>::empty());
    while at < kinds.len()
        invariant
            at <= kinds@.len(),
            texts(targets@) == targets_below(kinds@, at as int),
        decreases kinds@.len() - at,
    {
        if let Some(target) = &kinds[at].target {
            let ghost before = texts(targets@);
            targets.push(target.as_str().to_owned());
            assert(texts(targets@) =~= before.push(target@));
        }
        at = at + 1;
    }
    if targets.len() == 0 {
        None
    } else {
        Some(text::join(&targets, ", "))
    }
}

/// The hop from one package of a path to the next.
fn hop(graph: &Graph<'_>, from: u32, to: u32) -> (hop: WitnessHop)
    requires
        graph.wf(),
        from < graph@.count(),
        to < graph@.count(),
    ensures
        hop@ == hop_of(graph@, from as int, to as int),
{
    let edge = graph.edge_between(from, to);
    let (target, optional) = match edge {
        Some(edge) => {
            proof {
                first_edge_is_one(graph@, from as int, to as int, edge as int);
            }
            let optional = match graph.edge_declared_optional(edge) {
                Ok(optional) => optional,
                Err(_) => false,
            };
            (cfg_target(graph, edge), optional)
        },
        None => (None, false),
    };
    WitnessHop {
        name: graph.name(to).to_owned(),
        version: graph.version(to).to_owned(),
        target,
        optional,
    }
}

/// Whether `path` names packages of `view`.
pub open spec fn is_node_path(view: GraphView, path: Seq<int>) -> bool {
    forall|i: int| 0 <= i < path.len() ==> 0 <= #[trigger] path[i] < view.count()
}

/// Converts a path of packages into witness hops with cfg/optional annotations.
pub fn witness_hops(graph: &Graph<'_>, path: &Vec<u32>) -> (hops: Vec<WitnessHop>)
    requires
        graph.wf(),
        forall|i: int| 0 <= i < path@.len() ==> #[trigger] path@[i] < graph@.count(),
    ensures
        hop_views(hops@) == hops_of(graph@, path@.map_values(|node: u32| node as int)),
{
    let ghost nodes = path@.map_values(|node: u32| node as int);
    let mut hops: Vec<WitnessHop> = Vec::new();
    if path.len() == 0 {
        assert(hop_views(hops@) =~= hops_of(graph@, nodes));
        return hops;
    }
    let mut at: usize = 0;
    while at < path.len() - 1
        invariant
            graph.wf(),
            forall|i: int| 0 <= i < path@.len() ==> #[trigger] path@[i] < graph@.count(),
            nodes == path@.map_values(|node: u32| node as int),
            at <= path@.len() - 1,
            path@.len() > 0,
            hops@.len() == at,
            forall|i: int|
                0 <= i < at ==> (#[trigger] hops@[i])@ == hop_of(graph@, nodes[i], nodes[i + 1]),
        decreases path@.len() - at,
    {
        assert(nodes[at as int] == path@[at as int]);
        assert(nodes[at + 1] == path@[at + 1]);
        hops.push(hop(graph, path[at], path[at + 1]));
        at = at + 1;
    }
    assert(hop_views(hops@) =~= hops_of(graph@, nodes));
    hops
}

/// The versions of `nodes`.
fn versions(graph: &Graph<'_>, nodes: &Vec<u32>) -> (list: Vec<String>)
    requires
        graph.wf(),
        forall|i: int| 0 <= i < nodes@.len() ==> #[trigger] nodes@[i] < graph@.count(),
    ensures
        texts(list@) == versions_of(graph@, nodes@.map_values(|node: u32| node as int)),
{
    let mut list: Vec<String> = Vec::new();
    let mut at: usize = 0;
    while at < nodes.len()
        invariant
            graph.wf(),
            forall|i: int| 0 <= i < nodes@.len() ==> #[trigger] nodes@[i] < graph@.count(),
            at <= nodes@.len(),
            list@.len() == at,
            forall|i: int|
                0 <= i < at ==> (#[trigger] list@[i])@ == graph@.version(nodes@[i] as int),
        decreases nodes@.len() - at,
    {
        list.push(graph.version(nodes[at]).to_owned());
        at = at + 1;
    }
    assert(texts(list@) =~= versions_of(graph@, nodes@.map_values(|node: u32| node as int)));
    list
}

/// A list of numbers as a sequence of integers.
proof fn listed(list: Seq<u32>, found: Seq<int>)
    requires
        lists(list, found),
    ensures
        list.map_values(|node: u32| node as int) == found,
{
    assert(list.map_values(|node: u32| node as int) =~= found);
}

/// What is said of a name that a traversal found: the first package of that name, the shortest
/// path to it, and the versions of the others.
pub open spec fn match_of(view: GraphView, trail: Trail, name: int) -> MatchView {
    let first = first_found(view, trail, name);
    let named = view.named(name);
    MatchView {
        name: view.names[name],
        version: view.version(first),
        witness: hops_of(view, witness(trail, Direction::Forward, first)),
        other_versions: versions_of(
            view,
            others_found(trail.order, named, first, named.len() as int),
        ),
    }
}

/// The packages of a witness are packages of the graph.
pub(crate) proof fn witness_is_of_nodes(reach: &Reach<'_, '_>, node: int)
    requires
        reach.wf(),
        reach.trail().order.contains(node),
    ensures
        is_node_path(reach.view_of_graph(), witness(reach.trail(), reach.way(), node)),
{
    reach.is_traversal();
    let trail = reach.trail();
    let at = position(trail, node);
    path_is_of_nodes(reach, at);
    let path = trail_path(trail, at);
    if reach.way() == Direction::Reverse {
        assert forall|i: int| 0 <= i < path.reverse().len() implies 0 <= #[trigger] path.reverse()[i]
            < reach.view_of_graph().count() by {
            assert(path.reverse()[i] == path[path.len() - 1 - i]);
        }
    }
}

proof fn path_is_of_nodes(reach: &Reach<'_, '_>, at: int)
    requires
        reach.wf(),
        0 <= at < reach.trail().order.len(),
    ensures
        is_node_path(
            reach.view_of_graph(),
            trail_path(reach.trail(), at),
        ),
    decreases at,
{
    reach.is_traversal();
    let trail = reach.trail();
    paths::trail_path_leads(reach.steps(), reach.start(), trail, at);
    if at > 0 {
        assert(0 <= trail.from[at] < at);
        path_is_of_nodes(reach, trail.from[at]);
        let before = trail_path(trail, trail.from[at]);
        let path = trail_path(trail, at);
        assert forall|i: int| 0 <= i < path.len() implies 0 <= #[trigger] path[i]
            < reach.view_of_graph().count() by {
            if i < before.len() {
                assert(path[i] == before[i]);
            } else {
                assert(path[i] == trail.order[at]);
            }
        }
    } else {
        let path = trail_path(trail, at);
        assert forall|i: int| 0 <= i < path.len() implies 0 <= #[trigger] path[i]
            < reach.view_of_graph().count() by {
            assert(path[i] == trail.order[0]);
        }
    }
}

/// What is said of a name that `reach` found.
fn reach_match(graph: &Graph<'_>, reach: &Reach<'_, '_>, name: u32) -> (found: Match)
    requires
        graph.wf(),
        reach.wf(),
        reach.view_of_graph() == graph@,
        reach.way() == Direction::Forward,
        name < graph@.names.len(),
        names_node(reach.trail().order, graph@.name_of, name as int),
    ensures
        found@ == match_of(graph@, reach.trail(), name as int),
{
    let first = match reach.first_node_of_name(name) {
        Some(first) => first,
        None => {
            assert(false);
            0
        },
    };
    match reach.witness_with_versions(name) {
        Some((path, others)) => {
            let ghost view = graph@;
            let ghost named = view.named(name as int);
            proof {
                witness_is_of_nodes(reach, first as int);
                listed(path@, witness(reach.trail(), Direction::Forward, first as int));
                listed(
                    others@,
                    others_found(reach.trail().order, named, first as int, named.len() as int),
                );
                assert forall|i: int| 0 <= i < path@.len() implies #[trigger] path@[i]
                    < graph@.count() by {
                    assert(path@[i] == witness(
                        reach.trail(),
                        Direction::Forward,
                        first as int,
                    )[i]);
                }
            }
            Match {
                name: graph.name_str(name).to_owned(),
                version: graph.version(first).to_owned(),
                witness: witness_hops(graph, &path),
                other_versions: versions(graph, &others),
            }
        },
        None => {
            assert(false);
            vstd::pervasive::unreached()
        },
    }
}


/// What a rule says of a graph.
pub struct VerdictView {
    /// Whether the rule passed.
    pub passed: bool,
    /// The number of names or members that the rule found and should not have.
    pub matched: nat,
    /// The evidence, when the rule failed.
    pub violation: Option<ViolationView>,
    /// The names that the rule's activation removed from its closure.
    pub pruned: Seq<Seq<char>>,
}

/// The word for a rule kind.
pub open spec fn kind_text(kind: RuleKindView) -> Seq<char> {
    match kind {
        RuleKindView::Deny { .. } => "deny"@,
        RuleKindView::Require(_) => "require"@,
        RuleKindView::Internal(_) => "internal"@,
        RuleKindView::Leaf => "leaf"@,
        RuleKindView::Direct(_) => "direct"@,
        RuleKindView::Sealed => "sealed"@,
    }
}

/// The selection a rule's records report: the one its closure was narrowed to, and `None` for
/// the kinds that read no closure, whose records must not claim a narrowing that did not apply.
pub open spec fn reported_selection(rule: RuleView) -> Option<SelectionView> {
    if rule.kind.reads_closure() {
        match rule.features {
            Some((selection, _)) => Some(selection),
            None => None,
        }
    } else {
        None
    }
}

/// The violation of a rule without any evidence.
pub open spec fn empty_violation_of(rule: RuleView) -> ViolationView {
    ViolationView {
        rule_id: rule.id,
        package: rule.package,
        kind: kind_text(rule.kind),
        matches: Seq::empty(),
        extra: Seq::empty(),
        missing: Seq::empty(),
        sealed_by: Seq::empty(),
        span: rule.span,
        features: reported_selection(rule),
        activation_pruned: Seq::empty(),
    }
}

/// The rule passed.
pub open spec fn pass() -> VerdictView {
    VerdictView { passed: true, matched: 0, violation: None, pruned: Seq::empty() }
}

/// The rule cannot be answered, and fails without evidence.
pub open spec fn closed_failure(rule: RuleView) -> VerdictView {
    VerdictView {
        passed: false,
        matched: 0,
        violation: Some(empty_violation_of(rule)),
        pruned: Seq::empty(),
    }
}

/// The names below `upto` that a traversal found and that are `wanted`, the root's own name
/// apart.
pub open spec fn found_names(
    view: GraphView,
    trail: Trail,
    root: int,
    wanted: spec_fn(int) -> bool,
    upto: int,
) -> Seq<int>
    decreases upto,
{
    if upto <= 0 {
        Seq::empty()
    } else {
        let before = found_names(view, trail, root, wanted, upto - 1);
        if names_node(trail.order, view.name_of, upto - 1) && upto - 1 != view.name_of[root]
            && wanted(upto - 1) {
            before.push(upto - 1)
        } else {
            before
        }
    }
}

/// What is said of each of the names `found`.
pub open spec fn matches_of(view: GraphView, trail: Trail, found: Seq<int>) -> Seq<MatchView> {
    Seq::new(found.len(), |i: int| match_of(view, trail, found[i]))
}

/// Whether a `deny` rule rejects the name with id `name`.
pub open spec fn is_denied(view: GraphView, exact: Seq<Seq<char>>, globs: Seq<Seq<char>>) -> spec_fn(
    int,
) -> bool {
    |name: int| exact.contains(view.names[name]) || globs::any_matches(globs, view.names[name])
}

/// What a `deny` rule says: no name that it rejects may be in the closure. The closure has the
/// rule's own package in it, whose name never matches.
pub open spec fn deny_verdict(
    view: GraphView,
    rule: RuleView,
    trail: Trail,
    root: int,
    exact: Seq<Seq<char>>,
    globs: Seq<Seq<char>>,
) -> VerdictView {
    let found = found_names(
        view,
        trail,
        root,
        is_denied(view, exact, globs),
        view.names.len() as int,
    );
    if found.len() == 0 {
        pass()
    } else {
        VerdictView {
            passed: false,
            matched: saturated(found.len()),
            violation: Some(
                ViolationView {
                    matches: matches_of(view, trail, found),
                    ..empty_violation_of(rule)
                },
            ),
            pruned: Seq::empty(),
        }
    }
}

/// Whether some name in the closure, other than the root's own, satisfies a pattern.
pub open spec fn is_met(view: GraphView, trail: Trail, root: int, pattern: PatternView) -> bool {
    exists|name: int|
        #![trigger view.names[name]]
        0 <= name < view.names.len() && names_node(trail.order, view.name_of, name) && name
            != view.name_of[root] && pattern.matches(view.names[name])
}

/// The first `upto` patterns that nothing in the closure satisfies, as they were written.
pub open spec fn unmet(
    view: GraphView,
    trail: Trail,
    root: int,
    patterns: Seq<PatternView>,
    upto: int,
) -> Seq<Seq<char>>
    decreases upto,
{
    if upto <= 0 {
        Seq::empty()
    } else {
        let before = unmet(view, trail, root, patterns, upto - 1);
        if is_met(view, trail, root, patterns[upto - 1]) {
            before
        } else {
            before.push(patterns[upto - 1].written())
        }
    }
}

/// What a `require` rule says: every pattern must match some name in the closure. The patterns
/// that matched nothing are no findings, so none are counted.
pub open spec fn require_verdict(
    view: GraphView,
    rule: RuleView,
    trail: Trail,
    root: int,
    patterns: Seq<PatternView>,
) -> VerdictView {
    let missing = unmet(view, trail, root, patterns, patterns.len() as int);
    if missing.len() == 0 {
        pass()
    } else {
        VerdictView {
            passed: false,
            matched: 0,
            violation: Some(ViolationView { missing, ..empty_violation_of(rule) }),
            pruned: Seq::empty(),
        }
    }
}

/// Whether the packages of a name are internal to the workspace.
pub open spec fn is_internal(view: GraphView, config: ConfigView, name: int) -> bool {
    ||| config.members && exists|i: int|
        0 <= i < view.members.len() && view.name_of[#[trigger] view.members[i]] == name
    ||| globs::any_matches(config.patterns, view.names[name])
}

/// Whether an internal name is not among the expected ones.
pub open spec fn is_unexpected(view: GraphView, config: ConfigView, expected: Seq<Seq<char>>) -> spec_fn(
    int,
) -> bool {
    |name: int| is_internal(view, config, name) && !expected.contains(view.names[name])
}

/// Whether an internal package in the closure, other than the root, is named `name`.
pub open spec fn has_internal(
    view: GraphView,
    config: ConfigView,
    trail: Trail,
    root: int,
    name: Seq<char>,
) -> bool {
    exists|id: int|
        #![trigger view.names[id]]
        0 <= id < view.names.len() && names_node(trail.order, view.name_of, id) && id
            != view.name_of[root] && is_internal(view, config, id) && view.names[id] == name
}

/// The first `upto` expected names that are not there.
pub open spec fn absent(expected: Seq<Seq<char>>, there: spec_fn(Seq<char>) -> bool, upto: int) -> Seq<
    Seq<char>,
>
    decreases upto,
{
    if upto <= 0 {
        Seq::empty()
    } else if there(expected[upto - 1]) {
        absent(expected, there, upto - 1)
    } else {
        absent(expected, there, upto - 1).push(expected[upto - 1])
    }
}

/// The verdict of a rule that compares what is there with what is expected.
pub open spec fn exact_verdict(rule: RuleView, extra: Seq<MatchView>, missing: Seq<Seq<char>>) -> VerdictView {
    if extra.len() == 0 && missing.len() == 0 {
        pass()
    } else {
        VerdictView {
            passed: false,
            matched: saturated(extra.len()),
            violation: Some(ViolationView { extra, missing, ..empty_violation_of(rule) }),
            pruned: Seq::empty(),
        }
    }
}

/// What an `internal` rule says: the internal packages of the closure, the root apart, are
/// exactly the expected ones.
pub open spec fn internal_verdict(
    view: GraphView,
    config: ConfigView,
    rule: RuleView,
    trail: Trail,
    root: int,
    expected: Seq<Seq<char>>,
) -> VerdictView {
    let found = found_names(
        view,
        trail,
        root,
        is_unexpected(view, config, expected),
        view.names.len() as int,
    );
    exact_verdict(
        rule,
        matches_of(view, trail, found),
        absent(
            expected,
            |name: Seq<char>| has_internal(view, config, trail, root, name),
            expected.len() as int,
        ),
    )
}

/// What a rule that reads a closure says of the closure `trail`.
pub open spec fn closure_verdict(
    view: GraphView,
    config: ConfigView,
    rule: RuleView,
    trail: Trail,
    root: int,
) -> VerdictView {
    match rule.kind {
        RuleKindView::Deny { exact, globs, .. } => deny_verdict(
            view,
            rule,
            trail,
            root,
            exact,
            globs,
        ),
        RuleKindView::Require(patterns) => require_verdict(view, rule, trail, root, patterns),
        RuleKindView::Internal(expected) => internal_verdict(
            view,
            config,
            rule,
            trail,
            root,
            expected,
        ),
        _ => internal_verdict(view, config, rule, trail, root, Seq::empty()),
    }
}

/// The direct dependencies of `root` among the first `upto` that are named `name`.
pub open spec fn direct_named(view: GraphView, root: int, name: Seq<char>, upto: int) -> Seq<int>
    decreases upto,
{
    if upto <= 0 {
        Seq::empty()
    } else {
        let node = view.direct(root)[upto - 1];
        let before = direct_named(view, root, name, upto - 1);
        if view.name(node) == name {
            before.push(node)
        } else {
            before
        }
    }
}

/// The names of the first `upto` direct dependencies of `root`.
pub open spec fn direct_names(view: GraphView, root: int, upto: int) -> Seq<Seq<char>> {
    Seq::new(upto as nat, |i: int| view.name(view.direct(root)[i]))
}

/// What is said of a direct dependency: the first package of that name, and the versions of the
/// others.
pub open spec fn direct_match(view: GraphView, root: int, name: Seq<char>) -> MatchView {
    let nodes = direct_named(view, root, name, view.direct(root).len() as int);
    MatchView {
        name,
        version: view.version(nodes[0]),
        witness: hops_of(view, seq![root, nodes[0]]),
        other_versions: versions_of(view, nodes.skip(1)),
    }
}

/// The first `upto` names that are not expected.
pub open spec fn unexpected(names: Seq<Seq<char>>, expected: Seq<Seq<char>>, upto: int) -> Seq<Seq<char>>
    decreases upto,
{
    if upto <= 0 {
        Seq::empty()
    } else if expected.contains(names[upto - 1]) {
        unexpected(names, expected, upto - 1)
    } else {
        unexpected(names, expected, upto - 1).push(names[upto - 1])
    }
}

/// What a `direct` rule says: the direct dependencies are named exactly as expected.
pub open spec fn direct_verdict(
    view: GraphView,
    rule: RuleView,
    root: int,
    expected: Seq<Seq<char>>,
) -> VerdictView {
    let there = direct_names(view, root, view.direct(root).len() as int);
    let sorted = names::distinct(there);
    let extra = unexpected(sorted, expected, sorted.len() as int);
    exact_verdict(
        rule,
        Seq::new(extra.len(), |i: int| direct_match(view, root, extra[i])),
        absent(expected, |name: Seq<char>| there.contains(name), expected.len() as int),
    )
}

/// What a `sealed` rule says: no other member depends on the package. `trail` is the traversal
/// of what depends on `root`.
pub open spec fn sealed_verdict(view: GraphView, rule: RuleView, trail: Trail, root: int) -> VerdictView {
    let found = members_found(trail.order, view.members, root, view.count());
    if found.len() == 0 {
        pass()
    } else {
        VerdictView {
            passed: false,
            matched: saturated(found.len()),
            violation: Some(
                ViolationView {
                    sealed_by: Seq::new(
                        found.len(),
                        |i: int|
                            SealedView {
                                member: view.name(found[i]),
                                witness: hops_of(
                                    view,
                                    witness(trail, Direction::Reverse, found[i]),
                                ),
                            },
                    ),
                    ..empty_violation_of(rule)
                },
            ),
            pruned: Seq::empty(),
        }
    }
}

/// The closure of the whole graph from `root`.
pub open spec fn unified_closure(view: GraphView, root: int) -> Trail {
    traversal(view.forward(), root)
}

/// The closure from `root` over what `selection` turns on.
pub open spec fn narrowed_closure(view: GraphView, root: int, selection: SelectionView) -> Trail {
    traversal(view.steps(activation_of(view, root, selection).edges), root)
}

/// The names below `upto` that are in `wide` and not in `narrow`.
pub open spec fn names_between(view: GraphView, wide: Trail, narrow: Trail, upto: int) -> Seq<Seq<char>>
    decreases upto,
{
    if upto <= 0 {
        Seq::empty()
    } else {
        let before = names_between(view, wide, narrow, upto - 1);
        if names_node(wide.order, view.name_of, upto - 1) && !names_node(
            narrow.order,
            view.name_of,
            upto - 1,
        ) {
            before.push(view.names[upto - 1])
        } else {
            before
        }
    }
}

/// The names that `selection` removes from the closure of `root`, alphabetically.
pub open spec fn pruned_of(view: GraphView, root: int, selection: SelectionView) -> Seq<Seq<char>> {
    names::distinct(
        names_between(
            view,
            unified_closure(view, root),
            narrowed_closure(view, root, selection),
            view.names.len() as int,
        ),
    )
}

/// A verdict with the names that were pruned.
pub open spec fn with_pruned(verdict: VerdictView, pruned: Seq<Seq<char>>) -> VerdictView {
    VerdictView {
        violation: match verdict.violation {
            Some(violation) => Some(ViolationView { activation_pruned: pruned, ..violation }),
            None => None,
        },
        pruned,
        ..verdict
    }
}

/// What a rule rooted at `root` says.
///
/// A rule with a feature selection is answered on the closure that the selection turns on. One
/// whose packages cannot be decoded fails: a rule must not pass because its evidence is missing.
pub open spec fn rooted_verdict(view: GraphView, config: ConfigView, rule: RuleView, root: int) -> VerdictView {
    match rule.kind {
        RuleKindView::Direct(expected) => direct_verdict(view, rule, root, expected),
        RuleKindView::Sealed => sealed_verdict(
            view,
            rule,
            traversal(view.backward(), root),
            root,
        ),
        _ => match rule.features {
            None => closure_verdict(view, config, rule, unified_closure(view, root), root),
            Some((selection, _)) => if is_decodable(view, root, selection) {
                with_pruned(
                    closure_verdict(
                        view,
                        config,
                        rule,
                        narrowed_closure(view, root, selection),
                        root,
                    ),
                    pruned_of(view, root, selection),
                )
            } else {
                closed_failure(rule)
            },
        },
    }
}

/// What a rule says of a graph. A rule on a package that is no member fails.
pub open spec fn verdict_of(view: GraphView, config: ConfigView, rule: RuleView) -> VerdictView {
    match root_of(view, rule.package) {
        None => closed_failure(rule),
        Some(root) => rooted_verdict(view, config, rule, root),
    }
}

/// The record of a rule's verdict.
pub open spec fn status_of(view: GraphView, config: ConfigView, rule: RuleView) -> StatusView {
    let verdict = verdict_of(view, config, rule);
    StatusView {
        id: rule.id,
        package: Some(rule.package),
        kind: kind_text(rule.kind),
        passed: verdict.passed,
        matched: verdict.matched,
        features: reported_selection(rule),
        activation_pruned: verdict.pruned,
    }
}

/// The result of one rule.
struct RuleResult {
    passed: bool,
    matched: u32,
    violation: Option<Violation>,
}

/// The characters of a violation, if there is one.
pub open spec fn evidence_view(violation: Option<Violation>) -> Option<ViolationView> {
    match violation {
        Some(violation) => Some(violation@),
        None => None,
    }
}

impl RuleResult {
    /// Whether the result is `verdict`, but for the names that were pruned.
    spec fn is_verdict(&self, verdict: VerdictView) -> bool {
        &&& self.passed == verdict.passed
        &&& self.matched == verdict.matched
        &&& evidence_view(self.violation) == verdict.violation
    }
}

fn kind_name(kind: &RuleKind) -> (name: &'static str)
    ensures
        name@ == kind_text(kind@),
{
    match kind {
        RuleKind::Deny { .. } => "deny",
        RuleKind::Require(_) => "require",
        RuleKind::Internal(_) => "internal",
        RuleKind::Leaf => "leaf",
        RuleKind::Direct(_) => "direct",
        RuleKind::Sealed => "sealed",
    }
}

fn rule_selection(rule: &Rule) -> (selection: Option<Selection>)
    ensures
        selection_view(selection) == reported_selection(rule@),
{
    if !rule.kind.reads_closure() {
        return None;
    }
    match &rule.features {
        Some(features) => Some(features.selection.copied()),
        None => None,
    }
}

fn empty_violation(rule: &Rule) -> (violation: Violation)
    ensures
        violation@ == empty_violation_of(rule@),
{
    let violation = Violation {
        rule_id: rule.id.as_str().to_owned(),
        package: rule.package.as_str().to_owned(),
        kind: kind_name(&rule.kind),
        matches: Vec::new(),
        extra: Vec::new(),
        missing: Vec::new(),
        sealed_by: Vec::new(),
        span: rule.span.copied(),
        features: rule_selection(rule),
        activation_pruned: Vec::new(),
    };
    proof {
        assert(match_views(violation.matches@) =~= Seq::<MatchView>::empty());
        assert(texts(violation.missing@) =~= Seq::<Seq<char>>::empty());
        assert(texts(violation.activation_pruned@) =~= Seq::<Seq<char>>::empty());
        assert(sealed_views(violation.sealed_by@) =~= Seq::<SealedView>::empty());
    }
    violation
}

fn passed_result() -> (result: RuleResult)
    ensures
        result.is_verdict(pass()),
{
    RuleResult { passed: true, matched: 0, violation: None }
}

fn invariant_failure(rule: &Rule) -> (result: RuleResult)
    ensures
        result.is_verdict(closed_failure(rule@)),
{
    RuleResult { passed: false, matched: 0, violation: Some(empty_violation(rule)) }
}

/// The smaller of `count` and the largest `u32`.
pub(crate) fn count_u32(count: usize) -> (value: u32)
    ensures
        value == saturated(count as nat),
{
    if count > 4294967295 {
        u32::MAX
    } else {
        count as u32
    }
}

proof fn matches_grow(
    view: GraphView,
    trail: Trail,
    matches: Seq<Match>,
    found: Seq<int>,
    more: Match,
    name: int,
)
    requires
        match_views(matches) == matches_of(view, trail, found),
        more@ == match_of(view, trail, name),
    ensures
        match_views(matches.push(more)) == matches_of(view, trail, found.push(name)),
{
    let left = match_views(matches.push(more));
    let right = matches_of(view, trail, found.push(name));
    assert(match_views(matches).len() == matches.len());
    assert(matches_of(view, trail, found).len() == found.len());
    assert forall|i: int| 0 <= i < left.len() implies left[i] == right[i] by {
        if i < matches.len() {
            assert(match_views(matches)[i] == matches[i]@);
            assert(matches_of(view, trail, found)[i] == match_of(view, trail, found[i]));
        }
    }
    assert(left =~= right);
}

fn evaluate_deny(
    rule: &Rule,
    graph: &Graph<'_>,
    reach: &Reach<'_, '_>,
    root: u32,
    exact: &Vec<String>,
    globs: &globset::GlobSet,
) -> (result: RuleResult)
    requires
        graph.wf(),
        reach.wf(),
        reach.view_of_graph() == graph@,
        reach.way() == Direction::Forward,
        root < graph@.count(),
    ensures
        result.is_verdict(
            deny_verdict(
                graph@,
                rule@,
                reach.trail(),
                root as int,
                texts(exact@),
                globs::patterns(*globs),
            ),
        ),
{
    let ghost wanted = is_denied(graph@, texts(exact@), globs::patterns(*globs));
    let ghost trail = reach.trail();
    let root_name = graph.name_id(root);
    let count = graph.name_count();
    let mut matches: Vec<Match> = Vec::new();
    let mut name: u32 = 0;
    while name < count
        invariant
            graph.wf(),
            reach.wf(),
            reach.view_of_graph() == graph@,
            reach.way() == Direction::Forward,
            trail == reach.trail(),
            wanted == is_denied(graph@, texts(exact@), globs::patterns(*globs)),
            root < graph@.count(),
            root_name == graph@.name_of[root as int],
            count == graph@.names.len(),
            name <= count,
            match_views(matches@) == matches_of(
                graph@,
                trail,
                found_names(graph@, trail, root as int, wanted, name as int),
            ),
        decreases count - name,
    {
        let ghost found = found_names(graph@, trail, root as int, wanted, name as int);
        if reach.contains_name(name) && name != root_name {
            let text = graph.name_str(name);
            let denied = text::contains(exact, text) || globs::is_match(globs, text);
            assert(denied == wanted(name as int));
            if denied {
                let ghost before = matches@;
                matches.push(reach_match(graph, reach, name));
                proof {
                    matches_grow(graph@, trail, before, found, matches@.last(), name as int);
                    assert(matches@ =~= before.push(matches@.last()));
                }
            }
        }
        name = name + 1;
    }
    if matches.len() == 0 {
        assert(match_views(matches@).len() == 0);
        return passed_result();
    }
    assert(match_views(matches@).len() == matches@.len());
    let matched = count_u32(matches.len());
    let mut violation = empty_violation(rule);
    violation.matches = matches;
    RuleResult { passed: false, matched, violation: Some(violation) }
}


fn is_required_name_reached(
    graph: &Graph<'_>,
    reach: &Reach<'_, '_>,
    root: u32,
    pattern: &RequirePattern,
) -> (met: bool)
    requires
        graph.wf(),
        reach.wf(),
        reach.view_of_graph() == graph@,
        root < graph@.count(),
        pattern.wf(),
    ensures
        met == is_met(graph@, reach.trail(), root as int, pattern@),
{
    let root_name = graph.name_id(root);
    match pattern {
        RequirePattern::Exact(name) => {
            match graph.lookup_name(name.as_str()) {
                None => {
                    assert forall|id: int| 0 <= id < graph@.names.len() implies
                        #[trigger] graph@.names[id] != name@ by {
                        if graph@.names[id] == name@ {
                            assert(graph@.names.contains(name@));
                        }
                    }
                    false
                },
                Some(id) => {
                    proof {
                        graph.is_consistent();
                        assert(graph@.names[id as int] == name@);
                        assert forall|other: int| 0 <= other < graph@.names.len()
                            && #[trigger] graph@.names[other] == name@ implies other == id by {}
                    }
                    id != root_name && reach.contains_name(id)
                },
            }
        },
        RequirePattern::Glob(_, _) => {
            let count = graph.name_count();
            let mut name: u32 = 0;
            while name < count
                invariant
                    graph.wf(),
                    reach.wf(),
                    reach.view_of_graph() == graph@,
                    root < graph@.count(),
                    pattern.wf(),
                    root_name == graph@.name_of[root as int],
                    count == graph@.names.len(),
                    name <= count,
                    forall|id: int|
                        #![trigger graph@.names[id]]
                        0 <= id < name ==> !(names_node(reach.trail().order, graph@.name_of, id)
                            && id != root_name && pattern@.matches(graph@.names[id])),
                decreases count - name,
            {
                assert(graph@.names[name as int] == graph@.names[name as int]);
                if name != root_name && reach.contains_name(name) && pattern.is_match(
                    graph.name_str(name),
                ) {
                    return true;
                }
                name = name + 1;
            }
            false
        },
    }
}

/// Evaluates a `require` rule: every pattern must match some name in the closure.
///
/// The verdict is taken per pattern rather than per reached name, so the violation can list
/// exactly the patterns that matched nothing, in declaration order.
fn evaluate_require(
    rule: &Rule,
    graph: &Graph<'_>,
    reach: &Reach<'_, '_>,
    root: u32,
    patterns: &Vec<RequirePattern>,
) -> (result: RuleResult)
    requires
        graph.wf(),
        reach.wf(),
        reach.view_of_graph() == graph@,
        root < graph@.count(),
        forall|i: int| 0 <= i < patterns@.len() ==> (#[trigger] patterns@[i]).wf(),
    ensures
        result.is_verdict(
            require_verdict(
                graph@,
                rule@,
                reach.trail(),
                root as int,
                config::pattern_views(patterns@),
            ),
        ),
{
    let ghost views = config::pattern_views(patterns@);
    let mut missing: Vec<String> = Vec::new();
    let mut at: usize = 0;
    assert(texts(missing@) =~= Seq::<Seq<char>>::empty());
    while at < patterns.len()
        invariant
            graph.wf(),
            reach.wf(),
            reach.view_of_graph() == graph@,
            root < graph@.count(),
            forall|i: int| 0 <= i < patterns@.len() ==> (#[trigger] patterns@[i]).wf(),
            views == config::pattern_views(patterns@),
            at <= patterns@.len(),
            texts(missing@) == unmet(graph@, reach.trail(), root as int, views, at as int),
        decreases patterns@.len() - at,
    {
        assert(views[at as int] == patterns@[at as int]@);
        if !is_required_name_reached(graph, reach, root, &patterns[at]) {
            let ghost before = texts(missing@);
            missing.push(patterns[at].as_str().to_owned());
            assert(texts(missing@) =~= before.push(patterns@[at as int]@.written()));
        }
        at = at + 1;
    }
    assert(texts(missing@).len() == missing@.len());
    if missing.len() == 0 {
        return passed_result();
    }
    let mut violation = empty_violation(rule);
    violation.missing = missing;
    RuleResult { passed: false, matched: 0, violation: Some(violation) }
}

/// Whether `mask` holds the internal names.
spec fn masks(mask: FixedBitSet, view: GraphView, config: ConfigView) -> bool {
    &&& bits::capacity(mask) == view.names.len()
    &&& forall|name: int|
        0 <= name < view.names.len() ==> (#[trigger] bits::ones(mask).contains(name)
            <==> is_internal(view, config, name))
}

/// The names of the packages that are internal to the workspace.
fn internal_mask(graph: &Graph<'_>, config: &Config) -> (mask: FixedBitSet)
    requires
        graph.wf(),
    ensures
        masks(mask, graph@, config@),
{
    proof {
        graph.is_consistent();
    }
    let count = graph.name_count();
    let members = graph.members();
    let mut mask = bits::with_capacity(count as usize);
    if config.internal.members {
        let mut at: usize = 0;
        while at < members.len()
            invariant
                graph.wf(),
                graph@.consistent(),
                at <= members@.len(),
                lists(members@, graph@.members),
                count == graph@.names.len(),
                bits::capacity(mask) == count,
                forall|name: int| #[trigger]
                    bits::ones(mask).contains(name) <==> exists|i: int|
                        0 <= i < at && graph@.name_of[#[trigger] graph@.members[i]] == name,
            decreases members@.len() - at,
        {
            let member = members[at];
            assert(member == graph@.members[at as int]);
            let ghost was = bits::ones(mask);
            let name = graph.name_id(member);
            bits::insert(&mut mask, name as usize);
            assert forall|name: int| #[trigger]
                bits::ones(mask).contains(name) <==> exists|i: int|
                0 <= i < at + 1 && graph@.name_of[#[trigger] graph@.members[i]] == name by {
                assert(was.contains(name) <==> exists|i: int|
                    0 <= i < at && graph@.name_of[#[trigger] graph@.members[i]] == name);
                if was.contains(name) {
                    let i = choose|i: int|
                        0 <= i < at && graph@.name_of[#[trigger] graph@.members[i]] == name;
                    assert(graph@.name_of[graph@.members[i]] == name);
                }
                if name == graph@.name_of[graph@.members[at as int]] {
                    assert(0 <= at < at + 1);
                }
            }
            at = at + 1;
        }
    }
    let mut name: u32 = 0;
    while name < count
        invariant
            graph.wf(),
            count == graph@.names.len(),
            name <= count,
            bits::capacity(mask) == count,
            forall|id: int|
                0 <= id < name ==> (#[trigger] bits::ones(mask).contains(id) <==> is_internal(
                    graph@,
                    config@,
                    id,
                )),
            forall|id: int|
                name <= id < count ==> (#[trigger] bits::ones(mask).contains(id) <==> (
                config.internal.members && exists|i: int|
                    0 <= i < graph@.members.len() && graph@.name_of[#[trigger] graph@.members[i]]
                        == id)),
        decreases count - name,
    {
        let ghost was = bits::ones(mask);
        if globs::is_match(&config.internal.patterns, graph.name_str(name)) {
            bits::insert(&mut mask, name as usize);
        }
        assert(was.contains(name as int) <==> (config.internal.members && exists|i: int|
            0 <= i < graph@.members.len() && graph@.name_of[#[trigger] graph@.members[i]] == name
                as int));
        name = name + 1;
    }
    mask
}

fn evaluate_internal(
    rule: &Rule,
    graph: &Graph<'_>,
    reach: &Reach<'_, '_>,
    root: u32,
    mask: &FixedBitSet,
    expected: &Vec<String>,
    Ghost(config): Ghost<ConfigView>,
) -> (result: RuleResult)
    requires
        graph.wf(),
        reach.wf(),
        reach.view_of_graph() == graph@,
        reach.way() == Direction::Forward,
        root < graph@.count(),
        masks(*mask, graph@, config),
    ensures
        result.is_verdict(
            internal_verdict(
                graph@,
                config,
                rule@,
                reach.trail(),
                root as int,
                texts(expected@),
            ),
        ),
{
    let ghost trail = reach.trail();
    let ghost view = graph@;
    let ghost wanted = is_unexpected(view, config, texts(expected@));
    let root_name = graph.name_id(root);
    let count = graph.name_count();
    let mut actual: Vec<String> = Vec::new();
    let mut extra: Vec<Match> = Vec::new();
    let mut name: u32 = 0;
    assert(texts(actual@) =~= Seq::<Seq<char>>::empty());
    while name < count
        invariant
            graph.wf(),
            reach.wf(),
            reach.view_of_graph() == graph@,
            reach.way() == Direction::Forward,
            view == graph@,
            trail == reach.trail(),
            masks(*mask, view, config),
            wanted == is_unexpected(view, config, texts(expected@)),
            root < view.count(),
            root_name == view.name_of[root as int],
            count == view.names.len(),
            name <= count,
            forall|text: Seq<char>| #[trigger]
                texts(actual@).contains(text) <==> exists|id: int|
                    #![trigger view.names[id]]
                    0 <= id < name && names_node(trail.order, view.name_of, id) && id
                        != view.name_of[root as int] && is_internal(view, config, id)
                        && view.names[id] == text,
            match_views(extra@) == matches_of(
                view,
                trail,
                found_names(view, trail, root as int, wanted, name as int),
            ),
        decreases count - name,
    {
        let ghost found = found_names(view, trail, root as int, wanted, name as int);
        let ghost was = texts(actual@);
        let inside = reach.contains_name(name) && name != root_name && bits::contains(
            mask,
            name as usize,
        );
        if inside {
            let text = graph.name_str(name);
            actual.push(text.to_owned());
            let known = text::contains(expected, text);
            assert(wanted(name as int) == !known);
            if !known {
                let ghost before = extra@;
                extra.push(reach_match(graph, reach, name));
                proof {
                    matches_grow(view, trail, before, found, extra@.last(), name as int);
                    assert(extra@ =~= before.push(extra@.last()));
                }
            }
        }
        proof {
            let now = texts(actual@);
            assert forall|text: Seq<char>| #[trigger] now.contains(text) <==> exists|id: int|
                #![trigger view.names[id]]
                0 <= id < name + 1 && names_node(trail.order, view.name_of, id) && id
                    != view.name_of[root as int] && is_internal(view, config, id)
                    && view.names[id] == text by {
                assert(was.contains(text) <==> exists|id: int|
                    #![trigger view.names[id]]
                    0 <= id < name && names_node(trail.order, view.name_of, id) && id
                        != view.name_of[root as int] && is_internal(view, config, id)
                        && view.names[id] == text);
                if inside {
                    assert(now =~= was.push(view.names[name as int]));
                    assert(now[was.len() as int] == view.names[name as int]);
                    if was.contains(text) {
                        let k = choose|k: int| 0 <= k < was.len() && was[k] == text;
                        assert(now[k] == text);
                    }
                    if now.contains(text) {
                        let k = choose|k: int| 0 <= k < now.len() && now[k] == text;
                        if k < was.len() {
                            assert(was[k] == text);
                        }
                    }
                }
            }
        }
        name = name + 1;
    }
    let ghost there = |text: Seq<char>| has_internal(view, config, trail, root as int, text);
    assert forall|text: Seq<char>| #[trigger] texts(actual@).contains(text) <==> there(text) by {}
    let missing = missing_names(expected, &actual, Ghost(there));
    exact_result(rule, extra, missing)
}

/// The expected names that are not there.
fn missing_names(
    expected: &Vec<String>,
    actual: &Vec<String>,
    Ghost(there): Ghost<spec_fn(Seq<char>) -> bool>,
) -> (missing: Vec<String>)
    requires
        forall|text: Seq<char>| #[trigger] texts(actual@).contains(text) <==> there(text),
    ensures
        texts(missing@) == absent(texts(expected@), there, expected@.len() as int),
{
    let mut missing: Vec<String> = Vec::new();
    let mut at: usize = 0;
    assert(texts(missing@) =~= Seq::<Seq<char>>::empty());
    while at < expected.len()
        invariant
            at <= expected@.len(),
            forall|text: Seq<char>| #[trigger] texts(actual@).contains(text) <==> there(text),
            texts(missing@) == absent(texts(expected@), there, at as int),
        decreases expected@.len() - at,
    {
        assert(texts(expected@)[at as int] == expected@[at as int]@);
        if !text::contains(actual, expected[at].as_str()) {
            let ghost before = texts(missing@);
            missing.push(expected[at].as_str().to_owned());
            assert(texts(missing@) =~= before.push(expected@[at as int]@));
        }
        at = at + 1;
    }
    missing
}

/// The result of a rule that compares what is there with what is expected.
fn exact_result(rule: &Rule, extra: Vec<Match>, missing: Vec<String>) -> (result: RuleResult)
    ensures
        result.is_verdict(exact_verdict(rule@, match_views(extra@), texts(missing@))),
{
    assert(match_views(extra@).len() == extra@.len());
    assert(texts(missing@).len() == missing@.len());
    if extra.len() == 0 && missing.len() == 0 {
        return passed_result();
    }
    let matched = count_u32(extra.len());
    let mut violation = empty_violation(rule);
    violation.extra = extra;
    violation.missing = missing;
    RuleResult { passed: false, matched, violation: Some(violation) }
}


/// The direct dependencies of `root` that are named `name`, in edge order.
fn direct_with_name(graph: &Graph<'_>, root: u32, nodes: &[u32], name: &str) -> (found: Vec<u32>)
    requires
        graph.wf(),
        root < graph@.count(),
        lists(nodes@, graph@.direct(root as int)),
    ensures
        found@.map_values(|node: u32| node as int) == direct_named(
            graph@,
            root as int,
            name@,
            graph@.direct(root as int).len() as int,
        ),
        forall|i: int| 0 <= i < found@.len() ==> #[trigger] found@[i] < graph@.count(),
        direct_names(graph@, root as int, nodes@.len() as int).contains(name@) ==> found@.len() > 0,
{
    let ghost direct = graph@.direct(root as int);
    proof {
        graph.direct_are_nodes(root as int);
    }
    let mut found: Vec<u32> = Vec::new();
    let mut at: usize = 0;
    assert(found@.map_values(|node: u32| node as int) =~= Seq::<int>::empty());
    while at < nodes.len()
        invariant
            graph.wf(),
            root < graph@.count(),
            direct == graph@.direct(root as int),
            lists(nodes@, direct),
            forall|i: int|
                0 <= i < direct.len() ==> 0 <= #[trigger] direct[i] < graph@.count(),
            at <= nodes@.len(),
            found@.map_values(|node: u32| node as int) == direct_named(
                graph@,
                root as int,
                name@,
                at as int,
            ),
            forall|i: int| 0 <= i < found@.len() ==> #[trigger] found@[i] < graph@.count(),
            (exists|i: int| 0 <= i < at && graph@.name(#[trigger] direct[i]) == name@) ==> found@.len()
                > 0,
        decreases nodes@.len() - at,
    {
        let node = nodes[at];
        assert(node == direct[at as int]);
        if text::same(graph.name(node), name) {
            let ghost before = found@;
            found.push(node);
            assert(found@.map_values(|node: u32| node as int) =~= before.map_values(
                |node: u32| node as int,
            ).push(node as int));
        }
        at = at + 1;
    }
    proof {
        let there = direct_names(graph@, root as int, nodes@.len() as int);
        if there.contains(name@) {
            let i = choose|i: int| 0 <= i < there.len() && there[i] == name@;
            assert(graph@.name(direct[i]) == name@);
        }
    }
    found
}

/// What is said of a direct dependency of `root`.
fn path_match(graph: &Graph<'_>, root: u32, nodes: &Vec<u32>, name: &str) -> (found: Match)
    requires
        graph.wf(),
        root < graph@.count(),
        nodes@.len() > 0,
        nodes@.map_values(|node: u32| node as int) == direct_named(
            graph@,
            root as int,
            name@,
            graph@.direct(root as int).len() as int,
        ),
        forall|i: int| 0 <= i < nodes@.len() ==> #[trigger] nodes@[i] < graph@.count(),
    ensures
        found@ == direct_match(graph@, root as int, name@),
{
    let ghost listed = nodes@.map_values(|node: u32| node as int);
    let first = nodes[0];
    assert(listed[0] == first);
    let mut path: Vec<u32> = Vec::new();
    path.push(root);
    path.push(first);
    let mut others: Vec<u32> = Vec::new();
    let mut at: usize = 1;
    while at < nodes.len()
        invariant
            1 <= at <= nodes@.len(),
            forall|i: int| 0 <= i < nodes@.len() ==> #[trigger] nodes@[i] < graph@.count(),
            others@ == nodes@.subrange(1, at as int),
        decreases nodes@.len() - at,
    {
        others.push(nodes[at]);
        assert(nodes@.subrange(1, at + 1) =~= nodes@.subrange(1, at as int).push(
            nodes@[at as int],
        ));
        at = at + 1;
    }
    proof {
        assert(others@.map_values(|node: u32| node as int) =~= listed.skip(1));
        assert(path@.map_values(|node: u32| node as int) =~= seq![root as int, first as int]);
    }
    Match {
        name: name.to_owned(),
        version: graph.version(first).to_owned(),
        witness: witness_hops(graph, &path),
        other_versions: versions(graph, &others),
    }
}

fn evaluate_direct(rule: &Rule, graph: &Graph<'_>, root: u32, expected: &Vec<String>) -> (result: RuleResult)
    requires
        graph.wf(),
        root < graph@.count(),
    ensures
        result.is_verdict(direct_verdict(graph@, rule@, root as int, texts(expected@))),
{
    let ghost view = graph@;
    let ghost direct = view.direct(root as int);
    proof {
        graph.direct_are_nodes(root as int);
    }
    let nodes = graph.direct_nodes(root);
    let mut there: Vec<String> = Vec::new();
    let mut at: usize = 0;
    while at < nodes.len()
        invariant
            graph.wf(),
            view == graph@,
            direct == view.direct(root as int),
            lists(nodes@, direct),
            forall|i: int| 0 <= i < direct.len() ==> 0 <= #[trigger] direct[i] < view.count(),
            at <= nodes@.len(),
            there@.len() == at,
            forall|i: int| 0 <= i < at ==> (#[trigger] there@[i])@ == view.name(direct[i]),
        decreases nodes@.len() - at,
    {
        assert(nodes@[at as int] == direct[at as int]);
        there.push(graph.name(nodes[at]).to_owned());
        at = at + 1;
    }
    let ghost written = direct_names(view, root as int, direct.len() as int);
    assert(texts(there@) =~= written);
    let sorted = names::distinct_of(&there);
    let ghost order = names::distinct(written);
    proof {
        names::distinct_is_ordered(written);
    }
    let mut extra: Vec<Match> = Vec::new();
    let mut next: usize = 0;
    while next < sorted.len()
        invariant
            graph.wf(),
            view == graph@,
            root < view.count(),
            direct == view.direct(root as int),
            lists(nodes@, direct),
            written == direct_names(view, root as int, direct.len() as int),
            texts(sorted@) == order,
            forall|name: Seq<char>| #[trigger] order.contains(name) <==> written.contains(name),
            next <= sorted@.len(),
            extra@.len() == unexpected(order, texts(expected@), next as int).len(),
            forall|i: int|
                0 <= i < extra@.len() ==> (#[trigger] extra@[i])@ == direct_match(
                    view,
                    root as int,
                    unexpected(order, texts(expected@), next as int)[i],
                ),
        decreases sorted@.len() - next,
    {
        let name = sorted[next].as_str();
        assert(order[next as int] == name@);
        assert(order.contains(name@));
        if !text::contains(expected, name) {
            let found = direct_with_name(graph, root, nodes, name);
            extra.push(path_match(graph, root, &found, name));
        }
        next = next + 1;
    }
    let ghost surplus = unexpected(order, texts(expected@), order.len() as int);
    let ghost known = |name: Seq<char>| written.contains(name);
    assert(match_views(extra@) =~= Seq::new(
        surplus.len(),
        |i: int| direct_match(view, root as int, surplus[i]),
    ));
    let missing = missing_names(expected, &there, Ghost(known));
    exact_result(rule, extra, missing)
}

fn evaluate_sealed(rule: &Rule, graph: &Graph<'_>, reverse: &Reach<'_, '_>) -> (result: RuleResult)
    requires
        graph.wf(),
        reverse.wf(),
        reverse.view_of_graph() == graph@,
        reverse.way() == Direction::Reverse,
    ensures
        result.is_verdict(sealed_verdict(graph@, rule@, reverse.trail(), reverse.start())),
{
    let ghost view = graph@;
    let ghost trail = reverse.trail();
    let members = reverse.reached_members();
    let ghost found = members_found(trail.order, view.members, reverse.start(), view.count());
    let mut sealed_by: Vec<SealedEntry> = Vec::new();
    let mut at: usize = 0;
    while at < members.len()
        invariant
            graph.wf(),
            reverse.wf(),
            reverse.view_of_graph() == graph@,
            reverse.way() == Direction::Reverse,
            view == graph@,
            trail == reverse.trail(),
            found == members_found(trail.order, view.members, reverse.start(), view.count()),
            lists(members@, found),
            at <= members@.len(),
            sealed_by@.len() == at,
            forall|i: int|
                0 <= i < at ==> (#[trigger] sealed_by@[i])@ == (SealedView {
                    member: view.name(found[i]),
                    witness: hops_of(view, witness(trail, Direction::Reverse, found[i])),
                }),
        decreases members@.len() - at,
    {
        let member = members[at];
        assert(member == found[at as int]);
        proof {
            member_was_found(trail.order, view.members, reverse.start(), view.count(), at as int);
        }
        match reverse.witness_to_node(member) {
            Some(path) => {
                proof {
                    witness_is_of_nodes(reverse, member as int);
                    let way = witness(trail, Direction::Reverse, member as int);
                    listed(path@, way);
                    assert forall|i: int| 0 <= i < path@.len() implies #[trigger] path@[i]
                        < graph@.count() by {
                        assert(path@[i] == way[i]);
                    }
                }
                sealed_by.push(
                    SealedEntry {
                        member: graph.name(member).to_owned(),
                        witness: witness_hops(graph, &path),
                    },
                );
            },
            None => {
                assert(false);
            },
        }
        at = at + 1;
    }
    assert(sealed_views(sealed_by@) =~= Seq::new(
        found.len(),
        |i: int|
            SealedView {
                member: view.name(found[i]),
                witness: hops_of(view, witness(trail, Direction::Reverse, found[i])),
            },
    ));
    if sealed_by.len() == 0 {
        return passed_result();
    }
    let matched = count_u32(sealed_by.len());
    let mut violation = empty_violation(rule);
    violation.sealed_by = sealed_by;
    RuleResult { passed: false, matched, violation: Some(violation) }
}

/// A member that was found is a package that was found.
proof fn member_was_found(order: Seq<int>, members: Seq<int>, root: int, upto: int, i: int)
    requires
        0 <= i < members_found(order, members, root, upto).len(),
    ensures
        order.contains(members_found(order, members, root, upto)[i]),
        0 <= members_found(order, members, root, upto)[i] < upto,
        members_found(order, members, root, upto)[i] != root,
    decreases upto,
{
    if upto > 0 {
        let before = members_found(order, members, root, upto - 1);
        if i < before.len() {
            member_was_found(order, members, root, upto - 1, i);
        }
    }
}

/// Answers one rule that reads a closure against `reach`, whichever closure that reach is.
fn evaluate_closure_rule(
    rule: &Rule,
    graph: &Graph<'_>,
    reach: &Reach<'_, '_>,
    root: u32,
    mask: &FixedBitSet,
    Ghost(config): Ghost<ConfigView>,
) -> (result: RuleResult)
    requires
        graph.wf(),
        reach.wf(),
        reach.view_of_graph() == graph@,
        reach.way() == Direction::Forward,
        root < graph@.count(),
        masks(*mask, graph@, config),
        rule.kind.wf(),
        rule.kind@.reads_closure(),
    ensures
        result.is_verdict(
            closure_verdict(graph@, config, rule@, reach.trail(), root as int),
        ),
{
    match &rule.kind {
        RuleKind::Deny { exact, globs, .. } => evaluate_deny(rule, graph, reach, root, exact, globs),
        RuleKind::Require(patterns) => evaluate_require(rule, graph, reach, root, patterns),
        RuleKind::Internal(expected) => evaluate_internal(
            rule,
            graph,
            reach,
            root,
            mask,
            expected,
            Ghost(config),
        ),
        _ => {
            let none: Vec<String> = Vec::new();
            assert(texts(none@) =~= Seq::<Seq<char>>::empty());
            evaluate_internal(rule, graph, reach, root, mask, &none, Ghost(config))
        },
    }
}

/// The names the unified closure carries that the activated one does not, alphabetically — the
/// evidence that a feature-aware rule narrowed anything at all.
fn pruned_names(graph: &Graph<'_>, superset: &FixedBitSet, reach: &Reach<'_, '_>, Ghost(wide): Ghost<
    Trail,
>) -> (pruned: Vec<String>)
    requires
        graph.wf(),
        reach.wf(),
        reach.view_of_graph() == graph@,
        bits::capacity(*superset) == graph@.names.len(),
        forall|name: int| #[trigger]
            bits::ones(*superset).contains(name) <==> names_node(wide.order, graph@.name_of, name),
    ensures
        texts(pruned@) == names::distinct(
            names_between(graph@, wide, reach.trail(), graph@.names.len() as int),
        ),
{
    let count = graph.name_count();
    let mut pruned: Vec<String> = Vec::new();
    let mut name: u32 = 0;
    assert(texts(pruned@) =~= names::distinct(names_between(graph@, wide, reach.trail(), 0)));
    while name < count
        invariant
            graph.wf(),
            reach.wf(),
            reach.view_of_graph() == graph@,
            bits::capacity(*superset) == graph@.names.len(),
            forall|name: int| #[trigger]
                bits::ones(*superset).contains(name) <==> names_node(
                    wide.order,
                    graph@.name_of,
                    name,
                ),
            count == graph@.names.len(),
            name <= count,
            names::ascending(texts(pruned@)),
            texts(pruned@) == names::distinct(
                names_between(graph@, wide, reach.trail(), name as int),
            ),
        decreases count - name,
    {
        if bits::contains(superset, name as usize) && !reach.contains_name(name) {
            proof {
                let now = names_between(graph@, wide, reach.trail(), name + 1);
                assert(now.drop_last() =~= names_between(
                    graph@,
                    wide,
                    reach.trail(),
                    name as int,
                ));
                assert(now.last() == graph@.names[name as int]);
            }
            names::insert(&mut pruned, graph.name_str(name));
        }
        name = name + 1;
    }
    pruned
}


/// The superset edges that answering a rule traverses.
pub open spec fn rule_extra(view: GraphView, rule: RuleView) -> Set<int> {
    match root_of(view, rule.package) {
        None => Set::empty(),
        Some(root) => match rule.kind {
            RuleKindView::Direct(_) => Set::empty(),
            RuleKindView::Sealed => crossed(
                view,
                view.backward(),
                traversal(view.backward(), root).order,
            ),
            _ => {
                let unified = crossed(view, view.forward(), unified_closure(view, root).order);
                match rule.features {
                    None => unified,
                    Some((selection, _)) => if is_decodable(view, root, selection) {
                        unified.union(
                            crossed(
                                view,
                                view.steps(activation_of(view, root, selection).edges),
                                narrowed_closure(view, root, selection).order,
                            ),
                        )
                    } else {
                        Set::empty()
                    },
                }
            },
        },
    }
}

/// The superset edges that answering the rules traverses, each once.
pub open spec fn traversed_extra(view: GraphView, rules: Seq<RuleView>) -> Set<int> {
    Set::new(
        |edge: int|
            exists|i: int|
                0 <= i < rules.len() && #[trigger] rule_extra(view, rules[i]).contains(edge),
    )
}

/// Whether a rule reads the unified closure.
pub open spec fn is_unified(rule: RuleView) -> bool {
    rule.kind.reads_closure() && rule.features is None
}

/// Whether a rule reads a closure that its selection narrows.
pub open spec fn is_narrowed(rule: RuleView) -> bool {
    rule.kind.reads_closure() && rule.features is Some
}

/// Whether some rule of a package reads the unified closure.
pub open spec fn some_unified(rules: Seq<RuleView>) -> bool {
    exists|k: int| 0 <= k < rules.len() && is_unified(#[trigger] rules[k])
}

/// Whether some rule of a package asks who depends on it.
pub open spec fn some_sealed(rules: Seq<RuleView>) -> bool {
    exists|k: int| 0 <= k < rules.len() && (#[trigger] rules[k]).kind is Sealed
}

/// The traversals that the first `upto` rules of a package take that select closures of their own:
/// one for each rule that can be answered, and one more for them all.
pub open spec fn narrowed_runs(view: GraphView, root: int, rules: Seq<RuleView>, upto: int) -> nat
    decreases upto,
{
    if upto <= 0 {
        0
    } else {
        let before = narrowed_runs(view, root, rules, upto - 1);
        let rule = rules[upto - 1];
        if !is_narrowed(rule) || !is_decodable(view, root, (rule.features->0).0) {
            before
        } else if before == 0 {
            2
        } else {
            before + 1
        }
    }
}

/// The traversals that the rules of one package take: one for all that read the unified closure,
/// those of the rules that select their own, and one for all that ask who depends on the package.
/// A `direct` rule takes none, and neither does a rule on a package that is no member.
pub open spec fn package_runs(view: GraphView, package: Seq<char>, rules: Seq<RuleView>) -> nat {
    match root_of(view, package) {
        None => 0,
        Some(root) => {
            let forward: nat = if some_unified(rules) {
                1
            } else {
                0
            };
            let reverse: nat = if some_sealed(rules) {
                1
            } else {
                0
            };
            forward + narrowed_runs(view, root, rules, rules.len() as int) + reverse
        },
    }
}

/// The rules on `package`, in order.
pub open spec fn of_package(rules: Seq<RuleView>, package: Seq<char>) -> Seq<RuleView> {
    rules.filter(|rule: RuleView| rule.package == package)
}

/// Whether rule `i` is the first on its package.
pub open spec fn opens_package(rules: Seq<RuleView>, i: int) -> bool {
    forall|j: int| 0 <= j < i ==> (#[trigger] rules[j]).package != rules[i].package
}

/// The sum of `runs` over the packages of the first `upto` rules, each package once.
pub open spec fn package_sum(rules: Seq<RuleView>, runs: spec_fn(Seq<char>) -> nat, upto: int) -> nat
    decreases upto,
{
    if upto <= 0 {
        0
    } else if opens_package(rules, upto - 1) {
        package_sum(rules, runs, upto - 1) + runs(rules[upto - 1].package)
    } else {
        package_sum(rules, runs, upto - 1)
    }
}

/// What the rules on each package take.
pub open spec fn runs_by_package(view: GraphView, rules: Seq<RuleView>) -> spec_fn(Seq<char>) -> nat {
    |package: Seq<char>| package_runs(view, package, of_package(rules, package))
}

/// The traversals that answering `rules` takes.
pub open spec fn traversal_runs(view: GraphView, rules: Seq<RuleView>) -> nat {
    package_sum(rules, runs_by_package(view, rules), rules.len() as int)
}

/// The evidence of the first `upto` rules that failed.
pub open spec fn failures_below(view: GraphView, config: ConfigView, upto: int) -> Seq<ViolationView>
    decreases upto,
{
    if upto <= 0 {
        Seq::empty()
    } else {
        let before = failures_below(view, config, upto - 1);
        match verdict_of(view, config, config.rules[upto - 1]).violation {
            Some(violation) => before.push(violation),
            None => before,
        }
    }
}

/// How many names and members the first `upto` rules found and should not have.
pub open spec fn matched_below(view: GraphView, config: ConfigView, upto: int) -> nat
    decreases upto,
{
    if upto <= 0 {
        0
    } else {
        matched_below(view, config, upto - 1) + verdict_of(
            view,
            config,
            config.rules[upto - 1],
        ).matched
    }
}

/// The record of a rule that has not been answered.
spec fn open_status(rule: RuleView) -> StatusView {
    StatusView {
        id: rule.id,
        package: Some(rule.package),
        kind: kind_text(rule.kind),
        passed: false,
        matched: 0,
        features: reported_selection(rule),
        activation_pruned: Seq::empty(),
    }
}

/// The accumulating output of one evaluation pass: one status and one violation slot per
/// configured rule, indexed by configuration position so results can be recorded in any order
/// and still be reported in declaration order.
struct Results {
    statuses: Vec<RuleStatus>,
    violations: Vec<Option<Violation>>,
    done: Ghost<Set<int>>,
}

impl Results {
    /// Whether the records of the rules that were answered are their verdicts.
    spec fn holds(&self, view: GraphView, config: ConfigView) -> bool {
        &&& self.statuses@.len() == config.rules.len()
        &&& self.violations@.len() == config.rules.len()
        &&& forall|i: int|
            #![trigger self.statuses@[i]]
            0 <= i < config.rules.len() ==> self.statuses@[i]@ == if self.done@.contains(i) {
                status_of(view, config, config.rules[i])
            } else {
                open_status(config.rules[i])
            }
        &&& forall|i: int|
            #![trigger self.violations@[i]]
            0 <= i < config.rules.len() ==> evidence_view(self.violations@[i])
                == if self.done@.contains(i) {
                verdict_of(view, config, config.rules[i]).violation
            } else {
                None
            }
    }

    fn new(config: &Config, Ghost(view): Ghost<GraphView>) -> (results: Results)
        ensures
            results.holds(view, config@),
            results.done@ == Set::<int>::empty(),
    {
        let ghost rules = config@.rules;
        let mut statuses: Vec<RuleStatus> = Vec::new();
        let mut violations: Vec<Option<Violation>> = Vec::new();
        let mut at: usize = 0;
        while at < config.rules.len()
            invariant
                at <= config.rules@.len(),
                rules == config@.rules,
                statuses@.len() == at,
                violations@.len() == at,
                forall|i: int| 0 <= i < at ==> (#[trigger] statuses@[i])@ == open_status(rules[i]),
                forall|i: int| 0 <= i < at ==> (#[trigger] violations@[i]) is None,
            decreases config.rules@.len() - at,
        {
            let rule = &config.rules[at];
            assert(rules[at as int] == rule@);
            let status = RuleStatus {
                id: rule.id.as_str().to_owned(),
                package: Some(rule.package.as_str().to_owned()),
                kind: kind_name(&rule.kind),
                passed: false,
                matched: 0,
                features: rule_selection(rule),
                activation_pruned: Vec::new(),
            };
            assert(texts(status.activation_pruned@) =~= Seq::<Seq<char>>::empty());
            statuses.push(status);
            violations.push(None);
            at = at + 1;
        }
        Results { statuses, violations, done: Ghost(Set::empty()) }
    }

    fn record(
        &mut self,
        index: usize,
        result: RuleResult,
        pruned: Vec<String>,
        Ghost(view): Ghost<GraphView>,
        Ghost(config): Ghost<ConfigView>,
    )
        requires
            old(self).holds(view, config),
            index < config.rules.len(),
            result.is_verdict(verdict_of(view, config, config.rules[index as int])),
            texts(pruned@) == verdict_of(view, config, config.rules[index as int]).pruned,
        ensures
            final(self).holds(view, config),
            final(self).done@ == old(self).done@.insert(index as int),
    {
        let ghost was = *self;
        let status = RuleStatus {
            id: self.statuses[index].id.as_str().to_owned(),
            package: match &self.statuses[index].package {
                Some(package) => Some(package.as_str().to_owned()),
                None => None,
            },
            kind: self.statuses[index].kind,
            passed: result.passed,
            matched: result.matched,
            features: match &self.statuses[index].features {
                Some(selection) => Some(selection.copied()),
                None => None,
            },
            activation_pruned: pruned,
        };
        assert(was.statuses@[index as int]@.id == config.rules[index as int].id);
        self.statuses.set(index, status);
        self.violations.set(index, result.violation);
        proof {
            self.done@ = was.done@.insert(index as int);
            assert forall|i: int|
                #![trigger self.statuses@[i]]
                0 <= i < config.rules.len() implies self.statuses@[i]@ == if self.done@.contains(i) {
                status_of(view, config, config.rules[i])
            } else {
                open_status(config.rules[i])
            } by {
                assert(was.statuses@[i]@ == if was.done@.contains(i) {
                    status_of(view, config, config.rules[i])
                } else {
                    open_status(config.rules[i])
                });
            }
            assert forall|i: int|
                #![trigger self.violations@[i]]
                0 <= i < config.rules.len() implies evidence_view(self.violations@[i])
                == if self.done@.contains(i) {
                verdict_of(view, config, config.rules[i]).violation
            } else {
                None
            } by {
                assert(evidence_view(was.violations@[i]) == if was.done@.contains(i) {
                    verdict_of(view, config, config.rules[i]).violation
                } else {
                    None
                });
            }
        }
    }
}

/// Whether `extra` holds the superset edges of the rules of `done`, and only those of rules.
spec fn extra_is(extra: Set<int>, view: GraphView, rules: Seq<RuleView>, done: Set<int>) -> bool {
    &&& extra.subset_of(traversed_extra(view, rules))
    &&& forall|i: int, edge: int|
        0 <= i < rules.len() && done.contains(i) && #[trigger] rule_extra(view, rules[i]).contains(
            edge,
        ) ==> extra.contains(edge)
}

/// The rules of one package and everything their evaluation shares: they are answered together
/// because they are all rooted at the same package, whichever closure each reads.
struct Group<'c> {
    config: &'c Config,
    /// Configuration positions of this package's rules, in declaration order.
    indices: &'c Vec<usize>,
    /// The workspace member every rule in the group is rooted at.
    root: u32,
    mask: &'c FixedBitSet,
}

impl<'c> Group<'c> {
    /// Whether the rules of the group are rooted at its root.
    spec fn wf(&self, view: GraphView) -> bool {
        &&& self.config.wf()
        &&& self.root < view.count()
        &&& masks(*self.mask, view, self.config@)
        &&& forall|k: int|
            0 <= k < self.indices@.len() ==> (#[trigger] self.indices@[k]) < self.config.rules@.len()
                && root_of(view, self.config.rules@[self.indices@[k] as int].package@) == Some(
                self.root as int,
            )
    }

    /// The `k`th rule of the group.
    spec fn rule_view(&self, k: int) -> RuleView {
        self.config@.rules[self.indices@[k] as int]
    }

    /// The rules of the group.
    spec fn rule_views(&self) -> Seq<RuleView> {
        rules_at(self.config@.rules, self.indices@)
    }
}

/// The rules at `indices`.
spec fn rules_at(rules: Seq<RuleView>, indices: Seq<usize>) -> Seq<RuleView> {
    Seq::new(indices.len(), |k: int| rules[indices[k] as int])
}

/// A direct rule asks nothing of any traversal.
fn evaluate_direct_rules(graph: &Graph<'_>, group: &Group<'_>, results: &mut Results)
    requires
        graph.wf(),
        group.wf(graph@),
        old(results).holds(graph@, group.config@),
    ensures
        final(results).holds(graph@, group.config@),
        old(results).done@.subset_of(final(results).done@),
        forall|k: int|
            0 <= k < group.indices@.len() && (#[trigger] group.rule_view(k)).kind is Direct
                ==> final(results).done@.contains(group.indices@[k] as int),
        forall|extra: Set<int>| #[trigger]
            extra_is(extra, graph@, group.config@.rules, old(results).done@) ==> extra_is(
                extra,
                graph@,
                group.config@.rules,
                final(results).done@,
            ),
{
    let mut at: usize = 0;
    while at < group.indices.len()
        invariant
            graph.wf(),
            group.wf(graph@),
            at <= group.indices@.len(),
            results.holds(graph@, group.config@),
            old(results).done@.subset_of(results.done@),
            forall|k: int|
                0 <= k < at && (#[trigger] group.rule_view(k)).kind is Direct
                    ==> results.done@.contains(group.indices@[k] as int),
            forall|extra: Set<int>| #[trigger]
                extra_is(extra, graph@, group.config@.rules, old(results).done@) ==> extra_is(
                    extra,
                    graph@,
                    group.config@.rules,
                    results.done@,
                ),
        decreases group.indices@.len() - at,
    {
        let index = group.indices[at];
        let rule = &group.config.rules[index];
        assert(group.rule_view(at as int) == rule@);
        if let RuleKind::Direct(expected) = &rule.kind {
            let ghost was = results.done@;
            let result = evaluate_direct(rule, graph, group.root, expected);
            let none: Vec<String> = Vec::new();
            assert(texts(none@) =~= Seq::<Seq<char>>::empty());
            results.record(index, result, none, Ghost(graph@), Ghost(group.config@));
            assert forall|extra: Set<int>| #[trigger]
                extra_is(extra, graph@, group.config@.rules, old(results).done@) implies extra_is(
                extra,
                graph@,
                group.config@.rules,
                results.done@,
            ) by {
                assert(extra_is(extra, graph@, group.config@.rules, was));
                assert(rule_extra(graph@, group.config@.rules[index as int]) =~= Set::<int>::empty());
            }
        }
        at = at + 1;
    }
}

/// More runs on top of more runs.
proof fn runs_add_up(start: u32, first: nat, second: nat)
    ensures
        saturated((saturated((start + first) as nat) + second) as nat) == saturated(
            (start + first + second) as nat,
        ),
{
}

/// The extra edges of one more traversal that answering some rule takes.
proof fn extra_grows(
    extra: Set<int>,
    more: Set<int>,
    view: GraphView,
    rules: Seq<RuleView>,
    done: Set<int>,
    i: int,
)
    requires
        extra_is(extra, view, rules, done),
        0 <= i < rules.len(),
        more.subset_of(rule_extra(view, rules[i])),
    ensures
        extra_is(extra.union(more), view, rules, done),
{
    assert forall|edge: int| extra.union(more).contains(edge) implies #[trigger] traversed_extra(
        view,
        rules,
    ).contains(edge) by {
        if more.contains(edge) {
            assert(rule_extra(view, rules[i]).contains(edge));
        }
    }
}

/// One more rule is answered whose extra edges are there.
proof fn extra_answers(
    extra: Set<int>,
    view: GraphView,
    rules: Seq<RuleView>,
    done: Set<int>,
    i: int,
)
    requires
        extra_is(extra, view, rules, done),
        0 <= i < rules.len(),
        rule_extra(view, rules[i]).subset_of(extra),
    ensures
        extra_is(extra, view, rules, done.insert(i)),
{
}

/// Evaluates every rule of one group that reads the root's unified forward closure, running the
/// single traversal they share.
///
/// `deny`, `require`, `internal` and `leaf` all ask a question about the same reach, so they are
/// answered together; `direct` and `sealed` never enter here, and neither does a rule that
/// selected a closure of its own.
fn evaluate_closure_rules(
    graph: &Graph<'_>,
    group: &Group<'_>,
    scratch: &mut Scratch,
    results: &mut Results,
)
    requires
        graph.wf(),
        group.wf(graph@),
        old(scratch).wf(),
        kept_extra(*old(scratch), graph@) == old(scratch).extra_edges(),
        old(results).holds(graph@, group.config@),
        extra_is(
            old(scratch).extra_edges(),
            graph@,
            group.config@.rules,
            old(results).done@,
        ),
    ensures
        final(scratch).wf(),
        kept_extra(*final(scratch), graph@) == final(scratch).extra_edges(),
        final(results).holds(graph@, group.config@),
        extra_is(
            final(scratch).extra_edges(),
            graph@,
            group.config@.rules,
            final(results).done@,
        ),
        old(results).done@.subset_of(final(results).done@),
        forall|k: int|
            0 <= k < group.indices@.len() && is_unified(#[trigger] group.rule_view(k)) ==> final(
                results).done@.contains(group.indices@[k] as int),
        final(scratch).spent() >= old(scratch).spent(),
        final(scratch).runs() == saturated(
            (old(scratch).runs() + if some_unified(group.rule_views()) {
                1int
            } else {
                0int
            }) as nat,
        ),
{
    let ghost view = graph@;
    let ghost rules = group.config@.rules;
    let mut some: Option<usize> = None;
    let mut at: usize = 0;
    while at < group.indices.len()
        invariant
            group.wf(view),
            rules == group.config@.rules,
            at <= group.indices@.len(),
            match some {
                Some(k) => k < group.indices@.len() && is_unified(group.rule_view(k as int)),
                None => forall|k: int|
                    0 <= k < at ==> !is_unified(#[trigger] group.rule_view(k)),
            },
        decreases group.indices@.len() - at,
    {
        let rule = &group.config.rules[group.indices[at]];
        assert(group.rule_view(at as int) == rule@);
        if rule.features.is_none() && rule.kind.reads_closure() {
            some = Some(at);
        }
        at = at + 1;
    }
    let first = match some {
        Some(first) => first,
        None => {
            assert(!some_unified(group.rule_views())) by {
                if some_unified(group.rule_views()) {
                    let k = choose|k: int|
                        0 <= k < group.indices@.len() && is_unified(
                            #[trigger] group.rule_views()[k],
                        );
                    assert(is_unified(group.rule_view(k)));
                }
            }
            return;
        },
    };
    assert(is_unified(group.rule_views()[first as int]));
    let ghost extra = scratch.extra_edges();
    let reach = graph.reach(group.root, scratch);
    let ghost state = reach.state();
    proof {
        reach.is_traversal();
        let rule = group.rule_view(first as int);
        let more = crossed(view, view.forward(), unified_closure(view, group.root as int).order);
        assert(root_of(view, rule.package) == Some(group.root as int));
        assert(rule_extra(view, rule) == more);
        extra_grows(
            extra,
            more,
            view,
            rules,
            results.done@,
            group.indices@[first as int] as int,
        );
        assert(state.extra_edges() == extra.union(more));
    }
    let mut next: usize = 0;
    while next < group.indices.len()
        invariant
            graph.wf(),
            view == graph@,
            group.wf(view),
            rules == group.config@.rules,
            reach.wf(),
            reach.view_of_graph() == view,
            reach.way() == Direction::Forward,
            reach.trail() == unified_closure(view, group.root as int),
            crossed(
                view,
                view.forward(),
                unified_closure(view, group.root as int).order,
            ).subset_of(state.extra_edges()),
            next <= group.indices@.len(),
            results.holds(view, group.config@),
            extra_is(state.extra_edges(), view, rules, results.done@),
            old(results).done@.subset_of(results.done@),
            forall|k: int|
                0 <= k < next && is_unified(#[trigger] group.rule_view(k))
                    ==> results.done@.contains(group.indices@[k] as int),
        decreases group.indices@.len() - next,
    {
        let index = group.indices[next];
        let rule = &group.config.rules[index];
        assert(group.rule_view(next as int) == rule@);
        if rule.features.is_none() && rule.kind.reads_closure() {
            let result = evaluate_closure_rule(
                rule,
                graph,
                &reach,
                group.root,
                group.mask,
                Ghost(group.config@),
            );
            let none: Vec<String> = Vec::new();
            proof {
                assert(texts(none@) =~= Seq::<Seq<char>>::empty());
                closure_prunes_nothing(
                    view,
                    group.config@,
                    rule@,
                    unified_closure(view, group.root as int),
                    group.root as int,
                );
                extra_answers(state.extra_edges(), view, rules, results.done@, index as int);
            }
            results.record(index, result, none, Ghost(view), Ghost(group.config@));
        }
        next = next + 1;
    }
}

/// A closure on its own prunes nothing.
proof fn closure_prunes_nothing(
    view: GraphView,
    config: ConfigView,
    rule: RuleView,
    trail: Trail,
    root: int,
)
    ensures
        closure_verdict(view, config, rule, trail, root).pruned == Seq::<Seq<char>>::empty(),
{
}

/// Evaluates every rule of one group that selects its own closure.
///
/// Each such rule gets its own activation walk, because each may select different features, and
/// its own traversal over the edges that activation enables. The unified closure is traversed
/// once more for the whole group — it is the same for every rule rooted here — so that each rule
/// can report the names its selection removed from it.
fn evaluate_feature_rules<'g, 'm>(
    graph: &'g Graph<'m>,
    group: &Group<'_>,
    scratch: &mut Scratch,
    walk: &mut Option<features::Walk<'g, 'm>>,
    results: &mut Results,
)
    requires
        graph.wf(),
        group.wf(graph@),
        old(scratch).wf(),
        kept_extra(*old(scratch), graph@) == old(scratch).extra_edges(),
        walk_fits(*old(walk), graph@),
        old(results).holds(graph@, group.config@),
        extra_is(
            old(scratch).extra_edges(),
            graph@,
            group.config@.rules,
            old(results).done@,
        ),
    ensures
        final(scratch).wf(),
        kept_extra(*final(scratch), graph@) == final(scratch).extra_edges(),
        walk_fits(*final(walk), graph@),
        final(results).holds(graph@, group.config@),
        extra_is(
            final(scratch).extra_edges(),
            graph@,
            group.config@.rules,
            final(results).done@,
        ),
        old(results).done@.subset_of(final(results).done@),
        forall|k: int|
            0 <= k < group.indices@.len() && is_narrowed(#[trigger] group.rule_view(k)) ==> final(
                results).done@.contains(group.indices@[k] as int),
        final(scratch).spent() >= old(scratch).spent(),
        final(scratch).runs() == saturated(
            (old(scratch).runs() + narrowed_runs(
                graph@,
                group.root as int,
                group.rule_views(),
                group.indices@.len() as int,
            )) as nat,
        ),
{
    let ghost view = graph@;
    let ghost views = group.rule_views();
    let ghost rules = group.config@.rules;
    let mut superset: Option<FixedBitSet> = None;
    let mut at: usize = 0;
    while at < group.indices.len()
        invariant
            graph.wf(),
            view == graph@,
            group.wf(view),
            rules == group.config@.rules,
            at <= group.indices@.len(),
            scratch.wf(),
            kept_extra(*scratch, view) == scratch.extra_edges(),
            walk_fits(*walk, view),
            results.holds(view, group.config@),
            extra_is(scratch.extra_edges(), view, rules, results.done@),
            old(results).done@.subset_of(results.done@),
            superset_fits(superset, view, group.root as int, scratch.extra_edges()),
            views == group.rule_views(),
            superset is Some <==> narrowed_runs(view, group.root as int, views, at as int) > 0,
            scratch.spent() >= old(scratch).spent(),
            scratch.runs() == saturated(
                (old(scratch).runs() + narrowed_runs(view, group.root as int, views, at as int)) as nat,
            ),
            forall|k: int|
                0 <= k < at && is_narrowed(#[trigger] group.rule_view(k))
                    ==> results.done@.contains(group.indices@[k] as int),
        decreases group.indices@.len() - at,
    {
        let index = group.indices[at];
        let rule = &group.config.rules[index];
        assert(group.rule_view(at as int) == rule@);
        assert(views[at as int] == rule@);
        if let Some(features) = &rule.features {
            if rule.kind.reads_closure() {
                evaluate_feature_rule(
                    graph,
                    group,
                    index,
                    &features.selection,
                    scratch,
                    walk,
                    &mut superset,
                    results,
                );
            }
        }
        at = at + 1;
    }
}

/// Whether a walk, if there is one, runs on `view`.
spec fn walk_fits(walk: Option<features::Walk<'_, '_>>, view: GraphView) -> bool {
    match walk {
        Some(walk) => walk.wf() && walk.view_of_graph() == view,
        None => true,
    }
}

/// Whether `set`, if there is one, holds the names of the unified closure of `root`, whose
/// extra edges are then among `extra`.
spec fn superset_fits(set: Option<FixedBitSet>, view: GraphView, root: int, extra: Set<int>) -> bool {
    let wide = unified_closure(view, root);
    match set {
        Some(set) => names_are(set, view, wide) && crossed(
            view,
            view.forward(),
            wide.order,
        ).subset_of(extra),
        None => true,
    }
}

/// Whether `set` holds the names that `trail` found.
spec fn names_are(set: FixedBitSet, view: GraphView, trail: Trail) -> bool {
    &&& bits::capacity(set) == view.names.len()
    &&& forall|name: int| #[trigger]
        bits::ones(set).contains(name) <==> names_node(trail.order, view.name_of, name)
}

/// Evaluates one rule on the closure that `selection` turns on.
///
/// A walk that cannot decode a package fails the rule closed rather than answering from a
/// closure that was never computed.
fn evaluate_feature_rule<'g, 'm>(
    graph: &'g Graph<'m>,
    group: &Group<'_>,
    index: usize,
    selection: &Selection,
    scratch: &mut Scratch,
    walk: &mut Option<features::Walk<'g, 'm>>,
    superset: &mut Option<FixedBitSet>,
    results: &mut Results,
)
    requires
        graph.wf(),
        group.wf(graph@),
        index < group.config.rules@.len(),
        root_of(graph@, group.config.rules@[index as int].package@) == Some(group.root as int),
        group.config.rules@[index as int].kind@.reads_closure(),
        group.config.rules@[index as int].features is Some,
        group.config.rules@[index as int].features->0.selection == selection,
        old(scratch).wf(),
        kept_extra(*old(scratch), graph@) == old(scratch).extra_edges(),
        walk_fits(*old(walk), graph@),
        superset_fits(
            *old(superset),
            graph@,
            group.root as int,
            old(scratch).extra_edges(),
        ),
        old(results).holds(graph@, group.config@),
        extra_is(
            old(scratch).extra_edges(),
            graph@,
            group.config@.rules,
            old(results).done@,
        ),
    ensures
        final(scratch).wf(),
        kept_extra(*final(scratch), graph@) == final(scratch).extra_edges(),
        walk_fits(*final(walk), graph@),
        superset_fits(
            *final(superset),
            graph@,
            group.root as int,
            final(scratch).extra_edges(),
        ),
        final(results).holds(graph@, group.config@),
        extra_is(
            final(scratch).extra_edges(),
            graph@,
            group.config@.rules,
            final(results).done@,
        ),
        final(results).done@ == old(results).done@.insert(index as int),
        is_decodable(graph@, group.root as int, selection@) ==> *final(superset) is Some
            && final(scratch).runs() == saturated(
            (old(scratch).runs() + if *old(superset) is Some {
                1int
            } else {
                2int
            }) as nat,
        ),
        !is_decodable(graph@, group.root as int, selection@) ==> *final(superset) == *old(superset)
            && final(scratch).runs() == old(scratch).runs(),
        final(scratch).spent() >= old(scratch).spent(),
{
    let ghost view = graph@;
    let ghost root = group.root as int;
    let ghost config = group.config@;
    let ghost rules = config.rules;
    let ghost wide = unified_closure(view, root);
    let rule = &group.config.rules[index];
    assert(rules[index as int] == rule@);
    let started = clock::now();
    if walk.is_none() {
        *walk = Some(features::Walk::new(graph));
    }
    let activated = match walk {
        Some(walk) => walk.activate(group.root, selection),
        None => {
            assert(false);
            vstd::pervasive::unreached()
        },
    };
    scratch.spend(clock::nanos_since(&started));
    let activation = match activated {
        Ok(activation) => activation,
        Err(error) => {
            proof {
                let node = choose|node: int|
                    features::activated(view, root, selection@).contains(
                        features::Fact::Node(node),
                    ) && #[trigger] features::decode_fault(view, node) == Some(error@);
                assert(features::decode_fault(view, node) is Some);
                assert(!is_decodable(view, root, selection@));
                assert(verdict_of(view, config, rule@) == closed_failure(rule@));
                assert(rule_extra(view, rule@) =~= Set::<int>::empty());
                extra_answers(scratch.extra_edges(), view, rules, results.done@, index as int);
            }
            let none: Vec<String> = Vec::new();
            assert(texts(none@) =~= Seq::<Seq<char>>::empty());
            results.record(
                index,
                invariant_failure(rule),
                none,
                Ghost(view),
                Ghost(config),
            );
            return;
        },
    };
    let ghost live = activation_of(view, root, selection@).edges;
    let ghost narrow = narrowed_closure(view, root, selection@);
    let ghost unified = crossed(view, view.forward(), wide.order);
    let ghost narrowed = crossed(view, view.steps(live), narrow.order);
    assert(rule_extra(view, rule@) == unified.union(narrowed));
    if superset.is_none() {
        let ghost extra = scratch.extra_edges();
        let reach = graph.reach(group.root, scratch);
        proof {
            reach.is_traversal();
            extra_grows(extra, unified, view, rules, results.done@, index as int);
        }
        let found = reach.names().clone();
        *superset = Some(found);
    }
    let ghost extra = scratch.extra_edges();
    let reach = graph.reach_activated(group.root, activation.edges(), scratch);
    let ghost state = reach.state();
    proof {
        reach.is_traversal();
        extra_grows(extra, narrowed, view, rules, results.done@, index as int);
        extra_answers(state.extra_edges(), view, rules, results.done@, index as int);
    }
    let pruned = match superset {
        Some(superset) => pruned_names(graph, superset, &reach, Ghost(wide)),
        None => {
            assert(false);
            vstd::pervasive::unreached()
        },
    };
    let result = evaluate_closure_rule(
        rule,
        graph,
        &reach,
        group.root,
        group.mask,
        Ghost(config),
    );
    let result = prune_result(
        result,
        &pruned,
        Ghost(closure_verdict(view, config, rule@, narrow, root)),
    );
    results.record(index, result, pruned, Ghost(view), Ghost(config));
}

/// The result with the names that were pruned in its evidence.
fn prune_result(result: RuleResult, pruned: &Vec<String>, Ghost(verdict): Ghost<VerdictView>) -> (narrowed: RuleResult)
    requires
        result.is_verdict(verdict),
    ensures
        narrowed.is_verdict(with_pruned(verdict, texts(pruned@))),
{
    let violation = match result.violation {
        Some(violation) => {
            let mut violation = violation;
            violation.activation_pruned = text::copy_all(pruned);
            Some(violation)
        },
        None => None,
    };
    RuleResult { passed: result.passed, matched: result.matched, violation }
}


/// Evaluates every `sealed` rule of one group, running the single reverse traversal they share.
fn evaluate_sealed_rules(
    graph: &Graph<'_>,
    group: &Group<'_>,
    scratch: &mut Scratch,
    results: &mut Results,
)
    requires
        graph.wf(),
        group.wf(graph@),
        old(scratch).wf(),
        kept_extra(*old(scratch), graph@) == old(scratch).extra_edges(),
        old(results).holds(graph@, group.config@),
        extra_is(
            old(scratch).extra_edges(),
            graph@,
            group.config@.rules,
            old(results).done@,
        ),
    ensures
        final(scratch).wf(),
        kept_extra(*final(scratch), graph@) == final(scratch).extra_edges(),
        final(results).holds(graph@, group.config@),
        extra_is(
            final(scratch).extra_edges(),
            graph@,
            group.config@.rules,
            final(results).done@,
        ),
        old(results).done@.subset_of(final(results).done@),
        forall|k: int|
            0 <= k < group.indices@.len() && (#[trigger] group.rule_view(k)).kind is Sealed
                ==> final(results).done@.contains(group.indices@[k] as int),
        final(scratch).spent() >= old(scratch).spent(),
        final(scratch).runs() == saturated(
            (old(scratch).runs() + if some_sealed(group.rule_views()) {
                1int
            } else {
                0int
            }) as nat,
        ),
{
    let ghost view = graph@;
    let ghost rules = group.config@.rules;
    let ghost root = group.root as int;
    let mut some: Option<usize> = None;
    let mut at: usize = 0;
    while at < group.indices.len()
        invariant
            group.wf(view),
            rules == group.config@.rules,
            at <= group.indices@.len(),
            match some {
                Some(k) => k < group.indices@.len() && group.rule_view(k as int).kind is Sealed,
                None => forall|k: int|
                    0 <= k < at ==> !((#[trigger] group.rule_view(k)).kind is Sealed),
            },
        decreases group.indices@.len() - at,
    {
        let rule = &group.config.rules[group.indices[at]];
        assert(group.rule_view(at as int) == rule@);
        if let RuleKind::Sealed = &rule.kind {
            some = Some(at);
        }
        at = at + 1;
    }
    let first = match some {
        Some(first) => first,
        None => {
            assert(!some_sealed(group.rule_views())) by {
                if some_sealed(group.rule_views()) {
                    let k = choose|k: int|
                        0 <= k < group.indices@.len() && (
                        #[trigger] group.rule_views()[k]).kind is Sealed;
                    assert(group.rule_view(k).kind is Sealed);
                }
            }
            return;
        },
    };
    assert(group.rule_views()[first as int].kind is Sealed);
    let ghost extra = scratch.extra_edges();
    let reverse = graph.reverse_reach(group.root, scratch);
    let ghost state = reverse.state();
    let ghost more = crossed(view, view.backward(), traversal(view.backward(), root).order);
    proof {
        reverse.is_traversal();
        let rule = group.rule_view(first as int);
        assert(root_of(view, rule.package) == Some(root));
        assert(rule_extra(view, rule) == more);
        extra_grows(
            extra,
            more,
            view,
            rules,
            results.done@,
            group.indices@[first as int] as int,
        );
        assert(state.extra_edges() == extra.union(more));
    }
    let mut next: usize = 0;
    while next < group.indices.len()
        invariant
            graph.wf(),
            view == graph@,
            root == group.root,
            group.wf(view),
            rules == group.config@.rules,
            reverse.wf(),
            reverse.view_of_graph() == view,
            reverse.way() == Direction::Reverse,
            reverse.start() == root,
            reverse.trail() == traversal(view.backward(), root),
            more == crossed(view, view.backward(), traversal(view.backward(), root).order),
            more.subset_of(state.extra_edges()),
            next <= group.indices@.len(),
            results.holds(view, group.config@),
            extra_is(state.extra_edges(), view, rules, results.done@),
            old(results).done@.subset_of(results.done@),
            forall|k: int|
                0 <= k < next && (#[trigger] group.rule_view(k)).kind is Sealed
                    ==> results.done@.contains(group.indices@[k] as int),
        decreases group.indices@.len() - next,
    {
        let index = group.indices[next];
        let rule = &group.config.rules[index];
        assert(group.rule_view(next as int) == rule@);
        if let RuleKind::Sealed = &rule.kind {
            let result = evaluate_sealed(rule, graph, &reverse);
            let none: Vec<String> = Vec::new();
            proof {
                assert(texts(none@) =~= Seq::<Seq<char>>::empty());
                extra_answers(state.extra_edges(), view, rules, results.done@, index as int);
            }
            results.record(index, result, none, Ghost(view), Ghost(group.config@));
        }
        next = next + 1;
    }
}

/// Whether `groups` hold each position below `count` in some group, and in each group the
/// positions of the rules on one package.
spec fn are_groups(groups: Seq<Vec<usize>>, rules: Seq<RuleView>, count: int) -> bool {
    &&& forall|g: int| 0 <= g < groups.len() ==> (#[trigger] groups[g])@.len() > 0
    &&& forall|g: int, k: int|
        #![trigger groups[g]@[k]]
        0 <= g < groups.len() && 0 <= k < groups[g]@.len() ==> groups[g]@[k] < count
            && rules[groups[g]@[k] as int].package == group_package(groups, rules, g)
    &&& forall|i: int| 0 <= i < count ==> #[trigger] is_grouped(groups, i)
    &&& forall|g: int, h: int|
        0 <= g < h < groups.len() ==> #[trigger] group_package(groups, rules, g)
            != #[trigger] group_package(groups, rules, h)
    &&& forall|g: int|
        0 <= g < groups.len() ==> rules_at(rules, (#[trigger] groups[g])@) == of_package(
            rules.take(count),
            group_package(groups, rules, g),
        )
}

/// The package of a group.
spec fn group_package(groups: Seq<Vec<usize>>, rules: Seq<RuleView>, g: int) -> Seq<char> {
    rules[groups[g]@[0] as int].package
}

/// Whether some group holds position `i`.
spec fn is_grouped(groups: Seq<Vec<usize>>, i: int) -> bool {
    exists|g: int, k: int|
        #![trigger groups[g]@[k]]
        0 <= g < groups.len() && 0 <= k < groups[g]@.len() && groups[g]@[k] == i
}

/// The sum of `runs` over the first `upto` groups.
spec fn group_sum(
    groups: Seq<Vec<usize>>,
    rules: Seq<RuleView>,
    runs: spec_fn(Seq<char>) -> nat,
    upto: int,
) -> nat
    decreases upto,
{
    if upto <= 0 {
        0
    } else {
        group_sum(groups, rules, runs, upto - 1) + runs(group_package(groups, rules, upto - 1))
    }
}

proof fn group_sum_stays(
    before: Seq<Vec<usize>>,
    now: Seq<Vec<usize>>,
    rules: Seq<RuleView>,
    runs: spec_fn(Seq<char>) -> nat,
    upto: int,
)
    requires
        upto <= before.len(),
        forall|g: int|
            0 <= g < upto ==> #[trigger] group_package(now, rules, g) == group_package(
                before,
                rules,
                g,
            ),
    ensures
        group_sum(now, rules, runs, upto) == group_sum(before, rules, runs, upto),
    decreases upto,
{
    if upto > 0 {
        group_sum_stays(before, now, rules, runs, upto - 1);
        assert(group_package(now, rules, upto - 1) == group_package(before, rules, upto - 1));
    }
}

proof fn nothing_on_package(rules: Seq<RuleView>, package: Seq<char>)
    requires
        forall|i: int| 0 <= i < rules.len() ==> (#[trigger] rules[i]).package != package,
    ensures
        of_package(rules, package) == Seq::<RuleView>::empty(),
    decreases rules.len(),
{
    reveal(Seq::filter);
    if rules.len() > 0 {
        nothing_on_package(rules.drop_last(), package);
    }
}

proof fn package_grows(rules: Seq<RuleView>, package: Seq<char>, count: int)
    requires
        0 <= count < rules.len(),
    ensures
        of_package(rules.take(count + 1), package) == if rules[count].package == package {
            of_package(rules.take(count), package).push(rules[count])
        } else {
            of_package(rules.take(count), package)
        },
{
    reveal(Seq::filter);
    assert(rules.take(count + 1).drop_last() =~= rules.take(count));
}

/// The positions of the rules, by their packages in the order of first appearance.
fn group_rules(config: &Config, Ghost(runs): Ghost<spec_fn(Seq<char>) -> nat>) -> (groups: Vec<
    Vec<usize>,
>)
    ensures
        are_groups(groups@, config@.rules, config@.rules.len() as int),
        group_sum(groups@, config@.rules, runs, groups@.len() as int) == package_sum(
            config@.rules,
            runs,
            config@.rules.len() as int,
        ),
{
    let ghost rules = config@.rules;
    let mut groups: Vec<Vec<usize>> = Vec::new();
    let mut index: usize = 0;
    while index < config.rules.len()
        invariant
            rules == config@.rules,
            index <= config.rules@.len(),
            are_groups(groups@, rules, index as int),
            group_sum(groups@, rules, runs, groups@.len() as int) == package_sum(
                rules,
                runs,
                index as int,
            ),
        decreases config.rules@.len() - index,
    {
        let package = config.rules[index].package.as_str();
        let mut group: usize = 0;
        while group < groups.len() && !text::same(
            config.rules[groups[group][0]].package.as_str(),
            package,
        )
            invariant
                rules == config@.rules,
                index < config.rules@.len(),
                package@ == rules[index as int].package,
                group <= groups@.len(),
                are_groups(groups@, rules, index as int),
                forall|g: int|
                    0 <= g < group ==> #[trigger] group_package(groups@, rules, g) != package@,
            decreases groups@.len() - group,
        {
            assert(groups@[group as int]@[0] < index);
            group = group + 1;
        }
        let ghost before = groups@;
        if group < groups.len() {
            groups[group].push(index);
        } else {
            let mut fresh: Vec<usize> = Vec::new();
            fresh.push(index);
            groups.push(fresh);
        }
        proof {
            grouping_goes_on(before, groups@, rules, runs, index as int, group as int);
        }
        index = index + 1;
    }
    assert(rules.take(index as int) =~= rules);
    groups
}

/// One more position is put into the group of its package, or into a group of its own.
proof fn grouping_goes_on(
    before: Seq<Vec<usize>>,
    now: Seq<Vec<usize>>,
    rules: Seq<RuleView>,
    runs: spec_fn(Seq<char>) -> nat,
    index: int,
    group: int,
)
    requires
        0 <= index < rules.len(),
        index <= usize::MAX,
        are_groups(before, rules, index),
        0 <= group <= before.len(),
        forall|g: int|
            0 <= g < group ==> #[trigger] group_package(before, rules, g) != rules[index].package,
        group < before.len() ==> group_package(before, rules, group) == rules[index].package
            && now.len() == before.len() && now[group]@ == before[group]@.push(index as usize),
        group == before.len() ==> now.len() == before.len() + 1 && now[group]@ == seq![
            index as usize,
        ],
        forall|g: int| 0 <= g < before.len() && g != group ==> #[trigger] now[g] == before[g],
    ensures
        are_groups(now, rules, index + 1),
        group_sum(before, rules, runs, before.len() as int) == package_sum(rules, runs, index)
            ==> group_sum(now, rules, runs, now.len() as int) == package_sum(
            rules,
            runs,
            index + 1,
        ),
{
    let package = rules[index].package;
    let last = now[group]@.len() - 1;
    assert(now[group]@[last] == index);
    assert forall|g: int| 0 <= g < before.len() implies #[trigger] group_package(now, rules, g)
        == group_package(before, rules, g) by {
        assert(before[g]@.len() > 0);
        if g != group {
            assert(now[g] == before[g]);
        } else {
            assert(now[g]@[0] == before[g]@[0]);
        }
    }
    assert(group_package(now, rules, group) == package);
    assert forall|g: int, k: int|
        #![trigger now[g]@[k]]
        0 <= g < now.len() && 0 <= k < now[g]@.len() implies now[g]@[k] < index + 1
        && rules[now[g]@[k] as int].package == group_package(now, rules, g) by {
        if g < before.len() {
            assert(group_package(now, rules, g) == group_package(before, rules, g));
            if g != group {
                assert(now[g] == before[g]);
                assert(before[g]@[k] < index);
            } else if k < before[g]@.len() {
                assert(before[g]@[k] == now[g]@[k]);
            }
        }
    }
    assert forall|g: int| 0 <= g < now.len() implies (#[trigger] now[g])@.len() > 0 by {
        if g < before.len() && g != group {
            assert(now[g] == before[g]);
        }
    }
    assert forall|i: int| 0 <= i < index + 1 implies #[trigger] is_grouped(now, i) by {
        if i < index {
            assert(is_grouped(before, i));
            let (g, k) = choose|g: int, k: int|
                #![trigger before[g]@[k]]
                0 <= g < before.len() && 0 <= k < before[g]@.len() && before[g]@[k] == i;
            if g != group {
                assert(now[g] == before[g]);
            }
            assert(now[g]@[k] == i);
        }
    }
    assert forall|g: int, h: int| 0 <= g < h < now.len() implies #[trigger] group_package(
        now,
        rules,
        g,
    ) != #[trigger] group_package(now, rules, h) by {
        assert(group_package(now, rules, g) == group_package(before, rules, g));
        if h < before.len() {
            assert(group_package(now, rules, h) == group_package(before, rules, h));
        }
    }
    assert(opens_package(rules, index) == (group == before.len())) by {
        if group < before.len() {
            let first = before[group]@[0] as int;
            assert(first < index);
            assert(rules[first].package == package);
        } else {
            assert forall|j: int| 0 <= j < index implies (#[trigger] rules[j]).package
                != package by {
                assert(is_grouped(before, j));
                let (g, k) = choose|g: int, k: int|
                    #![trigger before[g]@[k]]
                    0 <= g < before.len() && 0 <= k < before[g]@.len() && before[g]@[k] == j;
                assert(rules[before[g]@[k] as int].package == group_package(before, rules, g));
            }
        }
    }
    assert forall|g: int| 0 <= g < now.len() implies rules_at(rules, (#[trigger] now[g])@)
        == of_package(rules.take(index + 1), group_package(now, rules, g)) by {
        let own = group_package(now, rules, g);
        package_grows(rules, own, index);
        if g == group && g < before.len() {
            assert(rules_at(rules, before[g]@) == of_package(rules.take(index), own));
            assert(rules_at(rules, now[g]@) =~= rules_at(rules, before[g]@).push(rules[index]));
        } else if g < before.len() {
            assert(now[g] == before[g]);
            assert(rules_at(rules, before[g]@) == of_package(rules.take(index), own));
            if g < group {
                assert(group_package(before, rules, g) != package);
            } else {
                assert(group_package(now, rules, group) != group_package(now, rules, g));
            }
        } else {
            assert forall|i: int| 0 <= i < rules.take(index).len() implies (
            #[trigger] rules.take(index)[i]).package != own by {
                assert(rules[i].package != rules[index].package);
            }
            nothing_on_package(rules.take(index), own);
            assert(rules_at(rules, now[g]@) =~= seq![rules[index]]);
            assert(Seq::<RuleView>::empty().push(rules[index]) =~= seq![rules[index]]);
        }
    }
    group_sum_stays(before, now, rules, runs, before.len() as int);
}

/// Evaluates the rules of one group.
fn evaluate_group<'g, 'm>(
    graph: &'g Graph<'m>,
    config: &Config,
    indices: &Vec<usize>,
    mask: &FixedBitSet,
    scratch: &mut Scratch,
    walk: &mut Option<features::Walk<'g, 'm>>,
    results: &mut Results,
)
    requires
        graph.wf(),
        config.wf(),
        masks(*mask, graph@, config@),
        indices@.len() > 0,
        forall|k: int|
            0 <= k < indices@.len() ==> (#[trigger] indices@[k]) < config.rules@.len()
                && config.rules@[indices@[k] as int].package@ == config.rules@[indices@[0] as int].package@,
        old(scratch).wf(),
        kept_extra(*old(scratch), graph@) == old(scratch).extra_edges(),
        walk_fits(*old(walk), graph@),
        old(results).holds(graph@, config@),
        extra_is(old(scratch).extra_edges(), graph@, config@.rules, old(results).done@),
    ensures
        final(scratch).wf(),
        kept_extra(*final(scratch), graph@) == final(scratch).extra_edges(),
        walk_fits(*final(walk), graph@),
        final(results).holds(graph@, config@),
        extra_is(final(scratch).extra_edges(), graph@, config@.rules, final(results).done@),
        old(results).done@.subset_of(final(results).done@),
        forall|k: int|
            0 <= k < indices@.len() ==> final(results).done@.contains(
                #[trigger] indices@[k] as int,
            ),
        final(scratch).spent() >= old(scratch).spent(),
        final(scratch).runs() == saturated(
            (old(scratch).runs() + package_runs(
                graph@,
                config@.rules[indices@[0] as int].package,
                rules_at(config@.rules, indices@),
            )) as nat,
        ),
{
    let ghost view = graph@;
    let ghost rules = config@.rules;
    let package = config.rules[indices[0]].package.as_str();
    let root = match find_root(graph, package) {
        Some(root) => root,
        None => {
            let mut at: usize = 0;
            while at < indices.len()
                invariant
                    view == graph@,
                    rules == config@.rules,
                    at <= indices@.len(),
                    root_of(view, package@) is None,
                    forall|k: int|
                        0 <= k < indices@.len() ==> (#[trigger] indices@[k]) < config.rules@.len()
                            && config.rules@[indices@[k] as int].package@ == package@,
                    results.holds(view, config@),
                    extra_is(scratch.extra_edges(), view, rules, results.done@),
                    old(results).done@.subset_of(results.done@),
                    forall|k: int|
                        0 <= k < at ==> results.done@.contains(#[trigger] indices@[k] as int),
                decreases indices@.len() - at,
            {
                let index = indices[at];
                let rule = &config.rules[index];
                assert(rules[index as int] == rule@);
                let none: Vec<String> = Vec::new();
                proof {
                    assert(texts(none@) =~= Seq::<Seq<char>>::empty());
                    assert(verdict_of(view, config@, rule@) == closed_failure(rule@));
                    assert(rule_extra(view, rule@) =~= Set::<int>::empty());
                    extra_answers(scratch.extra_edges(), view, rules, results.done@, index as int);
                }
                results.record(
                    index,
                    invariant_failure(rule),
                    none,
                    Ghost(view),
                    Ghost(config@),
                );
                at = at + 1;
            }
            return;
        },
    };
    let group = Group { config, indices, root, mask };
    let ghost start = scratch.runs();
    evaluate_direct_rules(graph, &group, results);
    evaluate_closure_rules(graph, &group, scratch, results);
    evaluate_feature_rules(graph, &group, scratch, walk, results);
    evaluate_sealed_rules(graph, &group, scratch, results);
    proof {
        let views = rules_at(rules, indices@);
        assert(group.rule_views() == views);
        let forward: nat = if some_unified(views) {
            1
        } else {
            0
        };
        let reverse: nat = if some_sealed(views) {
            1
        } else {
            0
        };
        let own = narrowed_runs(view, root as int, views, views.len() as int);
        runs_add_up(start, forward, own);
        runs_add_up(start, forward + own, reverse);
    }
    assert forall|k: int| 0 <= k < indices@.len() implies results.done@.contains(
        #[trigger] indices@[k] as int,
    ) by {
        let rule = group.rule_view(k);
        assert(rule.kind is Direct || rule.kind is Sealed || is_unified(rule) || is_narrowed(rule));
    }
}

/// What an evaluation holds.
pub open spec fn is_evaluation(
    evaluation: Evaluation,
    view: GraphView,
    config: ConfigView,
) -> bool {
    &&& evaluation.statuses@.len() == config.rules.len()
    &&& forall|i: int|
        0 <= i < config.rules.len() ==> (#[trigger] evaluation.statuses@[i])@ == status_of(
            view,
            config,
            config.rules[i],
        )
    &&& violation_views(evaluation.violations@) == failures_below(
        view,
        config,
        config.rules.len() as int,
    )
    &&& evaluation.matches == saturated(matched_below(view, config, config.rules.len() as int))
    &&& evaluation.superset_extra_edges == traversed_extra(view, config.rules).len()
}

/// Evaluates all graph rules in declaration order.
///
/// Rules are grouped by package so that each package gets at most one forward traversal and one
/// reverse traversal. If a rule names a package that is not a member, it fails closed with an
/// empty violation.
///
/// A rule carrying a `features` selection is evaluated on its own package-rooted closure
/// instead, which costs one activation walk and one masked traversal per rule and one extra
/// unified traversal per group (the superset the pruned names are measured against). Nothing on
/// that path runs for a policy without such a rule, down to the walk's allocation.
#[must_use]
pub fn evaluate(graph: &Graph<'_>, config: &Config, scratch: &mut Scratch) -> (evaluation: Evaluation)
    requires
        graph.wf(),
        config.wf(),
        old(scratch).wf(),
    ensures
        final(scratch).wf(),
        final(scratch).extra_edges() == traversed_extra(graph@, config@.rules),
        final(scratch).spent() >= old(scratch).spent(),
        final(scratch).runs() == saturated(
            (old(scratch).runs() + traversal_runs(graph@, config@.rules)) as nat,
        ),
        is_evaluation(evaluation, graph@, config@),
{
    let ghost view = graph@;
    let ghost rules = config@.rules;
    scratch.reset_extra();
    let mask = internal_mask(graph, config);
    let ghost runs = runs_by_package(view, rules);
    let groups = group_rules(config, Ghost(runs));
    let mut results = Results::new(config, Ghost(view));
    let mut walk: Option<features::Walk<'_, '_>> = None;
    let mut at: usize = 0;
    while at < groups.len()
        invariant
            graph.wf(),
            view == graph@,
            config.wf(),
            rules == config@.rules,
            masks(mask, view, config@),
            are_groups(groups@, rules, rules.len() as int),
            runs == runs_by_package(view, rules),
            at <= groups@.len(),
            scratch.spent() >= old(scratch).spent(),
            scratch.runs() == saturated(
                (old(scratch).runs() + group_sum(groups@, rules, runs, at as int)) as nat,
            ),
            scratch.wf(),
            kept_extra(*scratch, view) == scratch.extra_edges(),
            walk_fits(walk, view),
            results.holds(view, config@),
            extra_is(scratch.extra_edges(), view, rules, results.done@),
            forall|g: int, k: int|
                #![trigger groups@[g]@[k]]
                0 <= g < at && 0 <= k < groups@[g]@.len() ==> results.done@.contains(
                    groups@[g]@[k] as int,
                ),
        decreases groups@.len() - at,
    {
        proof {
            let package = group_package(groups@, rules, at as int);
            assert(groups@[at as int]@.len() > 0);
            assert forall|k: int| 0 <= k < groups@[at as int]@.len() implies (
            #[trigger] groups@[at as int]@[k]) < config.rules@.len()
                && config.rules@[groups@[at as int]@[k] as int].package@
                == config.rules@[groups@[at as int]@[0] as int].package@ by {
                assert(rules[groups@[at as int]@[k] as int].package == package);
            }
            assert(rules.take(rules.len() as int) =~= rules);
            assert(rules_at(rules, groups@[at as int]@) == of_package(rules, package));
            runs_add_up(
                old(scratch).runs(),
                group_sum(groups@, rules, runs, at as int),
                runs(package),
            );
        }
        evaluate_group(graph, config, &groups[at], &mask, scratch, &mut walk, &mut results);
        at = at + 1;
    }
    proof {
        assert forall|i: int| 0 <= i < rules.len() implies results.done@.contains(i) by {
            assert(is_grouped(groups@, i));
        }
        assert(scratch.extra_edges() =~= traversed_extra(view, rules)) by {
            assert forall|edge: int| traversed_extra(view, rules).contains(edge) implies
                scratch.extra_edges().contains(edge) by {
                let i = choose|i: int|
                    0 <= i < rules.len() && #[trigger] rule_extra(view, rules[i]).contains(edge);
                assert(results.done@.contains(i));
            }
        }
    }
    let superset_extra_edges = scratch.superset_extra_edges();
    let matches = total_matched(&results.statuses, Ghost(view), Ghost(config@));
    let violations = collect_violations(results.violations, Ghost(view), Ghost(config@));
    Evaluation { statuses: results.statuses, violations, matches, superset_extra_edges }
}

/// The evidence that was recorded, in the order of the rules.
fn collect_violations(
    violations: Vec<Option<Violation>>,
    Ghost(view): Ghost<GraphView>,
    Ghost(config): Ghost<ConfigView>,
) -> (collected: Vec<Violation>)
    requires
        violations@.len() == config.rules.len(),
        forall|i: int|
            0 <= i < config.rules.len() ==> evidence_view(#[trigger] violations@[i]) == verdict_of(
                view,
                config,
                config.rules[i],
            ).violation,
    ensures
        violation_views(collected@) == failures_below(view, config, config.rules.len() as int),
{
    let ghost all = violations@;
    let mut left = violations;
    let mut collected: Vec<Violation> = Vec::new();
    let ghost mut at: int = 0;
    assert(violation_views(collected@) =~= Seq::<ViolationView>::empty());
    while left.len() > 0
        invariant
            0 <= at <= all.len(),
            all.len() == config.rules.len(),
            left@ == all.skip(at),
            forall|i: int|
                0 <= i < config.rules.len() ==> evidence_view(#[trigger] all[i]) == verdict_of(
                    view,
                    config,
                    config.rules[i],
                ).violation,
            violation_views(collected@) == failures_below(view, config, at),
        decreases left@.len(),
    {
        assert(left@[0] == all[at]);
        if let Some(violation) = left.remove(0) {
            let ghost before = violation_views(collected@);
            collected.push(violation);
            assert(violation_views(collected@) =~= before.push(violation@));
        }
        proof {
            at = at + 1;
            assert(left@ =~= all.skip(at));
        }
    }
    collected
}

/// The total of what was matched, as far as it can be counted.
fn total_matched(
    statuses: &Vec<RuleStatus>,
    Ghost(view): Ghost<GraphView>,
    Ghost(config): Ghost<ConfigView>,
) -> (total: u32)
    requires
        statuses@.len() == config.rules.len(),
        forall|i: int|
            0 <= i < config.rules.len() ==> (#[trigger] statuses@[i])@ == status_of(
                view,
                config,
                config.rules[i],
            ),
    ensures
        total == saturated(matched_below(view, config, config.rules.len() as int)),
{
    let mut total: u32 = 0;
    let mut at: usize = 0;
    while at < statuses.len()
        invariant
            at <= statuses@.len(),
            statuses@.len() == config.rules.len(),
            forall|i: int|
                0 <= i < config.rules.len() ==> (#[trigger] statuses@[i])@ == status_of(
                    view,
                    config,
                    config.rules[i],
                ),
            total == saturated(matched_below(view, config, at as int)),
        decreases statuses@.len() - at,
    {
        assert(statuses@[at as int]@.matched == verdict_of(
            view,
            config,
            config.rules[at as int],
        ).matched);
        let matched = statuses[at].matched;
        total = if matched > u32::MAX - total {
            u32::MAX
        } else {
            total + matched
        };
        at = at + 1;
    }
    total
}

/// Whether a package named with id `name` can be reached from `root`.
pub open spec fn name_is_reached(view: GraphView, steps: Steps, root: int, name: int) -> bool {
    exists|node: int|
        0 <= node < view.count() && #[trigger] steps.reaches(root, node) && view.name_of[node]
            == name
}

pub(crate) proof fn steps_have_a_traversal(view: GraphView, live: Set<int>, root: int)
    requires
        view.consistent(),
        0 <= root < view.count(),
    ensures
        breadth_first(view.steps(live), root, traversal(view.steps(live), root)),
        forall|i: int|
            0 <= i < traversal(view.steps(live), root).order.len() ==> 0 <= #[trigger] traversal(
                view.steps(live),
                root,
            ).order[i] < view.count(),
{
    let steps = view.steps(live);
    assert(steps.bounded()) by {
        assert forall|edge: int| 0 <= edge < steps.edges.len() implies 0 <= (
        #[trigger] steps.edges[edge]).0 < steps.nodes && 0 <= steps.edges[edge].1 < steps.nodes by {
            assert(0 <= view.edges[edge].from < view.count());
        }
    }
    paths::traversal_exists(steps, root);
    found_are_nodes(steps, root, traversal(steps, root));
}

pub(crate) proof fn found_are_nodes(steps: Steps, root: int, trail: Trail)
    requires
        steps.bounded(),
        0 <= root < steps.nodes,
        breadth_first(steps, root, trail),
    ensures
        forall|i: int|
            0 <= i < trail.order.len() ==> 0 <= #[trigger] trail.order[i] < steps.nodes,
{
    assert forall|i: int| 0 <= i < trail.order.len() implies 0 <= #[trigger] trail.order[i]
        < steps.nodes by {
        if i > 0 {
            let from = trail.from[i];
            assert(steps.step(trail.via[i], trail.order[from], trail.order[i]));
            assert(0 <= steps.edges[trail.via[i]].1 < steps.nodes);
        }
    }
}

/// The names that a traversal finds are those of the packages that can be reached.
pub proof fn found_names_are_reached(view: GraphView, live: Set<int>, root: int, name: int)
    requires
        view.consistent(),
        0 <= root < view.count(),
    ensures
        names_node(traversal(view.steps(live), root).order, view.name_of, name) == name_is_reached(
            view,
            view.steps(live),
            root,
            name,
        ),
{
    let steps = view.steps(live);
    let trail = traversal(steps, root);
    steps_have_a_traversal(view, live, root);
    if names_node(trail.order, view.name_of, name) {
        let i = choose|i: int| crate::graph::first_named(trail.order, view.name_of, name, i);
        let node = trail.order[i];
        assert(trail.order.contains(node));
        paths::traversal_finds_what_is_reached(steps, root, trail, node);
        assert(steps.reaches(root, node));
    }
    if name_is_reached(view, steps, root, name) {
        let node = choose|node: int|
            0 <= node < view.count() && #[trigger] steps.reaches(root, node) && view.name_of[node]
                == name;
        paths::traversal_finds_what_is_reached(steps, root, trail, node);
        let at = choose|at: int| 0 <= at < trail.order.len() && trail.order[at] == node;
        crate::graph::named_has_first(trail.order, view.name_of, name, at);
    }
}

/// A rule that was answered has evidence exactly when it failed.
pub proof fn rules_fail_with_evidence(view: GraphView, config: ConfigView, rule: RuleView)
    ensures
        verdict_of(view, config, rule).passed == (verdict_of(view, config, rule).violation is None),
{
}

pub(crate) proof fn found_names_hold(
    view: GraphView,
    trail: Trail,
    root: int,
    wanted: spec_fn(int) -> bool,
    upto: int,
)
    ensures
        forall|name: int| #[trigger]
            found_names(view, trail, root, wanted, upto).contains(name) <==> 0 <= name < upto
                && names_node(trail.order, view.name_of, name) && name != view.name_of[root]
                && wanted(name),
        found_names(view, trail, root, wanted, upto).len() == 0 <==> forall|name: int|
            0 <= name < upto && #[trigger] names_node(trail.order, view.name_of, name) && name
                != view.name_of[root] ==> !wanted(name),
    decreases upto,
{
    if upto > 0 {
        found_names_hold(view, trail, root, wanted, upto - 1);
        let before = found_names(view, trail, root, wanted, upto - 1);
        let now = found_names(view, trail, root, wanted, upto);
        let last = upto - 1;
        assert forall|name: int| #[trigger] now.contains(name) <==> 0 <= name < upto && names_node(
            trail.order,
            view.name_of,
            name,
        ) && name != view.name_of[root] && wanted(name) by {
            assert(before.contains(name) <==> 0 <= name < last && names_node(
                trail.order,
                view.name_of,
                name,
            ) && name != view.name_of[root] && wanted(name));
            if now.len() > before.len() {
                assert(now[before.len() as int] == last);
                if before.contains(name) {
                    let i = choose|i: int| 0 <= i < before.len() && before[i] == name;
                    assert(now[i] == name);
                }
                if now.contains(name) {
                    let i = choose|i: int| 0 <= i < now.len() && now[i] == name;
                    if i < before.len() {
                        assert(before[i] == name);
                    }
                }
            }
        }
        if now.len() > 0 {
            assert(now.contains(now[0]));
            assert(names_node(trail.order, view.name_of, now[0]));
        } else {
            assert forall|name: int|
                0 <= name < upto && #[trigger] names_node(trail.order, view.name_of, name) && name
                    != view.name_of[root] implies !wanted(name) by {
                if wanted(name) {
                    assert(now.contains(name));
                }
            }
        }
    }
}

/// A `deny` rule without a selection passes exactly when no package that can be reached, but
/// those of the rule's own name, has a name that the rule rejects.
pub proof fn deny_passes_when_nothing_denied_is_reached(
    view: GraphView,
    config: ConfigView,
    rule: RuleView,
    root: int,
)
    requires
        view.consistent(),
        root_of(view, rule.package) == Some(root),
        rule.kind is Deny,
        rule.features is None,
    ensures
        verdict_of(view, config, rule).passed == forall|node: int|
            0 <= node < view.count() && #[trigger] view.forward().reaches(root, node) && view.name(
                node,
            ) != rule.package ==> !rule.kind->exact.contains(view.name(node))
                && !globs::any_matches(rule.kind->globs, view.name(node)),
{
    config::root_is_a_member(view, rule.package);
    let exact = rule.kind->exact;
    let globs = rule.kind->globs;
    let wanted = is_denied(view, exact, globs);
    let trail = unified_closure(view, root);
    let count = view.names.len() as int;
    found_names_hold(view, trail, root, wanted, count);
    assert(view.names[view.name_of[root]] == rule.package);
    let passed = verdict_of(view, config, rule).passed;
    if passed {
        assert forall|node: int|
            0 <= node < view.count() && #[trigger] view.forward().reaches(root, node) && view.name(
                node,
            ) != rule.package implies !exact.contains(view.name(node)) && !globs::any_matches(
            globs,
            view.name(node),
        ) by {
            let name = view.name_of[node];
            assert(view.names[name] == view.name(node));
            found_names_are_reached(view, Set::full(), root, name);
            assert(name_is_reached(view, view.forward(), root, name));
            assert(names_node(trail.order, view.name_of, name));
            assert(!wanted(name));
        }
    } else {
        let found = found_names(view, trail, root, wanted, count);
        assert(found.contains(found[0]));
        let name = found[0];
        found_names_are_reached(view, Set::full(), root, name);
        let node = choose|node: int|
            0 <= node < view.count() && #[trigger] view.forward().reaches(root, node)
                && view.name_of[node] == name;
        assert(view.names[name] == view.name(node));
        assert(wanted(name));
        if view.name(node) == rule.package {
            assert(view.names[name] == view.names[view.name_of[root]]);
        }
    }
}

/// A rule's own package is never among the names that it finds.
pub proof fn own_name_is_never_found(
    view: GraphView,
    trail: Trail,
    root: int,
    wanted: spec_fn(int) -> bool,
    i: int,
)
    requires
        view.consistent(),
        0 <= root < view.count(),
        0 <= i < found_names(view, trail, root, wanted, view.names.len() as int).len(),
    ensures
        matches_of(
            view,
            trail,
            found_names(view, trail, root, wanted, view.names.len() as int),
        )[i].name != view.name(root),
{
    let found = found_names(view, trail, root, wanted, view.names.len() as int);
    found_names_hold(view, trail, root, wanted, view.names.len() as int);
    assert(found.contains(found[i]));
    assert(view.names[view.name_of[root]] == view.name(root));
}

/// A pattern that the rule's own package alone satisfies is not met.
pub proof fn own_name_meets_no_pattern(
    view: GraphView,
    trail: Trail,
    root: int,
    pattern: PatternView,
)
    requires
        view.consistent(),
        0 <= root < view.count(),
        forall|name: int|
            0 <= name < view.names.len() && #[trigger] names_node(trail.order, view.name_of, name)
                && pattern.matches(view.names[name]) ==> view.names[name] == view.name(root),
    ensures
        !is_met(view, trail, root, pattern),
{
    if is_met(view, trail, root, pattern) {
        let name = choose|name: int|
            #![trigger view.names[name]]
            0 <= name < view.names.len() && names_node(trail.order, view.name_of, name) && name
                != view.name_of[root] && pattern.matches(view.names[name]);
        assert(names_node(trail.order, view.name_of, name));
        assert(view.names[view.name_of[root]] == view.name(root));
    }
}

/// A `leaf` rule is an `internal` rule that expects nothing.
pub proof fn leaf_is_internal_of_nothing(view: GraphView, config: ConfigView, leaf: RuleView, internal: RuleView)
    requires
        leaf.kind is Leaf,
        internal.kind == RuleKindView::Internal(Seq::empty()),
        leaf.package == internal.package,
        leaf.features is Some == internal.features is Some,
        leaf.features is Some ==> (leaf.features->0).0 == (internal.features->0).0,
    ensures
        verdict_of(view, config, leaf).passed == verdict_of(view, config, internal).passed,
        verdict_of(view, config, leaf).matched == verdict_of(view, config, internal).matched,
        verdict_of(view, config, leaf).pruned == verdict_of(view, config, internal).pruned,
        match (
            verdict_of(view, config, leaf).violation,
            verdict_of(view, config, internal).violation,
        ) {
            (Some(one), Some(other)) => one.extra == other.extra && one.missing == other.missing,
            (None, None) => true,
            _ => false,
        },
{
}

/// Whether every name that `narrow` finds is one that `wide` finds.
pub open spec fn finds_no_more(view: GraphView, narrow: Trail, wide: Trail) -> bool {
    forall|name: int| #[trigger]
        names_node(narrow.order, view.name_of, name) ==> names_node(wide.order, view.name_of, name)
}

/// What a selection turns on finds no name that the unified closure does not find.
pub proof fn a_selection_finds_no_more(view: GraphView, root: int, selection: SelectionView)
    requires
        view.consistent(),
        0 <= root < view.count(),
    ensures
        finds_no_more(
            view,
            narrowed_closure(view, root, selection),
            unified_closure(view, root),
        ),
{
    let live = activation_of(view, root, selection).edges;
    let narrow = view.steps(live);
    let wide = view.forward();
    assert forall|name: int| #[trigger]
        names_node(narrowed_closure(view, root, selection).order, view.name_of, name) implies
        names_node(unified_closure(view, root).order, view.name_of, name) by {
        found_names_are_reached(view, live, root, name);
        found_names_are_reached(view, Set::full(), root, name);
        let node = choose|node: int|
            0 <= node < view.count() && #[trigger] narrow.reaches(root, node)
                && view.name_of[node] == name;
        paths::more_steps_reach_no_less(narrow, wide, root, node);
        assert(wide.reaches(root, node));
    }
}

/// Widening a closure cannot hide a `deny` finding: a rule that passes on a closure passes on
/// every smaller one.
pub proof fn deny_passes_on_less(
    view: GraphView,
    rule: RuleView,
    narrow: Trail,
    wide: Trail,
    root: int,
    exact: Seq<Seq<char>>,
    globs: Seq<Seq<char>>,
)
    requires
        finds_no_more(view, narrow, wide),
        deny_verdict(view, rule, wide, root, exact, globs).passed,
    ensures
        deny_verdict(view, rule, narrow, root, exact, globs).passed,
{
    let wanted = is_denied(view, exact, globs);
    let count = view.names.len() as int;
    found_names_hold(view, wide, root, wanted, count);
    found_names_hold(view, narrow, root, wanted, count);
}

/// Narrowing a closure cannot meet a `require` pattern: a rule that passes on a closure passes
/// on every larger one.
pub proof fn require_passes_on_more(
    view: GraphView,
    rule: RuleView,
    narrow: Trail,
    wide: Trail,
    root: int,
    patterns: Seq<PatternView>,
)
    requires
        finds_no_more(view, narrow, wide),
        require_verdict(view, rule, narrow, root, patterns).passed,
    ensures
        require_verdict(view, rule, wide, root, patterns).passed,
{
    unmet_shrinks(view, narrow, wide, root, patterns, patterns.len() as int);
}

proof fn unmet_shrinks(
    view: GraphView,
    narrow: Trail,
    wide: Trail,
    root: int,
    patterns: Seq<PatternView>,
    upto: int,
)
    requires
        finds_no_more(view, narrow, wide),
        unmet(view, narrow, root, patterns, upto).len() == 0,
    ensures
        unmet(view, wide, root, patterns, upto).len() == 0,
    decreases upto,
{
    if upto > 0 {
        unmet_shrinks(view, narrow, wide, root, patterns, upto - 1);
        let pattern = patterns[upto - 1];
        assert(is_met(view, narrow, root, pattern));
        let name = choose|name: int|
            #![trigger view.names[name]]
            0 <= name < view.names.len() && names_node(narrow.order, view.name_of, name) && name
                != view.name_of[root] && pattern.matches(view.names[name]);
        assert(names_node(narrow.order, view.name_of, name));
        assert(names_node(wide.order, view.name_of, name));
        assert(is_met(view, wide, root, pattern));
    }
}

/// A feature selection cannot make a `deny` rule fail that passes on the unified closure.
pub proof fn a_selection_cannot_add_a_denied_name(
    view: GraphView,
    config: ConfigView,
    unified: RuleView,
    narrowed: RuleView,
    root: int,
)
    requires
        view.consistent(),
        root_of(view, unified.package) == Some(root),
        unified.kind is Deny,
        unified.features is None,
        narrowed.package == unified.package,
        narrowed.kind == unified.kind,
        narrowed.features is Some,
        is_decodable(view, root, (narrowed.features->0).0),
        verdict_of(view, config, unified).passed,
    ensures
        verdict_of(view, config, narrowed).passed,
{
    config::root_is_a_member(view, unified.package);
    let selection = (narrowed.features->0).0;
    let wide = unified_closure(view, root);
    let narrow = narrowed_closure(view, root, selection);
    a_selection_finds_no_more(view, root, selection);
    deny_passes_on_less(
        view,
        unified,
        narrow,
        wide,
        root,
        unified.kind->exact,
        unified.kind->globs,
    );
}

/// The names that a selection prunes are those of the unified closure that the narrowed one
/// does not have, in order.
pub proof fn pruned_names_are_the_difference(view: GraphView, root: int, selection: SelectionView)
    requires
        view.consistent(),
    ensures
        names::ordered(
            pruned_of(view, root, selection),
            |name: Seq<char>|
                exists|id: int|
                    #![trigger view.names[id]]
                    0 <= id < view.names.len() && view.names[id] == name && names_node(
                        unified_closure(view, root).order,
                        view.name_of,
                        id,
                    ) && !names_node(
                        narrowed_closure(view, root, selection).order,
                        view.name_of,
                        id,
                    ),
        ),
{
    let wide = unified_closure(view, root);
    let narrow = narrowed_closure(view, root, selection);
    let count = view.names.len() as int;
    let between = names_between(view, wide, narrow, count);
    names::distinct_is_ordered(between);
    names_between_hold(view, wide, narrow, count);
    assert forall|name: Seq<char>| #[trigger]
        pruned_of(view, root, selection).contains(name) <==> exists|id: int|
        #![trigger view.names[id]]
        0 <= id < view.names.len() && view.names[id] == name && names_node(
            wide.order,
            view.name_of,
            id,
        ) && !names_node(narrow.order, view.name_of, id) by {
        assert(between.contains(name) <==> names::distinct(between).contains(name));
    }
}

proof fn names_between_hold(view: GraphView, wide: Trail, narrow: Trail, upto: int)
    ensures
        forall|name: Seq<char>| #[trigger]
            names_between(view, wide, narrow, upto).contains(name) <==> exists|id: int|
                #![trigger view.names[id]]
                0 <= id < upto && view.names[id] == name && names_node(
                    wide.order,
                    view.name_of,
                    id,
                ) && !names_node(narrow.order, view.name_of, id),
    decreases upto,
{
    if upto > 0 {
        names_between_hold(view, wide, narrow, upto - 1);
        let before = names_between(view, wide, narrow, upto - 1);
        let now = names_between(view, wide, narrow, upto);
        let last = view.names[upto - 1];
        assert forall|name: Seq<char>| #[trigger] now.contains(name) <==> exists|id: int|
            #![trigger view.names[id]]
            0 <= id < upto && view.names[id] == name && names_node(wide.order, view.name_of, id)
                && !names_node(narrow.order, view.name_of, id) by {
            assert(before.contains(name) <==> exists|id: int|
                #![trigger view.names[id]]
                0 <= id < upto - 1 && view.names[id] == name && names_node(
                    wide.order,
                    view.name_of,
                    id,
                ) && !names_node(narrow.order, view.name_of, id));
            if now.len() > before.len() {
                assert(now[before.len() as int] == last);
                if before.contains(name) {
                    let i = choose|i: int| 0 <= i < before.len() && before[i] == name;
                    assert(now[i] == name);
                }
                if now.contains(name) {
                    let i = choose|i: int| 0 <= i < now.len() && now[i] == name;
                    if i < before.len() {
                        assert(before[i] == name);
                    }
                }
            }
        }
    } else {
        assert(names_between(view, wide, narrow, upto) =~= Seq::<Seq<char>>::empty());
    }
}

/// The witness of a name is a path from the root to a package of that name, and no path to any
/// package of that name is shorter.
pub proof fn witnesses_are_shortest(
    view: GraphView,
    live: Set<int>,
    root: int,
    name: int,
    path: Seq<int>,
    node: int,
)
    requires
        view.consistent(),
        0 <= root < view.count(),
        0 <= node < view.count(),
        view.name_of[node] == name,
        view.steps(live).leads(path, root, node),
    ensures
        ({
            let trail = traversal(view.steps(live), root);
            let first = first_found(view, trail, name);
            let shown = witness(trail, Direction::Forward, first);
            &&& view.name_of[first] == name
            &&& view.steps(live).leads(shown, root, first)
            &&& shown.len() <= path.len()
        }),
{
    let steps = view.steps(live);
    let trail = traversal(steps, root);
    steps_have_a_traversal(view, live, root);
    paths::trail_path_is_shortest(steps, root, trail, node, path);
    let at = position(trail, node);
    assert(trail.order[at] == node);
    crate::graph::named_has_first(trail.order, view.name_of, name, at);
    let i = choose|i: int| crate::graph::first_named(trail.order, view.name_of, name, i);
    let first = trail.order[i];
    assert(position(trail, first) == i) by {
        assert(trail.order.contains(first));
    }
    if at < i {
        assert(view.name_of[trail.order[at]] != name);
    }
    paths::later_is_no_nearer(steps, root, trail, i, at);
    paths::trail_path_leads(steps, root, trail, i);
}

/// A `sealed` rule passes exactly when no other member depends on the package, however far.
pub proof fn sealed_passes_when_no_member_depends(
    view: GraphView,
    config: ConfigView,
    rule: RuleView,
    root: int,
)
    requires
        view.consistent(),
        root_of(view, rule.package) == Some(root),
        rule.kind is Sealed,
    ensures
        verdict_of(view, config, rule).passed == forall|member: int| #[trigger]
            view.members.contains(member) && member != root ==> !view.forward().reaches(member, root),
{
    config::root_is_a_member(view, rule.package);
    let steps = view.backward();
    let trail = traversal(steps, root);
    assert(steps.bounded()) by {
        assert forall|edge: int| 0 <= edge < steps.edges.len() implies 0 <= (
        #[trigger] steps.edges[edge]).0 < steps.nodes && 0 <= steps.edges[edge].1 < steps.nodes by {
            assert(0 <= view.edges[edge].from < view.count());
        }
    }
    paths::traversal_exists(steps, root);
    found_are_nodes(steps, root, trail);
    let found = members_found(trail.order, view.members, root, view.count());
    members_found_hold(trail.order, view.members, root, view.count());
    assert forall|member: int| #[trigger] view.members.contains(member) implies (
    found.contains(member) <==> member != root && view.forward().reaches(member, root)) by {
        let k = choose|k: int| 0 <= k < view.members.len() && view.members[k] == member;
        assert(0 <= view.members[k] < view.count());
        paths::reversing_steps_reverses_reach(view.forward(), member, root);
        paths::traversal_finds_what_is_reached(steps, root, trail, member);
    }
    if found.len() > 0 {
        assert(found.contains(found[0]));
        assert(view.members.contains(found[0]));
    }
}

pub(crate) proof fn members_found_hold(order: Seq<int>, members: Seq<int>, root: int, upto: int)
    ensures
        forall|node: int| #[trigger]
            members_found(order, members, root, upto).contains(node) <==> 0 <= node < upto
                && order.contains(node) && node != root && members.contains(node),
    decreases upto,
{
    if upto > 0 {
        members_found_hold(order, members, root, upto - 1);
        let before = members_found(order, members, root, upto - 1);
        let now = members_found(order, members, root, upto);
        assert forall|node: int| #[trigger] now.contains(node) <==> 0 <= node < upto
            && order.contains(node) && node != root && members.contains(node) by {
            assert(before.contains(node) <==> 0 <= node < upto - 1 && order.contains(node) && node
                != root && members.contains(node));
            if now.len() > before.len() {
                assert(now[before.len() as int] == upto - 1);
                if before.contains(node) {
                    let i = choose|i: int| 0 <= i < before.len() && before[i] == node;
                    assert(now[i] == node);
                }
                if now.contains(node) {
                    let i = choose|i: int| 0 <= i < now.len() && now[i] == node;
                    if i < before.len() {
                        assert(before[i] == node);
                    }
                }
            }
        }
    }
}

/// Widening a closure cannot hide a `leaf` finding: a rule that passes on a closure passes on
/// every smaller one.
pub proof fn leaf_passes_on_less(
    view: GraphView,
    config: ConfigView,
    rule: RuleView,
    narrow: Trail,
    wide: Trail,
    root: int,
)
    requires
        rule.kind is Leaf,
        finds_no_more(view, narrow, wide),
        closure_verdict(view, config, rule, wide, root).passed,
    ensures
        closure_verdict(view, config, rule, narrow, root).passed,
{
    let wanted = is_unexpected(view, config, Seq::empty());
    let count = view.names.len() as int;
    found_names_hold(view, wide, root, wanted, count);
    found_names_hold(view, narrow, root, wanted, count);
}

proof fn nothing_is_absent(expected: Seq<Seq<char>>, there: spec_fn(Seq<char>) -> bool, upto: int)
    requires
        0 <= upto <= expected.len(),
    ensures
        absent(expected, there, upto).len() == 0 <==> forall|i: int|
            0 <= i < upto ==> there(#[trigger] expected[i]),
    decreases upto,
{
    if upto > 0 {
        nothing_is_absent(expected, there, upto - 1);
        if absent(expected, there, upto).len() == 0 {
            assert(there(expected[upto - 1]));
        }
    }
}

/// Whether an internal package named `name`, other than the root, can be reached from `root` over
/// the edges `live`.
pub open spec fn reaches_internal(
    view: GraphView,
    config: ConfigView,
    live: Set<int>,
    root: int,
    name: Seq<char>,
) -> bool {
    exists|id: int|
        #![trigger view.names[id]]
        0 <= id < view.names.len() && view.names[id] == name && id != view.name_of[root]
            && is_internal(view, config, id) && name_is_reached(view, view.steps(live), root, id)
}

/// An `internal` rule passes exactly when the internal names that can be reached, but for the
/// rule's own, are the listed ones: none is missing and none comes on top.
pub proof fn internal_passes_when_the_sets_are_equal(
    view: GraphView,
    config: ConfigView,
    rule: RuleView,
    live: Set<int>,
    root: int,
    expected: Seq<Seq<char>>,
)
    requires
        view.consistent(),
        0 <= root < view.count(),
        rule.kind == RuleKindView::Internal(expected),
    ensures
        closure_verdict(view, config, rule, traversal(view.steps(live), root), root).passed
            == forall|name: Seq<char>| #[trigger]
            expected.contains(name) <==> reaches_internal(view, config, live, root, name),
{
    let trail = traversal(view.steps(live), root);
    let wanted = is_unexpected(view, config, expected);
    let there = |name: Seq<char>| has_internal(view, config, trail, root, name);
    let count = view.names.len() as int;
    found_names_hold(view, trail, root, wanted, count);
    nothing_is_absent(expected, there, expected.len() as int);
    assert forall|name: Seq<char>| #[trigger]
        has_internal(view, config, trail, root, name) == reaches_internal(
            view,
            config,
            live,
            root,
            name,
        ) by {
        if has_internal(view, config, trail, root, name) {
            let id = choose|id: int|
                #![trigger view.names[id]]
                0 <= id < view.names.len() && names_node(trail.order, view.name_of, id) && id
                    != view.name_of[root] && is_internal(view, config, id) && view.names[id] == name;
            found_names_are_reached(view, live, root, id);
        }
        if reaches_internal(view, config, live, root, name) {
            let id = choose|id: int|
                #![trigger view.names[id]]
                0 <= id < view.names.len() && view.names[id] == name && id != view.name_of[root]
                    && is_internal(view, config, id) && name_is_reached(
                    view,
                    view.steps(live),
                    root,
                    id,
                );
            found_names_are_reached(view, live, root, id);
        }
    }
    let found = found_names(view, trail, root, wanted, count);
    let equal = forall|name: Seq<char>| #[trigger]
        expected.contains(name) <==> reaches_internal(view, config, live, root, name);
    if closure_verdict(view, config, rule, trail, root).passed {
        assert forall|name: Seq<char>| #[trigger] expected.contains(name) <==> reaches_internal(
            view,
            config,
            live,
            root,
            name,
        ) by {
            if expected.contains(name) {
                let i = choose|i: int| 0 <= i < expected.len() && expected[i] == name;
                assert(there(expected[i]));
            }
            if has_internal(view, config, trail, root, name) {
                let id = choose|id: int|
                    #![trigger view.names[id]]
                    0 <= id < view.names.len() && names_node(trail.order, view.name_of, id) && id
                        != view.name_of[root] && is_internal(view, config, id) && view.names[id]
                        == name;
                assert(names_node(trail.order, view.name_of, id));
                assert(!wanted(id));
            }
        }
    }
    if equal {
        if found.len() > 0 {
            let id = found[0];
            assert(found.contains(id));
            assert(has_internal(view, config, trail, root, view.names[id]));
            assert(expected.contains(view.names[id]));
        }
        assert forall|i: int| 0 <= i < expected.len() implies there(#[trigger] expected[i]) by {
            assert(expected.contains(expected[i]));
        }
    }
}

proof fn nothing_is_unexpected(names: Seq<Seq<char>>, expected: Seq<Seq<char>>, upto: int)
    requires
        0 <= upto <= names.len(),
    ensures
        unexpected(names, expected, upto).len() == 0 <==> forall|i: int|
            0 <= i < upto ==> expected.contains(#[trigger] names[i]),
    decreases upto,
{
    if upto > 0 {
        nothing_is_unexpected(names, expected, upto - 1);
        if unexpected(names, expected, upto).len() == 0 {
            assert(expected.contains(names[upto - 1]));
        }
    }
}

/// A `direct` rule passes exactly when the names of the direct dependencies are the listed ones.
pub proof fn direct_passes_when_the_sets_are_equal(
    view: GraphView,
    config: ConfigView,
    rule: RuleView,
    root: int,
    expected: Seq<Seq<char>>,
)
    requires
        root_of(view, rule.package) == Some(root),
        rule.kind == RuleKindView::Direct(expected),
    ensures
        verdict_of(view, config, rule).passed == forall|name: Seq<char>| #[trigger]
            expected.contains(name) <==> exists|i: int|
                0 <= i < view.direct(root).len() && view.name(#[trigger] view.direct(root)[i])
                    == name,
{
    let count = view.direct(root).len() as int;
    let there = direct_names(view, root, count);
    let sorted = names::distinct(there);
    names::distinct_is_ordered(there);
    nothing_is_unexpected(sorted, expected, sorted.len() as int);
    nothing_is_absent(expected, |name: Seq<char>| there.contains(name), expected.len() as int);
    assert forall|name: Seq<char>| #[trigger] there.contains(name) <==> exists|i: int|
        0 <= i < count && view.name(#[trigger] view.direct(root)[i]) == name by {
        if exists|i: int| 0 <= i < count && view.name(#[trigger] view.direct(root)[i]) == name {
            let i = choose|i: int|
                0 <= i < count && view.name(#[trigger] view.direct(root)[i]) == name;
            assert(there[i] == name);
        }
        if there.contains(name) {
            let i = choose|i: int| 0 <= i < there.len() && there[i] == name;
            assert(view.name(view.direct(root)[i]) == name);
        }
    }
    if verdict_of(view, config, rule).passed {
        assert forall|name: Seq<char>| #[trigger] expected.contains(name) <==> there.contains(
            name,
        ) by {
            if expected.contains(name) {
                let i = choose|i: int| 0 <= i < expected.len() && expected[i] == name;
                assert(there.contains(expected[i]));
            }
            if there.contains(name) {
                assert(sorted.contains(name));
                let i = choose|i: int| 0 <= i < sorted.len() && sorted[i] == name;
                assert(expected.contains(sorted[i]));
            }
        }
    }
    if forall|name: Seq<char>| #[trigger] expected.contains(name) <==> there.contains(name) {
        assert forall|i: int| 0 <= i < sorted.len() implies expected.contains(
            #[trigger] sorted[i],
        ) by {
            assert(sorted.contains(sorted[i]));
            assert(there.contains(sorted[i]));
        }
        assert forall|i: int| 0 <= i < expected.len() implies there.contains(
            #[trigger] expected[i],
        ) by {
            assert(expected.contains(expected[i]));
        }
    }
}

proof fn nothing_is_unmet(
    view: GraphView,
    trail: Trail,
    root: int,
    patterns: Seq<PatternView>,
    upto: int,
)
    requires
        0 <= upto <= patterns.len(),
    ensures
        unmet(view, trail, root, patterns, upto).len() == 0 <==> forall|k: int|
            0 <= k < upto ==> is_met(view, trail, root, #[trigger] patterns[k]),
    decreases upto,
{
    if upto > 0 {
        nothing_is_unmet(view, trail, root, patterns, upto - 1);
        if unmet(view, trail, root, patterns, upto).len() == 0 {
            assert(is_met(view, trail, root, patterns[upto - 1]));
        }
    }
}

/// Whether a package whose name satisfies `pattern`, and is not the root's, can be reached from
/// `root` over the edges `live`.
pub open spec fn reaches_match(view: GraphView, live: Set<int>, root: int, pattern: PatternView) -> bool {
    exists|id: int|
        #![trigger view.names[id]]
        0 <= id < view.names.len() && id != view.name_of[root] && pattern.matches(view.names[id])
            && name_is_reached(view, view.steps(live), root, id)
}

/// A `require` rule passes exactly when every pattern is satisfied by a name that can be reached.
pub proof fn require_passes_when_every_pattern_is_met(
    view: GraphView,
    config: ConfigView,
    rule: RuleView,
    live: Set<int>,
    root: int,
    patterns: Seq<PatternView>,
)
    requires
        view.consistent(),
        0 <= root < view.count(),
        rule.kind == RuleKindView::Require(patterns),
    ensures
        closure_verdict(view, config, rule, traversal(view.steps(live), root), root).passed
            == forall|k: int|
            0 <= k < patterns.len() ==> reaches_match(view, live, root, #[trigger] patterns[k]),
{
    let trail = traversal(view.steps(live), root);
    nothing_is_unmet(view, trail, root, patterns, patterns.len() as int);
    assert forall|k: int| 0 <= k < patterns.len() implies is_met(
        view,
        trail,
        root,
        #[trigger] patterns[k],
    ) == reaches_match(view, live, root, patterns[k]) by {
        let pattern = patterns[k];
        if is_met(view, trail, root, pattern) {
            let id = choose|id: int|
                #![trigger view.names[id]]
                0 <= id < view.names.len() && names_node(trail.order, view.name_of, id) && id
                    != view.name_of[root] && pattern.matches(view.names[id]);
            found_names_are_reached(view, live, root, id);
        }
        if reaches_match(view, live, root, pattern) {
            let id = choose|id: int|
                #![trigger view.names[id]]
                0 <= id < view.names.len() && id != view.name_of[root] && pattern.matches(
                    view.names[id],
                ) && name_is_reached(view, view.steps(live), root, id);
            found_names_are_reached(view, live, root, id);
        }
    }
}

/// A `direct` rule never starts a traversal.
pub proof fn direct_rules_take_no_traversal(view: GraphView, rules: Seq<RuleView>)
    requires
        forall|i: int| 0 <= i < rules.len() ==> (#[trigger] rules[i]).kind is Direct,
    ensures
        traversal_runs(view, rules) == 0,
{
    let runs = runs_by_package(view, rules);
    assert forall|package: Seq<char>| #[trigger] runs(package) == 0 by {
        let own = of_package(rules, package);
        assert forall|k: int| 0 <= k < own.len() implies (#[trigger] own[k]).kind is Direct by {
            assert(own.contains(own[k]));
            rules.lemma_filter_contains_rev(|rule: RuleView| rule.package == package, own[k]);
        }
        if let Some(root) = root_of(view, package) {
            nothing_narrowed_runs(view, root, own, own.len() as int);
        }
    }
    nothing_sums_up(rules, runs, rules.len() as int);
}

proof fn nothing_narrowed_runs(view: GraphView, root: int, rules: Seq<RuleView>, upto: int)
    requires
        upto <= rules.len(),
        forall|k: int| 0 <= k < rules.len() ==> !is_narrowed(#[trigger] rules[k]),
    ensures
        narrowed_runs(view, root, rules, upto) == 0,
    decreases upto,
{
    if upto > 0 {
        nothing_narrowed_runs(view, root, rules, upto - 1);
        assert(!is_narrowed(rules[upto - 1]));
    }
}

proof fn nothing_sums_up(rules: Seq<RuleView>, runs: spec_fn(Seq<char>) -> nat, upto: int)
    requires
        forall|package: Seq<char>| #[trigger] runs(package) == 0,
    ensures
        package_sum(rules, runs, upto) == 0,
    decreases upto,
{
    if upto > 0 {
        nothing_sums_up(rules, runs, upto - 1);
    }
}

/// However many rules a package has, they take one forward and one reverse traversal at most,
/// unless one of them selects a closure of its own.
pub proof fn rules_of_a_package_share_traversals(
    view: GraphView,
    package: Seq<char>,
    rules: Seq<RuleView>,
)
    requires
        forall|k: int| 0 <= k < rules.len() ==> !is_narrowed(#[trigger] rules[k]),
    ensures
        package_runs(view, package, rules) <= 2,
        !some_sealed(rules) ==> package_runs(view, package, rules) <= 1,
{
    if let Some(root) = root_of(view, package) {
        nothing_narrowed_runs(view, root, rules, rules.len() as int);
    }
}

} // verus!
