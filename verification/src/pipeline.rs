//! The decisions of `check` and `explain` between their inputs and their reports.
//!
//! Both commands read a policy file and one `cargo metadata` document. [`preload`] validates an
//! explicit policy file before Cargo is spawned; [`plan`] validates a policy against the graph;
//! [`check`] evaluates it, and [`explain`] answers one query.

use crate::config::{
    self, root_of, validated, ConfigError, ConfigView, Fault, FeatureSelection,
    FeatureSelectionView, RawConfig, RuleView, Validated,
};
use crate::error::{Error, ErrorView};
use crate::globs;
use crate::graph::{
    first_found, first_named, lists, names_node, nodes_named, one_more, witness, Direction, Graph,
    GraphView, Scratch,
};
use crate::manifest::{self, ManifestInput, ManifestReport, ReportView};
use crate::metadata::{MetadataOptions, OptionsView};
use crate::paths::traversal;
use crate::platform::PlatformSelection;
use crate::rules::{
    self, failures_below, hop_views, hops_of, matched_below, status_of, traversal_runs,
    traversed_extra, violation_views, Evaluation, HopView, RuleStatus, StatusView, Violation,
    ViolationView, WitnessHop,
};
use crate::source::saturated;
use crate::text::{self, text_view, texts};
use crate::timings::Counters;
use vstd::prelude::*;

verus! {

/// Everything the `check` pipeline needs beyond the command-line grammar.
#[derive(Clone, Debug)]
#[non_exhaustive]
pub struct CheckArgs {
    /// Options controlling `cargo metadata` acquisition and rebasing.
    pub metadata: MetadataOptions,
    /// An explicit `depgate.toml` path, or `None` to discover it after parsing metadata.
    pub config_path: Option<String>,
}

impl CheckArgs {
    /// The arguments of a check whose policy file is discovered.
    #[must_use]
    pub fn new(metadata: MetadataOptions) -> (args: CheckArgs)
        ensures
            args.metadata == metadata,
            args.config_path is None,
    {
        CheckArgs { metadata, config_path: None }
    }

    /// Names the policy file.
    #[must_use]
    pub fn with_config_path(self, config_path: &str) -> (args: CheckArgs)
        ensures
            args.metadata == self.metadata,
            args.config_path matches Some(path) && path@ == config_path@,
    {
        CheckArgs { metadata: self.metadata, config_path: Some(config_path.to_owned()) }
    }
}

/// Inputs for `explain <package> <dependency>`.
#[derive(Clone, Debug)]
#[non_exhaustive]
pub struct ExplainArgs {
    /// Options controlling `cargo metadata` acquisition and rebasing.
    pub metadata: MetadataOptions,
    /// An explicit `depgate.toml` path, or `None` to discover it after parsing metadata.
    pub config_path: Option<String>,
    /// The package whose dependency path should be explained.
    pub package: String,
    /// The dependency to locate beneath `package`.
    pub dependency: String,
}

impl ExplainArgs {
    /// The arguments of a query whose policy file is discovered.
    #[must_use]
    pub fn new(metadata: MetadataOptions, package: &str, dependency: &str) -> (args: ExplainArgs)
        ensures
            args.metadata == metadata,
            args.config_path is None,
            args.package@ == package@,
            args.dependency@ == dependency@,
    {
        ExplainArgs {
            metadata,
            config_path: None,
            package: package.to_owned(),
            dependency: dependency.to_owned(),
        }
    }

    /// Names the policy file.
    #[must_use]
    pub fn with_config_path(self, config_path: &str) -> (args: ExplainArgs)
        ensures
            args.config_path matches Some(path) && path@ == config_path@,
            args == (ExplainArgs { config_path: args.config_path, ..self }),
    {
        ExplainArgs { config_path: Some(config_path.to_owned()), ..self }
    }
}

/// Whether the command line selects features. A bare `--no-default-features` does not: Cargo
/// combines it with whatever else selects.
pub open spec fn selects_features(options: OptionsView) -> bool {
    options.all_features || options.features.len() > 0
}

fn has_selection(options: &MetadataOptions) -> (selected: bool)
    ensures
        selected == selects_features(options@),
{
    options.all_features || options.features.len() > 0
}

/// The options that Cargo is spawned with under a policy that asks for `selection`: the command
/// line's own, when it selects features or nothing is spawned.
pub open spec fn spawned_with(options: OptionsView, selection: FeatureSelectionView) -> OptionsView {
    if options.source is Some || selects_features(options) {
        options
    } else {
        match selection {
            FeatureSelectionView::Default => options,
            FeatureSelectionView::All => OptionsView { all_features: true, ..options },
            FeatureSelectionView::List(features) => OptionsView { features, ..options },
        }
    }
}

/// Applies the feature selection of an explicit policy file to the `cargo metadata` spawn.
#[must_use]
pub fn spawn_options(options: &MetadataOptions, selection: &FeatureSelection) -> (spawned:
    MetadataOptions)
    ensures
        spawned@ == spawned_with(options@, selection@),
{
    let mut spawned = options.copied();
    if options.source.is_some() || has_selection(options) {
        return spawned;
    }
    match selection {
        FeatureSelection::Default => {},
        FeatureSelection::All => {
            spawned.all_features = true;
        },
        FeatureSelection::List(features) => {
            spawned.features = text::copy_all(features);
        },
    }
    spawned
}

/// What a selection that came too late to reach Cargo leads to: nothing to say, a warning, or an
/// error.
pub open spec fn after_metadata(
    explicit: bool,
    options: OptionsView,
    selection: FeatureSelectionView,
) -> Result<Option<Seq<char>>, ErrorView> {
    if selection is Default {
        Ok(None)
    } else if options.source is Some {
        Ok(Some(ignored_features_text()))
    } else if explicit || selects_features(options) {
        Ok(None)
    } else {
        Err(ErrorView::Configuration { message: late_features_text(), span: None })
    }
}

/// The warning about a selection that a precomputed document makes meaningless.
pub open spec fn ignored_features_text() -> Seq<char> {
    "warning: [graph].features is ignored under --metadata-json; the JSON was produced with its own feature selection"@
}

/// The error about a selection that was found after Cargo had run.
pub open spec fn late_features_text() -> Seq<char> {
    "[graph].features in a discovered depgate.toml is read only after cargo metadata has run; pass the file with --config, or select features with --features or --all-features"@
}

/// Judges the feature selection of a policy once the metadata is there. `explicit` says whether
/// the policy file was named on the command line, and so was read before Cargo ran.
///
/// # Errors
///
/// A discovered file cannot select features, unless the command line does.
pub fn feature_selection_after_metadata(
    explicit: bool,
    options: &MetadataOptions,
    selection: &FeatureSelection,
) -> (result: Result<Option<String>, Error>)
    ensures
        (match result {
            Ok(Some(warning)) => Ok(Some(warning@)),
            Ok(None) => Ok(None),
            Err(error) => Err(error@),
        }) == after_metadata(explicit, options@, selection@),
{
    if let FeatureSelection::Default = selection {
        return Ok(None);
    }
    if options.source.is_some() {
        return Ok(
            Some(
                "warning: [graph].features is ignored under --metadata-json; the JSON was produced with its own feature selection".to_owned(),
            ),
        );
    }
    if explicit || has_selection(options) {
        return Ok(None);
    }
    Err(
        Error::Configuration {
            message: "[graph].features in a discovered depgate.toml is read only after cargo metadata has run; pass the file with --config, or select features with --features or --all-features".to_owned(),
            span: None,
        },
    )
}

/// The selection that a graph was resolved with, given the options that Cargo was spawned with;
/// unknown when no Cargo ran.
pub open spec fn resolved_with(options: OptionsView, selection: FeatureSelectionView) -> Option<
    FeatureSelectionView,
> {
    if options.source is Some {
        None
    } else if options.all_features {
        Some(FeatureSelectionView::All)
    } else if options.features.len() > 0 {
        Some(FeatureSelectionView::List(options.features))
    } else {
        Some(selection)
    }
}

/// The characters of a feature selection, if there is one.
pub open spec fn features_view(selection: Option<FeatureSelection>) -> Option<FeatureSelectionView> {
    match selection {
        Some(selection) => Some(selection@),
        None => None,
    }
}

/// The selection to report for a run with the given spawn options.
#[must_use]
pub fn effective_features(options: &MetadataOptions, selection: &FeatureSelection) -> (effective:
    Option<FeatureSelection>)
    ensures
        features_view(effective) == resolved_with(options@, selection@),
{
    if options.source.is_some() {
        None
    } else if options.all_features {
        Some(FeatureSelection::All)
    } else if options.features.len() > 0 {
        Some(FeatureSelection::List(text::copy_all(&options.features)))
    } else {
        Some(selection.copied())
    }
}

/// Features that the command line selects win over the policy file, in what Cargo is spawned
/// with and in what is reported.
pub proof fn command_line_features_win(options: OptionsView, selection: FeatureSelectionView)
    requires
        selects_features(options),
    ensures
        spawned_with(options, selection) == options,
        options.source is None ==> resolved_with(options, selection) == Some(
            if options.all_features {
                FeatureSelectionView::All
            } else {
                FeatureSelectionView::List(options.features)
            },
        ),
{
}

/// A bare `--no-default-features` reaches Cargo together with the selection of the policy file.
pub proof fn no_default_features_is_no_selection(
    options: OptionsView,
    selection: FeatureSelectionView,
)
    requires
        !selects_features(options),
        options.source is None,
    ensures
        spawned_with(
            OptionsView { no_default_features: true, ..options },
            selection,
        ) == (OptionsView { no_default_features: true, ..spawned_with(options, selection) }),
{
}

/// Under a precomputed document nothing is spawned: no selection changes the options, and none is
/// reported.
pub proof fn a_document_keeps_its_own_features(
    options: OptionsView,
    selection: FeatureSelectionView,
)
    requires
        options.source is Some,
    ensures
        spawned_with(options, selection) == options,
        resolved_with(options, selection) is None,
{
}

/// Without a precomputed document the reported selection is the one that Cargo was spawned with.
pub proof fn the_spawned_selection_is_reported(
    options: OptionsView,
    selection: FeatureSelectionView,
)
    requires
        options.source is None,
        !selects_features(options),
    ensures
        resolved_with(spawned_with(options, selection), selection) == Some(selection),
{
}

/// The result of `explain`.
#[derive(Clone, Debug, PartialEq, Eq)]
pub struct ExplainOutcome {
    /// Whether the dependency is reachable from the requested package.
    pub reachable: bool,
    /// The requested root package name.
    pub root: String,
    /// The version selected for the requested root package.
    pub root_version: String,
    /// The requested dependency name.
    pub dependency: String,
    /// The root-to-dependency witness hops, empty when `reachable` is false.
    pub path: Vec<WitnessHop>,
}

/// An [`ExplainOutcome`] by the characters of its strings.
pub struct ExplainView {
    pub reachable: bool,
    pub root: Seq<char>,
    pub root_version: Seq<char>,
    pub dependency: Seq<char>,
    pub path: Seq<HopView>,
}

impl View for ExplainOutcome {
    type V = ExplainView;

    open spec fn view(&self) -> ExplainView {
        ExplainView {
            reachable: self.reachable,
            root: self.root@,
            root_version: self.root_version@,
            dependency: self.dependency@,
            path: hop_views(self.path@),
        }
    }
}

/// The error about a name that no package has.
pub open spec fn unknown_name_error(name: Seq<char>) -> ErrorView {
    ErrorView::Configuration {
        message: config::unknown_package_text("explain"@, name),
        span: None,
    }
}

/// What is said of a name that stands for several packages, none of them a member.
pub open spec fn ambiguous_text(name: Seq<char>, versions: Seq<Seq<char>>) -> Seq<char> {
    "explain references package `"@ + name
        + "`, which is not a workspace member and is resolved at several versions: "@ + text::joined(
        versions,
        ", "@,
    )
}

/// The packages called `name`, in order.
pub open spec fn packages_named(view: GraphView, name: Seq<char>) -> Seq<int> {
    if view.names.contains(name) {
        view.named(view.names.index_of(name))
    } else {
        Seq::empty()
    }
}

/// The package that a query starts from: the workspace member of that name, as a rule's does;
/// without one, the only package of that name.
pub open spec fn explain_root(view: GraphView, name: Seq<char>) -> Result<int, ErrorView> {
    match root_of(view, name) {
        Some(root) => Ok(root),
        None => {
            let nodes = packages_named(view, name);
            if nodes.len() == 0 {
                Err(unknown_name_error(name))
            } else if nodes.len() == 1 {
                Ok(nodes[0])
            } else {
                Err(
                    ErrorView::Configuration {
                        message: ambiguous_text(name, rules::versions_of(view, nodes)),
                        span: None,
                    },
                )
            }
        },
    }
}

/// What a query says: whether some package called `dependency` can be reached from `package`, and
/// by which shortest path.
pub open spec fn explained(view: GraphView, package: Seq<char>, dependency: Seq<char>) -> Result<
    ExplainView,
    ErrorView,
> {
    match explain_root(view, package) {
        Err(error) => Err(error),
        Ok(root) => if !view.names.contains(dependency) {
            Err(unknown_name_error(dependency))
        } else {
            let name = view.names.index_of(dependency);
            let trail = traversal(view.forward(), root);
            let reachable = names_node(trail.order, view.name_of, name);
            Ok(
                ExplainView {
                    reachable,
                    root: package,
                    root_version: view.version(root),
                    dependency,
                    path: if reachable {
                        hops_of(
                            view,
                            witness(trail, Direction::Forward, first_found(view, trail, name)),
                        )
                    } else {
                        Seq::empty()
                    },
                },
            )
        },
    }
}

fn unknown_name(name: &str) -> (error: Error)
    ensures
        error@ == unknown_name_error(name@),
{
    Error::Configuration { message: config::unknown_package_message("explain", name), span: None }
}

pub(crate) proof fn name_has_one_id(view: GraphView, name: Seq<char>, id: int)
    requires
        view.consistent(),
        0 <= id < view.names.len(),
        view.names[id] == name,
    ensures
        view.names.contains(name),
        view.names.index_of(name) == id,
{
    let other = view.names.index_of(name);
    assert(view.names.contains(name));
    assert(0 <= other < view.names.len() && view.names[other] == name);
}

proof fn named_are_packages(name_of: Seq<int>, name: int, upto: int)
    ensures
        forall|i: int|
            0 <= i < nodes_named(name_of, name, upto).len() ==> 0 <= (
            #[trigger] nodes_named(name_of, name, upto)[i]) < upto,
    decreases upto,
{
    if upto > 0 {
        named_are_packages(name_of, name, upto - 1);
        let before = nodes_named(name_of, name, upto - 1);
        let now = nodes_named(name_of, name, upto);
        assert forall|i: int| 0 <= i < now.len() implies 0 <= #[trigger] now[i] < upto by {
            if i < before.len() {
                assert(now[i] == before[i]);
            }
        }
    }
}

/// Resolves the package that a query starts from.
fn find_explain_root(graph: &Graph<'_>, package: &str) -> (result: Result<u32, Error>)
    requires
        graph.wf(),
    ensures
        match result {
            Ok(root) => explain_root(graph@, package@) == Ok::<int, ErrorView>(root as int) && root
                < graph@.count(),
            Err(error) => explain_root(graph@, package@) == Err::<int, ErrorView>(error@),
        },
{
    proof {
        graph.is_consistent();
    }
    if let Some(root) = config::find_root(graph, package) {
        return Ok(root);
    }
    let name = match graph.lookup_name(package) {
        Some(name) => name,
        None => return Err(unknown_name(package)),
    };
    let nodes = graph.nodes_of_name(name);
    proof {
        name_has_one_id(graph@, package@, name as int);
        named_are_packages(graph@.name_of, name as int, graph@.count());
    }
    let ghost list = packages_named(graph@, package@);
    assert(lists(nodes@, list));
    if nodes.len() == 0 {
        return Err(unknown_name(package));
    }
    if nodes.len() == 1 {
        assert(list[0] == nodes@[0]);
        return Ok(nodes[0]);
    }
    let mut versions: Vec<String> = Vec::new();
    let mut at: usize = 0;
    while at < nodes.len()
        invariant
            graph.wf(),
            at <= nodes@.len(),
            lists(nodes@, list),
            forall|i: int| 0 <= i < list.len() ==> 0 <= #[trigger] list[i] < graph@.count(),
            versions@.len() == at,
            forall|i: int|
                0 <= i < at ==> (#[trigger] versions@[i])@ == graph@.version(list[i]),
        decreases nodes@.len() - at,
    {
        assert(nodes@[at as int] == list[at as int]);
        versions.push(graph.version(nodes[at]).to_owned());
        at = at + 1;
    }
    assert(texts(versions@) =~= rules::versions_of(graph@, list));
    let mut message = "explain references package `".to_owned();
    message.push_str(package);
    message.push_str(
        "`, which is not a workspace member and is resolved at several versions: ",
    );
    let joined = text::join(&versions, ", ");
    message.push_str(joined.as_str());
    Err(Error::Configuration { message, span: None })
}

/// Explains one package-to-dependency query over a validated graph.
///
/// # Errors
///
/// Unknown package or dependency names, and a package name that is no member's and stands for
/// several versions, are reported as [`Error::Configuration`].
pub fn explain(graph: &Graph<'_>, package: &str, dependency: &str, scratch: &mut Scratch) -> (result:
    Result<ExplainOutcome, Error>)
    requires
        graph.wf(),
        old(scratch).wf(),
    ensures
        final(scratch).wf(),
        (match result {
            Ok(outcome) => Ok(outcome@),
            Err(error) => Err(error@),
        }) == explained(graph@, package@, dependency@),
        result is Err ==> *final(scratch) == *old(scratch),
        final(scratch).spent() >= old(scratch).spent(),
        result is Ok ==> final(scratch).runs() == one_more(old(scratch).runs()),
{
    let root = match find_explain_root(graph, package) {
        Ok(root) => root,
        Err(error) => return Err(error),
    };
    proof {
        graph.is_consistent();
    }
    let name = match graph.lookup_name(dependency) {
        Some(name) => name,
        None => return Err(unknown_name(dependency)),
    };
    proof {
        name_has_one_id(graph@, dependency@, name as int);
    }
    let root_version = graph.version(root).to_owned();
    let reach = graph.reach(root, scratch);
    proof {
        reach.is_traversal();
    }
    match reach.witness_to_name(name) {
        Some(path) => {
            let ghost first = first_found(graph@, reach.trail(), name as int);
            let ghost nodes = path@.map_values(|node: u32| node as int);
            proof {
                let order = reach.trail().order;
                let i = choose|i: int| first_named(order, graph@.name_of, name as int, i);
                assert(first_named(order, graph@.name_of, name as int, i));
                assert(order.contains(first));
                rules::witness_is_of_nodes(&reach, first);
                let way = witness(reach.trail(), reach.way(), first);
                assert(nodes =~= way);
                assert forall|i: int| 0 <= i < path@.len() implies #[trigger] path@[i]
                    < graph@.count() by {
                    assert(way[i] == path@[i]);
                }
            }
            let hops = rules::witness_hops(graph, &path);
            Ok(
                ExplainOutcome {
                    reachable: true,
                    root: package.to_owned(),
                    root_version,
                    dependency: dependency.to_owned(),
                    path: hops,
                },
            )
        },
        None => {
            let path: Vec<WitnessHop> = Vec::new();
            assert(hop_views(path@) =~= Seq::<HopView>::empty());
            Ok(
                ExplainOutcome {
                    reachable: false,
                    root: package.to_owned(),
                    root_version,
                    dependency: dependency.to_owned(),
                    path,
                },
            )
        },
    }
}

pub(crate) proof fn explain_root_is_a_package(view: GraphView, package: Seq<char>)
    requires
        view.consistent(),
        explain_root(view, package) is Ok,
    ensures
        0 <= explain_root(view, package)->Ok_0 < view.count(),
{
    if root_of(view, package) is Some {
        config::root_is_a_member(view, package);
    } else {
        let nodes = packages_named(view, package);
        named_are_packages(view.name_of, view.names.index_of(package), view.count());
        assert(0 <= nodes[0] < view.count());
    }
}

/// A query that is answered says that the dependency is reachable exactly when some package of
/// that name can be reached from the package that the query starts from.
pub proof fn explain_answers_reachability(
    view: GraphView,
    package: Seq<char>,
    dependency: Seq<char>,
)
    requires
        view.consistent(),
        explained(view, package, dependency) is Ok,
    ensures
        (explained(view, package, dependency)->Ok_0).reachable == exists|node: int|
            0 <= node < view.count() && #[trigger] view.forward().reaches(
                explain_root(view, package)->Ok_0,
                node,
            ) && view.name(node) == dependency,
{
    let root = explain_root(view, package)->Ok_0;
    let name = view.names.index_of(dependency);
    explain_root_is_a_package(view, package);
    rules::found_names_are_reached(view, Set::full(), root, name);
    assert(view.names[name] == dependency);
    if rules::name_is_reached(view, view.forward(), root, name) {
        let node = choose|node: int|
            0 <= node < view.count() && #[trigger] view.forward().reaches(root, node)
                && view.name_of[node] == name;
        assert(view.names[view.name_of[node]] == view.name(node));
    }
    if exists|node: int|
        0 <= node < view.count() && #[trigger] view.forward().reaches(root, node) && view.name(
            node,
        ) == dependency {
        let node = choose|node: int|
            0 <= node < view.count() && #[trigger] view.forward().reaches(root, node) && view.name(
                node,
            ) == dependency;
        assert(view.names[view.name_of[node]] == view.name(node));
        name_has_one_id(view, dependency, view.name_of[node]);
        assert(rules::name_is_reached(view, view.forward(), root, name));
    }
}

/// A query and a `deny` rule on one workspace member ask about the same package: a rule that
/// denies just the other name fails exactly when the query finds it.
pub proof fn explain_agrees_with_deny(
    view: GraphView,
    config: ConfigView,
    rule: RuleView,
    dependency: Seq<char>,
)
    requires
        view.consistent(),
        root_of(view, rule.package) is Some,
        rule.kind is Deny,
        rule.kind->exact == seq![dependency],
        rule.kind->globs.len() == 0,
        rule.features is None,
        rule.package != dependency,
        view.names.contains(dependency),
    ensures
        explained(view, rule.package, dependency) is Ok,
        (explained(view, rule.package, dependency)->Ok_0).reachable == !rules::verdict_of(
            view,
            config,
            rule,
        ).passed,
{
    let root = root_of(view, rule.package)->0;
    explain_answers_reachability(view, rule.package, dependency);
    rules::deny_passes_when_nothing_denied_is_reached(view, config, rule, root);
    let exact = rule.kind->exact;
    assert(exact[0] == dependency);
    assert forall|name: Seq<char>| exact.contains(name) == (name == dependency) by {
        if name == dependency {
            assert(exact[0] == name);
        }
    }
    assert forall|name: Seq<char>| !globs::any_matches(rule.kind->globs, name) by {}
}

/// A configuration fault as the error of a command.
pub open spec fn fault_error(fault: Fault) -> ErrorView {
    ErrorView::Configuration { message: fault.message, span: fault.span }
}

fn configuration_error(error: ConfigError) -> (mapped: Error)
    ensures
        mapped@ == fault_error(error@),
{
    Error::Configuration { message: error.message, span: error.span }
}

/// What a policy file is worth before there is a graph: the features it selects, or an error.
pub open spec fn preloaded(cfg: RawConfig, host: Seq<char>) -> Result<FeatureSelectionView, ErrorView> {
    match validated(cfg, None, host) {
        Ok((config, _)) => Ok(config.features),
        Err(fault) => Err(fault_error(fault)),
    }
}

/// Validates an explicit policy file before Cargo is spawned, and gives the feature selection
/// that the spawn is to have.
///
/// # Errors
///
/// Whatever is wrong with the file in itself, so that a malformed one cannot spawn Cargo.
pub fn preload(cfg: &RawConfig, host: &str) -> (result: Result<FeatureSelection, Error>)
    ensures
        (match result {
            Ok(selection) => Ok(selection@),
            Err(error) => Err(error@),
        }) == preloaded(*cfg, host@),
{
    match config::validate(cfg, None, host) {
        Ok(valid) => Ok(valid.config.features),
        Err(error) => Err(configuration_error(error)),
    }
}

/// A policy that is ready to be evaluated.
#[derive(Debug)]
#[non_exhaustive]
pub struct Plan {
    /// The validated policy.
    pub validated: Validated,
    /// Non-fatal diagnostics, in the order they are to be printed.
    pub warnings: Vec<String>,
    /// The feature selection that the graph was resolved with, when it is known.
    pub features: Option<FeatureSelection>,
}

/// A [`Plan`] by the characters of its strings.
pub struct PlanView {
    pub config: ConfigView,
    pub warnings: Seq<Seq<char>>,
    pub features: Option<FeatureSelectionView>,
    pub direct_optional_decls: nat,
}

impl View for Plan {
    type V = PlanView;

    open spec fn view(&self) -> PlanView {
        PlanView {
            config: self.validated.config@,
            warnings: texts(self.warnings@),
            features: features_view(self.features),
            direct_optional_decls: self.validated.direct_optional_decls as nat,
        }
    }
}

/// A warning, if there is one, before others.
pub open spec fn with_warning(first: Option<Seq<char>>, rest: Seq<Seq<char>>) -> Seq<Seq<char>> {
    match first {
        Some(first) => seq![first] + rest,
        None => rest,
    }
}

/// The policy of a run: the file validated against the graph, and its feature selection judged.
/// `options` are those of the command line, and `explicit` says whether they name the file.
pub open spec fn planned(
    cfg: RawConfig,
    view: GraphView,
    host: Seq<char>,
    explicit: bool,
    options: OptionsView,
) -> Result<PlanView, ErrorView> {
    match validated(cfg, Some(view), host) {
        Err(fault) => Err(fault_error(fault)),
        Ok((config, warnings)) => match after_metadata(explicit, options, config.features) {
            Err(error) => Err(error),
            Ok(warning) => Ok(
                PlanView {
                    config,
                    warnings: with_warning(warning, warnings),
                    features: resolved_with(
                        if explicit {
                            spawned_with(options, config.features)
                        } else {
                            options
                        },
                        config.features,
                    ),
                    direct_optional_decls: saturated(warnings.len()),
                },
            ),
        },
    }
}

/// Validates a policy file against the graph and judges its feature selection.
///
/// # Errors
///
/// Whatever is wrong with the file, in itself first and then with regard to the graph; and a
/// feature selection that came too late.
pub fn plan(
    cfg: &RawConfig,
    graph: &Graph<'_>,
    host: &str,
    explicit: bool,
    options: &MetadataOptions,
) -> (result: Result<Plan, Error>)
    requires
        graph.wf(),
    ensures
        (match result {
            Ok(plan) => Ok(plan@),
            Err(error) => Err(error@),
        }) == planned(*cfg, graph@, host@, explicit, options@),
        result matches Ok(plan) ==> plan.validated.config.wf(),
{
    let valid = match config::validate(cfg, Some(graph), host) {
        Ok(valid) => valid,
        Err(error) => return Err(configuration_error(error)),
    };
    let warning = match feature_selection_after_metadata(explicit, options, &valid.config.features) {
        Ok(warning) => warning,
        Err(error) => return Err(error),
    };
    let features = if explicit {
        let spawned = spawn_options(options, &valid.config.features);
        effective_features(&spawned, &valid.config.features)
    } else {
        effective_features(options, &valid.config.features)
    };
    let ghost first = text_view(warning);
    let mut warnings: Vec<String> = Vec::new();
    if let Some(warning) = warning {
        warnings.push(warning);
    }
    let ghost head = warnings@;
    let mut rest = text::copy_all(&valid.warnings);
    let ghost tail = rest@;
    warnings.append(&mut rest);
    proof {
        assert(texts(head + tail) =~= with_warning(first, texts(valid.warnings@)));
    }
    Ok(Plan { validated: valid, warnings, features })
}

/// An explicit policy file that is wrong in itself is refused before Cargo is spawned with the
/// error that a discovered one is refused with afterwards.
pub proof fn explicit_and_discovered_files_fail_alike(
    cfg: RawConfig,
    view: GraphView,
    host: Seq<char>,
    explicit: bool,
    options: OptionsView,
)
    requires
        preloaded(cfg, host) is Err,
    ensures
        planned(cfg, view, host, explicit, options) is Err,
        planned(cfg, view, host, explicit, options)->Err_0 == preloaded(cfg, host)->Err_0,
{
    config::faults_of_the_file_come_first(cfg, host, Some(view));
}

/// Names and versions of workspace members.
#[derive(Clone, Debug, PartialEq, Eq)]
pub struct MemberVersions {
    /// Name and version of every member, in member order.
    pub entries: Vec<(String, String)>,
}

/// The characters of names and versions.
pub open spec fn version_views(entries: Seq<(String, String)>) -> Seq<(Seq<char>, Seq<char>)> {
    Seq::new(entries.len(), |i: int| (entries[i].0@, entries[i].1@))
}

/// The version of the last of the first `upto` members that is called `name`.
pub open spec fn version_named(
    entries: Seq<(Seq<char>, Seq<char>)>,
    name: Seq<char>,
    upto: int,
) -> Option<Seq<char>>
    decreases upto,
{
    if upto <= 0 {
        None
    } else if entries[upto - 1].0 == name {
        Some(entries[upto - 1].1)
    } else {
        version_named(entries, name, upto - 1)
    }
}

impl View for MemberVersions {
    type V = Seq<(Seq<char>, Seq<char>)>;

    open spec fn view(&self) -> Seq<(Seq<char>, Seq<char>)> {
        version_views(self.entries@)
    }
}

impl MemberVersions {
    /// The version of the member called `name`.
    #[must_use]
    pub fn get(&self, name: &str) -> (version: Option<&String>)
        ensures
            (match version {
                Some(version) => Some(version@),
                None => None,
            }) == version_named(self@, name@, self@.len() as int),
    {
        let mut at: usize = self.entries.len();
        while at > 0
            invariant
                at <= self.entries@.len(),
                version_named(self@, name@, self@.len() as int) == version_named(
                    self@,
                    name@,
                    at as int,
                ),
            decreases at,
        {
            at = at - 1;
            if text::same(self.entries[at].0.as_str(), name) {
                return Some(&self.entries[at].1);
            }
        }
        None
    }
}

/// Name and version of every member of a graph.
pub open spec fn members_of(view: GraphView) -> Seq<(Seq<char>, Seq<char>)> {
    Seq::new(
        view.members.len(),
        |i: int| (view.name(view.members[i]), view.version(view.members[i])),
    )
}

fn member_versions(graph: &Graph<'_>) -> (versions: MemberVersions)
    requires
        graph.wf(),
    ensures
        versions@ == members_of(graph@),
{
    let members = graph.members();
    proof {
        graph.is_consistent();
    }
    let mut entries: Vec<(String, String)> = Vec::new();
    let mut at: usize = 0;
    while at < members.len()
        invariant
            graph.wf(),
            graph@.consistent(),
            at <= members@.len(),
            lists(members@, graph@.members),
            entries@.len() == at,
            forall|i: int|
                0 <= i < at ==> (#[trigger] entries@[i]).0@ == graph@.name(graph@.members[i])
                    && entries@[i].1@ == graph@.version(graph@.members[i]),
        decreases members@.len() - at,
    {
        assert(members@[at as int] == graph@.members[at as int]);
        let node = members[at];
        entries.push((graph.name(node).to_owned(), graph.version(node).to_owned()));
        at = at + 1;
    }
    assert(version_views(entries@) =~= members_of(graph@));
    MemberVersions { entries }
}

/// The manifests that the manifest rule reads: one for every member, in member order.
#[must_use]
pub fn member_manifests(graph: &Graph<'_>) -> (inputs: Vec<ManifestInput>)
    requires
        graph.wf(),
    ensures
        inputs@.len() == graph@.members.len(),
        forall|i: int|
            0 <= i < inputs@.len() ==> (#[trigger] inputs@[i]).package@ == graph@.name(
                graph@.members[i],
            ) && inputs@[i].path@ == graph@.meta.packages@[graph@.members[i]].manifest_path@,
{
    let members = graph.members();
    proof {
        graph.is_consistent();
    }
    let mut inputs: Vec<ManifestInput> = Vec::new();
    let mut at: usize = 0;
    while at < members.len()
        invariant
            graph.wf(),
            graph@.consistent(),
            at <= members@.len(),
            lists(members@, graph@.members),
            inputs@.len() == at,
            forall|i: int|
                0 <= i < at ==> (#[trigger] inputs@[i]).package@ == graph@.name(graph@.members[i])
                    && inputs@[i].path@
                    == graph@.meta.packages@[graph@.members[i]].manifest_path@,
        decreases members@.len() - at,
    {
        assert(members@[at as int] == graph@.members[at as int]);
        let node = members[at];
        inputs.push(
            ManifestInput::new(graph.name(node).to_owned(), graph.manifest_path(node).to_owned()),
        );
        at = at + 1;
    }
    inputs
}

/// The materialised result of one dependency-policy check.
#[derive(Clone, Debug)]
pub struct Outcome {
    /// The pass/fail status of every rule: the graph rules in configuration order,
    /// then the manifest rule when it is enabled (`kind == "manifest"`, `package == None`).
    pub statuses: Vec<RuleStatus>,
    /// The failed graph rules and their witnesses.
    pub violations: Vec<Violation>,
    /// The manifest rule's entries, or `None` when `versions-in-root = false`.
    ///
    /// Kept apart from [`Outcome::violations`] because a manifest entry renders as a
    /// `file:line:col table dependency = "version"` line, not as a witness path.
    pub manifest: Option<ManifestReport>,
    /// Non-fatal configuration diagnostics emitted during validation.
    pub warnings: Vec<String>,
    /// The workspace root reported by `cargo metadata`, for path relativisation.
    pub workspace_root: String,
    /// Graph, rule, and metadata counters for this run.
    pub counters: Counters,
    /// The version of every member, by which a witness path is prefixed.
    pub member_versions: MemberVersions,
    /// The feature selection that the graph was resolved with, or `None` when no Cargo ran.
    pub features: Option<FeatureSelection>,
    /// The platforms the policy selects.
    pub platform: PlatformSelection,
    /// The policy result exit code (`0` for a pass, `1` for violations).
    pub exit: u8,
}

/// The characters of each status.
pub open spec fn status_views(statuses: Seq<RuleStatus>) -> Seq<StatusView> {
    Seq::new(statuses.len(), |i: int| statuses[i]@)
}

/// The manifest rule as one more status: it fails once, `matched` counts entries.
pub open spec fn manifest_status_of(report: ReportView) -> StatusView {
    StatusView {
        id: manifest::RULE_ID@,
        package: None,
        kind: manifest::RULE_KIND@,
        passed: report.entries.len() == 0,
        matched: saturated(report.entries.len()),
        features: None,
        activation_pruned: Seq::empty(),
    }
}

fn manifest_status(report: &ManifestReport) -> (status: RuleStatus)
    ensures
        status@ == manifest_status_of(report@),
{
    let activation_pruned: Vec<String> = Vec::new();
    assert(texts(activation_pruned@) =~= Seq::<Seq<char>>::empty());
    RuleStatus {
        id: manifest::RULE_ID.to_owned(),
        package: None,
        kind: manifest::RULE_KIND,
        passed: report.passed(),
        matched: rules::count_u32(report.entries.len()),
        features: None,
        activation_pruned,
    }
}

/// The status of every graph rule.
pub open spec fn graph_statuses(view: GraphView, config: ConfigView) -> Seq<StatusView> {
    Seq::new(config.rules.len(), |i: int| status_of(view, config, config.rules[i]))
}

/// The status of every rule: the graph rules, then the manifest rule when it was run.
pub open spec fn all_statuses(view: GraphView, config: ConfigView, report: Option<ReportView>) -> Seq<
    StatusView,
> {
    match report {
        Some(report) => graph_statuses(view, config).push(manifest_status_of(report)),
        None => graph_statuses(view, config),
    }
}

/// How many of the first `upto` rules failed.
pub open spec fn failed_below(statuses: Seq<StatusView>, upto: int) -> nat
    decreases upto,
{
    if upto <= 0 {
        0
    } else if statuses[upto - 1].passed {
        failed_below(statuses, upto - 1)
    } else {
        failed_below(statuses, upto - 1) + 1
    }
}

/// How many rules failed.
pub open spec fn failed(statuses: Seq<StatusView>) -> nat {
    failed_below(statuses, statuses.len() as int)
}

/// The counters of a run.
pub open spec fn counters_of(view: GraphView, plan: PlanView, statuses: Seq<StatusView>) -> Counters {
    Counters {
        packages: view.count() as u32,
        members: view.members.len() as u32,
        normal_edges: view.edges.len() as u32,
        names: view.names.len() as u32,
        superset_extra_edges: traversed_extra(view, plan.config.rules).len() as u32,
        direct_optional_decls: plan.direct_optional_decls as u32,
        unrebased_path_deps: view.meta.unrebased_path_deps,
        rules: saturated(statuses.len()) as u32,
        violations: saturated(failed(statuses)) as u32,
        matches: saturated(
            matched_below(view, plan.config, plan.config.rules.len() as int),
        ) as u32,
    }
}

fn failed_count(statuses: &Vec<RuleStatus>) -> (count: usize)
    ensures
        count == failed(status_views(statuses@)),
        count <= statuses@.len(),
{
    let ghost views = status_views(statuses@);
    let mut count: usize = 0;
    let mut at: usize = 0;
    while at < statuses.len()
        invariant
            views == status_views(statuses@),
            at <= statuses@.len(),
            count <= at,
            count == failed_below(views, at as int),
        decreases statuses@.len() - at,
    {
        assert(views[at as int] == statuses@[at as int]@);
        if !statuses[at].passed {
            count = count + 1;
        }
        at = at + 1;
    }
    count
}

/// What the manifest rule says, when the policy runs it: its report over the manifests that were
/// read and, when it failed, whether the root manifest holds a version list.
pub open spec fn manifest_result(
    enabled: bool,
    reads: Seq<(ManifestInput, Result<String, String>)>,
    root_manifest: Option<Seq<char>>,
) -> Result<Option<ReportView>, ErrorView> {
    if !enabled {
        Ok(None)
    } else {
        match manifest::report_below(reads, reads.len() as int) {
            Err(error) => Err(error),
            Ok(report) => Ok(
                Some(
                    ReportView {
                        root_workspace_dependencies: if report.entries.len() == 0 {
                            None
                        } else {
                            manifest::centralising(root_manifest)
                        },
                        ..report
                    },
                ),
            ),
        }
    }
}

/// The characters of a report, if there is one.
pub open spec fn optional_report(report: Option<ManifestReport>) -> Option<ReportView> {
    match report {
        Some(report) => Some(report@),
        None => None,
    }
}

/// An [`Outcome`] by the characters of its strings.
pub struct OutcomeView {
    pub statuses: Seq<StatusView>,
    pub violations: Seq<ViolationView>,
    pub manifest: Option<ReportView>,
    pub warnings: Seq<Seq<char>>,
    pub workspace_root: Seq<char>,
    pub counters: Counters,
    pub member_versions: Seq<(Seq<char>, Seq<char>)>,
    pub features: Option<FeatureSelectionView>,
    pub platform: Seq<Seq<char>>,
    pub exit: u8,
}

impl View for Outcome {
    type V = OutcomeView;

    open spec fn view(&self) -> OutcomeView {
        OutcomeView {
            statuses: status_views(self.statuses@),
            violations: violation_views(self.violations@),
            manifest: optional_report(self.manifest),
            warnings: texts(self.warnings@),
            workspace_root: self.workspace_root@,
            counters: self.counters,
            member_versions: self.member_versions@,
            features: features_view(self.features),
            platform: self.platform@,
            exit: self.exit,
        }
    }
}

/// The result of checking `plan` on `view`, where the manifest rule said `report`.
pub open spec fn outcome_of(view: GraphView, plan: PlanView, report: Option<ReportView>) -> OutcomeView {
    let statuses = all_statuses(view, plan.config, report);
    OutcomeView {
        statuses,
        violations: failures_below(view, plan.config, plan.config.rules.len() as int),
        manifest: report,
        warnings: plan.warnings,
        workspace_root: view.meta.workspace_root@,
        counters: counters_of(view, plan, statuses),
        member_versions: members_of(view),
        features: plan.features,
        platform: plan.config.platform,
        exit: if failed(statuses) > 0 {
            1
        } else {
            0
        },
    }
}

fn run_manifest_rule(
    enabled: bool,
    reads: &Vec<(ManifestInput, Result<String, String>)>,
    root_manifest: Option<&str>,
) -> (result: Result<Option<ManifestReport>, Error>)
    ensures
        (match result {
            Ok(report) => Ok(optional_report(report)),
            Err(error) => Err(error@),
        }) == manifest_result(
            enabled,
            reads@,
            match root_manifest {
                Some(text) => Some(text@),
                None => None,
            },
        ),
{
    if !enabled {
        return Ok(None);
    }
    match manifest::check_versions_in_root(reads) {
        Ok(mut report) => {
            if !report.passed() {
                report.root_workspace_dependencies = manifest::centralises_versions(root_manifest);
            }
            Ok(Some(report))
        },
        Err(error) => Err(error),
    }
}

/// Evaluates every rule of a policy.
///
/// After the graph rules, the `manifest.versions-in-root` rule runs over `reads` when it is
/// enabled (the default): the manifests that [`member_manifests`] names, each with its text or
/// with the reason why it could not be read. It is one more rule in [`Outcome::statuses`] and in
/// `counters.rules`, it fails once however many entries it finds (`counters.violations`), and its
/// entries are returned in [`Outcome::manifest`]. `root_manifest` is the text of the
/// workspace-owning manifest, when it could be read.
///
/// # Errors
///
/// A member manifest that could not be read or parsed aborts the run rather than being skipped.
pub fn check(
    graph: &Graph<'_>,
    plan: Plan,
    reads: &Vec<(ManifestInput, Result<String, String>)>,
    root_manifest: Option<&str>,
    scratch: &mut Scratch,
) -> (result: Result<Outcome, Error>)
    requires
        graph.wf(),
        plan.validated.config.wf(),
        old(scratch).wf(),
    ensures
        final(scratch).wf(),
        final(scratch).extra_edges() == traversed_extra(graph@, plan@.config.rules),
        final(scratch).spent() >= old(scratch).spent(),
        final(scratch).runs() == saturated(
            (old(scratch).runs() + traversal_runs(graph@, plan@.config.rules)) as nat,
        ),
        ({
            let report = manifest_result(
                plan@.config.versions_in_root,
                reads@,
                match root_manifest {
                    Some(text) => Some(text@),
                    None => None,
                },
            );
            match result {
                Ok(outcome) => report is Ok && outcome@ == outcome_of(graph@, plan@, report->Ok_0),
                Err(error) => report == Err::<Option<ReportView>, ErrorView>(error@),
            }
        }),
{
    let ghost view = graph@;
    let Plan { validated, warnings, features } = plan;
    let ghost config = validated.config@;
    let evaluation = rules::evaluate(graph, &validated.config, scratch);
    let ghost evaluated = evaluation.statuses@;
    let manifest = match run_manifest_rule(
        validated.config.manifest_versions_in_root,
        reads,
        root_manifest,
    ) {
        Ok(manifest) => manifest,
        Err(error) => return Err(error),
    };
    let ghost report = optional_report(manifest);
    let Evaluation { statuses, violations, matches, superset_extra_edges } = evaluation;
    let mut statuses = statuses;
    if let Some(report) = &manifest {
        statuses.push(manifest_status(report));
    }
    assert(status_views(statuses@) =~= all_statuses(view, config, report));
    let mut counters = graph.counters();
    let failures = failed_count(&statuses);
    counters.superset_extra_edges = superset_extra_edges;
    counters.direct_optional_decls = validated.direct_optional_decls;
    counters.rules = rules::count_u32(statuses.len());
    counters.violations = rules::count_u32(failures);
    counters.matches = matches;
    let exit: u8 = if counters.violations > 0 {
        1
    } else {
        0
    };
    Ok(
        Outcome {
            statuses,
            violations,
            manifest,
            warnings,
            workspace_root: graph.meta().workspace_root.as_str().to_owned(),
            counters,
            member_versions: member_versions(graph),
            features,
            platform: validated.config.platform,
            exit,
        },
    )
}

proof fn failed_is_counted(statuses: Seq<StatusView>, upto: int)
    requires
        0 <= upto <= statuses.len(),
    ensures
        failed_below(statuses, upto) <= upto,
        (failed_below(statuses, upto) > 0) == exists|i: int|
            0 <= i < upto && !(#[trigger] statuses[i]).passed,
    decreases upto,
{
    if upto > 0 {
        failed_is_counted(statuses, upto - 1);
        if !statuses[upto - 1].passed {
            assert(!statuses[upto - 1].passed);
        }
    }
}

/// A check exits with 1 exactly when some rule failed, and with 0 otherwise.
pub proof fn a_check_fails_with_its_rules(view: GraphView, plan: PlanView, report: Option<ReportView>)
    ensures
        ({
            let outcome = outcome_of(view, plan, report);
            &&& outcome.exit == 0 || outcome.exit == 1
            &&& (outcome.exit == 1) == exists|i: int|
                0 <= i < outcome.statuses.len() && !(#[trigger] outcome.statuses[i]).passed
        }),
{
    let statuses = all_statuses(view, plan.config, report);
    failed_is_counted(statuses, statuses.len() as int);
}

/// However many entries the manifest rule finds, it adds one rule and at most one failure, and no
/// match.
pub proof fn the_manifest_rule_counts_once(view: GraphView, plan: PlanView, report: ReportView)
    requires
        plan.config.rules.len() < u32::MAX,
    ensures
        ({
            let without = outcome_of(view, plan, None).counters;
            let with = outcome_of(view, plan, Some(report)).counters;
            &&& with.rules == without.rules + 1
            &&& with.violations == without.violations + if report.entries.len() == 0 {
                0int
            } else {
                1int
            }
            &&& with.matches == without.matches
        }),
{
    let graph_only = graph_statuses(view, plan.config);
    let all = all_statuses(view, plan.config, Some(report));
    let count = graph_only.len() as int;
    failed_is_counted(graph_only, count);
    same_failures(graph_only, all, count);
    assert(all[count] == manifest_status_of(report));
}

proof fn same_failures(left: Seq<StatusView>, right: Seq<StatusView>, upto: int)
    requires
        upto <= left.len(),
        upto <= right.len(),
        forall|i: int| 0 <= i < upto ==> (#[trigger] left[i]) == right[i],
    ensures
        failed_below(left, upto) == failed_below(right, upto),
    decreases upto,
{
    if upto > 0 {
        assert(left[upto - 1] == right[upto - 1]);
        same_failures(left, right, upto - 1);
    }
}

/// There is one violation for each failed graph rule, however many names it found, and none for a
/// rule that passed.
pub proof fn each_failed_rule_has_one_violation(view: GraphView, config: ConfigView)
    ensures
        failures_below(view, config, config.rules.len() as int).len() == failed(
            graph_statuses(view, config),
        ),
{
    failures_are_counted(view, config, config.rules.len() as int);
}

proof fn failures_are_counted(view: GraphView, config: ConfigView, upto: int)
    requires
        0 <= upto <= config.rules.len(),
    ensures
        failures_below(view, config, upto).len() == failed_below(graph_statuses(view, config), upto),
    decreases upto,
{
    if upto > 0 {
        failures_are_counted(view, config, upto - 1);
        rules::rules_fail_with_evidence(view, config, config.rules[upto - 1]);
    }
}

} // verus!
