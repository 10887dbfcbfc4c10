//! What a check answers, from the policy file and the graph to its exit code.

use super::closure::is_reached;
use super::manifests::{every_manifest_is_reported, scanned_below};
use super::policy::{
    a_policy_says_what_is_written, are_said_by, asks_for_the_written, denies_the_written,
    is_rule_of, is_wild, is_written, keys_below, keys_of, lists_the_written, reads_as_written,
};
use super::selections::words_stand_for_lists;
use super::verdicts::{
    called, deny_reports_every_banned_name, depends_on_name, direct_reports_every_difference,
    edges_read, expected_by, internal_reports_every_difference, is_answerable, is_banned, is_ours,
    is_satisfied, reaches_ours, require_lists_what_is_not_met, satisfies,
    sealed_reports_every_member,
};
use crate::config::{
    self, root_of, rule_fault, rules_fault, without_graph, ConfigView, FeatureValue, Located,
    RawConfig, RawRuleSpec, RuleKindView, RuleView,
};
use crate::features::{activation_of, SelectionView};
use crate::globs::glob_matches;
use crate::graph::GraphView;
use crate::manifest::{member_scan, report_below, ManifestInput, ReportView};
use crate::metadata::OptionsView;
use crate::pipeline::{
    a_check_fails_with_its_rules, graph_statuses, manifest_result, outcome_of, planned,
    OutcomeView, PlanView,
};
use crate::rules::{status_of, verdict_of};
use crate::text::texts;
use vstd::prelude::*;

verus! {

/// The edges that the `features` key of a table leaves in the closure of `root`: all of them
/// without the key or under `unified`, and otherwise what a build with those features turns on,
/// where `none` stands for no feature at all and `default` for the one of that name.
pub open spec fn edges_selected(view: GraphView, root: int, written: Option<Located<FeatureValue>>) -> Set<
    int,
> {
    match written {
        None => Set::full(),
        Some(written) => match written.value {
            FeatureValue::List(list) => activation_of(
                view,
                root,
                SelectionView::List(texts(list@)),
            ).edges,
            FeatureValue::Named(word) => if word@ == "unified"@ {
                Set::full()
            } else if word@ == "none"@ {
                activation_of(view, root, SelectionView::List(Seq::empty())).edges
            } else if word@ == "default"@ {
                activation_of(view, root, SelectionView::List(seq!["default"@])).edges
            } else {
                activation_of(view, root, SelectionView::All).edges
            },
        },
    }
}

proof fn selected_edges_are_read(
    view: GraphView,
    root: int,
    rule: RuleView,
    written: Option<Located<FeatureValue>>,
)
    requires
        reads_as_written(rule.features, written),
    ensures
        edges_read(view, rule, root) == edges_selected(view, root, written),
{
    words_stand_for_lists(view, root);
    super::policy::words_differ();
    if let Some(located) = written {
        if let FeatureValue::List(list) = located.value {
            let asked = (rule.features->0).0->List_0;
            assert(asked =~= texts(list@));
        } else if let Some((selection, _)) = rule.features {
            assert(selection is Nothing || selection is Default || selection is All);
        }
    }
}

/// Whether some rule of a check is recorded under `id` with that answer, and a failure is told by
/// the exit code.
pub open spec fn is_recorded(outcome: OutcomeView, id: Seq<char>, passed: bool) -> bool {
    &&& exists|s: int|
        0 <= s < outcome.statuses.len() && (#[trigger] outcome.statuses[s]).id == id
            && outcome.statuses[s].passed == passed
    &&& !passed ==> outcome.exit == 1
}

proof fn rules_have_no_fault(view: GraphView, rules: Seq<RuleView>, upto: int, r: int)
    requires
        0 <= r < upto <= rules.len(),
        rules_fault(view, rules, upto) is None,
    ensures
        rule_fault(view, rules[r]) is None,
    decreases upto,
{
    if r < upto - 1 {
        rules_have_no_fault(view, rules, upto - 1, r);
    }
}

/// The rule of a table in the policy of a run, and its record.
proof fn rules_are_recorded(
    cfg: RawConfig,
    view: GraphView,
    host: Seq<char>,
    explicit: bool,
    options: OptionsView,
    report: Option<ReportView>,
    r: int,
)
    requires
        planned(cfg, view, host, explicit, options) is Ok,
        0 <= r < planned(cfg, view, host, explicit, options)->Ok_0.config.rules.len(),
    ensures
        ({
            let plan = planned(cfg, view, host, explicit, options)->Ok_0;
            let rule = plan.config.rules[r];
            &&& without_graph(cfg, host) == Ok::<ConfigView, config::Fault>(plan.config)
            &&& root_of(view, rule.package) is Some
            &&& is_recorded(
                outcome_of(view, plan, report),
                rule.id,
                verdict_of(view, plan.config, rule).passed,
            )
        }),
{
    let plan = planned(cfg, view, host, explicit, options)->Ok_0;
    let rules = plan.config.rules;
    rules_have_no_fault(view, rules, rules.len() as int, r);
    a_check_fails_with_its_rules(view, plan, report);
    let outcome = outcome_of(view, plan, report);
    assert(graph_statuses(view, plan.config)[r] == status_of(view, plan.config, rules[r]));
    assert(outcome.statuses[r] == status_of(view, plan.config, rules[r]));
}

proof fn a_part_says_no_more(
    rules: Seq<RuleView>,
    from: int,
    to: int,
    package: Seq<char>,
    spec: RawRuleSpec,
)
    requires
        0 <= from <= to <= rules.len(),
        are_said_by(rules.subrange(from, to), package, spec),
    ensures
        are_said_by(rules, package, spec),
{
    let part = rules.subrange(from, to);
    if let Some(written) = spec.deny {
        let r = choose|r: int|
            0 <= r < part.len() && is_rule_of(#[trigger] part[r], package, "deny"@, spec.features)
                && denies_the_written(part[r].kind, written.value);
        assert(rules[from + r] == part[r]);
    }
    if let Some(written) = spec.require {
        let r = choose|r: int|
            0 <= r < part.len() && is_rule_of(
                #[trigger] part[r],
                package,
                "require"@,
                spec.features,
            ) && asks_for_the_written(part[r].kind, written.value);
        assert(rules[from + r] == part[r]);
    }
    if let Some(written) = spec.internal {
        let r = choose|r: int|
            0 <= r < part.len() && is_rule_of(
                #[trigger] part[r],
                package,
                "internal"@,
                spec.features,
            ) && part[r].kind is Internal && lists_the_written(
                part[r].kind->Internal_0,
                written.value,
            );
        assert(rules[from + r] == part[r]);
    }
    if let Some(written) = spec.direct {
        let r = choose|r: int|
            0 <= r < part.len() && is_rule_of(#[trigger] part[r], package, "direct"@, spec.features)
                && part[r].kind is Direct && lists_the_written(
                part[r].kind->Direct_0,
                written.value,
            );
        assert(rules[from + r] == part[r]);
    }
    if spec.leaf is Some && spec.leaf->0.value {
        let r = choose|r: int|
            0 <= r < part.len() && is_rule_of(#[trigger] part[r], package, "leaf"@, spec.features)
                && part[r].kind is Leaf;
        assert(rules[from + r] == part[r]);
    }
    if spec.sealed is Some && spec.sealed->0.value {
        let r = choose|r: int|
            0 <= r < part.len() && is_rule_of(#[trigger] part[r], package, "sealed"@, spec.features)
                && part[r].kind is Sealed;
        assert(rules[from + r] == part[r]);
    }
}

/// A policy that a run goes by is the file's own, and nothing is wrong with its rules.
proof fn a_plan_is_the_policy(
    cfg: RawConfig,
    view: GraphView,
    host: Seq<char>,
    explicit: bool,
    options: OptionsView,
)
    requires
        planned(cfg, view, host, explicit, options) is Ok,
    ensures
        ({
            let config = planned(cfg, view, host, explicit, options)->Ok_0.config;
            &&& without_graph(cfg, host) == Ok::<ConfigView, config::Fault>(config)
            &&& rules_fault(view, config.rules, config.rules.len() as int) is None
        }),
{
}

/// The rules that the keys of table `t` make in the policy of a run.
proof fn tables_have_rules(
    cfg: RawConfig,
    view: GraphView,
    host: Seq<char>,
    explicit: bool,
    options: OptionsView,
    t: int,
)
    requires
        planned(cfg, view, host, explicit, options) is Ok,
        0 <= t < cfg.rules@.len(),
    ensures
        are_said_by(
            planned(cfg, view, host, explicit, options)->Ok_0.config.rules,
            cfg.rules@[t].package@,
            cfg.rules@[t].table.value,
        ),
{
    a_plan_is_the_policy(cfg, view, host, explicit, options);
    a_policy_says_what_is_written(cfg, host);
    let rules = without_graph(cfg, host)->Ok_0.rules;
    let spec = cfg.rules@[t].table.value;
    let from = keys_below(cfg.rules@, t);
    a_part_says_no_more(rules, from, from + keys_of(spec), cfg.rules@[t].package@, spec);
}

/// Whether a written list bans `name`: by that very word, or by a glob that matches it.
pub open spec fn bans(list: Vec<String>, name: Seq<char>) -> bool {
    exists|i: int|
        0 <= i < list@.len() && if is_wild((#[trigger] list@[i])@) {
            glob_matches(list@[i]@, name)
        } else {
            list@[i]@ == name
        }
}

proof fn banned_as_written(kind: RuleKindView, list: Vec<String>, name: Seq<char>)
    requires
        denies_the_written(kind, list),
    ensures
        is_banned(kind, name) == bans(list, name),
{
    let (exact, globs) = (kind->exact, kind->globs);
    if bans(list, name) {
        let i = choose|i: int|
            0 <= i < list@.len() && if is_wild((#[trigger] list@[i])@) {
                glob_matches(list@[i]@, name)
            } else {
                list@[i]@ == name
            };
        let word = list@[i]@;
        assert(is_written(list, word));
        if is_wild(word) {
            assert(globs.contains(word));
            let k = choose|k: int| 0 <= k < globs.len() && globs[k] == word;
            assert(glob_matches(globs[k], name));
        } else {
            assert(exact.contains(word));
        }
    }
    if exact.contains(name) {
        let i = choose|i: int| 0 <= i < list@.len() && (#[trigger] list@[i])@ == name;
        assert(!is_wild(list@[i]@));
    }
    if exists|k: int| 0 <= k < globs.len() && glob_matches(#[trigger] globs[k], name) {
        let k = choose|k: int| 0 <= k < globs.len() && glob_matches(#[trigger] globs[k], name);
        assert(globs.contains(globs[k]));
        let i = choose|i: int| 0 <= i < list@.len() && (#[trigger] list@[i])@ == globs[k];
        assert(is_wild(list@[i]@));
    }
}

/// What is written under `deny` is enforced: the rule passes exactly when no package that the
/// package reaches, but those of its own name, is banned by any value of the list; and when one
/// is, the check exits with 1.
pub proof fn deny_is_enforced(
    cfg: RawConfig,
    view: GraphView,
    host: Seq<char>,
    explicit: bool,
    options: OptionsView,
    report: Option<ReportView>,
    t: int,
    root: int,
)
    requires
        view.consistent(),
        planned(cfg, view, host, explicit, options) is Ok,
        0 <= t < cfg.rules@.len(),
        cfg.rules@[t].table.value.deny is Some,
        root_of(view, cfg.rules@[t].package@) == Some(root),
        forall|node: int|
            0 <= node < view.meta.packages@.len() ==> (
            #[trigger] view.meta.packages@[node]).dependencies is Value
                && view.meta.packages@[node].features is Value,
    ensures
        ({
            let plan = planned(cfg, view, host, explicit, options)->Ok_0;
            let package = cfg.rules@[t].package@;
            let spec = cfg.rules@[t].table.value;
            let live = edges_selected(view, root, spec.features);
            is_recorded(
                outcome_of(view, plan, report),
                "rules."@ + package + "."@ + "deny"@,
                forall|node: int|
                    0 <= node < view.meta.packages@.len() && #[trigger] is_reached(
                        view,
                        live,
                        root,
                        node,
                    ) && called(view, node) != package ==> !bans(
                        spec.deny->0.value,
                        called(view, node),
                    ),
            )
        }),
{
    let plan = planned(cfg, view, host, explicit, options)->Ok_0;
    let rules = plan.config.rules;
    let package = cfg.rules@[t].package@;
    let spec = cfg.rules@[t].table.value;
    let list = spec.deny->0.value;
    let live = edges_selected(view, root, spec.features);
    tables_have_rules(cfg, view, host, explicit, options, t);
    let r = choose|r: int|
        0 <= r < rules.len() && is_rule_of(#[trigger] rules[r], package, "deny"@, spec.features)
            && denies_the_written(rules[r].kind, list);
    let rule = rules[r];
    rules_are_recorded(cfg, view, host, explicit, options, report, r);
    config::root_is_a_member(view, package);
    everything_is_answerable(view, rule, root);
    deny_reports_every_banned_name(view, plan.config, rule, root);
    selected_edges_are_read(view, root, rule, spec.features);
    let passed = verdict_of(view, plan.config, rule).passed;
    assert(passed == forall|node: int|
        0 <= node < view.meta.packages@.len() && #[trigger] is_reached(view, live, root, node)
            && called(view, node) != package ==> !bans(list, called(view, node))) by {
        assert forall|name: Seq<char>| is_banned(rule.kind, name) == #[trigger] bans(list, name) by {
            banned_as_written(rule.kind, list, name);
        }
    }
}

/// A document whose packages can all be decoded answers every rule.
proof fn everything_is_answerable(view: GraphView, rule: RuleView, root: int)
    requires
        view.consistent(),
        0 <= root < view.count(),
        forall|node: int|
            0 <= node < view.meta.packages@.len() ==> (
            #[trigger] view.meta.packages@[node]).dependencies is Value
                && view.meta.packages@[node].features is Value,
    ensures
        is_answerable(view, rule, root),
{
    if let Some((selection, _)) = rule.features {
        assert forall|node: int|
            crate::features::activated(view, root, selection).contains(
                crate::features::Fact::Node(node),
            ) implies #[trigger] crate::features::decode_fault(view, node) is None by {
            let activation = activation_of(view, root, selection);
            assert(activation.nodes.contains(node));
            crate::features::activated_nodes_are_reached(view, root, selection, node);
            let steps = view.steps(activation.edges);
            let path = choose|path: Seq<int>| steps.leads(path, root, node);
            if path.len() > 1 {
                let (left, right) = (path[path.len() - 2], path[path.len() - 2 + 1]);
                assert(steps.linked(left, right));
                let e = choose|e: int| steps.step(e, left, right);
                assert(0 <= view.edges[e].to < view.count());
            }
            assert(view.meta.packages@[node].dependencies is Value);
        }
    }
}

/// What is written under `require` is enforced: the rule passes exactly when each value of the
/// list is satisfied by a package that is reached and not called as the package itself.
pub proof fn require_is_enforced(
    cfg: RawConfig,
    view: GraphView,
    host: Seq<char>,
    explicit: bool,
    options: OptionsView,
    report: Option<ReportView>,
    t: int,
    root: int,
)
    requires
        view.consistent(),
        planned(cfg, view, host, explicit, options) is Ok,
        0 <= t < cfg.rules@.len(),
        cfg.rules@[t].table.value.require is Some,
        root_of(view, cfg.rules@[t].package@) == Some(root),
        forall|node: int|
            0 <= node < view.meta.packages@.len() ==> (
            #[trigger] view.meta.packages@[node]).dependencies is Value
                && view.meta.packages@[node].features is Value,
    ensures
        ({
            let plan = planned(cfg, view, host, explicit, options)->Ok_0;
            let package = cfg.rules@[t].package@;
            let spec = cfg.rules@[t].table.value;
            let live = edges_selected(view, root, spec.features);
            let list = spec.require->0.value;
            is_recorded(
                outcome_of(view, plan, report),
                "rules."@ + package + "."@ + "require"@,
                forall|i: int|
                    0 <= i < list@.len() ==> exists|node: int|
                        #![trigger is_reached(view, live, root, node)]
                        0 <= node < view.meta.packages@.len() && is_reached(view, live, root, node)
                            && called(view, node) != package && if is_wild(
                            (#[trigger] list@[i])@,
                        ) {
                            glob_matches(list@[i]@, called(view, node))
                        } else {
                            called(view, node) == list@[i]@
                        },
            )
        }),
{
    let plan = planned(cfg, view, host, explicit, options)->Ok_0;
    let rules = plan.config.rules;
    let package = cfg.rules@[t].package@;
    let spec = cfg.rules@[t].table.value;
    let list = spec.require->0.value;
    let live = edges_selected(view, root, spec.features);
    tables_have_rules(cfg, view, host, explicit, options, t);
    let r = choose|r: int|
        0 <= r < rules.len() && is_rule_of(#[trigger] rules[r], package, "require"@, spec.features)
            && asks_for_the_written(rules[r].kind, list);
    let rule = rules[r];
    let patterns = rule.kind->Require_0;
    rules_are_recorded(cfg, view, host, explicit, options, report, r);
    config::root_is_a_member(view, package);
    everything_is_answerable(view, rule, root);
    require_lists_what_is_not_met(view, plan.config, rule, root, patterns);
    selected_edges_are_read(view, root, rule, spec.features);
    assert forall|i: int| 0 <= i < patterns.len() implies is_satisfied(
        view,
        live,
        root,
        #[trigger] patterns[i],
    ) == exists|node: int|
        #![trigger is_reached(view, live, root, node)]
        0 <= node < view.meta.packages@.len() && is_reached(view, live, root, node) && called(
            view,
            node,
        ) != package && if is_wild(list@[i]@) {
            glob_matches(list@[i]@, called(view, node))
        } else {
            called(view, node) == list@[i]@
        } by {
        if is_satisfied(view, live, root, patterns[i]) {
            let node = choose|node: int|
                #![trigger is_reached(view, live, root, node)]
                0 <= node < view.meta.packages@.len() && is_reached(view, live, root, node)
                    && called(view, node) != called(view, root) && satisfies(
                    patterns[i],
                    called(view, node),
                );
            assert(is_reached(view, live, root, node));
        }
        if exists|node: int|
            #![trigger is_reached(view, live, root, node)]
            0 <= node < view.meta.packages@.len() && is_reached(view, live, root, node) && called(
                view,
                node,
            ) != package && if is_wild(list@[i]@) {
                glob_matches(list@[i]@, called(view, node))
            } else {
                called(view, node) == list@[i]@
            } {
            let node = choose|node: int|
                #![trigger is_reached(view, live, root, node)]
                0 <= node < view.meta.packages@.len() && is_reached(view, live, root, node)
                    && called(view, node) != package && if is_wild(list@[i]@) {
                    glob_matches(list@[i]@, called(view, node))
                } else {
                    called(view, node) == list@[i]@
                };
            assert(satisfies(patterns[i], called(view, node)));
        }
    }
    let held = forall|i: int|
        0 <= i < list@.len() ==> exists|node: int|
            #![trigger is_reached(view, live, root, node)]
            0 <= node < view.meta.packages@.len() && is_reached(view, live, root, node) && called(
                view,
                node,
            ) != package && if is_wild((#[trigger] list@[i])@) {
                glob_matches(list@[i]@, called(view, node))
            } else {
                called(view, node) == list@[i]@
            };
    if held {
        assert forall|i: int| 0 <= i < patterns.len() implies is_satisfied(
            view,
            live,
            root,
            #[trigger] patterns[i],
        ) by {
            let word = list@[i]@;
        }
    } else {
        let i = choose|i: int|
            0 <= i < list@.len() && !(exists|node: int|
                #![trigger is_reached(view, live, root, node)]
                0 <= node < view.meta.packages@.len() && is_reached(view, live, root, node)
                    && called(view, node) != package && if is_wild((#[trigger] list@[i])@) {
                    glob_matches(list@[i]@, called(view, node))
                } else {
                    called(view, node) == list@[i]@
                });
        assert(!is_satisfied(view, live, root, patterns[i]));
    }
    assert(verdict_of(view, plan.config, rule).passed == held);
}

/// Whether a name counts as internal under the policy file: a member's, where `members` is set,
/// or one that some written pattern matches.
pub open spec fn counts_as_internal(cfg: RawConfig, view: GraphView, name: Seq<char>) -> bool {
    ||| cfg.internal.members.value && exists|i: int|
        0 <= i < view.members.len() && view.meta.packages@[#[trigger] view.members[i]].name@ == name
    ||| exists|i: int|
        0 <= i < cfg.internal.patterns.value@.len() && glob_matches(
            (#[trigger] cfg.internal.patterns.value@[i])@,
            name,
        )
}

/// Every written pattern makes the names that it matches internal, and no name is internal that
/// is neither a member's nor matched by one of them.
pub proof fn patterns_are_enforced(
    cfg: RawConfig,
    view: GraphView,
    host: Seq<char>,
    name: Seq<char>,
)
    requires
        without_graph(cfg, host) is Ok,
    ensures
        is_ours(view, without_graph(cfg, host)->Ok_0, name) == counts_as_internal(cfg, view, name),
{
    let config = without_graph(cfg, host)->Ok_0;
    let written = cfg.internal.patterns.value@;
    a_policy_says_what_is_written(cfg, host);
    if exists|i: int| 0 <= i < written.len() && glob_matches((#[trigger] written[i])@, name) {
        let i = choose|i: int| 0 <= i < written.len() && glob_matches((#[trigger] written[i])@, name);
        assert(glob_matches(config.patterns[i], name));
    }
    if exists|i: int|
        0 <= i < config.patterns.len() && glob_matches(#[trigger] config.patterns[i], name) {
        let i = choose|i: int|
            0 <= i < config.patterns.len() && glob_matches(#[trigger] config.patterns[i], name);
        assert(glob_matches(written[i]@, name));
    }
}

/// Whether `root` reaches an internal package called `name`, which is not its own name.
pub open spec fn reaches_an_internal(
    cfg: RawConfig,
    view: GraphView,
    live: Set<int>,
    root: int,
    name: Seq<char>,
) -> bool {
    name != called(view, root) && counts_as_internal(cfg, view, name) && exists|node: int|
        #![trigger is_reached(view, live, root, node)]
        0 <= node < view.meta.packages@.len() && is_reached(view, live, root, node) && called(
            view,
            node,
        ) == name
}

/// What an `internal` or `leaf` rule of the policy says, by the file.
proof fn internal_rules_go_by_the_file(
    cfg: RawConfig,
    view: GraphView,
    host: Seq<char>,
    rule: RuleView,
    root: int,
    written: Option<Located<FeatureValue>>,
)
    requires
        view.consistent(),
        without_graph(cfg, host) is Ok,
        root_of(view, rule.package) == Some(root),
        rule.kind is Internal || rule.kind is Leaf,
        is_answerable(view, rule, root),
        reads_as_written(rule.features, written),
    ensures
        verdict_of(view, without_graph(cfg, host)->Ok_0, rule).passed <==> forall|
            name: Seq<char>,
        | #[trigger]
            expected_by(rule.kind).contains(name) <==> reaches_an_internal(
                cfg,
                view,
                edges_selected(view, root, written),
                root,
                name,
            ),
{
    let config = without_graph(cfg, host)->Ok_0;
    let live = edges_selected(view, root, written);
    let expected = expected_by(rule.kind);
    internal_reports_every_difference(view, config, rule, root);
    selected_edges_are_read(view, root, rule, written);
    assert forall|name: Seq<char>|
        reaches_ours(view, config, live, root, name) == #[trigger] reaches_an_internal(
            cfg,
            view,
            live,
            root,
            name,
        ) by {
        patterns_are_enforced(cfg, view, host, name);
    }
    if verdict_of(view, config, rule).passed {
        assert forall|name: Seq<char>| #[trigger]
            expected.contains(name) <==> reaches_an_internal(cfg, view, live, root, name) by {}
    } else {
        let name = choose|name: Seq<char>| #[trigger]
            expected.contains(name) != reaches_ours(view, config, live, root, name);
        assert(expected.contains(name) != reaches_an_internal(cfg, view, live, root, name));
    }
}

/// `leaf` is enforced: the rule passes exactly when no internal name is reached but the package's
/// own, whether it is a member's or one that a written pattern matches.
pub proof fn leaf_is_enforced(
    cfg: RawConfig,
    view: GraphView,
    host: Seq<char>,
    explicit: bool,
    options: OptionsView,
    report: Option<ReportView>,
    t: int,
    root: int,
)
    requires
        view.consistent(),
        planned(cfg, view, host, explicit, options) is Ok,
        0 <= t < cfg.rules@.len(),
        cfg.rules@[t].table.value.leaf is Some,
        cfg.rules@[t].table.value.leaf->0.value,
        root_of(view, cfg.rules@[t].package@) == Some(root),
        forall|node: int|
            0 <= node < view.meta.packages@.len() ==> (
            #[trigger] view.meta.packages@[node]).dependencies is Value
                && view.meta.packages@[node].features is Value,
    ensures
        ({
            let plan = planned(cfg, view, host, explicit, options)->Ok_0;
            let package = cfg.rules@[t].package@;
            let spec = cfg.rules@[t].table.value;
            let live = edges_selected(view, root, spec.features);
            is_recorded(
                outcome_of(view, plan, report),
                "rules."@ + package + "."@ + "leaf"@,
                forall|name: Seq<char>| !#[trigger]
                    reaches_an_internal(cfg, view, live, root, name),
            )
        }),
{
    let plan = planned(cfg, view, host, explicit, options)->Ok_0;
    let rules = plan.config.rules;
    let package = cfg.rules@[t].package@;
    let spec = cfg.rules@[t].table.value;
    let live = edges_selected(view, root, spec.features);
    tables_have_rules(cfg, view, host, explicit, options, t);
    let r = choose|r: int|
        0 <= r < rules.len() && is_rule_of(#[trigger] rules[r], package, "leaf"@, spec.features)
            && rules[r].kind is Leaf;
    let rule = rules[r];
    rules_are_recorded(cfg, view, host, explicit, options, report, r);
    config::root_is_a_member(view, package);
    everything_is_answerable(view, rule, root);
    internal_rules_go_by_the_file(cfg, view, host, rule, root, spec.features);
    let expected = expected_by(rule.kind);
    if verdict_of(view, plan.config, rule).passed {
        assert forall|name: Seq<char>| !#[trigger]
            reaches_an_internal(cfg, view, live, root, name) by {
            assert(!expected.contains(name));
        }
    } else {
        let name = choose|name: Seq<char>| #[trigger]
            expected.contains(name) != reaches_an_internal(cfg, view, live, root, name);
        assert(reaches_an_internal(cfg, view, live, root, name));
    }
}

/// What is written under `internal` is enforced: the rule passes exactly when the internal names
/// that are reached, but for the package's own, are those of the list.
pub proof fn internal_is_enforced(
    cfg: RawConfig,
    view: GraphView,
    host: Seq<char>,
    explicit: bool,
    options: OptionsView,
    report: Option<ReportView>,
    t: int,
    root: int,
)
    requires
        view.consistent(),
        planned(cfg, view, host, explicit, options) is Ok,
        0 <= t < cfg.rules@.len(),
        cfg.rules@[t].table.value.internal is Some,
        root_of(view, cfg.rules@[t].package@) == Some(root),
        forall|node: int|
            0 <= node < view.meta.packages@.len() ==> (
            #[trigger] view.meta.packages@[node]).dependencies is Value
                && view.meta.packages@[node].features is Value,
    ensures
        ({
            let plan = planned(cfg, view, host, explicit, options)->Ok_0;
            let package = cfg.rules@[t].package@;
            let spec = cfg.rules@[t].table.value;
            let live = edges_selected(view, root, spec.features);
            is_recorded(
                outcome_of(view, plan, report),
                "rules."@ + package + "."@ + "internal"@,
                forall|name: Seq<char>| #[trigger]
                    is_written(spec.internal->0.value, name) <==> reaches_an_internal(
                        cfg,
                        view,
                        live,
                        root,
                        name,
                    ),
            )
        }),
{
    let plan = planned(cfg, view, host, explicit, options)->Ok_0;
    let rules = plan.config.rules;
    let package = cfg.rules@[t].package@;
    let spec = cfg.rules@[t].table.value;
    let list = spec.internal->0.value;
    let live = edges_selected(view, root, spec.features);
    tables_have_rules(cfg, view, host, explicit, options, t);
    let r = choose|r: int|
        0 <= r < rules.len() && is_rule_of(#[trigger] rules[r], package, "internal"@, spec.features)
            && rules[r].kind is Internal && lists_the_written(rules[r].kind->Internal_0, list);
    let rule = rules[r];
    rules_are_recorded(cfg, view, host, explicit, options, report, r);
    config::root_is_a_member(view, package);
    everything_is_answerable(view, rule, root);
    internal_rules_go_by_the_file(cfg, view, host, rule, root, spec.features);
    let expected = expected_by(rule.kind);
    if verdict_of(view, plan.config, rule).passed {
        assert forall|name: Seq<char>| #[trigger] is_written(list, name) <==> reaches_an_internal(
            cfg,
            view,
            live,
            root,
            name,
        ) by {
            assert(expected.contains(name) <==> is_written(list, name));
        }
    } else {
        let name = choose|name: Seq<char>| #[trigger]
            expected.contains(name) != reaches_an_internal(cfg, view, live, root, name);
        assert(is_written(list, name) != reaches_an_internal(cfg, view, live, root, name));
    }
}

/// What is written under `direct` is enforced: the rule passes exactly when the names of the
/// direct dependencies are those of the list.
pub proof fn direct_is_enforced(
    cfg: RawConfig,
    view: GraphView,
    host: Seq<char>,
    explicit: bool,
    options: OptionsView,
    report: Option<ReportView>,
    t: int,
    root: int,
)
    requires
        planned(cfg, view, host, explicit, options) is Ok,
        0 <= t < cfg.rules@.len(),
        cfg.rules@[t].table.value.direct is Some,
        root_of(view, cfg.rules@[t].package@) == Some(root),
    ensures
        ({
            let plan = planned(cfg, view, host, explicit, options)->Ok_0;
            let package = cfg.rules@[t].package@;
            let spec = cfg.rules@[t].table.value;
            is_recorded(
                outcome_of(view, plan, report),
                "rules."@ + package + "."@ + "direct"@,
                forall|name: Seq<char>| #[trigger]
                    is_written(spec.direct->0.value, name) <==> depends_on_name(view, root, name),
            )
        }),
{
    let plan = planned(cfg, view, host, explicit, options)->Ok_0;
    let rules = plan.config.rules;
    let package = cfg.rules@[t].package@;
    let spec = cfg.rules@[t].table.value;
    let list = spec.direct->0.value;
    tables_have_rules(cfg, view, host, explicit, options, t);
    let r = choose|r: int|
        0 <= r < rules.len() && is_rule_of(#[trigger] rules[r], package, "direct"@, spec.features)
            && rules[r].kind is Direct && lists_the_written(rules[r].kind->Direct_0, list);
    let rule = rules[r];
    let expected = rule.kind->Direct_0;
    rules_are_recorded(cfg, view, host, explicit, options, report, r);
    direct_reports_every_difference(view, plan.config, rule, root, expected);
    if verdict_of(view, plan.config, rule).passed {
        assert forall|name: Seq<char>| #[trigger] is_written(list, name) <==> depends_on_name(
            view,
            root,
            name,
        ) by {
            assert(expected.contains(name) <==> is_written(list, name));
        }
    } else {
        let name = choose|name: Seq<char>| #[trigger]
            expected.contains(name) != depends_on_name(view, root, name);
        assert(is_written(list, name) != depends_on_name(view, root, name));
    }
}

/// `sealed` is enforced: the rule passes exactly when no other workspace member reaches the
/// package.
pub proof fn sealed_is_enforced(
    cfg: RawConfig,
    view: GraphView,
    host: Seq<char>,
    explicit: bool,
    options: OptionsView,
    report: Option<ReportView>,
    t: int,
    root: int,
)
    requires
        view.consistent(),
        planned(cfg, view, host, explicit, options) is Ok,
        0 <= t < cfg.rules@.len(),
        cfg.rules@[t].table.value.sealed is Some,
        cfg.rules@[t].table.value.sealed->0.value,
        root_of(view, cfg.rules@[t].package@) == Some(root),
    ensures
        ({
            let plan = planned(cfg, view, host, explicit, options)->Ok_0;
            let package = cfg.rules@[t].package@;
            is_recorded(
                outcome_of(view, plan, report),
                "rules."@ + package + "."@ + "sealed"@,
                forall|k: int|
                    0 <= k < view.members.len() && (#[trigger] view.members[k]) != root
                        ==> !is_reached(view, Set::full(), view.members[k], root),
            )
        }),
{
    let plan = planned(cfg, view, host, explicit, options)->Ok_0;
    let rules = plan.config.rules;
    let package = cfg.rules@[t].package@;
    let spec = cfg.rules@[t].table.value;
    tables_have_rules(cfg, view, host, explicit, options, t);
    let r = choose|r: int|
        0 <= r < rules.len() && is_rule_of(#[trigger] rules[r], package, "sealed"@, spec.features)
            && rules[r].kind is Sealed;
    let rule = rules[r];
    rules_are_recorded(cfg, view, host, explicit, options, report, r);
    sealed_reports_every_member(view, plan.config, rule, root);
}

/// Every table of a policy that is accepted is about a workspace member.
pub proof fn tables_are_about_members(
    cfg: RawConfig,
    view: GraphView,
    host: Seq<char>,
    explicit: bool,
    options: OptionsView,
    t: int,
)
    requires
        planned(cfg, view, host, explicit, options) is Ok,
        0 <= t < cfg.rules@.len(),
        keys_of(cfg.rules@[t].table.value) > 0,
    ensures
        exists|k: int|
            0 <= k < view.members.len() && view.meta.packages@[#[trigger] view.members[k]].name@
                == cfg.rules@[t].package@,
{
    let plan = planned(cfg, view, host, explicit, options)->Ok_0;
    let spec = cfg.rules@[t].table.value;
    let package = cfg.rules@[t].package@;
    a_policy_says_what_is_written(cfg, host);
    let from = keys_below(cfg.rules@, t);
    assert(super::policy::is_said_by(plan.config.rules[from], package, spec));
    rules_are_recorded(cfg, view, host, explicit, options, None, from);
    super::closure::rules_are_rooted_at_members(view, package);
}

/// The manifest rule is enforced: with `versions-in-root` every member's manifest is scanned, and
/// the check fails when any of them names a version; without it there is no such rule.
pub proof fn versions_in_root_is_enforced(
    view: GraphView,
    plan: PlanView,
    reads: Seq<(ManifestInput, Result<String, String>)>,
    root_manifest: Option<Seq<char>>,
)
    requires
        manifest_result(plan.config.versions_in_root, reads, root_manifest) is Ok,
    ensures
        ({
            let report = manifest_result(
                plan.config.versions_in_root,
                reads,
                root_manifest,
            )->Ok_0;
            let outcome = outcome_of(view, plan, report);
            &&& outcome.manifest == report
            &&& plan.config.versions_in_root <==> report is Some
            &&& outcome.statuses.len() == plan.config.rules.len() + if report is Some {
                1int
            } else {
                0
            }
            &&& report matches Some(found) ==> {
                &&& found.entries == report_below(reads, reads.len() as int)->Ok_0.entries
                &&& found.entries.len() == scanned_below(reads, reads.len() as int)
                &&& is_recorded(
                    outcome,
                    "manifest.versions-in-root"@,
                    forall|i: int|
                        0 <= i < reads.len() ==> member_scan(
                            (#[trigger] reads[i]).0,
                            reads[i].1,
                        )->Ok_0.len() == 0,
                )
                &&& found.entries.len() <= u32::MAX ==> outcome.statuses[outcome.statuses.len()
                    - 1].matched == found.entries.len()
            }
        }),
{
    let report = manifest_result(plan.config.versions_in_root, reads, root_manifest)->Ok_0;
    let outcome = outcome_of(view, plan, report);
    if let Some(found) = report {
        every_manifest_is_reported(reads);
        a_check_fails_with_its_rules(view, plan, report);
        let last = outcome.statuses[outcome.statuses.len() - 1];
        assert(last == crate::pipeline::manifest_status_of(found));
        assert(outcome.statuses[outcome.statuses.len() - 1].id == "manifest.versions-in-root"@);
    }
}

} // verus!
