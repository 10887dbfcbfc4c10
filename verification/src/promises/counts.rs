//! What is counted, and what is warned of.

use super::closure::{is_conditional, is_declared_optional, is_reached, reach_is_reach};
use super::manifests::{held_is_looked_up, holds, is_table_at};
use super::reports::says;
use super::selections::declared_by;
use super::verdicts::is_answerable;
use crate::cli::{feature_flags_given, flag_warnings, FlagsGiven};
use crate::config::{
    self, optional_declaration, root_of, rule_warning, warnings_below, with_graph, ConfigView,
    RuleKindView, RuleView,
};
use crate::document::{value_of, TomlEntry, TomlView};
use crate::features::{activation_of, declarations};
use crate::graph::{DeclaredDep, GraphView};
use crate::manifest::{centralises, ReportView};
use crate::metadata::{end_fault, left_behind, rebased, ChildEnd, Pkg};
use crate::paths::{self, traversal};
use crate::pipeline::{graph_statuses, outcome_of, PlanView};
use crate::platform::{is_activated, is_kept, judgement};
use crate::rules::{
    self, matched_below, narrowed_closure, rule_extra, status_of, traversed_extra, verdict_of,
    StatusView,
};
use crate::text;
use vstd::prelude::*;

verus! {

/// Whether a graph has an edge that some build may go without: it is there on some platforms only,
/// or it is an optional dependency of a workspace member.
pub open spec fn is_extra_edge(view: GraphView, edge: int) -> bool {
    &&& 0 <= edge < view.edges.len()
    &&& {
        let from = view.edges[edge].from;
        let to = view.edges[edge].to;
        is_conditional(view.edges[edge].dep) || (view.members.contains(from)
            && is_declared_optional(view, from, view.meta.packages@[to].name@))
    }
}

/// Whether answering a rule follows an edge: a rule on a closure follows those that leave what its
/// package reaches, and a `sealed` rule those that lead towards it.
pub open spec fn follows(view: GraphView, rule: RuleView, edge: int) -> bool {
    root_of(view, rule.package) matches Some(root) && match rule.kind {
        RuleKindView::Direct(_) => false,
        RuleKindView::Sealed => is_reached(view, Set::full(), view.edges[edge].to, root),
        _ => is_answerable(view, rule, root) && is_reached(
            view,
            Set::full(),
            root,
            view.edges[edge].from,
        ),
    }
}

proof fn followed_edges_are_crossed(view: GraphView, rule: RuleView, edge: int)
    requires
        view.consistent(),
    ensures
        rule_extra(view, rule).contains(edge) <==> is_extra_edge(view, edge) && follows(
            view,
            rule,
            edge,
        ),
{
    if let Some(root) = root_of(view, rule.package) {
        config::root_is_a_member(view, rule.package);
        if 0 <= edge < view.edges.len() {
            let (from, to) = (view.edges[edge].from, view.edges[edge].to);
            assert(view.superset_edge(edge) == is_extra_edge(view, edge));
            let forward = view.forward();
            let backward = view.backward();
            rules::steps_have_a_traversal(view, Set::full(), root);
            paths::traversal_finds_what_is_reached(forward, root, traversal(forward, root), from);
            reach_is_reach(view, Set::full(), root, from);
            assert(forward.edges[edge] == (from, to));
            assert(backward.bounded()) by {
                assert forall|e: int| 0 <= e < backward.edges.len() implies 0 <= (
                #[trigger] backward.edges[e]).0 < backward.nodes && 0 <= backward.edges[e].1
                    < backward.nodes by {
                    assert(0 <= view.edges[e].from < view.count());
                }
            }
            paths::traversal_exists(backward, root);
            paths::traversal_finds_what_is_reached(backward, root, traversal(backward, root), to);
            paths::reversing_steps_reverses_reach(forward, to, root);
            reach_is_reach(view, Set::full(), to, root);
            assert(backward.edges[edge] == (to, from));
            if let Some((selection, _)) = rule.features {
                let live = activation_of(view, root, selection).edges;
                let steps = view.steps(live);
                rules::steps_have_a_traversal(view, live, root);
                paths::traversal_finds_what_is_reached(
                    steps,
                    root,
                    narrowed_closure(view, root, selection),
                    from,
                );
                assert(steps.edges[edge] == (from, to));
                if steps.reaches(root, from) {
                    paths::more_steps_reach_no_less(steps, forward, root, from);
                }
            }
        }
    }
}

/// The edges that are counted on top are those that some build may go without and that some rule
/// follows, each once.
pub proof fn extra_edges_are_those_followed(
    view: GraphView,
    plan: PlanView,
    report: Option<ReportView>,
)
    requires
        view.consistent(),
    ensures
        ({
            let rules = plan.config.rules;
            let extra = Set::new(
                |edge: int|
                    is_extra_edge(view, edge) && exists|r: int|
                        0 <= r < rules.len() && follows(view, #[trigger] rules[r], edge),
            );
            outcome_of(view, plan, report).counters.superset_extra_edges == extra.len() as u32
        }),
{
    let rules = plan.config.rules;
    let extra = Set::new(
        |edge: int|
            is_extra_edge(view, edge) && exists|r: int|
                0 <= r < rules.len() && follows(view, #[trigger] rules[r], edge),
    );
    assert forall|edge: int| traversed_extra(view, rules).contains(edge) == #[trigger] extra.contains(
        edge,
    ) by {
        if traversed_extra(view, rules).contains(edge) {
            let r = choose|r: int|
                0 <= r < rules.len() && #[trigger] rule_extra(view, rules[r]).contains(edge);
            followed_edges_are_crossed(view, rules[r], edge);
        }
        if extra.contains(edge) {
            let r = choose|r: int| 0 <= r < rules.len() && follows(view, #[trigger] rules[r], edge);
            followed_edges_are_crossed(view, rules[r], edge);
            assert(rule_extra(view, rules[r]).contains(edge));
        }
    }
    assert(traversed_extra(view, rules) =~= extra);
}

proof fn matches_add_up(view: GraphView, config: ConfigView, upto: int)
    requires
        0 <= upto <= config.rules.len(),
    ensures
        matched_below(view, config, upto) == graph_statuses(view, config).take(upto).fold_left(
            0nat,
            |sum: nat, status: StatusView| sum + status.matched,
        ),
    decreases upto,
{
    reveal(Seq::fold_left);
    let statuses = graph_statuses(view, config);
    if upto > 0 {
        matches_add_up(view, config, upto - 1);
        assert(statuses.take(upto).drop_last() =~= statuses.take(upto - 1));
        assert(statuses.take(upto).last() == status_of(view, config, config.rules[upto - 1]));
    }
}

/// The matches of a check are those of all its graph rules together.
pub proof fn matches_are_counted(view: GraphView, plan: PlanView, report: Option<ReportView>)
    ensures
        ({
            let outcome = outcome_of(view, plan, report);
            let graph = outcome.statuses.take(plan.config.rules.len() as int);
            let sum = graph.fold_left(0nat, |sum: nat, status: StatusView| sum + status.matched);
            sum <= u32::MAX ==> outcome.counters.matches == sum
        }),
{
    let count = plan.config.rules.len() as int;
    matches_add_up(view, plan.config, count);
    let statuses = graph_statuses(view, plan.config);
    assert(statuses.take(count) =~= statuses);
    assert(outcome_of(view, plan, report).statuses.take(count) =~= statuses);
}

/// Whether a `direct` rule is on a package that declares an optional normal dependency.
pub open spec fn is_worth_a_warning(view: GraphView, rule: RuleView) -> bool {
    &&& rule.kind is Direct
    &&& root_of(view, rule.package) matches Some(root) && exists|i: int|
        0 <= i < declared_by(view, root).len() && (#[trigger] declared_by(view, root)[i]).kind
            is None && declared_by(view, root)[i].optional
}

proof fn optional_declarations_are_found(declared: Seq<DeclaredDep>, upto: int)
    requires
        0 <= upto <= declared.len(),
    ensures
        match optional_declaration(declared, upto) {
            Some(i) => 0 <= i < upto && declared[i].kind is None && declared[i].optional,
            None => forall|i: int|
                0 <= i < upto ==> !((#[trigger] declared[i]).kind is None && declared[i].optional),
        },
    decreases upto,
{
    if upto > 0 {
        optional_declarations_are_found(declared, upto - 1);
    }
}

/// Whether a warning names its rule, and an optional normal dependency of the rule's package.
pub open spec fn warns_of(view: GraphView, rule: RuleView, warning: Seq<char>) -> bool {
    &&& says(warning, rule.id)
    &&& root_of(view, rule.package) matches Some(root) && exists|i: int|
        0 <= i < declared_by(view, root).len() && (#[trigger] declared_by(view, root)[i]).kind
            is None && declared_by(view, root)[i].optional && says(
            warning,
            declared_by(view, root)[i].name@,
        )
}

proof fn warnings_are_worth_it(view: GraphView, rule: RuleView)
    ensures
        rule_warning(view, rule) is Some <==> is_worth_a_warning(view, rule),
        rule_warning(view, rule) matches Some(warning) ==> warns_of(view, rule, warning),
{
    if let Some(root) = root_of(view, rule.package) {
        let declared = declarations(view, root);
        assert(declared == declared_by(view, root));
        optional_declarations_are_found(declared, declared.len() as int);
        if let Some(i) = optional_declaration(declared, declared.len() as int) {
            assert(declared_by(view, root)[i].optional);
            if rule.kind is Direct {
                let warning = rule_warning(view, rule)->0;
                let name = declared[i].name@;
                let head = "warning: "@;
                let middle = ": "@ + rule.package + " declares optional dependency "@;
                let tail = "; sibling feature unification may add it to the resolved edge set"@;
                assert(warning =~= head + rule.id + (middle + name + tail));
                assert(says(warning, rule.id));
                assert(warning =~= (head + rule.id + middle) + name + tail);
                assert(says(warning, name));
            }
        }
    }
}

proof fn warnings_are_gathered(view: GraphView, rules: Seq<RuleView>, upto: int)
    requires
        0 <= upto <= rules.len(),
    ensures
        warnings_below(view, rules, upto).len() == rules.take(upto).filter(
            |rule: RuleView| is_worth_a_warning(view, rule),
        ).len(),
        forall|r: int|
            0 <= r < upto && is_worth_a_warning(view, #[trigger] rules[r]) ==> exists|w: int|
                0 <= w < warnings_below(view, rules, upto).len() && warns_of(
                    view,
                    rules[r],
                    #[trigger] warnings_below(view, rules, upto)[w],
                ),
    decreases upto,
{
    reveal(Seq::filter);
    if upto > 0 {
        warnings_are_gathered(view, rules, upto - 1);
        let last = rules[upto - 1];
        let before = warnings_below(view, rules, upto - 1);
        let now = warnings_below(view, rules, upto);
        warnings_are_worth_it(view, last);
        assert(rules.take(upto).drop_last() =~= rules.take(upto - 1));
        assert(rules.take(upto).last() == last);
        assert forall|r: int| 0 <= r < upto && is_worth_a_warning(view, #[trigger] rules[r]) implies
            exists|w: int|
            0 <= w < now.len() && warns_of(view, rules[r], #[trigger] now[w]) by {
            if r < upto - 1 {
                let w = choose|w: int|
                    0 <= w < before.len() && warns_of(view, rules[r], #[trigger] before[w]);
                assert(now[w] == before[w]);
            } else {
                let w = before.len() as int;
                assert(now[w] == rule_warning(view, last)->0);
                assert(warns_of(view, rules[r], now[w]));
            }
        }
    }
}

/// There is one warning for each `direct` rule on a package that declares an optional normal
/// dependency, which names the rule and such a dependency, and no other.
pub proof fn optional_dependencies_are_warned_of(view: GraphView, rules: Seq<RuleView>)
    requires
        with_graph(view, rules) is Ok,
    ensures
        ({
            let warnings = with_graph(view, rules)->Ok_0;
            &&& warnings.len() == rules.filter(
                |rule: RuleView| is_worth_a_warning(view, rule),
            ).len()
            &&& forall|r: int|
                0 <= r < rules.len() && is_worth_a_warning(view, #[trigger] rules[r]) ==> exists|
                    w: int,
                |
                    0 <= w < warnings.len() && warns_of(view, rules[r], #[trigger] warnings[w])
        }),
{
    let count = rules.len() as int;
    warnings_are_gathered(view, rules, count);
    assert(rules.take(count) =~= rules);
    let warnings = with_graph(view, rules)->Ok_0;
    assert(warnings == warnings_below(view, rules, count));
    assert forall|r: int|
        0 <= r < rules.len() && is_worth_a_warning(view, #[trigger] rules[r]) implies exists|w: int|
        0 <= w < warnings.len() && warns_of(view, rules[r], #[trigger] warnings[w]) by {
        let w = choose|w: int|
            0 <= w < warnings_below(view, rules, count).len() && warns_of(
                view,
                rules[r],
                #[trigger] warnings_below(view, rules, count)[w],
            );
        assert(warns_of(view, rules[r], warnings[w]));
    }
}

/// A rule whose closure has a package in it that cannot be decoded fails: it must not pass because
/// its evidence is missing.
pub proof fn undecodable_packages_fail_rules(
    view: GraphView,
    config: ConfigView,
    rule: RuleView,
    root: int,
    node: int,
)
    requires
        root_of(view, rule.package) == Some(root),
        !(rule.kind is Direct),
        !(rule.kind is Sealed),
        rule.features is Some,
        activation_of(view, root, (rule.features->0).0).nodes.contains(node),
        view.meta.packages@[node].dependencies is Malformed
            || view.meta.packages@[node].features is Malformed,
    ensures
        !verdict_of(view, config, rule).passed,
{
    let selection = (rule.features->0).0;
    assert(crate::features::activated(view, root, selection).contains(
        crate::features::Fact::Node(node),
    ));
    assert(crate::features::decode_fault(view, node) is Some);
}

/// A workspace centralises its versions when its manifest holds a table `dependencies` in its
/// table `workspace`.
pub proof fn centralising_is_a_workspace_table(entries: Seq<TomlEntry>)
    ensures
        centralises(entries) <==> exists|workspace: Seq<TomlEntry>, list: Seq<TomlEntry>|
            #![trigger is_table_at(entries, "workspace"@, workspace), is_table_at(workspace, "dependencies"@, list)]
            is_table_at(entries, "workspace"@, workspace) && is_table_at(
                workspace,
                "dependencies"@,
                list,
            ),
{
    if let Some(outer) = value_of(entries, "workspace"@) {
        held_is_looked_up(entries, "workspace"@, outer);
        assert(holds(entries, "workspace"@, outer));
        if let TomlView::Table(workspace) = outer.value {
            assert(is_table_at(entries, "workspace"@, workspace));
            if let Some(inner) = value_of(workspace, "dependencies"@) {
                held_is_looked_up(workspace, "dependencies"@, inner);
                assert(holds(workspace, "dependencies"@, inner));
                if let TomlView::Table(list) = inner.value {
                    assert(is_table_at(workspace, "dependencies"@, list));
                }
            }
        }
    }
    if exists|workspace: Seq<TomlEntry>, list: Seq<TomlEntry>|
        #![trigger is_table_at(entries, "workspace"@, workspace), is_table_at(workspace, "dependencies"@, list)]
        is_table_at(entries, "workspace"@, workspace) && is_table_at(
            workspace,
            "dependencies"@,
            list,
        ) {
        let (workspace, list) = choose|workspace: Seq<TomlEntry>, list: Seq<TomlEntry>|
            #![trigger is_table_at(entries, "workspace"@, workspace), is_table_at(workspace, "dependencies"@, list)]
            is_table_at(entries, "workspace"@, workspace) && is_table_at(
                workspace,
                "dependencies"@,
                list,
            );
        let outer = choose|value: crate::document::TomlPlaced|
            #![trigger holds(entries, "workspace"@, value)]
            holds(entries, "workspace"@, value) && value.value == TomlView::Table(workspace);
        held_is_looked_up(entries, "workspace"@, outer);
        let inner = choose|value: crate::document::TomlPlaced|
            #![trigger holds(workspace, "dependencies"@, value)]
            holds(workspace, "dependencies"@, value) && value.value == TomlView::Table(list);
        held_is_looked_up(workspace, "dependencies"@, inner);
    }
}

/// A run of Cargo counts only when it came to its end by itself and reports success.
pub proof fn only_success_counts(end: ChildEnd, timeout: u64)
    ensures
        end_fault(end, timeout) is None <==> (end is Exited && end->success),
{
}

/// The flags that a document makes inert are warned of exactly when there is a document and one of
/// them was given; and every feature flag that was given is named.
pub proof fn inert_flags_are_warned_of(flags: FlagsGiven)
    ensures
        ({
            let warnings = flag_warnings(flags);
            let locks = flags.locked || flags.no_locked;
            let features = flags.features || flags.all_features || flags.no_default_features;
            &&& warnings.len() == if !flags.metadata_json {
                0int
            } else {
                (if locks {
                    1int
                } else {
                    0
                }) + (if features {
                    1int
                } else {
                    0
                })
            }
            &&& feature_flags_given(flags).contains("--features"@) || !flags.features
            &&& feature_flags_given(flags).contains("--all-features"@) || !flags.all_features
            &&& feature_flags_given(flags).contains("--no-default-features"@)
                || !flags.no_default_features
        }),
{
    let given = feature_flags_given(flags);
    if flags.features {
        assert(given[0] == "--features"@);
    }
    if flags.all_features {
        assert(given[if flags.features {
            1int
        } else {
            0
        }] == "--all-features"@);
    }
    if flags.no_default_features {
        assert(given[given.len() - 1] == "--no-default-features"@);
    }
}

/// Selecting more platforms keeps what any of them keeps: a selection of two parts activates a
/// condition exactly when one of the parts does, and a triple that is named literally is activated
/// by that triple alone.
pub proof fn platforms_are_taken_together(
    left: Seq<Seq<char>>,
    right: Seq<Seq<char>>,
    target: Seq<char>,
)
    requires
        left.len() > 0,
        right.len() > 0,
    ensures
        is_activated(left + right, target) <==> is_activated(left, target) || is_activated(
            right,
            target,
        ),
        is_activated(Seq::empty(), target),
        !("cfg("@.len() <= target.len() && target.take("cfg("@.len() as int) == "cfg("@)
            ==> forall|triple: Seq<char>|
            is_activated(seq![triple], target) <==> #[trigger] seq![triple][0] == target,
{
    let both = left + right;
    if text::has_prefix(target, "cfg("@) {
        if is_activated(left, target) {
            let i = choose|i: int|
                0 <= i < left.len() && is_kept(
                    crate::platform::cfg_verdict(target, #[trigger] left[i]),
                );
            assert(both[i] == left[i]);
        }
        if is_activated(right, target) {
            let i = choose|i: int|
                0 <= i < right.len() && is_kept(
                    crate::platform::cfg_verdict(target, #[trigger] right[i]),
                );
            assert(both[left.len() + i] == right[i]);
        }
        if is_activated(both, target) {
            let i = choose|i: int|
                0 <= i < both.len() && is_kept(
                    crate::platform::cfg_verdict(target, #[trigger] both[i]),
                );
            if i < left.len() {
                assert(left[i] == both[i]);
            } else {
                assert(right[i - left.len()] == both[i]);
            }
        }
    } else {
        if left.contains(target) {
            let i = choose|i: int| 0 <= i < left.len() && left[i] == target;
            assert(both[i] == target);
        }
        if right.contains(target) {
            let i = choose|i: int| 0 <= i < right.len() && right[i] == target;
            assert(both[left.len() + i] == target);
        }
        if both.contains(target) {
            let i = choose|i: int| 0 <= i < both.len() && both[i] == target;
            if i < left.len() {
                assert(left[i] == target);
            } else {
                assert(right[i - left.len()] == target);
            }
        }
        assert forall|triple: Seq<char>|
            is_activated(seq![triple], target) <==> #[trigger] seq![triple][0] == target by {
            if seq![triple].contains(target) {
                assert(seq![triple][0] == target);
            }
        }
    }
}

/// Of what no target decides, tests, procedural macros and features are taken as not set, and all
/// else is left open, so that it keeps its edge.
pub proof fn open_conditions_are_left_open()
    ensures
        judgement().test == Some(false),
        judgement().proc_macro == Some(false),
        judgement().feature == Some(false),
        judgement().debug_assertions is None,
        judgement().target_feature is None,
        judgement().flag is None,
        judgement().key_value is None,
        is_kept(None),
        is_kept(Some(None)),
        is_kept(Some(Some(true))),
        !is_kept(Some(Some(false))),
{
}

/// The packages that a rebasing leaves behind are the local ones that do not lie below the old
/// root.
pub proof fn what_is_left_behind_is_counted(
    packages: Seq<Pkg>,
    old_root: Seq<char>,
    dir: Seq<char>,
    upto: int,
)
    requires
        0 <= upto <= packages.len(),
    ensures
        left_behind(packages, old_root, dir, upto) == packages.take(upto).filter(
            |package: Pkg|
                package.is_local() && rebased(package.manifest_path@, old_root, dir) is None,
        ).len(),
    decreases upto,
{
    reveal(Seq::filter);
    if upto > 0 {
        what_is_left_behind_is_counted(packages, old_root, dir, upto - 1);
        assert(packages.take(upto).drop_last() =~= packages.take(upto - 1));
        assert(packages.take(upto).last() == packages[upto - 1]);
    }
}

} // verus!
