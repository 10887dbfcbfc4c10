//! What each rule kind answers.

use super::closure::{
    is_reached, is_shortest_to, leads_along, named_are_those_named, paths_are_paths, reach_is_reach,
    shows, witness_is_shortest,
};
use crate::config::{self, root_of, ConfigView, PatternView, RuleKindView, RuleView};
use crate::features::{activation_of, is_decodable};
use crate::globs::{self, glob_matches};
use crate::graph::{
    edges_out, first_found, members_found, names_node, others_found, witness, Direction, Edge,
    GraphView,
};
use crate::names;
use crate::paths::{self, position, traversal, Trail};
use crate::rules::{
    self, absent, found_names, hops_of, is_met, match_of, matches_of, status_of, unexpected, unmet,
    verdict_of, MatchView, ViolationView,
};
use vstd::prelude::*;

verus! {

/// The name of a package.
pub open spec fn called(view: GraphView, node: int) -> Seq<char> {
    view.meta.packages@[node].name@
}

/// The edges that a rule's closure is read over: every edge without a selection, and otherwise
/// those that a build of the package under the selection turns on.
pub open spec fn edges_read(view: GraphView, rule: RuleView, root: int) -> Set<int> {
    match rule.features {
        None => Set::full(),
        Some((selection, _)) => activation_of(view, root, selection).edges,
    }
}

/// Whether a rule on `root` can be answered: what its selection turns on can be decoded.
pub open spec fn is_answerable(view: GraphView, rule: RuleView, root: int) -> bool {
    rule.features matches Some((selection, _)) ==> is_decodable(view, root, selection)
}

/// Whether `found` tells the truth of a name: the version of the package of that name that is
/// nearest, a shortest path to it, and the versions of the others that are reached, and no more.
pub open spec fn is_finding(view: GraphView, live: Set<int>, root: int, found: MatchView) -> bool {
    exists|path: Seq<int>|
        #![trigger shows(view, found.witness, path)]
        {
            let end = path[path.len() - 1];
            &&& is_shortest_to(view, live, root, found.name, path)
            &&& shows(view, found.witness, path)
            &&& found.version == view.meta.packages@[end].version@
            &&& forall|version: Seq<char>| #[trigger]
                found.other_versions.contains(version) <==> exists|node: int|
                    #![trigger is_reached(view, live, root, node)]
                    0 <= node < view.meta.packages@.len() && node != end && called(view, node)
                        == found.name && view.meta.packages@[node].version@ == version
                        && is_reached(view, live, root, node)
        }
}

/// Whether `findings` are the truth of what `root` reaches and `wanted` asks about: every such
/// name but the root's own, each once, and no other.
pub open spec fn are_findings(
    view: GraphView,
    live: Set<int>,
    root: int,
    findings: Seq<MatchView>,
    wanted: spec_fn(Seq<char>) -> bool,
) -> bool {
    &&& forall|m: int|
        0 <= m < findings.len() ==> is_finding(view, live, root, #[trigger] findings[m])
            && findings[m].name != called(view, root) && wanted(findings[m].name)
    &&& forall|node: int|
        0 <= node < view.meta.packages@.len() && #[trigger] is_reached(view, live, root, node)
            && called(view, node) != called(view, root) && wanted(called(view, node)) ==> exists|
            m: int,
        |
            0 <= m < findings.len() && (#[trigger] findings[m]).name == called(view, node)
    &&& forall|m: int, n: int|
        0 <= m < n < findings.len() ==> (#[trigger] findings[m]).name != (
        #[trigger] findings[n]).name
}

proof fn others_are_found(order: Seq<int>, nodes: Seq<int>, first: int, upto: int)
    requires
        0 <= upto <= nodes.len(),
    ensures
        forall|node: int| #[trigger]
            others_found(order, nodes, first, upto).contains(node) <==> nodes.take(upto).contains(
                node,
            ) && node != first && order.contains(node),
    decreases upto,
{
    if upto > 0 {
        others_are_found(order, nodes, first, upto - 1);
        let before = others_found(order, nodes, first, upto - 1);
        let now = others_found(order, nodes, first, upto);
        let last = nodes[upto - 1];
        assert(nodes.take(upto) =~= nodes.take(upto - 1).push(last));
        assert forall|node: int| #[trigger] now.contains(node) <==> nodes.take(upto).contains(node)
            && node != first && order.contains(node) by {
            assert(before.contains(node) <==> nodes.take(upto - 1).contains(node) && node != first
                && order.contains(node));
            super::policy::pushed_is_held(nodes.take(upto - 1), last, node);
            super::policy::pushed_is_held(before, last, node);
        }
    }
}

proof fn a_match_is_a_finding(view: GraphView, live: Set<int>, root: int, name: int)
    requires
        view.consistent(),
        0 <= root < view.count(),
        0 <= name < view.names.len(),
        names_node(traversal(view.steps(live), root).order, view.name_of, name),
    ensures
        is_finding(view, live, root, match_of(view, traversal(view.steps(live), root), name)),
        match_of(view, traversal(view.steps(live), root), name).name == view.names[name],
{
    let steps = view.steps(live);
    let trail = traversal(steps, root);
    let found = match_of(view, trail, name);
    let first = first_found(view, trail, name);
    let path = witness(trail, Direction::Forward, first);
    witness_is_shortest(view, live, root, name);
    rules::steps_have_a_traversal(view, live, root);
    let named = view.named(name);
    let others = others_found(trail.order, named, first, named.len() as int);
    others_are_found(trail.order, named, first, named.len() as int);
    named_are_those_named(view.name_of, name, view.count());
    assert(named.take(named.len() as int) =~= named);
    assert forall|version: Seq<char>| #[trigger]
        found.other_versions.contains(version) <==> exists|node: int|
            #![trigger is_reached(view, live, root, node)]
            0 <= node < view.meta.packages@.len() && node != first && called(view, node)
                == found.name && view.meta.packages@[node].version@ == version && is_reached(
                view,
                live,
                root,
                node,
            ) by {
        if found.other_versions.contains(version) {
            let i = choose|i: int|
                0 <= i < found.other_versions.len() && found.other_versions[i] == version;
            let node = others[i];
            assert(others.contains(node));
            assert(named.contains(node));
            assert(view.names[view.name_of[node]] == view.name(node));
            paths::traversal_finds_what_is_reached(steps, root, trail, node);
            reach_is_reach(view, live, root, node);
            assert(is_reached(view, live, root, node));
        }
        if exists|node: int|
            #![trigger is_reached(view, live, root, node)]
            0 <= node < view.meta.packages@.len() && node != first && called(view, node)
                == found.name && view.meta.packages@[node].version@ == version && is_reached(
                view,
                live,
                root,
                node,
            ) {
            let node = choose|node: int|
                #![trigger is_reached(view, live, root, node)]
                0 <= node < view.meta.packages@.len() && node != first && called(view, node)
                    == found.name && view.meta.packages@[node].version@ == version && is_reached(
                    view,
                    live,
                    root,
                    node,
                );
            assert(view.names[view.name_of[node]] == view.name(node));
            reach_is_reach(view, live, root, node);
            paths::traversal_finds_what_is_reached(steps, root, trail, node);
            assert(named.contains(node));
            assert(others.contains(node));
            let i = choose|i: int| 0 <= i < others.len() && others[i] == node;
            assert(found.other_versions[i] == version);
        }
    }
    assert(shows(view, found.witness, path));
}

proof fn found_names_ascend(
    view: GraphView,
    trail: Trail,
    root: int,
    wanted: spec_fn(int) -> bool,
    upto: int,
)
    ensures
        forall|i: int, j: int|
            0 <= i < j < found_names(view, trail, root, wanted, upto).len() ==> (
            #[trigger] found_names(view, trail, root, wanted, upto)[i]) < (
            #[trigger] found_names(view, trail, root, wanted, upto)[j]),
    decreases upto,
{
    if upto > 0 {
        found_names_ascend(view, trail, root, wanted, upto - 1);
        rules::found_names_hold(view, trail, root, wanted, upto - 1);
        let before = found_names(view, trail, root, wanted, upto - 1);
        let now = found_names(view, trail, root, wanted, upto);
        assert forall|i: int, j: int| 0 <= i < j < now.len() implies (#[trigger] now[i]) < (
        #[trigger] now[j]) by {
            assert(before.contains(before[i]));
            if j < before.len() {
                assert(before[i] < before[j]);
            }
        }
    }
}

/// What is said of the names that a traversal found are findings.
proof fn matches_are_findings(
    view: GraphView,
    live: Set<int>,
    root: int,
    by_id: spec_fn(int) -> bool,
    wanted: spec_fn(Seq<char>) -> bool,
)
    requires
        view.consistent(),
        0 <= root < view.count(),
        forall|id: int| 0 <= id < view.names.len() ==> #[trigger] by_id(id) == wanted(view.names[id]),
    ensures
        ({
            let trail = traversal(view.steps(live), root);
            let found = found_names(view, trail, root, by_id, view.names.len() as int);
            are_findings(view, live, root, matches_of(view, trail, found), wanted)
        }),
{
    let trail = traversal(view.steps(live), root);
    let count = view.names.len() as int;
    let found = found_names(view, trail, root, by_id, count);
    let findings = matches_of(view, trail, found);
    rules::found_names_hold(view, trail, root, by_id, count);
    found_names_ascend(view, trail, root, by_id, count);
    assert(view.names[view.name_of[root]] == view.name(root));
    assert forall|m: int| 0 <= m < findings.len() implies is_finding(
        view,
        live,
        root,
        #[trigger] findings[m],
    ) && findings[m].name != called(view, root) && wanted(findings[m].name) by {
        assert(found.contains(found[m]));
        a_match_is_a_finding(view, live, root, found[m]);
        assert(by_id(found[m]));
    }
    assert forall|node: int|
        0 <= node < view.meta.packages@.len() && #[trigger] is_reached(view, live, root, node)
            && called(view, node) != called(view, root) && wanted(called(view, node)) implies exists|
        m: int,
    |
        0 <= m < findings.len() && (#[trigger] findings[m]).name == called(view, node) by {
        let id = view.name_of[node];
        assert(view.names[id] == view.name(node));
        reach_is_reach(view, live, root, node);
        rules::found_names_are_reached(view, live, root, id);
        assert(rules::name_is_reached(view, view.steps(live), root, id));
        assert(by_id(id));
        assert(found.contains(id));
        let m = choose|m: int| 0 <= m < found.len() && found[m] == id;
        a_match_is_a_finding(view, live, root, id);
        assert(findings[m].name == called(view, node));
    }
    assert forall|m: int, n: int| 0 <= m < n < findings.len() implies (#[trigger] findings[m]).name
        != (#[trigger] findings[n]).name by {
        assert(found.contains(found[m]));
        assert(found.contains(found[n]));
        assert(found[m] < found[n]);
        a_match_is_a_finding(view, live, root, found[m]);
        a_match_is_a_finding(view, live, root, found[n]);
    }
}

/// Whether a `deny` rule denies `name`: it is one of the rule's names, or one of its globs
/// matches it.
pub open spec fn is_banned(kind: RuleKindView, name: Seq<char>) -> bool {
    kind->exact.contains(name) || exists|i: int|
        0 <= i < kind->globs.len() && glob_matches(#[trigger] kind->globs[i], name)
}

/// Whether the record of a failed rule names the rule: its identifier, package, kind and place.
pub open spec fn names_its_rule(violation: ViolationView, rule: RuleView) -> bool {
    &&& violation.rule_id == rule.id
    &&& violation.package == rule.package
    &&& violation.span == rule.span
    &&& violation.kind == word_of(rule.kind)
    &&& violation.features == match rule.features {
        Some((selection, _)) => if rule.kind is Direct || rule.kind is Sealed {
            None
        } else {
            Some(selection)
        },
        None => None,
    }
}

/// The key that a rule kind is written with.
pub open spec fn word_of(kind: RuleKindView) -> Seq<char> {
    match kind {
        RuleKindView::Deny { .. } => "deny"@,
        RuleKindView::Require(_) => "require"@,
        RuleKindView::Internal(_) => "internal"@,
        RuleKindView::Leaf => "leaf"@,
        RuleKindView::Direct(_) => "direct"@,
        RuleKindView::Sealed => "sealed"@,
    }
}

/// Every rule is recorded under its own identifier, package, kind and selection, and a rule that
/// failed leaves a record that names it; one that passed leaves none and counts nothing.
pub proof fn records_name_their_rules(view: GraphView, config: ConfigView, rule: RuleView)
    ensures
        ({
            let status = status_of(view, config, rule);
            let verdict = verdict_of(view, config, rule);
            &&& status.id == rule.id
            &&& status.package == Some(rule.package)
            &&& status.kind == word_of(rule.kind)
            &&& status.passed == verdict.passed
            &&& status.matched == verdict.matched
            &&& status.activation_pruned == verdict.pruned
            &&& verdict.passed ==> verdict.violation is None && verdict.matched == 0
            &&& !verdict.passed ==> verdict.violation is Some && names_its_rule(
                verdict.violation->0,
                rule,
            ) && verdict.violation->0.activation_pruned == verdict.pruned && status.features
                == verdict.violation->0.features
        }),
{
}

/// A rule on a package that is no member fails, and so does one whose closure cannot be decoded.
pub proof fn what_cannot_be_answered_fails(view: GraphView, config: ConfigView, rule: RuleView)
    requires
        root_of(view, rule.package) is None || (!(rule.kind is Direct) && !(rule.kind is Sealed)
            && !is_answerable(view, rule, root_of(view, rule.package)->0)),
    ensures
        !verdict_of(view, config, rule).passed,
{
}

/// A `deny` rule fails exactly when a package that is banned, and not called as the rule's own, is
/// reached; and then it reports every banned name that is reached, once, with a shortest path.
pub proof fn deny_reports_every_banned_name(
    view: GraphView,
    config: ConfigView,
    rule: RuleView,
    root: int,
)
    requires
        view.consistent(),
        root_of(view, rule.package) == Some(root),
        rule.kind is Deny,
        is_answerable(view, rule, root),
    ensures
        ({
            let verdict = verdict_of(view, config, rule);
            let live = edges_read(view, rule, root);
            let banned = |name: Seq<char>| is_banned(rule.kind, name);
            &&& verdict.passed <==> forall|node: int|
                0 <= node < view.meta.packages@.len() && #[trigger] is_reached(
                    view,
                    live,
                    root,
                    node,
                ) && called(view, node) != rule.package ==> !is_banned(
                    rule.kind,
                    called(view, node),
                )
            &&& !verdict.passed ==> {
                let said = verdict.violation->0;
                &&& said.matches.len() > 0
                &&& are_findings(view, live, root, said.matches, banned)
                &&& said.extra.len() == 0 && said.missing.len() == 0 && said.sealed_by.len() == 0
                &&& said.matches.len() <= u32::MAX ==> verdict.matched == said.matches.len()
            }
        }),
{
    let verdict = verdict_of(view, config, rule);
    let live = edges_read(view, rule, root);
    let banned = |name: Seq<char>| is_banned(rule.kind, name);
    let (exact, globs) = (rule.kind->exact, rule.kind->globs);
    let by_id = rules::is_denied(view, exact, globs);
    let trail = traversal(view.steps(live), root);
    let found = found_names(view, trail, root, by_id, view.names.len() as int);
    config::root_is_a_member(view, rule.package);
    matches_are_findings(view, live, root, by_id, banned);
    let findings = matches_of(view, trail, found);
    assert(verdict.passed == (found.len() == 0));
    if verdict.passed {
        assert forall|node: int|
            0 <= node < view.meta.packages@.len() && #[trigger] is_reached(view, live, root, node)
                && called(view, node) != rule.package implies !is_banned(
            rule.kind,
            called(view, node),
        ) by {
            if banned(called(view, node)) {
                let m = choose|m: int|
                    0 <= m < findings.len() && (#[trigger] findings[m]).name == called(view, node);
                assert(false);
            }
        }
    } else {
        assert(is_finding(view, live, root, findings[0]));
        let path = choose|path: Seq<int>|
            #![trigger shows(view, findings[0].witness, path)]
            is_shortest_to(view, live, root, findings[0].name, path) && shows(
                view,
                findings[0].witness,
                path,
            );
        let node = path[path.len() - 1];
        assert(leads_along(view, live, path, root, node));
        assert(is_reached(view, live, root, node));
        assert(banned(called(view, node)));
    }
}

/// Whether `name` satisfies a `require` pattern: it is that name, or the glob matches it.
pub open spec fn satisfies(pattern: PatternView, name: Seq<char>) -> bool {
    match pattern {
        PatternView::Exact(exact) => name == exact,
        PatternView::Glob(glob) => glob_matches(glob, name),
    }
}

/// Whether `root` reaches a package, not called as itself, whose name satisfies a pattern.
pub open spec fn is_satisfied(view: GraphView, live: Set<int>, root: int, pattern: PatternView) -> bool {
    exists|node: int|
        #![trigger is_reached(view, live, root, node)]
        0 <= node < view.meta.packages@.len() && is_reached(view, live, root, node) && called(
            view,
            node,
        ) != called(view, root) && satisfies(pattern, called(view, node))
}

proof fn met_is_satisfied(view: GraphView, live: Set<int>, root: int, pattern: PatternView)
    requires
        view.consistent(),
        0 <= root < view.count(),
    ensures
        is_met(view, traversal(view.steps(live), root), root, pattern) == is_satisfied(
            view,
            live,
            root,
            pattern,
        ),
{
    let steps = view.steps(live);
    let trail = traversal(steps, root);
    assert(view.names[view.name_of[root]] == view.name(root));
    if is_met(view, trail, root, pattern) {
        let id = choose|id: int|
            #![trigger view.names[id]]
            0 <= id < view.names.len() && names_node(trail.order, view.name_of, id) && id
                != view.name_of[root] && pattern.matches(view.names[id]);
        rules::found_names_are_reached(view, live, root, id);
        let node = choose|node: int|
            0 <= node < view.count() && #[trigger] steps.reaches(root, node) && view.name_of[node]
                == id;
        assert(view.names[view.name_of[node]] == view.name(node));
        reach_is_reach(view, live, root, node);
        assert(is_reached(view, live, root, node));
    }
    if is_satisfied(view, live, root, pattern) {
        let node = choose|node: int|
            #![trigger is_reached(view, live, root, node)]
            0 <= node < view.meta.packages@.len() && is_reached(view, live, root, node) && called(
                view,
                node,
            ) != called(view, root) && satisfies(pattern, called(view, node));
        let id = view.name_of[node];
        assert(view.names[id] == view.name(node));
        reach_is_reach(view, live, root, node);
        rules::found_names_are_reached(view, live, root, id);
        assert(rules::name_is_reached(view, steps, root, id));
    }
}

proof fn unmet_are_listed(
    view: GraphView,
    trail: Trail,
    root: int,
    patterns: Seq<PatternView>,
    upto: int,
    word: Seq<char>,
)
    requires
        0 <= upto <= patterns.len(),
    ensures
        unmet(view, trail, root, patterns, upto).contains(word) <==> exists|k: int|
            0 <= k < upto && !is_met(view, trail, root, #[trigger] patterns[k])
                && patterns[k].written() == word,
    decreases upto,
{
    if upto > 0 {
        unmet_are_listed(view, trail, root, patterns, upto - 1, word);
        let before = unmet(view, trail, root, patterns, upto - 1);
        super::policy::pushed_is_held(before, patterns[upto - 1].written(), word);
    }
}

proof fn unmet_are_there(
    view: GraphView,
    trail: Trail,
    root: int,
    patterns: Seq<PatternView>,
    upto: int,
)
    requires
        0 <= upto <= patterns.len(),
    ensures
        unmet(view, trail, root, patterns, upto).len() == 0 <==> forall|k: int|
            0 <= k < upto ==> is_met(view, trail, root, #[trigger] patterns[k]),
        unmet(view, trail, root, patterns, upto).len() <= upto,
    decreases upto,
{
    if upto > 0 {
        unmet_are_there(view, trail, root, patterns, upto - 1);
        if unmet(view, trail, root, patterns, upto).len() == 0 {
            assert(is_met(view, trail, root, patterns[upto - 1]));
        }
    }
}

/// A `require` rule passes exactly when each of its patterns is satisfied by a package that is
/// reached and not called as the rule's own; and when it fails it lists, as they were written,
/// the patterns that are not, and no others.
pub proof fn require_lists_what_is_not_met(
    view: GraphView,
    config: ConfigView,
    rule: RuleView,
    root: int,
    patterns: Seq<PatternView>,
)
    requires
        view.consistent(),
        root_of(view, rule.package) == Some(root),
        rule.kind == RuleKindView::Require(patterns),
        is_answerable(view, rule, root),
    ensures
        ({
            let verdict = verdict_of(view, config, rule);
            let live = edges_read(view, rule, root);
            &&& verdict.passed <==> forall|k: int|
                0 <= k < patterns.len() ==> is_satisfied(view, live, root, #[trigger] patterns[k])
            &&& verdict.matched == 0
            &&& !verdict.passed ==> {
                let said = verdict.violation->0;
                &&& said.missing.len() <= patterns.len()
                &&& forall|word: Seq<char>| #[trigger]
                    said.missing.contains(word) <==> exists|k: int|
                        0 <= k < patterns.len() && !is_satisfied(
                            view,
                            live,
                            root,
                            #[trigger] patterns[k],
                        ) && word == match patterns[k] {
                            PatternView::Exact(name) => name,
                            PatternView::Glob(glob) => glob,
                        }
                &&& said.matches.len() == 0 && said.extra.len() == 0 && said.sealed_by.len() == 0
            }
        }),
{
    let verdict = verdict_of(view, config, rule);
    let live = edges_read(view, rule, root);
    let trail = traversal(view.steps(live), root);
    let count = patterns.len() as int;
    config::root_is_a_member(view, rule.package);
    unmet_are_there(view, trail, root, patterns, count);
    assert forall|k: int| 0 <= k < count implies is_met(view, trail, root, #[trigger] patterns[k])
        == is_satisfied(view, live, root, patterns[k]) by {
        met_is_satisfied(view, live, root, patterns[k]);
    }
    if !verdict.passed {
        let said = verdict.violation->0;
        assert forall|word: Seq<char>| #[trigger]
            said.missing.contains(word) <==> exists|k: int|
                0 <= k < patterns.len() && !is_satisfied(view, live, root, #[trigger] patterns[k])
                    && word == match patterns[k] {
                    PatternView::Exact(name) => name,
                    PatternView::Glob(glob) => glob,
                } by {
            unmet_are_listed(view, trail, root, patterns, count, word);
        }
    }
}

/// Whether a name is internal: a workspace member is called so, where members count, or one of
/// the configured patterns matches it.
pub open spec fn is_ours(view: GraphView, config: ConfigView, name: Seq<char>) -> bool {
    ||| config.members && exists|i: int|
        0 <= i < view.members.len() && view.meta.packages@[#[trigger] view.members[i]].name@ == name
    ||| exists|i: int|
        0 <= i < config.patterns.len() && glob_matches(#[trigger] config.patterns[i], name)
}

proof fn internal_is_ours(view: GraphView, config: ConfigView, id: int)
    requires
        view.consistent(),
        0 <= id < view.names.len(),
    ensures
        rules::is_internal(view, config, id) == is_ours(view, config, view.names[id]),
{
    if config.members && exists|i: int|
        0 <= i < view.members.len() && view.name_of[#[trigger] view.members[i]] == id {
        let i = choose|i: int|
            0 <= i < view.members.len() && view.name_of[#[trigger] view.members[i]] == id;
        let node = view.members[i];
        assert(view.names[view.name_of[node]] == view.name(node));
    }
    if config.members && exists|i: int|
        0 <= i < view.members.len() && view.meta.packages@[#[trigger] view.members[i]].name@
            == view.names[id] {
        let i = choose|i: int|
            0 <= i < view.members.len() && view.meta.packages@[#[trigger] view.members[i]].name@
                == view.names[id];
        let node = view.members[i];
        assert(view.names[view.name_of[node]] == view.name(node));
        assert(view.name_of[node] == id);
    }
}

/// Whether `root` reaches an internal package called `name`, which is not its own name.
pub open spec fn reaches_ours(
    view: GraphView,
    config: ConfigView,
    live: Set<int>,
    root: int,
    name: Seq<char>,
) -> bool {
    name != called(view, root) && is_ours(view, config, name) && exists|node: int|
        #![trigger is_reached(view, live, root, node)]
        0 <= node < view.meta.packages@.len() && is_reached(view, live, root, node) && called(
            view,
            node,
        ) == name
}

proof fn internal_is_reached(
    view: GraphView,
    config: ConfigView,
    live: Set<int>,
    root: int,
    name: Seq<char>,
)
    requires
        view.consistent(),
        0 <= root < view.count(),
    ensures
        rules::has_internal(view, config, traversal(view.steps(live), root), root, name)
            == reaches_ours(view, config, live, root, name),
{
    let steps = view.steps(live);
    let trail = traversal(steps, root);
    assert(view.names[view.name_of[root]] == view.name(root));
    if rules::has_internal(view, config, trail, root, name) {
        let id = choose|id: int|
            #![trigger view.names[id]]
            0 <= id < view.names.len() && names_node(trail.order, view.name_of, id) && id
                != view.name_of[root] && rules::is_internal(view, config, id) && view.names[id]
                == name;
        internal_is_ours(view, config, id);
        rules::found_names_are_reached(view, live, root, id);
        let node = choose|node: int|
            0 <= node < view.count() && #[trigger] steps.reaches(root, node) && view.name_of[node]
                == id;
        assert(view.names[view.name_of[node]] == view.name(node));
        reach_is_reach(view, live, root, node);
        assert(is_reached(view, live, root, node));
    }
    if reaches_ours(view, config, live, root, name) {
        let node = choose|node: int|
            #![trigger is_reached(view, live, root, node)]
            0 <= node < view.meta.packages@.len() && is_reached(view, live, root, node) && called(
                view,
                node,
            ) == name;
        let id = view.name_of[node];
        assert(view.names[id] == view.name(node));
        internal_is_ours(view, config, id);
        reach_is_reach(view, live, root, node);
        rules::found_names_are_reached(view, live, root, id);
        assert(rules::name_is_reached(view, steps, root, id));
    }
}

proof fn absent_are_listed(
    expected: Seq<Seq<char>>,
    there: spec_fn(Seq<char>) -> bool,
    upto: int,
    word: Seq<char>,
)
    requires
        0 <= upto <= expected.len(),
    ensures
        absent(expected, there, upto).contains(word) <==> expected.take(upto).contains(word)
            && !there(word),
    decreases upto,
{
    if upto > 0 {
        absent_are_listed(expected, there, upto - 1, word);
        assert(expected.take(upto) =~= expected.take(upto - 1).push(expected[upto - 1]));
        super::policy::pushed_is_held(expected.take(upto - 1), expected[upto - 1], word);
        super::policy::pushed_is_held(
            absent(expected, there, upto - 1),
            expected[upto - 1],
            word,
        );
    }
}

/// The names that an `internal` or `leaf` rule expects: those it lists, or none.
pub open spec fn expected_by(kind: RuleKindView) -> Seq<Seq<char>> {
    match kind {
        RuleKindView::Internal(names) => names,
        _ => Seq::empty(),
    }
}

/// An `internal` rule passes exactly when the internal names that are reached, but for the rule's
/// own, are the ones it lists, and a `leaf` rule when there are none. One that fails reports every
/// internal name that is reached and not listed, once and with a shortest path, and every listed
/// name that is not reached.
pub proof fn internal_reports_every_difference(
    view: GraphView,
    config: ConfigView,
    rule: RuleView,
    root: int,
)
    requires
        view.consistent(),
        root_of(view, rule.package) == Some(root),
        rule.kind is Internal || rule.kind is Leaf,
        is_answerable(view, rule, root),
    ensures
        ({
            let verdict = verdict_of(view, config, rule);
            let live = edges_read(view, rule, root);
            let expected = expected_by(rule.kind);
            let extra = |name: Seq<char>| is_ours(view, config, name) && !expected.contains(name);
            &&& verdict.passed <==> forall|name: Seq<char>| #[trigger]
                expected.contains(name) <==> reaches_ours(view, config, live, root, name)
            &&& !verdict.passed ==> {
                let said = verdict.violation->0;
                &&& are_findings(view, live, root, said.extra, extra)
                &&& forall|name: Seq<char>| #[trigger]
                    said.missing.contains(name) <==> expected.contains(name) && !reaches_ours(
                        view,
                        config,
                        live,
                        root,
                        name,
                    )
                &&& said.matches.len() == 0 && said.sealed_by.len() == 0
                &&& said.extra.len() <= u32::MAX ==> verdict.matched == said.extra.len()
            }
        }),
{
    let verdict = verdict_of(view, config, rule);
    let live = edges_read(view, rule, root);
    let expected = expected_by(rule.kind);
    let extra = |name: Seq<char>| is_ours(view, config, name) && !expected.contains(name);
    let by_id = rules::is_unexpected(view, config, expected);
    let trail = traversal(view.steps(live), root);
    let there = |name: Seq<char>| rules::has_internal(view, config, trail, root, name);
    let count = expected.len() as int;
    let found = found_names(view, trail, root, by_id, view.names.len() as int);
    let findings = matches_of(view, trail, found);
    let missing = absent(expected, there, count);
    config::root_is_a_member(view, rule.package);
    assert forall|id: int| 0 <= id < view.names.len() implies #[trigger] by_id(id) == extra(
        view.names[id],
    ) by {
        internal_is_ours(view, config, id);
    }
    matches_are_findings(view, live, root, by_id, extra);
    assert(expected.take(count) =~= expected);
    assert forall|name: Seq<char>| #[trigger] missing.contains(name) <==> expected.contains(name)
        && !reaches_ours(view, config, live, root, name) by {
        absent_are_listed(expected, there, count, name);
        internal_is_reached(view, config, live, root, name);
    }
    assert(verdict.passed == (findings.len() == 0 && missing.len() == 0));
    if verdict.passed {
        assert forall|name: Seq<char>| #[trigger] expected.contains(name) <==> reaches_ours(
            view,
            config,
            live,
            root,
            name,
        ) by {
            assert(!missing.contains(name));
            if reaches_ours(view, config, live, root, name) && !expected.contains(name) {
                let node = choose|node: int|
                    #![trigger is_reached(view, live, root, node)]
                    0 <= node < view.meta.packages@.len() && is_reached(view, live, root, node)
                        && called(view, node) == name;
                assert(extra(called(view, node)));
                let m = choose|m: int|
                    0 <= m < findings.len() && (#[trigger] findings[m]).name == called(view, node);
                assert(false);
            }
        }
    } else if findings.len() > 0 {
        assert(is_finding(view, live, root, findings[0]));
        assert(extra(findings[0].name));
        let path = choose|path: Seq<int>|
            #![trigger shows(view, findings[0].witness, path)]
            is_shortest_to(view, live, root, findings[0].name, path) && shows(
                view,
                findings[0].witness,
                path,
            );
        let node = path[path.len() - 1];
        assert(leads_along(view, live, path, root, node));
        assert(is_reached(view, live, root, node));
        assert(reaches_ours(view, config, live, root, findings[0].name));
        assert(!expected.contains(findings[0].name));
    } else {
        assert(missing.contains(missing[0]));
        assert(expected.contains(missing[0]));
    }
}

/// Whether a normal edge leads from `root` to `node`.
pub open spec fn depends_on(view: GraphView, root: int, node: int) -> bool {
    exists|e: int|
        0 <= e < view.edges.len() && (#[trigger] view.edges[e]).from == root && view.edges[e].to
            == node
}

proof fn edges_out_are_those(edges: Seq<Edge>, node: int, upto: int, e: int)
    requires
        0 <= upto <= edges.len(),
    ensures
        edges_out(edges, node, upto).contains(e) <==> 0 <= e < upto && edges[e].from == node,
    decreases upto,
{
    if upto > 0 {
        edges_out_are_those(edges, node, upto - 1, e);
        super::policy::pushed_is_held(edges_out(edges, node, upto - 1), upto - 1, e);
    }
}

proof fn direct_are_those(view: GraphView, root: int, node: int)
    ensures
        view.direct(root).contains(node) <==> depends_on(view, root, node),
{
    let out = view.out(root);
    if view.direct(root).contains(node) {
        let i = choose|i: int| 0 <= i < view.direct(root).len() && view.direct(root)[i] == node;
        assert(out.contains(out[i]));
        edges_out_are_those(view.edges, root, view.edges.len() as int, out[i]);
        assert(view.edges[out[i]].to == node);
    }
    if depends_on(view, root, node) {
        let e = choose|e: int|
            0 <= e < view.edges.len() && (#[trigger] view.edges[e]).from == root
                && view.edges[e].to == node;
        edges_out_are_those(view.edges, root, view.edges.len() as int, e);
        let i = choose|i: int| 0 <= i < out.len() && out[i] == e;
        assert(view.direct(root)[i] == node);
    }
}

proof fn direct_named_are_those(view: GraphView, root: int, name: Seq<char>, upto: int, node: int)
    requires
        0 <= upto <= view.direct(root).len(),
    ensures
        rules::direct_named(view, root, name, upto).contains(node) <==> view.direct(root).take(
            upto,
        ).contains(node) && called(view, node) == name,
    decreases upto,
{
    if upto > 0 {
        direct_named_are_those(view, root, name, upto - 1, node);
        let last = view.direct(root)[upto - 1];
        assert(view.direct(root).take(upto) =~= view.direct(root).take(upto - 1).push(last));
        super::policy::pushed_is_held(view.direct(root).take(upto - 1), last, node);
        super::policy::pushed_is_held(
            rules::direct_named(view, root, name, upto - 1),
            last,
            node,
        );
    }
}

/// Whether `root` has a direct dependency called `name`.
pub open spec fn depends_on_name(view: GraphView, root: int, name: Seq<char>) -> bool {
    exists|node: int| #[trigger] depends_on(view, root, node) && called(view, node) == name
}

proof fn direct_names_are_those(view: GraphView, root: int, name: Seq<char>)
    ensures
        rules::direct_names(view, root, view.direct(root).len() as int).contains(name)
            <==> depends_on_name(view, root, name),
{
    let direct = view.direct(root);
    let there = rules::direct_names(view, root, direct.len() as int);
    if there.contains(name) {
        let i = choose|i: int| 0 <= i < there.len() && there[i] == name;
        assert(direct.contains(direct[i]));
        direct_are_those(view, root, direct[i]);
        assert(depends_on(view, root, direct[i]));
    }
    if depends_on_name(view, root, name) {
        let node = choose|node: int| #[trigger]
            depends_on(view, root, node) && called(view, node) == name;
        direct_are_those(view, root, node);
        let i = choose|i: int| 0 <= i < direct.len() && direct[i] == node;
        assert(there[i] == name);
    }
}

proof fn unexpected_are_listed(
    names: Seq<Seq<char>>,
    expected: Seq<Seq<char>>,
    upto: int,
    word: Seq<char>,
)
    requires
        0 <= upto <= names.len(),
    ensures
        unexpected(names, expected, upto).contains(word) <==> names.take(upto).contains(word)
            && !expected.contains(word),
    decreases upto,
{
    if upto > 0 {
        unexpected_are_listed(names, expected, upto - 1, word);
        assert(names.take(upto) =~= names.take(upto - 1).push(names[upto - 1]));
        super::policy::pushed_is_held(names.take(upto - 1), names[upto - 1], word);
        super::policy::pushed_is_held(
            unexpected(names, expected, upto - 1),
            names[upto - 1],
            word,
        );
    }
}

proof fn unexpected_ascend(names: Seq<Seq<char>>, expected: Seq<Seq<char>>, upto: int)
    requires
        0 <= upto <= names.len(),
        names::ascending(names),
    ensures
        names::ascending(unexpected(names, expected, upto)),
    decreases upto,
{
    if upto > 0 {
        unexpected_ascend(names, expected, upto - 1);
        let before = unexpected(names, expected, upto - 1);
        let now = unexpected(names, expected, upto);
        assert forall|i: int, j: int| 0 <= i < j < now.len() implies names::before(
            #[trigger] now[i],
            #[trigger] now[j],
        ) by {
            if j < before.len() {
                assert(names::before(before[i], before[j]));
            } else {
                unexpected_are_listed(names, expected, upto - 1, before[i]);
                assert(before.contains(before[i]));
                let taken = names.take(upto - 1);
                let k = choose|k: int| 0 <= k < taken.len() && taken[k] == before[i];
                assert(names::before(names[k], names[upto - 1]));
            }
        }
    }
}

/// Whether `found` tells the truth of a direct dependency: its version, the one hop to it, and the
/// versions of the others of that name.
pub open spec fn is_direct_finding(view: GraphView, root: int, found: MatchView) -> bool {
    exists|node: int|
        #![trigger depends_on(view, root, node)]
        {
            &&& depends_on(view, root, node)
            &&& called(view, node) == found.name
            &&& found.version == view.meta.packages@[node].version@
            &&& shows(view, found.witness, seq![root, node])
            &&& forall|other: int| #[trigger]
                depends_on(view, root, other) && called(view, other) == found.name && other != node
                    ==> found.other_versions.contains(view.meta.packages@[other].version@)
        }
}

proof fn a_direct_match_is_a_finding(view: GraphView, root: int, name: Seq<char>)
    requires
        depends_on_name(view, root, name),
    ensures
        is_direct_finding(view, root, rules::direct_match(view, root, name)),
{
    let direct = view.direct(root);
    let count = direct.len() as int;
    let nodes = rules::direct_named(view, root, name, count);
    let found = rules::direct_match(view, root, name);
    assert(direct.take(count) =~= direct);
    let some = choose|node: int| #[trigger]
        depends_on(view, root, node) && called(view, node) == name;
    direct_are_those(view, root, some);
    direct_named_are_those(view, root, name, count, some);
    let node = nodes[0];
    assert(nodes.contains(node));
    direct_named_are_those(view, root, name, count, node);
    direct_are_those(view, root, node);
    let path = seq![root, node];
    let e = choose|e: int|
        0 <= e < view.edges.len() && (#[trigger] view.edges[e]).from == root && view.edges[e].to
            == node;
    assert(leads_along(view, Set::full(), path, root, node)) by {
        assert forall|i: int| #![trigger path[i]] 0 <= i < path.len() - 1 implies exists|e: int|
            0 <= e < view.edges.len() && Set::<int>::full().contains(e) && (
            #[trigger] view.edges[e]).from == path[i] && view.edges[e].to == path[i + 1] by {
            assert(view.edges[e].from == path[i]);
        }
    }
    super::closure::hops_show_the_path(view, Set::full(), path, root, node);
    assert forall|other: int| #[trigger]
        depends_on(view, root, other) && called(view, other) == found.name && other
            != node implies found.other_versions.contains(view.meta.packages@[other].version@) by {
        direct_are_those(view, root, other);
        direct_named_are_those(view, root, name, count, other);
        let i = choose|i: int| 0 <= i < nodes.len() && nodes[i] == other;
        assert(nodes.skip(1)[i - 1] == other);
        assert(found.other_versions[i - 1] == view.meta.packages@[other].version@);
    }
    assert(depends_on(view, root, node));
}

/// A `direct` rule passes exactly when the names of the direct dependencies are the ones it lists.
/// One that fails reports every direct dependency that is not listed, in the order of the names
/// and each once, and every listed name that is none.
pub proof fn direct_reports_every_difference(
    view: GraphView,
    config: ConfigView,
    rule: RuleView,
    root: int,
    expected: Seq<Seq<char>>,
)
    requires
        root_of(view, rule.package) == Some(root),
        rule.kind == RuleKindView::Direct(expected),
    ensures
        ({
            let verdict = verdict_of(view, config, rule);
            &&& verdict.passed <==> forall|name: Seq<char>| #[trigger]
                expected.contains(name) <==> depends_on_name(view, root, name)
            &&& !verdict.passed ==> {
                let said = verdict.violation->0;
                &&& forall|m: int|
                    0 <= m < said.extra.len() ==> is_direct_finding(
                        view,
                        root,
                        #[trigger] said.extra[m],
                    ) && !expected.contains(said.extra[m].name)
                &&& forall|name: Seq<char>| #[trigger]
                    depends_on_name(view, root, name) && !expected.contains(name) ==> exists|m: int|
                        0 <= m < said.extra.len() && (#[trigger] said.extra[m]).name == name
                &&& forall|m: int, n: int|
                    0 <= m < n < said.extra.len() ==> names::before(
                        (#[trigger] said.extra[m]).name,
                        (#[trigger] said.extra[n]).name,
                    )
                &&& forall|name: Seq<char>| #[trigger]
                    said.missing.contains(name) <==> expected.contains(name) && !depends_on_name(
                        view,
                        root,
                        name,
                    )
                &&& said.matches.len() == 0 && said.sealed_by.len() == 0
                &&& said.extra.len() <= u32::MAX ==> verdict.matched == said.extra.len()
            }
        }),
{
    let verdict = verdict_of(view, config, rule);
    let there = rules::direct_names(view, root, view.direct(root).len() as int);
    let sorted = names::distinct(there);
    let extra = unexpected(sorted, expected, sorted.len() as int);
    let is_there = |name: Seq<char>| there.contains(name);
    let missing = absent(expected, is_there, expected.len() as int);
    names::distinct_is_ordered(there);
    unexpected_ascend(sorted, expected, sorted.len() as int);
    assert(sorted.take(sorted.len() as int) =~= sorted);
    assert(expected.take(expected.len() as int) =~= expected);
    assert forall|name: Seq<char>| #[trigger] extra.contains(name) <==> depends_on_name(
        view,
        root,
        name,
    ) && !expected.contains(name) by {
        unexpected_are_listed(sorted, expected, sorted.len() as int, name);
        direct_names_are_those(view, root, name);
        assert(sorted.contains(name) <==> there.contains(name));
    }
    assert forall|name: Seq<char>| #[trigger] missing.contains(name) <==> expected.contains(name)
        && !depends_on_name(view, root, name) by {
        absent_are_listed(expected, is_there, expected.len() as int, name);
        direct_names_are_those(view, root, name);
    }
    assert(verdict.passed == (extra.len() == 0 && missing.len() == 0));
    if verdict.passed {
        assert forall|name: Seq<char>| #[trigger] expected.contains(name) <==> depends_on_name(
            view,
            root,
            name,
        ) by {
            assert(!missing.contains(name));
            assert(!extra.contains(name));
        }
    } else {
        if extra.len() > 0 {
            assert(extra.contains(extra[0]));
            assert(!expected.contains(extra[0]));
        } else {
            assert(missing.contains(missing[0]));
            assert(expected.contains(missing[0]));
        }
        let said = verdict.violation->0;
        assert forall|m: int| 0 <= m < said.extra.len() implies is_direct_finding(
            view,
            root,
            #[trigger] said.extra[m],
        ) && !expected.contains(said.extra[m].name) by {
            assert(extra.contains(extra[m]));
            a_direct_match_is_a_finding(view, root, extra[m]);
        }
        assert forall|name: Seq<char>| #[trigger]
            depends_on_name(view, root, name) && !expected.contains(name) implies exists|m: int|
            0 <= m < said.extra.len() && (#[trigger] said.extra[m]).name == name by {
            assert(extra.contains(name));
            let m = choose|m: int| 0 <= m < extra.len() && extra[m] == name;
            assert(said.extra[m].name == name);
        }
        assert forall|m: int, n: int| 0 <= m < n < said.extra.len() implies names::before(
            (#[trigger] said.extra[m]).name,
            (#[trigger] said.extra[n]).name,
        ) by {
            assert(names::before(extra[m], extra[n]));
        }
    }
}

/// Whether `path` leads from one package to another over the normal edges, and no path between
/// the two is shorter.
pub open spec fn is_shortest_between(view: GraphView, path: Seq<int>, from: int, to: int) -> bool {
    &&& leads_along(view, Set::full(), path, from, to)
    &&& forall|other: Seq<int>| #[trigger]
        leads_along(view, Set::full(), other, from, to) ==> path.len() <= other.len()
}

proof fn sealing_paths_are_shortest(view: GraphView, root: int, member: int)
    requires
        view.consistent(),
        0 <= root < view.count(),
        traversal(view.backward(), root).order.contains(member),
    ensures
        ({
            let path = witness(traversal(view.backward(), root), Direction::Reverse, member);
            &&& is_shortest_between(view, path, member, root)
            &&& shows(view, hops_of(view, path), path)
        }),
{
    let forward = view.forward();
    let steps = view.backward();
    let trail = traversal(steps, root);
    assert(steps.bounded()) by {
        assert forall|edge: int| 0 <= edge < steps.edges.len() implies 0 <= (
        #[trigger] steps.edges[edge]).0 < steps.nodes && 0 <= steps.edges[edge].1 < steps.nodes by {
            assert(0 <= view.edges[edge].from < view.count());
        }
    }
    paths::traversal_exists(steps, root);
    let at = position(trail, member);
    paths::trail_path_leads(steps, root, trail, at);
    let back = paths::trail_path(trail, at);
    paths::reversed_path_leads(steps, back, root, member);
    assert(paths::reversed(steps).edges =~= forward.edges);
    assert(paths::reversed(steps) =~= forward);
    let path = back.reverse();
    paths_are_paths(view, Set::full(), path, member, root);
    super::closure::hops_show_the_path(view, Set::full(), path, member, root);
    assert forall|other: Seq<int>| #[trigger]
        leads_along(view, Set::full(), other, member, root) implies path.len() <= other.len() by {
        paths_are_paths(view, Set::full(), other, member, root);
        paths::reversed_path_leads(forward, other, member, root);
        paths::trail_path_is_shortest(steps, root, trail, member, other.reverse());
    }
}

/// A `sealed` rule passes exactly when no other member reaches the package. One that fails has an
/// entry for each member that does, with a shortest path from it, and no other entry.
pub proof fn sealed_reports_every_member(
    view: GraphView,
    config: ConfigView,
    rule: RuleView,
    root: int,
)
    requires
        view.consistent(),
        root_of(view, rule.package) == Some(root),
        rule.kind is Sealed,
    ensures
        ({
            let verdict = verdict_of(view, config, rule);
            &&& verdict.passed <==> forall|k: int|
                0 <= k < view.members.len() && (#[trigger] view.members[k]) != root ==> !is_reached(
                    view,
                    Set::full(),
                    view.members[k],
                    root,
                )
            &&& !verdict.passed ==> {
                let said = verdict.violation->0;
                &&& forall|s: int|
                    0 <= s < said.sealed_by.len() ==> exists|member: int, path: Seq<int>|
                        #![trigger is_shortest_between(view, path, member, root)]
                        view.members.contains(member) && member != root && called(view, member) == (
                        #[trigger] said.sealed_by[s]).member && is_shortest_between(
                            view,
                            path,
                            member,
                            root,
                        ) && shows(view, said.sealed_by[s].witness, path)
                &&& forall|k: int|
                    0 <= k < view.members.len() && (#[trigger] view.members[k]) != root
                        && is_reached(view, Set::full(), view.members[k], root) ==> exists|s: int|
                        0 <= s < said.sealed_by.len() && (#[trigger] said.sealed_by[s]).member
                            == called(view, view.members[k])
                &&& said.matches.len() == 0 && said.extra.len() == 0 && said.missing.len() == 0
                &&& said.sealed_by.len() <= u32::MAX ==> verdict.matched == said.sealed_by.len()
            }
        }),
{
    let verdict = verdict_of(view, config, rule);
    config::root_is_a_member(view, rule.package);
    let trail = traversal(view.backward(), root);
    let found = members_found(trail.order, view.members, root, view.count());
    rules::members_found_hold(trail.order, view.members, root, view.count());
    rules::sealed_passes_when_no_member_depends(view, config, rule, root);
    assert forall|k: int| 0 <= k < view.members.len() implies (is_reached(
        view,
        Set::full(),
        #[trigger] view.members[k],
        root,
    ) <==> trail.order.contains(view.members[k])) by {
        let member = view.members[k];
        let steps = view.backward();
        assert(steps.bounded()) by {
            assert forall|edge: int| 0 <= edge < steps.edges.len() implies 0 <= (
            #[trigger] steps.edges[edge]).0 < steps.nodes && 0 <= steps.edges[edge].1
                < steps.nodes by {
                assert(0 <= view.edges[edge].from < view.count());
            }
        }
        paths::traversal_exists(steps, root);
        reach_is_reach(view, Set::full(), member, root);
        paths::reversing_steps_reverses_reach(view.forward(), member, root);
        paths::traversal_finds_what_is_reached(steps, root, trail, member);
    }
    if verdict.passed {
        assert forall|k: int|
            0 <= k < view.members.len() && (#[trigger] view.members[k]) != root implies !is_reached(
            view,
            Set::full(),
            view.members[k],
            root,
        ) by {
            assert(view.members.contains(view.members[k]));
            reach_is_reach(view, Set::full(), view.members[k], root);
        }
    } else {
        let said = verdict.violation->0;
        assert(found.len() > 0);
        assert(found.contains(found[0]));
        let k = choose|k: int| 0 <= k < view.members.len() && view.members[k] == found[0];
        assert(view.members[k] != root);
        assert forall|s: int| 0 <= s < said.sealed_by.len() implies exists|
            member: int,
            path: Seq<int>,
        |
            #![trigger is_shortest_between(view, path, member, root)]
            view.members.contains(member) && member != root && called(view, member) == (
            #[trigger] said.sealed_by[s]).member && is_shortest_between(view, path, member, root)
                && shows(view, said.sealed_by[s].witness, path) by {
            let member = found[s];
            assert(found.contains(member));
            sealing_paths_are_shortest(view, root, member);
            let path = witness(trail, Direction::Reverse, member);
            assert(is_shortest_between(view, path, member, root));
        }
        assert forall|k: int|
            0 <= k < view.members.len() && (#[trigger] view.members[k]) != root && is_reached(
                view,
                Set::full(),
                view.members[k],
                root,
            ) implies exists|s: int|
            0 <= s < said.sealed_by.len() && (#[trigger] said.sealed_by[s]).member == called(
                view,
                view.members[k],
            ) by {
            let member = view.members[k];
            assert(view.members.contains(member));
            assert(0 <= view.members[k] < view.count());
            assert(found.contains(member));
            let s = choose|s: int| 0 <= s < found.len() && found[s] == member;
            assert(said.sealed_by[s].member == called(view, member));
        }
    }
}

/// A rule that narrows its closure reports the names that the unified closure reaches and the
/// narrowed one does not, in order and each once; any other rule reports none.
pub proof fn pruned_names_are_no_longer_reached(
    view: GraphView,
    config: ConfigView,
    rule: RuleView,
    root: int,
)
    requires
        view.consistent(),
        root_of(view, rule.package) == Some(root),
        is_answerable(view, rule, root),
    ensures
        ({
            let pruned = verdict_of(view, config, rule).pruned;
            let narrows = rule.features is Some && !(rule.kind is Direct) && !(rule.kind is Sealed);
            &&& !narrows ==> pruned.len() == 0
            &&& narrows ==> forall|name: Seq<char>| #[trigger]
                pruned.contains(name) <==> {
                    &&& exists|node: int|
                        #![trigger is_reached(view, Set::full(), root, node)]
                        0 <= node < view.meta.packages@.len() && called(view, node) == name
                            && is_reached(view, Set::full(), root, node)
                    &&& forall|node: int| #[trigger]
                        is_reached(view, edges_read(view, rule, root), root, node) && 0 <= node
                            < view.meta.packages@.len() ==> called(view, node) != name
                }
            &&& forall|i: int, j: int|
                0 <= i < j < pruned.len() ==> names::before(
                    #[trigger] pruned[i],
                    #[trigger] pruned[j],
                )
        }),
{
    let pruned = verdict_of(view, config, rule).pruned;
    let narrows = rule.features is Some && !(rule.kind is Direct) && !(rule.kind is Sealed);
    config::root_is_a_member(view, rule.package);
    if narrows {
        let selection = (rule.features->0).0;
        let live = edges_read(view, rule, root);
        let wide = rules::unified_closure(view, root);
        let narrow = rules::narrowed_closure(view, root, selection);
        rules::pruned_names_are_the_difference(view, root, selection);
        assert forall|name: Seq<char>| #[trigger] pruned.contains(name) <==> {
            &&& exists|node: int|
                #![trigger is_reached(view, Set::full(), root, node)]
                0 <= node < view.meta.packages@.len() && called(view, node) == name && is_reached(
                    view,
                    Set::full(),
                    root,
                    node,
                )
            &&& forall|node: int| #[trigger]
                is_reached(view, live, root, node) && 0 <= node < view.meta.packages@.len()
                    ==> called(view, node) != name
        } by {
            name_is_named(view, Set::full(), root, name);
            name_is_named(view, live, root, name);
            if pruned.contains(name) {
                let id = choose|id: int|
                    #![trigger view.names[id]]
                    0 <= id < view.names.len() && view.names[id] == name && names_node(
                        wide.order,
                        view.name_of,
                        id,
                    ) && !names_node(narrow.order, view.name_of, id);
                assert(found_called(view, wide, name));
                if found_called(view, narrow, name) {
                    let other = choose|other: int|
                        #![trigger view.names[other]]
                        0 <= other < view.names.len() && view.names[other] == name && names_node(
                            narrow.order,
                            view.name_of,
                            other,
                        );
                    assert(other == id);
                }
            }
            if found_called(view, wide, name) && !found_called(view, narrow, name) {
                let id = choose|id: int|
                    #![trigger view.names[id]]
                    0 <= id < view.names.len() && view.names[id] == name && names_node(
                        wide.order,
                        view.name_of,
                        id,
                    );
                assert(!names_node(narrow.order, view.name_of, id));
            }
        }
    }
}

/// Whether a traversal found a package called `name`.
spec fn found_called(view: GraphView, trail: Trail, name: Seq<char>) -> bool {
    exists|id: int|
        #![trigger view.names[id]]
        0 <= id < view.names.len() && view.names[id] == name && names_node(
            trail.order,
            view.name_of,
            id,
        )
}

proof fn name_is_named(view: GraphView, live: Set<int>, root: int, name: Seq<char>)
    requires
        view.consistent(),
        0 <= root < view.count(),
    ensures
        found_called(view, traversal(view.steps(live), root), name) <==> exists|node: int|
            #![trigger is_reached(view, live, root, node)]
            0 <= node < view.meta.packages@.len() && called(view, node) == name && is_reached(
                view,
                live,
                root,
                node,
            ),
{
    let steps = view.steps(live);
    let trail = traversal(steps, root);
    if found_called(view, trail, name) {
        let id = choose|id: int|
            #![trigger view.names[id]]
            0 <= id < view.names.len() && view.names[id] == name && names_node(
                trail.order,
                view.name_of,
                id,
            );
        rules::found_names_are_reached(view, live, root, id);
        let node = choose|node: int|
            0 <= node < view.count() && #[trigger] steps.reaches(root, node) && view.name_of[node]
                == id;
        assert(view.names[view.name_of[node]] == view.name(node));
        reach_is_reach(view, live, root, node);
        assert(is_reached(view, live, root, node));
    }
    if exists|node: int|
        #![trigger is_reached(view, live, root, node)]
        0 <= node < view.meta.packages@.len() && called(view, node) == name && is_reached(
            view,
            live,
            root,
            node,
        ) {
        let node = choose|node: int|
            #![trigger is_reached(view, live, root, node)]
            0 <= node < view.meta.packages@.len() && called(view, node) == name && is_reached(
                view,
                live,
                root,
                node,
            );
        let id = view.name_of[node];
        assert(view.names[id] == view.name(node));
        reach_is_reach(view, live, root, node);
        rules::found_names_are_reached(view, live, root, id);
        assert(rules::name_is_reached(view, steps, root, id));
    }
}

} // verus!
