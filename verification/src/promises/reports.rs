//! What a report tells its reader.

use super::policy::pushed_is_held;
use crate::cli::{explain_hops, explain_line, format_of};
use crate::config::ConfigView;
use crate::error::{exit_code_of, ErrorView};
use crate::graph::GraphView;
use crate::manifest::ReportView;
use crate::pipeline::{
    failed_below, members_of, outcome_of, version_named, ExplainView, OutcomeView, PlanView,
};
use crate::report::github::{
    all_annotations, annotation_lines, entry_annotation, graph_annotations, AnnotationView,
};
use crate::report::human::{
    consumer_line, denied_line, each_item_is_written, evidence_lines, extra_line, human_text,
    missing_line, plain_witness_text, status_text, summary_text, versioned_hop, witness_text,
};
use crate::report::json::{
    rule_records, status_records, violation_records, FindingView, SpelledView,
};
use crate::report::{evidence_below, evidence_of, written, Format};
use crate::rules::{failures_below, verdict_of, HopView, StatusView, ViolationView};
use crate::text::decimal;
use vstd::prelude::*;

verus! {

/// Whether `part` stands somewhere in `text`.
pub open spec fn says(text: Seq<char>, part: Seq<char>) -> bool {
    exists|before: Seq<char>, after: Seq<char>| text == #[trigger] (before + part + after)
}

pub(crate) proof fn saying_goes_through(text: Seq<char>, part: Seq<char>, inner: Seq<char>)
    requires
        says(text, part),
        says(part, inner),
    ensures
        says(text, inner),
{
    let (a, b) = choose|a: Seq<char>, b: Seq<char>| text == #[trigger] (a + part + b);
    let (c, d) = choose|c: Seq<char>, d: Seq<char>| part == #[trigger] (c + inner + d);
    assert(text =~= (a + c) + inner + (d + b));
}

pub(crate) proof fn says_its_parts(a: Seq<char>, b: Seq<char>, c: Seq<char>)
    ensures
        says(a + b + c, b),
        says(a + b, a),
        says(a + b, b),
{
    let none = Seq::<char>::empty();
    assert(a + b + c == a + b + c);
    assert(a + b =~= none + a + b);
    assert(a + b =~= a + b + none);
}

proof fn written_items_are_said<T>(items: Seq<T>, write: spec_fn(T) -> Seq<char>, at: int)
    requires
        0 <= at < items.len(),
    ensures
        says(written(items, write), write(items[at])),
{
    let around = each_item_is_written(items, write, at, items.len() as int);
    assert(written(items, write) == around.0 + write(items[at]) + around.1);
}

/// A witness names the package it starts from and every hop of the path, with its version, and it
/// names them in the order of the path.
pub proof fn witnesses_name_every_hop(
    root: Seq<char>,
    version: Option<Seq<char>>,
    hops: Seq<HopView>,
    others: Seq<Seq<char>>,
    at: int,
)
    requires
        0 <= at < hops.len(),
    ensures
        ({
            let text = witness_text(root, version, hops, others);
            let named = " \u{2192} "@ + hops[at].name + " v"@ + hops[at].version;
            &&& says(text, named)
            &&& root.len() <= text.len() && text.take(root.len() as int) == root
            &&& hops[at].target matches Some(target) ==> says(text, " ["@ + target + "]"@)
        }),
{
    let text = witness_text(root, version, hops, others);
    let start = crate::report::human::start_of(root, version);
    let middle = written(hops, versioned_hop());
    let tail = crate::report::human::others_note(others);
    let hop = hops[at];
    let named = " \u{2192} "@ + hop.name + " v"@ + hop.version;
    let note = crate::report::human::hop_note(hop);
    says_its_parts(start, middle, tail);
    written_items_are_said(hops, versioned_hop(), at);
    saying_goes_through(text, middle, versioned_hop()(hop));
    says_its_parts(named, note, Seq::empty());
    assert(versioned_hop()(hop) == named + note);
    saying_goes_through(text, versioned_hop()(hop), named);
    assert(text.take(root.len() as int) =~= root);
    if let Some(target) = hop.target {
        saying_goes_through(text, versioned_hop()(hop), note);
        let mark = " ["@ + target + "]"@;
        let rest = if hop.optional {
            " (optional; present via workspace feature unification)"@
        } else {
            Seq::empty()
        };
        assert(note == mark + rest);
        says_its_parts(mark, rest, Seq::empty());
        saying_goes_through(text, note, mark);
    }
}

/// The answer to a query is a line: the path, package by package, or that there is none.
pub proof fn answers_are_told(answer: ExplainView)
    ensures
        !answer.reachable ==> explain_line(answer) == "not reachable"@ + "\n"@
            && explain_hops(answer).len() == 0,
        answer.reachable ==> {
            let hops = explain_hops(answer);
            &&& says(explain_line(answer), answer.root + " v"@ + answer.root_version)
            &&& forall|i: int|
                0 <= i < answer.path.len() ==> says(
                    explain_line(answer),
                    " \u{2192} "@ + (#[trigger] answer.path[i]).name + " v"@
                        + answer.path[i].version,
                )
            &&& hops.len() == answer.path.len() + 1
            &&& hops[0].name == answer.root
            &&& hops[0].version == answer.root_version
            &&& forall|i: int|
                0 <= i < answer.path.len() ==> hops[i + 1] == #[trigger] answer.path[i]
        },
{
    if answer.reachable {
        let none = Seq::<Seq<char>>::empty();
        let text = witness_text(answer.root, Some(answer.root_version), answer.path, none);
        let line = explain_line(answer);
        says_its_parts(text, "\n"@, Seq::empty());
        let start = answer.root + " v"@ + answer.root_version;
        let middle = written(answer.path, versioned_hop());
        let tail = crate::report::human::others_note(none);
        assert(text == start + middle + tail);
        assert(text =~= Seq::<char>::empty() + start + (middle + tail));
        assert(says(text, start));
        saying_goes_through(line, text, start);
        assert forall|i: int| 0 <= i < answer.path.len() implies says(
            line,
            " \u{2192} "@ + (#[trigger] answer.path[i]).name + " v"@ + answer.path[i].version,
        ) by {
            witnesses_name_every_hop(
                answer.root,
                Some(answer.root_version),
                answer.path,
                none,
                i,
            );
            saying_goes_through(
                line,
                text,
                " \u{2192} "@ + answer.path[i].name + " v"@ + answer.path[i].version,
            );
        }
    }
}

proof fn evidence_is_of_its_rule(violations: Seq<ViolationView>, id: Seq<char>, upto: int)
    requires
        0 <= upto <= violations.len(),
    ensures
        match evidence_below(violations, id, upto) {
            Some(violation) => violation.rule_id == id && violations.contains(violation),
            None => forall|i: int| 0 <= i < upto ==> (#[trigger] violations[i]).rule_id != id,
        },
    decreases upto,
{
    if upto > 0 {
        evidence_is_of_its_rule(violations, id, upto - 1);
        assert(violations.contains(violations[upto - 1]));
    }
}

/// A finding is paired with the evidence of its own rule.
pub proof fn findings_show_their_own_evidence(violations: Seq<ViolationView>, id: Seq<char>)
    ensures
        match evidence_of(violations, id) {
            Some(violation) => violation.rule_id == id && violations.contains(violation),
            None => forall|i: int|
                0 <= i < violations.len() ==> (#[trigger] violations[i]).rule_id != id,
        },
{
    evidence_is_of_its_rule(violations, id, violations.len() as int);
}

proof fn violations_are_kept(view: GraphView, config: ConfigView, r: int, upto: int)
    requires
        0 <= r < upto <= config.rules.len(),
        verdict_of(view, config, config.rules[r]).violation is Some,
    ensures
        failures_below(view, config, upto).contains(
            verdict_of(view, config, config.rules[r]).violation->0,
        ),
    decreases upto,
{
    let last = verdict_of(view, config, config.rules[upto - 1]).violation;
    let before = failures_below(view, config, upto - 1);
    if r < upto - 1 {
        violations_are_kept(view, config, r, upto - 1);
    }
    if let Some(violation) = last {
        pushed_is_held(before, violation, verdict_of(view, config, config.rules[r]).violation->0);
    }
}

/// The evidence of every rule that failed is among the findings of the check.
pub proof fn no_evidence_is_lost(
    view: GraphView,
    plan: PlanView,
    report: Option<ReportView>,
    r: int,
)
    requires
        0 <= r < plan.config.rules.len(),
        !verdict_of(view, plan.config, plan.config.rules[r]).passed,
    ensures
        verdict_of(view, plan.config, plan.config.rules[r]).violation is Some,
        outcome_of(view, plan, report).violations.contains(
            verdict_of(view, plan.config, plan.config.rules[r]).violation->0,
        ),
{
    crate::rules::rules_fail_with_evidence(view, plan.config, plan.config.rules[r]);
    violations_are_kept(view, plan.config, r, plan.config.rules.len() as int);
}

/// Whether the lines of a violation tell all of its evidence: each denied package by its path,
/// each unexpected one by its name, what is missing, and the members that consume it.
pub open spec fn tells_the_evidence(
    text: Seq<char>,
    violation: ViolationView,
    version: Option<Seq<char>>,
) -> bool {
    let root = violation.package;
    &&& violation.kind == "deny"@ ==> forall|m: int|
        0 <= m < violation.matches.len() ==> says(
            text,
            "  "@ + witness_text(
                root,
                version,
                (#[trigger] violation.matches[m]).witness,
                violation.matches[m].other_versions,
            ) + "\n"@,
        )
    &&& violation.kind == "internal"@ || violation.kind == "leaf"@ || violation.kind == "direct"@
        ==> {
        &&& forall|m: int|
            0 <= m < violation.extra.len() ==> says(
                text,
                "  +"@ + (#[trigger] violation.extra[m]).name + " (via "@ + witness_text(
                    root,
                    version,
                    violation.extra[m].witness,
                    violation.extra[m].other_versions,
                ) + ")\n"@,
            )
        &&& forall|m: int|
            0 <= m < violation.missing.len() ==> says(
                text,
                "  -"@ + (#[trigger] violation.missing[m]) + "\n"@,
            )
    }
    &&& violation.kind == "require"@ ==> forall|m: int|
        0 <= m < violation.missing.len() ==> says(
            text,
            "  -"@ + (#[trigger] violation.missing[m]) + "\n"@,
        )
    &&& violation.kind == "sealed"@ ==> forall|m: int|
        0 <= m < violation.sealed_by.len() ==> says(
            text,
            "  consumed by: "@ + (#[trigger] violation.sealed_by[m]).member + " ("@
                + plain_witness_text(
                violation.sealed_by[m].member,
                violation.sealed_by[m].witness,
            ) + ")\n"@,
        )
}

proof fn kinds_differ()
    ensures
        "deny"@ != "internal"@,
        "deny"@ != "leaf"@,
        "deny"@ != "direct"@,
        "deny"@ != "require"@,
        "deny"@ != "sealed"@,
        "internal"@ != "require"@,
        "internal"@ != "sealed"@,
        "leaf"@ != "require"@,
        "leaf"@ != "sealed"@,
        "direct"@ != "require"@,
        "direct"@ != "sealed"@,
        "require"@ != "sealed"@,
        "manifest"@ != "deny"@,
{
    reveal_strlit("deny");
    reveal_strlit("internal");
    reveal_strlit("leaf");
    reveal_strlit("direct");
    reveal_strlit("require");
    reveal_strlit("sealed");
    reveal_strlit("manifest");
    assert("deny"@[1] == 'e' && "direct"@[1] == 'i');
    assert("deny"@[0] == 'd' && "internal"@[0] == 'i' && "leaf"@[0] == 'l' && "direct"@[0] == 'd'
        && "require"@[0] == 'r' && "sealed"@[0] == 's' && "manifest"@[0] == 'm');
}

proof fn evidence_is_told(violation: ViolationView, version: Option<Seq<char>>)
    ensures
        tells_the_evidence(evidence_lines(violation, version), violation, version),
{
    let root = violation.package;
    let text = evidence_lines(violation, version);
    kinds_differ();
    assert forall|m: int| 0 <= m < violation.matches.len() implies says(
        written(violation.matches, denied_line(root, version)),
        "  "@ + witness_text(
            root,
            version,
            (#[trigger] violation.matches[m]).witness,
            violation.matches[m].other_versions,
        ) + "\n"@,
    ) by {
        written_items_are_said(violation.matches, denied_line(root, version), m);
    }
    let extra = written(violation.extra, extra_line(root, version));
    let missing = written(violation.missing, missing_line());
    says_its_parts(extra, missing, Seq::empty());
    assert forall|m: int| 0 <= m < violation.extra.len() implies says(
        extra + missing,
        "  +"@ + (#[trigger] violation.extra[m]).name + " (via "@ + witness_text(
            root,
            version,
            violation.extra[m].witness,
            violation.extra[m].other_versions,
        ) + ")\n"@,
    ) by {
        written_items_are_said(violation.extra, extra_line(root, version), m);
        saying_goes_through(
            extra + missing,
            extra,
            extra_line(root, version)(violation.extra[m]),
        );
    }
    assert forall|m: int| 0 <= m < violation.missing.len() implies says(
        missing,
        "  -"@ + (#[trigger] violation.missing[m]) + "\n"@,
    ) && says(extra + missing, "  -"@ + violation.missing[m] + "\n"@) by {
        written_items_are_said(violation.missing, missing_line(), m);
        saying_goes_through(extra + missing, missing, missing_line()(violation.missing[m]));
    }
    assert forall|m: int| 0 <= m < violation.sealed_by.len() implies says(
        written(violation.sealed_by, consumer_line()),
        "  consumed by: "@ + (#[trigger] violation.sealed_by[m]).member + " ("@
            + plain_witness_text(violation.sealed_by[m].member, violation.sealed_by[m].witness)
            + ")\n"@,
    ) by {
        written_items_are_said(violation.sealed_by, consumer_line(), m);
    }
}

/// The report of a check lists a rule that passed as such, under its identifier, and of one that
/// failed it tells all the evidence.
pub proof fn reports_tell_everything(
    outcome: OutcomeView,
    sources: Seq<(Seq<char>, Seq<char>)>,
    at: int,
)
    requires
        0 <= at < outcome.statuses.len(),
        outcome.statuses[at].kind != "manifest"@,
    ensures
        ({
            let text = human_text(outcome, sources, false);
            let status = outcome.statuses[at];
            &&& status.passed ==> says(text, "ok "@ + status.id)
            &&& !status.passed && evidence_of(outcome.violations, status.id) is Some ==> {
                let violation = evidence_of(outcome.violations, status.id)->0;
                exists|told: Seq<char>, version: Option<Seq<char>>|
                    says(text, told) && #[trigger] tells_the_evidence(told, violation, version)
            }
        }),
{
    let text = human_text(outcome, sources, false);
    let status = outcome.statuses[at];
    let around = crate::report::human::every_rule_is_listed(outcome, sources, false, at);
    let said = status_text(outcome, sources, false)(status);
    assert(says(text, said));
    if status.passed {
        let line = "ok "@ + status.id;
        let note = crate::report::human::closure_note(status);
        assert(said =~= Seq::<char>::empty() + line + (note + "\n"@));
        assert(says(said, line));
        saying_goes_through(text, said, line);
    } else if evidence_of(outcome.violations, status.id) is Some {
        let violation = evidence_of(outcome.violations, status.id)->0;
        let version = version_named(
            outcome.member_versions,
            violation.package,
            outcome.member_versions.len() as int,
        );
        let lines = evidence_lines(violation, version);
        evidence_is_told(violation, version);
        let head = crate::report::human::finding_text(
            crate::report::source_at(sources, violation.span.0),
            violation.span.1,
            violation.span.2,
            None,
            crate::files::shown(violation.span.0, outcome.workspace_root),
            status.id,
            crate::report::human::label_of(status, Some(violation)),
            false,
        );
        assert(said == head + lines);
        says_its_parts(head, lines, Seq::empty());
        saying_goes_through(text, said, lines);
        assert(tells_the_evidence(lines, violation, version));
    }
}

/// The last line of a report says whether the check passed, and counts rules and violations.
pub proof fn reports_end_with_the_count(outcome: OutcomeView, sources: Seq<(Seq<char>, Seq<char>)>, color: bool)
    ensures
        ({
            let text = human_text(outcome, sources, color);
            let last = (if outcome.counters.violations == 0 {
                "ok"@
            } else {
                "FAIL"@
            }) + ": "@ + decimal(outcome.counters.rules as nat) + " rules, "@ + decimal(
                outcome.counters.violations as nat,
            ) + " violations\n"@;
            &&& last.len() <= text.len()
            &&& text.skip(text.len() - last.len()) == last
        }),
{
    let text = human_text(outcome, sources, color);
    let last = summary_text(outcome.counters.rules, outcome.counters.violations);
    assert(text.skip(text.len() - last.len()) =~= last);
}

proof fn failures_are_few(statuses: Seq<StatusView>, upto: int)
    requires
        0 <= upto <= statuses.len(),
    ensures
        failed_below(statuses, upto) == statuses.take(upto).filter(
            |status: StatusView| !status.passed,
        ).len(),
    decreases upto,
{
    reveal(Seq::filter);
    if upto > 0 {
        failures_are_few(statuses, upto - 1);
        assert(statuses.take(upto).drop_last() =~= statuses.take(upto - 1));
        assert(statuses.take(upto).last() == statuses[upto - 1]);
    }
}

/// The counters count what there is: packages, members, edges and names of the graph, the rules
/// that were answered and those of them that failed.
pub proof fn counters_count_what_there_is(
    view: GraphView,
    plan: PlanView,
    report: Option<ReportView>,
)
    requires
        view.consistent(),
        view.members.len() <= u32::MAX,
    ensures
        ({
            let outcome = outcome_of(view, plan, report);
            let failed = outcome.statuses.filter(|status: StatusView| !status.passed).len();
            &&& outcome.counters.packages == view.meta.packages@.len()
            &&& outcome.counters.members == view.members.len()
            &&& outcome.counters.normal_edges == view.edges.len()
            &&& outcome.counters.names == view.names.len()
            &&& outcome.statuses.len() <= u32::MAX ==> outcome.counters.rules
                == outcome.statuses.len()
            &&& failed <= u32::MAX ==> outcome.counters.violations == failed
            &&& outcome.exit == if failed == 0 {
                0int
            } else {
                1int
            }
            &&& outcome.counters.unrebased_path_deps == view.meta.unrebased_path_deps
        }),
{
    let outcome = outcome_of(view, plan, report);
    let count = outcome.statuses.len() as int;
    failures_are_few(outcome.statuses, count);
    assert(outcome.statuses.take(count) =~= outcome.statuses);
}

/// What the structured report says of a rule's findings: for each failed graph rule one record
/// with its evidence, and for each entry of the manifest rule one record with the entry.
pub proof fn records_hold_the_findings(outcome: OutcomeView, at: int)
    requires
        0 <= at < outcome.statuses.len(),
        !outcome.statuses[at].passed,
    ensures
        ({
            let status = outcome.statuses[at];
            let records = violation_records(outcome, outcome.statuses.len() as int);
            &&& status.kind != "manifest"@ ==> (evidence_of(outcome.violations, status.id)
                matches Some(violation) ==> exists|k: int|
                0 <= k < records.len() && (#[trigger] records[k]).finding == FindingView::Rule(
                    violation,
                ))
            &&& status.kind == "manifest"@ ==> (outcome.manifest matches Some(report) ==> forall|
                i: int,
            |
                0 <= i < report.entries.len() ==> exists|k: int|
                    0 <= k < records.len() && (#[trigger] records[k]).finding
                        == FindingView::Manifest(#[trigger] report.entries[i]))
        }),
{
    let status = outcome.statuses[at];
    let count = outcome.statuses.len() as int;
    let records = violation_records(outcome, count);
    let own = status_records(outcome, status);
    records_are_kept(outcome, at, count);
    if status.kind != "manifest"@ {
        if let Some(violation) = evidence_of(outcome.violations, status.id) {
            assert(own[0].finding == FindingView::Rule(violation));
            assert(own.contains(own[0]));
            let k = choose|k: int| 0 <= k < records.len() && records[k] == own[0];
            assert(records[k].finding == FindingView::Rule(violation));
        }
    } else if let Some(report) = outcome.manifest {
        assert forall|i: int| 0 <= i < report.entries.len() implies exists|k: int|
            0 <= k < records.len() && (#[trigger] records[k]).finding == FindingView::Manifest(
                #[trigger] report.entries[i],
            ) by {
            assert(own[i].finding == FindingView::Manifest(report.entries[i]));
            assert(own.contains(own[i]));
            let k = choose|k: int| 0 <= k < records.len() && records[k] == own[i];
            assert(records[k].finding == FindingView::Manifest(report.entries[i]));
        }
    }
}

proof fn records_are_kept(outcome: OutcomeView, at: int, upto: int)
    requires
        0 <= at < upto <= outcome.statuses.len(),
    ensures
        forall|record: crate::report::json::ViolationRecordView| #[trigger]
            status_records(outcome, outcome.statuses[at]).contains(record) ==> violation_records(
                outcome,
                upto,
            ).contains(record),
    decreases upto,
{
    let before = violation_records(outcome, upto - 1);
    let more = status_records(outcome, outcome.statuses[upto - 1]);
    let now = violation_records(outcome, upto);
    let own = status_records(outcome, outcome.statuses[at]);
    if at < upto - 1 {
        records_are_kept(outcome, at, upto - 1);
    }
    assert forall|record: crate::report::json::ViolationRecordView| #[trigger]
        own.contains(record) implies now.contains(record) by {
        if at < upto - 1 {
            let i = choose|i: int| 0 <= i < before.len() && before[i] == record;
            assert(now[i] == record);
        } else {
            let i = choose|i: int| 0 <= i < more.len() && more[i] == record;
            assert(now[before.len() + i] == record);
        }
    }
}

/// When some rule narrows its closure the structured report has a record of every rule, in order:
/// its identifier, kind and answer, the selection in the words of the policy, and what it pruned.
pub proof fn rules_are_recorded_in_order(statuses: Seq<StatusView>)
    ensures
        match rule_records(statuses) {
            Some(records) => {
                &&& records.len() == statuses.len()
                &&& forall|i: int|
                    #![trigger records[i]]
                    0 <= i < records.len() ==> {
                        let (record, status) = (records[i], statuses[i]);
                        &&& record.id == status.id
                        &&& record.kind == status.kind
                        &&& record.passed == status.passed
                        &&& record.features is Some <==> status.features is Some
                        &&& record.activation_pruned == if status.features is Some {
                            Some(status.activation_pruned)
                        } else {
                            None
                        }
                        &&& status.features matches Some(selection) ==> (record.features->0
                            matches SpelledView::Word(word)
                            ==> crate::features::selection_text(selection) == "\""@ + word + "\""@)
                    }
            },
            None => forall|i: int|
                0 <= i < statuses.len() ==> (#[trigger] statuses[i]).features is None,
        },
{
    super::policy::words_differ();
}

proof fn failures_are_annotated(outcome: OutcomeView, at: int, upto: int) -> (k: int)
    requires
        0 <= at < upto <= outcome.statuses.len(),
        !outcome.statuses[at].passed,
        outcome.statuses[at].kind != "manifest"@,
        evidence_of(outcome.violations, outcome.statuses[at].id) is Some,
    ensures
        0 <= k < graph_annotations(outcome, upto).len(),
        ({
            let violation = evidence_of(outcome.violations, outcome.statuses[at].id)->0;
            let annotation = graph_annotations(outcome, upto)[k];
            &&& annotation.file == violation.span.0
            &&& annotation.line == violation.span.1
            &&& annotation.col == violation.span.2
            &&& says(annotation.message, outcome.statuses[at].id)
        }),
    decreases upto,
{
    if at < upto - 1 {
        failures_are_annotated(outcome, at, upto - 1)
    } else {
        let status = outcome.statuses[at];
        let violation = evidence_of(outcome.violations, status.id)->0;
        let message = crate::report::github::graph_message(outcome, status, violation);
        let label = crate::report::human::label_of(status, Some(violation));
        let summary = status.id + ": "@ + label;
        assert(summary =~= Seq::<char>::empty() + status.id + (": "@ + label));
        assert(says(summary, status.id));
        let version = version_named(
            outcome.member_versions,
            violation.package,
            outcome.member_versions.len() as int,
        );
        match crate::report::github::first_witness_text(violation, version) {
            Some(witness) => {
                assert(message =~= Seq::<char>::empty() + summary + (" \u{2014} "@ + witness));
                assert(says(message, summary));
            },
            None => {
                assert(message =~= Seq::<char>::empty() + summary + Seq::<char>::empty());
                assert(says(message, summary));
            },
        }
        saying_goes_through(message, summary, status.id);
        graph_annotations(outcome, upto).len() - 1
    }
}

/// Every failed graph rule and every manifest entry has an annotation at the place of its finding,
/// which names the rule; as many of them are given as are taken, the first ones first.
pub proof fn findings_are_annotated(outcome: OutcomeView, at: int)
    requires
        0 <= at < outcome.statuses.len(),
        !outcome.statuses[at].passed,
        outcome.statuses[at].kind != "manifest"@,
        evidence_of(outcome.violations, outcome.statuses[at].id) is Some,
    ensures
        ({
            let violation = evidence_of(outcome.violations, outcome.statuses[at].id)->0;
            let all = all_annotations(outcome);
            exists|k: int|
                0 <= k < all.len() && (#[trigger] all[k]).file == violation.span.0 && all[k].line
                    == violation.span.1 && all[k].col == violation.span.2 && says(
                    all[k].message,
                    outcome.statuses[at].id,
                )
        }),
{
    let count = outcome.statuses.len() as int;
    let k = failures_are_annotated(outcome, at, count);
    let all = all_annotations(outcome);
    assert(all[k] == graph_annotations(outcome, count)[k]);
}

/// Every manifest entry has an annotation at the place of its version.
pub proof fn entries_are_annotated(outcome: OutcomeView, i: int)
    requires
        outcome.manifest is Some,
        0 <= i < outcome.manifest->0.entries.len(),
    ensures
        ({
            let entry = outcome.manifest->0.entries[i];
            let all = all_annotations(outcome);
            exists|k: int|
                0 <= k < all.len() && (#[trigger] all[k]).file == entry.span.0 && all[k].line
                    == entry.span.1 && all[k].col == entry.span.2 && says(
                    all[k].message,
                    entry.dependency,
                )
        }),
{
    let entry = outcome.manifest->0.entries[i];
    let all = all_annotations(outcome);
    let before = graph_annotations(outcome, outcome.statuses.len() as int);
    let k = before.len() + i;
    assert(all[k] == entry_annotation(entry));
    let message = all[k].message;
    let head = crate::manifest::RULE_ID@ + ": "@ + (entry.table + " "@);
    let tail = " = "@ + crate::text::quoted(entry.version);
    assert(message =~= head + entry.dependency + tail);
}

/// Every annotation that is given is a line of the report, before all else.
pub proof fn annotations_are_lines(
    annotations: Seq<AnnotationView>,
    root: Seq<char>,
    repository: Option<Seq<char>>,
    at: int,
    upto: int,
)
    requires
        0 <= at < upto <= annotations.len(),
    ensures
        says(
            annotation_lines(annotations, root, repository, upto),
            ",line="@ + decimal(annotations[at].line) + ",col="@ + decimal(annotations[at].col)
                + "::"@ + crate::report::github::escaped(annotations[at].message) + "\n"@,
        ),
    decreases upto,
{
    let wanted = ",line="@ + decimal(annotations[at].line) + ",col="@ + decimal(
        annotations[at].col,
    ) + "::"@ + crate::report::github::escaped(annotations[at].message) + "\n"@;
    let before = annotation_lines(annotations, root, repository, upto - 1);
    let last = crate::report::github::annotation_line(annotations[upto - 1], root, repository);
    says_its_parts(before, last, Seq::empty());
    if at < upto - 1 {
        annotations_are_lines(annotations, root, repository, at, upto - 1);
        saying_goes_through(before + last, before, wanted);
    } else {
        let head = "::error file="@ + crate::report::github::escaped_property(
            crate::report::github::slashed(
                crate::report::github::anchored(annotations[at].file, root, repository),
            ),
        );
        assert(last =~= head + wanted + Seq::<char>::empty());
        assert(says(last, wanted));
        saying_goes_through(before + last, last, wanted);
    }
}

/// The exit code of an error tells what went wrong: the policy was violated, the configuration or
/// the command line is wrong, the metadata or a manifest is, or the report could not be written.
pub proof fn exit_codes_tell_what_went_wrong(error: ErrorView)
    ensures
        exit_code_of(error) == 1 <==> error is PolicyViolations,
        exit_code_of(error) == 2 <==> error is Configuration || error is Usage || error
            is NotYetImplemented,
        exit_code_of(error) == 4 <==> error is ReportWrite,
        exit_code_of(error) == 3 <==> error is CargoMetadataSpawn || error is CargoMetadataTimeout
            || error is CargoMetadataRead || error is CargoMetadataFailed || error
            is CargoMetadataUnparseable || error is MetadataRead || error is MetadataInvalid
            || error is ManifestRead || error is ManifestParse,
{
}

/// The format that is asked for is the one that is used; without one it is GitHub's exactly on
/// GitHub Actions.
pub proof fn formats_are_as_asked(explicit: Option<Format>, github_actions: Option<Seq<char>>)
    ensures
        explicit matches Some(format) ==> format_of(explicit, github_actions) == format,
        explicit is None ==> (format_of(explicit, github_actions) == Format::Github <==> (
        github_actions is Some && github_actions->0 == "true"@)),
        explicit is None && format_of(explicit, github_actions) != Format::Github ==> format_of(
            explicit,
            github_actions,
        ) == Format::Human,
{
}

proof fn last_version_is_found(
    entries: Seq<(Seq<char>, Seq<char>)>,
    name: Seq<char>,
    upto: int,
)
    requires
        0 <= upto <= entries.len(),
    ensures
        match version_named(entries, name, upto) {
            Some(version) => exists|i: int|
                0 <= i < upto && (#[trigger] entries[i]).0 == name && entries[i].1 == version,
            None => forall|i: int| 0 <= i < upto ==> (#[trigger] entries[i]).0 != name,
        },
    decreases upto,
{
    if upto > 0 {
        last_version_is_found(entries, name, upto - 1);
        assert(entries[upto - 1] == entries[upto - 1]);
    }
}

/// The version that a path starts with is that of a member of that name.
pub proof fn members_are_shown_with_their_versions(view: GraphView, name: Seq<char>)
    ensures
        match version_named(members_of(view), name, members_of(view).len() as int) {
            Some(version) => exists|k: int|
                #![trigger view.members[k]]
                0 <= k < view.members.len() && view.meta.packages@[view.members[k]].name@ == name
                    && view.meta.packages@[view.members[k]].version@ == version,
            None => forall|k: int|
                0 <= k < view.members.len()
                    ==> view.meta.packages@[#[trigger] view.members[k]].name@ != name,
        },
{
    let entries = members_of(view);
    last_version_is_found(entries, name, entries.len() as int);
    if version_named(entries, name, entries.len() as int) is Some {
        let version = version_named(entries, name, entries.len() as int)->0;
        let i = choose|i: int|
            0 <= i < entries.len() && (#[trigger] entries[i]).0 == name && entries[i].1 == version;
        assert(view.meta.packages@[view.members[i]].name@ == name);
    } else {
        assert forall|k: int|
            0 <= k < view.members.len() implies view.meta.packages@[#[trigger] view.members[k]].name@
            != name by {
            assert(entries[k].0 == view.meta.packages@[view.members[k]].name@);
        }
    }
}

} // verus!
