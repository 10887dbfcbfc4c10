//! What the structured report holds, key by key; writing it out as text is left to a serializer.

use super::{evidence_below, evidence_of, violation_lookup, RenderContext};
use crate::config::{ConfigView, FeatureSelection, FeatureSelectionView, RuleKindView};
use crate::features::{Selection, SelectionView};
use crate::files::{self, shown};
use crate::graph::GraphView;
use crate::manifest::{self, ManifestEntryView, ManifestReport, ManifestViolation, ReportView};
use crate::pipeline::{manifest_status_of, outcome_of, Outcome, OutcomeView, PlanView};
use crate::rules::{
    self, failures_below, kind_text, status_of, verdict_of, RuleStatus, StatusView, Violation,
    ViolationView,
};
use crate::text::{self, texts};
use crate::timings::Counters;
use vstd::prelude::*;

verus! {

/// A feature selection, spelled the way the policy key spells it.
#[derive(Clone, Debug, PartialEq, Eq)]
pub enum Spelled<'a> {
    /// One of the words that stand for a selection.
    Word(&'static str),
    /// A list of features.
    List(&'a Vec<String>),
}

/// A [`Spelled`] by the characters of its strings.
pub enum SpelledView {
    Word(Seq<char>),
    List(Seq<Seq<char>>),
}

impl<'a> View for Spelled<'a> {
    type V = SpelledView;

    open spec fn view(&self) -> SpelledView {
        match *self {
            Spelled::Word(word) => SpelledView::Word(word@),
            Spelled::List(features) => SpelledView::List(texts(features@)),
        }
    }
}

/// The characters of a spelled selection, if there is one.
pub open spec fn spelled_view(spelled: Option<Spelled<'_>>) -> Option<SpelledView> {
    match spelled {
        Some(spelled) => Some(spelled@),
        None => None,
    }
}

/// How the selection of a whole run is spelled.
pub open spec fn spelled_features(features: FeatureSelectionView) -> SpelledView {
    match features {
        FeatureSelectionView::Default => SpelledView::Word("default"@),
        FeatureSelectionView::All => SpelledView::Word("all"@),
        FeatureSelectionView::List(features) => SpelledView::List(features),
    }
}

/// How the selection of one rule is spelled.
pub open spec fn spelled_selection(selection: SelectionView) -> SpelledView {
    match selection {
        SelectionView::Nothing => SpelledView::Word("none"@),
        SelectionView::Default => SpelledView::Word("default"@),
        SelectionView::All => SpelledView::Word("all"@),
        SelectionView::List(features) => SpelledView::List(features),
    }
}

/// The `features` key: nothing records that no Cargo ran, so that the selection that shaped the
/// document is unknown rather than being the default.
pub open spec fn run_features(features: Option<FeatureSelectionView>) -> Option<SpelledView> {
    match features {
        Some(features) => Some(spelled_features(features)),
        None => None,
    }
}

fn features_json(features: &Option<FeatureSelection>) -> (spelled: Option<Spelled<'_>>)
    ensures
        spelled_view(spelled) == run_features(crate::pipeline::features_view(*features)),
{
    match features {
        None => None,
        Some(FeatureSelection::Default) => Some(Spelled::Word("default")),
        Some(FeatureSelection::All) => Some(Spelled::Word("all")),
        Some(FeatureSelection::List(features)) => Some(Spelled::List(features)),
    }
}

fn selection_json(selection: &Selection) -> (spelled: Spelled<'_>)
    ensures
        spelled@ == spelled_selection(selection@),
{
    match selection {
        Selection::Nothing => Spelled::Word("none"),
        Selection::Default => Spelled::Word("default"),
        Selection::All => Spelled::Word("all"),
        Selection::List(features) => Spelled::List(features),
    }
}

/// One record per configured rule, which a list of violations cannot provide, because a rule that
/// passes emits no violation at all.
#[derive(Clone, Debug, PartialEq, Eq)]
pub struct RuleRecord<'a> {
    /// The rule identifier.
    pub id: &'a str,
    /// The rule kind.
    pub kind: &'static str,
    /// Whether the rule passed.
    pub passed: bool,
    /// The selection the rule was answered under; absent for one that read the unified closure.
    pub features: Option<Spelled<'a>>,
    /// The names that the selection removed; absent for a rule that read the unified closure.
    pub activation_pruned: Option<&'a Vec<String>>,
}

/// A [`RuleRecord`] by the characters of its strings.
pub struct RuleRecordView {
    pub id: Seq<char>,
    pub kind: Seq<char>,
    pub passed: bool,
    pub features: Option<SpelledView>,
    pub activation_pruned: Option<Seq<Seq<char>>>,
}

/// The characters of a list, if there is one.
pub open spec fn list_view(list: Option<&Vec<String>>) -> Option<Seq<Seq<char>>> {
    match list {
        Some(list) => Some(texts(list@)),
        None => None,
    }
}

impl<'a> View for RuleRecord<'a> {
    type V = RuleRecordView;

    open spec fn view(&self) -> RuleRecordView {
        RuleRecordView {
            id: self.id@,
            kind: self.kind@,
            passed: self.passed,
            features: spelled_view(self.features),
            activation_pruned: list_view(self.activation_pruned),
        }
    }
}

/// The selection of a rule or a violation.
pub open spec fn own_features(features: Option<SelectionView>) -> Option<SpelledView> {
    match features {
        Some(selection) => Some(spelled_selection(selection)),
        None => None,
    }
}

/// What a selection removed, where there is a selection.
pub open spec fn own_pruned(features: Option<SelectionView>, pruned: Seq<Seq<char>>) -> Option<
    Seq<Seq<char>>,
> {
    match features {
        Some(_) => Some(pruned),
        None => None,
    }
}

/// The record of a rule.
pub open spec fn record_of(status: StatusView) -> RuleRecordView {
    RuleRecordView {
        id: status.id,
        kind: status.kind,
        passed: status.passed,
        features: own_features(status.features),
        activation_pruned: own_pruned(status.features, status.activation_pruned),
    }
}

/// Whether some rule narrowed its closure.
pub open spec fn some_rule_narrows(statuses: Seq<StatusView>) -> bool {
    exists|i: int| 0 <= i < statuses.len() && (#[trigger] statuses[i]).features is Some
}

/// Every rule's record, or nothing when no rule narrowed its closure: what a rule came to is then
/// recoverable from the violations and the counters.
pub open spec fn rule_records(statuses: Seq<StatusView>) -> Option<Seq<RuleRecordView>> {
    if some_rule_narrows(statuses) {
        Some(Seq::new(statuses.len(), |i: int| record_of(statuses[i])))
    } else {
        None
    }
}

/// The characters of each record.
pub open spec fn record_views(records: Seq<RuleRecord<'_>>) -> Seq<RuleRecordView> {
    Seq::new(records.len(), |i: int| records[i]@)
}

fn rule_record(status: &RuleStatus) -> (record: RuleRecord<'_>)
    ensures
        record@ == record_of(status@),
{
    RuleRecord {
        id: status.id.as_str(),
        kind: status.kind,
        passed: status.passed,
        features: match &status.features {
            Some(selection) => Some(selection_json(selection)),
            None => None,
        },
        activation_pruned: match &status.features {
            Some(_) => Some(&status.activation_pruned),
            None => None,
        },
    }
}

fn rules(outcome: &Outcome) -> (records: Option<Vec<RuleRecord<'_>>>)
    ensures
        (match records {
            Some(records) => Some(record_views(records@)),
            None => None,
        }) == rule_records(outcome@.statuses),
{
    let ghost statuses = outcome@.statuses;
    let mut narrows = false;
    let mut records: Vec<RuleRecord<'_>> = Vec::new();
    let mut at: usize = 0;
    while at < outcome.statuses.len()
        invariant
            statuses == outcome@.statuses,
            at <= outcome.statuses@.len(),
            narrows == exists|i: int| 0 <= i < at && (#[trigger] statuses[i]).features is Some,
            records@.len() == at,
            forall|i: int| 0 <= i < at ==> (#[trigger] records@[i])@ == record_of(statuses[i]),
        decreases outcome.statuses@.len() - at,
    {
        let status = &outcome.statuses[at];
        assert(statuses[at as int] == status@);
        if status.features.is_some() {
            narrows = true;
        }
        records.push(rule_record(status));
        at = at + 1;
    }
    if narrows {
        assert(record_views(records@) =~= Seq::new(
            statuses.len(),
            |i: int| record_of(statuses[i]),
        ));
        Some(records)
    } else {
        None
    }
}

/// What a record of the `violations` list is about.
#[derive(Clone, Debug, PartialEq, Eq)]
pub enum Finding<'a> {
    /// A failed graph rule, with all its evidence.
    Rule(&'a Violation),
    /// One entry of the manifest rule.
    Manifest(&'a ManifestViolation),
}

/// A [`Finding`] by the characters of its strings.
pub enum FindingView {
    Rule(ViolationView),
    Manifest(ManifestEntryView),
}

/// One record of the `violations` list.
#[derive(Clone, Debug, PartialEq, Eq)]
pub struct ViolationRecord<'a> {
    /// What was found.
    pub finding: Finding<'a>,
    /// The file of its place, relative to the workspace root.
    pub file: String,
    /// The selection the rule was answered under; absent for one that read the unified closure.
    pub features: Option<Spelled<'a>>,
    /// The names that the selection removed; absent for a rule that read the unified closure.
    pub activation_pruned: Option<&'a Vec<String>>,
}

/// A [`ViolationRecord`] by the characters of its strings.
pub struct ViolationRecordView {
    pub finding: FindingView,
    pub file: Seq<char>,
    pub features: Option<SpelledView>,
    pub activation_pruned: Option<Seq<Seq<char>>>,
}

impl<'a> View for ViolationRecord<'a> {
    type V = ViolationRecordView;

    open spec fn view(&self) -> ViolationRecordView {
        ViolationRecordView {
            finding: match self.finding {
                Finding::Rule(violation) => FindingView::Rule(violation@),
                Finding::Manifest(entry) => FindingView::Manifest(entry@),
            },
            file: self.file@,
            features: spelled_view(self.features),
            activation_pruned: list_view(self.activation_pruned),
        }
    }
}

/// The characters of each record.
pub open spec fn violation_record_views(records: Seq<ViolationRecord<'_>>) -> Seq<
    ViolationRecordView,
> {
    Seq::new(records.len(), |i: int| records[i]@)
}

/// The record of a failed graph rule.
pub open spec fn graph_record(violation: ViolationView, root: Seq<char>) -> ViolationRecordView {
    ViolationRecordView {
        finding: FindingView::Rule(violation),
        file: shown(violation.span.0, root),
        features: own_features(violation.features),
        activation_pruned: own_pruned(violation.features, violation.activation_pruned),
    }
}

/// The record of a manifest entry.
pub open spec fn entry_record(entry: ManifestEntryView, root: Seq<char>) -> ViolationRecordView {
    ViolationRecordView {
        finding: FindingView::Manifest(entry),
        file: shown(entry.span.0, root),
        features: None,
        activation_pruned: None,
    }
}

/// The records of the entries of a report.
pub open spec fn entry_records(report: ReportView, root: Seq<char>) -> Seq<ViolationRecordView> {
    Seq::new(report.entries.len(), |i: int| entry_record(report.entries[i], root))
}

/// The records of one failed rule: one for a graph rule, one for each entry of the manifest rule.
pub open spec fn status_records(outcome: OutcomeView, status: StatusView) -> Seq<ViolationRecordView> {
    if status.passed {
        Seq::empty()
    } else if status.kind == manifest::RULE_KIND@ {
        match outcome.manifest {
            Some(report) => entry_records(report, outcome.workspace_root),
            None => Seq::empty(),
        }
    } else {
        match evidence_of(outcome.violations, status.id) {
            Some(violation) => seq![graph_record(violation, outcome.workspace_root)],
            None => Seq::empty(),
        }
    }
}

/// The records of the first `upto` rules, in the order of the rules.
pub open spec fn violation_records(outcome: OutcomeView, upto: int) -> Seq<ViolationRecordView>
    decreases upto,
{
    if upto <= 0 {
        Seq::empty()
    } else {
        violation_records(outcome, upto - 1) + status_records(outcome, outcome.statuses[upto - 1])
    }
}

fn push_entries<'a>(records: &mut Vec<ViolationRecord<'a>>, report: &'a ManifestReport, root: &str)
    ensures
        violation_record_views(final(records)@) == violation_record_views(old(records)@)
            + entry_records(report@, root@),
{
    let ghost before = violation_record_views(records@);
    let ghost more = entry_records(report@, root@);
    let mut at: usize = 0;
    assert(violation_record_views(records@) =~= before + more.take(0));
    while at < report.entries.len()
        invariant
            more == entry_records(report@, root@),
            at <= report.entries@.len(),
            violation_record_views(records@) == before + more.take(at as int),
        decreases report.entries@.len() - at,
    {
        let entry = &report.entries[at];
        let ghost so_far = violation_record_views(records@);
        let record = ViolationRecord {
            finding: Finding::Manifest(entry),
            file: files::show(entry.span.file.as_str(), root),
            features: None,
            activation_pruned: None,
        };
        records.push(record);
        proof {
            assert(report@.entries[at as int] == entry@);
            assert(record@ == more[at as int]);
            assert(violation_record_views(records@) =~= so_far.push(record@));
            assert(violation_record_views(records@) =~= before + more.take(at + 1));
        }
        at = at + 1;
    }
    assert(more.take(at as int) =~= more);
}

fn violations(outcome: &Outcome) -> (records: Vec<ViolationRecord<'_>>)
    ensures
        violation_record_views(records@) == violation_records(
            outcome@,
            outcome@.statuses.len() as int,
        ),
{
    let ghost view = outcome@;
    let root = outcome.workspace_root.as_str();
    let mut records: Vec<ViolationRecord<'_>> = Vec::new();
    let mut at: usize = 0;
    assert(violation_record_views(records@) =~= violation_records(view, 0));
    while at < outcome.statuses.len()
        invariant
            view == outcome@,
            root@ == view.workspace_root,
            at <= outcome.statuses@.len(),
            violation_record_views(records@) == violation_records(view, at as int),
        decreases outcome.statuses@.len() - at,
    {
        let status = &outcome.statuses[at];
        assert(view.statuses[at as int] == status@);
        let ghost before = violation_record_views(records@);
        if status.passed {
            assert(before + status_records(view, status@) =~= before);
        } else if text::same(status.kind, manifest::RULE_KIND) {
            if let Some(report) = &outcome.manifest {
                push_entries(&mut records, report, root);
            } else {
                assert(before + status_records(view, status@) =~= before);
            }
        } else if let Some(violation) = violation_lookup(
            &outcome.violations,
            status.id.as_str(),
        ) {
            let record = ViolationRecord {
                finding: Finding::Rule(violation),
                file: files::show(violation.span.file.as_str(), root),
                features: match &violation.features {
                    Some(selection) => Some(selection_json(selection)),
                    None => None,
                },
                activation_pruned: match &violation.features {
                    Some(_) => Some(&violation.activation_pruned),
                    None => None,
                },
            };
            records.push(record);
            assert(record@ == graph_record(violation@, view.workspace_root));
            assert(violation_record_views(records@) =~= before + seq![record@]);
        } else {
            assert(before + status_records(view, status@) =~= before);
        }
        at = at + 1;
    }
    records
}

/// The structured report without its timings, which only a clock can tell.
#[derive(Clone, Debug, PartialEq, Eq)]
pub struct Report<'a> {
    /// The tool name.
    pub tool: &'static str,
    /// The tool version.
    pub version: &'static str,
    /// The selection that the graph was resolved with; `None` is written out as `null`.
    pub features: Option<Spelled<'a>>,
    /// The counters of the run.
    pub counters: Counters,
    /// The record of every rule; the key is left out when there is none.
    pub rules: Option<Vec<RuleRecord<'a>>>,
    /// The findings.
    pub violations: Vec<ViolationRecord<'a>>,
}

/// Whether `report` is the structured report of `outcome`.
pub open spec fn reports(report: Report<'_>, outcome: OutcomeView, ctx: RenderContext) -> bool {
    &&& report.tool == ctx.tool
    &&& report.version == ctx.version
    &&& spelled_view(report.features) == run_features(outcome.features)
    &&& report.counters == outcome.counters
    &&& (match report.rules {
        Some(records) => Some(record_views(records@)),
        None => None,
    }) == rule_records(outcome.statuses)
    &&& violation_record_views(report.violations@) == violation_records(
        outcome,
        outcome.statuses.len() as int,
    )
}

/// Builds the structured report of `outcome`.
#[must_use]
pub fn render<'a>(outcome: &'a Outcome, ctx: &RenderContext) -> (report: Report<'a>)
    ensures
        reports(report, outcome@, *ctx),
{
    Report {
        tool: ctx.tool,
        version: ctx.version,
        features: features_json(&outcome.features),
        counters: outcome.counters,
        rules: rules(outcome),
        violations: violations(outcome),
    }
}

/// Whether a rule of the graph is told from the manifest rule by its kind.
proof fn graph_kinds_are_not_the_manifest_kind(kind: RuleKindView)
    ensures
        kind_text(kind) != manifest::RULE_KIND@,
{
    reveal_strlit("deny");
    reveal_strlit("require");
    reveal_strlit("internal");
    reveal_strlit("leaf");
    reveal_strlit("direct");
    reveal_strlit("sealed");
    reveal_strlit("manifest");
    assert("internal"@[0] != "manifest"@[0]);
}

proof fn evidence_is_found(violations: Seq<ViolationView>, id: Seq<char>, at: int, upto: int)
    requires
        0 <= at < upto <= violations.len(),
        violations[at].rule_id == id,
    ensures
        evidence_below(violations, id, upto) is Some,
    decreases upto,
{
    if at < upto - 1 {
        evidence_is_found(violations, id, at, upto - 1);
    }
}

/// The violation of the failed rule `i` stands among those of the first `upto` rules.
proof fn failure_stands(view: GraphView, config: ConfigView, i: int, upto: int) -> (at: int)
    requires
        0 <= i < upto <= config.rules.len(),
        !verdict_of(view, config, config.rules[i]).passed,
    ensures
        0 <= at < failures_below(view, config, upto).len(),
        failures_below(view, config, upto)[at].rule_id == config.rules[i].id,
    decreases upto,
{
    if i == upto - 1 {
        failures_below(view, config, upto).len() - 1
    } else {
        failure_stands(view, config, i, upto - 1)
    }
}

proof fn graph_records_are_counted(
    view: GraphView,
    plan: PlanView,
    report: Option<ReportView>,
    upto: int,
)
    requires
        0 <= upto <= plan.config.rules.len(),
    ensures
        violation_records(outcome_of(view, plan, report), upto).len() == failures_below(
            view,
            plan.config,
            upto,
        ).len(),
    decreases upto,
{
    if upto > 0 {
        graph_records_are_counted(view, plan, report, upto - 1);
        let config = plan.config;
        let outcome = outcome_of(view, plan, report);
        let status = outcome.statuses[upto - 1];
        assert(status == status_of(view, config, config.rules[upto - 1]));
        rules::rules_fail_with_evidence(view, config, config.rules[upto - 1]);
        graph_kinds_are_not_the_manifest_kind(config.rules[upto - 1].kind);
        if !status.passed {
            let count = config.rules.len() as int;
            let at = failure_stands(view, config, upto - 1, count);
            evidence_is_found(
                outcome.violations,
                status.id,
                at,
                outcome.violations.len() as int,
            );
        }
    }
}

/// The findings of a report are one record for each failed graph rule and one for each entry of
/// the manifest rule.
pub proof fn each_finding_is_one_record(view: GraphView, plan: PlanView, report: Option<ReportView>)
    ensures
        ({
            let outcome = outcome_of(view, plan, report);
            violation_records(outcome, outcome.statuses.len() as int).len()
                == outcome.violations.len() + (match report {
                Some(report) => report.entries.len(),
                None => 0,
            })
        }),
{
    let count = plan.config.rules.len() as int;
    graph_records_are_counted(view, plan, report, count);
    let outcome = outcome_of(view, plan, report);
    if let Some(found) = report {
        assert(outcome.statuses[count] == manifest_status_of(found));
        assert(outcome.statuses.len() == count + 1);
    }
}

} // verus!
