use cargo_depgate::config::{FeatureSelection, Span};
use cargo_depgate::features::Selection;
use cargo_depgate::manifest::{self, ManifestReport, ManifestViolation};
use cargo_depgate::pipeline::{MemberVersions, Outcome};
use cargo_depgate::platform::PlatformSelection;
use cargo_depgate::report::json::{render, Finding, Spelled};
use cargo_depgate::report::RenderContext;
use cargo_depgate::rules::{Match, RuleStatus, SealedEntry, Violation, WitnessHop};
use cargo_depgate::timings::Counters;

const WORKSPACE: &str = "/workspace";

fn span(file: &str, line: u32) -> Span {
    Span { file: format!("{WORKSPACE}/{file}"), line, col: 7 }
}

fn hop(name: &str) -> WitnessHop {
    WitnessHop { name: name.to_owned(), version: "1.2.3".to_owned(), target: None, optional: false }
}

fn found(name: &str) -> Match {
    Match {
        name: name.to_owned(),
        version: "1.2.3".to_owned(),
        witness: vec![hop(name)],
        other_versions: vec!["2.0.0".to_owned()],
    }
}

fn status(id: &str, package: Option<&str>, kind: &'static str, passed: bool) -> RuleStatus {
    RuleStatus {
        id: id.to_owned(),
        package: package.map(str::to_owned),
        kind,
        passed,
        matched: u32::from(!passed),
        features: None,
        activation_pruned: Vec::new(),
    }
}

fn violation(rule_id: &str, kind: &'static str, line: u32) -> Violation {
    Violation {
        rule_id: rule_id.to_owned(),
        package: "app".to_owned(),
        kind,
        matches: Vec::new(),
        extra: Vec::new(),
        missing: Vec::new(),
        sealed_by: Vec::new(),
        span: span("depgate.toml", line),
        features: None,
        activation_pruned: Vec::new(),
    }
}

fn outcome(features: Option<FeatureSelection>) -> Outcome {
    let deny_id = "rules.app.deny";
    let internal_id = "rules.app.internal";
    let direct_id = "rules.app.direct";
    let sealed_id = "rules.app.sealed";
    Outcome {
        statuses: vec![
            status("rules.app.leaf", Some("app"), "leaf", true),
            status(deny_id, Some("app"), "deny", false),
            status(internal_id, Some("app"), "internal", false),
            status(direct_id, Some("app"), "direct", false),
            status(sealed_id, Some("app"), "sealed", false),
            status(manifest::RULE_ID, None, manifest::RULE_KIND, false),
        ],
        violations: vec![
            Violation { matches: vec![found("blocked")], ..violation(deny_id, "deny", 2) },
            Violation {
                extra: vec![found("external")],
                missing: vec!["expected".to_owned()],
                ..violation(internal_id, "internal", 3)
            },
            Violation {
                extra: vec![found("indirect")],
                missing: vec!["direct-only".to_owned()],
                ..violation(direct_id, "direct", 4)
            },
            Violation {
                sealed_by: vec![SealedEntry {
                    member: "consumer".to_owned(),
                    witness: vec![hop("core")],
                }],
                ..violation(sealed_id, "sealed", 5)
            },
        ],
        manifest: Some(ManifestReport {
            entries: vec![
                ManifestViolation {
                    package: "app".to_owned(),
                    table: "dependencies".to_owned(),
                    dependency: "serde".to_owned(),
                    version: "1".to_owned(),
                    span: span("Cargo.toml", 12),
                    span_bytes: 3,
                },
                ManifestViolation {
                    package: "app".to_owned(),
                    table: "dev-dependencies".to_owned(),
                    dependency: "tempfile".to_owned(),
                    version: "3".to_owned(),
                    span: span("Cargo.toml", 16),
                    span_bytes: 3,
                },
            ],
            manifests_scanned: 1,
            bytes_scanned: 128,
            root_workspace_dependencies: None,
        }),
        warnings: Vec::new(),
        workspace_root: WORKSPACE.to_owned(),
        counters: Counters {
            packages: 8,
            members: 2,
            normal_edges: 7,
            names: 8,
            superset_extra_edges: 1,
            direct_optional_decls: 2,
            unrebased_path_deps: 3,
            rules: 6,
            violations: 5,
            matches: 4,
        },
        member_versions: MemberVersions { entries: vec![("app".to_owned(), "0.1.0".to_owned())] },
        features,
        platform: PlatformSelection::all(),
        exit: 1,
    }
}

fn context() -> RenderContext {
    RenderContext::new(WORKSPACE.to_owned(), "cargo-depgate", "0.1.0-test", false)
}

#[test]
fn report_preserves_schema_order_and_represents_every_violation_kind() {
    let outcome = outcome(Some(FeatureSelection::Default));
    let report = render(&outcome, &context());

    assert_eq!(report.tool, "cargo-depgate");
    assert_eq!(report.version, "0.1.0-test");
    assert_eq!(report.counters, outcome.counters);
    assert_eq!(report.features, Some(Spelled::Word("default")));
    assert_eq!(report.rules, None, "no rule narrowed its closure");

    assert_eq!(report.violations.len(), 6);
    let kinds: Vec<&str> = report
        .violations
        .iter()
        .map(|record| match record.finding {
            Finding::Rule(violation) => violation.kind,
            Finding::Manifest(_) => "manifest",
        })
        .collect();
    assert_eq!(kinds, ["deny", "internal", "direct", "sealed", "manifest", "manifest"]);
    let Finding::Manifest(manifest) = &report.violations[4].finding else {
        panic!("each manifest entry needs its own record");
    };
    assert_eq!(manifest.table, "dependencies");
    assert_eq!(manifest.dependency, "serde");
    assert_eq!(manifest.version, "1");
    let Finding::Rule(deny) = &report.violations[0].finding else {
        panic!("deny violation should be represented");
    };
    assert!(deny.sealed_by.is_empty());
    assert!(!deny.matches.is_empty());
    assert_eq!(report.violations[0].file, "depgate.toml");
    assert_eq!(report.violations[4].file, "Cargo.toml");
}

#[test]
fn feature_list_is_a_bare_json_array() {
    let outcome = outcome(Some(FeatureSelection::List(vec!["a/b".to_owned()])));
    let report = render(&outcome, &context());

    assert_eq!(report.features, Some(Spelled::List(&vec!["a/b".to_owned()])));
}

#[test]
fn an_unknown_feature_selection_is_json_null() {
    let outcome = outcome(None);
    let report = render(&outcome, &context());

    assert_eq!(report.features, None);
}

#[test]
fn a_rule_with_a_selection_of_its_own_is_recorded() {
    let mut narrowed = outcome(Some(FeatureSelection::All));
    narrowed.statuses[0].features = Some(Selection::Default);
    narrowed.statuses[0].activation_pruned = vec!["tls".to_owned()];
    let report = render(&narrowed, &context());

    let rules = report.rules.expect("the rules are recorded");
    assert_eq!(rules.len(), narrowed.statuses.len(), "one record for every rule");
    assert_eq!(rules[1].features, None);
    assert_eq!(rules[1].activation_pruned, None);
    assert_eq!(rules[0].id, "rules.app.leaf");
    assert!(rules[0].passed);
    assert_eq!(rules[0].features, Some(Spelled::Word("default")));
    assert_eq!(rules[0].activation_pruned, Some(&vec!["tls".to_owned()]));
}
