use cargo_depgate::config::{FeatureSelection, Span};
use cargo_depgate::manifest::{self, ManifestReport, ManifestViolation};
use cargo_depgate::pipeline::{MemberVersions, Outcome};
use cargo_depgate::platform::PlatformSelection;
use cargo_depgate::report::github::{escape, escape_property, render};
use cargo_depgate::report::RenderContext;
use cargo_depgate::rules::{Match, RuleStatus, SealedEntry, Violation, WitnessHop};
use cargo_depgate::timings::Counters;

const WORKSPACE: &str = "/workspace";

fn span(file: String, line: u32) -> Span {
    Span { file, line, col: 7 }
}

fn status(id: &str, kind: &'static str, passed: bool) -> RuleStatus {
    RuleStatus {
        id: id.to_owned(),
        package: (kind != manifest::RULE_KIND).then(|| "app".to_owned()),
        kind,
        passed,
        matched: u32::from(!passed),
        features: None,
        activation_pruned: Vec::new(),
    }
}

fn violation(id: &str, file: String, line: u32) -> Violation {
    Violation {
        rule_id: id.to_owned(),
        package: "app".to_owned(),
        kind: "deny",
        matches: vec![Match {
            name: "blocked".to_owned(),
            version: "2.0.0".to_owned(),
            witness: vec![WitnessHop {
                name: "blocked".to_owned(),
                version: "2.0.0".to_owned(),
                target: None,
                optional: false,
            }],
            other_versions: Vec::new(),
        }],
        extra: Vec::new(),
        missing: Vec::new(),
        sealed_by: Vec::new(),
        span: span(file, line),
        features: None,
        activation_pruned: Vec::new(),
    }
}

fn manifest_entry(dependency: &str, line: u32) -> ManifestViolation {
    ManifestViolation {
        package: "app".to_owned(),
        table: "dependencies".to_owned(),
        dependency: dependency.to_owned(),
        version: "1".to_owned(),
        span: span(format!("{WORKSPACE}/Cargo.toml"), line),
        span_bytes: 3,
    }
}

fn outcome(graph_count: usize, manifest_entries: Vec<ManifestViolation>) -> Outcome {
    let statuses = (0..graph_count)
        .map(|index| status(&format!("rules.app.deny-{index}"), "deny", false))
        .chain(
            (!manifest_entries.is_empty())
                .then(|| status(manifest::RULE_ID, manifest::RULE_KIND, false)),
        )
        .collect::<Vec<_>>();
    let violations = (0..graph_count)
        .map(|index| {
            violation(
                &format!("rules.app.deny-{index}"),
                format!("{WORKSPACE}/depgate.toml"),
                u32::try_from(index).expect("test index fits u32") + 2,
            )
        })
        .collect();
    let rules = u32::try_from(statuses.len()).expect("test status count fits u32");
    Outcome {
        statuses,
        violations,
        manifest: (!manifest_entries.is_empty()).then_some(ManifestReport {
            entries: manifest_entries,
            manifests_scanned: 1,
            bytes_scanned: 64,
            root_workspace_dependencies: None,
        }),
        warnings: Vec::new(),
        workspace_root: WORKSPACE.to_owned(),
        counters: Counters { rules, violations: rules, matches: rules, ..Counters::default() },
        member_versions: MemberVersions { entries: vec![("app".to_owned(), "1.0.0".to_owned())] },
        features: Some(FeatureSelection::Default),
        platform: PlatformSelection::all(),
        exit: 1,
    }
}

fn context() -> RenderContext {
    RenderContext::new(WORKSPACE.to_owned(), "cargo-depgate", "0.1.0", false)
}

fn rendered(outcome: &Outcome) -> String {
    rendered_with(outcome, &context())
}

fn rendered_with(outcome: &Outcome, ctx: &RenderContext) -> String {
    render(outcome, ctx, &Vec::new())
}

/// One annotation over a workspace rooted at `workspace_root`, rendered with the given
/// `$GITHUB_WORKSPACE` value.
fn annotation_for(workspace_root: &str, github_workspace: Option<&str>) -> String {
    let mut nested = outcome(1, Vec::new());
    nested.workspace_root = workspace_root.to_owned();
    nested.violations[0].span.file = format!("{workspace_root}/depgate.toml");
    let ctx = RenderContext::new(workspace_root.to_owned(), "cargo-depgate", "0.1.0", false)
        .with_github_workspace(github_workspace.map(str::to_owned));
    rendered_with(&nested, &ctx).lines().next().expect("annotation exists").to_owned()
}

#[test]
fn escape_percent_before_carriage_returns_and_newlines() {
    assert_eq!(escape("100%\rnext\nuser typed %0A"), "100%25%0Dnext%0Auser typed %250A");
}

#[test]
fn escape_property_also_escapes_colon_and_comma() {
    assert_eq!(escape_property("crates/a,b/Cargo.toml"), "crates/a%2Cb/Cargo.toml");
    assert_eq!(escape_property("C:\\path"), "C%3A\\path");
    assert_eq!(escape_property("100%\r\n"), "100%25%0D%0A");
}

#[test]
fn caps_annotations_at_ten_then_prints_the_full_human_report() {
    let output = rendered(&outcome(12, Vec::new()));
    let annotations = output.match_indices("::error ").collect::<Vec<_>>();
    assert_eq!(annotations.len(), 10);

    let tenth_annotation = annotations[9].0;
    let human_marker = output.find("FAIL: 12 rules, 12 violations").expect("human summary exists");
    assert!(human_marker > tenth_annotation);
    assert!(output.contains("FAIL rules.app.deny-11:"));
}

#[test]
fn graph_annotations_precede_manifest_annotations() {
    let output = rendered(&outcome(
        3,
        vec![manifest_entry("serde", 20), manifest_entry("toml", 21), manifest_entry("clap", 22)],
    ));
    let annotation_lines =
        output.lines().filter(|line| line.starts_with("::error ")).collect::<Vec<_>>();
    assert_eq!(annotation_lines.len(), 6);
    assert!(annotation_lines[..3].iter().all(|line| line.contains("rules.app.deny-")));
    assert!(annotation_lines[3..].iter().all(|line| line.contains("manifest.versions-in-root")));
}

#[test]
fn annotation_file_is_relative_to_workspace_root() {
    let output = rendered(&outcome(1, Vec::new()));
    let annotation = output.lines().next().expect("annotation exists");
    assert!(annotation.starts_with("::error file=depgate.toml,line=2,col=7::"));
    assert!(annotation.contains("rules.app.deny-0: 1 match(es) — app v1.0.0 → blocked v2.0.0"));
    assert!(!annotation.contains(WORKSPACE));
}

#[test]
fn sealed_annotation_matches_the_version_free_human_body_convention() {
    let mut sealed_outcome = outcome(0, Vec::new());
    sealed_outcome.statuses = vec![status("rules.app.sealed", "sealed", false)];
    sealed_outcome.violations = vec![Violation {
        rule_id: "rules.app.sealed".to_owned(),
        package: "app".to_owned(),
        kind: "sealed",
        matches: Vec::new(),
        extra: Vec::new(),
        missing: Vec::new(),
        sealed_by: vec![SealedEntry {
            member: "tool".to_owned(),
            witness: vec![WitnessHop {
                name: "core".to_owned(),
                version: "9.8.7".to_owned(),
                target: Some("cfg(windows)".to_owned()),
                optional: false,
            }],
        }],
        span: span(format!("{WORKSPACE}/depgate.toml"), 2),
        features: None,
        activation_pruned: Vec::new(),
    }];
    sealed_outcome.counters =
        Counters { rules: 1, violations: 1, matches: 1, ..Counters::default() };

    let output = rendered(&sealed_outcome);
    let annotation_line = output
        .lines()
        .find(|line| line.contains("rules.app.sealed"))
        .expect("sealed annotation line exists");
    assert!(annotation_line.contains("— tool → core [cfg(windows)]"), "{annotation_line}");
    assert!(!annotation_line.contains(" v"), "no version marker expected: {annotation_line}");
}

#[test]
fn annotation_file_is_relative_to_github_workspace_when_the_workspace_is_nested() {
    let annotation = annotation_for("/repo/rust", Some("/repo"));
    assert!(
        annotation.starts_with("::error file=rust/depgate.toml,line=2,col=7::"),
        "{annotation}"
    );
}

#[test]
fn annotation_file_keeps_the_workspace_anchor_when_the_workspace_is_outside_github_workspace() {
    let annotation = annotation_for(WORKSPACE, Some("/repo"));
    assert!(annotation.starts_with("::error file=depgate.toml,line=2,col=7::"), "{annotation}");
}

#[test]
fn an_empty_github_workspace_is_treated_as_unset() {
    let annotation = annotation_for("/repo/rust", Some(""));
    assert!(annotation.starts_with("::error file=depgate.toml,line=2,col=7::"), "{annotation}");
}

#[test]
fn an_annotation_of_a_message_with_line_breaks_stays_on_its_line() {
    let mut broken = outcome(1, Vec::new());
    broken.violations[0].span.file = "/workspace/a\nb,c.toml".to_owned();
    let output = rendered(&broken);
    let annotation = output.lines().next().expect("annotation exists");
    assert!(annotation.starts_with("::error file=a%0Ab%2Cc.toml,line=2,col=7::"), "{annotation}");
}
