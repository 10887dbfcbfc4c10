use cargo_depgate::cli::{
    arguments, explain_path, explain_text, metadata_source, render_configuration_error,
    resolve_format, warn_if_flags_ignored, write_report_result, FlagsGiven, WriteEnd, PLUGIN_TOKEN,
    PROGRAM,
};
use cargo_depgate::config::{FeatureSelection, Span};
use cargo_depgate::manifest::{self, ManifestReport, ManifestViolation};
use cargo_depgate::metadata::MetadataSource;
use cargo_depgate::pipeline::{ExplainOutcome, MemberVersions, Outcome};
use cargo_depgate::platform::PlatformSelection;
use cargo_depgate::report::{self, Format, RenderContext, Rendered};
use cargo_depgate::rules::{RuleStatus, WitnessHop};
use cargo_depgate::timings::Counters;

fn render_human_report(outcome: &Outcome) -> String {
    let context = RenderContext::new(outcome.workspace_root.clone(), "cargo-depgate", "test", false);
    match report::render(Format::Human, outcome, &context, &Vec::new()) {
        Rendered::Text(text) => text,
        Rendered::Document(_) => panic!("the human report is a text"),
    }
}

fn owned(arguments: &[&str]) -> Vec<String> {
    arguments.iter().map(|argument| (*argument).to_owned()).collect()
}

/// What is left of `argv` to parse.
fn parsed(argv: &[&str]) -> Vec<String> {
    let plugin = argv.get(1) == Some(&PLUGIN_TOKEN);
    arguments(owned(argv), PROGRAM.to_owned(), plugin)
}

#[test]
fn human_report_prints_manifest_entries_relative_to_the_workspace_root() {
    let workspace_root = "/ws".to_owned();
    let entry = |dependency: &str, table: &str, line: u32, col: u32| ManifestViolation {
        package: "app".to_owned(),
        table: table.to_owned(),
        dependency: dependency.to_owned(),
        version: "0.1.0".to_owned(),
        span: Span { file: format!("{workspace_root}/crates/app/Cargo.toml"), line, col },
        span_bytes: 7,
    };
    let outcome = Outcome {
        statuses: vec![
            RuleStatus {
                id: "rules.app.deny".to_owned(),
                package: Some("app".to_owned()),
                kind: "deny",
                passed: true,
                matched: 0,
                features: None,
                activation_pruned: Vec::new(),
            },
            RuleStatus {
                id: manifest::RULE_ID.to_owned(),
                package: None,
                kind: manifest::RULE_KIND,
                passed: false,
                matched: 2,
                features: None,
                activation_pruned: Vec::new(),
            },
        ],
        violations: Vec::new(),
        manifest: Some(ManifestReport {
            entries: vec![
                entry("foo", "dependencies", 7, 36),
                entry("baz", "target.'cfg(unix)'.dependencies", 19, 36),
            ],
            manifests_scanned: 1,
            bytes_scanned: 400,
            root_workspace_dependencies: None,
        }),
        warnings: Vec::new(),
        workspace_root,
        counters: Counters { rules: 2, violations: 1, ..Counters::default() },
        member_versions: MemberVersions { entries: vec![("app".to_owned(), "0.1.0".to_owned())] },
        features: Some(FeatureSelection::Default),
        platform: PlatformSelection::all(),
        exit: 1,
    };

    let rendered = render_human_report(&outcome);

    assert!(rendered.contains("ok rules.app.deny"));
    assert!(rendered.contains("manifest.versions-in-root"));
    assert!(rendered.contains("crates/app/Cargo.toml:7:36"));
    assert!(rendered.contains("dependencies foo = \"0.1.0\""));
    assert!(rendered.contains("crates/app/Cargo.toml:19:36"));
    assert!(rendered.contains("target.'cfg(unix)'.dependencies baz = \"0.1.0\""));
    assert!(rendered.ends_with("FAIL: 2 rules, 1 violations\n"));
}

#[test]
fn plain_report_marks_a_clean_manifest_rule_ok() {
    let outcome = Outcome {
        statuses: vec![RuleStatus {
            id: manifest::RULE_ID.to_owned(),
            package: None,
            kind: manifest::RULE_KIND,
            passed: true,
            matched: 0,
            features: None,
            activation_pruned: Vec::new(),
        }],
        violations: Vec::new(),
        manifest: Some(ManifestReport::default()),
        warnings: Vec::new(),
        workspace_root: "/ws".to_owned(),
        counters: Counters { rules: 1, ..Counters::default() },
        member_versions: MemberVersions { entries: Vec::new() },
        features: Some(FeatureSelection::Default),
        platform: PlatformSelection::all(),
        exit: 0,
    };

    let rendered = render_human_report(&outcome);

    assert_eq!(rendered, "ok manifest.versions-in-root\nok: 1 rules, 0 violations\n");
}

#[test]
fn direct_and_plugin_calls_leave_the_same_arguments() {
    assert_eq!(parsed(&["cargo-depgate", "depgate", "check"]), ["cargo-depgate", "check"]);
    assert_eq!(parsed(&["cargo-depgate", "check"]), ["cargo-depgate", "check"]);
    assert_eq!(
        parsed(&["cargo-depgate", "depgate", "explain", "a", "b"]),
        ["cargo-depgate", "explain", "a", "b"]
    );
    assert_eq!(parsed(&[]), ["cargo-depgate"]);
}

#[test]
fn metadata_json_dash_means_stdin_and_any_other_value_is_a_file() {
    assert_eq!(metadata_source("-"), MetadataSource::Stdin);
    assert_eq!(metadata_source("./-"), MetadataSource::File("./-".to_owned()));
}

#[test]
fn the_format_is_github_inside_an_action_unless_it_is_chosen() {
    assert_eq!(resolve_format(None, None), Format::Human);
    assert_eq!(resolve_format(None, Some("true")), Format::Github);
    assert_eq!(resolve_format(None, Some("false")), Format::Human);
    assert_eq!(resolve_format(Some(Format::Json), Some("true")), Format::Json);
}

#[test]
fn flags_that_a_document_ignores_are_warned_about() {
    let mut flags = FlagsGiven {
        metadata_json: false,
        locked: true,
        no_locked: false,
        features: true,
        all_features: false,
        no_default_features: true,
    };
    assert!(warn_if_flags_ignored(flags).is_empty());
    flags.metadata_json = true;
    assert_eq!(
        warn_if_flags_ignored(flags),
        [
            "warning: --locked is ignored under --metadata-json; the JSON may predate Cargo.lock",
            "warning: --features, --no-default-features ignored under --metadata-json; the JSON was produced with its own feature selection",
        ]
    );
}

#[test]
fn an_explanation_is_one_line_and_its_path_starts_at_the_root() {
    let mut outcome = ExplainOutcome {
        reachable: true,
        root: "app".to_owned(),
        root_version: "0.1.0".to_owned(),
        dependency: "dep".to_owned(),
        path: vec![WitnessHop {
            name: "dep".to_owned(),
            version: "1.0.0".to_owned(),
            target: Some("cfg(unix)".to_owned()),
            optional: false,
        }],
    };
    assert_eq!(explain_text(&outcome), "app v0.1.0 \u{2192} dep v1.0.0 [cfg(unix)]\n");
    let names: Vec<String> = explain_path(&outcome).into_iter().map(|hop| hop.name).collect();
    assert_eq!(names, ["app", "dep"]);

    outcome.reachable = false;
    outcome.path = Vec::new();
    assert_eq!(explain_text(&outcome), "not reachable\n");
    assert!(explain_path(&outcome).is_empty());
}

#[test]
fn a_closed_reader_is_no_error_and_a_full_disk_is_one() {
    assert!(write_report_result(WriteEnd::Written).is_ok());
    assert!(write_report_result(WriteEnd::BrokenPipe).is_ok());
    let error = write_report_result(WriteEnd::Failed("disk full".to_owned())).expect_err("lost");
    assert_eq!(error.exit_code(), 4);
}

#[test]
fn a_configuration_error_is_drawn_where_its_source_is_at_hand() {
    let span = Span { file: "depgate.toml".to_owned(), line: 1, col: 1 };
    let drawn = render_configuration_error("bad", Some(&span), Some("schema = 2\n"), false);
    assert!(drawn.starts_with("error: bad\n"), "{drawn}");
    assert!(drawn.contains("depgate.toml:1:1"), "{drawn}");
    assert_eq!(render_configuration_error("bad", None, None, false), "error: bad\n");
}
