use cargo_depgate::config::{discover, load, FeatureSelection};
use cargo_depgate::error::Error;
use cargo_depgate::graph::{DeclaredDep, Graph, KindEntry, Scratch};
use cargo_depgate::metadata::{
    Decoded, Dep, Feature, Meta, MetadataOptions, MetadataSource, Node, Pkg, Resolve,
};
use cargo_depgate::pipeline::{
    check, effective_features, explain, feature_selection_after_metadata, member_manifests, plan,
    preload, spawn_options, CheckArgs, ExplainArgs, ExplainOutcome, Outcome,
};
use cargo_depgate::timings::Counters;
use serde_json::Value;

const HOST: &str = "x86_64-unknown-linux-gnu";
const ROOT: &str = "/ws";
const CONFIG: &str = "/ws/depgate.toml";

fn metadata_json() -> String {
    format!(
        r#"{{
  "packages": [
    {{"name":"app","version":"0.1.0","id":"path+file://{ROOT}/app#0.1.0","source":null,
     "manifest_path":"{ROOT}/app/Cargo.toml",
     "dependencies":[{{"name":"dep","kind":null,"optional":true}}]}},
    {{"name":"dep","version":"1.0.0","id":"registry+https://example.invalid/index#dep@1.0.0",
     "source":"registry+https://example.invalid/index",
     "manifest_path":"/cargo/registry/dep-1.0.0/Cargo.toml","dependencies":[]}}
  ],
  "workspace_members": ["path+file://{ROOT}/app#0.1.0"],
  "workspace_root": "{ROOT}",
  "resolve": {{
    "nodes": [
      {{"id":"path+file://{ROOT}/app#0.1.0","deps":[
        {{"name":"dep","pkg":"registry+https://example.invalid/index#dep@1.0.0",
         "dep_kinds":[{{"kind":null,"target":null}}]}}
      ]}},
      {{"id":"registry+https://example.invalid/index#dep@1.0.0","deps":[]}}
    ],
    "root": null
  }}
}}"#
    )
}

fn graph() -> Graph<'static> {
    let meta: &'static Meta = Box::leak(Box::new(decode(&metadata_json())));
    Graph::build(meta).expect("the graph builds")
}

/// Options of a run that reads its metadata from a file.
fn options() -> MetadataOptions {
    MetadataOptions::default().with_source(MetadataSource::File("metadata.json".to_owned()))
}

/// Checks the policy `text`, with the manifests of `app` and of the workspace root.
fn run_check(text: &str, manifest: Option<&str>, root_manifest: Option<&str>) -> Result<Outcome, Error> {
    let policy = load(CONFIG, Ok(text))?;
    let graph = graph();
    let mut scratch = Scratch::new(&graph);
    let plan = plan(&policy, &graph, HOST, true, &options())?;
    let reads = member_manifests(&graph)
        .into_iter()
        .map(|input| {
            assert_eq!(input.path, "/ws/app/Cargo.toml");
            (input, manifest.map(str::to_owned).ok_or_else(|| "not found".to_owned()))
        })
        .collect();
    check(&graph, plan, &reads, root_manifest, &mut scratch)
}

fn app_manifest(dependencies: &str) -> String {
    format!("[package]\nname = \"app\"\nversion = \"0.1.0\"\n\n[dependencies]\n{dependencies}")
}

fn explain_for_test(package: &str, dependency: &str) -> Result<ExplainOutcome, Error> {
    let graph = graph();
    let mut scratch = Scratch::new(&graph);
    explain(&graph, package, dependency, &mut scratch)
}

/// The text under `key`, when there is one.
fn text(value: &Value, key: &str) -> Option<String> {
    value.get(key).and_then(Value::as_str).map(str::to_owned)
}

/// The texts of an array; none when there is no array.
fn texts(value: Option<&Value>) -> Vec<String> {
    let items = value.and_then(Value::as_array).map(Vec::as_slice).unwrap_or_default();
    items.iter().filter_map(Value::as_str).map(str::to_owned).collect()
}

fn declaration(value: &Value) -> DeclaredDep {
    DeclaredDep {
        name: text(value, "name").expect("a dependency has a name"),
        kind: text(value, "kind"),
        optional: value.get("optional").and_then(Value::as_bool).unwrap_or(false),
        rename: text(value, "rename"),
        target: text(value, "target"),
        features: texts(value.get("features")),
        uses_default_features: value
            .get("uses_default_features")
            .and_then(Value::as_bool)
            .unwrap_or(true),
    }
}

fn declarations(value: Option<&Value>) -> Decoded<Vec<DeclaredDep>> {
    match value.and_then(Value::as_array) {
        Some(items) => Decoded::Value(items.iter().map(declaration).collect()),
        None => Decoded::Malformed("expected a sequence".to_owned()),
    }
}

fn feature_table(value: Option<&Value>) -> Decoded<Vec<Feature>> {
    match value {
        None => Decoded::Value(Vec::new()),
        Some(Value::Object(map)) => {
            let mut features = Vec::new();
            for (name, entries) in map {
                features.push(Feature { name: name.clone(), entries: texts(Some(entries)) });
            }
            Decoded::Value(features)
        }
        Some(_) => Decoded::Malformed("expected a map".to_owned()),
    }
}

fn kind_entries(value: &Value) -> Decoded<Vec<KindEntry>> {
    match value.as_array() {
        Some(items) => Decoded::Value(
            items
                .iter()
                .map(|item| KindEntry { kind: text(item, "kind"), target: text(item, "target") })
                .collect(),
        ),
        None => Decoded::Malformed("expected a sequence".to_owned()),
    }
}

fn package(value: &Value) -> Pkg {
    Pkg {
        id: text(value, "id").expect("a package has an id"),
        name: text(value, "name").expect("a package has a name"),
        version: text(value, "version").expect("a package has a version"),
        manifest_path: text(value, "manifest_path").expect("a package has a manifest"),
        source: text(value, "source"),
        dependencies: declarations(value.get("dependencies")),
        features: feature_table(value.get("features")),
    }
}

fn node(value: &Value) -> Node {
    let deps = value.get("deps").and_then(Value::as_array).expect("a node has edges");
    Node {
        id: text(value, "id").expect("a node has an id"),
        deps: deps
            .iter()
            .map(|dep| Dep {
                name: text(dep, "name"),
                pkg: text(dep, "pkg").expect("an edge has a target"),
                dep_kinds: dep.get("dep_kinds").map(kind_entries),
            })
            .collect(),
        features: match value.get("features") {
            None => Decoded::Value(Vec::new()),
            Some(list @ Value::Array(_)) => Decoded::Value(texts(Some(list))),
            Some(_) => Decoded::Malformed("expected a sequence".to_owned()),
        },
    }
}

/// The metadata document `json` holds.
fn decode(json: &str) -> Meta {
    let value: Value = serde_json::from_str(json).expect("the document is JSON");
    let packages = value.get("packages").and_then(Value::as_array).expect("packages");
    let nodes = value.get("resolve").and_then(|r| r.get("nodes")).and_then(Value::as_array);
    Meta {
        packages: packages.iter().map(package).collect(),
        workspace_members: texts(value.get("workspace_members")),
        workspace_root: text(&value, "workspace_root").expect("workspace_root"),
        resolve: nodes.map(|nodes| Resolve { nodes: nodes.iter().map(node).collect() }),
        unrebased_path_deps: 0,
    }
}

#[test]
fn manifest_rule_alone_is_one_rule_and_passes_on_a_clean_member() {
    let manifest = app_manifest("dep = { workspace = true, optional = true }\n");

    let outcome = run_check("schema = 1\n", Some(&manifest), None)
        .expect("a clean member manifest passes the manifest rule");

    assert_eq!(outcome.exit, 0);
    assert_eq!(outcome.statuses.len(), 1);
    assert_eq!(outcome.statuses[0].id, "manifest.versions-in-root");
    assert_eq!(outcome.statuses[0].kind, "manifest");
    assert_eq!(outcome.statuses[0].package, None);
    assert!(outcome.statuses[0].passed);
    assert_eq!(outcome.statuses[0].matched, 0);
    assert!(outcome.violations.is_empty());
    let report = outcome.manifest.as_ref().expect("the enabled rule returns its report");
    assert!(report.passed());
    assert_eq!(report.manifests_scanned, 1);
    assert_eq!(outcome.workspace_root, ROOT);
    assert_eq!(outcome.counters.rules, 1);
    assert_eq!(outcome.counters.violations, 0);
}

#[test]
fn manifest_entries_fail_the_rule_once_after_the_graph_rules() {
    let manifest = app_manifest(
        "dep = { version = \"1.0\", optional = true }\nother = { path = \"../other\" }\n",
    );

    let outcome = run_check("schema = 1\n\n[rules.app]\nleaf = true\n", Some(&manifest), None)
        .expect("manifest entries are returned as an outcome");

    assert_eq!(outcome.exit, 1);
    let ids: Vec<&str> = outcome.statuses.iter().map(|status| status.id.as_str()).collect();
    assert_eq!(ids, vec!["rules.app.leaf", "manifest.versions-in-root"]);
    assert!(outcome.statuses[0].passed);
    assert!(!outcome.statuses[1].passed);
    assert_eq!(outcome.statuses[1].matched, 1);
    assert!(outcome.violations.is_empty(), "graph violations stay graph-only");
    let report = outcome.manifest.as_ref().expect("the enabled rule returns its report");
    assert_eq!(report.entries.len(), 1);
    let entry = &report.entries[0];
    assert_eq!(entry.package, "app");
    assert_eq!(entry.table, "dependencies");
    assert_eq!(entry.dependency, "dep");
    assert_eq!(entry.version, "1.0");
    assert_eq!(entry.span.file, "/ws/app/Cargo.toml");
    assert_eq!((entry.span.line, entry.span.col), (6, 19));
    assert_eq!(outcome.counters.rules, 2);
    assert_eq!(outcome.counters.violations, 1);
    assert_eq!(outcome.counters.matches, 0, "manifest entries are not graph matches");
}

/// The human report's first-run hint depends on this answer, so the pipeline has to reach the
/// workspace-owning manifest and distinguish "no `[workspace.dependencies]` table" from "no
/// readable manifest at all".
#[test]
fn a_failing_manifest_rule_records_whether_the_workspace_centralises_versions() {
    let centralising = |root_manifest: Option<&str>| {
        let manifest = app_manifest("dep = { version = \"1.0\", optional = true }\n");
        let outcome = run_check("schema = 1\n", Some(&manifest), root_manifest)
            .expect("manifest entries are returned as an outcome");
        let report = outcome.manifest.expect("the enabled rule returns its report");
        assert!(!report.passed(), "the fixture member names a version");
        report.root_workspace_dependencies
    };

    assert_eq!(
        centralising(Some(
            "[workspace]\nmembers = [\"app\"]\n\n[workspace.dependencies]\ndep = \"1.0\"\n"
        )),
        Some(true)
    );
    assert_eq!(centralising(Some("[workspace]\nmembers = [\"app\"]\n")), Some(false));
    assert_eq!(centralising(None), None, "an unreadable root manifest stays unknown");
}

#[test]
fn a_missing_member_manifest_aborts_with_exit_3() {
    let error = run_check("schema = 1\n", None, None)
        .expect_err("an unreadable member manifest must not be skipped");

    assert!(
        matches!(&error, Error::ManifestRead { path, .. } if path == "/ws/app/Cargo.toml"),
        "{error:?}"
    );
    assert_eq!(error.exit_code(), 3);
}

#[test]
fn passing_direct_rule_populates_counters_and_warning() {
    let outcome = run_check(
        "schema = 1\n\n[manifest]\nversions-in-root = false\n\n[rules.app]\ndirect = [\"dep\"]\n",
        None,
        None,
    )
    .expect("the direct rule should pass");

    assert_eq!(outcome.exit, 0);
    assert_eq!(outcome.statuses.len(), 1);
    assert!(outcome.statuses[0].passed);
    assert_eq!(outcome.statuses[0].kind, "direct");
    assert!(outcome.violations.is_empty());
    assert_eq!(
        outcome.counters,
        Counters {
            packages: 2,
            members: 1,
            normal_edges: 1,
            names: 2,
            superset_extra_edges: 0,
            direct_optional_decls: 1,
            unrebased_path_deps: 0,
            rules: 1,
            violations: 0,
            matches: 0,
        }
    );
    assert!(outcome.manifest.is_none(), "versions-in-root = false must skip the manifest rule");
    assert_eq!(outcome.member_versions.get("app").map(String::as_str), Some("0.1.0"));
    assert_eq!(
        outcome.features, None,
        "no cargo ran, so the selection that shaped the document is unknowable"
    );
    let warning = "warning: rules.app.direct: app declares optional dependency dep; sibling feature unification may add it to the resolved edge set\n";
    assert_eq!(outcome.warnings, vec![warning.trim_end().to_owned()]);
}

#[test]
fn failing_deny_rule_returns_policy_outcome() {
    let outcome = run_check(
        "schema = 1\n\n[manifest]\nversions-in-root = false\n\n[rules.app]\ndeny = [\"dep\"]\n",
        None,
        None,
    )
    .expect("policy violations are returned as an outcome");

    assert_eq!(outcome.exit, 1);
    assert_eq!(outcome.statuses.len(), 1);
    assert!(!outcome.statuses[0].passed);
    assert_eq!(outcome.statuses[0].matched, 1);
    assert_eq!(outcome.violations.len(), 1);
    assert_eq!(outcome.violations[0].rule_id, "rules.app.deny");
    assert_eq!(outcome.violations[0].matches[0].name, "dep");
    assert_eq!(outcome.counters.rules, 1);
    assert_eq!(outcome.counters.violations, 1);
    assert_eq!(outcome.counters.matches, 1);
    assert_eq!(outcome.counters.superset_extra_edges, 1);
    assert_eq!(outcome.counters.direct_optional_decls, 0);
}

#[test]
fn explain_unknown_package_returns_configuration_error() {
    let result = explain_for_test("missing", "dep");

    let error = result.expect_err("an unknown explain root must fail");
    assert!(matches!(
        &error,
        Error::Configuration { message, span }
            if message == "explain references unknown package `missing`" && span.is_none()
    ));
    assert_eq!(error.exit_code(), 2);
}

#[test]
fn explain_unknown_dependency_returns_configuration_error() {
    let result = explain_for_test("app", "missing");

    let error = result.expect_err("an unknown explain dependency must fail");
    assert!(matches!(
        &error,
        Error::Configuration { message, span }
            if message == "explain references unknown package `missing`" && span.is_none()
    ));
    assert_eq!(error.exit_code(), 2);
}

#[test]
fn explain_returns_a_root_to_dependency_witness_when_reachable() {
    let outcome = explain_for_test("app", "dep")
        .expect("the dependency should be reachable");

    assert!(outcome.reachable);
    assert_eq!(outcome.root, "app");
    assert_eq!(outcome.root_version, "0.1.0");
    assert_eq!(outcome.dependency, "dep");
    assert_eq!(outcome.path.last().map(|hop| hop.name.as_str()), Some("dep"));
}

#[test]
fn explain_returns_an_empty_path_when_dependency_is_not_reachable() {
    let outcome = explain_for_test("dep", "app")
        .expect("an unreachable dependency is a successful query");

    assert!(!outcome.reachable);
    assert!(outcome.path.is_empty());
}

fn spawn_base() -> MetadataOptions {
    MetadataOptions::default()
}

#[test]
fn explicit_config_features_reach_the_spawn_unless_the_cli_selected_some() {
    let all = spawn_options(&spawn_base(), &FeatureSelection::All);
    assert!(all.all_features);

    let list =
        spawn_options(&spawn_base(), &FeatureSelection::List(vec!["app/net".to_owned()]));
    assert_eq!(list.features, ["app/net"]);

    let mut cli = spawn_base();
    cli.features.push("app/other".to_owned());
    let kept = spawn_options(&cli, &FeatureSelection::All);
    assert!(!kept.all_features, "CLI feature flags override the config");
    assert_eq!(kept.features, ["app/other"]);

    let mut json = spawn_base();
    json.source = Some(MetadataSource::Stdin);
    let untouched = spawn_options(&json, &FeatureSelection::All);
    assert!(!untouched.all_features, "nothing is spawned under --metadata-json");
}

#[test]
fn discovered_non_default_features_are_an_error_and_json_input_only_warns() {
    let all = FeatureSelection::All;
    assert!(feature_selection_after_metadata(true, &spawn_base(), &all).is_ok_and(|w| w.is_none()));
    assert!(
        feature_selection_after_metadata(false, &spawn_base(), &FeatureSelection::Default)
            .is_ok_and(|w| w.is_none())
    );

    let error = feature_selection_after_metadata(false, &spawn_base(), &all)
        .expect_err("a discovered config cannot select features after the spawn");
    assert_eq!(error.exit_code(), 2);
    assert!(error.describe().contains("--config"), "{}", error.describe());

    let mut json = spawn_base();
    json.source = Some(MetadataSource::Stdin);
    let warning = feature_selection_after_metadata(false, &json, &all).expect("warning only");
    assert!(warning.is_some_and(|w| w.contains("--metadata-json")));

    let mut cli = spawn_base();
    cli.all_features = true;
    assert!(feature_selection_after_metadata(false, &cli, &all).is_ok_and(|w| w.is_none()));
}

#[test]
fn the_reported_selection_is_the_one_that_reached_the_spawn() {
    // The options passed here are the post-`spawn_options` ones, exactly as `check` reads them.
    let base = spawn_base();
    assert_eq!(
        effective_features(&base, &FeatureSelection::Default),
        Some(FeatureSelection::Default)
    );

    let mut all = spawn_base();
    all.all_features = true;
    assert_eq!(
        effective_features(&all, &FeatureSelection::Default),
        Some(FeatureSelection::All),
        "--all-features wins over the file's default"
    );

    let mut list = spawn_base();
    list.features.push("app/net".to_owned());
    assert_eq!(
        effective_features(&list, &FeatureSelection::All),
        Some(FeatureSelection::List(vec!["app/net".to_owned()])),
        "a CLI --features list wins over features = \"all\""
    );

    let mut json = spawn_base();
    json.source = Some(MetadataSource::Stdin);
    json.all_features = true;
    assert_eq!(
        effective_features(&json, &FeatureSelection::All),
        None,
        "no cargo ran under --metadata-json, so the flags shaped nothing"
    );
}

#[test]
fn bare_no_default_features_is_not_a_cli_feature_selection() {
    // Cargo combines `--no-default-features` with `--features …` rather than replacing the
    // selection, so on its own it must not discard the config's list.
    let mut no_default = spawn_base();
    no_default.no_default_features = true;
    let list = FeatureSelection::List(vec!["app/net".to_owned()]);

    let combined = spawn_options(&no_default, &list);
    assert!(combined.no_default_features, "the CLI flag still reaches the spawn");
    assert_eq!(combined.features, ["app/net"], "the config's list still applies");

    let all = spawn_options(&no_default, &FeatureSelection::All);
    assert!(all.all_features);
    assert!(all.no_default_features);

    // With no CLI selection, a discovered non-default selection stays a hard error.
    let error =
        feature_selection_after_metadata(false, &no_default, &FeatureSelection::All)
            .expect_err("a discovered config still cannot select features after the spawn");
    assert_eq!(error.exit_code(), 2);

    // `--features` and `--all-features` remain selections that win over the config.
    let mut features = spawn_base();
    features.no_default_features = true;
    features.features.push("app/other".to_owned());
    let kept = spawn_options(&features, &FeatureSelection::All);
    assert!(!kept.all_features, "an explicit --features list overrides the config");
    assert_eq!(kept.features, ["app/other"]);
}

/// Both argument structs are `#[non_exhaustive]`, so downstream callers reach the pipeline only
/// through these constructors: `new` has to leave the configuration discovered, and
/// `with_config_path` has to be the one thing that makes it explicit.
#[test]
fn the_argument_constructors_default_to_a_discovered_configuration() {
    let options = MetadataOptions::default().with_offline(true);

    let discovered = CheckArgs::new(options.clone());
    assert_eq!(discovered.metadata, options);
    assert_eq!(discovered.config_path, None);

    let explicit = CheckArgs::new(options.clone()).with_config_path("/ws/depgate.toml");
    assert_eq!(explicit.config_path, Some("/ws/depgate.toml".to_owned()));

    let explain = ExplainArgs::new(options.clone(), "app", "dep");
    assert_eq!(explain.metadata, options);
    assert_eq!(explain.config_path, None);
    assert_eq!(explain.package, "app");
    assert_eq!(explain.dependency, "dep");

    let explain = explain.with_config_path("/ws/depgate.toml");
    assert_eq!(explain.config_path, Some("/ws/depgate.toml".to_owned()));
}

#[test]
fn discovered_phase_a_error_happens_after_metadata() {
    let error = run_check("schema = 2\n", None, None)
        .expect_err("discovered phase-A configuration should fail");

    match error {
        Error::Configuration { ref message, ref span } => {
            assert!(message.contains("unsupported configuration schema 2"));
            assert_eq!(span.as_ref().expect("schema errors have a span").file, CONFIG);
        }
        other => panic!("expected a configuration error, got {other:?}"),
    }
    assert_eq!(error.exit_code(), 2);
}

#[test]
fn a_policy_fails_alike_before_and_after_the_metadata_is_there() {
    let policy = load(CONFIG, Ok("schema = 2\n")).expect("the policy decodes");
    let graph = graph();

    let explicit = preload(&policy, HOST).expect_err("an unsupported schema");
    let discovered = plan(&policy, &graph, HOST, false, &options()).expect_err("the same");

    assert_eq!(explicit.describe(), discovered.describe());
}

#[test]
fn missing_discovered_config_names_absolute_path() {
    let path = discover(ROOT);

    let error = load(&path, Err("not found")).expect_err("a missing configuration should fail");

    assert!(matches!(error, Error::Configuration { .. }));
    assert_eq!(error.exit_code(), 2);
    assert!(error.describe().contains(CONFIG), "{}", error.describe());
}

#[test]
fn explain_warns_that_metadata_json_ignores_config_features() {
    let policy = load(
        CONFIG,
        Ok("schema = 1\n\n[graph]\nfeatures = \"all\"\n\n[manifest]\nversions-in-root = false\n\n[rules.app]\ndirect = [\"dep\"]\n"),
    )
    .expect("the policy decodes");
    let graph = graph();

    let plan = plan(&policy, &graph, HOST, true, &options()).expect("the policy is valid");

    assert!(
        plan.warnings[0].contains("[graph].features is ignored under --metadata-json"),
        "{:?}",
        plan.warnings
    );
    assert!(explain_for_test("app", "dep").is_ok_and(|outcome| outcome.reachable));
}

#[test]
fn explain_and_deny_agree() {
    let reached = explain_for_test("app", "dep").expect("both are known").reachable;
    let outcome = run_check(
        "schema = 1\n\n[manifest]\nversions-in-root = false\n\n[rules.app]\ndeny = [\"dep\"]\n",
        None,
        None,
    )
    .expect("the policy is valid");

    assert!(reached);
    assert_eq!(outcome.exit, 1);
}
