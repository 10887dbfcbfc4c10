use cargo_depgate::config::{
    discover, load, source_span, validate, FeatureValue, PlatformValue, RawConfig, Rule, RuleKind,
    Span,
};
use cargo_depgate::error::Error;
use cargo_depgate::graph::{DeclaredDep, Graph, KindEntry};
use cargo_depgate::metadata::{Decoded, Dep, Feature, Meta, Node, Pkg, Resolve};
use serde_json::Value;

const HOST: &str = "x86_64-unknown-linux-gnu";

/// The text of one of the configurations below.
fn fixture_text(name: &str) -> &'static str {
    match name {
        "unknown-key.toml" => "schema = 1\nmystery = true\n",
        "zero-rules.toml" => "schema = 1\n\n[manifest]\nversions-in-root = false\n",
        "leaf-and-internal.toml" => {
            "schema = 1\n\n[rules.foo]\nleaf = true\ninternal = [\"bar\"]\n"
        }
        "self-reference.toml" => "schema = 1\n\n[rules.foo]\ninternal = [\"foo\"]\n",
        "bad-glob.toml" => "schema = 1\n\n[rules.foo]\ndeny = [\"a[b\"]\n",
        "non-member.toml" => "schema = 1\n\n[rules.nonexistent-pkg]\ndeny = [\"dep\"]\n",
        "unknown-direct.toml" => {
            "schema = 1\n\n[rules.app]\ndirect = [\"totally-unknown-name\"]\n"
        }
        other => panic!("there is no configuration {other}"),
    }
}

fn load_fixture(name: &str) -> RawConfig {
    match load(name, Ok(fixture_text(name))) {
        Ok(loaded) => loaded,
        Err(error) => panic!("{name} should decode: {error:?}"),
    }
}

fn configuration_load_error(name: &str) -> (String, Option<Span>) {
    match load(name, Ok(fixture_text(name))) {
        Err(Error::Configuration { message, span }) => (message, span),
        Ok(_) => panic!("{name} unexpectedly loaded successfully"),
        Err(error) => panic!("{name} returned the wrong error: {error:?}"),
    }
}

fn assert_span(span: Option<&Span>, file: &str, line: u32, col: u32) {
    let actual = span.expect("configuration error has a source span");
    assert_eq!(actual.file, file);
    assert_eq!((actual.line, actual.col), (line, col));
}

/// Decodes `json` into a leaked, `'static` [`Meta`] so the graph can borrow it freely.
fn meta(json: &str) -> &'static Meta {
    Box::leak(Box::new(decode(json)))
}

fn raw_config(text: &str) -> RawConfig {
    load("depgate.toml", Ok(text)).expect("configuration parses")
}

fn deny_matches(rule: &Rule, name: &str) -> bool {
    match &rule.kind {
        RuleKind::Deny { exact, globs, .. } => {
            exact.iter().any(|value| value == name) || globs.is_match(name)
        }
        _ => false,
    }
}

fn synthetic_graph() -> Graph<'static> {
    let json = r#"{
      "packages": [
        {"name":"app","version":"1.0.0","id":"path+file:///ws/app#1.0.0","source":null,
         "manifest_path":"/ws/app/Cargo.toml",
         "dependencies":[{"name":"dep","kind":null,"optional":true}]},
        {"name":"dep","version":"1.0.0","id":"registry+https://example.invalid/index#dep@1.0.0",
         "source":"registry+https://example.invalid/index",
         "manifest_path":"/cargo/registry/dep-1.0.0/Cargo.toml","dependencies":[]}
      ],
      "workspace_members": ["path+file:///ws/app#1.0.0"],
      "workspace_root":"/ws",
      "resolve": {
        "nodes": [
          {"id":"path+file:///ws/app#1.0.0","deps":[
            {"name":"dep","pkg":"registry+https://example.invalid/index#dep@1.0.0",
             "dep_kinds":[{"kind":null,"target":null}]}
          ]},
          {"id":"registry+https://example.invalid/index#dep@1.0.0","deps":[]}
        ],
        "root":null
      }
    }"#;
    Graph::build(meta(json)).expect("synthetic graph builds")
}

/// The text under `key`, when there is one.
fn text(value: &Value, key: &str) -> Option<String> {
    value.get(key).and_then(Value::as_str).map(str::to_owned)
}

/// The texts of an array; none when there is no array.
fn texts(value: Option<&Value>) -> Vec<String> {
    let items = value.and_then(Value::as_array).map(Vec::as_slice).unwrap_or_default();
    items.iter().filter_map(Value::as_str).map(str::to_owned).collect()
}

fn declaration(value: &Value) -> DeclaredDep {
    DeclaredDep {
        name: text(value, "name").expect("a dependency has a name"),
        kind: text(value, "kind"),
        optional: value.get("optional").and_then(Value::as_bool).unwrap_or(false),
        rename: text(value, "rename"),
        target: text(value, "target"),
        features: texts(value.get("features")),
        uses_default_features: value
            .get("uses_default_features")
            .and_then(Value::as_bool)
            .unwrap_or(true),
    }
}

fn declarations(value: Option<&Value>) -> Decoded<Vec<DeclaredDep>> {
    match value.and_then(Value::as_array) {
        Some(items) => Decoded::Value(items.iter().map(declaration).collect()),
        None => Decoded::Malformed("expected a sequence".to_owned()),
    }
}

fn feature_table(value: Option<&Value>) -> Decoded<Vec<Feature>> {
    match value {
        None => Decoded::Value(Vec::new()),
        Some(Value::Object(map)) => {
            let mut features = Vec::new();
            for (name, entries) in map {
                features.push(Feature { name: name.clone(), entries: texts(Some(entries)) });
            }
            Decoded::Value(features)
        }
        Some(_) => Decoded::Malformed("expected a map".to_owned()),
    }
}

fn kind_entries(value: &Value) -> Decoded<Vec<KindEntry>> {
    match value.as_array() {
        Some(items) => Decoded::Value(
            items
                .iter()
                .map(|item| KindEntry { kind: text(item, "kind"), target: text(item, "target") })
                .collect(),
        ),
        None => Decoded::Malformed("expected a sequence".to_owned()),
    }
}

fn package(value: &Value) -> Pkg {
    Pkg {
        id: text(value, "id").expect("a package has an id"),
        name: text(value, "name").expect("a package has a name"),
        version: text(value, "version").expect("a package has a version"),
        manifest_path: text(value, "manifest_path").expect("a package has a manifest"),
        source: text(value, "source"),
        dependencies: declarations(value.get("dependencies")),
        features: feature_table(value.get("features")),
    }
}

fn node(value: &Value) -> Node {
    let deps = value.get("deps").and_then(Value::as_array).expect("a node has edges");
    Node {
        id: text(value, "id").expect("a node has an id"),
        deps: deps
            .iter()
            .map(|dep| Dep {
                name: text(dep, "name"),
                pkg: text(dep, "pkg").expect("an edge has a target"),
                dep_kinds: dep.get("dep_kinds").map(kind_entries),
            })
            .collect(),
        features: match value.get("features") {
            None => Decoded::Value(Vec::new()),
            Some(list @ Value::Array(_)) => Decoded::Value(texts(Some(list))),
            Some(_) => Decoded::Malformed("expected a sequence".to_owned()),
        },
    }
}

/// The metadata document `json` holds.
fn decode(json: &str) -> Meta {
    let value: Value = serde_json::from_str(json).expect("the document is JSON");
    let packages = value.get("packages").and_then(Value::as_array).expect("packages");
    let nodes = value.get("resolve").and_then(|r| r.get("nodes")).and_then(Value::as_array);
    Meta {
        packages: packages.iter().map(package).collect(),
        workspace_members: texts(value.get("workspace_members")),
        workspace_root: text(&value, "workspace_root").expect("workspace_root"),
        resolve: nodes.map(|nodes| Resolve { nodes: nodes.iter().map(node).collect() }),
        unrebased_path_deps: 0,
    }
}

#[test]
fn unknown_key_reports_toml_error_and_key_span() {
    let (message, span) = configuration_load_error("unknown-key.toml");

    assert_eq!(
        message,
        "TOML parse error at line 2, column 1\n  |\n2 | mystery = true\n  | ^^^^^^^\nunknown field `mystery`, expected one of `schema`, `graph`, `internal`, `manifest`, `rules`\n"
    );
    // The unknown key starts at line 2, column 1 in unknown-key.toml.
    assert_span(span.as_ref(), "unknown-key.toml", 2, 1);
}

#[test]
fn zero_rules_is_rejected_when_root_versions_are_disabled() {
    let raw = load_fixture("zero-rules.toml");
    let error = validate(&raw, None, HOST).expect_err("zero rules must be rejected");

    assert_eq!(error.message, "depgate.toml declares no rules");
    // The zero-offset configuration error is reported at line 1, column 1.
    assert_span(error.span.as_ref(), "zero-rules.toml", 1, 1);
}

#[test]
fn leaf_and_internal_is_rejected() {
    let raw = load_fixture("leaf-and-internal.toml");
    let error = validate(&raw, None, HOST).expect_err("conflicting rule kinds must fail");

    assert_eq!(error.message, "rules.foo declares both leaf and internal");
    // The `true` value in `leaf = true` starts at line 4, column 8.
    assert_span(error.span.as_ref(), "leaf-and-internal.toml", 4, 8);
}

#[test]
fn self_reference_is_rejected_at_the_array_entry() {
    let raw = load_fixture("self-reference.toml");
    let error = validate(&raw, None, HOST).expect_err("self-reference must fail");

    assert_eq!(error.message, "rules.foo.internal cannot contain the rule package itself (foo)");
    // The first array entry (`foo`) starts at line 4, column 13.
    assert_span(error.span.as_ref(), "self-reference.toml", 4, 13);
}

#[test]
fn unterminated_glob_reports_the_glob_parser_error_and_entry_span() {
    let raw = load_fixture("bad-glob.toml");
    let error = validate(&raw, None, HOST).expect_err("unterminated glob must fail");

    assert_eq!(error.message, "error parsing glob 'a[b': unclosed character class; missing ']'");
    // The first glob entry (`"a[b"`) starts at line 4, column 9.
    assert_span(error.span.as_ref(), "bad-glob.toml", 4, 9);
}

#[test]
fn phase_a_error_is_pure_with_or_without_a_graph() {
    let raw = load_fixture("leaf-and-internal.toml");
    let graph = synthetic_graph();
    let without_graph = validate(&raw, None, HOST).expect_err("fixture must fail in phase A");
    let with_graph =
        validate(&raw, Some(&graph), HOST).expect_err("phase A must run before graph lookups");

    assert_eq!(without_graph, with_graph);
    assert_eq!(without_graph.message, "rules.foo declares both leaf and internal");
    // The phase-A conflict still points at `true`, line 4, column 8.
    assert_span(without_graph.span.as_ref(), "leaf-and-internal.toml", 4, 8);
}

#[test]
fn non_member_rule_is_rejected_in_phase_b() {
    let raw = load_fixture("non-member.toml");
    let graph = synthetic_graph();
    let error = validate(&raw, Some(&graph), HOST).expect_err("non-member rule must fail");

    assert_eq!(error.message, "rules.nonexistent-pkg targets non-member workspace package");
    // The deny array value starts at line 4, column 8.
    assert_span(error.span.as_ref(), "non-member.toml", 4, 8);
}

#[test]
fn unknown_direct_package_is_rejected_in_phase_b() {
    let raw = load_fixture("unknown-direct.toml");
    let graph = synthetic_graph();
    let error = validate(&raw, Some(&graph), HOST).expect_err("unknown direct package must fail");

    assert_eq!(error.message, "rules.app references unknown package `totally-unknown-name`");
    // The direct array value starts at line 4, column 10.
    assert_span(error.span.as_ref(), "unknown-direct.toml", 4, 10);
}

#[test]
fn exact_and_glob_denies_have_distinct_matching_semantics() {
    let exact = raw_config(
        r#"schema = 1

[rules.app]
deny = ["ratatui"]
"#,
    );
    let exact_config = validate(&exact, None, HOST).expect("exact deny validates").config;
    let exact_rule = &exact_config.rules[0];
    assert!(deny_matches(exact_rule, "ratatui"));
    assert!(!deny_matches(exact_rule, "ratatui-widgets"));

    let glob = raw_config(
        r#"schema = 1

[rules.app]
deny = ["ratatui*"]
"#,
    );
    let glob_config = validate(&glob, None, HOST).expect("glob deny validates").config;
    let glob_rule = &glob_config.rules[0];
    assert!(deny_matches(glob_rule, "ratatui"));
    assert!(deny_matches(glob_rule, "ratatui-widgets"));
}

#[test]
fn direct_optional_dependency_emits_warning_and_counter() {
    let raw = raw_config(
        r#"schema = 1

[rules.app]
direct = ["dep"]
"#,
    );
    let graph = synthetic_graph();
    let validated = validate(&raw, Some(&graph), HOST).expect("optional direct rule validates");

    assert_eq!(validated.direct_optional_decls, 1);
    assert_eq!(validated.warnings.len(), 1);
    assert_eq!(
        validated.warnings[0],
        "warning: rules.app.direct: app declares optional dependency dep; sibling feature unification may add it to the resolved edge set"
    );
}

#[test]
fn rules_preserve_toml_table_order() {
    let raw = raw_config(
        r#"schema = 1

[rules.zeta]
deny = ["a"]

[rules.alpha]
leaf = true

[rules.middle]
sealed = true
"#,
    );
    let validated = validate(&raw, None, HOST).expect("ordered rules validate");
    let packages: Vec<_> =
        validated.config.rules.iter().map(|rule| rule.package.as_str()).collect();

    assert_eq!(packages, ["zeta", "alpha", "middle"]);
}

#[test]
fn direct_raw_config_schema_error_has_no_source_span() {
    let mut raw = raw_config("schema = 2\n");
    raw.source = None;
    let error = validate(&raw, None, HOST).expect_err("unsupported schema must be rejected");

    assert!(error.span.is_none());
}

#[test]
fn rules_follow_toml_declaration_order_within_a_package() {
    let raw = raw_config(
        "schema = 1\n\n[rules.app]\ndeny = [\"ratatui\"]\ninternal = [\"core\"]\n",
    );
    let validated = validate(&raw, None, HOST).expect("the configuration validates in phase A");
    let app_rule_kinds = validated
        .config
        .rules
        .iter()
        .filter(|rule| rule.package == "app")
        .map(|rule| match &rule.kind {
            RuleKind::Deny { .. } => "deny",
            RuleKind::Internal(_) => "internal",
            RuleKind::Leaf => "leaf",
            RuleKind::Direct(_) => "direct",
            RuleKind::Sealed => "sealed",
            _ => "other",
        })
        .collect::<Vec<_>>();

    assert_eq!(app_rule_kinds, ["deny", "internal"]);
}

#[test]
fn rules_of_one_table_follow_the_order_they_are_written_in() {
    let raw = raw_config(
        "schema = 1\n\n[rules.app]\nsealed = true\nrequire = [\"x\"]\ndirect = [\"dep\"]\ndeny = []\n",
    );
    let validated = validate(&raw, None, HOST).expect("the configuration validates");
    let ids: Vec<_> = validated.config.rules.iter().map(|rule| rule.id.as_str()).collect();

    assert_eq!(
        ids,
        ["rules.app.sealed", "rules.app.require", "rules.app.direct", "rules.app.deny"]
    );
}

#[test]
fn absent_sections_use_semantic_defaults_for_both_config_types() {
    let raw = raw_config("schema = 1");

    assert!(matches!(&raw.graph.features.value, FeatureValue::Named(name) if name == "default"));
    assert!(matches!(&raw.graph.platform.value, PlatformValue::Named(name) if name == "all"));
    assert!(raw.internal.members.value);
    assert!(raw.internal.patterns.value.is_empty());
    assert!(raw.manifest.versions_in_root.value);
    assert!(raw.rules.is_empty());
}

#[test]
fn values_of_the_wrong_type_say_what_was_expected() {
    let error = load("depgate.toml", Ok("schema = \"one\"\n")).expect_err("not an integer");
    let Error::Configuration { message, span } = error else {
        panic!("a configuration error is expected");
    };
    assert_eq!(
        message,
        "TOML parse error at line 1, column 10\n  |\n1 | schema = \"one\"\n  |          ^^^^^\ninvalid type: string \"one\", expected u32\n"
    );
    assert_span(span.as_ref(), "depgate.toml", 1, 10);
}

#[test]
fn a_missing_schema_is_reported_for_the_whole_document() {
    let error = load("depgate.toml", Ok("[internal]\nmembers = false\n")).expect_err("no schema");
    let Error::Configuration { message, .. } = error else {
        panic!("a configuration error is expected");
    };
    assert!(message.contains("missing field `schema`"), "{message}");
}

#[test]
fn text_that_is_no_toml_and_files_that_cannot_be_read_are_configuration_errors() {
    let broken = load("depgate.toml", Ok("schema = = 1\n")).expect_err("no TOML");
    assert_eq!(broken.exit_code(), 2);
    let unread = load("missing/depgate.toml", Err("No such file")).expect_err("no file");
    assert_eq!(unread.exit_code(), 2);
    assert!(unread.describe().contains("missing/depgate.toml"), "{}", unread.describe());
    assert!(unread.describe().contains("No such file"), "{}", unread.describe());
}

#[test]
fn an_unknown_key_in_a_rule_table_is_rejected() {
    let error = load("depgate.toml", Ok("schema = 1\n[rules.app]\ndenied = []\n"))
        .expect_err("an unknown key");
    let message = error.describe();
    assert!(message.contains("unknown field `denied`"), "{message}");
}

#[test]
fn platforms_are_resolved_against_the_host() {
    let raw = raw_config("schema = 1\n[graph]\nplatform = \"host\"\n[rules.app]\nleaf = true\n");
    let validated = validate(&raw, None, HOST).expect("the host is known");
    assert_eq!(*validated.config.platform.triples(), [HOST]);

    let raw = raw_config(
        "schema = 1\n[graph]\nplatform = [\"x86_64-unknown-linux-gnu\", \"nope\"]\n[rules.app]\nleaf = true\n",
    );
    let error = validate(&raw, None, HOST).expect_err("an unknown triple");
    assert!(error.message.contains("`nope`"), "{}", error.message);
    assert_span(error.span.as_ref(), "depgate.toml", 3, 41);
}

#[test]
fn the_configuration_is_looked_for_in_the_workspace_root() {
    assert_eq!(discover("/ws"), "/ws/depgate.toml");
    assert_eq!(discover("/ws/"), "/ws/depgate.toml");
}

#[test]
fn offsets_become_lines_and_character_columns() {
    let text = "ab\n\u{e9}x = 1\n";
    let span = source_span("p", text, 5);
    assert_eq!((span.line, span.col), (2, 2));
    assert_eq!(source_span("p", text, 0).line, 1);
}

#[test]
fn feature_rules_need_a_document_with_every_feature_and_known_feature_names() {
    let graph = synthetic_graph();
    let raw = raw_config("schema = 1\n[rules.app]\nfeatures = [\"ghost\"]\ndeny = [\"dep\"]\n");
    let error = validate(&raw, Some(&graph), HOST).expect_err("no such feature");
    assert!(error.message.contains("ghost"), "{}", error.message);
}
