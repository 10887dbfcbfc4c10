use cargo_depgate::error::Error;
use cargo_depgate::graph::{fold_dep_kinds, DeclaredDep, Graph, KindEntry};
use cargo_depgate::metadata::{
    cargo_command, judge_end, next_interval, reap_budget, ChildEnd, Decoded, Dep, Feature, Meta,
    MetadataBuffer, MetadataOptions, MetadataSource, Node, Pkg, Resolve, BUFFER_PADDING, REAP_FLOOR,
    REAP_POLL_MAX,
};
use serde_json::Value;

/// The shared seven-node fixture (six connected-or-kinded nodes plus one isolated node).
///
/// Nodes (in `packages[]` order):
/// 0 `app` (member, path)          → `lib` (normal), `serde 1.0.0` (normal, renamed `sd`),
///                                   `dev-helper` (dev only), `build-helper` (build only)
/// 1 `lib` (member, path)          → `serde 2.0.0` (normal+build multi-kind, cfg-targeted normal)
/// 2 `serde 1.0.0`                 → (none)
/// 3 `serde 2.0.0`                 → (none)
/// 4 `dev-helper`                  → (none)
/// 5 `build-helper`                → (none)
/// 6 `isolated` (isolated node)    → (none)
const ROOT: &str = "/ws/proj";

fn fixture_json() -> String {
    format!(
        r#"{{
  "packages": [
    {{"name":"app","version":"0.1.0","id":"path+file://{ROOT}/app#0.1.0","source":null,
     "manifest_path":"{ROOT}/app/Cargo.toml",
     "dependencies":[
       {{"name":"lib","kind":null,"optional":false}},
       {{"name":"serde","kind":null,"optional":false,"rename":"sd"}},
       {{"name":"dev-helper","kind":"dev","optional":false}},
       {{"name":"build-helper","kind":"build","optional":false}}
     ]}},
    {{"name":"lib","version":"0.1.0","id":"path+file://{ROOT}/lib#0.1.0","source":null,
     "manifest_path":"{ROOT}/lib/Cargo.toml",
     "dependencies":[{{"name":"serde","kind":null,"optional":false,"target":"cfg(unix)"}}]}},
    {{"name":"serde","version":"1.0.0","id":"registry+https://example.invalid/index#serde@1.0.0",
     "source":"registry+https://example.invalid/index",
     "manifest_path":"/cargo/registry/serde-1.0.0/Cargo.toml","dependencies":[]}},
    {{"name":"serde","version":"2.0.0","id":"registry+https://example.invalid/index#serde@2.0.0",
     "source":"registry+https://example.invalid/index",
     "manifest_path":"/cargo/registry/serde-2.0.0/Cargo.toml","dependencies":[]}},
    {{"name":"dev-helper","version":"0.3.0","id":"registry+https://example.invalid/index#dev-helper@0.3.0",
     "source":"registry+https://example.invalid/index",
     "manifest_path":"/cargo/registry/dev-helper-0.3.0/Cargo.toml","dependencies":[]}},
    {{"name":"build-helper","version":"0.4.0","id":"registry+https://example.invalid/index#build-helper@0.4.0",
     "source":"registry+https://example.invalid/index",
     "manifest_path":"/cargo/registry/build-helper-0.4.0/Cargo.toml","dependencies":[]}},
    {{"name":"isolated","version":"9.9.9","id":"registry+https://example.invalid/index#isolated@9.9.9",
     "source":"registry+https://example.invalid/index",
     "manifest_path":"/cargo/registry/isolated-9.9.9/Cargo.toml","dependencies":[]}}
  ],
  "workspace_members": ["path+file://{ROOT}/app#0.1.0", "path+file://{ROOT}/lib#0.1.0"],
  "workspace_root": "{ROOT}",
  "resolve": {{
    "nodes": [
      {{"id":"registry+https://example.invalid/index#isolated@9.9.9","deps":[]}},
      {{"id":"path+file://{ROOT}/app#0.1.0","deps":[
        {{"name":"lib","pkg":"path+file://{ROOT}/lib#0.1.0","dep_kinds":[{{"kind":null,"target":null}}]}},
        {{"name":"sd","pkg":"registry+https://example.invalid/index#serde@1.0.0","dep_kinds":[{{"kind":null,"target":null}}]}},
        {{"name":"dev_helper","pkg":"registry+https://example.invalid/index#dev-helper@0.3.0","dep_kinds":[{{"kind":"dev","target":null}}]}},
        {{"name":"build_helper","pkg":"registry+https://example.invalid/index#build-helper@0.4.0","dep_kinds":[{{"kind":"build","target":null}}]}}
      ]}},
      {{"id":"path+file://{ROOT}/lib#0.1.0","deps":[
        {{"name":"serde","pkg":"registry+https://example.invalid/index#serde@2.0.0","dep_kinds":[
          {{"kind":"build","target":null}},
          {{"kind":null,"target":"cfg(unix)"}},
          {{"kind":null,"target":"cfg(windows)"}}
        ]}}
      ]}},
      {{"id":"registry+https://example.invalid/index#serde@1.0.0","deps":[]}},
      {{"id":"registry+https://example.invalid/index#serde@2.0.0","deps":[]}},
      {{"id":"registry+https://example.invalid/index#dev-helper@0.3.0","deps":[]}},
      {{"id":"registry+https://example.invalid/index#build-helper@0.4.0","deps":[]}}
    ],
    "root": null
  }}
}}"#
    )
}

/// The text under `key`, when there is one.
fn text(value: &Value, key: &str) -> Option<String> {
    value.get(key).and_then(Value::as_str).map(str::to_owned)
}

/// The texts of an array; none when there is no array.
fn texts(value: Option<&Value>) -> Vec<String> {
    let items = value.and_then(Value::as_array).map(Vec::as_slice).unwrap_or_default();
    items.iter().filter_map(Value::as_str).map(str::to_owned).collect()
}

fn declaration(value: &Value) -> DeclaredDep {
    DeclaredDep {
        name: text(value, "name").expect("a dependency has a name"),
        kind: text(value, "kind"),
        optional: value.get("optional").and_then(Value::as_bool).unwrap_or(false),
        rename: text(value, "rename"),
        target: text(value, "target"),
        features: texts(value.get("features")),
        uses_default_features: value
            .get("uses_default_features")
            .and_then(Value::as_bool)
            .unwrap_or(true),
    }
}

fn declarations(value: Option<&Value>) -> Decoded<Vec<DeclaredDep>> {
    match value.and_then(Value::as_array) {
        Some(items) => Decoded::Value(items.iter().map(declaration).collect()),
        None => Decoded::Malformed("expected a sequence".to_owned()),
    }
}

fn feature_table(value: Option<&Value>) -> Decoded<Vec<Feature>> {
    match value {
        None => Decoded::Value(Vec::new()),
        Some(Value::Object(map)) => {
            let mut features = Vec::new();
            for (name, entries) in map {
                features.push(Feature { name: name.clone(), entries: texts(Some(entries)) });
            }
            Decoded::Value(features)
        }
        Some(_) => Decoded::Malformed("expected a map".to_owned()),
    }
}

fn kind_entries(value: &Value) -> Decoded<Vec<KindEntry>> {
    match value.as_array() {
        Some(items) => Decoded::Value(
            items
                .iter()
                .map(|item| KindEntry { kind: text(item, "kind"), target: text(item, "target") })
                .collect(),
        ),
        None => Decoded::Malformed("expected a sequence".to_owned()),
    }
}

fn package(value: &Value) -> Pkg {
    Pkg {
        id: text(value, "id").expect("a package has an id"),
        name: text(value, "name").expect("a package has a name"),
        version: text(value, "version").expect("a package has a version"),
        manifest_path: text(value, "manifest_path").expect("a package has a manifest"),
        source: text(value, "source"),
        dependencies: declarations(value.get("dependencies")),
        features: feature_table(value.get("features")),
    }
}

fn node(value: &Value) -> Node {
    let deps = value.get("deps").and_then(Value::as_array).expect("a node has edges");
    Node {
        id: text(value, "id").expect("a node has an id"),
        deps: deps
            .iter()
            .map(|dep| Dep {
                name: text(dep, "name"),
                pkg: text(dep, "pkg").expect("an edge has a target"),
                dep_kinds: dep.get("dep_kinds").map(kind_entries),
            })
            .collect(),
        features: match value.get("features") {
            None => Decoded::Value(Vec::new()),
            Some(list @ Value::Array(_)) => Decoded::Value(texts(Some(list))),
            Some(_) => Decoded::Malformed("expected a sequence".to_owned()),
        },
    }
}

/// The metadata document `json` holds.
fn decode(json: &str) -> Meta {
    let value: Value = serde_json::from_str(json).expect("the document is JSON");
    let packages = value.get("packages").and_then(Value::as_array).expect("packages");
    let nodes = value.get("resolve").and_then(|r| r.get("nodes")).and_then(Value::as_array);
    Meta {
        packages: packages.iter().map(package).collect(),
        workspace_members: texts(value.get("workspace_members")),
        workspace_root: text(&value, "workspace_root").expect("workspace_root"),
        resolve: nodes.map(|nodes| Resolve { nodes: nodes.iter().map(node).collect() }),
        unrebased_path_deps: 0,
    }
}

fn buffer(json: &str) -> MetadataBuffer {
    MetadataBuffer::from_bytes(json.as_bytes().to_vec())
}

fn parse(buffer: &MetadataBuffer) -> Result<Meta, Error> {
    let json = std::str::from_utf8(buffer.as_bytes()).expect("the document is UTF-8");
    let mut meta = decode(json);
    meta.prepare(buffer.workspace_root().map(String::as_str))?;
    Ok(meta)
}

fn parse_str(json: &str) -> Result<Meta, Error> {
    parse(&buffer(json))
}

fn invalid_message<T: std::fmt::Debug>(result: Result<T, Error>) -> String {
    match result {
        Err(Error::MetadataInvalid { message }) => message,
        other => panic!("expected MetadataInvalid, got {other:?}"),
    }
}

/// Builds the graph from `json`, returning the fail-closed message on error.
fn build_message(json: &str) -> String {
    let meta = match parse_str(json) {
        Ok(meta) => meta,
        Err(error) => return invalid_message::<()>(Err(error)),
    };
    invalid_message(Graph::build(&meta).map(|graph| graph.node_count()))
}

#[test]
fn buffer_keeps_sixty_four_zero_bytes_of_padding_out_of_the_data() {
    let buffer = buffer("{}");

    assert_eq!(buffer.as_bytes(), b"{}");
    assert_eq!(buffer.padded_len(), 2 + BUFFER_PADDING);
    assert_eq!(BUFFER_PADDING, 64);
}

#[test]
fn path_packages_are_detected_by_null_source_and_id_prefix() {
    let meta = parse_str(&fixture_json()).expect("fixture parses");

    assert!(meta.packages[0].is_path());
    assert!(meta.packages[1].is_path());
    assert!(!meta.packages[2].is_path());
}

#[test]
fn dep_kinds_fold_distinguishes_null_build_dev_and_multi_kind_edges() {
    let meta = parse_str(&fixture_json()).expect("fixture parses");
    let resolve = meta.resolve.as_ref().expect("resolve present");
    let app = &resolve.nodes[1];
    let lib = &resolve.nodes[2];

    let normal = fold_dep_kinds(&app.deps[0]).expect("fold");
    assert!(normal.has_normal());
    assert!(!normal.all_normal_targeted());
    assert_eq!((normal.entries, normal.normal, normal.normal_targeted), (1, 1, 0));

    let dev = fold_dep_kinds(&app.deps[2]).expect("fold");
    assert!(!dev.has_normal());
    let build = fold_dep_kinds(&app.deps[3]).expect("fold");
    assert!(!build.has_normal());

    let multi = fold_dep_kinds(&lib.deps[0]).expect("fold");
    assert!(multi.has_normal(), "a build+normal edge is normal");
    assert!(multi.all_normal_targeted(), "every normal entry carries a target");
    assert_eq!((multi.entries, multi.normal, multi.normal_targeted), (3, 2, 2));
}

#[test]
fn resolve_null_fails_closed_in_parse() {
    let json = fixture_json();
    let start = json.find("\"resolve\": {").expect("resolve key");
    let end = json.rfind('}').expect("closing brace");
    let json = format!("{}\"resolve\": null\n{}", &json[..start], &json[end..]);

    let message = invalid_message(parse_str(&json));

    assert!(message.contains("`resolve` is null"), "{message}");
}

#[test]
fn empty_dep_kinds_on_one_edge_fails_closed() {
    let json = fixture_json().replacen(
        r#""dep_kinds":[{"kind":null,"target":null}]"#,
        r#""dep_kinds":[]"#,
        1,
    );

    let message = build_message(&json);

    assert!(message.contains("has no `dep_kinds`"), "{message}");
}

#[test]
fn absent_dep_kinds_on_one_edge_fails_closed() {
    let json = fixture_json().replacen(r#","dep_kinds":[{"kind":null,"target":null}]"#, "", 1);

    let message = build_message(&json);

    assert!(message.contains("has no `dep_kinds`"), "{message}");
}

#[test]
fn unknown_dep_pkg_id_fails_closed() {
    let json = fixture_json().replacen(
        r#""pkg":"path+file:///ws/proj/lib#0.1.0""#,
        r#""pkg":"path+file:///ws/proj/ghost#0.1.0""#,
        1,
    );

    let message = build_message(&json);

    assert!(message.contains("ghost") && message.contains("not in `packages`"), "{message}");
}

#[test]
fn empty_workspace_members_fails_closed() {
    let json = fixture_json().replacen(
        r#""workspace_members": ["path+file:///ws/proj/app#0.1.0", "path+file:///ws/proj/lib#0.1.0"]"#,
        r#""workspace_members": []"#,
        1,
    );

    let message = build_message(&json);

    assert!(message.contains("`workspace_members` is empty"), "{message}");
}

#[test]
fn unknown_workspace_member_fails_closed() {
    let json = fixture_json().replacen(
        r#""workspace_members": ["path+file:///ws/proj/app#0.1.0""#,
        r#""workspace_members": ["path+file:///ws/proj/nope#0.1.0""#,
        1,
    );

    let message = build_message(&json);

    assert!(message.contains("workspace member") && message.contains("nope"), "{message}");
}

#[test]
fn node_without_package_fails_closed() {
    let json = fixture_json().replacen(
        r#"{"id":"registry+https://example.invalid/index#isolated@9.9.9","deps":[]},"#,
        r#"{"id":"registry+https://example.invalid/index#phantom@0.0.1","deps":[]},"#,
        1,
    );

    let message = build_message(&json);

    assert!(message.contains("phantom") && message.contains("no `packages` entry"), "{message}");
}

#[test]
fn package_without_node_fails_closed() {
    let json = fixture_json().replacen(
        r#"{"id":"registry+https://example.invalid/index#isolated@9.9.9","deps":[]},"#,
        "",
        1,
    );

    let message = build_message(&json);

    assert!(message.contains("`resolve.nodes` has 6 entries but `packages` has 7"), "{message}");
}

#[test]
fn duplicate_node_for_one_package_fails_closed() {
    let json = fixture_json().replacen(
        r#"{"id":"registry+https://example.invalid/index#isolated@9.9.9","deps":[]},"#,
        r#"{"id":"registry+https://example.invalid/index#serde@1.0.0","deps":[]},"#,
        1,
    );

    let message = build_message(&json);

    assert!(
        message.contains("lists `registry+https://example.invalid/index#serde@1.0.0` twice"),
        "{message}"
    );
}

#[test]
fn duplicate_package_id_fails_closed() {
    // The package entry's id line ends the line; the resolve node's id is followed by `"deps"`.
    let json = fixture_json().replacen("#isolated@9.9.9\",\n", "#serde@1.0.0\",\n", 1);

    let message = build_message(&json);

    assert!(message.contains("duplicate package id"), "{message}");
}

#[test]
fn rebase_onto_the_filesystem_root_does_not_double_the_slash() {
    let mut meta = parse_str(&fixture_json()).expect("fixture parses");

    meta.rebase("/").expect("rebase onto /");

    assert_eq!(meta.workspace_root, "/");
    assert_eq!(meta.packages[0].manifest_path, "/app/Cargo.toml");
}

#[test]
fn rebase_is_slash_separated_not_a_string_prefix() {
    let json = fixture_json().replacen(
        r#""manifest_path":"/ws/proj/lib/Cargo.toml""#,
        r#""manifest_path":"/ws/proj-sibling/lib/Cargo.toml""#,
        1,
    );
    let mut meta = parse_str(&json).expect("fixture parses");

    let message = invalid_message(meta.rebase("/new"));

    assert!(message.contains("workspace member `lib`"), "{message}");
    assert!(message.contains("/ws/proj-sibling/lib/Cargo.toml"), "{message}");
}

#[test]
fn dep_kinds_fold_treats_a_missing_kind_as_normal_and_ignores_unknown_keys() {
    let json = r#"[{"target":null,"extra":{"nested":[1,2]}},{"kind":"dev"}]"#;
    let raw: Value = serde_json::from_str(json).expect("raw value");
    let dep = Dep { name: None, pkg: "x".to_owned(), dep_kinds: Some(kind_entries(&raw)) };

    let fold = fold_dep_kinds(&dep).expect("fold");

    assert_eq!((fold.entries, fold.normal, fold.normal_targeted), (2, 1, 0));
}

#[test]
fn dep_kinds_fold_reports_absent_and_malformed_arrays() {
    let absent = Dep { name: None, pkg: "x".to_owned(), dep_kinds: None };
    assert_eq!(fold_dep_kinds(&absent).expect("absent folds to zero").entries, 0);

    let raw: Value = serde_json::from_str(r#"{"kind":null}"#).expect("raw value");
    let not_an_array = Dep { name: None, pkg: "x".to_owned(), dep_kinds: Some(kind_entries(&raw)) };
    assert!(fold_dep_kinds(&not_an_array).is_err(), "an object is not a dep_kinds array");
}

#[test]
fn the_workspace_root_override_moves_every_path_under_the_root() {
    let mut meta = decode(&fixture_json());

    meta.prepare(Some("/elsewhere/checkout/")).expect("rebase");

    assert_eq!(meta.workspace_root, "/elsewhere/checkout");
    assert_eq!(meta.packages[0].manifest_path, "/elsewhere/checkout/app/Cargo.toml");
    assert_eq!(meta.packages[1].manifest_path, "/elsewhere/checkout/lib/Cargo.toml");
    assert_eq!(meta.packages[2].manifest_path, "/cargo/registry/serde-1.0.0/Cargo.toml");
    assert_eq!(meta.unrebased_path_deps, 0);
}

#[test]
fn non_member_path_package_outside_the_root_stays_unrebased_and_is_counted() {
    let json = fixture_json().replacen(
        r#""id":"registry+https://example.invalid/index#isolated@9.9.9",
     "source":"registry+https://example.invalid/index",
     "manifest_path":"/cargo/registry/isolated-9.9.9/Cargo.toml""#,
        r#""id":"path+file:///ws/sibling#9.9.9",
     "source":null,
     "manifest_path":"/ws/sibling/Cargo.toml""#,
        1,
    );
    let json = json.replacen(
        r#""id":"registry+https://example.invalid/index#isolated@9.9.9","deps":[]"#,
        r#""id":"path+file:///ws/sibling#9.9.9","deps":[]"#,
        1,
    );
    let buffer = buffer(&json).with_workspace_root(Some("/new/root".to_owned()));

    let meta = parse(&buffer).expect("parse with rebase");
    let graph = Graph::build(&meta).expect("graph builds");

    assert_eq!(meta.unrebased_path_deps, 1);
    assert_eq!(meta.packages[6].manifest_path, "/ws/sibling/Cargo.toml");
    assert_eq!(meta.packages[0].manifest_path, "/new/root/app/Cargo.toml");
    assert_eq!(graph.counters().unrebased_path_deps, 1);
}

#[test]
fn member_outside_the_root_is_a_fail_closed_assertion() {
    let json = fixture_json().replacen(
        r#""manifest_path":"/ws/proj/app/Cargo.toml""#,
        r#""manifest_path":"/ws/outside/app/Cargo.toml""#,
        1,
    );
    let buffer = buffer(&json).with_workspace_root(Some("/new/root".to_owned()));

    let error = parse(&buffer).expect_err("a member outside the root must fail");

    assert_eq!(error.exit_code(), 3);
    let message = invalid_message::<()>(Err(error));
    assert!(message.contains("workspace member `app`"), "{message}");
    assert!(message.contains("/ws/outside/app/Cargo.toml"), "{message}");
}

#[test]
fn cargo_command_forwards_every_flag_verbatim() {
    let options = MetadataOptions::default()
        .with_cargo("/opt/fake/cargo")
        .with_manifest_path("/ws/Cargo.toml")
        .with_features(vec!["pkg/feat".to_owned(), "other".to_owned()])
        .with_all_features(true)
        .with_no_default_features(true)
        .with_offline(true)
        .with_locked(true);

    let command = cargo_command(&options);

    assert_eq!(command.program.as_deref(), Some("/opt/fake/cargo"));
    assert_eq!(
        command.arguments,
        [
            "metadata",
            "--format-version",
            "1",
            "--all-features",
            "--no-default-features",
            "--manifest-path",
            "/ws/Cargo.toml",
            "--locked",
            "--features",
            "pkg/feat",
            "--features",
            "other",
            "--offline",
        ]
    );
}

#[test]
fn no_locked_omits_the_lock_flag() {
    let options = MetadataOptions::default().with_locked(false);

    let command = cargo_command(&options);

    assert_eq!(command.arguments, ["metadata", "--format-version", "1"]);
}

#[test]
fn cargo_is_looked_up_on_the_path_unless_it_is_named() {
    let command = cargo_command(&MetadataOptions::default());

    assert_eq!(command.program, None);
    assert_eq!(command.arguments, ["metadata", "--format-version", "1", "--locked"]);
}

#[test]
fn default_options_match_the_cli_defaults() {
    let options = MetadataOptions::default();

    assert!(options.locked);
    assert_eq!(options.timeout, 300);
    assert!(options.source.is_none());
}

/// A setter that silently dropped its argument would leave callers spawning cargo with other
/// flags than they asked for, so the builder has to reach every field.
#[test]
fn the_options_builder_reaches_every_field() {
    let built = MetadataOptions::default()
        .with_cargo("/opt/cargo")
        .with_manifest_path("/ws/Cargo.toml")
        .with_features(vec!["app/other".to_owned()])
        .with_all_features(true)
        .with_no_default_features(true)
        .with_offline(true)
        .with_locked(false)
        .with_timeout(7)
        .with_source(MetadataSource::Stdin)
        .with_workspace_root("/ws");

    assert_eq!(built.cargo, Some("/opt/cargo".to_owned()));
    assert_eq!(built.manifest_path, Some("/ws/Cargo.toml".to_owned()));
    assert_eq!(built.features, vec!["app/other".to_owned()]);
    assert!(built.all_features);
    assert!(built.no_default_features);
    assert!(built.offline);
    assert!(!built.locked);
    assert_eq!(built.timeout, 7);
    assert_eq!(built.source, Some(MetadataSource::Stdin));
    assert_eq!(built.workspace_root, Some("/ws".to_owned()));
}

#[test]
fn a_child_that_ends_badly_is_an_error_of_its_own() {
    assert!(judge_end(ChildEnd::Exited { success: true, code: Some(0) }, 1).is_ok());
    let failed = judge_end(ChildEnd::Exited { success: false, code: Some(101) }, 1);
    assert!(
        matches!(failed, Err(Error::CargoMetadataFailed { status: Some(101) })),
        "{failed:?}"
    );
    let killed = judge_end(ChildEnd::Exited { success: false, code: None }, 1);
    assert!(matches!(killed, Err(Error::CargoMetadataFailed { status: None })), "{killed:?}");
    let broken = judge_end(ChildEnd::Broken("pipe".to_owned()), 1);
    assert!(matches!(broken, Err(Error::CargoMetadataRead { .. })), "{broken:?}");
    let lingering = judge_end(ChildEnd::Lingering, 1).expect_err("a child that lingers");
    assert_eq!(lingering.describe(), "cargo metadata exceeded --cargo-timeout=1s");
    let error = judge_end(ChildEnd::TimedOut, 1).expect_err("a child that never ends");
    assert_eq!(error.describe(), "cargo metadata exceeded --cargo-timeout=1s");
    assert_eq!(error.exit_code(), 3);
}

#[test]
fn the_reap_budget_is_what_is_left_of_the_timeout_and_never_below_its_floor() {
    assert_eq!(reap_budget(10_000_000, 1_000_000), 9_000_000);
    assert_eq!(reap_budget(1_000_000, 900_000), REAP_FLOOR);
    assert_eq!(reap_budget(1_000_000, 5_000_000), REAP_FLOOR);
}

#[test]
fn the_polling_interval_doubles_up_to_its_cap() {
    assert_eq!(next_interval(100), 200);
    assert_eq!(next_interval(4_000), REAP_POLL_MAX);
    assert_eq!(next_interval(REAP_POLL_MAX), REAP_POLL_MAX);
}

#[test]
fn the_command_line_holds_what_it_was_given() {
    let options = MetadataOptions::default()
        .with_locked(false)
        .with_features(vec!["a\0b".to_owned(), String::new(), "--all-features".to_owned()]);

    assert_eq!(
        cargo_command(&options).arguments,
        [
            "metadata",
            "--format-version",
            "1",
            "--features",
            "a\0b",
            "--features",
            "",
            "--features",
            "--all-features",
        ]
    );
}

#[test]
fn a_failed_rebase_moves_what_stands_before_the_stranded_member() {
    let json = fixture_json().replacen(
        r#""manifest_path":"/ws/proj/lib/Cargo.toml""#,
        r#""manifest_path":"/ws/proj-sibling/lib/Cargo.toml""#,
        1,
    );
    let mut meta = parse_str(&json).expect("fixture parses");
    let before = meta.packages.clone();
    let stranded = before
        .iter()
        .position(|package| package.manifest_path == "/ws/proj-sibling/lib/Cargo.toml")
        .expect("the member is listed");
    let left = meta.unrebased_path_deps;

    invalid_message(meta.rebase("/new"));

    assert!(stranded > 0);
    assert_eq!(meta.packages[0].manifest_path, "/new/app/Cargo.toml");
    assert_eq!(meta.packages[stranded..], before[stranded..]);
    assert_eq!(meta.workspace_root, "");
    assert_eq!(meta.unrebased_path_deps, left);
}
