use std::collections::BTreeSet;

use cargo_depgate::config::{load, validate};
use cargo_depgate::error::Error;
use cargo_depgate::features::{
    activate, first_unactivated_member, first_undeclared_feature, Selection, UnactivatedMember, Walk,
};
use cargo_depgate::graph::{DeclaredDep, Graph, KindEntry, Scratch};
use cargo_depgate::metadata::{Decoded, Dep, Feature, Meta, Node, Pkg, Resolve};
use cargo_depgate::rules::{evaluate, Evaluation};
use serde_json::Value;

/// The text under `key`, when there is one.
fn text(value: &Value, key: &str) -> Option<String> {
    value.get(key).and_then(Value::as_str).map(str::to_owned)
}

/// The texts of an array; none when there is no array.
fn texts(value: Option<&Value>) -> Vec<String> {
    let items = value.and_then(Value::as_array).map(Vec::as_slice).unwrap_or_default();
    items.iter().filter_map(Value::as_str).map(str::to_owned).collect()
}

fn declaration(value: &Value) -> DeclaredDep {
    DeclaredDep {
        name: text(value, "name").expect("a dependency has a name"),
        kind: text(value, "kind"),
        optional: value.get("optional").and_then(Value::as_bool).unwrap_or(false),
        rename: text(value, "rename"),
        target: text(value, "target"),
        features: texts(value.get("features")),
        uses_default_features: value
            .get("uses_default_features")
            .and_then(Value::as_bool)
            .unwrap_or(true),
    }
}

fn declarations(value: Option<&Value>) -> Decoded<Vec<DeclaredDep>> {
    match value.and_then(Value::as_array) {
        Some(items) => Decoded::Value(items.iter().map(declaration).collect()),
        None => Decoded::Malformed("expected a sequence".to_owned()),
    }
}

fn feature_table(value: Option<&Value>) -> Decoded<Vec<Feature>> {
    match value {
        None => Decoded::Value(Vec::new()),
        Some(Value::Object(map)) => {
            let mut features = Vec::new();
            for (name, entries) in map {
                features.push(Feature { name: name.clone(), entries: texts(Some(entries)) });
            }
            Decoded::Value(features)
        }
        Some(_) => Decoded::Malformed("expected a map".to_owned()),
    }
}

fn kind_entries(value: &Value) -> Decoded<Vec<KindEntry>> {
    match value.as_array() {
        Some(items) => Decoded::Value(
            items
                .iter()
                .map(|item| KindEntry { kind: text(item, "kind"), target: text(item, "target") })
                .collect(),
        ),
        None => Decoded::Malformed("expected a sequence".to_owned()),
    }
}

fn package(value: &Value) -> Pkg {
    Pkg {
        id: text(value, "id").expect("a package has an id"),
        name: text(value, "name").expect("a package has a name"),
        version: text(value, "version").expect("a package has a version"),
        manifest_path: text(value, "manifest_path").expect("a package has a manifest"),
        source: text(value, "source"),
        dependencies: declarations(value.get("dependencies")),
        features: feature_table(value.get("features")),
    }
}

fn node(value: &Value) -> Node {
    let deps = value.get("deps").and_then(Value::as_array).expect("a node has edges");
    Node {
        id: text(value, "id").expect("a node has an id"),
        deps: deps
            .iter()
            .map(|dep| Dep {
                name: text(dep, "name"),
                pkg: text(dep, "pkg").expect("an edge has a target"),
                dep_kinds: dep.get("dep_kinds").map(kind_entries),
            })
            .collect(),
        features: match value.get("features") {
            None => Decoded::Value(Vec::new()),
            Some(list @ Value::Array(_)) => Decoded::Value(texts(Some(list))),
            Some(_) => Decoded::Malformed("expected a sequence".to_owned()),
        },
    }
}

/// The metadata document `json` holds.
fn decode(json: &str) -> Meta {
    let value: Value = serde_json::from_str(json).expect("the document is JSON");
    let packages = value.get("packages").and_then(Value::as_array).expect("packages");
    let nodes = value.get("resolve").and_then(|r| r.get("nodes")).and_then(Value::as_array);
    Meta {
        packages: packages.iter().map(package).collect(),
        workspace_members: texts(value.get("workspace_members")),
        workspace_root: text(&value, "workspace_root").expect("workspace_root"),
        resolve: nodes.map(|nodes| Resolve { nodes: nodes.iter().map(node).collect() }),
        unrebased_path_deps: 0,
    }
}

/// One declared dependency of a synthetic package.
#[derive(Clone)]
struct Decl {
    package: &'static str,
    rename: Option<&'static str>,
    optional: bool,
    uses_default_features: bool,
    features: Vec<&'static str>,
    target: Option<&'static str>,
    kind: Option<&'static str>,
    /// The version the declaration resolves to, when the name carries several.
    version: &'static str,
    /// The dependency's `[lib] name`, when it does not follow from the package name.
    ///
    /// Only the resolve edge carries it; a declaration cannot spell it, which is the case
    /// that the walk has to let through.
    lib_name: Option<&'static str>,
}

impl Decl {
    fn new(package: &'static str) -> Self {
        Self {
            package,
            rename: None,
            optional: false,
            uses_default_features: true,
            features: Vec::new(),
            target: None,
            kind: None,
            version: "1.0.0",
            lib_name: None,
        }
    }

    fn optional(mut self) -> Self {
        self.optional = true;
        self
    }

    fn renamed(mut self, rename: &'static str) -> Self {
        self.rename = Some(rename);
        self
    }

    fn no_default(mut self) -> Self {
        self.uses_default_features = false;
        self
    }

    fn features(mut self, features: &[&'static str]) -> Self {
        self.features = features.to_vec();
        self
    }

    fn target(mut self, target: &'static str) -> Self {
        self.target = Some(target);
        self
    }

    fn dev(mut self) -> Self {
        self.kind = Some("dev");
        self
    }

    fn version(mut self, version: &'static str) -> Self {
        self.version = version;
        self
    }

    fn lib_name(mut self, lib_name: &'static str) -> Self {
        self.lib_name = Some(lib_name);
        self
    }

    /// The name cargo records for this declaration's resolve edge: the rename when there is
    /// one, else the dependency's `[lib] name`, else the package name spelled as a library
    /// target. Confirmed against `cargo metadata` directly.
    fn resolved_name(&self) -> String {
        self.rename.or(self.lib_name).map_or_else(|| self.package.replace('-', "_"), str::to_owned)
    }

    fn json(&self) -> String {
        let rename =
            self.rename.map_or_else(|| "null".to_owned(), |rename| format!("\"{rename}\""));
        let kind = self.kind.map_or_else(|| "null".to_owned(), |kind| format!("\"{kind}\""));
        let target =
            self.target.map_or_else(|| "null".to_owned(), |target| format!("\"{target}\""));
        let features = self
            .features
            .iter()
            .map(|feature| format!("\"{feature}\""))
            .collect::<Vec<_>>()
            .join(",");
        format!(
            r#"{{"name":"{}","rename":{rename},"kind":{kind},"target":{target},"optional":{},"uses_default_features":{},"features":[{features}]}}"#,
            self.package, self.optional, self.uses_default_features
        )
    }
}

/// One synthetic package: its features, its declarations, and the activation the resolve
/// recorded for it.
struct Crate {
    name: &'static str,
    version: &'static str,
    features: Vec<(&'static str, Vec<&'static str>)>,
    decls: Vec<Decl>,
    /// The `resolve.nodes[].features` entry; `None` records every declared feature, which
    /// is the `--all-features` document the guard demands.
    activated: Option<Vec<&'static str>>,
}

impl Crate {
    fn new(name: &'static str) -> Self {
        Self { name, version: "1.0.0", features: Vec::new(), decls: Vec::new(), activated: None }
    }

    fn version(mut self, version: &'static str) -> Self {
        self.version = version;
        self
    }

    fn feature(mut self, name: &'static str, entries: &[&'static str]) -> Self {
        self.features.push((name, entries.to_vec()));
        self
    }

    fn decl(mut self, declaration: Decl) -> Self {
        self.decls.push(declaration);
        self
    }

    fn activated(mut self, features: &[&'static str]) -> Self {
        self.activated = Some(features.to_vec());
        self
    }

    fn id(&self) -> String {
        format!("path+file:///ws/{}#{}", self.name, self.version)
    }
}

/// A synthetic workspace: every package is a member, and every normal declaration becomes a
/// resolve edge, which is exactly the shape an `--all-features` document has.
struct Workspace {
    packages: Vec<Crate>,
}

impl Workspace {
    fn new(packages: Vec<Crate>) -> Self {
        Self { packages }
    }

    fn find(&self, package: &str, version: &str) -> &Crate {
        self.packages
            .iter()
            .find(|candidate| candidate.name == package && candidate.version == version)
            .unwrap_or_else(|| panic!("the workspace declares {package} v{version}"))
    }

    fn json(&self) -> String {
        let packages = self
            .packages
            .iter()
            .map(|package| {
                let features = package
                    .features
                    .iter()
                    .map(|(name, entries)| {
                        let entries = entries
                            .iter()
                            .map(|entry| format!("\"{entry}\""))
                            .collect::<Vec<_>>()
                            .join(",");
                        format!("\"{name}\":[{entries}]")
                    })
                    .collect::<Vec<_>>()
                    .join(",");
                let decls =
                    package.decls.iter().map(Decl::json).collect::<Vec<_>>().join(",");
                format!(
                    r#"{{"name":"{}","version":"{}","id":"{}","source":null,"manifest_path":"/ws/{}/Cargo.toml","dependencies":[{decls}],"features":{{{features}}}}}"#,
                    package.name,
                    package.version,
                    package.id(),
                    package.name
                )
            })
            .collect::<Vec<_>>()
            .join(",");

        let nodes = self
            .packages
            .iter()
            .map(|package| {
                let mut seen = BTreeSet::new();
                let deps = package
                    .decls
                    .iter()
                    .filter(|declaration| declaration.kind.is_none())
                    .filter(|declaration| seen.insert((declaration.package, declaration.version)))
                    .map(|declaration| {
                        let target = self.find(declaration.package, declaration.version);
                        format!(
                            r#"{{"name":"{}","pkg":"{}","dep_kinds":[{{"kind":null,"target":null}}]}}"#,
                            declaration.resolved_name(),
                            target.id()
                        )
                    })
                    .collect::<Vec<_>>()
                    .join(",");
                let activated = package.activated.clone().unwrap_or_else(|| {
                    package.features.iter().map(|(name, _)| *name).collect()
                });
                let activated = activated
                    .iter()
                    .map(|feature| format!("\"{feature}\""))
                    .collect::<Vec<_>>()
                    .join(",");
                format!(
                    r#"{{"id":"{}","deps":[{deps}],"features":[{activated}]}}"#,
                    package.id()
                )
            })
            .collect::<Vec<_>>()
            .join(",");

        let members = self
            .packages
            .iter()
            .map(|package| format!("\"{}\"", package.id()))
            .collect::<Vec<_>>()
            .join(",");
        format!(
            r#"{{"packages":[{packages}],"workspace_members":[{members}],"workspace_root":"/ws","resolve":{{"nodes":[{nodes}],"root":null}}}}"#
        )
    }

    fn graph(&self) -> Graph<'static> {
        let meta: &'static Meta = Box::leak(Box::new(decode(&self.json())));
        Graph::build(meta).expect("synthetic graph builds")
    }
}

/// The names the activation from `root` reaches, the root's own name excluded.
fn reached(graph: &Graph<'_>, root: u32, selection: &Selection) -> BTreeSet<String> {
    let activation = activate(graph, root, selection).expect("the walk runs");
    let root_name = graph.name(root);
    activation
        .nodes()
        .ones()
        .filter_map(|node| u32::try_from(node).ok())
        .map(|node| graph.name(node))
        .filter(|&name| name != root_name)
        .map(str::to_owned)
        .collect()
}

fn member(graph: &Graph<'_>, name: &str) -> u32 {
    graph
        .members()
        .iter()
        .copied()
        .find(|&node| graph.name(node) == name)
        .unwrap_or_else(|| panic!("{name} is a workspace member"))
}

fn names(values: &[&str]) -> BTreeSet<String> {
    values.iter().map(|value| (*value).to_owned()).collect()
}

/// `app` depends on the optional `opt`, which is reached only through `dep:opt`.
fn dep_syntax_workspace() -> Workspace {
    Workspace::new(vec![
        Crate::new("app")
            .feature("net", &["dep:opt"])
            .feature("default", &["plain"])
            .feature("plain", &[])
            .decl(Decl::new("opt").optional())
            .decl(Decl::new("always")),
        Crate::new("opt").decl(Decl::new("opt-child")),
        Crate::new("opt-child"),
        Crate::new("always"),
    ])
}

#[test]
fn dep_syntax_turns_an_optional_dependency_on_only_when_its_feature_is_selected() {
    let workspace = dep_syntax_workspace();
    let graph = workspace.graph();
    let app = member(&graph, "app");

    assert_eq!(
        reached(&graph, app, &Selection::Default),
        names(&["always"]),
        "the default feature does not name `net`, so `opt` stays out"
    );
    assert_eq!(
        reached(&graph, app, &Selection::List(vec!["net".to_owned()])),
        names(&["always", "opt", "opt-child"]),
        "`dep:opt` pulls the optional dependency and everything under it"
    );
    assert_eq!(
        reached(&graph, app, &Selection::All),
        names(&["always", "opt", "opt-child"]),
        "--all-features selects `net` as well"
    );
    assert_eq!(
        reached(&graph, app, &Selection::Nothing),
        names(&["always"]),
        "--no-default-features still compiles the unconditional declarations"
    );
}

#[test]
fn a_slash_entry_enables_an_optional_dependency_and_requests_the_feature_on_it() {
    let workspace = Workspace::new(vec![
        Crate::new("app").feature("net", &["opt/inner"]).decl(Decl::new("opt").optional()),
        Crate::new("opt")
            .feature("inner", &["dep:inner-child"])
            .decl(Decl::new("inner-child").optional()),
        Crate::new("inner-child"),
    ]);
    let graph = workspace.graph();
    let app = member(&graph, "app");

    assert_eq!(reached(&graph, app, &Selection::Nothing), names(&[]));
    assert_eq!(
        reached(&graph, app, &Selection::List(vec!["net".to_owned()])),
        names(&["opt", "inner-child"]),
        "a non-weak `x/feat` turns `x` on even though it is optional"
    );
}

#[test]
fn a_weak_slash_entry_waits_for_the_dependency_and_fires_in_either_order() {
    let workspace = Workspace::new(vec![
        Crate::new("app")
            .feature("weak", &["opt?/inner"])
            .feature("turn-on", &["dep:opt"])
            .decl(Decl::new("opt").optional()),
        Crate::new("opt")
            .feature("inner", &["dep:inner-child"])
            .decl(Decl::new("inner-child").optional()),
        Crate::new("inner-child"),
    ]);
    let graph = workspace.graph();
    let app = member(&graph, "app");

    assert_eq!(
        reached(&graph, app, &Selection::List(vec!["weak".to_owned()])),
        names(&[]),
        "a weak entry alone never turns the dependency on"
    );
    // Both orders reach the same state: the deferred request is flushed when the
    // dependency is expanded, and a request made afterwards is applied immediately.
    let deferred_first =
        reached(&graph, app, &Selection::List(vec!["weak".to_owned(), "turn-on".to_owned()]));
    let enabled_first =
        reached(&graph, app, &Selection::List(vec!["turn-on".to_owned(), "weak".to_owned()]));
    assert_eq!(deferred_first, names(&["opt", "inner-child"]));
    assert_eq!(enabled_first, deferred_first, "activation does not depend on selection order");
}

#[test]
fn a_bare_token_is_a_feature_when_the_table_defines_one_of_that_name() {
    // coreutils' real `uucore` shape: an optional dependency named `time` beside a feature
    // named `time` whose value is something else entirely. `utmpx` names both, and the
    // bare token has to mean the feature while `time/macros` means the dependency.
    let workspace = Workspace::new(vec![
        Crate::new("uucore")
            .feature("time", &["jiff"])
            .feature("jiff", &["dep:jiff"])
            .feature("utmpx", &["time", "time/macros", "dep:libc"])
            .decl(Decl::new("time").optional())
            .decl(Decl::new("jiff").optional())
            .decl(Decl::new("libc").optional()),
        Crate::new("time")
            .feature("macros", &["dep:time-macros"])
            .decl(Decl::new("time-macros").optional()),
        Crate::new("time-macros"),
        Crate::new("jiff"),
        Crate::new("libc"),
    ]);
    let graph = workspace.graph();
    let uucore = member(&graph, "uucore");

    assert_eq!(
        reached(&graph, uucore, &Selection::List(vec!["time".to_owned()])),
        names(&["jiff"]),
        "the bare token resolves to the feature, which pulls jiff and not the crate `time`"
    );
    assert_eq!(
        reached(&graph, uucore, &Selection::List(vec!["utmpx".to_owned()])),
        names(&["jiff", "libc", "time", "time-macros"]),
        "`time/macros` addresses the dependency, so both meanings coexist in one value"
    );
}

#[test]
fn an_optional_dependency_without_a_feature_key_carries_its_implicit_feature() {
    let workspace =
        Workspace::new(vec![Crate::new("app").decl(Decl::new("opt").optional()), Crate::new("opt")]);
    let graph = workspace.graph();
    let app = member(&graph, "app");

    assert_eq!(reached(&graph, app, &Selection::Default), names(&[]));
    assert_eq!(
        reached(&graph, app, &Selection::List(vec!["opt".to_owned()])),
        names(&["opt"]),
        "cargo materialises `opt = [\"dep:opt\"]`, which the document never spells out"
    );
    assert_eq!(
        reached(&graph, app, &Selection::All),
        names(&["opt"]),
        "--all-features selects the implicit feature too"
    );
}

#[test]
fn a_dependency_named_default_is_the_packages_default_feature() {
    // The name `default` gets no special case in `expand_feature`, because cargo gives it
    // none: the implicit feature of an optional dependency named `default` *is* the
    // package's default feature. Verified on cargo 1.98 — a plain `cargo tree` pulls the
    // edge and the resolve node records `features: ["default"]`.
    let workspace = Workspace::new(vec![
        Crate::new("app").decl(Decl::new("default").optional()).decl(Decl::new("always")),
        Crate::new("default"),
        Crate::new("always"),
    ]);
    let graph = workspace.graph();
    let app = member(&graph, "app");

    assert_eq!(
        reached(&graph, app, &Selection::Default),
        names(&["always", "default"]),
        "the default selection activates the implicit feature, as cargo does"
    );
    assert_eq!(
        reached(&graph, app, &Selection::Nothing),
        names(&["always"]),
        "--no-default-features withholds it again"
    );
}

#[test]
fn a_package_with_no_default_feature_activates_nothing_for_the_default_selection() {
    // The other half of the rule: with no `default` key and no dependency of that name,
    // the seeded `default` finds nothing to expand and is a no-op, never an error.
    let workspace = Workspace::new(vec![
        Crate::new("app").feature("extra", &["dep:opt"]).decl(Decl::new("opt").optional()),
        Crate::new("opt"),
    ]);
    let graph = workspace.graph();
    let app = member(&graph, "app");

    assert_eq!(reached(&graph, app, &Selection::Default), names(&[]));
    assert_eq!(
        reached(&graph, app, &Selection::List(vec!["extra".to_owned()])),
        names(&["opt"]),
        "the package's real features still work"
    );
}

#[test]
fn all_features_skips_an_implicit_feature_that_dep_syntax_suppressed() {
    // `dep:hidden` inside a feature value means cargo creates no `hidden` feature, so
    // `--all-features` reaches `hidden` only through `gate`, never as a feature of its own.
    let workspace = Workspace::new(vec![
        Crate::new("app")
            .feature("gate", &["dep:hidden"])
            .decl(Decl::new("hidden").optional())
            .decl(Decl::new("plain").optional()),
        Crate::new("hidden"),
        Crate::new("plain"),
    ]);
    let graph = workspace.graph();
    let app = member(&graph, "app");

    assert_eq!(
        reached(&graph, app, &Selection::All),
        names(&["hidden", "plain"]),
        "both arrive, one through its gate feature and one through its implicit feature"
    );
    assert_eq!(
        reached(&graph, app, &Selection::List(vec!["hidden".to_owned()])),
        names(&[]),
        "the suppressed name is not a feature, so selecting it activates nothing"
    );
}

#[test]
fn uses_default_features_false_withholds_the_dependencys_default_feature() {
    let workspace = Workspace::new(vec![
        Crate::new("app").decl(Decl::new("lib").no_default()),
        Crate::new("bare").decl(Decl::new("lib")),
        Crate::new("lib").feature("default", &["dep:heavy"]).decl(Decl::new("heavy").optional()),
        Crate::new("heavy"),
    ]);
    let graph = workspace.graph();

    assert_eq!(
        reached(&graph, member(&graph, "app"), &Selection::Default),
        names(&["lib"]),
        "the dependency's own default feature is withheld"
    );
    assert_eq!(
        reached(&graph, member(&graph, "bare"), &Selection::Default),
        names(&["lib", "heavy"]),
        "and requested by the declaration that does not opt out"
    );
}

#[test]
fn a_renamed_dependency_is_addressed_by_its_extern_name() {
    let workspace = Workspace::new(vec![
        Crate::new("app")
            .feature("net", &["alias/inner"])
            .decl(Decl::new("real").renamed("alias").optional()),
        Crate::new("real").feature("inner", &["dep:child"]).decl(Decl::new("child").optional()),
        Crate::new("child"),
    ]);
    let graph = workspace.graph();
    let app = member(&graph, "app");

    assert_eq!(
        reached(&graph, app, &Selection::List(vec!["net".to_owned()])),
        names(&["real", "child"]),
        "feature syntax names the rename while the edge is found by the package name"
    );
    assert_eq!(
        reached(&graph, app, &Selection::List(vec!["real".to_owned()])),
        names(&[]),
        "the implicit feature of a renamed optional dependency carries the rename"
    );
}

#[test]
fn a_name_declared_in_two_target_tables_contributes_both_declarations() {
    let workspace = Workspace::new(vec![
        Crate::new("app")
            .decl(Decl::new("lib").features(&["unix-side"]))
            .decl(Decl::new("lib").target("cfg(windows)").features(&["windows-side"])),
        Crate::new("lib")
            .feature("unix-side", &["dep:posix"])
            .feature("windows-side", &["dep:win"])
            .decl(Decl::new("posix").optional())
            .decl(Decl::new("win").optional()),
        Crate::new("posix"),
        Crate::new("win"),
    ]);
    let graph = workspace.graph();

    assert_eq!(
        reached(&graph, member(&graph, "app"), &Selection::Default),
        names(&["lib", "posix", "win"]),
        "every platform is kept, so both tables contribute their requested features"
    );
}

/// `app` declares one name at two versions, each declaration requesting the feature that
/// belongs to *its* version. Both versions define **both** feature names, and each of the
/// four leads to a package of its own, so a join that could not tell the two edges apart
/// would request `one` and `two` on both versions and reach the two `wrong-*` packages.
fn two_versions_workspace(first: Decl, second: Decl) -> Workspace {
    Workspace::new(vec![
        Crate::new("app").decl(first).decl(second),
        Crate::new("dual")
            .feature("one", &["dep:only-one"])
            .feature("two", &["dep:wrong-two"])
            .decl(Decl::new("only-one").optional())
            .decl(Decl::new("wrong-two").optional()),
        Crate::new("dual")
            .version("2.0.0")
            .feature("one", &["dep:wrong-one"])
            .feature("two", &["dep:only-two"])
            .decl(Decl::new("wrong-one").optional())
            .decl(Decl::new("only-two").optional()),
        Crate::new("only-one"),
        Crate::new("only-two"),
        Crate::new("wrong-one"),
        Crate::new("wrong-two"),
    ])
}

/// Asserts that each declaration reached its own version and only its own version, and that
/// neither edge was dropped on the way.
fn assert_versions_stay_apart(workspace: &Workspace) {
    let graph = workspace.graph();
    let app = member(&graph, "app");

    assert_eq!(
        reached(&graph, app, &Selection::Default),
        names(&["dual", "only-one", "only-two"]),
        "each declaration's features land on the version it resolved to, and on no other"
    );

    let activation = activate(&graph, app, &Selection::Default).expect("the walk runs");
    let used = graph.edges_from(app).filter(|&edge| activation.contains_edge(edge)).count();
    assert_eq!(used, 2, "both versions are still reached — one edge per declaration");
}

#[test]
fn one_name_at_two_versions_keeps_each_declarations_features_on_its_own_version() {
    assert_versions_stay_apart(&two_versions_workspace(
        Decl::new("dual").version("1.0.0").features(&["one"]),
        Decl::new("dual").renamed("dual2").version("2.0.0").features(&["two"]),
    ));
}

#[test]
fn two_renames_of_one_name_at_two_versions_keep_their_declarations_apart() {
    // Neither declaration spells the package name, so the extern name is the only thing that
    // tells the two edges apart. Cargo refuses to resolve two differently-named declarations
    // of one package to a single version, so this shape always carries two edges and every
    // declaration keeps one.
    assert_versions_stay_apart(&two_versions_workspace(
        Decl::new("dual").renamed("dual_v1").version("1.0.0").features(&["one"]),
        Decl::new("dual").renamed("dual_v2").version("2.0.0").features(&["two"]),
    ));
}

#[test]
fn an_edge_named_after_a_lib_target_still_belongs_to_its_declaration() {
    // `deps[].name` is the dependency's library target name, so a package whose `[lib] name`
    // does not follow from its package name is reported under a name no declaration can
    // spell. Dropping such an edge would under-activate — the one direction that turns a
    // `deny` rule into a false pass — so an unclaimed name attaches rather than excludes.
    let workspace = Workspace::new(vec![
        Crate::new("app")
            .decl(Decl::new("redox-syscall").lib_name("syscall").features(&["inner"]))
            .decl(Decl::new("md-5").features(&["inner"])),
        Crate::new("redox-syscall")
            .feature("inner", &["dep:child"])
            .decl(Decl::new("child").optional()),
        Crate::new("md-5").feature("inner", &["dep:digest"]).decl(Decl::new("digest").optional()),
        Crate::new("child"),
        Crate::new("digest"),
    ]);
    let graph = workspace.graph();

    assert_eq!(
        reached(&graph, member(&graph, "app"), &Selection::Default),
        names(&["redox-syscall", "child", "md-5", "digest"]),
        "an unspellable `[lib] name` attaches, and a dash-for-underscore spelling matches"
    );
}

#[test]
fn dev_declarations_never_enter_the_activation() {
    let workspace =
        Workspace::new(vec![Crate::new("app").decl(Decl::new("harness").dev()), Crate::new("harness")]);
    let graph = workspace.graph();

    assert_eq!(
        reached(&graph, member(&graph, "app"), &Selection::All),
        names(&[]),
        "the walk answers the `-e normal` question"
    );
}

#[test]
fn the_activation_reports_the_edges_it_used_and_leaves_the_others_out() {
    let workspace = dep_syntax_workspace();
    let graph = workspace.graph();
    let app = member(&graph, "app");

    let default = activate(&graph, app, &Selection::Default).expect("the walk runs");
    let all = activate(&graph, app, &Selection::All).expect("the walk runs");

    assert_eq!(default.root(), app);
    assert_eq!(default.node_count(), 2, "app and always");
    assert_eq!(default.edges().count_ones(..), 1);
    assert!(all.edges().is_superset(default.edges()), "a wider selection keeps every edge");
    assert_eq!(all.edges().count_ones(..), 3, "app→always, app→opt and opt→opt-child");
    for edge in default.edges().ones() {
        let edge = u32::try_from(edge).expect("edge ids fit in u32");
        assert_eq!(graph.name(graph.edge_target(edge)), "always");
    }
}

#[test]
fn a_document_resolved_with_every_feature_passes_the_guard() {
    let workspace = dep_syntax_workspace();
    let graph = workspace.graph();

    assert_eq!(first_unactivated_member(&graph).expect("the guard runs"), None);
}

#[test]
fn the_guard_names_the_first_member_the_resolve_left_features_off() {
    let workspace = Workspace::new(vec![
        Crate::new("app")
            .feature("net", &["dep:opt"])
            .feature("plain", &[])
            .decl(Decl::new("opt").optional()),
        Crate::new("opt"),
    ]);
    let graph = workspace.graph();
    assert_eq!(first_unactivated_member(&graph).expect("the guard runs"), None);

    let workspace = Workspace::new(vec![
        Crate::new("app")
            .feature("net", &["dep:opt"])
            .feature("plain", &[])
            .decl(Decl::new("opt").optional())
            .activated(&["plain"]),
        Crate::new("opt"),
    ]);
    let graph = workspace.graph();

    assert_eq!(
        first_unactivated_member(&graph).expect("the guard runs"),
        Some(UnactivatedMember { package: "app".to_owned(), unactivated: 1 })
    );
}

#[test]
fn a_declared_feature_shadows_the_implicit_feature_of_the_dependency_it_is_named_after() {
    // Ground truth, taken from cargo 1.98 rather than from the reference: a workspace with
    // `[features] tdep = ["jiffish"]` beside an optional dependency `tdep` resolves
    // `--features tdep` to `["jiffish", "tdep"]` with `jiffdep` as the only new edge, and
    // reaches `tdep` only through an entry that names it as a dependency. Cargo rejects the
    // manifest outright when no entry does, which is why the shadowed dependency is never
    // simply unreachable in a document that exists.
    let workspace = Workspace::new(vec![
        Crate::new("mid")
            .feature("tdep", &["jiffish"])
            .feature("jiffish", &["dep:jiffdep"])
            .feature("utmpxish", &["tdep", "tdep/macros"])
            .decl(Decl::new("tdep").optional())
            .decl(Decl::new("jiffdep").optional()),
        Crate::new("tdep").feature("macros", &[]),
        Crate::new("jiffdep"),
    ]);
    let graph = workspace.graph();
    let mid = member(&graph, "mid");

    assert_eq!(
        reached(&graph, mid, &Selection::List(vec!["tdep".to_owned()])),
        names(&["jiffdep"]),
        "the declared value wins and the same-named dependency stays off"
    );
    assert_eq!(
        reached(&graph, mid, &Selection::List(vec!["utmpxish".to_owned()])),
        names(&["jiffdep", "tdep"]),
        "`tdep/macros` is what reaches the dependency, exactly as cargo resolves it"
    );
}

#[test]
fn one_walk_reused_across_selections_answers_as_a_fresh_walk_would() {
    // The walk keeps its decode caches between runs, so every other piece of state has to be
    // reset: a leaked feature, dependency or edge would narrow the next rule's closure wrongly.
    let workspace = dep_syntax_workspace();
    let graph = workspace.graph();
    let app = member(&graph, "app");
    let selections = [
        Selection::Nothing,
        Selection::List(vec!["net".to_owned()]),
        Selection::Default,
        Selection::All,
        Selection::Nothing,
        Selection::List(vec!["net".to_owned()]),
    ];

    let mut walk = Walk::new(&graph);
    for selection in &selections {
        let reused = walk.activate(app, selection).expect("the reused walk runs");
        let fresh = activate(&graph, app, selection).expect("a fresh walk runs");
        assert_eq!(reused, fresh, "reuse must not change the answer for {selection:?}");
    }
}

#[test]
fn a_wider_selection_reaches_no_less() {
    let workspace = dep_syntax_workspace();
    let graph = workspace.graph();
    let app = member(&graph, "app");
    let nothing = reached(&graph, app, &Selection::Nothing);
    let listed = reached(&graph, app, &Selection::List(vec!["net".to_owned()]));
    let all = reached(&graph, app, &Selection::All);

    assert!(nothing.is_subset(&listed));
    assert!(listed.is_subset(&all));
    assert_eq!(reached(&graph, app, &Selection::List(Vec::new())), nothing);
}

/// Answers the rules of a policy on the workspace.
fn answer(policy: &str, graph: &Graph<'_>) -> Evaluation {
    let policy = load("depgate.toml", Ok(policy)).expect("the policy decodes");
    let validated = validate(&policy, Some(graph), "x86_64-unknown-linux-gnu").expect("valid");
    evaluate(graph, &validated.config, &mut Scratch::new(graph))
}

#[test]
fn a_selection_narrows_what_its_rules_see() {
    let workspace = dep_syntax_workspace();
    let graph = workspace.graph();

    let unified = answer("schema = 1\n[rules.app]\ndeny = [\"opt\"]\nrequire = [\"opt*\"]\n", &graph);
    assert!(!unified.statuses[0].passed);
    assert!(unified.statuses[1].passed);
    assert!(unified.statuses[0].activation_pruned.is_empty());

    let narrowed = answer(
        "schema = 1\n[rules.app]\nfeatures = \"default\"\ndeny = [\"opt\"]\nrequire = [\"opt*\"]\n",
        &graph,
    );
    assert!(narrowed.statuses[0].passed, "the default features leave `opt` out");
    assert!(!narrowed.statuses[1].passed);
    assert_eq!(narrowed.statuses[0].features, Some(Selection::Default));
    assert_eq!(narrowed.statuses[0].activation_pruned, ["opt", "opt-child"]);
    assert_eq!(narrowed.violations[0].missing, ["opt*"]);
    assert_eq!(narrowed.violations[0].activation_pruned, ["opt", "opt-child"]);

    let listed = answer(
        "schema = 1\n[rules.app]\nfeatures = [\"net\"]\ndeny = [\"opt\"]\n",
        &graph,
    );
    assert!(!listed.statuses[0].passed, "`net` turns `opt` on");
    assert!(listed.statuses[0].activation_pruned.is_empty());
}

#[test]
fn a_selection_needs_a_document_with_every_feature() {
    let workspace = Workspace::new(vec![
        Crate::new("app")
            .feature("net", &["dep:opt"])
            .decl(Decl::new("opt").optional())
            .activated(&[]),
        Crate::new("opt"),
    ]);
    let graph = workspace.graph();
    let policy = load(
        "depgate.toml",
        Ok("schema = 1\n[rules.app]\nfeatures = \"none\"\ndeny = [\"opt\"]\n"),
    )
    .expect("the policy decodes");

    let error = validate(&policy, Some(&graph), "x86_64-unknown-linux-gnu").expect_err("refused");

    assert!(error.message.contains("app"), "{}", error.message);
    assert!(error.message.contains("--all-features"), "{}", error.message);
}

#[test]
fn the_first_feature_that_no_table_declares_is_named() {
    let workspace = dep_syntax_workspace();
    let graph = workspace.graph();
    let app = member(&graph, "app");

    let known = vec!["net".to_owned(), "default".to_owned()];
    assert_eq!(first_undeclared_feature(&graph, app, &known).expect("decodes"), None);
    let unknown = vec!["net".to_owned(), "ghost".to_owned(), "other".to_owned()];
    assert_eq!(first_undeclared_feature(&graph, app, &unknown).expect("decodes"), Some("ghost"));
    let hidden = vec!["opt".to_owned()];
    assert_eq!(
        first_undeclared_feature(&graph, app, &hidden).expect("decodes"),
        Some("opt"),
        "`dep:opt` suppresses the implicit feature"
    );
}

#[test]
fn a_selection_is_described_in_the_words_of_the_configuration() {
    assert_eq!(Selection::Default.describe(), "\"default\"");
    assert_eq!(Selection::All.describe(), "\"all\"");
    assert_eq!(Selection::Nothing.describe(), "\"none\"");
    let listed = Selection::List(vec!["net".to_owned(), "tls".to_owned()]);
    assert_eq!(listed.describe(), "[\"net\", \"tls\"]");
}

/// Why the walk from `app` stops when the features of `broken` are malformed, each with its
/// own name for a cause.
fn stopped(workspace: &Workspace, broken: &[&str], selection: &Selection) -> Option<String> {
    let mut meta = decode(&workspace.json());
    for package in &mut meta.packages {
        if broken.contains(&package.name.as_str()) {
            package.features = Decoded::Malformed(package.name.clone());
        }
    }
    let graph = Graph::build(&meta).expect("features are read later");
    match activate(&graph, member(&graph, "app"), selection) {
        Ok(_) => None,
        Err(Error::CargoMetadataUnparseable { cause }) => Some(cause),
        Err(error) => panic!("an unparseable document is expected, got {error:?}"),
    }
}

#[test]
fn the_first_package_the_walk_comes_to_stops_it() {
    let workspace = Workspace::new(vec![
        Crate::new("app")
            .feature("default", &["dep:gated"])
            .decl(Decl::new("first"))
            .decl(Decl::new("second"))
            .decl(Decl::new("gated").optional()),
        Crate::new("first").decl(Decl::new("deep")),
        Crate::new("second").decl(Decl::new("deep")),
        Crate::new("deep"),
        Crate::new("gated"),
    ]);
    let all = ["first", "second", "deep", "gated"];
    let nothing = Selection::Nothing;

    // What was turned on last is worked on first: the last declaration, and what it leads to.
    assert_eq!(stopped(&workspace, &all, &nothing).as_deref(), Some("second"));
    assert_eq!(stopped(&workspace, &["first", "deep"], &nothing).as_deref(), Some("deep"));
    assert_eq!(stopped(&workspace, &["first", "gated"], &nothing).as_deref(), Some("first"));
    // The features that a walk starts with lie above its root.
    assert_eq!(stopped(&workspace, &all, &Selection::Default).as_deref(), Some("gated"));
    assert_eq!(stopped(&workspace, &["app", "gated"], &Selection::All).as_deref(), Some("app"));
    // What is not turned on is never read.
    assert_eq!(stopped(&workspace, &["gated"], &nothing), None);
}

#[test]
fn default_lies_within_all() {
    let workspace = dep_syntax_workspace();
    let graph = workspace.graph();
    for name in ["app", "opt", "always"] {
        let root = member(&graph, name);
        let default = reached(&graph, root, &Selection::Default);
        assert!(default.is_subset(&reached(&graph, root, &Selection::All)), "{name}");
    }
    let app = member(&graph, "app");
    assert_eq!(reached(&graph, app, &Selection::Default), names(&["always"]));
    assert_eq!(reached(&graph, app, &Selection::All), names(&["always", "opt", "opt-child"]));
}
