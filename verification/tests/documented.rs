use cargo_depgate::config::{load, validate, RuleKind, SourceData};
use cargo_depgate::graph::{Graph, KindEntry, Scratch};
use cargo_depgate::manifest::{check_versions_in_root, ManifestInput};
use cargo_depgate::metadata::{Decoded, Dep, Meta, MetadataOptions, MetadataSource, Node, Pkg, Resolve};
use cargo_depgate::pipeline::{check, plan, Outcome};
use cargo_depgate::report::{github, human, RenderContext};

const HOST: &str = "x86_64-unknown-linux-gnu";

/// A workspace of members, each with its version `0.1.0`, and normal edges between them.
fn workspace(members: &[&str], edges: &[(&str, &str)]) -> Meta {
    let id = |name: &str| format!("path+file:///ws/{name}#0.1.0");
    Meta {
        packages: members
            .iter()
            .map(|name| Pkg {
                id: id(name),
                name: (*name).to_owned(),
                version: "0.1.0".to_owned(),
                manifest_path: format!("/ws/{name}/Cargo.toml"),
                source: None,
                dependencies: Decoded::Value(Vec::new()),
                features: Decoded::Value(Vec::new()),
            })
            .collect(),
        workspace_members: members.iter().map(|name| id(name)).collect(),
        workspace_root: "/ws".to_owned(),
        resolve: Some(Resolve {
            nodes: members
                .iter()
                .map(|name| Node {
                    id: id(name),
                    deps: edges
                        .iter()
                        .filter(|(from, _)| from == name)
                        .map(|(_, to)| Dep {
                            name: Some((*to).to_owned()),
                            pkg: id(to),
                            dep_kinds: Some(Decoded::Value(vec![KindEntry {
                                kind: None,
                                target: None,
                            }])),
                        })
                        .collect(),
                    features: Decoded::Value(Vec::new()),
                })
                .collect(),
        }),
        unrebased_path_deps: 0,
    }
}

fn run(text: &str, meta: &Meta) -> Outcome {
    let policy = load("/ws/depgate.toml", Ok(text)).expect("the policy decodes");
    let graph = Graph::build(meta).expect("the graph builds");
    let options = MetadataOptions::default().with_source(MetadataSource::Stdin);
    let plan = plan(&policy, &graph, HOST, true, &options).expect("the policy is valid");
    let mut scratch = Scratch::new(&graph);
    check(&graph, plan, &Vec::new(), None, &mut scratch).expect("the rules are answered")
}

fn context() -> RenderContext {
    RenderContext::new("/ws".to_owned(), "cargo-depgate", "0.1.0", false)
}

const POLICY: &str = r#"schema = 1

[manifest]
versions-in-root = false

[rules.core]
deny = ["ui"]
internal = []
direct = ["tool"]
sealed = true

[rules.tool]
leaf = true

[rules.ui]
leaf = true
"#;

#[test]
fn every_rule_is_listed_and_every_violation_carries_a_shortest_path() {
    let meta = workspace(&["core", "tool", "ui"], &[("core", "ui"), ("tool", "core")]);
    let outcome = run(POLICY, &meta);
    let sources =
        vec![SourceData { path: "/ws/depgate.toml".to_owned(), text: POLICY.to_owned() }];

    let report = human::render(&outcome, &context(), &sources);

    let expected = [
        "error[rules.core.deny]: dependency policy violation",
        " --> depgate.toml:7:8",
        "  |",
        "7 | deny = [\"ui\"]",
        "  |        ^^^^^^ 1 match(es)",
        "  core v0.1.0 → ui v0.1.0",
        "error[rules.core.internal]: dependency policy violation",
        " --> depgate.toml:8:12",
        "  |",
        "8 | internal = []",
        "  |            ^^ 1 extra, 0 missing",
        "  +ui (via core v0.1.0 → ui v0.1.0)",
        "error[rules.core.direct]: dependency policy violation",
        " --> depgate.toml:9:10",
        "  |",
        "9 | direct = [\"tool\"]",
        "  |          ^^^^^^^^ 1 extra, 1 missing",
        "  +ui (via core v0.1.0 → ui v0.1.0)",
        "  -tool",
        "error[rules.core.sealed]: dependency policy violation",
        "  --> depgate.toml:10:10",
        "   |",
        "10 | sealed = true",
        "   |          ^^^^ consumed by 1 member(s)",
        "  consumed by: tool (tool → core)",
        "error[rules.tool.leaf]: dependency policy violation",
        "  --> depgate.toml:13:8",
        "   |",
        "13 | leaf = true",
        "   |        ^^^^ 2 extra, 0 missing",
        "  +core (via tool v0.1.0 → core v0.1.0)",
        "  +ui (via tool v0.1.0 → core v0.1.0 → ui v0.1.0)",
        "ok rules.ui.leaf",
        "FAIL: 6 rules, 5 violations",
        "",
    ];
    assert_eq!(report, expected.join("\n"));
    assert_eq!(outcome.exit, 1);
    assert_eq!(outcome.counters.violations, 5);
}

#[test]
fn a_complete_policy_file_decodes_and_validates() {
    let text = r#"schema = 1

[graph]
# "default" | "all" | ["pkg/feature", ...]. Reaches `cargo metadata` only through --config;
# --features / --all-features on the command line override it.
features = "default"

[internal]
# Which package names count as "internal" for the `internal` and `leaf` rules.
members = true
patterns = ["acme-*"]

[manifest]
# Every dependency version must live in the workspace-owning manifest.
versions-in-root = true

[rules.acme-app]
deny = ["openssl*", "ring"]
internal = ["acme-core", "acme-store"]
direct = ["acme-core", "serde", "tokio"]

[rules.acme-core]
# Answer this table's rules on the closure `acme-core` compiles with no features, instead of
# on the workspace-unified resolve. Only on an all-features document; see below.
features = "none"
internal = ["acme-store"]
require = ["serde"]

[rules.acme-store]
leaf = true
sealed = true
"#;
    let policy = load("depgate.toml", Ok(text)).expect("the policy decodes");

    let validated = validate(&policy, None, HOST).expect("the policy is valid");

    let ids: Vec<&str> = validated.config.rules.iter().map(|rule| rule.id.as_str()).collect();
    assert_eq!(
        ids,
        [
            "rules.acme-app.deny",
            "rules.acme-app.internal",
            "rules.acme-app.direct",
            "rules.acme-core.internal",
            "rules.acme-core.require",
            "rules.acme-store.leaf",
            "rules.acme-store.sealed",
        ]
    );
    let narrowed: Vec<bool> =
        validated.config.rules.iter().map(|rule| rule.features.is_some()).collect();
    assert_eq!(narrowed, [false, false, false, true, true, false, false]);
    let RuleKind::Deny { exact, globs, raw } = &validated.config.rules[0].kind else {
        panic!("the first rule is a deny rule");
    };
    assert_eq!(*exact, ["ring"]);
    assert!(globs.is_match("openssl-sys") && !globs.is_match("ring"));
    assert_eq!(*raw, ["openssl*", "ring"]);
}

#[test]
fn a_manifest_entry_is_annotated_at_its_version() {
    let meta = workspace(&["app"], &[]);
    let mut outcome = run("schema = 1\n[manifest]\nversions-in-root = false\n[rules.app]\nleaf = true\n", &meta);
    let text = "[package]\nname = \"app\"\nversion = \"0.1.0\"\n\n[dependencies]\n\nfoo = { path = \"../../foo\", version = \"0.1.0\" }\n";
    let input = ManifestInput::new("app".to_owned(), "/ws/crates/app/Cargo.toml".to_owned());
    let report = check_versions_in_root(&vec![(input, Ok(text.to_owned()))]).expect("scans");
    outcome.statuses[0].id = "manifest.versions-in-root".to_owned();
    outcome.statuses[0].kind = "manifest";
    outcome.statuses[0].passed = false;
    outcome.manifest = Some(report);

    let rendered = github::render(&outcome, &context(), &Vec::new());

    assert_eq!(
        rendered.lines().next(),
        Some("::error file=crates/app/Cargo.toml,line=7,col=39::manifest.versions-in-root: dependencies foo = \"0.1.0\"")
    );
}

#[test]
fn the_rules_of_one_package_share_their_traversals() {
    let meta = workspace(&["core", "tool", "ui"], &[("core", "ui"), ("tool", "core")]);
    let policy = load("/ws/depgate.toml", Ok(POLICY)).expect("the policy decodes");
    let graph = Graph::build(&meta).expect("the graph builds");
    let options = MetadataOptions::default().with_source(MetadataSource::Stdin);
    let plan = plan(&policy, &graph, HOST, true, &options).expect("the policy is valid");
    let mut scratch = Scratch::new(&graph);

    check(&graph, plan, &Vec::new(), None, &mut scratch).expect("the rules are answered");

    assert_eq!(scratch.traversals(), 4, "forward and reverse for core, forward for tool and ui");
}
