# cargo-depgate

A dependency policy enforcer for Cargo workspaces. A policy file, `depgate.toml`, states which
packages a workspace member may, must or must not reach through its normal dependencies; a run
resolves the workspace once with `cargo metadata` and answers every rule on that graph, each finding
with a shortest path that shows it.

- `src/` is the library: the policy decoder and its validation, the dependency graph and its
  searches, Cargo's feature activation, the rules, the manifest scan and the reports. Every function
  is verified with Verus against the contract it carries.
- `tests/` holds its tests.
- `app/` is the program around it: the command line, files, the `cargo metadata` child process and
  the serialization of JSON.

Outside crates are called from a few wrappers, each with its contract: `toml` parses, `globset`
matches, `fixedbitset` and `rustc-hash` hold sets and indices, `cfg-expr` evaluates target
expressions, `annotate-snippets` and `anstyle` draw.
