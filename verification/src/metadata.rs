//! The part of a `cargo metadata --format-version 1` document that the policy engine reads.

use crate::error::{Error, ErrorView};
use crate::graph::{DeclaredDep, KindEntry};
use crate::text::{self, text_view, texts};
use vstd::prelude::*;
use vstd::slice::slice_subrange;

verus! {

/// Zero bytes kept after the JSON, so that a parser may read past its end.
pub const BUFFER_PADDING: usize = 64;

/// The default `--cargo-timeout`, in seconds.
pub const DEFAULT_TIMEOUT_SECS: u64 = 300;

/// Where precomputed metadata comes from.
#[derive(Clone, Debug, PartialEq, Eq)]
pub enum MetadataSource {
    /// Standard input.
    Stdin,
    /// A file.
    File(String),
}

/// How metadata is obtained and, once obtained, rebased.
#[derive(Clone, Debug, PartialEq, Eq)]
#[non_exhaustive]
pub struct MetadataOptions {
    /// The `cargo` executable to spawn. `None` honours `$CARGO` and falls back to `cargo`.
    pub cargo: Option<String>,
    /// `--manifest-path`; `None` lets cargo search from the current directory.
    pub manifest_path: Option<String>,
    /// `--features` entries, forwarded verbatim (one `--features` flag per entry).
    pub features: Vec<String>,
    /// `--all-features`.
    pub all_features: bool,
    /// `--no-default-features`.
    pub no_default_features: bool,
    /// `--offline`.
    pub offline: bool,
    /// `--locked`; a gate must never rewrite `Cargo.lock`, so this defaults to `true`.
    pub locked: bool,
    /// Maximum runtime of the child process before it is killed, in seconds.
    pub timeout: u64,
    /// Precomputed metadata to read instead of spawning cargo.
    pub source: Option<MetadataSource>,
    /// Directory the JSON's `workspace_root` and member manifests are rebased onto.
    pub workspace_root: Option<String>,
}

/// A [`MetadataSource`] by the characters of its strings.
pub enum SourceView {
    Stdin,
    File(Seq<char>),
}

/// A [`MetadataOptions`] by the characters of its strings.
pub struct OptionsView {
    pub cargo: Option<Seq<char>>,
    pub manifest_path: Option<Seq<char>>,
    pub features: Seq<Seq<char>>,
    pub all_features: bool,
    pub no_default_features: bool,
    pub offline: bool,
    pub locked: bool,
    pub timeout: u64,
    pub source: Option<SourceView>,
    pub workspace_root: Option<Seq<char>>,
}

impl View for MetadataOptions {
    type V = OptionsView;

    open spec fn view(&self) -> OptionsView {
        OptionsView {
            cargo: text_view(self.cargo),
            manifest_path: text_view(self.manifest_path),
            features: texts(self.features@),
            all_features: self.all_features,
            no_default_features: self.no_default_features,
            offline: self.offline,
            locked: self.locked,
            timeout: self.timeout,
            source: match self.source {
                Some(MetadataSource::Stdin) => Some(SourceView::Stdin),
                Some(MetadataSource::File(path)) => Some(SourceView::File(path@)),
                None => None,
            },
            workspace_root: text_view(self.workspace_root),
        }
    }
}

fn copy_text(text: &Option<String>) -> (copied: Option<String>)
    ensures
        text_view(copied) == text_view(*text),
{
    match text {
        Some(text) => Some(text.as_str().to_owned()),
        None => None,
    }
}

impl MetadataOptions {
    /// A copy of the options.
    pub(crate) fn copied(&self) -> (options: MetadataOptions)
        ensures
            options@ == self@,
    {
        MetadataOptions {
            cargo: copy_text(&self.cargo),
            manifest_path: copy_text(&self.manifest_path),
            features: text::copy_all(&self.features),
            all_features: self.all_features,
            no_default_features: self.no_default_features,
            offline: self.offline,
            locked: self.locked,
            timeout: self.timeout,
            source: match &self.source {
                Some(MetadataSource::Stdin) => Some(MetadataSource::Stdin),
                Some(MetadataSource::File(path)) => Some(
                    MetadataSource::File(path.as_str().to_owned()),
                ),
                None => None,
            },
            workspace_root: copy_text(&self.workspace_root),
        }
    }
}

impl Default for MetadataOptions {
    fn default() -> (options: Self)
        ensures
            options.cargo is None,
            options.manifest_path is None,
            options.features@.len() == 0,
            !options.all_features,
            !options.no_default_features,
            !options.offline,
            options.locked,
            options.timeout == DEFAULT_TIMEOUT_SECS,
            options.source is None,
            options.workspace_root is None,
    {
        MetadataOptions {
            cargo: None,
            manifest_path: None,
            features: Vec::new(),
            all_features: false,
            no_default_features: false,
            offline: false,
            locked: true,
            timeout: DEFAULT_TIMEOUT_SECS,
            source: None,
            workspace_root: None,
        }
    }
}

impl MetadataOptions {
    /// Overrides the `cargo` executable to spawn.
    #[must_use]
    pub fn with_cargo(self, cargo: &str) -> (options: Self)
        ensures
            options.cargo matches Some(text) && text@ == cargo@,
            options == (MetadataOptions { cargo: options.cargo, ..self }),
    {
        MetadataOptions { cargo: Some(cargo.to_owned()), ..self }
    }

    /// Sets the `--manifest-path` cargo searches from.
    #[must_use]
    pub fn with_manifest_path(self, manifest_path: &str) -> (options: Self)
        ensures
            options.manifest_path matches Some(text) && text@ == manifest_path@,
            options == (MetadataOptions { manifest_path: options.manifest_path, ..self }),
    {
        MetadataOptions { manifest_path: Some(manifest_path.to_owned()), ..self }
    }

    /// Replaces the `--features` entries, forwarded verbatim.
    #[must_use]
    pub fn with_features(self, features: Vec<String>) -> (options: Self)
        ensures
            options == (MetadataOptions { features, ..self }),
    {
        MetadataOptions { features, ..self }
    }

    /// Sets `--all-features`.
    #[must_use]
    pub fn with_all_features(self, all_features: bool) -> (options: Self)
        ensures
            options == (MetadataOptions { all_features, ..self }),
    {
        MetadataOptions { all_features, ..self }
    }

    /// Sets `--no-default-features`.
    #[must_use]
    pub fn with_no_default_features(self, no_default_features: bool) -> (options: Self)
        ensures
            options == (MetadataOptions { no_default_features, ..self }),
    {
        MetadataOptions { no_default_features, ..self }
    }

    /// Sets `--offline`.
    #[must_use]
    pub fn with_offline(self, offline: bool) -> (options: Self)
        ensures
            options == (MetadataOptions { offline, ..self }),
    {
        MetadataOptions { offline, ..self }
    }

    /// Sets `--locked`, which defaults to `true` because a gate must never rewrite `Cargo.lock`.
    #[must_use]
    pub fn with_locked(self, locked: bool) -> (options: Self)
        ensures
            options == (MetadataOptions { locked, ..self }),
    {
        MetadataOptions { locked, ..self }
    }

    /// Sets the maximum runtime of the `cargo metadata` child process, in seconds.
    #[must_use]
    pub fn with_timeout(self, timeout: u64) -> (options: Self)
        ensures
            options == (MetadataOptions { timeout, ..self }),
    {
        MetadataOptions { timeout, ..self }
    }

    /// Reads precomputed metadata from `source` instead of spawning cargo.
    #[must_use]
    pub fn with_source(self, source: MetadataSource) -> (options: Self)
        ensures
            options == (MetadataOptions { source: Some(source), ..self }),
    {
        MetadataOptions { source: Some(source), ..self }
    }

    /// Rebases the document's `workspace_root` and member manifests onto `workspace_root`.
    #[must_use]
    pub fn with_workspace_root(self, workspace_root: &str) -> (options: Self)
        ensures
            options.workspace_root matches Some(text) && text@ == workspace_root@,
            options == (MetadataOptions { workspace_root: options.workspace_root, ..self }),
    {
        MetadataOptions { workspace_root: Some(workspace_root.to_owned()), ..self }
    }
}

/// Raw `cargo metadata` JSON with [`BUFFER_PADDING`] zero bytes of slack after the data.
///
/// The padding is never part of [`MetadataBuffer::as_bytes`].
#[derive(Debug, PartialEq, Eq)]
pub struct MetadataBuffer {
    bytes: Vec<u8>,
    len: usize,
    workspace_root: Option<String>,
}

impl MetadataBuffer {
    #[verifier::type_invariant]
    spec fn padded(self) -> bool {
        self.len + BUFFER_PADDING == self.bytes@.len()
    }

    /// The JSON.
    pub closed spec fn json(self) -> Seq<u8> {
        self.bytes@.take(self.len as int)
    }

    /// The bytes after the JSON.
    pub closed spec fn slack(self) -> Seq<u8> {
        self.bytes@.skip(self.len as int)
    }

    /// The directory the workspace is rebased onto.
    pub closed spec fn root(self) -> Option<String> {
        self.workspace_root
    }

    /// Wraps already-read JSON, appending the padding.
    #[must_use]
    pub fn from_bytes(bytes: Vec<u8>) -> (buffer: Self)
        requires
            bytes@.len() + BUFFER_PADDING <= usize::MAX,
        ensures
            buffer.json() == bytes@,
            buffer.slack() == Seq::new(BUFFER_PADDING as nat, |i: int| 0u8),
            buffer.root() is None,
    {
        let mut bytes = bytes;
        let len: usize = bytes.len();
        let ghost before = bytes@;
        bytes.resize(len + BUFFER_PADDING, 0);
        assert(bytes@.take(len as int) =~= before);
        assert(bytes@.skip(len as int) =~= Seq::new(BUFFER_PADDING as nat, |i: int| 0u8));
        MetadataBuffer { bytes, len, workspace_root: None }
    }

    /// Records the directory that the document is rebased onto.
    #[must_use]
    pub fn with_workspace_root(self, workspace_root: Option<String>) -> (buffer: Self)
        ensures
            buffer.json() == self.json(),
            buffer.slack() == self.slack(),
            buffer.root() == workspace_root,
    {
        proof {
            use_type_invariant(&self);
        }
        MetadataBuffer { bytes: self.bytes, len: self.len, workspace_root }
    }

    /// The JSON bytes, without the padding.
    #[must_use]
    pub fn as_bytes(&self) -> (bytes: &[u8])
        ensures
            bytes@ == self.json(),
    {
        proof {
            use_type_invariant(self);
        }
        slice_subrange(self.bytes.as_slice(), 0, self.len)
    }

    /// The directory the workspace is rebased onto, if any.
    #[must_use]
    pub fn workspace_root(&self) -> (root: Option<&String>)
        ensures
            root == (match self.root() {
                Some(root) => Some(&root),
                None => None,
            }),
    {
        self.workspace_root.as_ref()
    }

    /// Total length including the padding; useful for reporting.
    #[must_use]
    pub fn padded_len(&self) -> (len: usize)
        ensures
            len == self.json().len() + BUFFER_PADDING,
    {
        proof {
            use_type_invariant(self);
        }
        self.bytes.len()
    }
}

impl Clone for MetadataBuffer {
    fn clone(&self) -> (copied: Self)
        ensures
            copied.json() == self.json(),
            copied.slack() == self.slack(),
            copied.root() == self.root(),
    {
        proof {
            use_type_invariant(self);
        }
        let bytes = self.bytes.clone();
        assert(bytes@ =~= self.bytes@);
        MetadataBuffer { bytes, len: self.len, workspace_root: self.workspace_root.clone() }
    }
}

/// A part of the document that is decoded on its own: its value, or the decoder's message
/// when the part does not have the shape it should have.
#[derive(Clone, Debug, PartialEq, Eq)]
pub enum Decoded<T> {
    /// The decoded value.
    Value(T),
    /// The decoder's message.
    Malformed(String),
}

/// The subset of `cargo metadata --format-version 1` the policy engine consumes.
#[derive(Clone, Debug, PartialEq, Eq)]
pub struct Meta {
    /// Every package in the resolve, workspace members included.
    pub packages: Vec<Pkg>,
    /// Ids of the workspace members.
    pub workspace_members: Vec<String>,
    /// The workspace root directory.
    pub workspace_root: String,
    /// The resolved dependency graph; `None` when the JSON came from `--no-deps`.
    pub resolve: Option<Resolve>,
    /// Non-member `path+` packages left unrebased under `--workspace-root`.
    pub unrebased_path_deps: u32,
}

/// One feature of a package and the entries it enables.
#[derive(Clone, Debug, PartialEq, Eq)]
pub struct Feature {
    /// The feature's name.
    pub name: String,
    /// The entries: other features, `dep:x`, `x/feat` or `x?/feat`.
    pub entries: Vec<String>,
}

/// One `packages[]` entry.
#[derive(Clone, Debug, PartialEq, Eq)]
pub struct Pkg {
    /// The package id (`path+file:///…#name@version` or `registry+…#name@version`).
    pub id: String,
    /// The package name.
    pub name: String,
    /// The package version.
    pub version: String,
    /// Absolute path of the package's `Cargo.toml`.
    pub manifest_path: String,
    /// The package source (`registry+…`, `git+…`); `None` for path packages.
    pub source: Option<String>,
    /// The declared `dependencies`.
    pub dependencies: Decoded<Vec<DeclaredDep>>,
    /// The `[features]` table, each name once. Cargo materialises the implicit feature of an
    /// optional dependency here as `"<extern name>": ["dep:<extern name>"]`. An absent table
    /// is an empty one.
    pub features: Decoded<Vec<Feature>>,
}

impl Pkg {
    /// Whether the package comes from a local path.
    pub open spec fn is_local(self) -> bool {
        self.source is None || text::has_prefix(self.id@, "path+"@)
    }

    /// Whether the package comes from a local path (as opposed to a registry or git).
    ///
    /// Cargo reports path packages with a `null` source in every format-version 1
    /// release; the `path+` id prefix is a second, newer signal.
    #[must_use]
    pub fn is_path(&self) -> (local: bool)
        ensures
            local == self.is_local(),
    {
        self.source.is_none() || text::starts_with(self.id.as_str(), "path+")
    }
}

/// The `resolve` object.
#[derive(Clone, Debug, PartialEq, Eq)]
pub struct Resolve {
    /// One node per package, in cargo's order (not necessarily `packages[]` order).
    pub nodes: Vec<Node>,
}

/// One `resolve.nodes[]` entry.
#[derive(Clone, Debug, PartialEq, Eq)]
pub struct Node {
    /// The package id this node describes.
    pub id: String,
    /// The resolved edges.
    pub deps: Vec<Dep>,
    /// The features the resolve activated on the package. An absent list is an empty one.
    pub features: Decoded<Vec<String>>,
}

/// One `resolve.nodes[].deps[]` entry.
#[derive(Clone, Debug, PartialEq, Eq)]
pub struct Dep {
    /// The dependency's library target name, renamed if the declaration renamed it; `None`
    /// when the document predates the field.
    pub name: Option<String>,
    /// The id of the package this edge points to.
    pub pkg: String,
    /// The `dep_kinds` array; `None` when absent (pre-1.41 cargo).
    pub dep_kinds: Option<Decoded<Vec<KindEntry>>>,
}

/// The error of a document that was generated with `--no-deps`.
pub open spec fn resolve_is_null() -> ErrorView {
    ErrorView::MetadataInvalid {
        message: "`resolve` is null; the metadata was generated with --no-deps"@,
    }
}

/// Returns the resolve, failing closed when it is absent.
///
/// # Errors
///
/// Returns [`Error::MetadataInvalid`] when `resolve` is `null`.
pub fn resolve_of(meta: &Meta) -> (resolve: Result<&Resolve, Error>)
    ensures
        match meta.resolve {
            Some(found) => resolve == Ok::<&Resolve, Error>(&found),
            None => resolve is Err && resolve->Err_0@ == resolve_is_null(),
        },
{
    match &meta.resolve {
        Some(resolve) => Ok(resolve),
        None => Err(
            Error::MetadataInvalid {
                message: "`resolve` is null; the metadata was generated with --no-deps".to_owned(),
            },
        ),
    }
}

/// The directory a workspace is rebased onto: `dir` without trailing slashes, except that a
/// single character is kept as it is.
pub open spec fn rebase_target(dir: Seq<char>) -> Seq<char> {
    if dir.len() > 1 {
        text::trimmed_end(dir, '/')
    } else {
        dir
    }
}

/// `path` moved from under `old_root` to under `new_root`, or `None` when `path` is neither
/// `old_root` itself nor a `/`-separated descendant of it.
pub open spec fn rebased(path: Seq<char>, old_root: Seq<char>, new_root: Seq<char>) -> Option<
    Seq<char>,
> {
    if !text::has_prefix(path, old_root) {
        None
    } else if path.len() == old_root.len() {
        Some(new_root)
    } else if path[old_root.len() as int] != '/' {
        None
    } else {
        Some(text::trimmed_end(new_root, '/') + path.skip(old_root.len() as int))
    }
}

/// Whether rebasing changes the manifest path of `package`.
pub open spec fn moves(package: Pkg, old_root: Seq<char>, dir: Seq<char>) -> bool {
    package.is_local() && rebased(package.manifest_path@, old_root, dir) is Some
}

/// Whether rebasing has to move `package` and cannot.
pub open spec fn strands(package: Pkg, members: Seq<String>, old_root: Seq<char>, dir: Seq<char>) -> bool {
    package.is_local() && rebased(package.manifest_path@, old_root, dir) is None && text::texts(
        members,
    ).contains(package.id@)
}

/// The number of packages among the first `upto` that rebasing leaves where they are although
/// they come from a local path.
pub open spec fn left_behind(packages: Seq<Pkg>, old_root: Seq<char>, dir: Seq<char>, upto: int) -> int
    decreases upto,
{
    if upto <= 0 {
        0
    } else {
        left_behind(packages, old_root, dir, upto - 1) + (if packages[upto - 1].is_local()
            && !moves(packages[upto - 1], old_root, dir) {
            1int
        } else {
            0int
        })
    }
}

/// Whether `after` is `before` with its manifest path rebased where it is under the old root.
pub open spec fn is_rebased(before: Pkg, after: Pkg, old_root: Seq<char>, dir: Seq<char>) -> bool {
    &&& after == (Pkg { manifest_path: after.manifest_path, ..before })
    &&& if moves(before, old_root, dir) {
        after.manifest_path@ == rebased(before.manifest_path@, old_root, dir)->0
    } else {
        after == before
    }
}

/// The error of a workspace member that does not live under the workspace root.
pub open spec fn stranded_member(package: Pkg, old_root: Seq<char>) -> ErrorView {
    ErrorView::MetadataInvalid {
        message: "workspace member `"@ + package.name@ + "` manifest `"@ + package.manifest_path@
            + "` is not under the workspace root `"@ + old_root + "`"@,
    }
}

/// Rewrites `path` from under `old_root` to under `new_root`, or returns `None`
/// when `path` is not `old_root` itself or a `/`-separated descendant of it.
fn rebase_path(path: &str, old_root: &str, new_root: &str) -> (moved: Option<String>)
    ensures
        match moved {
            Some(moved) => rebased(path@, old_root@, new_root@) == Some(moved@),
            None => rebased(path@, old_root@, new_root@) is None,
        },
{
    let rest = match text::strip_prefix(path, old_root) {
        Some(rest) => rest,
        None => return None,
    };
    if rest.as_str().is_empty() {
        assert(path@.len() == old_root@.len());
        return Some(new_root.to_owned());
    }
    let slash = "/";
    proof {
        reveal_strlit("/");
        text::prefix_of_one(rest@, slash@);
    }
    if !text::starts_with(rest.as_str(), slash) {
        return None;
    }
    let mut moved = text::trim_end(new_root, '/');
    moved.push_str(rest.as_str());
    Some(moved)
}

/// Whether `after` is `before` rebased onto `dir`, or `fault` says which member first stood in the
/// way. The packages before that one are moved then, the others are as they were, and no root is
/// left.
pub open spec fn is_rebasing(before: Meta, after: Meta, dir: Seq<char>, fault: Option<ErrorView>) -> bool {
    let root = before.workspace_root@;
    let target = rebase_target(dir);
    let packages = before.packages@;
    let members = before.workspace_members@;
    &&& match fault {
        None => {
            &&& forall|i: int|
                0 <= i < packages.len() ==> !strands(#[trigger] packages[i], members, root, target)
            &&& after.packages@.len() == packages.len()
            &&& forall|i: int|
                0 <= i < packages.len() ==> is_rebased(
                    packages[i],
                    #[trigger] after.packages@[i],
                    root,
                    target,
                )
            &&& after.workspace_root@ == target
            &&& after.unrebased_path_deps == left_behind(
                packages,
                root,
                target,
                packages.len() as int,
            )
        },
        Some(error) => exists|i: int|
            {
                &&& 0 <= i < packages.len()
                &&& strands(#[trigger] packages[i], members, root, target)
                &&& forall|j: int| 0 <= j < i ==> !strands(packages[j], members, root, target)
                &&& error == stranded_member(packages[i], root)
                &&& after.packages@.len() == packages.len()
                &&& forall|j: int|
                    0 <= j < i ==> is_rebased(
                        packages[j],
                        #[trigger] after.packages@[j],
                        root,
                        target,
                    )
                &&& forall|j: int|
                    i <= j < packages.len() ==> #[trigger] after.packages@[j] == packages[j]
                &&& after.workspace_root@.len() == 0
                &&& after.unrebased_path_deps == before.unrebased_path_deps
            },
    }
    &&& after.workspace_members == before.workspace_members
    &&& after.resolve == before.resolve
}

impl Meta {
    /// Rebases `workspace_root` and every `path+` manifest onto `dir`.
    ///
    /// The prefix comparison is `/`-separated: a manifest rebases when it equals the
    /// JSON's `workspace_root` or starts with it followed by `/`. Members must rebase
    /// — cargo guarantees they live under the root, so a failure is a fail-closed
    /// assertion. Non-member `path+` packages outside the root are left untouched and
    /// counted in [`Meta::unrebased_path_deps`]; their manifests are never opened.
    ///
    /// Only `manifest_path` and `workspace_root` are rewritten: ids are only ever compared
    /// with each other, so they keep the path the JSON was generated with. After an error
    /// the packages before the one that is named are moved and `workspace_root` is empty.
    ///
    /// # Errors
    ///
    /// [`Error::MetadataInvalid`] when a workspace member's manifest is not under the JSON's
    /// `workspace_root`; the first such member is named.
    pub fn rebase(&mut self, dir: &str) -> (result: Result<(), Error>)
        requires
            old(self).packages@.len() <= u32::MAX,
        ensures
            is_rebasing(
                *old(self),
                *final(self),
                dir@,
                match result {
                    Ok(()) => None,
                    Err(error) => Some(error@),
                },
            ),
    {
        let long = text::chars_of(dir).len() > 1;
        let target = if long {
            text::trim_end(dir, '/')
        } else {
            dir.to_owned()
        };
        let mut old_root = String::new();
        std::mem::swap(&mut old_root, &mut self.workspace_root);
        let mut unrebased: u32 = 0;
        let ghost packages = old(self).packages@;
        let ghost root = old(self).workspace_root@;

        let mut at: usize = 0;
        while at < self.packages.len()
            invariant
                at <= self.packages@.len() == packages.len() <= u32::MAX,
                packages == old(self).packages@,
                root == old(self).workspace_root@,
                old_root@ == root,
                target@ == rebase_target(dir@),
                self.workspace_members == old(self).workspace_members,
                self.resolve == old(self).resolve,
                self.workspace_root@.len() == 0,
                self.unrebased_path_deps == old(self).unrebased_path_deps,
                unrebased == left_behind(packages, root, target@, at as int),
                0 <= unrebased <= at,
                forall|i: int|
                    0 <= i < at ==> !strands(
                        #[trigger] packages[i],
                        self.workspace_members@,
                        root,
                        target@,
                    ),
                forall|i: int|
                    0 <= i < at ==> is_rebased(
                        packages[i],
                        #[trigger] self.packages@[i],
                        root,
                        target@,
                    ),
                forall|i: int| at <= i < packages.len() ==> self.packages@[i] == packages[i],
            decreases packages.len() - at,
        {
            assert(self.packages@[at as int] == packages[at as int]);
            if self.packages[at].is_path() {
                let moved = rebase_path(
                    self.packages[at].manifest_path.as_str(),
                    old_root.as_str(),
                    target.as_str(),
                );
                match moved {
                    Some(moved) => {
                        self.packages[at].manifest_path = moved;
                    },
                    None => {
                        if text::contains(&self.workspace_members, self.packages[at].id.as_str()) {
                            let mut message = "workspace member `".to_owned();
                            message.push_str(self.packages[at].name.as_str());
                            message.push_str("` manifest `");
                            message.push_str(self.packages[at].manifest_path.as_str());
                            message.push_str("` is not under the workspace root `");
                            message.push_str(old_root.as_str());
                            message.push_str("`");
                            assert(strands(
                                packages[at as int],
                                self.workspace_members@,
                                root,
                                target@,
                            ));
                            return Err(Error::MetadataInvalid { message });
                        }
                        unrebased = unrebased + 1;
                    },
                }
            }
            at = at + 1;
        }

        self.workspace_root = target;
        self.unrebased_path_deps = unrebased;
        Ok(())
    }
}

/// A `cargo metadata` command line.
#[derive(Clone, Debug, PartialEq, Eq)]
pub struct CargoCommand {
    /// The executable; `None` honours `$CARGO` and falls back to `cargo`.
    pub program: Option<String>,
    /// Its arguments.
    pub arguments: Vec<String>,
}

/// A flag, when it is set.
pub open spec fn flag(set: bool, name: Seq<char>) -> Seq<Seq<char>> {
    if set {
        seq![name]
    } else {
        Seq::empty()
    }
}

/// One `--features` flag for each of the first `upto` entries.
pub open spec fn feature_flags(features: Seq<Seq<char>>, upto: int) -> Seq<Seq<char>>
    decreases upto,
{
    if upto <= 0 {
        Seq::empty()
    } else {
        feature_flags(features, upto - 1) + seq!["--features"@, features[upto - 1]]
    }
}

/// The flags that `options` ask for, in order.
pub open spec fn flags_of(options: OptionsView) -> Seq<Seq<char>> {
    flag(options.all_features, "--all-features"@) + flag(
        options.no_default_features,
        "--no-default-features"@,
    ) + (match options.manifest_path {
        Some(path) => seq!["--manifest-path"@, path],
        None => Seq::empty(),
    }) + flag(options.locked, "--locked"@) + feature_flags(
        options.features,
        options.features.len() as int,
    ) + flag(options.offline, "--offline"@)
}

fn push_flag(flags: &mut Vec<String>, set: bool, name: &str)
    ensures
        texts(final(flags)@) == texts(old(flags)@) + flag(set, name@),
{
    if set {
        flags.push(name.to_owned());
    }
    assert(texts(flags@) =~= texts(old(flags)@) + flag(set, name@));
}

/// The words that every `cargo metadata` command line starts with: the subcommand and the format
/// of what it prints.
pub open spec fn subcommand() -> Seq<Seq<char>> {
    seq!["metadata"@, "--format-version"@, "1"@]
}

/// The subcommand, followed by `options` as they are.
fn command_line(options: Vec<String>) -> (arguments: Vec<String>)
    ensures
        texts(arguments@) == subcommand() + texts(options@),
{
    let ghost given = texts(options@);
    let mut options = options;
    let mut arguments: Vec<String> = Vec::new();
    arguments.push("metadata".to_owned());
    arguments.push("--format-version".to_owned());
    arguments.push("1".to_owned());
    assert(texts(arguments@) =~= subcommand());
    arguments.append(&mut options);
    assert(texts(arguments@) =~= subcommand() + given);
    arguments
}

/// Builds the `cargo metadata` command line for `options` without running it.
///
/// The texts of `options` are handed on as they are, whatever they hold.
#[must_use]
pub fn cargo_command(options: &MetadataOptions) -> (command: CargoCommand)
    ensures
        text_view(command.program) == options@.cargo,
        texts(command.arguments@) == subcommand() + flags_of(options@),
{
    let mut flags: Vec<String> = Vec::new();
    assert(texts(flags@) =~= Seq::<Seq<char>>::empty());
    push_flag(&mut flags, options.all_features, "--all-features");
    push_flag(&mut flags, options.no_default_features, "--no-default-features");
    let ghost before = texts(flags@);
    if let Some(path) = &options.manifest_path {
        push_flag(&mut flags, true, "--manifest-path");
        push_flag(&mut flags, true, path.as_str());
        assert(texts(flags@) =~= before + seq!["--manifest-path"@, path@]);
    } else {
        assert(texts(flags@) =~= before + Seq::<Seq<char>>::empty());
    }
    push_flag(&mut flags, options.locked, "--locked");
    let ghost before = texts(flags@);
    let ghost features = texts(options.features@);
    let mut at: usize = 0;
    assert(before + feature_flags(features, 0) =~= before);
    while at < options.features.len()
        invariant
            at <= options.features@.len(),
            features == texts(options.features@),
            texts(flags@) == before + feature_flags(features, at as int),
        decreases options.features@.len() - at,
    {
        let ghost so_far = texts(flags@);
        push_flag(&mut flags, true, "--features");
        push_flag(&mut flags, true, options.features[at].as_str());
        proof {
            assert(features[at as int] == options.features@[at as int]@);
            assert(texts(flags@) =~= before + feature_flags(features, at + 1));
        }
        at = at + 1;
    }
    push_flag(&mut flags, options.offline, "--offline");
    assert(texts(flags@) =~= flags_of(options@));
    CargoCommand { program: copy_text(&options.cargo), arguments: command_line(flags) }
}

/// How the run of `cargo metadata` came to its end.
#[derive(Clone, Debug, PartialEq, Eq)]
pub enum ChildEnd {
    /// The output was read to its end and the child exited: successfully, or with a code.
    Exited {
        /// Whether the child reports success.
        success: bool,
        /// The exit code, or `None` if the child ended without one.
        code: Option<i32>,
    },
    /// The output was read to its end, but the child still ran when its time was up.
    Lingering,
    /// No end of the output was seen within the time allowed.
    TimedOut,
    /// Reading the output failed, or waiting for the child did.
    Broken(String),
}

/// What the end of a run means, within `timeout` seconds.
pub open spec fn end_fault(end: ChildEnd, timeout: u64) -> Option<ErrorView> {
    match end {
        ChildEnd::Exited { success: true, .. } => None,
        ChildEnd::Exited { success: false, code } => Some(
            ErrorView::CargoMetadataFailed { status: code },
        ),
        ChildEnd::Lingering => Some(ErrorView::CargoMetadataTimeout { timeout: timeout as nat }),
        ChildEnd::TimedOut => Some(ErrorView::CargoMetadataTimeout { timeout: timeout as nat }),
        ChildEnd::Broken(cause) => Some(ErrorView::CargoMetadataRead { cause: cause@ }),
    }
}

/// Judges the end of a `cargo metadata` run that was allowed `timeout` seconds.
///
/// # Errors
///
/// - [`Error::CargoMetadataTimeout`] when the child exceeds the timeout, be it that it closes
///   its output and keeps running.
/// - [`Error::CargoMetadataRead`] when the pipe fails or the child cannot be reaped.
/// - [`Error::CargoMetadataFailed`] when the child exits unsuccessfully.
pub fn judge_end(end: ChildEnd, timeout: u64) -> (result: Result<(), Error>)
    ensures
        match result {
            Ok(()) => end_fault(end, timeout) is None,
            Err(error) => end_fault(end, timeout) == Some(error@),
        },
{
    match end {
        ChildEnd::Exited { success, code } => if success {
            Ok(())
        } else {
            Err(Error::CargoMetadataFailed { status: code })
        },
        ChildEnd::Lingering => Err(Error::CargoMetadataTimeout { timeout }),
        ChildEnd::TimedOut => Err(Error::CargoMetadataTimeout { timeout }),
        ChildEnd::Broken(cause) => Err(Error::CargoMetadataRead { cause }),
    }
}

/// The least time that a child which closed its output is given to exit, in microseconds.
///
/// A run that spent its whole timeout streaming output would otherwise be left with none, and a
/// healthy exit would be reported as a timeout.
pub const REAP_FLOOR: u64 = 2_000_000;

/// The longest gap between two looks at a child that is about to exit, in microseconds.
pub const REAP_POLL_MAX: u64 = 5_000;

/// The time that a child which closed its output is given to exit, in microseconds: what is left
/// of `timeout` after `elapsed`, and [`REAP_FLOOR`] at least.
#[must_use]
pub fn reap_budget(timeout: u64, elapsed: u64) -> (budget: u64)
    ensures
        budget == if timeout - elapsed > REAP_FLOOR {
            timeout - elapsed
        } else {
            REAP_FLOOR as int
        },
{
    if timeout > elapsed && timeout - elapsed > REAP_FLOOR {
        timeout - elapsed
    } else {
        REAP_FLOOR
    }
}

/// The gap that follows a gap of `interval` microseconds: twice as long, as far as
/// [`REAP_POLL_MAX`] allows.
#[must_use]
pub fn next_interval(interval: u64) -> (next: u64)
    ensures
        next == if 2 * interval < REAP_POLL_MAX {
            2 * interval
        } else {
            REAP_POLL_MAX as int
        },
{
    if interval < REAP_POLL_MAX / 2 {
        2 * interval
    } else {
        REAP_POLL_MAX
    }
}

impl Meta {
    /// Readies a document that was just decoded: its resolve must be there, and it is rebased
    /// onto `dir` when one is given.
    ///
    /// # Errors
    ///
    /// [`Error::MetadataInvalid`] when `resolve` is `null`, and whatever [`Meta::rebase`]
    /// returns.
    pub fn prepare(&mut self, dir: Option<&str>) -> (result: Result<(), Error>)
        requires
            old(self).packages@.len() <= u32::MAX,
        ensures
            old(self).resolve is None ==> result is Err && result->Err_0@ == resolve_is_null()
                && *final(self) == *old(self),
            old(self).resolve is Some ==> match dir {
                None => result is Ok && *final(self) == *old(self),
                Some(dir) => is_rebasing(
                    *old(self),
                    *final(self),
                    dir@,
                    match result {
                        Ok(()) => None,
                        Err(error) => Some(error@),
                    },
                ),
            },
    {
        if let Err(error) = resolve_of(self) {
            return Err(error);
        }
        match dir {
            Some(dir) => self.rebase(dir),
            None => Ok(()),
        }
    }
}

} // verus!
