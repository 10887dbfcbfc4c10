//! The policy file: what it says, and what a run makes of it.
//!
//! A [`RawConfig`] holds the file as it was written, each value with its place. [`validate`]
//! turns it into the [`Config`] that rules are evaluated from. The checks that need no
//! dependency graph come first, so that they come out the same with and without one.

use crate::arrays::{self, entry_range};
use crate::error::{error_text, ErrorView};
use crate::features::{
    self, declarations, defines, feature_table_of, features_fault, fully_activated, lacking_member,
    unactivated_features, Selection, SelectionView,
};
use crate::files::SEPARATOR;
use crate::globs::{self, pattern_fault, set_fault};
use crate::graph::{lists, DeclaredDep, Graph, GraphView};
use crate::metadata::Decoded;
use crate::names;
use crate::order::{self, by_offset};
use crate::platform::{self, PlatformSelection};
use crate::source::{self, place_of, saturated};
use crate::text::{self, decimal, texts};
use globset::GlobSet;
use vstd::prelude::*;

pub use crate::decode::load;

verus! {

/// The configuration schema that is implemented.
pub const CURRENT_SCHEMA: u32 = 1;

/// A place in a source file: one-based line and one-based character column.
#[derive(Clone, Debug, PartialEq, Eq)]
pub struct Span {
    /// The file.
    pub file: String,
    /// The line, counted from one.
    pub line: u32,
    /// The character in the line, counted from one.
    pub col: u32,
}

impl View for Span {
    type V = (Seq<char>, nat, nat);

    open spec fn view(&self) -> (Seq<char>, nat, nat) {
        (self.file@, self.line as nat, self.col as nat)
    }
}

impl Span {
    /// A copy of the place.
    pub(crate) fn copied(&self) -> (span: Span)
        ensures
            span@ == self@,
    {
        Span { file: self.file.as_str().to_owned(), line: self.line, col: self.col }
    }
}

/// A value of the file and the bytes that it is written at.
#[derive(Clone, Debug, PartialEq, Eq)]
pub struct Located<T> {
    /// The value.
    pub value: T,
    /// The first byte.
    pub start: usize,
    /// Behind the last byte.
    pub end: usize,
}

/// The feature selection of a table as it was written.
#[derive(Clone, Debug, PartialEq, Eq)]
pub enum FeatureValue {
    /// A named selection (`default` or `all`).
    Named(String),
    /// Explicit Cargo feature specifications.
    List(Vec<String>),
}

/// The platform selection as it was written.
#[derive(Clone, Debug, PartialEq, Eq)]
pub enum PlatformValue {
    /// A named selection (`all` or `host`).
    Named(String),
    /// Explicit target triples.
    List(Vec<String>),
}

/// The `[graph]` table.
#[derive(Clone, Debug, PartialEq, Eq)]
pub struct RawGraph {
    /// Cargo feature selection.
    pub features: Located<FeatureValue>,
    /// Target-platform selection.
    pub platform: Located<PlatformValue>,
}

/// The `[internal]` table.
#[derive(Clone, Debug, PartialEq, Eq)]
pub struct RawInternal {
    /// Whether workspace members are automatically internal.
    pub members: Located<bool>,
    /// Additional internal package-name glob patterns.
    pub patterns: Located<Vec<String>>,
}

/// The `[manifest]` table.
#[derive(Clone, Debug, PartialEq, Eq)]
pub struct RawManifest {
    /// Whether the root manifest version is checked.
    pub versions_in_root: Located<bool>,
}

/// One `[rules.<package>]` table.
#[derive(Clone, Debug, PartialEq, Eq)]
pub struct RawRuleSpec {
    /// The feature selection the rule's closure is evaluated on.
    pub features: Option<Located<FeatureValue>>,
    /// Dependency names or glob patterns denied by the rule.
    pub deny: Option<Located<Vec<String>>>,
    /// Dependency names or glob patterns the rule's closure must contain.
    pub require: Option<Located<Vec<String>>>,
    /// Exact package names required to be internal.
    pub internal: Option<Located<Vec<String>>>,
    /// Whether the package must be a leaf.
    pub leaf: Option<Located<bool>>,
    /// Exact package names required as direct dependencies.
    pub direct: Option<Located<Vec<String>>>,
    /// Whether the package's normal dependency set must be sealed.
    pub sealed: Option<Located<bool>>,
}

/// One `[rules.<package>]` table with its package.
#[derive(Clone, Debug, PartialEq, Eq)]
pub struct RawRule {
    /// The package that the table is named after.
    pub package: String,
    /// The table.
    pub table: Located<RawRuleSpec>,
}

/// The file that a configuration was read from.
#[derive(Clone, Debug, PartialEq, Eq)]
pub struct SourceData {
    /// The path.
    pub path: String,
    /// The text.
    pub text: String,
}

/// A configuration as it was written.
#[derive(Clone, Debug, PartialEq, Eq)]
pub struct RawConfig {
    /// The configuration schema version.
    pub schema: Located<u32>,
    /// Graph settings.
    pub graph: RawGraph,
    /// Internal package settings.
    pub internal: RawInternal,
    /// Manifest settings.
    pub manifest: RawManifest,
    /// Per-package rule tables in source declaration order.
    pub rules: Vec<RawRule>,
    /// The file, when the configuration came from one.
    pub source: Option<SourceData>,
}

/// A value that was not written.
pub open spec fn unwritten<T>(located: Located<T>) -> bool {
    located.start == 0 && located.end == 0
}

impl Default for RawGraph {
    fn default() -> (graph: RawGraph)
        ensures
            graph.features.value is Named && graph.features.value->Named_0@ == "default"@,
            graph.platform.value is Named && graph.platform.value->Named_0@ == "all"@,
            unwritten(graph.features),
            unwritten(graph.platform),
    {
        RawGraph {
            features: Located {
                value: FeatureValue::Named("default".to_owned()),
                start: 0,
                end: 0,
            },
            platform: Located { value: PlatformValue::Named("all".to_owned()), start: 0, end: 0 },
        }
    }
}

impl Default for RawInternal {
    fn default() -> (internal: RawInternal)
        ensures
            internal.members.value,
            internal.patterns.value@.len() == 0,
            unwritten(internal.members),
            unwritten(internal.patterns),
    {
        RawInternal {
            members: Located { value: true, start: 0, end: 0 },
            patterns: Located { value: Vec::new(), start: 0, end: 0 },
        }
    }
}

impl Default for RawManifest {
    fn default() -> (manifest: RawManifest)
        ensures
            manifest.versions_in_root.value,
            unwritten(manifest.versions_in_root),
    {
        RawManifest { versions_in_root: Located { value: true, start: 0, end: 0 } }
    }
}

impl Default for RawRuleSpec {
    fn default() -> (spec: RawRuleSpec)
        ensures
            spec.features is None,
            spec.deny is None,
            spec.require is None,
            spec.internal is None,
            spec.leaf is None,
            spec.direct is None,
            spec.sealed is None,
    {
        RawRuleSpec {
            features: None,
            deny: None,
            require: None,
            internal: None,
            leaf: None,
            direct: None,
            sealed: None,
        }
    }
}

/// The graph feature selection requested by a configuration.
#[derive(Clone, Debug, PartialEq, Eq)]
#[non_exhaustive]
pub enum FeatureSelection {
    /// Resolve the package's default features.
    Default,
    /// Resolve all available features.
    All,
    /// Resolve the listed package feature specifications.
    List(Vec<String>),
}

/// A [`FeatureSelection`] by the characters of its strings.
pub enum FeatureSelectionView {
    Default,
    All,
    List(Seq<Seq<char>>),
}

impl View for FeatureSelection {
    type V = FeatureSelectionView;

    open spec fn view(&self) -> FeatureSelectionView {
        match *self {
            FeatureSelection::Default => FeatureSelectionView::Default,
            FeatureSelection::All => FeatureSelectionView::All,
            FeatureSelection::List(features) => FeatureSelectionView::List(texts(features@)),
        }
    }
}

impl FeatureSelection {
    /// A copy of the selection.
    pub(crate) fn copied(&self) -> (selection: FeatureSelection)
        ensures
            selection@ == self@,
    {
        match self {
            FeatureSelection::Default => FeatureSelection::Default,
            FeatureSelection::All => FeatureSelection::All,
            FeatureSelection::List(features) => FeatureSelection::List(text::copy_all(features)),
        }
    }
}

/// The validated definition of workspace-internal package matching.
#[derive(Debug)]
pub struct InternalDef {
    /// Whether workspace members are included automatically.
    pub members: bool,
    /// Additional package-name patterns treated as internal.
    pub patterns: GlobSet,
}

/// A rule's feature-aware closure selection, with the place of the key that asked for it.
#[derive(Clone, Debug, PartialEq, Eq)]
#[non_exhaustive]
pub struct RuleFeatures {
    /// The activation the rule's root is seeded with.
    pub selection: Selection,
    /// The source location of the `features` value.
    pub span: Span,
}

/// One `require` entry: an exact package name or a glob over names.
///
/// A value is a glob exactly when it contains `*`, `?` or `[`; each entry keeps its own matcher
/// so that a failed rule can name the patterns that matched nothing.
#[derive(Debug)]
#[non_exhaustive]
pub enum RequirePattern {
    /// A literal package name.
    Exact(String),
    /// A glob over package names, as it was written and compiled.
    Glob(String, GlobSet),
}

/// A [`RequirePattern`] by its characters.
pub enum PatternView {
    Exact(Seq<char>),
    Glob(Seq<char>),
}

impl View for RequirePattern {
    type V = PatternView;

    open spec fn view(&self) -> PatternView {
        match *self {
            RequirePattern::Exact(name) => PatternView::Exact(name@),
            RequirePattern::Glob(pattern, _) => PatternView::Glob(pattern@),
        }
    }
}

impl PatternView {
    /// The pattern as it was written.
    pub open spec fn written(self) -> Seq<char> {
        match self {
            PatternView::Exact(name) => name,
            PatternView::Glob(pattern) => pattern,
        }
    }

    /// Whether `name` satisfies the pattern.
    pub open spec fn matches(self, name: Seq<char>) -> bool {
        match self {
            PatternView::Exact(exact) => exact == name,
            PatternView::Glob(pattern) => globs::glob_matches(pattern, name),
        }
    }
}

impl RequirePattern {
    /// Whether the matcher is that of the pattern.
    pub open spec fn wf(&self) -> bool {
        match *self {
            RequirePattern::Exact(_) => true,
            RequirePattern::Glob(pattern, set) => globs::patterns(set) == seq![pattern@],
        }
    }

    /// The pattern exactly as it was written in the configuration.
    #[must_use]
    pub fn as_str(&self) -> (written: &str)
        ensures
            written@ == self@.written(),
    {
        match self {
            RequirePattern::Exact(name) => name.as_str(),
            RequirePattern::Glob(pattern, _) => pattern.as_str(),
        }
    }

    /// Whether `name` satisfies this pattern.
    #[must_use]
    pub fn is_match(&self, name: &str) -> (found: bool)
        requires
            self.wf(),
        ensures
            found == self@.matches(name@),
    {
        match self {
            RequirePattern::Exact(exact) => text::same(exact.as_str(), name),
            RequirePattern::Glob(pattern, set) => {
                let found = globs::is_match(set, name);
                assert(globs::patterns(*set)[0] == pattern@);
                found
            },
        }
    }
}

/// The operation represented by one flattened rule.
#[derive(Debug)]
#[non_exhaustive]
pub enum RuleKind {
    /// Reject matching dependency names. Exact values stay outside the glob set.
    ///
    /// The closure a `deny` rule inspects includes the rule's own package, but a pattern
    /// matching that package's own name never matches: a self-match is not a dependency
    /// finding and would carry an empty witness.
    Deny {
        /// Literal names that must be rejected, in order.
        exact: Vec<String>,
        /// Glob patterns that must be rejected.
        globs: GlobSet,
        /// The original values in declaration order.
        raw: Vec<String>,
    },
    /// Require every pattern to match some name in the closure — the dual of `deny`, evaluated
    /// on exactly the same closure.
    ///
    /// The rule's own package name never satisfies a pattern: `require = ["acme-*"]` on
    /// `rules.acme-app` asks for a dependency of that family, not for the package the rule is
    /// rooted at.
    Require(Vec<RequirePattern>),
    /// Require the internal packages of the closure to be the listed ones, in order.
    Internal(Vec<String>),
    /// Require the package to have no internal dependencies.
    Leaf,
    /// Require the direct normal dependencies to be the listed ones, in order.
    Direct(Vec<String>),
    /// Require no other member to depend on the package.
    Sealed,
}

/// A [`RuleKind`] by the characters of its strings.
#[verifier::ext_equal]
pub enum RuleKindView {
    Deny { exact: Seq<Seq<char>>, globs: Seq<Seq<char>>, raw: Seq<Seq<char>> },
    Require(Seq<PatternView>),
    Internal(Seq<Seq<char>>),
    Leaf,
    Direct(Seq<Seq<char>>),
    Sealed,
}

/// The characters of each pattern.
pub open spec fn pattern_views(patterns: Seq<RequirePattern>) -> Seq<PatternView> {
    Seq::new(patterns.len(), |i: int| patterns[i]@)
}

impl View for RuleKind {
    type V = RuleKindView;

    open spec fn view(&self) -> RuleKindView {
        match *self {
            RuleKind::Deny { exact, globs, raw } => RuleKindView::Deny {
                exact: texts(exact@),
                globs: globs::patterns(globs),
                raw: texts(raw@),
            },
            RuleKind::Require(patterns) => RuleKindView::Require(pattern_views(patterns@)),
            RuleKind::Internal(names) => RuleKindView::Internal(texts(names@)),
            RuleKind::Leaf => RuleKindView::Leaf,
            RuleKind::Direct(names) => RuleKindView::Direct(texts(names@)),
            RuleKind::Sealed => RuleKindView::Sealed,
        }
    }
}

impl RuleKindView {
    /// Whether the kind is answered from the root's forward closure.
    pub open spec fn reads_closure(self) -> bool {
        self is Deny || self is Require || self is Internal || self is Leaf
    }
}

impl RuleKind {
    /// Whether the lists are in order and the matchers those of their patterns.
    pub open spec fn wf(&self) -> bool {
        match *self {
            RuleKind::Deny { exact, .. } => names::ascending(texts(exact@)),
            RuleKind::Require(patterns) => forall|i: int|
                0 <= i < patterns@.len() ==> (#[trigger] patterns@[i]).wf(),
            RuleKind::Internal(names) => names::ascending(texts(names@)),
            RuleKind::Direct(names) => names::ascending(texts(names@)),
            _ => true,
        }
    }

    /// Whether this kind is answered from the root's forward closure.
    ///
    /// A `features` selection narrows exactly these — `direct` reads depth-one edges and
    /// `sealed` reads the reverse graph, so neither has a closure to narrow.
    #[must_use]
    pub fn reads_closure(&self) -> (reads: bool)
        ensures
            reads == self@.reads_closure(),
    {
        match self {
            RuleKind::Deny { .. } => true,
            RuleKind::Require(_) => true,
            RuleKind::Internal(_) => true,
            RuleKind::Leaf => true,
            RuleKind::Direct(_) => false,
            RuleKind::Sealed => false,
        }
    }
}

/// One flattened policy rule.
#[derive(Debug)]
pub struct Rule {
    /// The stable rule identifier, such as `rules.foo.deny`.
    pub id: String,
    /// The workspace package to which this rule applies.
    pub package: String,
    /// The rule operation and its operands.
    pub kind: RuleKind,
    /// The source location of the rule field.
    pub span: Span,
    /// The feature selection the rule's closure is narrowed to, or `None` for the
    /// workspace-unified closure.
    ///
    /// Every rule flattened from one `[rules.<package>]` table carries that table's value: the
    /// key selects a closure, and the kinds in the table are questions about it.
    pub features: Option<RuleFeatures>,
}

/// A [`Rule`] by the characters of its strings.
#[verifier::ext_equal]
pub struct RuleView {
    pub id: Seq<char>,
    pub package: Seq<char>,
    pub kind: RuleKindView,
    pub span: (Seq<char>, nat, nat),
    pub features: Option<(SelectionView, (Seq<char>, nat, nat))>,
}

/// The selection of a rule and its place, by their characters.
pub open spec fn features_view(features: Option<RuleFeatures>) -> Option<
    (SelectionView, (Seq<char>, nat, nat)),
> {
    match features {
        Some(features) => Some((features.selection@, features.span@)),
        None => None,
    }
}

impl View for Rule {
    type V = RuleView;

    open spec fn view(&self) -> RuleView {
        RuleView {
            id: self.id@,
            package: self.package@,
            kind: self.kind@,
            span: self.span@,
            features: features_view(self.features),
        }
    }
}

/// The characters of each rule.
pub open spec fn rule_views(rules: Seq<Rule>) -> Seq<RuleView> {
    Seq::new(rules.len(), |i: int| rules[i]@)
}

/// The validated configuration representation consumed by rule evaluation.
#[derive(Debug)]
pub struct Config {
    /// The configuration schema version.
    pub schema: u32,
    /// The requested Cargo feature selection.
    pub features: FeatureSelection,
    /// The target platforms dependency edges are evaluated against.
    pub platform: PlatformSelection,
    /// The internal-package definition.
    pub internal: InternalDef,
    /// Whether the root manifest version rule is enabled.
    pub manifest_versions_in_root: bool,
    /// Flattened rules in declaration order.
    pub rules: Vec<Rule>,
}

/// A [`Config`] by the characters of its strings.
#[verifier::ext_equal]
pub struct ConfigView {
    pub schema: u32,
    pub features: FeatureSelectionView,
    pub platform: Seq<Seq<char>>,
    pub members: bool,
    pub patterns: Seq<Seq<char>>,
    pub versions_in_root: bool,
    pub rules: Seq<RuleView>,
}

impl View for Config {
    type V = ConfigView;

    open spec fn view(&self) -> ConfigView {
        ConfigView {
            schema: self.schema,
            features: self.features@,
            platform: self.platform@,
            members: self.internal.members,
            patterns: globs::patterns(self.internal.patterns),
            versions_in_root: self.manifest_versions_in_root,
            rules: rule_views(self.rules@),
        }
    }
}

impl Config {
    /// Whether the rules can be evaluated.
    pub open spec fn wf(&self) -> bool {
        forall|i: int| 0 <= i < self.rules@.len() ==> (#[trigger] self.rules@[i]).kind.wf()
    }
}

/// A configuration validation error.
#[derive(Clone, Debug, PartialEq, Eq)]
pub struct ConfigError {
    /// A human-readable explanation of the invalid configuration.
    pub message: String,
    /// The source location associated with the error, when available.
    pub span: Option<Span>,
}

/// A [`ConfigError`] by its characters.
pub struct Fault {
    pub message: Seq<char>,
    pub span: Option<(Seq<char>, nat, nat)>,
}

/// The characters of an optional place.
pub open spec fn span_view(span: Option<Span>) -> Option<(Seq<char>, nat, nat)> {
    match span {
        Some(span) => Some(span@),
        None => None,
    }
}

impl View for ConfigError {
    type V = Fault;

    open spec fn view(&self) -> Fault {
        Fault { message: self.message@, span: span_view(self.span) }
    }
}

/// A validated configuration and diagnostics produced by graph validation.
#[derive(Debug)]
#[non_exhaustive]
pub struct Validated {
    /// The executable configuration representation.
    pub config: Config,
    /// Non-fatal diagnostics emitted during validation.
    pub warnings: Vec<String>,
    /// Number of direct rules whose package declares an optional normal dependency.
    pub direct_optional_decls: u32,
}

/// A place by its file and byte offset.
pub open spec fn place_in(path: Seq<char>, source: Seq<char>, offset: usize) -> (Seq<char>, nat, nat) {
    let (line, col) = place_of(source, offset as nat);
    (path, line, col)
}

/// The place of byte `offset` of a configuration file, when there is a file.
pub open spec fn error_place(cfg: RawConfig, offset: usize) -> Option<(Seq<char>, nat, nat)> {
    match cfg.source {
        Some(source) => Some(place_in(source.path@, source.text@, offset)),
        None => None,
    }
}

/// The place of byte `offset` of a configuration; without a file, in a file without a name that
/// has but one line.
pub open spec fn rule_place(cfg: RawConfig, offset: usize) -> (Seq<char>, nat, nat) {
    match cfg.source {
        Some(source) => place_in(source.path@, source.text@, offset),
        None => (Seq::empty(), 1, saturated((offset + 1) as nat)),
    }
}

/// An error at byte `offset` of a configuration.
pub open spec fn fault_at(cfg: RawConfig, offset: usize, message: Seq<char>) -> Fault {
    Fault { message, span: error_place(cfg, offset) }
}

/// The first byte of entry `index` of the array written at `start..end`; without a file, of the
/// array.
pub open spec fn entry_start(cfg: RawConfig, start: usize, end: usize, index: int) -> usize {
    match cfg.source {
        Some(source) => entry_range(
            vstd::utf8::encode_utf8(source.text@),
            start as int,
            end as int,
            index as nat,
        ).0 as usize,
        None => start,
    }
}

/// Converts a byte `offset` into `text` to a place in the file `path`.
pub fn source_span(path: &str, text: &str, offset: usize) -> (span: Span)
    ensures
        span@ == place_in(path@, text@, offset),
{
    let (line, col) = source::place(text, offset);
    Span { file: path.to_owned(), line, col }
}

fn config_error_span(cfg: &RawConfig, offset: usize) -> (span: Option<Span>)
    ensures
        span_view(span) == error_place(*cfg, offset),
{
    match &cfg.source {
        Some(source) => Some(source_span(source.path.as_str(), source.text.as_str(), offset)),
        None => None,
    }
}

fn config_span(cfg: &RawConfig, offset: usize) -> (span: Span)
    ensures
        span@ == rule_place(*cfg, offset),
{
    match &cfg.source {
        Some(source) => source_span(source.path.as_str(), source.text.as_str(), offset),
        None => {
            let col: u32 = if offset >= 4294967295 {
                u32::MAX
            } else {
                offset as u32 + 1
            };
            let file = String::new();
            assert(file@ =~= Seq::<char>::empty());
            Span { file, line: 1, col }
        },
    }
}

fn config_error(cfg: &RawConfig, offset: usize, message: String) -> (error: ConfigError)
    ensures
        error@ == fault_at(*cfg, offset, message@),
{
    ConfigError { message, span: config_error_span(cfg, offset) }
}

fn array_entry_start(cfg: &RawConfig, start: usize, end: usize, index: usize) -> (first: usize)
    ensures
        first == entry_start(*cfg, start, end, index as int),
{
    match &cfg.source {
        Some(source) => arrays::array_entry_range(
            source.text.as_str().as_bytes(),
            start,
            end,
            index,
        ).0,
        None => start,
    }
}

/// Returns the conventional configuration path under `workspace_root`.
///
/// The file stands directly under the root: a separator goes between the two unless the root
/// ends in one or is empty.
#[must_use]
pub fn discover(workspace_root: &str) -> (path: String)
    ensures
        path@ == discovered(workspace_root@),
{
    let mut path = workspace_root.to_owned();
    let chars = text::chars_of(workspace_root);
    if chars.len() > 0 && chars[chars.len() - 1] != SEPARATOR {
        path.push(SEPARATOR);
    }
    path.push_str("depgate.toml");
    assert(path@ =~= discovered(workspace_root@));
    path
}

/// The conventional configuration path under `root`.
pub open spec fn discovered(root: Seq<char>) -> Seq<char> {
    if root.len() == 0 || root.last() == SEPARATOR {
        root + "depgate.toml"@
    } else {
        root.push(SEPARATOR) + "depgate.toml"@
    }
}

/// What is said of a name that no package of the graph has.
pub open spec fn unknown_package_text(context: Seq<char>, name: Seq<char>) -> Seq<char> {
    context + " references unknown package `"@ + name + "`"@
}

/// Builds the "unknown package" diagnostic shared by every place a configured or requested
/// package name fails to resolve against the graph.
#[must_use]
pub fn unknown_package_message(context: &str, name: &str) -> (message: String)
    ensures
        message@ == unknown_package_text(context@, name@),
{
    let mut message = context.to_owned();
    message.push_str(" references unknown package `");
    message.push_str(name);
    message.push_str("`");
    message
}

/// What is wrong with the schema of a configuration.
pub open spec fn schema_fault(cfg: RawConfig) -> Option<Fault> {
    if cfg.schema.value == CURRENT_SCHEMA {
        None
    } else {
        Some(
            fault_at(
                cfg,
                cfg.schema.start,
                "unsupported configuration schema "@ + decimal(cfg.schema.value as nat)
                    + "; expected "@ + decimal(CURRENT_SCHEMA as nat),
            ),
        )
    }
}

/// Rejects a configuration written for a schema this build does not implement.
///
/// # Errors
///
/// [`ConfigError`] anchored at the `schema` value when it is not the version this build
/// implements.
pub fn check_schema(cfg: &RawConfig) -> (result: Result<(), ConfigError>)
    ensures
        match result {
            Ok(_) => schema_fault(*cfg) is None,
            Err(error) => schema_fault(*cfg) == Some(error@),
        },
{
    if cfg.schema.value == CURRENT_SCHEMA {
        return Ok(());
    }
    let mut message = "unsupported configuration schema ".to_owned();
    text::push_decimal(&mut message, cfg.schema.value as u128);
    message.push_str("; expected ");
    text::push_decimal(&mut message, CURRENT_SCHEMA as u128);
    Err(config_error(cfg, cfg.schema.start, message))
}

/// The graph feature selection of a configuration.
pub open spec fn graph_features(cfg: RawConfig) -> Result<FeatureSelectionView, Fault> {
    match cfg.graph.features.value {
        FeatureValue::Named(name) => if name@ == "default"@ {
            Ok(FeatureSelectionView::Default)
        } else if name@ == "all"@ {
            Ok(FeatureSelectionView::All)
        } else {
            Err(
                fault_at(
                    cfg,
                    cfg.graph.features.start,
                    "graph.features must be `default`, `all`, or a feature list (got `"@ + name@
                        + "`)"@,
                ),
            )
        },
        FeatureValue::List(features) => Ok(FeatureSelectionView::List(texts(features@))),
    }
}

fn feature_selection(cfg: &RawConfig) -> (result: Result<FeatureSelection, ConfigError>)
    ensures
        match result {
            Ok(selection) => graph_features(*cfg) == Ok::<FeatureSelectionView, Fault>(selection@),
            Err(error) => graph_features(*cfg) == Err::<FeatureSelectionView, Fault>(error@),
        },
{
    match &cfg.graph.features.value {
        FeatureValue::Named(name) => {
            if text::same(name.as_str(), "default") {
                return Ok(FeatureSelection::Default);
            }
            if text::same(name.as_str(), "all") {
                return Ok(FeatureSelection::All);
            }
            let mut message =
                "graph.features must be `default`, `all`, or a feature list (got `".to_owned();
            message.push_str(name.as_str());
            message.push_str("`)");
            Err(config_error(cfg, cfg.graph.features.start, message))
        },
        FeatureValue::List(features) => Ok(FeatureSelection::List(text::copy_all(features))),
    }
}

/// The tokens of a platform selection.
pub open spec fn platform_tokens(value: PlatformValue) -> Seq<Seq<char>> {
    match value {
        PlatformValue::Named(name) => seq![name@],
        PlatformValue::List(triples) => texts(triples@),
    }
}

/// The platforms that a configuration selects on a machine whose triple is `host`.
pub open spec fn graph_platform(cfg: RawConfig, host: Seq<char>) -> Result<Seq<Seq<char>>, Fault> {
    let written = cfg.graph.platform;
    let tokens = platform_tokens(written.value);
    if tokens.len() == 0 {
        Err(
            fault_at(
                cfg,
                written.start,
                "graph.platform must name at least one target triple; use `all` to keep every platform"@,
            ),
        )
    } else {
        match platform::resolved(tokens, host) {
            Ok(triples) => Ok(triples),
            Err(i) => Err(
                fault_at(
                    cfg,
                    match written.value {
                        PlatformValue::Named(_) => written.start,
                        PlatformValue::List(_) => entry_start(cfg, written.start, written.end, i),
                    },
                    "graph.platform: "@ + platform::unknown_platform_text(
                        tokens[i],
                        if tokens[i] == platform::HOST@ {
                            Some(host)
                        } else {
                            None
                        },
                    ),
                ),
            ),
        }
    }
}

/// Whether resolving the platform selection of a configuration asks for the host's triple.
#[must_use]
pub fn names_host(cfg: &RawConfig) -> (asked: bool)
    ensures
        asked == platform_tokens(cfg.graph.platform.value).contains(platform::HOST@),
{
    match &cfg.graph.platform.value {
        PlatformValue::Named(name) => {
            assert(seq![name@][0] == name@);
            text::same(name.as_str(), platform::HOST)
        },
        PlatformValue::List(triples) => text::contains(triples, platform::HOST),
    }
}

/// Resolves `[graph].platform` into the selection the graph is built against, `host` being the
/// triple of this machine.
///
/// # Errors
///
/// [`ConfigError`] anchored at the offending value — the scalar for `platform = "..."`, the
/// individual array entry for a list — when it is neither `all`, `host`, nor a target triple
/// rustc knows, or when the list is empty.
pub fn platform_selection(cfg: &RawConfig, host: &str) -> (result: Result<
    PlatformSelection,
    ConfigError,
>)
    ensures
        match result {
            Ok(selection) => graph_platform(*cfg, host@) == Ok::<Seq<Seq<char>>, Fault>(selection@),
            Err(error) => graph_platform(*cfg, host@) == Err::<Seq<Seq<char>>, Fault>(error@),
        },
{
    let start = cfg.graph.platform.start;
    let end = cfg.graph.platform.end;
    match &cfg.graph.platform.value {
        PlatformValue::Named(name) => {
            let mut tokens: Vec<String> = Vec::new();
            tokens.push(name.as_str().to_owned());
            assert(texts(tokens@) =~= seq![name@]);
            match PlatformSelection::resolve_against_host(&tokens, host) {
                Ok(selection) => Ok(selection),
                Err(unknown) => Err(config_error(cfg, start, graph_platform_message(&unknown))),
            }
        },
        PlatformValue::List(triples) => {
            if triples.len() == 0 {
                return Err(
                    config_error(
                        cfg,
                        start,
                        "graph.platform must name at least one target triple; use `all` to keep every platform".to_owned(),
                    ),
                );
            }
            match PlatformSelection::resolve_against_host(triples, host) {
                Ok(selection) => Ok(selection),
                Err(unknown) => {
                    let first = array_entry_start(cfg, start, end, unknown.index);
                    Err(config_error(cfg, first, graph_platform_message(&unknown)))
                },
            }
        },
    }
}

/// The `graph.platform` wording of an unresolvable platform, so the key that carries the value
/// is named whichever form it was written in.
fn graph_platform_message(unknown: &platform::UnknownPlatform) -> (message: String)
    ensures
        message@ == "graph.platform: "@ + platform::unknown_platform_text(
            unknown.value@,
            match unknown.host_triple {
                Some(triple) => Some(triple@),
                None => None,
            },
        ),
{
    let mut message = "graph.platform: ".to_owned();
    let said = unknown.describe();
    message.push_str(said.as_str());
    message
}


/// Whether a `deny` or `require` entry is a glob rather than a literal name.
///
/// The single definition of the grammar the two rule kinds share, so a value that is a glob for
/// one is never a literal name for the other.
pub open spec fn is_glob_text(value: Seq<char>) -> bool {
    exists|i: int|
        0 <= i < value.len() && (#[trigger] value[i] == '*' || value[i] == '?' || value[i] == '[')
}

fn is_glob(value: &str) -> (glob: bool)
    ensures
        glob == is_glob_text(value@),
{
    let chars = text::chars_of(value);
    let mut at: usize = 0;
    while at < chars.len()
        invariant
            chars@ == value@,
            at <= chars@.len(),
            forall|i: int|
                0 <= i < at ==> #[trigger] value@[i] != '*' && value@[i] != '?' && value@[i] != '[',
        decreases chars@.len() - at,
    {
        if chars[at] == '*' || chars[at] == '?' || chars[at] == '[' {
            assert(value@[at as int] == chars@[at as int]);
            return true;
        }
        at = at + 1;
    }
    false
}

/// The first of the first `upto` patterns that cannot be parsed.
pub open spec fn bad_pattern(patterns: Seq<Seq<char>>, upto: int) -> Option<int>
    decreases upto,
{
    if upto <= 0 {
        None
    } else {
        match bad_pattern(patterns, upto - 1) {
            Some(i) => Some(i),
            None => if pattern_fault(patterns[upto - 1]) is Some {
                Some(upto - 1)
            } else {
                None
            },
        }
    }
}

proof fn bad_pattern_stays(patterns: Seq<Seq<char>>, upto: int, more: int)
    requires
        upto <= more,
        bad_pattern(patterns, upto) is Some,
    ensures
        bad_pattern(patterns, more) == bad_pattern(patterns, upto),
    decreases more,
{
    if upto < more {
        bad_pattern_stays(patterns, upto, more - 1);
    }
}

/// The internal patterns of a configuration.
pub open spec fn internal_patterns(cfg: RawConfig) -> Result<Seq<Seq<char>>, Fault> {
    let written = cfg.internal.patterns;
    let list = texts(written.value@);
    match bad_pattern(list, list.len() as int) {
        Some(i) => Err(
            fault_at(
                cfg,
                entry_start(cfg, written.start, written.end, i),
                pattern_fault(list[i])->0,
            ),
        ),
        None => match set_fault(list) {
            Some(message) => Err(fault_at(cfg, written.start, message)),
            None => Ok(list),
        },
    }
}

fn compile_patterns(cfg: &RawConfig) -> (result: Result<GlobSet, ConfigError>)
    ensures
        match result {
            Ok(set) => internal_patterns(*cfg) == Ok::<Seq<Seq<char>>, Fault>(globs::patterns(set)),
            Err(error) => internal_patterns(*cfg) == Err::<Seq<Seq<char>>, Fault>(error@),
        },
{
    let patterns = &cfg.internal.patterns.value;
    let start = cfg.internal.patterns.start;
    let end = cfg.internal.patterns.end;
    let ghost list = texts(patterns@);
    let mut builder = globs::builder();
    let mut index: usize = 0;
    assert(list.take(0) =~= Seq::<Seq<char>>::empty());
    while index < patterns.len()
        invariant
            index <= patterns@.len(),
            *patterns == cfg.internal.patterns.value,
            start == cfg.internal.patterns.start,
            end == cfg.internal.patterns.end,
            list == texts(patterns@),
            bad_pattern(list, index as int) is None,
            globs::gathered(builder) == list.take(index as int),
        decreases patterns@.len() - index,
    {
        assert(list[index as int] == patterns@[index as int]@);
        match globs::parse(patterns[index].as_str()) {
            Ok(glob) => {
                globs::gather(&mut builder, glob);
            },
            Err(message) => {
                proof {
                    bad_pattern_stays(list, index + 1, list.len() as int);
                }
                let first = array_entry_start(cfg, start, end, index);
                return Err(config_error(cfg, first, message));
            },
        }
        assert(list.take(index + 1) =~= list.take(index as int).push(list[index as int]));
        index = index + 1;
    }
    assert(list.take(index as int) =~= list);
    match globs::build(&builder) {
        Ok(set) => Ok(set),
        Err(message) => Err(config_error(cfg, start, message)),
    }
}

/// The values among the first `upto` that are globs.
pub open spec fn globs_among(values: Seq<Seq<char>>, upto: int) -> Seq<Seq<char>>
    decreases upto,
{
    if upto <= 0 {
        Seq::empty()
    } else if is_glob_text(values[upto - 1]) {
        globs_among(values, upto - 1).push(values[upto - 1])
    } else {
        globs_among(values, upto - 1)
    }
}

/// The values among the first `upto` that are literal names.
pub open spec fn names_among(values: Seq<Seq<char>>, upto: int) -> Seq<Seq<char>>
    decreases upto,
{
    if upto <= 0 {
        Seq::empty()
    } else if is_glob_text(values[upto - 1]) {
        names_among(values, upto - 1)
    } else {
        names_among(values, upto - 1).push(values[upto - 1])
    }
}

/// The first of the first `upto` values that is a glob and cannot be parsed.
pub open spec fn bad_glob(values: Seq<Seq<char>>, upto: int) -> Option<int>
    decreases upto,
{
    if upto <= 0 {
        None
    } else {
        match bad_glob(values, upto - 1) {
            Some(i) => Some(i),
            None => if is_glob_text(values[upto - 1]) && pattern_fault(values[upto - 1]) is Some {
                Some(upto - 1)
            } else {
                None
            },
        }
    }
}

proof fn bad_glob_stays(values: Seq<Seq<char>>, upto: int, more: int)
    requires
        upto <= more,
        bad_glob(values, upto) is Some,
    ensures
        bad_glob(values, more) == bad_glob(values, upto),
    decreases more,
{
    if upto < more {
        bad_glob_stays(values, upto, more - 1);
    }
}

/// The `deny` rule of a list of values.
pub open spec fn deny_kind(cfg: RawConfig, written: Located<Vec<String>>) -> Result<
    RuleKindView,
    Fault,
> {
    let list = texts(written.value@);
    let count = list.len() as int;
    match bad_glob(list, count) {
        Some(i) => Err(
            fault_at(
                cfg,
                entry_start(cfg, written.start, written.end, i),
                pattern_fault(list[i])->0,
            ),
        ),
        None => match set_fault(globs_among(list, count)) {
            Some(message) => Err(fault_at(cfg, written.start, message)),
            None => Ok(
                RuleKindView::Deny {
                    exact: names::distinct(names_among(list, count)),
                    globs: globs_among(list, count),
                    raw: list,
                },
            ),
        },
    }
}

fn compile_deny(cfg: &RawConfig, written: &Located<Vec<String>>) -> (result: Result<
    RuleKind,
    ConfigError,
>)
    ensures
        match result {
            Ok(kind) => deny_kind(*cfg, *written) == Ok::<RuleKindView, Fault>(kind@) && kind.wf()
                && kind is Deny,
            Err(error) => deny_kind(*cfg, *written) == Err::<RuleKindView, Fault>(error@),
        },
{
    let raw = &written.value;
    let ghost list = texts(raw@);
    let mut exact: Vec<String> = Vec::new();
    let mut builder = globs::builder();
    let mut index: usize = 0;
    assert(texts(exact@) =~= names::distinct(names_among(list, 0)));
    while index < raw.len()
        invariant
            index <= raw@.len(),
            *raw == written.value,
            list == texts(raw@),
            bad_glob(list, index as int) is None,
            globs::gathered(builder) == globs_among(list, index as int),
            names::ascending(texts(exact@)),
            texts(exact@) == names::distinct(names_among(list, index as int)),
        decreases raw@.len() - index,
    {
        let value = raw[index].as_str();
        assert(list[index as int] == value@);
        if is_glob(value) {
            match globs::parse(value) {
                Ok(glob) => {
                    globs::gather(&mut builder, glob);
                },
                Err(message) => {
                    proof {
                        bad_glob_stays(list, index + 1, list.len() as int);
                    }
                    let first = array_entry_start(cfg, written.start, written.end, index);
                    return Err(config_error(cfg, first, message));
                },
            }
        } else {
            proof {
                let now = names_among(list, index + 1);
                assert(now.drop_last() =~= names_among(list, index as int));
                assert(now.last() == value@);
            }
            names::insert(&mut exact, value);
        }
        index = index + 1;
    }
    match globs::build(&builder) {
        Ok(globs) => {
            let copied = text::copy_all(raw);
            Ok(RuleKind::Deny { exact, globs, raw: copied })
        },
        Err(message) => Err(config_error(cfg, written.start, message)),
    }
}

/// What is wrong with one `require` value.
pub open spec fn require_fault(value: Seq<char>) -> Option<Seq<char>> {
    if !is_glob_text(value) {
        None
    } else {
        match pattern_fault(value) {
            Some(message) => Some(message),
            None => set_fault(seq![value]),
        }
    }
}

/// The first of the first `upto` `require` values that something is wrong with.
pub open spec fn bad_require(values: Seq<Seq<char>>, upto: int) -> Option<int>
    decreases upto,
{
    if upto <= 0 {
        None
    } else {
        match bad_require(values, upto - 1) {
            Some(i) => Some(i),
            None => if require_fault(values[upto - 1]) is Some {
                Some(upto - 1)
            } else {
                None
            },
        }
    }
}

proof fn bad_require_stays(values: Seq<Seq<char>>, upto: int, more: int)
    requires
        upto <= more,
        bad_require(values, upto) is Some,
    ensures
        bad_require(values, more) == bad_require(values, upto),
    decreases more,
{
    if upto < more {
        bad_require_stays(values, upto, more - 1);
    }
}

/// One `require` value as a pattern.
pub open spec fn pattern_of(value: Seq<char>) -> PatternView {
    if is_glob_text(value) {
        PatternView::Glob(value)
    } else {
        PatternView::Exact(value)
    }
}

/// The `require` rule of a list of values: one pattern per value, in their order.
pub open spec fn require_kind(cfg: RawConfig, written: Located<Vec<String>>) -> Result<
    RuleKindView,
    Fault,
> {
    let list = texts(written.value@);
    match bad_require(list, list.len() as int) {
        Some(i) => Err(
            fault_at(
                cfg,
                entry_start(cfg, written.start, written.end, i),
                require_fault(list[i])->0,
            ),
        ),
        None => Ok(RuleKindView::Require(list.map_values(|value: Seq<char>| pattern_of(value)))),
    }
}

/// Compiles one `require` value.
fn compile_pattern(value: &str) -> (result: Result<RequirePattern, String>)
    ensures
        match result {
            Ok(pattern) => require_fault(value@) is None && pattern@ == pattern_of(value@)
                && pattern.wf(),
            Err(message) => require_fault(value@) == Some(message@),
        },
{
    if !is_glob(value) {
        return Ok(RequirePattern::Exact(value.to_owned()));
    }
    let glob = match globs::parse(value) {
        Ok(glob) => glob,
        Err(message) => return Err(message),
    };
    let mut builder = globs::builder();
    globs::gather(&mut builder, glob);
    assert(globs::gathered(builder) =~= seq![value@]);
    match globs::build(&builder) {
        Ok(set) => Ok(RequirePattern::Glob(value.to_owned(), set)),
        Err(message) => Err(message),
    }
}

fn compile_require(cfg: &RawConfig, written: &Located<Vec<String>>) -> (result: Result<
    RuleKind,
    ConfigError,
>)
    ensures
        match result {
            Ok(kind) => require_kind(*cfg, *written) == Ok::<RuleKindView, Fault>(kind@) && kind.wf()
                && kind is Require,
            Err(error) => require_kind(*cfg, *written) == Err::<RuleKindView, Fault>(error@),
        },
{
    let raw = &written.value;
    let ghost list = texts(raw@);
    let mut patterns: Vec<RequirePattern> = Vec::new();
    let mut index: usize = 0;
    while index < raw.len()
        invariant
            index <= raw@.len(),
            *raw == written.value,
            list == texts(raw@),
            bad_require(list, index as int) is None,
            patterns@.len() == index,
            forall|i: int|
                0 <= i < index ==> (#[trigger] patterns@[i]).wf() && patterns@[i]@ == pattern_of(
                    list[i],
                ),
        decreases raw@.len() - index,
    {
        assert(list[index as int] == raw@[index as int]@);
        match compile_pattern(raw[index].as_str()) {
            Ok(pattern) => {
                patterns.push(pattern);
            },
            Err(message) => {
                proof {
                    bad_require_stays(list, index + 1, list.len() as int);
                }
                let first = array_entry_start(cfg, written.start, written.end, index);
                return Err(config_error(cfg, first, message));
            },
        }
        index = index + 1;
    }
    assert(pattern_views(patterns@) =~= list.map_values(|value: Seq<char>| pattern_of(value)));
    Ok(RuleKind::Require(patterns))
}

/// The activation that a rule table selects, and its place; `None` for the workspace-unified
/// closure.
pub open spec fn table_features(
    cfg: RawConfig,
    package: Seq<char>,
    written: Option<Located<FeatureValue>>,
) -> Result<Option<(SelectionView, (Seq<char>, nat, nat))>, Fault> {
    match written {
        None => Ok(None),
        Some(written) => {
            let at = rule_place(cfg, written.start);
            match written.value {
                FeatureValue::List(features) => Ok(
                    Some((SelectionView::List(texts(features@)), at)),
                ),
                FeatureValue::Named(name) => if name@ == "unified"@ {
                    Ok(None)
                } else if name@ == "none"@ {
                    Ok(Some((SelectionView::Nothing, at)))
                } else if name@ == "default"@ {
                    Ok(Some((SelectionView::Default, at)))
                } else if name@ == "all"@ {
                    Ok(Some((SelectionView::All, at)))
                } else {
                    Err(
                        fault_at(
                            cfg,
                            written.start,
                            "rules."@ + package
                                + ".features must be `unified`, `none`, `default`, `all`, or a list of feature names (got `"@
                                + name@ + "`)"@,
                        ),
                    )
                },
            }
        },
    }
}

/// Validates one `[rules.<package>].features` value and resolves it to an activation.
///
/// `unified` is the absent key spelled out — the workspace-unified closure — so it resolves to
/// `None` and costs no walk.
fn rule_features(cfg: &RawConfig, package: &str, written: &Option<Located<FeatureValue>>) -> (result:
    Result<Option<RuleFeatures>, ConfigError>)
    ensures
        match result {
            Ok(features) => table_features(*cfg, package@, *written) == Ok::<
                Option<(SelectionView, (Seq<char>, nat, nat))>,
                Fault,
            >(features_view(features)),
            Err(error) => table_features(*cfg, package@, *written) == Err::<
                Option<(SelectionView, (Seq<char>, nat, nat))>,
                Fault,
            >(error@),
        },
{
    let written = match written {
        None => return Ok(None),
        Some(written) => written,
    };
    let selection = match &written.value {
        FeatureValue::Named(name) => {
            if text::same(name.as_str(), "unified") {
                return Ok(None);
            } else if text::same(name.as_str(), "none") {
                Selection::Nothing
            } else if text::same(name.as_str(), "default") {
                Selection::Default
            } else if text::same(name.as_str(), "all") {
                Selection::All
            } else {
                let mut message = "rules.".to_owned();
                message.push_str(package);
                message.push_str(
                    ".features must be `unified`, `none`, `default`, `all`, or a list of feature names (got `",
                );
                message.push_str(name.as_str());
                message.push_str("`)");
                return Err(config_error(cfg, written.start, message));
            }
        },
        FeatureValue::List(features) => Selection::List(text::copy_all(features)),
    };
    Ok(Some(RuleFeatures { selection, span: config_span(cfg, written.start) }))
}


/// The identifier of the rule that a key of a rule table makes.
pub open spec fn rule_id(package: Seq<char>, key: Seq<char>) -> Seq<char> {
    "rules."@ + package + "."@ + key
}

/// What the rules of one table share.
pub struct TableView {
    pub cfg: RawConfig,
    pub package: Seq<char>,
    pub features: Option<(SelectionView, (Seq<char>, nat, nat))>,
}

impl TableView {
    /// `rules` and the rule that `key` makes, when it makes one.
    pub open spec fn with(
        self,
        rules: Seq<(usize, RuleView)>,
        key: Seq<char>,
        rule: Option<(usize, RuleKindView)>,
    ) -> Seq<(usize, RuleView)> {
        match rule {
            None => rules,
            Some((offset, kind)) => rules.push(
                (
                    offset,
                    RuleView {
                        id: rule_id(self.package, key),
                        package: self.package,
                        kind,
                        span: rule_place(self.cfg, offset),
                        features: self.features,
                    },
                ),
            ),
        }
    }
}

/// The rule of a key that is written as a flag.
pub open spec fn flag_rule(written: Option<Located<bool>>, kind: RuleKindView) -> Option<
    (usize, RuleKindView),
> {
    match written {
        Some(written) => if written.value {
            Some((written.start, kind))
        } else {
            None
        },
        None => None,
    }
}

/// The rule of the `internal` key.
pub open spec fn internal_rule(spec: RawRuleSpec) -> Option<(usize, RuleKindView)> {
    match spec.internal {
        Some(written) => Some(
            (written.start, RuleKindView::Internal(names::distinct(texts(written.value@)))),
        ),
        None => None,
    }
}

/// The rule of the `direct` key.
pub open spec fn direct_rule(spec: RawRuleSpec) -> Option<(usize, RuleKindView)> {
    match spec.direct {
        Some(written) => Some(
            (written.start, RuleKindView::Direct(names::distinct(texts(written.value@)))),
        ),
        None => None,
    }
}

/// The rule of the `deny` key.
pub open spec fn deny_rule(cfg: RawConfig, spec: RawRuleSpec) -> Result<
    Option<(usize, RuleKindView)>,
    Fault,
> {
    match spec.deny {
        Some(written) => match deny_kind(cfg, written) {
            Ok(kind) => Ok(Some((written.start, kind))),
            Err(fault) => Err(fault),
        },
        None => Ok(None),
    }
}

/// The rule of the `require` key.
pub open spec fn require_rule(cfg: RawConfig, spec: RawRuleSpec) -> Result<
    Option<(usize, RuleKindView)>,
    Fault,
> {
    match spec.require {
        Some(written) => match require_kind(cfg, written) {
            Ok(kind) => Ok(Some((written.start, kind))),
            Err(fault) => Err(fault),
        },
        None => Ok(None),
    }
}

/// The first of the first `upto` names that is `package`.
pub open spec fn own_name(names: Seq<Seq<char>>, package: Seq<char>, upto: int) -> Option<int>
    decreases upto,
{
    if upto <= 0 {
        None
    } else {
        match own_name(names, package, upto - 1) {
            Some(i) => Some(i),
            None => if names[upto - 1] == package {
                Some(upto - 1)
            } else {
                None
            },
        }
    }
}

proof fn own_name_stays(names: Seq<Seq<char>>, package: Seq<char>, upto: int, more: int)
    requires
        upto <= more,
        own_name(names, package, upto) is Some,
    ensures
        own_name(names, package, more) == own_name(names, package, upto),
    decreases more,
{
    if upto < more {
        own_name_stays(names, package, upto, more - 1);
    }
}

/// What is wrong with the keys of a rule table, before any of them is compiled.
pub open spec fn leaf_fault(cfg: RawConfig, package: Seq<char>, spec: RawRuleSpec) -> Option<Fault> {
    match spec.leaf {
        Some(leaf) => if leaf.value && spec.internal is Some {
            Some(
                fault_at(
                    cfg,
                    leaf.start,
                    "rules."@ + package + " declares both leaf and internal"@,
                ),
            )
        } else {
            None
        },
        None => None,
    }
}

/// What is wrong with the names of the `internal` key: the package itself is not among its
/// dependencies.
pub open spec fn internal_fault(cfg: RawConfig, package: Seq<char>, spec: RawRuleSpec) -> Option<Fault> {
    match spec.internal {
        Some(written) => match own_name(
            texts(written.value@),
            package,
            written.value@.len() as int,
        ) {
            Some(i) => Some(
                fault_at(
                    cfg,
                    entry_start(cfg, written.start, written.end, i),
                    "rules."@ + package
                        + ".internal cannot contain the rule package itself ("@ + package + ")"@,
                ),
            ),
            None => None,
        },
        None => None,
    }
}

/// What is wrong with a `features` key beside no key whose closure it could narrow.
pub open spec fn narrowing_fault(cfg: RawConfig, package: Seq<char>, spec: RawRuleSpec) -> Option<
    Fault,
> {
    match spec.features {
        Some(features) => if spec.internal is None && spec.deny is None && spec.require is None
            && !(spec.leaf is Some && spec.leaf->0.value) {
            Some(
                fault_at(
                    cfg,
                    features.start,
                    "rules."@ + package
                        + ".features narrows the closure deny, require, internal and leaf read; rules."@
                        + package + " declares none of them"@,
                ),
            )
        } else {
            None
        },
        None => None,
    }
}

/// Rules without their offsets.
pub open spec fn without_offsets<T>(rules: Seq<(usize, T)>) -> Seq<T> {
    Seq::new(rules.len(), |i: int| rules[i].1)
}

/// The rules of a table, in the order they were written.
pub open spec fn table_rules(
    table: TableView,
    spec: RawRuleSpec,
    deny: Option<(usize, RuleKindView)>,
    require: Option<(usize, RuleKindView)>,
) -> Seq<RuleView> {
    let rules = table.with(Seq::empty(), "internal"@, internal_rule(spec));
    let rules = table.with(rules, "deny"@, deny);
    let rules = table.with(rules, "require"@, require);
    let rules = table.with(rules, "leaf"@, flag_rule(spec.leaf, RuleKindView::Leaf));
    let rules = table.with(rules, "direct"@, direct_rule(spec));
    let rules = table.with(rules, "sealed"@, flag_rule(spec.sealed, RuleKindView::Sealed));
    without_offsets(by_offset(rules))
}

/// What one `[rules.<package>]` table says: its rules, in the order they were written, or the
/// first thing wrong with it.
pub open spec fn flattened(cfg: RawConfig, package: Seq<char>, spec: RawRuleSpec) -> Result<
    Seq<RuleView>,
    Fault,
> {
    match leaf_fault(cfg, package, spec) {
        Some(fault) => Err(fault),
        None => match table_features(cfg, package, spec.features) {
            Err(fault) => Err(fault),
            Ok(features) => match internal_fault(cfg, package, spec) {
                Some(fault) => Err(fault),
                None => match deny_rule(cfg, spec) {
                    Err(fault) => Err(fault),
                    Ok(deny) => match require_rule(cfg, spec) {
                        Err(fault) => Err(fault),
                        Ok(require) => match narrowing_fault(cfg, package, spec) {
                            Some(fault) => Err(fault),
                            None => Ok(
                                table_rules(
                                    TableView { cfg, package, features },
                                    spec,
                                    deny,
                                    require,
                                ),
                            ),
                        },
                    },
                },
            },
        },
    }
}

/// The characters of a rule.
pub open spec fn rule_view() -> spec_fn(Rule) -> RuleView {
    |rule: Rule| rule@
}

/// The rules of one table that were found so far.
struct Found<'c> {
    cfg: &'c RawConfig,
    package: &'c str,
    features: Option<RuleFeatures>,
    rules: Vec<(usize, Rule)>,
    listed: Ghost<Seq<(usize, RuleView)>>,
}

impl<'c> Found<'c> {
    spec fn table(&self) -> TableView {
        TableView {
            cfg: *self.cfg,
            package: self.package@,
            features: features_view(self.features),
        }
    }

    spec fn wf(&self) -> bool {
        &&& order::turned(self.rules@, rule_view()) == by_offset(self.listed@)
        &&& forall|i: int| 0 <= i < self.rules@.len() ==> (#[trigger] self.rules@[i]).1.kind.wf()
    }

    /// One more rule.
    fn add_rule(&mut self, offset: usize, key: &str, kind: RuleKind)
        requires
            old(self).wf(),
            kind.wf(),
        ensures
            final(self).wf(),
            final(self).table() == old(self).table(),
            final(self).listed@ == old(self).table().with(
                old(self).listed@,
                key@,
                Some((offset, kind@)),
            ),
    {
        let mut id = "rules.".to_owned();
        id.push_str(self.package);
        id.push_str(".");
        id.push_str(key);
        let features = match &self.features {
            Some(features) => Some(
                RuleFeatures {
                    selection: features.selection.copied(),
                    span: features.span.copied(),
                },
            ),
            None => None,
        };
        let rule = Rule {
            id,
            package: self.package.to_owned(),
            kind,
            span: config_span(self.cfg, offset),
            features,
        };
        let ghost before = self.rules@;
        proof {
            order::putting_sorts(before, rule_view(), self.listed@, offset, rule);
            self.listed@ = self.listed@.push((offset, rule@));
        }
        let ghost at = order::slot(before, offset) as int;
        proof {
            order::slot_is_within(before, offset);
        }
        order::put(&mut self.rules, offset, rule);
        assert forall|i: int| 0 <= i < self.rules@.len() implies (
        #[trigger] self.rules@[i]).1.kind.wf() by {
            if i < at {
                assert(self.rules@[i] == before[i]);
            } else if i > at {
                assert(self.rules@[i] == before[i - 1]);
            }
        }
    }

    /// The rules in the order they were written.
    fn into_rules(self) -> (rules: Vec<Rule>)
        requires
            self.wf(),
        ensures
            rule_views(rules@) == without_offsets(by_offset(self.listed@)),
            forall|i: int| 0 <= i < rules@.len() ==> (#[trigger] rules@[i]).kind.wf(),
    {
        let mut left = self.rules;
        let mut rules: Vec<Rule> = Vec::new();
        let ghost all = left@;
        while left.len() > 0
            invariant
                rules@.len() + left@.len() == all.len(),
                forall|i: int| 0 <= i < rules@.len() ==> #[trigger] rules@[i] == all[i].1,
                left@ == all.skip(rules@.len() as int),
            decreases left@.len(),
        {
            assert(left@[0] == all[rules@.len() as int]);
            let (_offset, rule) = left.remove(0);
            rules.push(rule);
            assert(left@ =~= all.skip(rules@.len() as int));
        }
        assert forall|i: int| 0 <= i < rules@.len() implies (#[trigger] rules@[i]).kind.wf() by {
            assert(all[i].1.kind.wf());
        }
        proof {
            let sorted = order::turned(all, rule_view());
            assert forall|i: int| 0 <= i < rules@.len() implies rule_views(rules@)[i]
                == without_offsets(sorted)[i] by {
                assert(sorted[i].1 == all[i].1@);
            }
            assert(rule_views(rules@) =~= without_offsets(sorted));
        }
        rules
    }
}

fn table_message(package: &str, said: &str) -> (message: String)
    ensures
        message@ == "rules."@ + package@ + said@,
{
    let mut message = "rules.".to_owned();
    message.push_str(package);
    message.push_str(said);
    message
}

/// Rejects a rule table whose `internal` names hold its own package.
fn check_internal(cfg: &RawConfig, package: &str, spec: &RawRuleSpec) -> (result: Result<
    (),
    ConfigError,
>)
    ensures
        match result {
            Ok(_) => internal_fault(*cfg, package@, *spec) is None,
            Err(error) => internal_fault(*cfg, package@, *spec) == Some(error@),
        },
{
    if let Some(internal) = &spec.internal {
        let names = &internal.value;
        let ghost list = texts(names@);
        let mut index: usize = 0;
        while index < names.len()
            invariant
                index <= names@.len(),
                *names == internal.value,
                spec.internal == Some(*internal),
                list == texts(names@),
                own_name(list, package@, index as int) is None,
            decreases names@.len() - index,
        {
            assert(list[index as int] == names@[index as int]@);
            if text::same(names[index].as_str(), package) {
                proof {
                    own_name_stays(list, package@, index + 1, names@.len() as int);
                }
                let mut message = table_message(
                    package,
                    ".internal cannot contain the rule package itself (",
                );
                message.push_str(package);
                message.push_str(")");
                let first = array_entry_start(cfg, internal.start, internal.end, index);
                return Err(config_error(cfg, first, message));
            }
            index = index + 1;
        }
    }
    Ok(())
}

/// Flattens one `[rules.<package>]` table into rules, in declaration order.
///
/// Every kind is collected with the byte offset of its key and put in its place by it, so the
/// order the rules are reported in is the order they were written in, whatever order this
/// function happens to inspect the keys in.
fn flatten_package_rules(cfg: &RawConfig, package: &str, spec: &RawRuleSpec) -> (result: Result<
    Vec<Rule>,
    ConfigError,
>)
    ensures
        match result {
            Ok(rules) => {
                &&& flattened(*cfg, package@, *spec) == Ok::<Seq<RuleView>, Fault>(
                    rule_views(rules@),
                )
                &&& forall|i: int| 0 <= i < rules@.len() ==> (#[trigger] rules@[i]).kind.wf()
            },
            Err(error) => flattened(*cfg, package@, *spec) == Err::<Seq<RuleView>, Fault>(error@),
        },
{
    if let Some(leaf) = &spec.leaf {
        if leaf.value && spec.internal.is_some() {
            let message = table_message(package, " declares both leaf and internal");
            return Err(config_error(cfg, leaf.start, message));
        }
    }
    let features = match rule_features(cfg, package, &spec.features) {
        Ok(features) => features,
        Err(error) => return Err(error),
    };
    match check_internal(cfg, package, spec) {
        Ok(_) => {},
        Err(error) => return Err(error),
    }
    let mut found = Found { cfg, package, features, rules: Vec::new(), listed: Ghost(Seq::empty()) };
    proof {
        assert(order::turned(found.rules@, rule_view()) =~= by_offset(found.listed@));
    }
    let ghost table = found.table();
    if let Some(internal) = &spec.internal {
        let kind = RuleKind::Internal(names::distinct_of(&internal.value));
        found.add_rule(internal.start, "internal", kind);
    }
    if let Some(deny) = &spec.deny {
        let kind = match compile_deny(cfg, deny) {
            Ok(kind) => kind,
            Err(error) => return Err(error),
        };
        found.add_rule(deny.start, "deny", kind);
    }
    if let Some(require) = &spec.require {
        let kind = match compile_require(cfg, require) {
            Ok(kind) => kind,
            Err(error) => return Err(error),
        };
        found.add_rule(require.start, "require", kind);
    }
    let mut is_leaf = false;
    if let Some(leaf) = &spec.leaf {
        if leaf.value {
            is_leaf = true;
            found.add_rule(leaf.start, "leaf", RuleKind::Leaf);
        }
    }
    if let Some(direct) = &spec.direct {
        let kind = RuleKind::Direct(names::distinct_of(&direct.value));
        found.add_rule(direct.start, "direct", kind);
    }
    if let Some(sealed) = &spec.sealed {
        if sealed.value {
            found.add_rule(sealed.start, "sealed", RuleKind::Sealed);
        }
    }
    if let Some(features) = &spec.features {
        if spec.internal.is_none() && spec.deny.is_none() && spec.require.is_none() && !is_leaf {
            let mut message = table_message(
                package,
                ".features narrows the closure deny, require, internal and leaf read; rules.",
            );
            message.push_str(package);
            message.push_str(" declares none of them");
            return Err(config_error(cfg, features.start, message));
        }
    }
    Ok(found.into_rules())
}


/// The rules of the first `upto` tables.
pub open spec fn rules_below(cfg: RawConfig, upto: int) -> Result<Seq<RuleView>, Fault>
    decreases upto,
{
    if upto <= 0 {
        Ok(Seq::empty())
    } else {
        match rules_below(cfg, upto - 1) {
            Err(fault) => Err(fault),
            Ok(before) => {
                let rule = cfg.rules@[upto - 1];
                match flattened(cfg, rule.package@, rule.table.value) {
                    Err(fault) => Err(fault),
                    Ok(more) => Ok(before + more),
                }
            },
        }
    }
}

proof fn fault_below_stays(cfg: RawConfig, upto: int, more: int)
    requires
        upto <= more,
        rules_below(cfg, upto) is Err,
    ensures
        rules_below(cfg, more) == rules_below(cfg, upto),
    decreases more,
{
    if upto < more {
        fault_below_stays(cfg, upto, more - 1);
    }
}

/// What a configuration says, as far as it can be told without a graph, on a machine whose
/// triple is `host`.
pub open spec fn without_graph(cfg: RawConfig, host: Seq<char>) -> Result<ConfigView, Fault> {
    match schema_fault(cfg) {
        Some(fault) => Err(fault),
        None => match graph_features(cfg) {
            Err(fault) => Err(fault),
            Ok(features) => match graph_platform(cfg, host) {
                Err(fault) => Err(fault),
                Ok(platform) => match internal_patterns(cfg) {
                    Err(fault) => Err(fault),
                    Ok(patterns) => match rules_below(cfg, cfg.rules@.len() as int) {
                        Err(fault) => Err(fault),
                        Ok(rules) => if rules.len() == 0 && !cfg.manifest.versions_in_root.value {
                            Err(fault_at(cfg, 0, "depgate.toml declares no rules"@))
                        } else {
                            Ok(
                                ConfigView {
                                    schema: cfg.schema.value,
                                    features,
                                    platform,
                                    members: cfg.internal.members.value,
                                    patterns,
                                    versions_in_root: cfg.manifest.versions_in_root.value,
                                    rules,
                                },
                            )
                        },
                    },
                },
            },
        },
    }
}

fn phase_a(cfg: &RawConfig, host: &str) -> (result: Result<Config, ConfigError>)
    ensures
        match result {
            Ok(config) => without_graph(*cfg, host@) == Ok::<ConfigView, Fault>(config@)
                && config.wf(),
            Err(error) => without_graph(*cfg, host@) == Err::<ConfigView, Fault>(error@),
        },
{
    match check_schema(cfg) {
        Ok(_) => {},
        Err(error) => return Err(error),
    }
    let features = match feature_selection(cfg) {
        Ok(features) => features,
        Err(error) => return Err(error),
    };
    let platform = match platform_selection(cfg, host) {
        Ok(platform) => platform,
        Err(error) => return Err(error),
    };
    let patterns = match compile_patterns(cfg) {
        Ok(patterns) => patterns,
        Err(error) => return Err(error),
    };
    let mut rules: Vec<Rule> = Vec::new();
    let mut at: usize = 0;
    assert(rule_views(rules@) =~= Seq::<RuleView>::empty());
    while at < cfg.rules.len()
        invariant
            at <= cfg.rules@.len(),
            rules_below(*cfg, at as int) == Ok::<Seq<RuleView>, Fault>(rule_views(rules@)),
            forall|i: int| 0 <= i < rules@.len() ==> (#[trigger] rules@[i]).kind.wf(),
            schema_fault(*cfg) is None,
            graph_features(*cfg) == Ok::<FeatureSelectionView, Fault>(features@),
            graph_platform(*cfg, host@) == Ok::<Seq<Seq<char>>, Fault>(platform@),
            internal_patterns(*cfg) == Ok::<Seq<Seq<char>>, Fault>(globs::patterns(patterns)),
        decreases cfg.rules@.len() - at,
    {
        let rule = &cfg.rules[at];
        match flatten_package_rules(cfg, rule.package.as_str(), &rule.table.value) {
            Ok(more) => {
                let mut more = more;
                let ghost (left, right) = (rules@, more@);
                rules.append(&mut more);
                assert(rule_views(rules@) =~= rule_views(left) + rule_views(right));
            },
            Err(error) => {
                proof {
                    fault_below_stays(*cfg, at + 1, cfg.rules@.len() as int);
                }
                return Err(error);
            },
        }
        at = at + 1;
    }
    if rules.len() == 0 && !cfg.manifest.versions_in_root.value {
        return Err(config_error(cfg, 0, "depgate.toml declares no rules".to_owned()));
    }
    Ok(
        Config {
            schema: cfg.schema.value,
            features,
            platform,
            internal: InternalDef { members: cfg.internal.members.value, patterns },
            manifest_versions_in_root: cfg.manifest.versions_in_root.value,
            rules,
        },
    )
}

/// The first of the first `upto` members that is named `name`.
pub open spec fn member_named(view: GraphView, name: Seq<char>, upto: int) -> Option<int>
    decreases upto,
{
    if upto <= 0 {
        None
    } else {
        match member_named(view, name, upto - 1) {
            Some(node) => Some(node),
            None => if view.name(view.members[upto - 1]) == name {
                Some(view.members[upto - 1])
            } else {
                None
            },
        }
    }
}

/// The package that rules on `name` are rooted at.
pub open spec fn root_of(view: GraphView, name: Seq<char>) -> Option<int> {
    member_named(view, name, view.members.len() as int)
}

proof fn member_stays(view: GraphView, name: Seq<char>, upto: int, more: int)
    requires
        upto <= more,
        member_named(view, name, upto) is Some,
    ensures
        member_named(view, name, more) == member_named(view, name, upto),
    decreases more,
{
    if upto < more {
        member_stays(view, name, upto, more - 1);
    }
}

/// A root is a member of that name.
pub proof fn root_is_a_member(view: GraphView, name: Seq<char>)
    requires
        view.consistent(),
        root_of(view, name) is Some,
    ensures
        0 <= root_of(view, name)->0 < view.count(),
        view.members.contains(root_of(view, name)->0),
        view.name(root_of(view, name)->0) == name,
{
    found_member_is_a_member(view, name, view.members.len() as int);
}

proof fn found_member_is_a_member(view: GraphView, name: Seq<char>, upto: int)
    requires
        view.consistent(),
        upto <= view.members.len(),
        member_named(view, name, upto) is Some,
    ensures
        0 <= member_named(view, name, upto)->0 < view.count(),
        view.members.contains(member_named(view, name, upto)->0),
        view.name(member_named(view, name, upto)->0) == name,
    decreases upto,
{
    if upto > 0 {
        if member_named(view, name, upto - 1) is Some {
            found_member_is_a_member(view, name, upto - 1);
        } else {
            assert(view.members[upto - 1] == member_named(view, name, upto)->0);
        }
    }
}

/// The workspace member that rules on `package` are rooted at.
pub(crate) fn find_root(graph: &Graph<'_>, package: &str) -> (root: Option<u32>)
    requires
        graph.wf(),
    ensures
        match root {
            Some(root) => root_of(graph@, package@) == Some(root as int) && root < graph@.count(),
            None => root_of(graph@, package@) is None,
        },
{
    let members = graph.members();
    proof {
        graph.is_consistent();
    }
    let mut at: usize = 0;
    while at < members.len()
        invariant
            graph.wf(),
            graph@.consistent(),
            at <= members@.len(),
            lists(members@, graph@.members),
            member_named(graph@, package@, at as int) is None,
        decreases members@.len() - at,
    {
        let member = members[at];
        assert(member == graph@.members[at as int]);
        if text::same(graph.name(member), package) {
            proof {
                member_stays(graph@, package@, at + 1, graph@.members.len() as int);
            }
            return Some(member);
        }
        at = at + 1;
    }
    None
}

/// The first of the first `upto` names that no package has.
pub open spec fn unknown_name(view: GraphView, names: Seq<Seq<char>>, upto: int) -> Option<int>
    decreases upto,
{
    if upto <= 0 {
        None
    } else {
        match unknown_name(view, names, upto - 1) {
            Some(i) => Some(i),
            None => if view.names.contains(names[upto - 1]) {
                None
            } else {
                Some(upto - 1)
            },
        }
    }
}

proof fn unknown_name_stays(view: GraphView, names: Seq<Seq<char>>, upto: int, more: int)
    requires
        upto <= more,
        unknown_name(view, names, upto) is Some,
    ensures
        unknown_name(view, names, more) == unknown_name(view, names, upto),
    decreases more,
{
    if upto < more {
        unknown_name_stays(view, names, upto, more - 1);
    }
}

/// The first of the first `upto` features that the table of `node` does not define.
pub open spec fn unknown_feature(
    view: GraphView,
    node: int,
    requested: Seq<Seq<char>>,
    upto: int,
) -> Option<int>
    decreases upto,
{
    if upto <= 0 {
        None
    } else {
        match unknown_feature(view, node, requested, upto - 1) {
            Some(i) => Some(i),
            None => if defines(feature_table_of(view, node), requested[upto - 1]) {
                None
            } else {
                Some(upto - 1)
            },
        }
    }
}

proof fn unknown_feature_is_first(
    view: GraphView,
    node: int,
    requested: Seq<Seq<char>>,
    i: int,
    upto: int,
)
    requires
        0 <= i < upto <= requested.len(),
        forall|j: int| 0 <= j < i ==> defines(feature_table_of(view, node), #[trigger] requested[j]),
    ensures
        !defines(feature_table_of(view, node), requested[i]) ==> unknown_feature(
            view,
            node,
            requested,
            upto,
        ) == Some(i),
        defines(feature_table_of(view, node), requested[i]) && upto == i + 1 ==> unknown_feature(
            view,
            node,
            requested,
            upto,
        ) is None,
    decreases upto,
{
    if i + 1 < upto {
        unknown_feature_is_first(view, node, requested, i, upto - 1);
    } else if i > 0 {
        unknown_feature_is_first(view, node, requested, i - 1, i);
        assert(defines(feature_table_of(view, node), requested[i - 1]));
    }
}

/// The names that a rule lists exactly.
pub open spec fn exact_names(kind: RuleKindView) -> Seq<Seq<char>> {
    match kind {
        RuleKindView::Internal(names) => names,
        RuleKindView::Direct(names) => names,
        _ => Seq::empty(),
    }
}

/// The text for what cannot be decoded.
pub open spec fn undecodable_text() -> Seq<char> {
    error_text(ErrorView::CargoMetadataUnparseable { cause: Seq::empty() })
}

/// What is wrong with the names that a rule lists.
///
/// `deny` and `require` take patterns, not exact names, so a value naming no package is a rule
/// that passes or fails, never a configuration error.
pub open spec fn names_fault(view: GraphView, rule: RuleView) -> Option<Fault> {
    let names = exact_names(rule.kind);
    match unknown_name(view, names, names.len() as int) {
        Some(i) => Some(
            Fault {
                message: unknown_package_text("rules."@ + rule.package, names[i]),
                span: Some(rule.span),
            },
        ),
        None => None,
    }
}

/// What is wrong with the features that a rule on `node` lists.
pub open spec fn selection_fault(view: GraphView, node: int, rule: RuleView) -> Option<Fault> {
    match rule.features {
        Some((SelectionView::List(requested), at)) => match view.meta.packages@[node].features {
            Decoded::Malformed(_) => Some(Fault { message: undecodable_text(), span: Some(at) }),
            Decoded::Value(_) => match unknown_feature(
                view,
                node,
                requested,
                requested.len() as int,
            ) {
                Some(i) => Some(
                    Fault {
                        message: "rules."@ + rule.package
                            + ".features references unknown feature `"@ + requested[i] + "`"@,
                        span: Some(at),
                    },
                ),
                None => None,
            },
        },
        _ => None,
    }
}

/// What is wrong with the declarations of `node`, for a rule that reads them.
pub open spec fn declarations_fault(view: GraphView, node: int, rule: RuleView) -> Option<Fault> {
    if rule.kind is Direct && view.meta.packages@[node].dependencies is Malformed {
        Some(Fault { message: undecodable_text(), span: Some(rule.span) })
    } else {
        None
    }
}

/// What is wrong with a rule, as the graph shows it.
pub open spec fn rule_fault(view: GraphView, rule: RuleView) -> Option<Fault> {
    match root_of(view, rule.package) {
        None => Some(
            Fault {
                message: "rules."@ + rule.package + " targets non-member workspace package"@,
                span: Some(rule.span),
            },
        ),
        Some(node) => match names_fault(view, rule) {
            Some(fault) => Some(fault),
            None => match selection_fault(view, node, rule) {
                Some(fault) => Some(fault),
                None => declarations_fault(view, node, rule),
            },
        },
    }
}

/// The first of the first `upto` declarations that is an optional normal one.
pub open spec fn optional_declaration(declared: Seq<DeclaredDep>, upto: int) -> Option<int>
    decreases upto,
{
    if upto <= 0 {
        None
    } else {
        match optional_declaration(declared, upto - 1) {
            Some(i) => Some(i),
            None => if declared[upto - 1].kind is None && declared[upto - 1].optional {
                Some(upto - 1)
            } else {
                None
            },
        }
    }
}

proof fn optional_declaration_stays(declared: Seq<DeclaredDep>, upto: int, more: int)
    requires
        upto <= more,
        optional_declaration(declared, upto) is Some,
    ensures
        optional_declaration(declared, more) == optional_declaration(declared, upto),
    decreases more,
{
    if upto < more {
        optional_declaration_stays(declared, upto, more - 1);
    }
}

/// What a rule is worth warning of: a `direct` rule on a package that declares an optional
/// dependency.
pub open spec fn rule_warning(view: GraphView, rule: RuleView) -> Option<Seq<char>> {
    match root_of(view, rule.package) {
        None => None,
        Some(node) => {
            let declared = declarations(view, node);
            match optional_declaration(declared, declared.len() as int) {
                None => None,
                Some(i) => if rule.kind is Direct {
                    Some(
                        "warning: "@ + rule.id + ": "@ + rule.package
                            + " declares optional dependency "@ + declared[i].name@
                            + "; sibling feature unification may add it to the resolved edge set"@,
                    )
                } else {
                    None
                },
            }
        },
    }
}

/// The first thing wrong with the first `upto` rules.
pub open spec fn rules_fault(view: GraphView, rules: Seq<RuleView>, upto: int) -> Option<Fault>
    decreases upto,
{
    if upto <= 0 {
        None
    } else {
        match rules_fault(view, rules, upto - 1) {
            Some(fault) => Some(fault),
            None => rule_fault(view, rules[upto - 1]),
        }
    }
}

proof fn rules_fault_stays(view: GraphView, rules: Seq<RuleView>, upto: int, more: int)
    requires
        upto <= more,
        rules_fault(view, rules, upto) is Some,
    ensures
        rules_fault(view, rules, more) == rules_fault(view, rules, upto),
    decreases more,
{
    if upto < more {
        rules_fault_stays(view, rules, upto, more - 1);
    }
}

/// The warnings of the first `upto` rules.
pub open spec fn warnings_below(view: GraphView, rules: Seq<RuleView>, upto: int) -> Seq<Seq<char>>
    decreases upto,
{
    if upto <= 0 {
        Seq::empty()
    } else {
        match rule_warning(view, rules[upto - 1]) {
            Some(warning) => warnings_below(view, rules, upto - 1).push(warning),
            None => warnings_below(view, rules, upto - 1),
        }
    }
}

/// The first of the first `upto` rules that narrows its closure.
pub open spec fn narrowing_rule(rules: Seq<RuleView>, upto: int) -> Option<int>
    decreases upto,
{
    if upto <= 0 {
        None
    } else {
        match narrowing_rule(rules, upto - 1) {
            Some(i) => Some(i),
            None => if rules[upto - 1].features is Some {
                Some(upto - 1)
            } else {
                None
            },
        }
    }
}

proof fn narrowing_rule_stays(rules: Seq<RuleView>, upto: int, more: int)
    requires
        upto <= more,
        narrowing_rule(rules, upto) is Some,
    ensures
        narrowing_rule(rules, more) == narrowing_rule(rules, upto),
    decreases more,
{
    if upto < more {
        narrowing_rule_stays(rules, upto, more - 1);
    }
}

/// Why a policy that narrows closures cannot be evaluated on a document soundly: a member was
/// not resolved with all of its features.
///
/// An activation is a subset of the document's unified closure only when every member was
/// resolved with all of its own features; otherwise an edge that it would turn on may simply not
/// be in the resolve, and a `deny` rule would pass because the edge was missing.
pub open spec fn guard_fault(view: GraphView, rules: Seq<RuleView>) -> Option<Fault> {
    match narrowing_rule(rules, rules.len() as int) {
        None => None,
        Some(i) => {
            let span = Some((rules[i].features->0).1);
            match lacking_member(view, view.members.len() as int) {
                None => None,
                Some(k) => {
                    let node = view.members[k];
                    if features_fault(view, node) is Some {
                        Some(Fault { message: undecodable_text(), span })
                    } else {
                        Some(
                            Fault {
                                message:
                                    "feature-aware rules need a graph resolved with all features; member "@
                                    + view.name(node) + " has "@ + decimal(
                                    saturated(
                                        unactivated_features(
                                            view,
                                            node,
                                            feature_table_of(view, node).len() as int,
                                        ),
                                    ),
                                ) + " unactivated feature(s) — re-run with --all-features"@,
                                span,
                            },
                        )
                    }
                },
            }
        },
    }
}

/// What a graph says of the rules of a configuration: the warnings, or the first thing wrong.
pub open spec fn with_graph(view: GraphView, rules: Seq<RuleView>) -> Result<Seq<Seq<char>>, Fault> {
    match rules_fault(view, rules, rules.len() as int) {
        Some(fault) => Err(fault),
        None => match guard_fault(view, rules) {
            Some(fault) => Err(fault),
            None => Ok(warnings_below(view, rules, rules.len() as int)),
        },
    }
}


/// Checks the names that a rule lists against the graph.
fn check_names(rule: &Rule, graph: &Graph<'_>) -> (result: Result<(), ConfigError>)
    requires
        graph.wf(),
    ensures
        match result {
            Ok(_) => names_fault(graph@, rule@) is None,
            Err(error) => names_fault(graph@, rule@) == Some(error@),
        },
{
    let names = match &rule.kind {
        RuleKind::Internal(names) => names,
        RuleKind::Direct(names) => names,
        _ => return Ok(()),
    };
    let ghost list = texts(names@);
    assert(list == exact_names(rule@.kind));
    let mut at: usize = 0;
    while at < names.len()
        invariant
            graph.wf(),
            at <= names@.len(),
            list == texts(names@),
            list == exact_names(rule@.kind),
            unknown_name(graph@, list, at as int) is None,
        decreases names@.len() - at,
    {
        assert(list[at as int] == names@[at as int]@);
        if graph.lookup_name(names[at].as_str()).is_none() {
            proof {
                unknown_name_stays(graph@, list, at + 1, list.len() as int);
            }
            let context = table_message(rule.package.as_str(), "");
            proof {
                reveal_strlit("");
                assert(context@ =~= "rules."@ + rule.package@);
            }
            return Err(
                ConfigError {
                    message: unknown_package_message(context.as_str(), names[at].as_str()),
                    span: Some(rule.span.copied()),
                },
            );
        }
        at = at + 1;
    }
    Ok(())
}

/// Checks the features that a rule on `node` lists against the package's own table.
fn check_selection(rule: &Rule, graph: &Graph<'_>, node: u32) -> (result: Result<(), ConfigError>)
    requires
        graph.wf(),
        node < graph@.count(),
    ensures
        match result {
            Ok(_) => selection_fault(graph@, node as int, rule@) is None,
            Err(error) => selection_fault(graph@, node as int, rule@) == Some(error@),
        },
{
    let features = match &rule.features {
        Some(features) => features,
        None => return Ok(()),
    };
    let requested = match &features.selection {
        Selection::List(requested) => requested,
        _ => return Ok(()),
    };
    let ghost list = texts(requested@);
    match features::first_undeclared_feature(graph, node, requested) {
        Err(error) => Err(
            ConfigError { message: error.describe(), span: Some(features.span.copied()) },
        ),
        Ok(None) => {
            proof {
                if list.len() > 0 {
                    assert forall|j: int| 0 <= j < list.len() implies defines(
                        feature_table_of(graph@, node as int),
                        #[trigger] list[j],
                    ) by {
                        assert(list[j] == requested@[j]@);
                    }
                    unknown_feature_is_first(
                        graph@,
                        node as int,
                        list,
                        list.len() - 1,
                        list.len() as int,
                    );
                    assert(defines(feature_table_of(graph@, node as int), list[list.len() - 1]));
                }
            }
            Ok(())
        },
        Ok(Some(feature)) => {
            proof {
                let i = choose|i: int|
                    features::first_undefined(graph@, node as int, requested@, i) && feature@
                        == requested@[i]@;
                assert forall|j: int| 0 <= j < i implies defines(
                    feature_table_of(graph@, node as int),
                    #[trigger] list[j],
                ) by {
                    assert(list[j] == requested@[j]@);
                }
                assert(list[i] == requested@[i]@);
                unknown_feature_is_first(graph@, node as int, list, i, list.len() as int);
            }
            let mut message = table_message(
                rule.package.as_str(),
                ".features references unknown feature `",
            );
            message.push_str(feature);
            message.push_str("`");
            Err(ConfigError { message, span: Some(features.span.copied()) })
        },
    }
}

/// The warning that the declarations of `node` give a `direct` rule.
fn check_declarations(rule: &Rule, graph: &Graph<'_>, node: u32) -> (result: Result<
    Option<String>,
    ConfigError,
>)
    requires
        graph.wf(),
        node < graph@.count(),
        root_of(graph@, rule@.package) == Some(node as int),
    ensures
        match result {
            Ok(warning) => {
                &&& declarations_fault(graph@, node as int, rule@) is None
                &&& match warning {
                    Some(warning) => rule_warning(graph@, rule@) == Some(warning@),
                    None => rule_warning(graph@, rule@) is None,
                }
            },
            Err(error) => declarations_fault(graph@, node as int, rule@) == Some(error@),
        },
{
    match &rule.kind {
        RuleKind::Direct(_) => {},
        _ => return Ok(None),
    }
    let declared = match graph.declared_deps(node) {
        Ok(declared) => declared,
        Err(error) => {
            return Err(ConfigError { message: error.describe(), span: Some(rule.span.copied()) });
        },
    };
    let mut at: usize = 0;
    while at < declared.len()
        invariant
            at <= declared@.len(),
            graph@.meta.packages@[node as int].dependencies is Value,
            declared@ == declarations(graph@, node as int),
            root_of(graph@, rule@.package) == Some(node as int),
            rule@.kind is Direct,
            optional_declaration(declared@, at as int) is None,
        decreases declared@.len() - at,
    {
        if declared[at].is_normal() && declared[at].optional {
            proof {
                optional_declaration_stays(declared@, at + 1, declared@.len() as int);
            }
            let mut warning = "warning: ".to_owned();
            warning.push_str(rule.id.as_str());
            warning.push_str(": ");
            warning.push_str(rule.package.as_str());
            warning.push_str(" declares optional dependency ");
            warning.push_str(declared[at].name.as_str());
            warning.push_str(
                "; sibling feature unification may add it to the resolved edge set",
            );
            return Ok(Some(warning));
        }
        at = at + 1;
    }
    Ok(None)
}

/// Checks one rule against the graph.
fn check_rule(rule: &Rule, graph: &Graph<'_>) -> (result: Result<Option<String>, ConfigError>)
    requires
        graph.wf(),
    ensures
        match result {
            Ok(warning) => {
                &&& rule_fault(graph@, rule@) is None
                &&& match warning {
                    Some(warning) => rule_warning(graph@, rule@) == Some(warning@),
                    None => rule_warning(graph@, rule@) is None,
                }
            },
            Err(error) => rule_fault(graph@, rule@) == Some(error@),
        },
{
    let node = match find_root(graph, rule.package.as_str()) {
        Some(node) => node,
        None => {
            let message = table_message(
                rule.package.as_str(),
                " targets non-member workspace package",
            );
            return Err(ConfigError { message, span: Some(rule.span.copied()) });
        },
    };
    match check_names(rule, graph) {
        Ok(_) => {},
        Err(error) => return Err(error),
    }
    match check_selection(rule, graph, node) {
        Ok(_) => {},
        Err(error) => return Err(error),
    }
    check_declarations(rule, graph, node)
}

/// Rejects a document a feature-aware rule cannot be evaluated on soundly.
fn all_features_guard(rules: &Vec<Rule>, graph: &Graph<'_>) -> (result: Result<(), ConfigError>)
    requires
        graph.wf(),
    ensures
        match result {
            Ok(_) => guard_fault(graph@, rule_views(rules@)) is None,
            Err(error) => guard_fault(graph@, rule_views(rules@)) == Some(error@),
        },
{
    let ghost views = rule_views(rules@);
    let mut at: usize = 0;
    while at < rules.len()
        invariant
            graph.wf(),
            at <= rules@.len(),
            views == rule_views(rules@),
            narrowing_rule(views, at as int) is None,
        decreases rules@.len() - at,
    {
        assert(views[at as int] == rules@[at as int]@);
        if let Some(features) = &rules[at].features {
            proof {
                narrowing_rule_stays(views, at + 1, views.len() as int);
            }
            return require_all_features(features, graph);
        }
        at = at + 1;
    }
    Ok(())
}

/// Rejects a document whose members were not resolved with all of their features.
fn require_all_features(features: &RuleFeatures, graph: &Graph<'_>) -> (result: Result<
    (),
    ConfigError,
>)
    requires
        graph.wf(),
    ensures
        match lacking_member(graph@, graph@.members.len() as int) {
            None => result is Ok,
            Some(k) => {
                let node = graph@.members[k];
                &&& result is Err
                &&& result->Err_0@.span == Some(features.span@)
                &&& result->Err_0@.message == if features_fault(graph@, node) is Some {
                    undecodable_text()
                } else {
                    "feature-aware rules need a graph resolved with all features; member "@
                        + graph@.name(node) + " has "@ + decimal(
                        saturated(
                            unactivated_features(
                                graph@,
                                node,
                                feature_table_of(graph@, node).len() as int,
                            ),
                        ),
                    ) + " unactivated feature(s) — re-run with --all-features"@
                }
            },
        },
{
    let ghost count = graph@.members.len() as int;
    match features::first_unactivated_member(graph) {
        Err(error) => {
            proof {
                let i = choose|i: int|
                    features::first_lacking(graph@, i) && #[trigger] features_fault(
                        graph@,
                        graph@.members[i],
                    ) == Some(error@);
                features::lacking_member_is_first(graph@, i, count);
            }
            Err(ConfigError { message: error.describe(), span: Some(features.span.copied()) })
        },
        Ok(None) => {
            proof {
                if count > 0 {
                    features::lacking_member_is_first(graph@, count - 1, count);
                    assert(fully_activated(graph@, graph@.members[count - 1]));
                }
            }
            Ok(())
        },
        Ok(Some(member)) => {
            proof {
                let i = choose|i: int|
                    features::first_lacking(graph@, i) && {
                        let node = graph@.members[i];
                        &&& features_fault(graph@, node) is None
                        &&& member.package@ == graph@.name(node)
                        &&& member.unactivated == saturated(
                            unactivated_features(
                                graph@,
                                node,
                                feature_table_of(graph@, node).len() as int,
                            ),
                        )
                    };
                features::lacking_member_is_first(graph@, i, count);
            }
            let mut message =
                "feature-aware rules need a graph resolved with all features; member ".to_owned();
            message.push_str(member.package.as_str());
            message.push_str(" has ");
            text::push_decimal(&mut message, member.unactivated as u128);
            message.push_str(" unactivated feature(s) — re-run with --all-features");
            Err(ConfigError { message, span: Some(features.span.copied()) })
        },
    }
}

/// Checks the rules of a configuration against the graph and gathers the warnings.
fn phase_b(rules: &Vec<Rule>, graph: &Graph<'_>) -> (result: Result<Vec<String>, ConfigError>)
    requires
        graph.wf(),
    ensures
        match result {
            Ok(warnings) => with_graph(graph@, rule_views(rules@)) == Ok::<Seq<Seq<char>>, Fault>(
                texts(warnings@),
            ),
            Err(error) => with_graph(graph@, rule_views(rules@)) == Err::<Seq<Seq<char>>, Fault>(
                error@,
            ),
        },
{
    let ghost views = rule_views(rules@);
    let mut warnings: Vec<String> = Vec::new();
    let mut at: usize = 0;
    assert(texts(warnings@) =~= Seq::<Seq<char>>::empty());
    while at < rules.len()
        invariant
            graph.wf(),
            at <= rules@.len(),
            views == rule_views(rules@),
            rules_fault(graph@, views, at as int) is None,
            texts(warnings@) == warnings_below(graph@, views, at as int),
        decreases rules@.len() - at,
    {
        assert(views[at as int] == rules@[at as int]@);
        match check_rule(&rules[at], graph) {
            Ok(Some(warning)) => {
                let ghost before = texts(warnings@);
                warnings.push(warning);
                assert(texts(warnings@) =~= before.push(warning@));
            },
            Ok(None) => {},
            Err(error) => {
                proof {
                    rules_fault_stays(graph@, views, at + 1, views.len() as int);
                }
                return Err(error);
            },
        }
        at = at + 1;
    }
    match all_features_guard(rules, graph) {
        Ok(_) => Ok(warnings),
        Err(error) => Err(error),
    }
}

/// What a configuration says, and what it is worth warning of, on a machine whose triple is
/// `host` and for the graph `view`, if there is one.
pub open spec fn validated(cfg: RawConfig, view: Option<GraphView>, host: Seq<char>) -> Result<
    (ConfigView, Seq<Seq<char>>),
    Fault,
> {
    match without_graph(cfg, host) {
        Err(fault) => Err(fault),
        Ok(config) => match view {
            None => Ok((config, Seq::empty())),
            Some(view) => match with_graph(view, config.rules) {
                Err(fault) => Err(fault),
                Ok(warnings) => Ok((config, warnings)),
            },
        },
    }
}

/// The view of a graph, if there is one.
pub open spec fn view_of(graph: Option<&Graph<'_>>) -> Option<GraphView> {
    match graph {
        Some(graph) => Some(graph@),
        None => None,
    }
}

/// Validates a raw configuration, optionally against a dependency graph.
///
/// Graph-independent checks always run before any graph lookup. Passing `None` is therefore
/// equivalent to passing a graph for all their errors. `host` is the triple of this machine,
/// which `platform = "host"` stands for.
///
/// # Errors
///
/// [`ConfigError`] for invalid schema, rule declarations, glob patterns, workspace membership,
/// or unresolved package names.
pub fn validate(cfg: &RawConfig, graph: Option<&Graph<'_>>, host: &str) -> (result: Result<
    Validated,
    ConfigError,
>)
    requires
        graph is Some ==> graph->0.wf(),
    ensures
        match result {
            Ok(valid) => {
                &&& validated(*cfg, view_of(graph), host@) == Ok::<
                    (ConfigView, Seq<Seq<char>>),
                    Fault,
                >((valid.config@, texts(valid.warnings@)))
                &&& valid.config.wf()
                &&& valid.direct_optional_decls == saturated(valid.warnings@.len())
            },
            Err(error) => validated(*cfg, view_of(graph), host@) == Err::<
                (ConfigView, Seq<Seq<char>>),
                Fault,
            >(error@),
        },
{
    let config = match phase_a(cfg, host) {
        Ok(config) => config,
        Err(error) => return Err(error),
    };
    let warnings = match graph {
        None => {
            let none: Vec<String> = Vec::new();
            assert(texts(none@) =~= Seq::<Seq<char>>::empty());
            none
        },
        Some(graph) => match phase_b(&config.rules, graph) {
            Ok(warnings) => warnings,
            Err(error) => return Err(error),
        },
    };
    let direct_optional_decls: u32 = if warnings.len() > 4294967295 {
        u32::MAX
    } else {
        warnings.len() as u32
    };
    Ok(Validated { config, warnings, direct_optional_decls })
}

/// What is wrong with a configuration in itself is reported the same with any graph and without
/// one.
pub proof fn faults_of_the_file_come_first(cfg: RawConfig, host: Seq<char>, view: Option<GraphView>)
    requires
        validated(cfg, None, host) is Err,
    ensures
        validated(cfg, view, host) == validated(cfg, None, host),
{
}

} // verus!
