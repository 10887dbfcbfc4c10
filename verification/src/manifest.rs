//! The manifest rule: no workspace member manifest may name a dependency version in its own
//! dependency tables.
//!
//! The rule reads every member manifest, parses it once with byte spans, and walks six table
//! kinds: `dependencies`, `dev-dependencies`, `build-dependencies` and the same three under
//! every `target.<cfg>` entry. Any entry that names a version is flagged, whether it uses the
//! string form (`foo = "1"`) or the table form (`foo = { version = "1" }`), and regardless of
//! `path`, `git` or `workspace` companions. The reported place is the version value itself.
//!
//! `[workspace.dependencies]` is never inspected: that table is the canonical version list the
//! rule exists to protect.
//!
//! The deprecated underscore spellings `dev_dependencies` and `build_dependencies` are separate
//! tables — a manifest may carry both spellings at once, and the hyphenated one wins.

use crate::config::{place_in, source_span, Span};
use crate::document::{
    self, entries_of, fields_in, find, lookup, met, met_at, misfit, named, no_map, parsed,
    placed_value, refusal_view, refuse, refuse_map, table_at, table_of, value_of, Fields, Misfit,
    Refusal, TomlEntry, TomlPlaced, TomlView, DATETIME_KEY,
};
use crate::error::{Error, ErrorView};
use crate::order::{self, by_offset};
use crate::source::{self, annotated, saturated};
use crate::text;
use toml::de::{DeTable, DeValue};
use toml::Spanned;
use vstd::prelude::*;

verus! {

/// The stable identifier of the manifest rule.
pub const RULE_ID: &'static str = "manifest.versions-in-root";

/// The rule kind label of the manifest rule.
pub const RULE_KIND: &'static str = "manifest";

/// One workspace member manifest to check.
#[derive(Clone, Debug, PartialEq, Eq)]
#[non_exhaustive]
pub struct ManifestInput {
    /// The member package name, carried into every violation it produces.
    pub package: String,
    /// The member manifest path, already rebased under `--workspace-root`.
    pub path: String,
}

impl ManifestInput {
    /// Pairs a member package name with its manifest path.
    #[must_use]
    pub fn new(package: String, path: String) -> (input: ManifestInput)
        ensures
            input.package == package,
            input.path == path,
    {
        ManifestInput { package, path }
    }
}

/// One dependency declaration that names a version.
#[derive(Clone, Debug, PartialEq, Eq)]
pub struct ManifestViolation {
    /// The member package whose manifest declares the version.
    pub package: String,
    /// The dependency table, rendered as it is written in the manifest
    /// (`dependencies`, `dev-dependencies`, `target.'cfg(unix)'.dependencies`, …).
    pub table: String,
    /// The dependency key in that table.
    pub dependency: String,
    /// The declared version requirement.
    pub version: String,
    /// The location of the version value in the member manifest.
    pub span: Span,
    /// How many bytes the version value takes there, its quotes included.
    pub span_bytes: usize,
}

/// A [`ManifestViolation`] by the characters of its strings.
pub struct ManifestEntryView {
    pub package: Seq<char>,
    pub table: Seq<char>,
    pub dependency: Seq<char>,
    pub version: Seq<char>,
    pub span: (Seq<char>, nat, nat),
    pub span_bytes: nat,
}

impl View for ManifestViolation {
    type V = ManifestEntryView;

    open spec fn view(&self) -> ManifestEntryView {
        ManifestEntryView {
            package: self.package@,
            table: self.table@,
            dependency: self.dependency@,
            version: self.version@,
            span: self.span@,
            span_bytes: self.span_bytes as nat,
        }
    }
}

/// The characters of each violation.
pub open spec fn manifest_views(entries: Seq<ManifestViolation>) -> Seq<ManifestEntryView> {
    Seq::new(entries.len(), |i: int| entries[i]@)
}

/// The result of the manifest rule over every workspace member.
#[derive(Clone, Debug, PartialEq, Eq)]
pub struct ManifestReport {
    /// Every offending entry, in member order and then in source order.
    pub entries: Vec<ManifestViolation>,
    /// The number of member manifests read and parsed.
    pub manifests_scanned: u32,
    /// The total size of the manifests read, in bytes.
    pub bytes_scanned: u64,
    /// Whether the workspace-owning manifest has a `[workspace.dependencies]` table, or `None`
    /// when that manifest could not be read.
    pub root_workspace_dependencies: Option<bool>,
}

impl Default for ManifestReport {
    fn default() -> (report: ManifestReport)
        ensures
            report.entries@.len() == 0,
            report.manifests_scanned == 0,
            report.bytes_scanned == 0,
            report.root_workspace_dependencies is None,
    {
        ManifestReport {
            entries: Vec::new(),
            manifests_scanned: 0,
            bytes_scanned: 0,
            root_workspace_dependencies: None,
        }
    }
}

impl ManifestReport {
    /// Whether the rule passed, that is, no entry names a version.
    #[must_use]
    pub fn passed(&self) -> (passed: bool)
        ensures
            passed == (self.entries@.len() == 0),
    {
        self.entries.len() == 0
    }
}

/// Whether a character may stand in a bare key.
pub open spec fn is_bare_char(c: char) -> bool {
    ('a' <= c && c <= 'z') || ('A' <= c && c <= 'Z') || ('0' <= c && c <= '9') || c == '-' || c
        == '_'
}

/// Whether a key needs no quotes.
pub open spec fn is_bare_key(key: Seq<char>) -> bool {
    key.len() > 0 && forall|i: int| 0 <= i < key.len() ==> is_bare_char(#[trigger] key[i])
}

/// A key with its backslashes and double quotes escaped.
pub open spec fn escaped_key(key: Seq<char>) -> Seq<char>
    decreases key.len(),
{
    if key.len() == 0 {
        key
    } else if key.last() == '\\' {
        escaped_key(key.drop_last()).push('\\').push('\\')
    } else if key.last() == '"' {
        escaped_key(key.drop_last()).push('\\').push('"')
    } else {
        escaped_key(key.drop_last()).push(key.last())
    }
}

/// A key as a manifest writes it: bare, in single quotes, or escaped in double quotes when a
/// single quote forces them.
pub open spec fn key_text(key: Seq<char>) -> Seq<char> {
    if is_bare_key(key) {
        key
    } else if !key.contains('\'') {
        seq!['\''] + key + seq!['\'']
    } else {
        seq!['"'] + escaped_key(key) + seq!['"']
    }
}

/// Quotes a key the way Cargo documents `[target.'cfg(unix)'.dependencies]`; keys that are valid
/// bare keys are left as they are.
pub fn quote_key(key: &str) -> (written: String)
    ensures
        written@ == key_text(key@),
{
    let chars = text::chars_of(key);
    let mut bare = chars.len() > 0;
    let mut single = false;
    let mut escaped = String::new();
    let mut at: usize = 0;
    assert(chars@.take(0) =~= Seq::<char>::empty());
    assert(escaped@ =~= escaped_key(chars@.take(0)));
    while at < chars.len()
        invariant
            chars@ == key@,
            at <= chars@.len(),
            bare == (chars@.len() > 0 && forall|i: int|
                0 <= i < at ==> is_bare_char(#[trigger] chars@[i])),
            single == exists|i: int| 0 <= i < at && #[trigger] chars@[i] == '\'',
            escaped@ == escaped_key(chars@.take(at as int)),
        decreases chars@.len() - at,
    {
        let c = chars[at];
        proof {
            let now = chars@.take(at + 1);
            assert(now.drop_last() =~= chars@.take(at as int));
            assert(now.last() == c);
        }
        if !(('a' <= c && c <= 'z') || ('A' <= c && c <= 'Z') || ('0' <= c && c <= '9') || c == '-'
            || c == '_') {
            bare = false;
            assert(!is_bare_char(chars@[at as int]));
        }
        if c == '\'' {
            single = true;
            assert(chars@[at as int] == '\'');
        }
        if c == '\\' || c == '"' {
            escaped.push('\\');
        }
        escaped.push(c);
        at = at + 1;
    }
    assert(chars@.take(at as int) =~= chars@);
    if bare {
        return key.to_owned();
    }
    let mut written = String::new();
    if !single {
        assert(!key@.contains('\''));
        written.push('\'');
        written.push_str(key);
        written.push('\'');
        assert(written@ =~= seq!['\''] + key@ + seq!['\'']);
    } else {
        assert(key@.contains('\''));
        written.push('"');
        written.push_str(escaped.as_str());
        written.push('"');
        assert(written@ =~= seq!['"'] + escaped_key(key@) + seq!['"']);
    }
    written
}

/// The label of a dependency table, at the root or under a target.
pub open spec fn table_label_text(target: Option<Seq<char>>, table: Seq<char>) -> Seq<char> {
    match target {
        None => table,
        Some(target) => "target."@ + key_text(target) + "."@ + table,
    }
}

/// Renders a dependency table path for one of the three tables under `target`.
fn table_label(target: Option<&str>, table: &str) -> (label: String)
    ensures
        label@ == table_label_text(
            match target {
                Some(target) => Some(target@),
                None => None,
            },
            table@,
        ),
{
    match target {
        None => table.to_owned(),
        Some(target) => {
            let mut label = "target.".to_owned();
            let key = quote_key(target);
            label.push_str(key.as_str());
            label.push_str(".");
            label.push_str(table);
            label
        },
    }
}

/// The first refusal that `check` comes to among the first `upto` entries of a table.
pub open spec fn first_misfit(
    check: spec_fn(TomlEntry) -> Option<Misfit>,
    entries: Seq<TomlEntry>,
    upto: int,
) -> Option<Misfit>
    decreases upto,
{
    if upto <= 0 {
        None
    } else {
        match first_misfit(check, entries, upto - 1) {
            Some(misfit) => Some(misfit),
            None => check(entries[upto - 1]),
        }
    }
}

proof fn misfit_stays(
    check: spec_fn(TomlEntry) -> Option<Misfit>,
    entries: Seq<TomlEntry>,
    upto: int,
    more: int,
)
    requires
        first_misfit(check, entries, upto) is Some,
        upto <= more,
    ensures
        first_misfit(check, entries, more) == first_misfit(check, entries, upto),
    decreases more - upto,
{
    if upto < more {
        misfit_stays(check, entries, upto, more - 1);
    }
}

/// The first refusal in a table.
pub open spec fn table_misfit(
    check: spec_fn(TomlEntry) -> Option<Misfit>,
    entries: Seq<TomlEntry>,
) -> Option<Misfit> {
    first_misfit(check, entries, entries.len() as int)
}

/// What is wrong with one key of a dependency's table: a version that is no string, or the mark
/// of a datetime.
pub open spec fn key_check(source: Seq<char>, spec: TomlPlaced) -> spec_fn(TomlEntry) -> Option<Misfit> {
    |entry: TomlEntry|
        if entry.key == "version"@ {
            if entry.value.value is Text {
                None
            } else {
                Some(misfit(entry.value, met(source, entry.value), "a string"@))
            }
        } else if entry.key == DATETIME_KEY@ {
            Some(misfit(spec, "a datetime"@, "a version string or a dependency table"@))
        } else {
            None
        }
}

/// What is wrong with a dependency: it is neither a string nor a table, or its table is wrong.
pub open spec fn dependency_misfit(source: Seq<char>, spec: TomlPlaced) -> Option<Misfit> {
    match spec.value {
        TomlView::Text(_) => None,
        TomlView::Table(entries) => table_misfit(key_check(source, spec), entries),
        TomlView::Datetime(_) => Some(
            misfit(spec, "a datetime"@, "a version string or a dependency table"@),
        ),
        _ => Some(misfit(spec, met(source, spec), "a version string or a dependency table"@)),
    }
}

/// What is wrong with one dependency of a dependency table.
pub open spec fn dependency_check(source: Seq<char>) -> spec_fn(TomlEntry) -> Option<Misfit> {
    |entry: TomlEntry| dependency_misfit(source, entry.value)
}

/// What is wrong with a value that is to be a map of `inner` values, by what is wrong with its
/// entries.
pub open spec fn map_misfit(
    source: Seq<char>,
    check: spec_fn(TomlEntry) -> Option<Misfit>,
    value: TomlPlaced,
    inner: Seq<char>,
) -> Option<Misfit> {
    match value.value {
        TomlView::Table(entries) => table_misfit(check, entries),
        _ => Some(no_map(source, value, inner)),
    }
}

/// What is wrong with a dependency table.
pub open spec fn dependencies_misfit(source: Seq<char>, value: TomlPlaced) -> Option<Misfit> {
    map_misfit(source, dependency_check(source), value, "a spanned value"@)
}

/// Whether a key names a dependency table, in either spelling.
pub open spec fn is_table_key(key: Seq<char>) -> bool {
    ||| key == "dependencies"@
    ||| key == "dev-dependencies"@
    ||| key == "dev_dependencies"@
    ||| key == "build-dependencies"@
    ||| key == "build_dependencies"@
}

/// What is wrong with one key beside the dependency tables of a target.
pub open spec fn level_check(source: Seq<char>) -> spec_fn(TomlEntry) -> Option<Misfit> {
    |entry: TomlEntry|
        if is_table_key(entry.key) {
            dependencies_misfit(source, entry.value)
        } else {
            None
        }
}

/// The tables of a target, in the order in which an array gives them.
pub open spec fn level_names() -> Seq<Seq<char>> {
    seq![
        "dependencies"@,
        "dev-dependencies"@,
        "dev_dependencies"@,
        "build-dependencies"@,
        "build_dependencies"@,
    ]
}

/// What is wrong with a target.
pub open spec fn level_misfit(source: Seq<char>, value: TomlPlaced) -> Option<Misfit> {
    match fields_in(value, level_names()) {
        Some(entries) => table_misfit(level_check(source), entries),
        None => Some(misfit(value, met(source, value), "struct DepTables"@)),
    }
}

/// What is wrong with one target.
pub open spec fn target_check(source: Seq<char>) -> spec_fn(TomlEntry) -> Option<Misfit> {
    |entry: TomlEntry| level_misfit(source, entry.value)
}

/// What is wrong with the targets.
pub open spec fn targets_misfit(source: Seq<char>, value: TomlPlaced) -> Option<Misfit> {
    map_misfit(source, target_check(source), value, "struct DepTables"@)
}

/// What is wrong with one key of a manifest. Keys that the rule does not look at are never wrong.
pub open spec fn manifest_check(source: Seq<char>) -> spec_fn(TomlEntry) -> Option<Misfit> {
    |entry: TomlEntry|
        if is_table_key(entry.key) {
            dependencies_misfit(source, entry.value)
        } else if entry.key == "target"@ {
            targets_misfit(source, entry.value)
        } else {
            None
        }
}

fn check_dependency(source: &str, spec: &Spanned<DeValue<'_>>) -> (refusal: Option<Refusal>)
    ensures
        refusal_view(refusal) == dependency_misfit(source@, placed_value(*spec)),
{
    if document::as_text(spec).is_some() {
        return None;
    }
    let ghost check = key_check(source@, placed_value(*spec));
    if let Some(table) = document::as_table(spec) {
        let count = document::size(table);
        let ghost entries = entries_of(*table);
        let mut at: usize = 0;
        while at < count
            invariant
                at <= count,
                count == entries.len(),
                entries == entries_of(*table),
                placed_value(*spec).value == TomlView::Table(entries),
                check == key_check(source@, placed_value(*spec)),
                first_misfit(check, entries, at as int) is None,
            decreases count - at,
        {
            let key = document::key(table, at);
            let value = document::item(table, at);
            if text::same(key, "version") {
                if document::as_text(value).is_none() {
                    let what = met_at(source, value);
                    proof {
                        misfit_stays(check, entries, at + 1, count as int);
                    }
                    return Some(refuse(value, what.as_str(), "a string"));
                }
            } else if text::same(key, DATETIME_KEY) {
                proof {
                    misfit_stays(check, entries, at + 1, count as int);
                }
                return Some(
                    refuse(spec, "a datetime", "a version string or a dependency table"),
                );
            }
            at = at + 1;
        }
        None
    } else if document::as_datetime(spec).is_some() {
        Some(refuse(spec, "a datetime", "a version string or a dependency table"))
    } else {
        let what = met_at(source, spec);
        Some(refuse(spec, what.as_str(), "a version string or a dependency table"))
    }
}

fn check_dependencies(source: &str, value: &Spanned<DeValue<'_>>) -> (refusal: Option<Refusal>)
    ensures
        refusal_view(refusal) == dependencies_misfit(source@, placed_value(*value)),
{
    let ghost check = dependency_check(source@);
    if let Some(table) = document::as_table(value) {
        let count = document::size(table);
        let ghost entries = entries_of(*table);
        let mut at: usize = 0;
        while at < count
            invariant
                at <= count,
                count == entries.len(),
                entries == entries_of(*table),
                placed_value(*value).value == TomlView::Table(entries),
                check == dependency_check(source@),
                first_misfit(check, entries, at as int) is None,
            decreases count - at,
        {
            let refusal = check_dependency(source, document::item(table, at));
            assert(refusal_view(refusal) == check(entries[at as int]));
            if refusal.is_some() {
                proof {
                    misfit_stays(check, entries, at + 1, count as int);
                }
                return refusal;
            }
            at = at + 1;
        }
        None
    } else {
        Some(refuse_map(source, value, "a spanned value"))
    }
}

fn names_a_table(key: &str) -> (named: bool)
    ensures
        named == is_table_key(key@),
{
    text::same(key, "dependencies") || text::same(key, "dev-dependencies") || text::same(
        key,
        "dev_dependencies",
    ) || text::same(key, "build-dependencies") || text::same(key, "build_dependencies")
}

/// The tables of a target.
fn level_of<'r, 't>(value: &'r Spanned<DeValue<'t>>) -> (level: Option<Fields<'r, 't>>)
    ensures
        fields_in(placed_value(*value), level_names()) == (match level {
            Some(level) => Some(level.entries()),
            None => None,
        }),
{
    let names = vec![
        "dependencies",
        "dev-dependencies",
        "dev_dependencies",
        "build-dependencies",
        "build_dependencies",
    ];
    assert(named(names@) =~= level_names());
    document::fields_of(value, names)
}

fn check_level(source: &str, value: &Spanned<DeValue<'_>>) -> (refusal: Option<Refusal>)
    ensures
        refusal_view(refusal) == level_misfit(source@, placed_value(*value)),
{
    let ghost check = level_check(source@);
    if let Some(fields) = level_of(value) {
        let count = fields.count();
        let ghost entries = fields.entries();
        let mut at: usize = 0;
        while at < count
            invariant
                at <= count,
                count == entries.len(),
                entries == fields.entries(),
                fields_in(placed_value(*value), level_names()) == Some(entries),
                check == level_check(source@),
                first_misfit(check, entries, at as int) is None,
            decreases count - at,
        {
            if names_a_table(fields.key(at)) {
                let refusal = check_dependencies(source, fields.item(at));
                assert(refusal_view(refusal) == check(entries[at as int]));
                if refusal.is_some() {
                    proof {
                        misfit_stays(check, entries, at + 1, count as int);
                    }
                    return refusal;
                }
            }
            at = at + 1;
        }
        None
    } else {
        let what = met_at(source, value);
        Some(refuse(value, what.as_str(), "struct DepTables"))
    }
}

fn check_targets(source: &str, value: &Spanned<DeValue<'_>>) -> (refusal: Option<Refusal>)
    ensures
        refusal_view(refusal) == targets_misfit(source@, placed_value(*value)),
{
    let ghost check = target_check(source@);
    if let Some(table) = document::as_table(value) {
        let count = document::size(table);
        let ghost entries = entries_of(*table);
        let mut at: usize = 0;
        while at < count
            invariant
                at <= count,
                count == entries.len(),
                entries == entries_of(*table),
                placed_value(*value).value == TomlView::Table(entries),
                check == target_check(source@),
                first_misfit(check, entries, at as int) is None,
            decreases count - at,
        {
            let refusal = check_level(source, document::item(table, at));
            assert(refusal_view(refusal) == check(entries[at as int]));
            if refusal.is_some() {
                proof {
                    misfit_stays(check, entries, at + 1, count as int);
                }
                return refusal;
            }
            at = at + 1;
        }
        None
    } else {
        Some(refuse_map(source, value, "struct DepTables"))
    }
}

fn check_manifest(source: &str, table: &DeTable<'_>) -> (refusal: Option<Refusal>)
    ensures
        refusal_view(refusal) == table_misfit(manifest_check(source@), entries_of(*table)),
{
    let ghost check = manifest_check(source@);
    let count = document::size(table);
    let ghost entries = entries_of(*table);
    let mut at: usize = 0;
    while at < count
        invariant
            at <= count,
            count == entries.len(),
            entries == entries_of(*table),
            check == manifest_check(source@),
            first_misfit(check, entries, at as int) is None,
        decreases count - at,
    {
        let key = document::key(table, at);
        let mut refusal: Option<Refusal> = None;
        if names_a_table(key) {
            refusal = check_dependencies(source, document::item(table, at));
        } else if text::same(key, "target") {
            refusal = check_targets(source, document::item(table, at));
        }
        assert(refusal_view(refusal) == check(entries[at as int]));
        if refusal.is_some() {
            proof {
                misfit_stays(check, entries, at + 1, count as int);
            }
            return refusal;
        }
        at = at + 1;
    }
    None
}

/// The version that a dependency names, and where: the whole value of the string form, the value
/// of `version` in the table form. What stands beside `version` plays no part.
pub open spec fn version_of(spec: TomlPlaced) -> Option<(Seq<char>, TomlPlaced)> {
    match spec.value {
        TomlView::Text(version) => Some((version, spec)),
        TomlView::Table(entries) => match value_of(entries, "version"@) {
            Some(value) => match value.value {
                TomlView::Text(version) => Some((version, value)),
                _ => None,
            },
            None => None,
        },
        _ => None,
    }
}

fn named_version<'r>(spec: &'r Spanned<DeValue<'_>>) -> (named: Option<(&'r str, (usize, usize))>)
    ensures
        match (named, version_of(placed_value(*spec))) {
            (Some(named), Some(version)) => named.0@ == version.0 && named.1.0 == version.1.start
                && named.1.1 == version.1.end,
            (None, None) => true,
            _ => false,
        },
{
    if let Some(version) = document::as_text(spec) {
        return Some((version, document::span(spec)));
    }
    if let Some(table) = document::as_table(spec) {
        if let Some(value) = lookup(table, "version") {
            if let Some(version) = document::as_text(value) {
                return Some((version, document::span(value)));
            }
        }
    }
    None
}

/// One dependency that names a version, before its place is known by line and column.
pub struct FoundView {
    pub table: Seq<char>,
    pub dependency: Seq<char>,
    pub version: Seq<char>,
    pub bytes: nat,
}

struct Found {
    table: String,
    dependency: String,
    version: String,
    bytes: usize,
}

spec fn found_view() -> spec_fn(Found) -> FoundView {
    |found: Found|
        FoundView {
            table: found.table@,
            dependency: found.dependency@,
            version: found.version@,
            bytes: found.bytes as nat,
        }
}

/// The number of bytes between two offsets.
pub open spec fn extent(start: nat, end: nat) -> nat {
    if start <= end {
        (end - start) as nat
    } else {
        0
    }
}

/// The dependencies that name a version among the first `upto` of a dependency table, each with
/// the byte that the version starts at.
pub open spec fn versions_below(entries: Seq<TomlEntry>, label: Seq<char>, upto: int) -> Seq<
    (usize, FoundView),
>
    decreases upto,
{
    if upto <= 0 {
        Seq::empty()
    } else {
        let before = versions_below(entries, label, upto - 1);
        match version_of(entries[upto - 1].value) {
            Some((version, place)) => before.push(
                (
                    place.start as usize,
                    FoundView {
                        table: label,
                        dependency: entries[upto - 1].key,
                        version,
                        bytes: extent(place.start, place.end),
                    },
                ),
            ),
            None => before,
        }
    }
}

/// The dependencies of a table that name a version.
pub open spec fn versions_in(entries: Seq<TomlEntry>, label: Seq<char>) -> Seq<(usize, FoundView)> {
    versions_below(entries, label, entries.len() as int)
}

/// The table that counts when a manifest may hold it in two spellings: the hyphenated one, unless
/// it is empty.
pub open spec fn preferred(entries: Seq<TomlEntry>, hyphenated: Seq<char>, underscore: Seq<char>) -> Seq<
    TomlEntry,
> {
    if table_of(entries, hyphenated).len() == 0 {
        table_of(entries, underscore)
    } else {
        table_of(entries, hyphenated)
    }
}

/// The dependencies that name a version in the three dependency tables of one level.
pub open spec fn level_versions(entries: Seq<TomlEntry>, target: Option<Seq<char>>) -> Seq<
    (usize, FoundView),
> {
    versions_in(table_of(entries, "dependencies"@), table_label_text(target, "dependencies"@))
        + versions_in(
        preferred(entries, "dev-dependencies"@, "dev_dependencies"@),
        table_label_text(target, "dev-dependencies"@),
    ) + versions_in(
        preferred(entries, "build-dependencies"@, "build_dependencies"@),
        table_label_text(target, "build-dependencies"@),
    )
}

/// The dependencies that name a version under the first `upto` targets.
pub open spec fn target_versions(targets: Seq<TomlEntry>, upto: int) -> Seq<(usize, FoundView)>
    decreases upto,
{
    if upto <= 0 {
        Seq::empty()
    } else {
        target_versions(targets, upto - 1) + (match fields_in(
            targets[upto - 1].value,
            level_names(),
        ) {
            Some(level) => level_versions(level, Some(targets[upto - 1].key)),
            None => Seq::empty(),
        })
    }
}

/// The dependencies that name a version in a manifest, table by table.
pub open spec fn manifest_versions(entries: Seq<TomlEntry>) -> Seq<(usize, FoundView)> {
    let targets = table_of(entries, "target"@);
    level_versions(entries, None) + target_versions(targets, targets.len() as int)
}

/// Adds the dependencies of `table` that name a version, in the order of their places.
fn collect_table(
    table: &DeTable<'_>,
    label: &str,
    found: &mut Vec<(usize, Found)>,
    Ghost(items): Ghost<Seq<(usize, FoundView)>>,
)
    requires
        order::turned(old(found)@, found_view()) == by_offset(items),
    ensures
        order::turned(final(found)@, found_view()) == by_offset(
            items + versions_in(entries_of(*table), label@),
        ),
{
    let count = document::size(table);
    let ghost entries = entries_of(*table);
    let mut at: usize = 0;
    assert(items + versions_below(entries, label@, 0) =~= items);
    while at < count
        invariant
            at <= count,
            count == entries.len(),
            entries == entries_of(*table),
            order::turned(found@, found_view()) == by_offset(
                items + versions_below(entries, label@, at as int),
            ),
        decreases count - at,
    {
        let named = named_version(document::item(table, at));
        let ghost so_far = items + versions_below(entries, label@, at as int);
        if let Some((version, (start, end))) = named {
            let bytes: usize = if start <= end {
                end - start
            } else {
                0
            };
            let entry = Found {
                table: label.to_owned(),
                dependency: document::key(table, at).to_owned(),
                version: version.to_owned(),
                bytes,
            };
            proof {
                order::putting_sorts(found@, found_view(), so_far, start, entry);
                assert(items + versions_below(entries, label@, at + 1) =~= so_far.push(
                    (start, found_view()(entry)),
                ));
            }
            order::put(found, start, entry);
        }
        at = at + 1;
    }
}

/// Adds the dependencies that name a version in the three tables of one level.
fn collect_tables(
    level: &Fields<'_, '_>,
    target: Option<&str>,
    found: &mut Vec<(usize, Found)>,
    Ghost(items): Ghost<Seq<(usize, FoundView)>>,
)
    requires
        order::turned(old(found)@, found_view()) == by_offset(items),
    ensures
        order::turned(final(found)@, found_view()) == by_offset(
            items + level_versions(
                level.entries(),
                match target {
                    Some(target) => Some(target@),
                    None => None,
                },
            ),
        ),
{
    let ghost entries = level.entries();
    let ghost under = match target {
        Some(target) => Some(target@),
        None => None,
    };
    let ghost first = versions_in(
        table_of(entries, "dependencies"@),
        table_label_text(under, "dependencies"@),
    );
    let ghost second = versions_in(
        preferred(entries, "dev-dependencies"@, "dev_dependencies"@),
        table_label_text(under, "dev-dependencies"@),
    );
    let ghost third = versions_in(
        preferred(entries, "build-dependencies"@, "build_dependencies"@),
        table_label_text(under, "build-dependencies"@),
    );
    if let Some(table) = level.table_at("dependencies") {
        let label = table_label(target, "dependencies");
        collect_table(table, label.as_str(), found, Ghost(items));
    } else {
        assert(items + first =~= items);
    }
    if let Some(table) = prefer_hyphenated(level, "dev-dependencies", "dev_dependencies") {
        let label = table_label(target, "dev-dependencies");
        collect_table(table, label.as_str(), found, Ghost(items + first));
    } else {
        assert(items + first + second =~= items + first);
    }
    if let Some(table) = prefer_hyphenated(level, "build-dependencies", "build_dependencies") {
        let label = table_label(target, "build-dependencies");
        collect_table(table, label.as_str(), found, Ghost(items + first + second));
    } else {
        assert(items + first + second + third =~= items + first + second);
    }
    assert(items + level_versions(entries, under) =~= items + first + second + third);
}

/// Cargo's precedence when both spellings of a table are present: the hyphenated one.
fn prefer_hyphenated<'r, 't>(level: &Fields<'r, 't>, hyphenated: &str, underscore: &str) -> (table:
    Option<&'r DeTable<'t>>)
    ensures
        preferred(level.entries(), hyphenated@, underscore@) == (match table {
            Some(table) => entries_of(*table),
            None => Seq::empty(),
        }),
{
    if let Some(table) = level.table_at(hyphenated) {
        if document::size(table) > 0 {
            return Some(table);
        }
    }
    level.table_at(underscore)
}

/// One entry of the report for each dependency that was found.
pub open spec fn reported(
    package: Seq<char>,
    path: Seq<char>,
    text: Seq<char>,
    found: Seq<(usize, FoundView)>,
) -> Seq<ManifestEntryView> {
    Seq::new(
        found.len(),
        |i: int|
            ManifestEntryView {
                package,
                table: found[i].1.table,
                dependency: found[i].1.dependency,
                version: found[i].1.version,
                span: place_in(path, text, found[i].0),
                span_bytes: found[i].1.bytes,
            },
    )
}

/// What the rule says of the manifest `text` at `path`, whose root table holds `entries`: the
/// first value that may not stand where it does, or every dependency that names a version, by
/// place.
pub open spec fn scanned_entries(
    package: Seq<char>,
    path: Seq<char>,
    text: Seq<char>,
    entries: Seq<TomlEntry>,
) -> Result<Seq<ManifestEntryView>, ErrorView> {
    match table_misfit(manifest_check(text), entries) {
        Some(misfit) => Err(
            ErrorView::ManifestParse {
                path,
                cause: annotated(text, misfit.start, misfit.end, misfit.message),
            },
        ),
        None => Ok(reported(package, path, text, by_offset(manifest_versions(entries)))),
    }
}

/// What the rule says of the manifest `text` at `path`.
pub open spec fn scanned(package: Seq<char>, path: Seq<char>, text: Seq<char>) -> Result<
    Seq<ManifestEntryView>,
    ErrorView,
> {
    match parsed(text) {
        Ok(entries) => scanned_entries(package, path, text, entries),
        Err((fault, _)) => Err(ErrorView::ManifestParse { path, cause: fault }),
    }
}

/// The characters of what a scan gives.
pub open spec fn scan_view(result: Result<Vec<ManifestViolation>, Error>) -> Result<
    Seq<ManifestEntryView>,
    ErrorView,
> {
    match result {
        Ok(entries) => Ok(manifest_views(entries@)),
        Err(error) => Err(error@),
    }
}

/// Scans one parsed manifest for dependency entries that name a version. `document` is the root
/// table of `text`.
///
/// # Errors
///
/// Returns [`Error::ManifestParse`] when a dependency entry is neither a string nor a table, or
/// a table that the rule reads is none.
pub fn scan_document(member: &ManifestInput, text: &str, document: &DeTable<'_>) -> (result: Result<
    Vec<ManifestViolation>,
    Error,
>)
    ensures
        scan_view(result) == scanned_entries(
            member.package@,
            member.path@,
            text@,
            entries_of(*document),
        ),
{
    if let Some(refusal) = check_manifest(text, document) {
        let cause = source::annotate(text, refusal.start, refusal.end, refusal.message.as_str());
        return Err(Error::ManifestParse { path: member.path.as_str().to_owned(), cause });
    }
    let ghost entries = entries_of(*document);
    let mut found: Vec<(usize, Found)> = Vec::new();
    let ghost mut items: Seq<(usize, FoundView)> = Seq::empty();
    assert(order::turned(found@, found_view()) =~= by_offset(items));
    collect_tables(&Fields::Keyed(document), None, &mut found, Ghost(items));
    proof {
        items = level_versions(entries, None);
        assert(Seq::<(usize, FoundView)>::empty() + items =~= items);
    }
    let ghost targets = table_of(entries, "target"@);
    if let Some(table) = table_at(document, "target") {
        let count = document::size(table);
        let mut at: usize = 0;
        assert(items + target_versions(targets, 0) =~= items);
        while at < count
            invariant
                at <= count,
                count == targets.len(),
                targets == entries_of(*table),
                order::turned(found@, found_view()) == by_offset(
                    items + target_versions(targets, at as int),
                ),
            decreases count - at,
        {
            let ghost so_far = items + target_versions(targets, at as int);
            if let Some(level) = level_of(document::item(table, at)) {
                collect_tables(
                    &level,
                    Some(document::key(table, at)),
                    &mut found,
                    Ghost(so_far),
                );
                assert(items + target_versions(targets, at + 1) =~= so_far + level_versions(
                    level.entries(),
                    Some(targets[at as int].key),
                ));
            } else {
                assert(items + target_versions(targets, at + 1) =~= so_far);
            }
            at = at + 1;
        }
    } else {
        assert(items + target_versions(targets, 0) =~= items);
    }
    let ghost sorted = by_offset(manifest_versions(entries));
    let mut result: Vec<ManifestViolation> = Vec::new();
    let mut at: usize = 0;
    while at < found.len()
        invariant
            at <= found@.len(),
            order::turned(found@, found_view()) == sorted,
            result@.len() == at,
            forall|i: int|
                0 <= i < at ==> (#[trigger] result@[i])@ == reported(
                    member.package@,
                    member.path@,
                    text@,
                    sorted,
                )[i],
        decreases found@.len() - at,
    {
        let (offset, entry) = &found[at];
        assert(sorted[at as int] == (*offset, found_view()(*entry)));
        result.push(
            ManifestViolation {
                package: member.package.as_str().to_owned(),
                table: entry.table.as_str().to_owned(),
                dependency: entry.dependency.as_str().to_owned(),
                version: entry.version.as_str().to_owned(),
                span: source_span(member.path.as_str(), text, *offset),
                span_bytes: entry.bytes,
            },
        );
        at = at + 1;
    }
    assert(sorted.len() == found@.len());
    assert(manifest_views(result@) =~= reported(member.package@, member.path@, text@, sorted));
    Ok(result)
}

/// Scans one manifest's text for dependency entries that name a version.
///
/// The returned violations are sorted by source offset and carry `member.path` in their spans.
///
/// # Errors
///
/// Returns [`Error::ManifestParse`] when `text` is not valid TOML or a dependency entry is
/// neither a string nor a table.
pub fn scan_manifest(member: &ManifestInput, text: &str) -> (result: Result<
    Vec<ManifestViolation>,
    Error,
>)
    ensures
        scan_view(result) == scanned(member.package@, member.path@, text@),
{
    match document::parse(text) {
        Ok(table) => scan_document(member, text, &table),
        Err((cause, _)) => Err(
            Error::ManifestParse { path: member.path.as_str().to_owned(), cause },
        ),
    }
}

/// What the rule says of one member, given its manifest or why that could not be read.
pub open spec fn member_scan(member: ManifestInput, text: Result<String, String>) -> Result<
    Seq<ManifestEntryView>,
    ErrorView,
> {
    match text {
        Ok(text) => scanned(member.package@, member.path@, text@),
        Err(cause) => Err(ErrorView::ManifestRead { path: member.path@, cause: cause@ }),
    }
}

/// The number of bytes of a manifest that was read.
pub open spec fn bytes_of(text: Result<String, String>) -> nat {
    match text {
        Ok(text) => source::size(text@),
        Err(_) => 0,
    }
}

/// A [`ManifestReport`] by the characters of its strings.
pub struct ReportView {
    pub entries: Seq<ManifestEntryView>,
    pub manifests_scanned: nat,
    pub bytes_scanned: nat,
    pub root_workspace_dependencies: Option<bool>,
}

impl View for ManifestReport {
    type V = ReportView;

    open spec fn view(&self) -> ReportView {
        ReportView {
            entries: manifest_views(self.entries@),
            manifests_scanned: self.manifests_scanned as nat,
            bytes_scanned: self.bytes_scanned as nat,
            root_workspace_dependencies: self.root_workspace_dependencies,
        }
    }
}

/// What the rule says of the first `upto` members: the first error, or all their entries, how
/// many manifests there were and how many bytes, as far as the counters go.
pub open spec fn report_below(reads: Seq<(ManifestInput, Result<String, String>)>, upto: int) -> Result<
    ReportView,
    ErrorView,
>
    decreases upto,
{
    if upto <= 0 {
        Ok(
            ReportView {
                entries: Seq::empty(),
                manifests_scanned: 0,
                bytes_scanned: 0,
                root_workspace_dependencies: None,
            },
        )
    } else {
        match report_below(reads, upto - 1) {
            Err(error) => Err(error),
            Ok(report) => {
                let (member, text) = reads[upto - 1];
                match member_scan(member, text) {
                    Err(error) => Err(error),
                    Ok(entries) => Ok(
                        ReportView {
                            entries: report.entries + entries,
                            manifests_scanned: saturated(report.manifests_scanned + 1),
                            bytes_scanned: if report.bytes_scanned + bytes_of(text) > u64::MAX {
                                u64::MAX as nat
                            } else {
                                report.bytes_scanned + bytes_of(text)
                            },
                            root_workspace_dependencies: None,
                        },
                    ),
                }
            },
        }
    }
}

proof fn report_error_stays(
    reads: Seq<(ManifestInput, Result<String, String>)>,
    upto: int,
    more: int,
)
    requires
        report_below(reads, upto) is Err,
        upto <= more,
    ensures
        report_below(reads, more) == report_below(reads, upto),
    decreases more - upto,
{
    if upto < more {
        report_error_stays(reads, upto, more - 1);
    }
}

/// The characters of what the rule gives.
pub open spec fn report_view(result: Result<ManifestReport, Error>) -> Result<ReportView, ErrorView> {
    match result {
        Ok(report) => Ok(report@),
        Err(error) => Err(error@),
    }
}

/// Runs the manifest rule over the given member manifests: each member with the text of its
/// manifest, or with the reason why that could not be read.
///
/// Violations are collected in the order the members are given and, within one manifest, by
/// source offset.
///
/// # Errors
///
/// Returns [`Error::ManifestRead`] when a manifest could not be read and
/// [`Error::ManifestParse`] when it is not valid TOML or a dependency entry has a shape Cargo
/// would reject. A manifest that cannot be checked is never silently skipped.
pub fn check_versions_in_root(reads: &Vec<(ManifestInput, Result<String, String>)>) -> (result:
    Result<ManifestReport, Error>)
    ensures
        report_view(result) == report_below(reads@, reads@.len() as int),
{
    let mut report = ManifestReport::default();
    let mut at: usize = 0;
    assert(manifest_views(report.entries@) =~= Seq::<ManifestEntryView>::empty());
    while at < reads.len()
        invariant
            at <= reads@.len(),
            report_below(reads@, at as int) == Ok::<ReportView, ErrorView>(report@),
        decreases reads@.len() - at,
    {
        let (member, text) = &reads[at];
        let text = match text {
            Ok(text) => text,
            Err(cause) => {
                proof {
                    report_error_stays(reads@, at + 1, reads@.len() as int);
                }
                return Err(
                    Error::ManifestRead {
                        path: member.path.as_str().to_owned(),
                        cause: cause.as_str().to_owned(),
                    },
                );
            },
        };
        let mut entries = match scan_manifest(member, text.as_str()) {
            Ok(entries) => entries,
            Err(error) => {
                proof {
                    report_error_stays(reads@, at + 1, reads@.len() as int);
                }
                return Err(error);
            },
        };
        let ghost before = report@;
        let ghost more = manifest_views(entries@);
        let ghost listed = report.entries@;
        let ghost added = entries@;
        report.entries.append(&mut entries);
        assert(manifest_views(listed + added) =~= before.entries + more);
        report.manifests_scanned = source::one_more(report.manifests_scanned);
        let bytes: usize = text.as_str().as_bytes().len();
        report.bytes_scanned =
        if report.bytes_scanned <= u64::MAX - bytes as u64 {
            report.bytes_scanned + bytes as u64
        } else {
            u64::MAX
        };
        at = at + 1;
    }
    Ok(report)
}

/// Whether a manifest holds a `[workspace.dependencies]` table.
pub open spec fn centralises(entries: Seq<TomlEntry>) -> bool {
    match value_of(table_of(entries, "workspace"@), "dependencies"@) {
        Some(value) => value.value is Table,
        None => false,
    }
}

/// Whether a manifest holds a `[workspace.dependencies]` table, when it could be read and is
/// valid TOML.
pub open spec fn centralising(text: Option<Seq<char>>) -> Option<bool> {
    match text {
        Some(text) => match parsed(text) {
            Ok(entries) => Some(centralises(entries)),
            Err(_) => None,
        },
        None => None,
    }
}

/// Whether the workspace-owning manifest has a `[workspace.dependencies]` table; `None` when the
/// manifest could not be read or is not valid TOML.
#[must_use]
pub fn centralises_versions(root_manifest: Option<&str>) -> (answer: Option<bool>)
    ensures
        answer == centralising(
            match root_manifest {
                Some(text) => Some(text@),
                None => None,
            },
        ),
{
    match root_manifest {
        Some(text) => match document::parse(text) {
            Ok(table) => Some(holds_workspace_dependencies(&table)),
            Err(_) => None,
        },
        None => None,
    }
}

/// Whether the root table `document` holds a `[workspace.dependencies]` table.
#[must_use]
pub fn holds_workspace_dependencies(document: &DeTable<'_>) -> (held: bool)
    ensures
        held == centralises(entries_of(*document)),
{
    if let Some(workspace) = table_at(document, "workspace") {
        if let Some(value) = lookup(workspace, "dependencies") {
            return document::as_table(value).is_some();
        }
    }
    false
}

/// The entries of a report follow the source, and every dependency that names a version is
/// among them once.
pub proof fn entries_follow_the_source(entries: Seq<TomlEntry>)
    ensures
        by_offset(manifest_versions(entries)).to_multiset() == manifest_versions(
            entries,
        ).to_multiset(),
        forall|i: int, j: int|
            0 <= i <= j < by_offset(manifest_versions(entries)).len() ==> (
            #[trigger] by_offset(manifest_versions(entries))[i]).0 <= (
            #[trigger] by_offset(manifest_versions(entries))[j]).0,
{
    order::sorting_is_sorting(manifest_versions(entries));
}

proof fn other_entries_hide_nothing(
    entries: Seq<TomlEntry>,
    at: int,
    other: TomlEntry,
    key: Seq<char>,
    upto: int,
)
    requires
        0 <= at <= entries.len(),
        other.key != key,
        0 <= upto <= entries.len() + 1,
    ensures
        find(entries.insert(at, other), key, upto) == find(
            entries,
            key,
            if upto <= at {
                upto
            } else {
                upto - 1
            },
        ),
    decreases upto,
{
    if upto > 0 {
        other_entries_hide_nothing(entries, at, other, key, upto - 1);
        let more = entries.insert(at, other);
        if upto <= at {
            assert(more[upto - 1] == entries[upto - 1]);
        } else if upto - 1 == at {
            assert(more[upto - 1] == other);
        } else {
            assert(more[upto - 1] == entries[upto - 2]);
        }
    }
}

proof fn other_entries_do_no_harm(
    check: spec_fn(TomlEntry) -> Option<Misfit>,
    entries: Seq<TomlEntry>,
    at: int,
    other: TomlEntry,
    upto: int,
)
    requires
        0 <= at <= entries.len(),
        check(other) is None,
        0 <= upto <= entries.len() + 1,
    ensures
        first_misfit(check, entries.insert(at, other), upto) == first_misfit(
            check,
            entries,
            if upto <= at {
                upto
            } else {
                upto - 1
            },
        ),
    decreases upto,
{
    if upto > 0 {
        other_entries_do_no_harm(check, entries, at, other, upto - 1);
        let more = entries.insert(at, other);
        if upto <= at {
            assert(more[upto - 1] == entries[upto - 1]);
        } else if upto - 1 == at {
            assert(more[upto - 1] == other);
        } else {
            assert(more[upto - 1] == entries[upto - 2]);
        }
    }
}

/// What the rule says of a manifest does not depend on any other top-level key than the
/// dependency tables and `target`: not on `workspace`, whose version list it protects, and not on
/// array-of-tables such as `[[test]]`, wherever they stand.
pub proof fn other_tables_are_ignored(
    package: Seq<char>,
    path: Seq<char>,
    text: Seq<char>,
    entries: Seq<TomlEntry>,
    at: int,
    other: TomlEntry,
)
    requires
        0 <= at <= entries.len(),
        !is_table_key(other.key),
        other.key != "target"@,
    ensures
        scanned_entries(package, path, text, entries.insert(at, other)) == scanned_entries(
            package,
            path,
            text,
            entries,
        ),
{
    let more = entries.insert(at, other);
    let upto = more.len() as int;
    other_entries_do_no_harm(manifest_check(text), entries, at, other, upto);
    other_entries_hide_nothing(entries, at, other, "dependencies"@, upto);
    other_entries_hide_nothing(entries, at, other, "dev-dependencies"@, upto);
    other_entries_hide_nothing(entries, at, other, "dev_dependencies"@, upto);
    other_entries_hide_nothing(entries, at, other, "build-dependencies"@, upto);
    other_entries_hide_nothing(entries, at, other, "build_dependencies"@, upto);
    other_entries_hide_nothing(entries, at, other, "target"@, upto);
}

/// A `path`, `git`, `workspace` or any other key beside `version` neither hides the version nor
/// moves its place.
pub proof fn companions_do_not_hide_a_version(
    spec: TomlPlaced,
    entries: Seq<TomlEntry>,
    at: int,
    other: TomlEntry,
)
    requires
        spec.value == TomlView::Table(entries),
        0 <= at <= entries.len(),
        other.key != "version"@,
    ensures
        version_of(
            TomlPlaced {
                value: TomlView::Table(entries.insert(at, other)),
                start: spec.start,
                end: spec.end,
            },
        ) == version_of(spec),
{
    other_entries_hide_nothing(entries, at, other, "version"@, entries.len() as int + 1);
}

proof fn version_is_flagged(entries: Seq<TomlEntry>, label: Seq<char>, at: int, upto: int) -> (k: int)
    requires
        0 <= at < upto <= entries.len(),
        version_of(entries[at].value) is Some,
    ensures
        0 <= k < versions_below(entries, label, upto).len(),
        versions_below(entries, label, upto)[k].1.dependency == entries[at].key,
        versions_below(entries, label, upto)[k].1.version == (version_of(entries[at].value)->0).0,
    decreases upto,
{
    if at == upto - 1 {
        versions_below(entries, label, upto).len() - 1
    } else {
        version_is_flagged(entries, label, at, upto - 1)
    }
}

proof fn flag_has_a_version(entries: Seq<TomlEntry>, label: Seq<char>, k: int, upto: int) -> (at: int)
    requires
        0 <= upto <= entries.len(),
        0 <= k < versions_below(entries, label, upto).len(),
    ensures
        0 <= at < upto,
        version_of(entries[at].value) is Some,
        versions_below(entries, label, upto)[k].1.dependency == entries[at].key,
        versions_below(entries, label, upto)[k].1.version == (version_of(entries[at].value)->0).0,
    decreases upto,
{
    if k < versions_below(entries, label, upto - 1).len() {
        flag_has_a_version(entries, label, k, upto - 1)
    } else {
        upto - 1
    }
}

/// Whether an entry of a report stands for a dependency of a table.
pub open spec fn flags(found: FoundView, entry: TomlEntry) -> bool {
    match version_of(entry.value) {
        Some((version, _)) => found.dependency == entry.key && found.version == version,
        None => false,
    }
}

/// A dependency is flagged exactly when it names a version.
pub proof fn exactly_the_versions_are_flagged(entries: Seq<TomlEntry>, label: Seq<char>)
    ensures
        forall|at: int|
            0 <= at < entries.len() && version_of((#[trigger] entries[at]).value) is Some
                ==> exists|k: int|
                0 <= k < versions_in(entries, label).len() && flags(
                    (#[trigger] versions_in(entries, label)[k]).1,
                    entries[at],
                ),
        forall|k: int|
            0 <= k < versions_in(entries, label).len() ==> exists|at: int|
                0 <= at < entries.len() && flags(
                    (#[trigger] versions_in(entries, label)[k]).1,
                    #[trigger] entries[at],
                ),
{
    assert forall|at: int|
        0 <= at < entries.len() && version_of((#[trigger] entries[at]).value) is Some implies exists|
        k: int,
    |
        0 <= k < versions_in(entries, label).len() && flags(
            (#[trigger] versions_in(entries, label)[k]).1,
            entries[at],
        ) by {
        let k = version_is_flagged(entries, label, at, entries.len() as int);
        assert(flags(versions_in(entries, label)[k].1, entries[at]));
    }
    assert forall|k: int| 0 <= k < versions_in(entries, label).len() implies exists|at: int|
        0 <= at < entries.len() && flags(
            (#[trigger] versions_in(entries, label)[k]).1,
            #[trigger] entries[at],
        ) by {
        let at = flag_has_a_version(entries, label, k, entries.len() as int);
        assert(flags(versions_in(entries, label)[k].1, entries[at]));
    }
}

} // verus!
