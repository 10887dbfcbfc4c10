//! The three report renderers and what they share.

pub mod github;
pub mod human;
pub mod json;

use crate::config::SourceData;
use crate::pipeline::Outcome;
use crate::rules::{violation_views, Violation, ViolationView};
use crate::text::{self, text_view};
use vstd::prelude::*;

verus! {

/// The selected diagnostic output format.
#[derive(Clone, Copy, Debug, PartialEq, Eq)]
#[non_exhaustive]
pub enum Format {
    /// Render the human-readable diagnostic report.
    Human,
    /// Render the structured JSON report.
    Json,
    /// Render GitHub Actions annotations followed by the human report.
    Github,
}

/// Shared rendering inputs independent of the outcome itself.
#[derive(Clone, Debug)]
#[non_exhaustive]
pub struct RenderContext {
    /// The workspace root used to relativize source paths.
    pub workspace_root: String,
    /// The tool name written by structured reporters.
    pub tool: &'static str,
    /// The tool version written by structured reporters.
    pub version: &'static str,
    /// Whether ANSI styling should be emitted by the human reporter.
    pub color: bool,
    /// The repository checkout that GitHub Actions anchors annotations at, when it is known.
    pub github_workspace: Option<String>,
}

impl RenderContext {
    /// Builds a rendering context; the struct is `#[non_exhaustive]`, so this is the only way
    /// to construct one outside the crate.
    #[must_use]
    pub fn new(
        workspace_root: String,
        tool: &'static str,
        version: &'static str,
        color: bool,
    ) -> (context: RenderContext)
        ensures
            context.workspace_root == workspace_root,
            context.tool == tool,
            context.version == version,
            context.color == color,
            context.github_workspace is None,
    {
        RenderContext { workspace_root, tool, version, color, github_workspace: None }
    }

    /// Sets the repository checkout that annotations are anchored at. An empty path is no path.
    #[must_use]
    pub fn with_github_workspace(self, github_workspace: Option<String>) -> (context: RenderContext)
        ensures
            context == (RenderContext { github_workspace: context.github_workspace, ..self }),
            github_workspace is Some && github_workspace->0@.len() > 0 ==> context.github_workspace
                == github_workspace,
            !(github_workspace is Some && github_workspace->0@.len() > 0)
                ==> context.github_workspace is None,
    {
        let anchored = match &github_workspace {
            Some(path) => text::chars_of(path.as_str()).len() > 0,
            None => false,
        };
        RenderContext {
            github_workspace: if anchored {
                github_workspace
            } else {
                None
            },
            ..self
        }
    }
}

/// Path and text of each file.
pub open spec fn source_views(sources: Seq<SourceData>) -> Seq<(Seq<char>, Seq<char>)> {
    Seq::new(sources.len(), |i: int| (sources[i].path@, sources[i].text@))
}

/// The text of the file at `path`, when it is among the first `upto` of `sources`.
pub open spec fn source_below(
    sources: Seq<(Seq<char>, Seq<char>)>,
    path: Seq<char>,
    upto: int,
) -> Option<Seq<char>>
    decreases upto,
{
    if upto <= 0 {
        None
    } else if sources[upto - 1].0 == path {
        Some(sources[upto - 1].1)
    } else {
        source_below(sources, path, upto - 1)
    }
}

/// The text of the file at `path`, when it could be read.
pub open spec fn source_at(sources: Seq<(Seq<char>, Seq<char>)>, path: Seq<char>) -> Option<Seq<char>> {
    source_below(sources, path, sources.len() as int)
}

/// Looks up the text of the file at `path`.
pub(crate) fn find_source<'s>(sources: &'s Vec<SourceData>, path: &str) -> (text: Option<&'s str>)
    ensures
        (match text {
            Some(text) => Some(text@),
            None => None,
        }) == source_at(source_views(sources@), path@),
{
    let ghost views = source_views(sources@);
    let mut at: usize = sources.len();
    while at > 0
        invariant
            views == source_views(sources@),
            at <= sources@.len(),
            source_at(views, path@) == source_below(views, path@, at as int),
        decreases at,
    {
        at = at - 1;
        if text::same(sources[at].path.as_str(), path) {
            return Some(sources[at].text.as_str());
        }
    }
    None
}

/// The evidence of the rule `id` among the first `upto` violations.
pub open spec fn evidence_below(violations: Seq<ViolationView>, id: Seq<char>, upto: int) -> Option<
    ViolationView,
>
    decreases upto,
{
    if upto <= 0 {
        None
    } else if violations[upto - 1].rule_id == id {
        Some(violations[upto - 1])
    } else {
        evidence_below(violations, id, upto - 1)
    }
}

/// The evidence of the rule `id`.
pub open spec fn evidence_of(violations: Seq<ViolationView>, id: Seq<char>) -> Option<ViolationView> {
    evidence_below(violations, id, violations.len() as int)
}

/// Pairs a failed rule with its violation.
pub(crate) fn violation_lookup<'v>(violations: &'v Vec<Violation>, id: &str) -> (violation: Option<
    &'v Violation,
>)
    ensures
        (match violation {
            Some(violation) => Some(violation@),
            None => None,
        }) == evidence_of(violation_views(violations@), id@),
{
    let ghost views = violation_views(violations@);
    let mut at: usize = violations.len();
    while at > 0
        invariant
            views == violation_views(violations@),
            at <= violations@.len(),
            evidence_of(views, id@) == evidence_below(views, id@, at as int),
        decreases at,
    {
        at = at - 1;
        assert(views[at as int] == violations@[at as int]@);
        if text::same(violations[at].rule_id.as_str(), id) {
            return Some(&violations[at]);
        }
    }
    None
}

/// What `write` makes of each of the first `upto` of `items`, one after the other.
pub open spec fn written_below<T>(items: Seq<T>, write: spec_fn(T) -> Seq<char>, upto: int) -> Seq<char>
    decreases upto,
{
    if upto <= 0 {
        Seq::empty()
    } else {
        written_below(items, write, upto - 1) + write(items[upto - 1])
    }
}

/// What `write` makes of each of `items`, one after the other.
pub open spec fn written<T>(items: Seq<T>, write: spec_fn(T) -> Seq<char>) -> Seq<char> {
    written_below(items, write, items.len() as int)
}

/// A rendered report.
#[derive(Clone, Debug)]
pub enum Rendered<'a> {
    /// A text, to be written as it is.
    Text(String),
    /// A structured report, to be serialized.
    Document(json::Report<'a>),
}

/// Renders `outcome` in the selected `format`. `sources` holds the files that findings stand in,
/// as far as they could be read.
pub fn render<'a>(
    format: Format,
    outcome: &'a Outcome,
    ctx: &RenderContext,
    sources: &Vec<SourceData>,
) -> (rendered: Rendered<'a>)
    ensures
        match format {
            Format::Human => rendered matches Rendered::Text(report) && report@
                == human::human_text(outcome@, source_views(sources@), ctx.color),
            Format::Github => rendered matches Rendered::Text(report) && report@
                == github::github_text(
                outcome@,
                text_view(ctx.github_workspace),
                source_views(sources@),
                ctx.color,
            ),
            Format::Json => rendered matches Rendered::Document(report) && json::reports(
                report,
                outcome@,
                *ctx,
            ),
        },
{
    match format {
        Format::Human => Rendered::Text(human::render(outcome, ctx, sources)),
        Format::Json => Rendered::Document(json::render(outcome, ctx)),
        Format::Github => Rendered::Text(github::render(outcome, ctx, sources)),
    }
}

} // verus!
