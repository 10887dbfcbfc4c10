//! Human-readable diagnostics with source annotations and dependency witnesses.
//!
//! A finding is shown under the line of the file that it stands in, when that file could be read,
//! and on a single line otherwise.

use super::{
    evidence_of, find_source, source_at, source_views, violation_lookup, written, written_below,
    RenderContext,
};
use crate::config::{SourceData, Span};
use crate::features::selection_text;
use crate::files::{self, shown};
use crate::manifest::{self, ManifestEntryView, ManifestViolation};
use crate::pipeline::{version_named, Outcome, OutcomeView};
use crate::rules::{
    hop_views, match_views, sealed_views, HopView, Match, MatchView, RuleStatus, SealedEntry,
    SealedView, StatusView, Violation, ViolationView, WitnessHop,
};
use crate::source::{self, is_boundary, line_stop, offset_of};
use crate::text::{self, decimal, joined, quoted, texts};
use annotate_snippets::{AnnotationKind, Level, Renderer, Snippet};
use anstyle::{AnsiColor, Style};
use vstd::prelude::*;

verus! {

/// The drawing of an error with an id under its source line, with or without colors.
pub uninterp spec fn drawn(
    source: Seq<char>,
    path: Seq<char>,
    title: Seq<char>,
    id: Seq<char>,
    label: Seq<char>,
    start: nat,
    end: nat,
    color: bool,
) -> Seq<char>;

/// `annotate_snippets::Renderer::plain` and `Renderer::render` on one error with an id, one source
/// and one primary annotation: the drawing depends on these alone. The bytes `start..end` must be
/// bytes of the source, and start and end between characters; they may be of any width and stand
/// on any number of lines.
#[verifier::external_body]
fn draw_plain(
    source: &str,
    path: &str,
    title: &str,
    id: &str,
    label: &str,
    start: usize,
    end: usize,
) -> (drawing: String)
    requires
        start < end,
        is_boundary(source@, start as nat),
        is_boundary(source@, end as nat),
    ensures
        drawing@ == drawn(
            source@,
            path@,
            title@,
            id@,
            label@,
            start as nat,
            end as nat,
            false,
        ),
{
    let note = AnnotationKind::Primary.span(start..end).label(label);
    let snippet = Snippet::source(source).path(path).annotation(note);
    let report = [Level::ERROR.primary_title(title).id(id).element(snippet)];
    Renderer::plain().render(&report)
}

/// `annotate_snippets::Renderer::styled` and `Renderer::render` on one error with an id, one source
/// and one primary annotation: the drawing depends on these alone. The bytes `start..end` must be
/// bytes of the source, and start and end between characters; they may be of any width and stand
/// on any number of lines.
#[verifier::external_body]
fn draw_styled(
    source: &str,
    path: &str,
    title: &str,
    id: &str,
    label: &str,
    start: usize,
    end: usize,
) -> (drawing: String)
    requires
        start < end,
        is_boundary(source@, start as nat),
        is_boundary(source@, end as nat),
    ensures
        drawing@ == drawn(
            source@,
            path@,
            title@,
            id@,
            label@,
            start as nat,
            end as nat,
            true,
        ),
{
    let note = AnnotationKind::Primary.span(start..end).label(label);
    let snippet = Snippet::source(source).path(path).annotation(note);
    let report = [Level::ERROR.primary_title(title).id(id).element(snippet)];
    Renderer::styled().render(&report)
}

/// Draws an error with an id under its source line.
fn draw(
    source: &str,
    path: &str,
    title: &str,
    id: &str,
    label: &str,
    start: usize,
    end: usize,
    color: bool,
) -> (drawing: String)
    requires
        start < end,
        is_boundary(source@, start as nat),
        is_boundary(source@, end as nat),
    ensures
        drawing@ == drawn(
            source@,
            path@,
            title@,
            id@,
            label@,
            start as nat,
            end as nat,
            color,
        ),
{
    if color {
        draw_styled(source, path, title, id, label, start, end)
    } else {
        draw_plain(source, path, title, id, label, start, end)
    }
}

/// The drawing of an error without an id under its source line, with or without colors.
pub uninterp spec fn drawn_without_id(
    source: Seq<char>,
    path: Seq<char>,
    title: Seq<char>,
    label: Seq<char>,
    start: nat,
    end: nat,
    color: bool,
) -> Seq<char>;

/// `annotate_snippets::Renderer::plain` and `Renderer::render` on one error without an id, one
/// source and one primary annotation, under the conditions of [`draw_plain`].
#[verifier::external_body]
fn draw_without_id_plain(
    source: &str,
    path: &str,
    title: &str,
    label: &str,
    start: usize,
    end: usize,
) -> (drawing: String)
    requires
        start < end,
        is_boundary(source@, start as nat),
        is_boundary(source@, end as nat),
    ensures
        drawing@ == drawn_without_id(
            source@,
            path@,
            title@,
            label@,
            start as nat,
            end as nat,
            false,
        ),
{
    let note = AnnotationKind::Primary.span(start..end).label(label);
    let snippet = Snippet::source(source).path(path).annotation(note);
    let report = [Level::ERROR.primary_title(title).element(snippet)];
    Renderer::plain().render(&report)
}

/// `annotate_snippets::Renderer::styled` and `Renderer::render` on one error without an id, one
/// source and one primary annotation, under the conditions of [`draw_styled`].
#[verifier::external_body]
fn draw_without_id_styled(
    source: &str,
    path: &str,
    title: &str,
    label: &str,
    start: usize,
    end: usize,
) -> (drawing: String)
    requires
        start < end,
        is_boundary(source@, start as nat),
        is_boundary(source@, end as nat),
    ensures
        drawing@ == drawn_without_id(
            source@,
            path@,
            title@,
            label@,
            start as nat,
            end as nat,
            true,
        ),
{
    let note = AnnotationKind::Primary.span(start..end).label(label);
    let snippet = Snippet::source(source).path(path).annotation(note);
    let report = [Level::ERROR.primary_title(title).element(snippet)];
    Renderer::styled().render(&report)
}

/// Draws an error without an id under its source line.
fn draw_without_id(
    source: &str,
    path: &str,
    title: &str,
    label: &str,
    start: usize,
    end: usize,
    color: bool,
) -> (drawing: String)
    requires
        start < end,
        is_boundary(source@, start as nat),
        is_boundary(source@, end as nat),
    ensures
        drawing@ == drawn_without_id(
            source@,
            path@,
            title@,
            label@,
            start as nat,
            end as nat,
            color,
        ),
{
    if color {
        draw_without_id_styled(source, path, title, label, start, end)
    } else {
        draw_without_id_plain(source, path, title, label, start, end)
    }
}

/// A text in green.
pub open spec fn greened(text: Seq<char>) -> Seq<char> {
    "\u{1b}[32m"@ + text + "\u{1b}[0m"@
}

/// `anstyle::Style::render` and `render_reset` of the style with a green foreground and nothing
/// else: the escape sequences before and after a text.
#[verifier::external_body]
fn green(text: &str) -> (styled: String)
    ensures
        styled@ == greened(text@),
{
    let style = Style::new().fg_color(Some(AnsiColor::Green.into()));
    format!("{}{}{}", style.render(), text, style.render_reset())
}

/// What is said of the closure that a rule was answered on, when it is not the unified one: the
/// selection and how many names it removed.
pub open spec fn closure_note(status: StatusView) -> Seq<char> {
    match status.features {
        Some(selection) => " (features = "@ + selection_text(selection) + ", "@ + decimal(
            status.activation_pruned.len(),
        ) + " pruned)"@,
        None => Seq::empty(),
    }
}

fn push_closure_note(out: &mut String, status: &RuleStatus)
    ensures
        final(out)@ == old(out)@ + closure_note(status@),
{
    if let Some(selection) = &status.features {
        let mut note = " (features = ".to_owned();
        let selected = selection.describe();
        note.push_str(selected.as_str());
        note.push_str(", ");
        text::push_decimal(&mut note, status.activation_pruned.len() as u128);
        note.push_str(" pruned)");
        out.push_str(note.as_str());
    } else {
        assert(out@ =~= old(out)@ + closure_note(status@));
    }
}

/// How many findings a rule has, in the words of its kind.
pub open spec fn count_text(status: StatusView, violation: Option<ViolationView>) -> Seq<char> {
    match violation {
        Some(violation) if status.kind == "internal"@ || status.kind == "leaf"@ || status.kind
            == "direct"@ => decimal(violation.extra.len()) + " extra, "@ + decimal(
            violation.missing.len(),
        ) + " missing"@,
        Some(violation) if status.kind == "require"@ => decimal(violation.missing.len())
            + " missing"@,
        Some(violation) if status.kind == "sealed"@ => "consumed by "@ + decimal(
            violation.sealed_by.len(),
        ) + " member(s)"@,
        _ => decimal(status.matched) + " match(es)"@,
    }
}

/// The summary of a failed rule: how many findings it has, and on which closure.
pub open spec fn label_of(status: StatusView, violation: Option<ViolationView>) -> Seq<char> {
    count_text(status, violation) + closure_note(status)
}

/// The characters of a violation, if there is one.
pub open spec fn evidence_view(violation: Option<&Violation>) -> Option<ViolationView> {
    match violation {
        Some(violation) => Some(violation@),
        None => None,
    }
}

/// Builds the concise summary attached to a failed rule's source span.
#[must_use]
pub fn violation_label(status: &RuleStatus, violation: Option<&Violation>) -> (label: String)
    ensures
        label@ == label_of(status@, evidence_view(violation)),
{
    let kind = status.kind;
    let mut label = String::new();
    assert(label@ =~= Seq::<char>::empty());
    let exact = text::same(kind, "internal") || text::same(kind, "leaf") || text::same(
        kind,
        "direct",
    );
    match violation {
        Some(violation) if exact => {
            text::push_decimal(&mut label, violation.extra.len() as u128);
            label.push_str(" extra, ");
            text::push_decimal(&mut label, violation.missing.len() as u128);
            label.push_str(" missing");
        },
        Some(violation) if text::same(kind, "require") => {
            text::push_decimal(&mut label, violation.missing.len() as u128);
            label.push_str(" missing");
        },
        Some(violation) if text::same(kind, "sealed") => {
            label.push_str("consumed by ");
            text::push_decimal(&mut label, violation.sealed_by.len() as u128);
            label.push_str(" member(s)");
        },
        _ => {
            text::push_decimal(&mut label, status.matched as u128);
            label.push_str(" match(es)");
        },
    }
    assert(label@ =~= count_text(status@, evidence_view(violation)));
    push_closure_note(&mut label, status);
    label
}

/// What is said of the edge of a hop: its condition, and whether it is optional.
pub open spec fn hop_note(hop: HopView) -> Seq<char> {
    (match hop.target {
        Some(target) => " ["@ + target + "]"@,
        None => Seq::empty(),
    }) + if hop.optional {
        " (optional; present via workspace feature unification)"@
    } else {
        Seq::empty()
    }
}

/// Appends the `[cfg(...)]` and `(optional; ...)` annotations for one hop, shared between the
/// versioned witness renderer and the version-free `sealed` one.
fn push_hop_annotations(out: &mut String, hop: &WitnessHop)
    ensures
        final(out)@ == old(out)@ + hop_note(hop@),
{
    let mut note = String::new();
    assert(note@ =~= Seq::<char>::empty());
    if let Some(target) = &hop.target {
        note.push_str(" [");
        note.push_str(target.as_str());
        note.push_str("]");
        assert(note@ =~= " ["@ + target@ + "]"@);
    }
    let ghost before = note@;
    if hop.optional {
        note.push_str(" (optional; present via workspace feature unification)");
    }
    assert(note@ =~= hop_note(hop@));
    out.push_str(note.as_str());
}

/// A hop with its version.
pub open spec fn versioned_hop() -> spec_fn(HopView) -> Seq<char> {
    |hop: HopView| " \u{2192} "@ + hop.name + " v"@ + hop.version + hop_note(hop)
}

/// A hop without its version.
pub open spec fn plain_hop() -> spec_fn(HopView) -> Seq<char> {
    |hop: HopView| " \u{2192} "@ + hop.name + hop_note(hop)
}

/// The other versions that were reached, when there are any.
pub open spec fn others_note(versions: Seq<Seq<char>>) -> Seq<char> {
    if versions.len() == 0 {
        Seq::empty()
    } else {
        " (other reachable versions: "@ + joined(versions, ", "@) + ")"@
    }
}

/// The start of a witness: the root, with its version when that is known.
pub open spec fn start_of(root: Seq<char>, version: Option<Seq<char>>) -> Seq<char> {
    match version {
        Some(version) => root + " v"@ + version,
        None => root,
    }
}

/// A witness with versions.
pub open spec fn witness_text(
    root: Seq<char>,
    version: Option<Seq<char>>,
    hops: Seq<HopView>,
    others: Seq<Seq<char>>,
) -> Seq<char> {
    start_of(root, version) + written(hops, versioned_hop()) + others_note(others)
}

/// A witness without versions.
pub open spec fn plain_witness_text(root: Seq<char>, hops: Seq<HopView>) -> Seq<char> {
    root + written(hops, plain_hop())
}

/// Renders a versioned root-to-match witness with edge annotations.
#[must_use]
pub fn render_witness(
    root: &str,
    root_version: Option<&str>,
    hops: &Vec<WitnessHop>,
    other_versions: &Vec<String>,
) -> (rendered: String)
    ensures
        rendered@ == witness_text(
            root@,
            match root_version {
                Some(version) => Some(version@),
                None => None,
            },
            hop_views(hops@),
            texts(other_versions@),
        ),
{
    let ghost views = hop_views(hops@);
    let mut rendered = root.to_owned();
    if let Some(version) = root_version {
        rendered.push_str(" v");
        rendered.push_str(version);
    }
    let ghost start = rendered@;
    let mut at: usize = 0;
    assert(rendered@ =~= start + written_below(views, versioned_hop(), 0));
    while at < hops.len()
        invariant
            views == hop_views(hops@),
            at <= hops@.len(),
            rendered@ == start + written_below(views, versioned_hop(), at as int),
        decreases hops@.len() - at,
    {
        let hop = &hops[at];
        assert(views[at as int] == hop@);
        let mut step = " \u{2192} ".to_owned();
        step.push_str(hop.name.as_str());
        step.push_str(" v");
        step.push_str(hop.version.as_str());
        push_hop_annotations(&mut step, hop);
        assert(step@ == versioned_hop()(views[at as int]));
        rendered.push_str(step.as_str());
        at = at + 1;
        assert(rendered@ =~= start + written_below(views, versioned_hop(), at as int));
    }
    if other_versions.len() > 0 {
        let mut note = " (other reachable versions: ".to_owned();
        let list = text::join(other_versions, ", ");
        note.push_str(list.as_str());
        note.push_str(")");
        rendered.push_str(note.as_str());
    } else {
        assert(rendered@ =~= rendered@ + others_note(texts(other_versions@)));
    }
    rendered
}

/// Renders a version-free witness path with edge annotations, the form in which a `sealed` rule
/// names its consumers. The `[cfg(...)]` and optional annotations carry real information and are
/// kept.
#[must_use]
pub fn render_witness_versionless(root: &str, hops: &Vec<WitnessHop>) -> (rendered: String)
    ensures
        rendered@ == plain_witness_text(root@, hop_views(hops@)),
{
    let ghost views = hop_views(hops@);
    let mut rendered = root.to_owned();
    let mut at: usize = 0;
    assert(rendered@ =~= root@ + written_below(views, plain_hop(), 0));
    while at < hops.len()
        invariant
            views == hop_views(hops@),
            at <= hops@.len(),
            rendered@ == root@ + written_below(views, plain_hop(), at as int),
        decreases hops@.len() - at,
    {
        let hop = &hops[at];
        assert(views[at as int] == hop@);
        let mut step = " \u{2192} ".to_owned();
        step.push_str(hop.name.as_str());
        push_hop_annotations(&mut step, hop);
        assert(step@ == plain_hop()(views[at as int]));
        rendered.push_str(step.as_str());
        at = at + 1;
        assert(rendered@ =~= root@ + written_below(views, plain_hop(), at as int));
    }
    rendered
}

/// The line of a denied name.
pub open spec fn denied_line(root: Seq<char>, version: Option<Seq<char>>) -> spec_fn(MatchView) -> Seq<
    char,
> {
    |found: MatchView|
        "  "@ + witness_text(root, version, found.witness, found.other_versions) + "\n"@
}

/// The line of an unexpected name.
pub open spec fn extra_line(root: Seq<char>, version: Option<Seq<char>>) -> spec_fn(MatchView) -> Seq<
    char,
> {
    |found: MatchView|
        "  +"@ + found.name + " (via "@ + witness_text(
            root,
            version,
            found.witness,
            found.other_versions,
        ) + ")\n"@
}

/// The line of a missing name or pattern.
pub open spec fn missing_line() -> spec_fn(Seq<char>) -> Seq<char> {
    |name: Seq<char>| "  -"@ + name + "\n"@
}

/// The line of a member that consumes a sealed package.
pub open spec fn consumer_line() -> spec_fn(SealedView) -> Seq<char> {
    |entry: SealedView|
        "  consumed by: "@ + entry.member + " ("@ + plain_witness_text(entry.member, entry.witness)
            + ")\n"@
}

/// The lines of a violation's evidence, in the form of its kind.
pub open spec fn evidence_lines(violation: ViolationView, version: Option<Seq<char>>) -> Seq<char> {
    let root = violation.package;
    if violation.kind == "deny"@ {
        written(violation.matches, denied_line(root, version))
    } else if violation.kind == "internal"@ || violation.kind == "leaf"@ || violation.kind
        == "direct"@ {
        written(violation.extra, extra_line(root, version)) + written(
            violation.missing,
            missing_line(),
        )
    } else if violation.kind == "require"@ {
        written(violation.missing, missing_line())
    } else if violation.kind == "sealed"@ {
        written(violation.sealed_by, consumer_line())
    } else {
        Seq::empty()
    }
}

fn push_denied(out: &mut String, matches: &Vec<Match>, root: &str, version: Option<&str>)
    ensures
        final(out)@ == old(out)@ + written(
            match_views(matches@),
            denied_line(
                root@,
                match version {
                    Some(version) => Some(version@),
                    None => None,
                },
            ),
        ),
{
    let ghost views = match_views(matches@);
    let ghost line = denied_line(
        root@,
        match version {
            Some(version) => Some(version@),
            None => None,
        },
    );
    let ghost start = out@;
    let mut at: usize = 0;
    assert(out@ =~= start + written_below(views, line, 0));
    while at < matches.len()
        invariant
            views == match_views(matches@),
            line == denied_line(
                root@,
                match version {
                    Some(version) => Some(version@),
                    None => None,
                },
            ),
            at <= matches@.len(),
            out@ == start + written_below(views, line, at as int),
        decreases matches@.len() - at,
    {
        let found = &matches[at];
        assert(views[at as int] == found@);
        let mut step = "  ".to_owned();
        let witness = render_witness(root, version, &found.witness, &found.other_versions);
        step.push_str(witness.as_str());
        step.push_str("\n");
        assert(step@ == line(views[at as int]));
        out.push_str(step.as_str());
        at = at + 1;
        assert(out@ =~= start + written_below(views, line, at as int));
    }
}

fn push_extra(out: &mut String, matches: &Vec<Match>, root: &str, version: Option<&str>)
    ensures
        final(out)@ == old(out)@ + written(
            match_views(matches@),
            extra_line(
                root@,
                match version {
                    Some(version) => Some(version@),
                    None => None,
                },
            ),
        ),
{
    let ghost views = match_views(matches@);
    let ghost line = extra_line(
        root@,
        match version {
            Some(version) => Some(version@),
            None => None,
        },
    );
    let ghost start = out@;
    let mut at: usize = 0;
    assert(out@ =~= start + written_below(views, line, 0));
    while at < matches.len()
        invariant
            views == match_views(matches@),
            line == extra_line(
                root@,
                match version {
                    Some(version) => Some(version@),
                    None => None,
                },
            ),
            at <= matches@.len(),
            out@ == start + written_below(views, line, at as int),
        decreases matches@.len() - at,
    {
        let found = &matches[at];
        assert(views[at as int] == found@);
        let mut step = "  +".to_owned();
        step.push_str(found.name.as_str());
        step.push_str(" (via ");
        let witness = render_witness(root, version, &found.witness, &found.other_versions);
        step.push_str(witness.as_str());
        step.push_str(")\n");
        assert(step@ == line(views[at as int]));
        out.push_str(step.as_str());
        at = at + 1;
        assert(out@ =~= start + written_below(views, line, at as int));
    }
}

fn push_missing(out: &mut String, names: &Vec<String>)
    ensures
        final(out)@ == old(out)@ + written(texts(names@), missing_line()),
{
    let ghost views = texts(names@);
    let ghost start = out@;
    let mut at: usize = 0;
    assert(out@ =~= start + written_below(views, missing_line(), 0));
    while at < names.len()
        invariant
            views == texts(names@),
            at <= names@.len(),
            out@ == start + written_below(views, missing_line(), at as int),
        decreases names@.len() - at,
    {
        assert(views[at as int] == names@[at as int]@);
        let mut step = "  -".to_owned();
        step.push_str(names[at].as_str());
        step.push_str("\n");
        assert(step@ == missing_line()(views[at as int]));
        out.push_str(step.as_str());
        at = at + 1;
        assert(out@ =~= start + written_below(views, missing_line(), at as int));
    }
}

fn push_consumers(out: &mut String, entries: &Vec<SealedEntry>)
    ensures
        final(out)@ == old(out)@ + written(sealed_views(entries@), consumer_line()),
{
    let ghost views = sealed_views(entries@);
    let ghost start = out@;
    let mut at: usize = 0;
    assert(out@ =~= start + written_below(views, consumer_line(), 0));
    while at < entries.len()
        invariant
            views == sealed_views(entries@),
            at <= entries@.len(),
            out@ == start + written_below(views, consumer_line(), at as int),
        decreases entries@.len() - at,
    {
        let entry = &entries[at];
        assert(views[at as int] == entry@);
        let mut step = "  consumed by: ".to_owned();
        step.push_str(entry.member.as_str());
        step.push_str(" (");
        let witness = render_witness_versionless(entry.member.as_str(), &entry.witness);
        step.push_str(witness.as_str());
        step.push_str(")\n");
        assert(step@ == consumer_line()(views[at as int]));
        out.push_str(step.as_str());
        at = at + 1;
        assert(out@ =~= start + written_below(views, consumer_line(), at as int));
    }
}

fn render_violation_witnesses(out: &mut String, violation: &Violation, root_version: Option<&str>)
    ensures
        final(out)@ == old(out)@ + evidence_lines(
            violation@,
            match root_version {
                Some(version) => Some(version@),
                None => None,
            },
        ),
{
    let kind = violation.kind;
    let root = violation.package.as_str();
    if text::same(kind, "deny") {
        push_denied(out, &violation.matches, root, root_version);
    } else if text::same(kind, "internal") || text::same(kind, "leaf") || text::same(
        kind,
        "direct",
    ) {
        push_extra(out, &violation.extra, root, root_version);
        push_missing(out, &violation.missing);
        assert(out@ =~= old(out)@ + evidence_lines(
            violation@,
            match root_version {
                Some(version) => Some(version@),
                None => None,
            },
        ));
    } else if text::same(kind, "require") {
        push_missing(out, &violation.missing);
    } else if text::same(kind, "sealed") {
        push_consumers(out, &violation.sealed_by);
    } else {
        assert(out@ =~= old(out)@ + Seq::<char>::empty());
    }
}

/// The title of every finding.
pub const TITLE: &'static str = "dependency policy violation";

/// The single line of a finding whose source cannot be shown.
pub open spec fn place_line(
    id: Seq<char>,
    file: Seq<char>,
    line: nat,
    col: nat,
    label: Seq<char>,
) -> Seq<char> {
    "FAIL "@ + id + ": "@ + file + ":"@ + decimal(line) + ":"@ + decimal(col) + " "@ + label + "\n"@
}

/// The drawing of a finding at a place of `source`: over as many bytes as are given, or else to
/// the end of the line. There is none when the source or the place is missing, and none over
/// nothing or over parts of characters.
pub open spec fn drawing_of(
    source: Option<Seq<char>>,
    line: nat,
    col: nat,
    bytes: Option<nat>,
    file: Seq<char>,
    id: Seq<char>,
    label: Seq<char>,
    color: bool,
) -> Option<Seq<char>> {
    match source {
        Some(source) => match offset_of(source, line, col) {
            Some(start) => {
                let end = match bytes {
                    Some(bytes) => start + bytes,
                    None => line_stop(source, start),
                };
                if start < end && is_boundary(source, start) && is_boundary(source, end) {
                    Some(drawn(source, file, TITLE@, id, label, start, end, color))
                } else {
                    None
                }
            },
            None => None,
        },
        None => None,
    }
}

/// A finding, under its source line or on a single line.
pub open spec fn finding_text(
    source: Option<Seq<char>>,
    line: nat,
    col: nat,
    bytes: Option<nat>,
    file: Seq<char>,
    id: Seq<char>,
    label: Seq<char>,
    color: bool,
) -> Seq<char> {
    match drawing_of(source, line, col, bytes, file, id, label, color) {
        Some(drawing) => drawing + "\n"@,
        None => place_line(id, file, line, col, label),
    }
}

proof fn boundary_is_within(source: Seq<char>, offset: nat)
    requires
        is_boundary(source, offset),
    ensures
        offset <= source::size(source),
{
    source::chars_are_within(source, offset);
    source::size_of_prefix(source, source::chars_within(source, offset) as int);
}

fn render_snippet(
    source: &str,
    span: &Span,
    bytes: Option<usize>,
    file: &str,
    id: &str,
    label: &str,
    color: bool,
) -> (drawing: Option<String>)
    ensures
        (match drawing {
            Some(drawing) => Some(drawing@),
            None => None,
        }) == drawing_of(
            Some(source@),
            span.line as nat,
            span.col as nat,
            match bytes {
                Some(bytes) => Some(bytes as nat),
                None => None,
            },
            file@,
            id@,
            label@,
            color,
        ),
{
    let start = match source::line_col_to_offset(source, span.line, span.col) {
        Some(start) => start,
        None => return None,
    };
    let end: usize = match bytes {
        Some(bytes) => {
            if bytes > usize::MAX - start {
                let total: usize = source.as_bytes().len();
                assert(total == source::size(source@));
                proof {
                    if is_boundary(source@, (start + bytes) as nat) {
                        boundary_is_within(source@, (start + bytes) as nat);
                    }
                }
                return None;
            }
            start + bytes
        },
        None => source::stop_of_line(source, start),
    };
    if start < end && source::at_boundary(source, start) && source::at_boundary(source, end) {
        Some(draw(source, file, TITLE, id, label, start, end, color))
    } else {
        None
    }
}

/// Appends a finding.
fn push_finding(
    out: &mut String,
    source: Option<&str>,
    span: &Span,
    bytes: Option<usize>,
    file: &str,
    id: &str,
    label: &str,
    color: bool,
)
    ensures
        final(out)@ == old(out)@ + finding_text(
            match source {
                Some(source) => Some(source@),
                None => None,
            },
            span.line as nat,
            span.col as nat,
            match bytes {
                Some(bytes) => Some(bytes as nat),
                None => None,
            },
            file@,
            id@,
            label@,
            color,
        ),
{
    let drawing = match source {
        Some(source) => render_snippet(source, span, bytes, file, id, label, color),
        None => None,
    };
    let mut finding = String::new();
    assert(finding@ =~= Seq::<char>::empty());
    if let Some(drawing) = drawing {
        finding.push_str(drawing.as_str());
        finding.push_str("\n");
        assert(finding@ =~= drawing@ + "\n"@);
    } else {
        finding = "FAIL ".to_owned();
        finding.push_str(id);
        finding.push_str(": ");
        finding.push_str(file);
        finding.push_str(":");
        text::push_decimal(&mut finding, span.line as u128);
        finding.push_str(":");
        text::push_decimal(&mut finding, span.col as u128);
        finding.push_str(" ");
        finding.push_str(label);
        finding.push_str("\n");
    }
    out.push_str(finding.as_str());
}

/// What a manifest entry is called.
pub open spec fn entry_label(entry: ManifestEntryView) -> Seq<char> {
    entry.table + " "@ + entry.dependency + " = "@ + quoted(entry.version)
}

/// Writes what a manifest entry is called.
pub(crate) fn label_of_entry(entry: &ManifestViolation) -> (label: String)
    ensures
        label@ == entry_label(entry@),
{
    let mut label = entry.table.as_str().to_owned();
    label.push_str(" ");
    label.push_str(entry.dependency.as_str());
    label.push_str(" = ");
    let version = text::quote(entry.version.as_str());
    label.push_str(version.as_str());
    label
}

/// One entry of a failed manifest rule.
pub open spec fn entry_text(
    id: Seq<char>,
    root: Seq<char>,
    sources: Seq<(Seq<char>, Seq<char>)>,
    color: bool,
) -> spec_fn(ManifestEntryView) -> Seq<char> {
    |entry: ManifestEntryView|
        finding_text(
            source_at(sources, entry.span.0),
            entry.span.1,
            entry.span.2,
            Some(entry.span_bytes),
            shown(entry.span.0, root),
            id,
            entry_label(entry),
            color,
        )
}

fn render_manifest_failure(
    out: &mut String,
    id: &str,
    entry: &ManifestViolation,
    root: &str,
    sources: &Vec<SourceData>,
    color: bool,
)
    ensures
        final(out)@ == old(out)@ + entry_text(id@, root@, source_views(sources@), color)(entry@),
{
    let label = label_of_entry(entry);
    let file = files::show(entry.span.file.as_str(), root);
    push_finding(
        out,
        find_source(sources, entry.span.file.as_str()),
        &entry.span,
        Some(entry.span_bytes),
        file.as_str(),
        id,
        label.as_str(),
        color,
    );
}

/// A failed graph rule: its finding and its evidence, or its summary alone when there is no
/// evidence.
pub open spec fn graph_failure_text(
    outcome: OutcomeView,
    status: StatusView,
    sources: Seq<(Seq<char>, Seq<char>)>,
    color: bool,
) -> Seq<char> {
    let violation = evidence_of(outcome.violations, status.id);
    let label = label_of(status, violation);
    match violation {
        Some(violation) => finding_text(
            source_at(sources, violation.span.0),
            violation.span.1,
            violation.span.2,
            None,
            shown(violation.span.0, outcome.workspace_root),
            status.id,
            label,
            color,
        ) + evidence_lines(
            violation,
            version_named(
                outcome.member_versions,
                violation.package,
                outcome.member_versions.len() as int,
            ),
        ),
        None => "FAIL "@ + status.id + ": "@ + label + "\n"@,
    }
}

fn render_graph_failure(
    out: &mut String,
    status: &RuleStatus,
    outcome: &Outcome,
    sources: &Vec<SourceData>,
    color: bool,
)
    ensures
        final(out)@ == old(out)@ + graph_failure_text(
            outcome@,
            status@,
            source_views(sources@),
            color,
        ),
{
    let violation = violation_lookup(&outcome.violations, status.id.as_str());
    let label = violation_label(status, violation);
    let mut failure = String::new();
    assert(failure@ =~= Seq::<char>::empty());
    if let Some(violation) = violation {
        let file = files::show(violation.span.file.as_str(), outcome.workspace_root.as_str());
        push_finding(
            &mut failure,
            find_source(sources, violation.span.file.as_str()),
            &violation.span,
            None,
            file.as_str(),
            status.id.as_str(),
            label.as_str(),
            color,
        );
        let version = match outcome.member_versions.get(violation.package.as_str()) {
            Some(version) => Some(version.as_str()),
            None => None,
        };
        render_violation_witnesses(&mut failure, violation, version);
        assert(failure@ =~= graph_failure_text(outcome@, status@, source_views(sources@), color));
    } else {
        failure = "FAIL ".to_owned();
        failure.push_str(status.id.as_str());
        failure.push_str(": ");
        failure.push_str(label.as_str());
        failure.push_str("\n");
    }
    out.push_str(failure.as_str());
}

/// A passed rule.
pub open spec fn pass_text(status: StatusView, color: bool) -> Seq<char> {
    let line = "ok "@ + status.id + closure_note(status);
    (if color {
        greened(line)
    } else {
        line
    }) + "\n"@
}

fn render_pass(out: &mut String, status: &RuleStatus, color: bool)
    ensures
        final(out)@ == old(out)@ + pass_text(status@, color),
{
    let mut line = "ok ".to_owned();
    line.push_str(status.id.as_str());
    push_closure_note(&mut line, status);
    if color {
        line = green(line.as_str());
    }
    line.push_str("\n");
    out.push_str(line.as_str());
}

/// What a workspace that does not centralise its versions is told about the manifest rule.
pub open spec fn hint_text() -> Seq<char> {
    "hint: set [manifest] versions-in-root = false in depgate.toml if this workspace does not keep its dependency versions in [workspace.dependencies]\n"@
}

/// A failed manifest rule: its entries and, when the workspace centralises nothing, a hint.
pub open spec fn manifest_failure_text(
    outcome: OutcomeView,
    status: StatusView,
    sources: Seq<(Seq<char>, Seq<char>)>,
    color: bool,
) -> Seq<char> {
    match outcome.manifest {
        Some(report) => written(
            report.entries,
            entry_text(status.id, outcome.workspace_root, sources, color),
        ) + if report.root_workspace_dependencies == Some(false) {
            hint_text()
        } else {
            Seq::empty()
        },
        None => Seq::empty(),
    }
}

fn render_manifest_failures(
    out: &mut String,
    status: &RuleStatus,
    outcome: &Outcome,
    sources: &Vec<SourceData>,
    color: bool,
)
    ensures
        final(out)@ == old(out)@ + manifest_failure_text(
            outcome@,
            status@,
            source_views(sources@),
            color,
        ),
{
    let ghost start = out@;
    if let Some(report) = &outcome.manifest {
        let ghost views = manifest::manifest_views(report.entries@);
        let ghost entry = entry_text(
            status.id@,
            outcome.workspace_root@,
            source_views(sources@),
            color,
        );
        let mut at: usize = 0;
        assert(out@ =~= start + written_below(views, entry, 0));
        while at < report.entries.len()
            invariant
                views == manifest::manifest_views(report.entries@),
                entry == entry_text(
                    status.id@,
                    outcome.workspace_root@,
                    source_views(sources@),
                    color,
                ),
                at <= report.entries@.len(),
                out@ == start + written_below(views, entry, at as int),
            decreases report.entries@.len() - at,
        {
            assert(views[at as int] == report.entries@[at as int]@);
            render_manifest_failure(
                out,
                status.id.as_str(),
                &report.entries[at],
                outcome.workspace_root.as_str(),
                sources,
                color,
            );
            at = at + 1;
            assert(out@ =~= start + written_below(views, entry, at as int));
        }
        match report.root_workspace_dependencies {
            Some(false) => {
                out.push_str(
                    "hint: set [manifest] versions-in-root = false in depgate.toml if this workspace does not keep its dependency versions in [workspace.dependencies]\n",
                );
            },
            _ => {},
        }
        assert(out@ =~= start + manifest_failure_text(
            outcome@,
            status@,
            source_views(sources@),
            color,
        ));
    } else {
        assert(out@ =~= start + Seq::<char>::empty());
    }
}

/// What a report says of one rule.
pub open spec fn status_text(
    outcome: OutcomeView,
    sources: Seq<(Seq<char>, Seq<char>)>,
    color: bool,
) -> spec_fn(StatusView) -> Seq<char> {
    |status: StatusView|
        if status.passed {
            pass_text(status, color)
        } else if status.kind == manifest::RULE_KIND@ {
            manifest_failure_text(outcome, status, sources, color)
        } else {
            graph_failure_text(outcome, status, sources, color)
        }
}

/// The last line of a report.
pub open spec fn summary_text(rules: u32, violations: u32) -> Seq<char> {
    (if violations == 0 {
        "ok"@
    } else {
        "FAIL"@
    }) + ": "@ + decimal(rules as nat) + " rules, "@ + decimal(violations as nat) + " violations\n"@
}

/// The complete human-readable report: every rule in turn, then the summary.
pub open spec fn human_text(
    outcome: OutcomeView,
    sources: Seq<(Seq<char>, Seq<char>)>,
    color: bool,
) -> Seq<char> {
    written(outcome.statuses, status_text(outcome, sources, color)) + summary_text(
        outcome.counters.rules,
        outcome.counters.violations,
    )
}

/// Renders the complete human-readable policy report. `sources` holds the files that findings
/// stand in, as far as they could be read.
pub fn render(outcome: &Outcome, ctx: &RenderContext, sources: &Vec<SourceData>) -> (report: String)
    ensures
        report@ == human_text(outcome@, source_views(sources@), ctx.color),
{
    let color = ctx.color;
    let mut out = String::new();
    let ghost views = outcome@.statuses;
    let ghost texts = source_views(sources@);
    let ghost write = status_text(outcome@, texts, color);
    let mut at: usize = 0;
    assert(out@ =~= written_below(views, write, 0));
    while at < outcome.statuses.len()
        invariant
            views == outcome@.statuses,
            texts == source_views(sources@),
            write == status_text(outcome@, texts, color),
            at <= outcome.statuses@.len(),
            out@ == written_below(views, write, at as int),
        decreases outcome.statuses@.len() - at,
    {
        let status = &outcome.statuses[at];
        assert(views[at as int] == status@);
        if status.passed {
            render_pass(&mut out, status, color);
        } else if text::same(status.kind, manifest::RULE_KIND) {
            render_manifest_failures(&mut out, status, outcome, sources, color);
        } else {
            render_graph_failure(&mut out, status, outcome, sources, color);
        }
        at = at + 1;
    }
    let mut summary = if outcome.counters.violations == 0 {
        "ok".to_owned()
    } else {
        "FAIL".to_owned()
    };
    summary.push_str(": ");
    text::push_decimal(&mut summary, outcome.counters.rules as u128);
    summary.push_str(" rules, ");
    text::push_decimal(&mut summary, outcome.counters.violations as u128);
    summary.push_str(" violations\n");
    out.push_str(summary.as_str());
    out
}

/// The drawing of a configuration error in its file.
pub open spec fn config_drawing(
    message: Seq<char>,
    span: (Seq<char>, nat, nat),
    source: Option<Seq<char>>,
    color: bool,
) -> Option<Seq<char>> {
    match source {
        Some(source) => match offset_of(source, span.1, span.2) {
            Some(start) => {
                let end = line_stop(source, start);
                if start < end && is_boundary(source, start) && is_boundary(source, end) {
                    Some(
                        drawn_without_id(source, span.0, message, "here"@, start, end, color),
                    )
                } else {
                    None
                }
            },
            None => None,
        },
        None => None,
    }
}

/// Renders a configuration error with a source annotation when the source was readable.
pub fn render_config_snippet(message: &str, span: &Span, source: Option<&str>, color: bool) -> (drawing:
    Option<String>)
    ensures
        (match drawing {
            Some(drawing) => Some(drawing@),
            None => None,
        }) == config_drawing(
            message@,
            span@,
            match source {
                Some(source) => Some(source@),
                None => None,
            },
            color,
        ),
{
    let source = match source {
        Some(source) => source,
        None => return None,
    };
    let start = match source::line_col_to_offset(source, span.line, span.col) {
        Some(start) => start,
        None => return None,
    };
    let end = source::stop_of_line(source, start);
    if start < end && source::at_boundary(source, start) && source::at_boundary(source, end) {
        Some(draw_without_id(source, span.file.as_str(), message, "here", start, end, color))
    } else {
        None
    }
}

/// Whatever is written of one item stands in what is written of all, once in its place.
pub proof fn each_item_is_written<T>(items: Seq<T>, write: spec_fn(T) -> Seq<char>, at: int, upto: int) -> (around: (
    Seq<char>,
    Seq<char>,
))
    requires
        0 <= at < upto <= items.len(),
    ensures
        written_below(items, write, upto) == around.0 + write(items[at]) + around.1,
        around.0 == written_below(items, write, at),
    decreases upto,
{
    let before = written_below(items, write, at);
    if at == upto - 1 {
        let around = (before, Seq::<char>::empty());
        assert(written_below(items, write, upto) =~= around.0 + write(items[at]) + around.1);
        around
    } else {
        let inner = each_item_is_written(items, write, at, upto - 1);
        let around = (inner.0, inner.1 + write(items[upto - 1]));
        assert(written_below(items, write, upto) =~= around.0 + write(items[at]) + around.1);
        around
    }
}

/// Every rule is listed in the report, whether it passed or failed, and no finding is left out.
pub proof fn every_rule_is_listed(
    outcome: OutcomeView,
    sources: Seq<(Seq<char>, Seq<char>)>,
    color: bool,
    at: int,
) -> (around: (Seq<char>, Seq<char>))
    requires
        0 <= at < outcome.statuses.len(),
    ensures
        human_text(outcome, sources, color) == around.0 + status_text(outcome, sources, color)(
            outcome.statuses[at],
        ) + around.1,
{
    let write = status_text(outcome, sources, color);
    let inner = each_item_is_written(outcome.statuses, write, at, outcome.statuses.len() as int);
    let summary = summary_text(outcome.counters.rules, outcome.counters.violations);
    let around = (inner.0, inner.1 + summary);
    assert(human_text(outcome, sources, color) =~= around.0 + write(outcome.statuses[at]) + around.1);
    around
}

/// The hint about the manifest rule follows a failure of that rule exactly when the workspace is
/// known to centralise nothing.
pub proof fn the_hint_is_for_those_who_centralise_nothing(
    outcome: OutcomeView,
    status: StatusView,
    sources: Seq<(Seq<char>, Seq<char>)>,
    color: bool,
)
    requires
        outcome.manifest is Some,
    ensures
        ({
            let report = outcome.manifest->0;
            let entries = written(
                report.entries,
                entry_text(status.id, outcome.workspace_root, sources, color),
            );
            manifest_failure_text(outcome, status, sources, color)
                == if report.root_workspace_dependencies == Some(false) {
                entries + hint_text()
            } else {
                entries
            }
        }),
{
    let report = outcome.manifest->0;
    let entries = written(
        report.entries,
        entry_text(status.id, outcome.workspace_root, sources, color),
    );
    assert(entries + Seq::<char>::empty() =~= entries);
}

} // verus!
