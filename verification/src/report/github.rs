//! GitHub Actions error annotations followed by the complete human report.

use super::human::{self, entry_label, label_of, plain_witness_text, witness_text};
use super::{evidence_of, source_views, violation_lookup, RenderContext};
use crate::config::{SourceData, Span};
use crate::files::{self, relative, shown};
use crate::manifest::{self, ManifestEntryView};
use crate::pipeline::{version_named, Outcome, OutcomeView};
use crate::rules::{StatusView, Violation, ViolationView};
use crate::text::{self, decimal, text_view};
use vstd::prelude::*;

verus! {

/// The most annotations that one report has, which is GitHub's cap for a step.
pub const ANNOTATION_LIMIT: usize = 10;

/// One annotation before it is escaped.
pub struct AnnotationView {
    pub file: Seq<char>,
    pub line: nat,
    pub col: nat,
    pub message: Seq<char>,
}

struct Annotation {
    file: String,
    line: u32,
    col: u32,
    message: String,
}

impl View for Annotation {
    type V = AnnotationView;

    closed spec fn view(&self) -> AnnotationView {
        AnnotationView {
            file: self.file@,
            line: self.line as nat,
            col: self.col as nat,
            message: self.message@,
        }
    }
}

spec fn annotation_views(list: Seq<Annotation>) -> Seq<AnnotationView> {
    Seq::new(list.len(), |i: int| list[i]@)
}

/// A character of a message as a workflow command wants it.
pub open spec fn escaped_char(c: char) -> Seq<char> {
    if c == '%' {
        "%25"@
    } else if c == '\r' {
        "%0D"@
    } else if c == '\n' {
        "%0A"@
    } else {
        seq![c]
    }
}

/// A character of a property as a workflow command wants it: colons and commas are escaped too,
/// because they delimit the properties.
pub open spec fn escaped_property_char(c: char) -> Seq<char> {
    if c == ':' {
        "%3A"@
    } else if c == ',' {
        "%2C"@
    } else {
        escaped_char(c)
    }
}

/// A message as a workflow command wants it.
pub open spec fn escaped(message: Seq<char>) -> Seq<char>
    decreases message.len(),
{
    if message.len() == 0 {
        Seq::empty()
    } else {
        escaped(message.drop_last()) + escaped_char(message.last())
    }
}

/// A property as a workflow command wants it.
pub open spec fn escaped_property(value: Seq<char>) -> Seq<char>
    decreases value.len(),
{
    if value.len() == 0 {
        Seq::empty()
    } else {
        escaped_property(value.drop_last()) + escaped_property_char(value.last())
    }
}

/// Escapes a GitHub Actions workflow-command message payload.
#[must_use]
pub fn escape(message: &str) -> (written: String)
    ensures
        written@ == escaped(message@),
{
    let chars = text::chars_of(message);
    let mut written = String::new();
    let mut at: usize = 0;
    assert(chars@.take(0) =~= Seq::<char>::empty());
    assert(written@ =~= escaped(chars@.take(0)));
    while at < chars.len()
        invariant
            at <= chars@.len(),
            written@ == escaped(chars@.take(at as int)),
        decreases chars@.len() - at,
    {
        let c = chars[at];
        let ghost before = written@;
        if c == '%' {
            written.push_str("%25");
        } else if c == '\r' {
            written.push_str("%0D");
        } else if c == '\n' {
            written.push_str("%0A");
        } else {
            written.push(c);
            assert(written@ =~= before + seq![c]);
        }
        proof {
            let now = chars@.take(at + 1);
            assert(now.drop_last() =~= chars@.take(at as int));
            assert(now.last() == c);
        }
        at = at + 1;
    }
    assert(chars@.take(at as int) =~= chars@);
    written
}

/// Escapes a GitHub Actions workflow-command property value (e.g. the `file=` property), which
/// additionally escapes `:` and `,` beyond what the message payload needs.
#[must_use]
pub fn escape_property(value: &str) -> (written: String)
    ensures
        written@ == escaped_property(value@),
{
    let chars = text::chars_of(value);
    let mut written = String::new();
    let mut at: usize = 0;
    assert(chars@.take(0) =~= Seq::<char>::empty());
    assert(written@ =~= escaped_property(chars@.take(0)));
    while at < chars.len()
        invariant
            at <= chars@.len(),
            written@ == escaped_property(chars@.take(at as int)),
        decreases chars@.len() - at,
    {
        let c = chars[at];
        let ghost before = written@;
        if c == ':' {
            written.push_str("%3A");
        } else if c == ',' {
            written.push_str("%2C");
        } else if c == '%' {
            written.push_str("%25");
        } else if c == '\r' {
            written.push_str("%0D");
        } else if c == '\n' {
            written.push_str("%0A");
        } else {
            written.push(c);
            assert(written@ =~= before + seq![c]);
        }
        proof {
            let now = chars@.take(at + 1);
            assert(now.drop_last() =~= chars@.take(at as int));
            assert(now.last() == c);
        }
        at = at + 1;
    }
    assert(chars@.take(at as int) =~= chars@);
    written
}

/// A path with slashes for backslashes.
pub open spec fn slashed(path: Seq<char>) -> Seq<char> {
    path.map_values(
        |c: char|
            if c == '\\' {
                '/'
            } else {
                c
            },
    )
}

fn slash(path: &str) -> (written: String)
    ensures
        written@ == slashed(path@),
{
    let chars = text::chars_of(path);
    let mut written = String::new();
    let mut at: usize = 0;
    assert(written@ =~= slashed(chars@).take(0));
    while at < chars.len()
        invariant
            at <= chars@.len(),
            written@ == slashed(chars@).take(at as int),
        decreases chars@.len() - at,
    {
        if chars[at] == '\\' {
            written.push('/');
        } else {
            written.push(chars[at]);
        }
        at = at + 1;
        assert(written@ =~= slashed(chars@).take(at as int));
    }
    assert(written@ =~= slashed(chars@));
    written
}

/// A path the way GitHub Actions resolves it: relative to the repository checkout when that is
/// known and contains the workspace, and to the workspace root otherwise.
pub open spec fn anchored(path: Seq<char>, root: Seq<char>, repository: Option<Seq<char>>) -> Seq<char> {
    match repository {
        Some(repository) if relative(root, repository) is Some && relative(
            path,
            repository,
        ) is Some => relative(path, repository)->0,
        _ => shown(path, root),
    }
}

fn display_path(path: &str, root: &str, repository: &Option<String>) -> (text: String)
    ensures
        text@ == anchored(
            path@,
            root@,
            text_view(*repository),
        ),
{
    if let Some(repository) = repository {
        if files::relative_to(root, repository.as_str()).is_some() {
            if let Some(rest) = files::relative_to(path, repository.as_str()) {
                return rest;
            }
        }
    }
    files::show(path, root)
}

/// The first witness of a violation, if it has one. A sealed witness is version-free, as in the
/// report below the annotations.
pub open spec fn first_witness_text(violation: ViolationView, version: Option<Seq<char>>) -> Option<
    Seq<char>,
> {
    if violation.matches.len() > 0 {
        Some(
            witness_text(
                violation.package,
                version,
                violation.matches[0].witness,
                violation.matches[0].other_versions,
            ),
        )
    } else if violation.extra.len() > 0 {
        Some(
            witness_text(
                violation.package,
                version,
                violation.extra[0].witness,
                violation.extra[0].other_versions,
            ),
        )
    } else if violation.sealed_by.len() > 0 {
        Some(plain_witness_text(violation.sealed_by[0].member, violation.sealed_by[0].witness))
    } else {
        None
    }
}

fn first_witness(violation: &Violation, version: Option<&str>) -> (witness: Option<String>)
    ensures
        (match witness {
            Some(witness) => Some(witness@),
            None => None,
        }) == first_witness_text(
            violation@,
            match version {
                Some(version) => Some(version@),
                None => None,
            },
        ),
{
    if violation.matches.len() > 0 {
        let found = &violation.matches[0];
        assert(violation@.matches[0] == found@);
        Some(
            human::render_witness(
                violation.package.as_str(),
                version,
                &found.witness,
                &found.other_versions,
            ),
        )
    } else if violation.extra.len() > 0 {
        let found = &violation.extra[0];
        assert(violation@.extra[0] == found@);
        Some(
            human::render_witness(
                violation.package.as_str(),
                version,
                &found.witness,
                &found.other_versions,
            ),
        )
    } else if violation.sealed_by.len() > 0 {
        let entry = &violation.sealed_by[0];
        assert(violation@.sealed_by[0] == entry@);
        Some(human::render_witness_versionless(entry.member.as_str(), &entry.witness))
    } else {
        None
    }
}

/// The message about a failed graph rule.
pub open spec fn graph_message(
    outcome: OutcomeView,
    status: StatusView,
    violation: ViolationView,
) -> Seq<char> {
    let summary = status.id + ": "@ + label_of(status, Some(violation));
    match first_witness_text(
        violation,
        version_named(
            outcome.member_versions,
            violation.package,
            outcome.member_versions.len() as int,
        ),
    ) {
        Some(witness) => summary + " \u{2014} "@ + witness,
        None => summary,
    }
}

/// The annotations of the graph rules that failed among the first `upto`.
pub open spec fn graph_annotations(outcome: OutcomeView, upto: int) -> Seq<AnnotationView>
    decreases upto,
{
    if upto <= 0 {
        Seq::empty()
    } else {
        let before = graph_annotations(outcome, upto - 1);
        let status = outcome.statuses[upto - 1];
        if status.passed || status.kind == manifest::RULE_KIND@ {
            before
        } else {
            match evidence_of(outcome.violations, status.id) {
                Some(violation) => before.push(
                    AnnotationView {
                        file: violation.span.0,
                        line: violation.span.1,
                        col: violation.span.2,
                        message: graph_message(outcome, status, violation),
                    },
                ),
                None => before,
            }
        }
    }
}

/// The annotation of a manifest entry.
pub open spec fn entry_annotation(entry: ManifestEntryView) -> AnnotationView {
    AnnotationView {
        file: entry.span.0,
        line: entry.span.1,
        col: entry.span.2,
        message: manifest::RULE_ID@ + ": "@ + entry_label(entry),
    }
}

/// The annotations of the manifest entries.
pub open spec fn manifest_annotations(outcome: OutcomeView) -> Seq<AnnotationView> {
    match outcome.manifest {
        Some(report) => Seq::new(
            report.entries.len(),
            |i: int| entry_annotation(report.entries[i]),
        ),
        None => Seq::empty(),
    }
}

/// Every annotation that there is something to say for: the graph rules first, in the order they
/// were declared, then the manifest entries.
pub open spec fn all_annotations(outcome: OutcomeView) -> Seq<AnnotationView> {
    graph_annotations(outcome, outcome.statuses.len() as int) + manifest_annotations(outcome)
}

/// The annotations of a report: as many as GitHub takes.
pub open spec fn annotations_of(outcome: OutcomeView) -> Seq<AnnotationView> {
    let all = all_annotations(outcome);
    if all.len() > ANNOTATION_LIMIT {
        all.take(ANNOTATION_LIMIT as int)
    } else {
        all
    }
}

/// An annotation as a workflow command.
pub open spec fn annotation_line(
    annotation: AnnotationView,
    root: Seq<char>,
    repository: Option<Seq<char>>,
) -> Seq<char> {
    "::error file="@ + escaped_property(slashed(anchored(annotation.file, root, repository)))
        + ",line="@ + decimal(annotation.line) + ",col="@ + decimal(annotation.col) + "::"@
        + escaped(annotation.message) + "\n"@
}

/// The first `upto` annotations as workflow commands.
pub open spec fn annotation_lines(
    annotations: Seq<AnnotationView>,
    root: Seq<char>,
    repository: Option<Seq<char>>,
    upto: int,
) -> Seq<char>
    decreases upto,
{
    if upto <= 0 {
        Seq::empty()
    } else {
        annotation_lines(annotations, root, repository, upto - 1) + annotation_line(
            annotations[upto - 1],
            root,
            repository,
        )
    }
}

/// The complete GitHub report.
pub open spec fn github_text(
    outcome: OutcomeView,
    repository: Option<Seq<char>>,
    sources: Seq<(Seq<char>, Seq<char>)>,
    color: bool,
) -> Seq<char> {
    let annotations = annotations_of(outcome);
    annotation_lines(annotations, outcome.workspace_root, repository, annotations.len() as int)
        + human::human_text(outcome, sources, color)
}

fn annotation_at(span: &Span, message: String) -> (annotation: Annotation)
    ensures
        annotation@ == (AnnotationView {
            file: span@.0,
            line: span@.1,
            col: span@.2,
            message: message@,
        }),
{
    Annotation { file: span.file.as_str().to_owned(), line: span.line, col: span.col, message }
}

fn collect_annotations(outcome: &Outcome) -> (list: Vec<Annotation>)
    ensures
        annotation_views(list@) == all_annotations(outcome@),
{
    let ghost view = outcome@;
    let mut list: Vec<Annotation> = Vec::new();
    let mut at: usize = 0;
    assert(annotation_views(list@) =~= graph_annotations(view, 0));
    while at < outcome.statuses.len()
        invariant
            view == outcome@,
            at <= outcome.statuses@.len(),
            annotation_views(list@) == graph_annotations(view, at as int),
        decreases outcome.statuses@.len() - at,
    {
        let status = &outcome.statuses[at];
        assert(view.statuses[at as int] == status@);
        if !status.passed && !text::same(status.kind, manifest::RULE_KIND) {
            if let Some(violation) = violation_lookup(&outcome.violations, status.id.as_str()) {
                let mut message = status.id.as_str().to_owned();
                message.push_str(": ");
                let label = human::violation_label(status, Some(violation));
                message.push_str(label.as_str());
                let version = match outcome.member_versions.get(violation.package.as_str()) {
                    Some(version) => Some(version.as_str()),
                    None => None,
                };
                if let Some(witness) = first_witness(violation, version) {
                    message.push_str(" \u{2014} ");
                    message.push_str(witness.as_str());
                }
                let ghost before = annotation_views(list@);
                let annotation = annotation_at(&violation.span, message);
                list.push(annotation);
                assert(annotation_views(list@) =~= before.push(annotation@));
            }
        }
        at = at + 1;
    }
    let ghost graph_only = annotation_views(list@);
    if let Some(report) = &outcome.manifest {
        let ghost entries = manifest_annotations(view);
        let mut at: usize = 0;
        assert(annotation_views(list@) =~= graph_only + entries.take(0));
        while at < report.entries.len()
            invariant
                view.manifest == Some(report@),
                entries == manifest_annotations(view),
                at <= report.entries@.len(),
                annotation_views(list@) == graph_only + entries.take(at as int),
            decreases report.entries@.len() - at,
        {
            let entry = &report.entries[at];
            let mut message = manifest::RULE_ID.to_owned();
            message.push_str(": ");
            let label = human::label_of_entry(entry);
            message.push_str(label.as_str());
            let ghost before = annotation_views(list@);
            let annotation = annotation_at(&entry.span, message);
            list.push(annotation);
            proof {
                assert(annotation_views(list@) =~= before.push(annotation@));
                assert(report@.entries[at as int] == entry@);
                assert(entries[at as int] == annotation@);
                assert(annotation_views(list@) =~= graph_only + entries.take(at + 1));
            }
            at = at + 1;
        }
        assert(entries.take(at as int) =~= entries);
    } else {
        assert(graph_only + manifest_annotations(view) =~= graph_only);
    }
    list
}

/// Renders at most ten GitHub error annotations followed by the human report.
///
/// Graph-rule failures retain declaration order and take priority over manifest entries when the
/// annotation cap is reached. Annotation paths are anchored at
/// [`RenderContext::github_workspace`] when it is set and contains the workspace root, and at the
/// workspace root otherwise.
pub fn render(outcome: &Outcome, ctx: &RenderContext, sources: &Vec<SourceData>) -> (report: String)
    ensures
        report@ == github_text(
            outcome@,
            text_view(ctx.github_workspace),
            source_views(sources@),
            ctx.color,
        ),
{
    let ghost view = outcome@;
    let ghost root = outcome.workspace_root@;
    let ghost repository = text_view(ctx.github_workspace);
    let list = collect_annotations(outcome);
    let ghost shorter = annotations_of(view);
    let count: usize = if list.len() > ANNOTATION_LIMIT {
        ANNOTATION_LIMIT
    } else {
        list.len()
    };
    assert(shorter.len() == count);
    let mut out = String::new();
    let mut at: usize = 0;
    assert(out@ =~= annotation_lines(shorter, root, repository, 0));
    while at < count
        invariant
            view == outcome@,
            root == outcome.workspace_root@,
            repository == text_view(ctx.github_workspace),
            annotation_views(list@) == all_annotations(view),
            shorter == annotations_of(view),
            at <= count == shorter.len() <= list@.len(),
            out@ == annotation_lines(shorter, root, repository, at as int),
        decreases count - at,
    {
        let annotation = &list[at];
        assert(shorter[at as int] == annotation@) by {
            assert(annotation_views(list@)[at as int] == annotation@);
        }
        let path = display_path(
            annotation.file.as_str(),
            outcome.workspace_root.as_str(),
            &ctx.github_workspace,
        );
        let path = slash(path.as_str());
        let path = escape_property(path.as_str());
        let message = escape(annotation.message.as_str());
        let mut line = "::error file=".to_owned();
        line.push_str(path.as_str());
        line.push_str(",line=");
        text::push_decimal(&mut line, annotation.line as u128);
        line.push_str(",col=");
        text::push_decimal(&mut line, annotation.col as u128);
        line.push_str("::");
        line.push_str(message.as_str());
        line.push_str("\n");
        assert(line@ == annotation_line(annotation@, root, repository));
        out.push_str(line.as_str());
        at = at + 1;
    }
    let below = human::render(outcome, ctx, sources);
    out.push_str(below.as_str());
    out
}

/// No report has more annotations than GitHub takes, none that there is room for is left out, and
/// those of graph rules come before those of manifest entries.
pub proof fn annotations_are_capped(outcome: OutcomeView)
    ensures
        annotations_of(outcome).len() <= ANNOTATION_LIMIT,
        all_annotations(outcome).len() <= ANNOTATION_LIMIT ==> annotations_of(outcome)
            == all_annotations(outcome),
        forall|i: int|
            0 <= i < annotations_of(outcome).len() ==> #[trigger] annotations_of(outcome)[i]
                == all_annotations(outcome)[i],
        forall|i: int|
            0 <= i < annotations_of(outcome).len() && i < graph_annotations(
                outcome,
                outcome.statuses.len() as int,
            ).len() ==> #[trigger] annotations_of(outcome)[i] == graph_annotations(
                outcome,
                outcome.statuses.len() as int,
            )[i],
{
}

proof fn escaped_texts()
    ensures
        "%25"@ == seq!['%', '2', '5'],
        "%0D"@ == seq!['%', '0', 'D'],
        "%0A"@ == seq!['%', '0', 'A'],
        "%3A"@ == seq!['%', '3', 'A'],
        "%2C"@ == seq!['%', '2', 'C'],
{
    reveal_strlit("%25");
    reveal_strlit("%0D");
    reveal_strlit("%0A");
    reveal_strlit("%3A");
    reveal_strlit("%2C");
    assert("%25"@ =~= seq!['%', '2', '5']);
    assert("%0D"@ =~= seq!['%', '0', 'D']);
    assert("%0A"@ =~= seq!['%', '0', 'A']);
    assert("%3A"@ =~= seq!['%', '3', 'A']);
    assert("%2C"@ =~= seq!['%', '2', 'C']);
}

proof fn escaping_starts_at_the_front(message: Seq<char>)
    requires
        message.len() > 0,
    ensures
        escaped(message) == escaped_char(message[0]) + escaped(message.skip(1)),
    decreases message.len(),
{
    let less = message.drop_last();
    if message.len() == 1 {
        assert(less =~= Seq::<char>::empty());
        assert(message.skip(1) =~= Seq::<char>::empty());
        assert(escaped(message) =~= escaped_char(message[0]) + escaped(message.skip(1)));
    } else {
        escaping_starts_at_the_front(less);
        assert(less[0] == message[0]);
        assert(less.skip(1) =~= message.skip(1).drop_last());
        assert(message.skip(1).last() == message.last());
        assert(escaped(message) =~= escaped_char(message[0]) + escaped(message.skip(1)));
    }
}

proof fn property_escaping_starts_at_the_front(value: Seq<char>)
    requires
        value.len() > 0,
    ensures
        escaped_property(value) == escaped_property_char(value[0]) + escaped_property(value.skip(1)),
    decreases value.len(),
{
    let less = value.drop_last();
    if value.len() == 1 {
        assert(less =~= Seq::<char>::empty());
        assert(value.skip(1) =~= Seq::<char>::empty());
        assert(escaped_property(value) =~= escaped_property_char(value[0]) + escaped_property(
            value.skip(1),
        ));
    } else {
        property_escaping_starts_at_the_front(less);
        assert(less[0] == value[0]);
        assert(less.skip(1) =~= value.skip(1).drop_last());
        assert(value.skip(1).last() == value.last());
        assert(escaped_property(value) =~= escaped_property_char(value[0]) + escaped_property(
            value.skip(1),
        ));
    }
}

/// Different messages are escaped differently, whatever escapes they hold themselves, so a reader
/// can undo the escaping.
pub proof fn escaping_loses_nothing(left: Seq<char>, right: Seq<char>)
    requires
        escaped(left) == escaped(right),
    ensures
        left == right,
    decreases left.len(),
{
    escaped_texts();
    if left.len() > 0 {
        escaping_starts_at_the_front(left);
    }
    if right.len() > 0 {
        escaping_starts_at_the_front(right);
    }
    if left.len() > 0 && right.len() > 0 {
        let one = escaped_char(left[0]);
        let two = escaped_char(right[0]);
        let whole = escaped(left);
        assert(whole[0] == one[0] && whole[0] == two[0]);
        if whole[0] == '%' {
            assert(whole[1] == one[1] && whole[1] == two[1]);
            assert(whole[2] == one[2] && whole[2] == two[2]);
        }
        assert(left[0] == right[0]);
        assert(escaped(left.skip(1)) =~= whole.skip(one.len() as int));
        assert(escaped(right.skip(1)) =~= whole.skip(one.len() as int));
        escaping_loses_nothing(left.skip(1), right.skip(1));
        assert(left =~= seq![left[0]] + left.skip(1));
        assert(right =~= seq![right[0]] + right.skip(1));
    } else {
        assert(left.len() == 0 && right.len() == 0) by {
            if left.len() > 0 {
                assert(escaped(left).len() > 0);
            }
            if right.len() > 0 {
                assert(escaped(right).len() > 0);
            }
        }
        assert(left =~= right);
    }
}

/// Different properties are escaped differently.
pub proof fn property_escaping_loses_nothing(left: Seq<char>, right: Seq<char>)
    requires
        escaped_property(left) == escaped_property(right),
    ensures
        left == right,
    decreases left.len(),
{
    escaped_texts();
    if left.len() > 0 {
        property_escaping_starts_at_the_front(left);
    }
    if right.len() > 0 {
        property_escaping_starts_at_the_front(right);
    }
    if left.len() > 0 && right.len() > 0 {
        let one = escaped_property_char(left[0]);
        let two = escaped_property_char(right[0]);
        let whole = escaped_property(left);
        assert(whole[0] == one[0] && whole[0] == two[0]);
        if whole[0] == '%' {
            assert(whole[1] == one[1] && whole[1] == two[1]);
            assert(whole[2] == one[2] && whole[2] == two[2]);
        }
        assert(left[0] == right[0]);
        assert(escaped_property(left.skip(1)) =~= whole.skip(one.len() as int));
        assert(escaped_property(right.skip(1)) =~= whole.skip(one.len() as int));
        property_escaping_loses_nothing(left.skip(1), right.skip(1));
        assert(left =~= seq![left[0]] + left.skip(1));
        assert(right =~= seq![right[0]] + right.skip(1));
    } else {
        assert(left.len() == 0 && right.len() == 0) by {
            if left.len() > 0 {
                assert(escaped_property(left).len() > 0);
            }
            if right.len() > 0 {
                assert(escaped_property(right).len() > 0);
            }
        }
        assert(left =~= right);
    }
}

/// An escaped message has no line breaks.
pub proof fn escaped_messages_stay_on_a_line(message: Seq<char>)
    ensures
        forall|i: int|
            0 <= i < escaped(message).len() ==> #[trigger] escaped(message)[i] != '\n' && escaped(
                message,
            )[i] != '\r',
    decreases message.len(),
{
    escaped_texts();
    if message.len() > 0 {
        let less = message.drop_last();
        escaped_messages_stay_on_a_line(less);
        let last = escaped_char(message.last());
        assert forall|i: int| 0 <= i < escaped(message).len() implies #[trigger] escaped(
            message,
        )[i] != '\n' && escaped(message)[i] != '\r' by {
            if i < escaped(less).len() {
                assert(escaped(message)[i] == escaped(less)[i]);
            } else {
                assert(escaped(message)[i] == last[i - escaped(less).len()]);
            }
        }
    }
}

/// An escaped property has neither line breaks nor what delimits properties.
pub proof fn escaped_properties_delimit_nothing(value: Seq<char>)
    ensures
        forall|i: int|
            0 <= i < escaped_property(value).len() ==> {
                let c = #[trigger] escaped_property(value)[i];
                c != '\n' && c != '\r' && c != ':' && c != ','
            },
    decreases value.len(),
{
    escaped_texts();
    if value.len() > 0 {
        let less = value.drop_last();
        escaped_properties_delimit_nothing(less);
        let last = escaped_property_char(value.last());
        assert forall|i: int| 0 <= i < escaped_property(value).len() implies {
            let c = #[trigger] escaped_property(value)[i];
            c != '\n' && c != '\r' && c != ':' && c != ','
        } by {
            if i < escaped_property(less).len() {
                assert(escaped_property(value)[i] == escaped_property(less)[i]);
            } else {
                assert(escaped_property(value)[i] == last[i - escaped_property(less).len()]);
            }
        }
    }
}

} // verus!
