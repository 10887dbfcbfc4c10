//! What the command line decides before and after a command runs.

use crate::config::Span;
use crate::error::{Error, ErrorView};
use crate::metadata::{MetadataSource, SourceView};
use crate::pipeline::{ExplainOutcome, ExplainView, Outcome};
use crate::report::human::{self, config_drawing, witness_text};
use crate::report::Format;
use crate::rules::{hop_views, HopView, WitnessHop};
use crate::text::{self, joined, texts};
use vstd::prelude::*;

verus! {

/// The argument that Cargo puts behind the name of a plugin.
pub const PLUGIN_TOKEN: &'static str = "depgate";

/// The name of the program when it is told none.
pub const PROGRAM: &'static str = "cargo-depgate";

/// The arguments that are parsed: those given, with `program` for a missing name, and without the
/// second one when that is the plugin token.
pub open spec fn parsed_arguments<T>(argv: Seq<T>, program: T, plugin: bool) -> Seq<T> {
    if argv.len() == 0 {
        seq![program]
    } else if plugin && argv.len() > 1 {
        argv.remove(1)
    } else {
        argv
    }
}

/// Makes direct `cargo-depgate` and Cargo-plugin `cargo depgate` arguments alike. `plugin` says
/// whether the second argument is [`PLUGIN_TOKEN`].
pub fn arguments<T>(argv: Vec<T>, program: T, plugin: bool) -> (parsed: Vec<T>)
    ensures
        parsed@ == parsed_arguments(argv@, program, plugin),
{
    let mut parsed = argv;
    if parsed.len() == 0 {
        parsed.push(program);
        assert(parsed@ =~= seq![program]);
    } else if plugin && parsed.len() > 1 {
        parsed.remove(1);
    }
    parsed
}

/// A plugin call and a direct call with the same arguments are parsed alike.
pub proof fn plugin_and_direct_calls_are_alike<T>(argv: Seq<T>, token: T, program: T)
    requires
        argv.len() > 0,
    ensures
        parsed_arguments(argv.insert(1, token), program, true) == parsed_arguments(
            argv,
            program,
            false,
        ),
{
    assert(argv.insert(1, token).remove(1) =~= argv);
}

/// The source that the value of `--metadata-json` names.
pub open spec fn source_of(value: Seq<char>) -> SourceView {
    if value == "-"@ {
        SourceView::Stdin
    } else {
        SourceView::File(value)
    }
}

/// Reads the value of `--metadata-json`: `-` selects standard input, anything else is a file.
#[must_use]
pub fn metadata_source(value: &str) -> (source: MetadataSource)
    ensures
        (match source {
            MetadataSource::Stdin => SourceView::Stdin,
            MetadataSource::File(path) => SourceView::File(path@),
        }) == source_of(value@),
{
    if text::same(value, "-") {
        MetadataSource::Stdin
    } else {
        MetadataSource::File(value.to_owned())
    }
}

/// The format of a report: the one that was asked for, or else GitHub's when the run is one of
/// GitHub Actions, that is, when `GITHUB_ACTIONS` is `true`.
pub open spec fn format_of(explicit: Option<Format>, github_actions: Option<Seq<char>>) -> Format {
    match explicit {
        Some(format) => format,
        None => if github_actions == Some("true"@) {
            Format::Github
        } else {
            Format::Human
        },
    }
}

/// Resolves the format of a report. `github_actions` is the value of `GITHUB_ACTIONS`.
#[must_use]
pub fn resolve_format(explicit: Option<Format>, github_actions: Option<&str>) -> (format: Format)
    ensures
        format == format_of(
            explicit,
            match github_actions {
                Some(value) => Some(value@),
                None => None,
            },
        ),
{
    match explicit {
        Some(format) => format,
        None => match github_actions {
            Some(value) => if text::same(value, "true") {
                Format::Github
            } else {
                Format::Human
            },
            None => Format::Human,
        },
    }
}

/// Which of the flags that a precomputed document makes inert were given.
#[derive(Clone, Copy, Debug, PartialEq, Eq)]
pub struct FlagsGiven {
    /// `--metadata-json`.
    pub metadata_json: bool,
    /// `--locked`.
    pub locked: bool,
    /// `--no-locked`.
    pub no_locked: bool,
    /// `--features`.
    pub features: bool,
    /// `--all-features`.
    pub all_features: bool,
    /// `--no-default-features`.
    pub no_default_features: bool,
}

/// The warning about the lock flags.
pub open spec fn lock_warning() -> Seq<char> {
    "warning: --locked is ignored under --metadata-json; the JSON may predate Cargo.lock"@
}

/// The feature flags that were given, in order.
pub open spec fn feature_flags_given(flags: FlagsGiven) -> Seq<Seq<char>> {
    (if flags.features {
        seq!["--features"@]
    } else {
        Seq::empty()
    }) + (if flags.all_features {
        seq!["--all-features"@]
    } else {
        Seq::empty()
    }) + (if flags.no_default_features {
        seq!["--no-default-features"@]
    } else {
        Seq::empty()
    })
}

/// The warning about feature flags.
pub open spec fn feature_warning(flags: Seq<Seq<char>>) -> Seq<char> {
    "warning: "@ + joined(flags, ", "@)
        + " ignored under --metadata-json; the JSON was produced with its own feature selection"@
}

/// The warnings about flags that a precomputed document makes inert.
pub open spec fn flag_warnings(flags: FlagsGiven) -> Seq<Seq<char>> {
    if !flags.metadata_json {
        Seq::empty()
    } else {
        (if flags.locked || flags.no_locked {
            seq![lock_warning()]
        } else {
            Seq::empty()
        }) + (if feature_flags_given(flags).len() > 0 {
            seq![feature_warning(feature_flags_given(flags))]
        } else {
            Seq::empty()
        })
    }
}

/// The warnings about flags that `--metadata-json` renders inert.
///
/// Both are silent failure modes otherwise: the lock is enforced by whoever produced the
/// document, and the feature flags shaped nothing. `--offline` and `--cargo-timeout` are
/// deliberately not warned about: they are inert but harmless.
#[must_use]
pub fn warn_if_flags_ignored(flags: FlagsGiven) -> (warnings: Vec<String>)
    ensures
        texts(warnings@) == flag_warnings(flags),
{
    let mut warnings: Vec<String> = Vec::new();
    assert(texts(warnings@) =~= Seq::<Seq<char>>::empty());
    if !flags.metadata_json {
        return warnings;
    }
    if flags.locked || flags.no_locked {
        warnings.push(
            "warning: --locked is ignored under --metadata-json; the JSON may predate Cargo.lock".to_owned(),
        );
        assert(texts(warnings@) =~= seq![lock_warning()]);
    }
    let ghost before = texts(warnings@);
    let mut given: Vec<String> = Vec::new();
    if flags.features {
        given.push("--features".to_owned());
    }
    if flags.all_features {
        given.push("--all-features".to_owned());
    }
    if flags.no_default_features {
        given.push("--no-default-features".to_owned());
    }
    assert(texts(given@) =~= feature_flags_given(flags));
    if given.len() > 0 {
        let mut warning = "warning: ".to_owned();
        let list = text::join(&given, ", ");
        warning.push_str(list.as_str());
        warning.push_str(
            " ignored under --metadata-json; the JSON was produced with its own feature selection",
        );
        warnings.push(warning);
        assert(texts(warnings@) =~= before + seq![warning@]);
    }
    assert(texts(warnings@) =~= flag_warnings(flags));
    warnings
}

/// The answer to a query, as a line.
pub open spec fn explain_line(outcome: ExplainView) -> Seq<char> {
    (if outcome.reachable {
        witness_text(outcome.root, Some(outcome.root_version), outcome.path, Seq::empty())
    } else {
        "not reachable"@
    }) + "\n"@
}

/// Renders the answer to a query for a reader. GitHub annotations have no natural shape for
/// reachability queries, so both text formats use it.
#[must_use]
pub fn explain_text(outcome: &ExplainOutcome) -> (line: String)
    ensures
        line@ == explain_line(outcome@),
{
    let mut line = if outcome.reachable {
        let others: Vec<String> = Vec::new();
        assert(texts(others@) =~= Seq::<Seq<char>>::empty());
        human::render_witness(
            outcome.root.as_str(),
            Some(outcome.root_version.as_str()),
            &outcome.path,
            &others,
        )
    } else {
        "not reachable".to_owned()
    };
    line.push_str("\n");
    line
}

/// The hops of an answer, the package that the query starts from included.
pub open spec fn explain_hops(outcome: ExplainView) -> Seq<HopView> {
    if outcome.reachable {
        seq![
            HopView {
                name: outcome.root,
                version: outcome.root_version,
                target: None,
                optional: false,
            },
        ] + outcome.path
    } else {
        Seq::empty()
    }
}

fn copy_hop(hop: &WitnessHop) -> (copied: WitnessHop)
    ensures
        copied@ == hop@,
{
    WitnessHop {
        name: hop.name.as_str().to_owned(),
        version: hop.version.as_str().to_owned(),
        target: match &hop.target {
            Some(target) => Some(target.as_str().to_owned()),
            None => None,
        },
        optional: hop.optional,
    }
}

/// The path of the structured answer to a query: every package on it, the one that the query
/// starts from first; empty when the dependency is not reachable.
#[must_use]
pub fn explain_path(outcome: &ExplainOutcome) -> (path: Vec<WitnessHop>)
    ensures
        hop_views(path@) == explain_hops(outcome@),
{
    let mut path: Vec<WitnessHop> = Vec::new();
    if !outcome.reachable {
        assert(hop_views(path@) =~= Seq::<HopView>::empty());
        return path;
    }
    path.push(
        WitnessHop {
            name: outcome.root.as_str().to_owned(),
            version: outcome.root_version.as_str().to_owned(),
            target: None,
            optional: false,
        },
    );
    let ghost hops = outcome@.path;
    let mut at: usize = 0;
    while at < outcome.path.len()
        invariant
            hops == outcome@.path,
            at <= outcome.path@.len(),
            path@.len() == at + 1,
            path@[0]@ == explain_hops(outcome@)[0],
            outcome.reachable,
            forall|i: int| 0 <= i < at ==> (#[trigger] path@[i + 1])@ == hops[i],
        decreases outcome.path@.len() - at,
    {
        assert(hops[at as int] == outcome.path@[at as int]@);
        path.push(copy_hop(&outcome.path[at]));
        at = at + 1;
    }
    assert forall|i: int| 0 <= i < path@.len() implies (#[trigger] path@[i])@ == explain_hops(
        outcome@,
    )[i] by {
        if i > 0 {
            assert(path@[(i - 1) + 1]@ == hops[i - 1]);
        }
    }
    assert(hop_views(path@) =~= explain_hops(outcome@));
    path
}

/// What a completed check comes to: success, or an error that counts the rules that failed.
///
/// # Errors
///
/// [`Error::PolicyViolations`] when a rule failed.
pub fn check_result(outcome: &Outcome) -> (result: Result<(), Error>)
    ensures
        match result {
            Ok(()) => outcome.exit == 0,
            Err(error) => outcome.exit != 0 && error@ == (ErrorView::PolicyViolations {
                count: outcome.counters.violations as nat,
            }),
        },
{
    if outcome.exit == 0 {
        Ok(())
    } else {
        Err(Error::PolicyViolations { count: outcome.counters.violations as usize })
    }
}

/// How writing a report ended.
#[derive(Clone, Debug, PartialEq, Eq)]
pub enum WriteEnd {
    /// Everything was written.
    Written,
    /// The reader closed its end early.
    BrokenPipe,
    /// Writing failed.
    Failed(String),
}

/// Converts the end of a write into the CLI error contract.
///
/// A broken pipe (e.g. the reader end of a `| head` pipeline closing early) is treated as
/// intentional: the caller falls through to its ordinary outcome. Any other failure is an error
/// of its own, so a truncated report is never mistaken for a passing or failing policy result.
///
/// # Errors
///
/// [`Error::ReportWrite`] when writing failed.
pub fn write_report_result(end: WriteEnd) -> (result: Result<(), Error>)
    ensures
        match (result, end) {
            (Ok(()), WriteEnd::Written) => true,
            (Ok(()), WriteEnd::BrokenPipe) => true,
            (Err(error), WriteEnd::Failed(cause)) => error@ == (ErrorView::ReportWrite {
                cause: cause@,
            }),
            _ => false,
        },
{
    match end {
        WriteEnd::Written => Ok(()),
        WriteEnd::BrokenPipe => Ok(()),
        WriteEnd::Failed(cause) => Err(Error::ReportWrite { cause }),
    }
}

/// A configuration error as it is shown: under its source line, or on a single line when it has
/// no place or the source could not be read.
pub open spec fn configuration_error_text(
    message: Seq<char>,
    span: Option<(Seq<char>, nat, nat)>,
    source: Option<Seq<char>>,
    color: bool,
) -> Seq<char> {
    let drawing = match span {
        Some(span) => config_drawing(message, span, source, color),
        None => None,
    };
    (match drawing {
        Some(drawing) => drawing,
        None => "error: "@ + message,
    }) + "\n"@
}

/// Renders a configuration error for the binary entry point. `source` is the text of the file
/// that the error stands in, when it could be read.
#[must_use]
pub fn render_configuration_error(
    message: &str,
    span: Option<&Span>,
    source: Option<&str>,
    color: bool,
) -> (rendered: String)
    ensures
        rendered@ == configuration_error_text(
            message@,
            match span {
                Some(span) => Some(span@),
                None => None,
            },
            match source {
                Some(source) => Some(source@),
                None => None,
            },
            color,
        ),
{
    let drawing = match span {
        Some(span) => human::render_config_snippet(message, span, source, color),
        None => None,
    };
    let mut rendered = match drawing {
        Some(drawing) => drawing,
        None => {
            let mut line = "error: ".to_owned();
            line.push_str(message);
            line
        },
    };
    rendered.push_str("\n");
    rendered
}

} // verus!
