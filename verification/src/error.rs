//! Error types and process exit-code mappings.

use crate::config::Span;
use crate::text::{self, decimal};
use vstd::prelude::*;

verus! {

/// An error produced while evaluating or preparing a dependency policy command.
///
/// Where an error was caused by another one, `cause` holds that error's message.
#[derive(Clone, Debug, PartialEq, Eq)]
#[non_exhaustive]
pub enum Error {
    /// Dependency-graph policy violations were found.
    PolicyViolations {
        /// The number of policy violations found.
        count: usize,
    },
    /// The supplied configuration is invalid or could not be loaded.
    Configuration {
        /// A description of the configuration problem.
        message: String,
        /// Where in the configuration the problem stands, when it stands anywhere.
        span: Option<Span>,
    },
    /// The requested command or arguments are invalid.
    Usage {
        /// A description of the usage problem.
        message: String,
    },
    /// The subcommand has no behavior yet.
    NotYetImplemented {
        /// The subcommand.
        subcommand: String,
    },
    /// Spawning the `cargo metadata` child process failed.
    CargoMetadataSpawn {
        /// The operating-system error returned while spawning the child process.
        cause: String,
    },
    /// The `cargo metadata` child process exceeded its allowed runtime.
    CargoMetadataTimeout {
        /// The maximum runtime allowed for the child process, in seconds.
        timeout: u64,
    },
    /// The pipe from `cargo metadata` failed, or the child could not be reaped.
    CargoMetadataRead {
        /// The operating-system error.
        cause: String,
    },
    /// The `cargo metadata` child process exited unsuccessfully.
    CargoMetadataFailed {
        /// The process exit code, or `None` if the process ended without one.
        status: Option<i32>,
    },
    /// The `cargo metadata` output was not valid expected JSON.
    CargoMetadataUnparseable {
        /// The JSON decoder's message.
        cause: String,
    },
    /// Precomputed metadata could not be read.
    MetadataRead {
        /// The file, or `-` for standard input.
        path: String,
        /// The operating-system error.
        cause: String,
    },
    /// The metadata breaks a rule that the graph relies on.
    MetadataInvalid {
        /// The broken rule.
        message: String,
    },
    /// A member manifest could not be read.
    ManifestRead {
        /// The manifest.
        path: String,
        /// The operating-system error.
        cause: String,
    },
    /// A member manifest is not a manifest.
    ManifestParse {
        /// The manifest.
        path: String,
        /// What is wrong with it, and where.
        cause: String,
    },
    /// The report could not be written.
    ReportWrite {
        /// The operating-system error.
        cause: String,
    },
}

/// An [`Error`] by the characters of its strings.
pub enum ErrorView {
    PolicyViolations { count: nat },
    Configuration { message: Seq<char>, span: Option<(Seq<char>, nat, nat)> },
    Usage { message: Seq<char> },
    NotYetImplemented { subcommand: Seq<char> },
    CargoMetadataSpawn { cause: Seq<char> },
    CargoMetadataTimeout { timeout: nat },
    CargoMetadataRead { cause: Seq<char> },
    CargoMetadataFailed { status: Option<i32> },
    CargoMetadataUnparseable { cause: Seq<char> },
    MetadataRead { path: Seq<char>, cause: Seq<char> },
    MetadataInvalid { message: Seq<char> },
    ManifestRead { path: Seq<char>, cause: Seq<char> },
    ManifestParse { path: Seq<char>, cause: Seq<char> },
    ReportWrite { cause: Seq<char> },
}

impl View for Error {
    type V = ErrorView;

    open spec fn view(&self) -> ErrorView {
        match *self {
            Error::PolicyViolations { count } => ErrorView::PolicyViolations {
                count: count as nat,
            },
            Error::Configuration { message, span } => ErrorView::Configuration {
                message: message@,
                span: match span {
                    Some(span) => Some(span@),
                    None => None,
                },
            },
            Error::Usage { message } => ErrorView::Usage { message: message@ },
            Error::NotYetImplemented { subcommand } => ErrorView::NotYetImplemented {
                subcommand: subcommand@,
            },
            Error::CargoMetadataSpawn { cause } => ErrorView::CargoMetadataSpawn { cause: cause@ },
            Error::CargoMetadataTimeout { timeout } => ErrorView::CargoMetadataTimeout {
                timeout: timeout as nat,
            },
            Error::CargoMetadataRead { cause } => ErrorView::CargoMetadataRead { cause: cause@ },
            Error::CargoMetadataFailed { status } => ErrorView::CargoMetadataFailed { status },
            Error::CargoMetadataUnparseable { cause } => ErrorView::CargoMetadataUnparseable {
                cause: cause@,
            },
            Error::MetadataRead { path, cause } => ErrorView::MetadataRead {
                path: path@,
                cause: cause@,
            },
            Error::MetadataInvalid { message } => ErrorView::MetadataInvalid { message: message@ },
            Error::ManifestRead { path, cause } => ErrorView::ManifestRead {
                path: path@,
                cause: cause@,
            },
            Error::ManifestParse { path, cause } => ErrorView::ManifestParse {
                path: path@,
                cause: cause@,
            },
            Error::ReportWrite { cause } => ErrorView::ReportWrite { cause: cause@ },
        }
    }
}

/// The process exit code of an error: 1 for policy violations, 2 for configuration and usage,
/// 3 for metadata and manifests, 4 for a report that could not be written.
pub open spec fn exit_code_of(error: ErrorView) -> u8 {
    match error {
        ErrorView::PolicyViolations { .. } => 1,
        ErrorView::Configuration { .. } => 2,
        ErrorView::Usage { .. } => 2,
        ErrorView::NotYetImplemented { .. } => 2,
        ErrorView::ReportWrite { .. } => 4,
        _ => 3,
    }
}

impl Error {
    /// Returns the process exit code this error maps to.
    #[must_use]
    pub fn exit_code(&self) -> (code: u8)
        ensures
            code == exit_code_of(self@),
    {
        match self {
            Error::PolicyViolations { .. } => 1,
            Error::Configuration { .. } | Error::Usage { .. } | Error::NotYetImplemented {
                ..
            } => 2,
            Error::CargoMetadataSpawn { .. }
            | Error::CargoMetadataTimeout { .. }
            | Error::CargoMetadataRead { .. }
            | Error::CargoMetadataFailed { .. }
            | Error::CargoMetadataUnparseable { .. }
            | Error::MetadataRead { .. }
            | Error::MetadataInvalid { .. }
            | Error::ManifestRead { .. }
            | Error::ManifestParse { .. } => 3,
            Error::ReportWrite { .. } => 4,
        }
    }
}

/// A process exit code in decimal.
pub open spec fn signed_decimal(value: i32) -> Seq<char> {
    if value < 0 {
        "-"@ + decimal((-(value as int)) as nat)
    } else {
        decimal(value as nat)
    }
}

/// What an error says, without its cause.
pub open spec fn error_text(error: ErrorView) -> Seq<char> {
    match error {
        ErrorView::PolicyViolations { count } => "found "@ + decimal(count)
            + " dependency policy violation(s)"@,
        ErrorView::Configuration { message, .. } => "configuration error: "@ + message,
        ErrorView::Usage { message } => "usage error: "@ + message,
        ErrorView::NotYetImplemented { subcommand } => "the "@ + subcommand
            + " subcommand is not implemented yet"@,
        ErrorView::CargoMetadataSpawn { .. } => "failed to spawn cargo metadata"@,
        ErrorView::CargoMetadataTimeout { timeout } => "cargo metadata exceeded --cargo-timeout="@
            + decimal(timeout) + "s"@,
        ErrorView::CargoMetadataRead { .. } => "failed to read cargo metadata output"@,
        ErrorView::CargoMetadataFailed { status } => match status {
            Some(code) => "cargo metadata exited with status "@ + signed_decimal(code),
            None => "cargo metadata was terminated by a signal"@,
        },
        ErrorView::CargoMetadataUnparseable { .. } => "failed to parse cargo metadata output"@,
        ErrorView::MetadataRead { path, .. } => "failed to read metadata from "@ + path,
        ErrorView::MetadataInvalid { message } => "invalid cargo metadata: "@ + message,
        ErrorView::ManifestRead { path, .. } => "failed to read manifest "@ + path,
        ErrorView::ManifestParse { path, .. } => "failed to parse manifest "@ + path,
        ErrorView::ReportWrite { .. } => "failed to write the report"@,
    }
}

fn push_status(message: &mut String, code: i32)
    ensures
        final(message)@ == old(message)@ + signed_decimal(code),
{
    if code < 0 {
        message.push_str("-");
        let wide: i64 = code as i64;
        text::push_decimal(message, (-wide) as u128);
        assert(message@ =~= old(message)@ + signed_decimal(code));
    } else {
        text::push_decimal(message, code as u128);
    }
}

impl Error {
    /// Says what went wrong, without the cause.
    #[must_use]
    pub fn describe(&self) -> (message: String)
        ensures
            message@ == error_text(self@),
    {
        match self {
            Error::PolicyViolations { count } => {
                let mut message = "found ".to_owned();
                text::push_decimal(&mut message, *count as u128);
                message.push_str(" dependency policy violation(s)");
                message
            },
            Error::Configuration { message: problem, .. } => {
                let mut message = "configuration error: ".to_owned();
                message.push_str(problem.as_str());
                message
            },
            Error::Usage { message: problem } => {
                let mut message = "usage error: ".to_owned();
                message.push_str(problem.as_str());
                message
            },
            Error::NotYetImplemented { subcommand } => {
                let mut message = "the ".to_owned();
                message.push_str(subcommand.as_str());
                message.push_str(" subcommand is not implemented yet");
                message
            },
            Error::CargoMetadataSpawn { .. } => "failed to spawn cargo metadata".to_owned(),
            Error::CargoMetadataTimeout { timeout } => {
                let mut message = "cargo metadata exceeded --cargo-timeout=".to_owned();
                text::push_decimal(&mut message, *timeout as u128);
                message.push_str("s");
                message
            },
            Error::CargoMetadataRead { .. } => "failed to read cargo metadata output".to_owned(),
            Error::CargoMetadataFailed { status } => match status {
                Some(code) => {
                    let mut message = "cargo metadata exited with status ".to_owned();
                    push_status(&mut message, *code);
                    message
                },
                None => "cargo metadata was terminated by a signal".to_owned(),
            },
            Error::CargoMetadataUnparseable { .. } =>
                "failed to parse cargo metadata output".to_owned(),
            Error::MetadataRead { path, .. } => {
                let mut message = "failed to read metadata from ".to_owned();
                message.push_str(path.as_str());
                message
            },
            Error::MetadataInvalid { message: problem } => {
                let mut message = "invalid cargo metadata: ".to_owned();
                message.push_str(problem.as_str());
                message
            },
            Error::ManifestRead { path, .. } => {
                let mut message = "failed to read manifest ".to_owned();
                message.push_str(path.as_str());
                message
            },
            Error::ManifestParse { path, .. } => {
                let mut message = "failed to parse manifest ".to_owned();
                message.push_str(path.as_str());
                message
            },
            Error::ReportWrite { .. } => "failed to write the report".to_owned(),
        }
    }
}

/// Returns the process exit code for a command result.
///
/// Successful commands map to zero; errors use [`Error::exit_code`].
#[must_use]
pub fn exit_code_for(result: &Result<(), Error>) -> (code: u8)
    ensures
        code == (match *result {
            Ok(()) => 0,
            Err(error) => exit_code_of(error@),
        }),
{
    match result {
        Ok(()) => 0,
        Err(error) => error.exit_code(),
    }
}

/// An error never maps to the exit code of success.
pub proof fn errors_never_exit_zero(error: ErrorView)
    ensures
        1 <= exit_code_of(error) <= 4,
{
}

} // verus!
