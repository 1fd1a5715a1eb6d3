//! What can go wrong, and how it is told to the user.

use vstd::prelude::*;
use vstd::string::*;

verus! {

/// A failure that ends the command.
#[derive(Clone, Debug, PartialEq, Eq)]
pub enum DiffError {
    /// The registry has no package of this name.
    PackageNotFound { package: String },
    /// The registry has the package, but not this version of it.
    VersionNotFound { package: String, version: String },
    /// An outside tool ended with a status that stands for failure.
    ToolFailed { command: String, stdout: String, stderr: String },
}

/// A failure as a mathematical value.
pub enum ErrorView {
    PackageNotFound { package: Seq<char> },
    VersionNotFound { package: Seq<char>, version: Seq<char> },
    ToolFailed { command: Seq<char>, stdout: Seq<char>, stderr: Seq<char> },
}

impl View for DiffError {
    type V = ErrorView;

    open spec fn view(&self) -> ErrorView {
        match *self {
            DiffError::PackageNotFound { package } => ErrorView::PackageNotFound {
                package: package@,
            },
            DiffError::VersionNotFound { package, version } => ErrorView::VersionNotFound {
                package: package@,
                version: version@,
            },
            DiffError::ToolFailed { command, stdout, stderr } => ErrorView::ToolFailed {
                command: command@,
                stdout: stdout@,
                stderr: stderr@,
            },
        }
    }
}

/// The message for a failure. It names what was not found, or gives the
/// command that failed with all that it printed.
pub open spec fn message_of(error: ErrorView) -> Seq<char> {
    match error {
        ErrorView::PackageNotFound { package } => "Couldn't find crate name "@ + package,
        ErrorView::VersionNotFound { package, version } => "Couldn't find version "@ + version
            + " for crate "@ + package,
        ErrorView::ToolFailed { command, stdout, stderr } => "Failed to run "@ + command
            + ".\nstdout:\n"@ + stdout + "\nstderr:\n"@ + stderr,
    }
}

impl DiffError {
    /// The message for the user.
    pub fn message(&self) -> (r: String)
        ensures
            r@ == message_of(self@),
    {
        match self {
            DiffError::PackageNotFound { package } => {
                let mut text = String::from_str("Couldn't find crate name ");
                text.append(package.as_str());
                text
            },
            DiffError::VersionNotFound { package, version } => {
                let mut text = String::from_str("Couldn't find version ");
                text.append(version.as_str());
                text.append(" for crate ");
                text.append(package.as_str());
                text
            },
            DiffError::ToolFailed { command, stdout, stderr } => {
                let mut text = String::from_str("Failed to run ");
                text.append(command.as_str());
                text.append(".\nstdout:\n");
                text.append(stdout.as_str());
                text.append("\nstderr:\n");
                text.append(stderr.as_str());
                text
            },
        }
    }
}

} // verus!
