//! The ways in which running a target can fail.

use crate::name_map::Name;
use vstd::prelude::*;

verus! {

/// A failure, with the names a caller needs to report it.
#[derive(Debug, PartialEq)]
pub enum YakeError {
    /// The requested name is not the name of a command target.
    UnknownTarget {
        /// The name that was asked for.
        name: String,
        /// The names of all command targets.
        available: Vec<String>,
    },
    /// A target declares a dependency that is not in the registry.
    UnknownDependency {
        /// The name that could not be found.
        dependency: String,
        /// The canonical name of the target that declares it.
        target: String,
    },
    /// Two targets of a definition have the same canonical name.
    DuplicateName {
        /// The canonical name.
        name: String,
    },
    /// A command could not be started or did not end well.
    CommandFailed {
        /// The command line.
        command: String,
    },
}

/// The mathematical value of a `YakeError`.
pub enum ErrorView {
    /// The name `name` is not among the command names `available`.
    UnknownTarget { name: Name, available: Seq<Name> },
    /// The target `target` declares `dependency`, which the registry lacks.
    UnknownDependency { dependency: Name, target: Name },
    /// Two targets have the canonical name `name`.
    DuplicateName { name: Name },
    /// The command line `command` failed.
    CommandFailed { command: Seq<char> },
}

impl View for YakeError {
    type V = ErrorView;

    open spec fn view(&self) -> ErrorView {
        match self {
            YakeError::UnknownTarget { name, available } => ErrorView::UnknownTarget {
                name: name@,
                available: available.deep_view(),
            },
            YakeError::UnknownDependency { dependency, target } => ErrorView::UnknownDependency {
                dependency: dependency@,
                target: target@,
            },
            YakeError::DuplicateName { name } => ErrorView::DuplicateName { name: name@ },
            YakeError::CommandFailed { command } => ErrorView::CommandFailed { command: command@ },
        }
    }
}

impl ErrorView {
    /// The text that reports the failure.
    pub open spec fn message(self) -> Seq<char> {
        match self {
            ErrorView::UnknownTarget { name, available } => "Unknown target: "@ + name,
            ErrorView::UnknownDependency { dependency, target } => "Warning: Unknown dependency: "@
                + dependency + " in target: "@ + target + "."@,
            ErrorView::DuplicateName { name } => "Duplicate target name: "@ + name,
            ErrorView::CommandFailed { command } => "failed to execute command \""@ + command
                + "\""@,
        }
    }
}

impl YakeError {
    /// The text that reports the failure.
    pub fn message(&self) -> (text: String)
        ensures
            text@ == self@.message(),
    {
        match self {
            YakeError::UnknownTarget { name, available } => {
                let mut text = String::from_str("Unknown target: ");
                text.append(name.as_str());
                text
            },
            YakeError::UnknownDependency { dependency, target } => {
                let mut text = String::from_str("Warning: Unknown dependency: ");
                text.append(dependency.as_str());
                text.append(" in target: ");
                text.append(target.as_str());
                text.append(".");
                text
            },
            YakeError::DuplicateName { name } => {
                let mut text = String::from_str("Duplicate target name: ");
                text.append(name.as_str());
                text
            },
            YakeError::CommandFailed { command } => {
                let mut text = String::from_str("failed to execute command \"");
                text.append(command.as_str());
                text.append("\"");
                text
            },
        }
    }
}

} // verus!
