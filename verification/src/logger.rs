//! Warnings that are shown or kept quiet depending on the verbosity.
use vstd::prelude::*;

verus! {

/// How much the program reports.
#[derive(Copy, Clone, Debug, PartialEq, Eq, Structural)]
pub enum Verbosity {
    Quiet,
    Normal,
}

/// Reports warnings unless it is quiet.
#[derive(Copy, Clone, Debug, PartialEq, Eq, Structural)]
pub struct Logger {
    verbosity: Verbosity,
}

impl Logger {
    /// The verbosity the logger was made with.
    pub closed spec fn verbosity(&self) -> Verbosity {
        self.verbosity
    }

    /// A logger with the given verbosity.
    pub fn new(verbosity: Verbosity) -> (l: Self)
        ensures
            l.verbosity() == verbosity,
    {
        Self { verbosity }
    }

    /// The line to report for a warning: the message itself, unless the
    /// logger is quiet, in which case nothing is reported.
    pub fn warn(&self, message: &str) -> (line: Option<String>)
        ensures
            line is Some <==> self.verbosity() != Verbosity::Quiet,
            line matches Some(s) ==> s@ == message@,
    {
        if self.verbosity != Verbosity::Quiet {
            Some(message.to_owned())
        } else {
            None
        }
    }
}

/// Loggers with the same verbosity are the same logger; in particular
/// `Logger::new(Verbosity::Quiet)` is the default logger.
pub proof fn lemma_logger_determined_by_verbosity(a: Logger, b: Logger)
    requires
        a.verbosity() == b.verbosity(),
    ensures
        a == b,
{
}

impl Default for Logger {
    /// A quiet logger.
    fn default() -> (l: Self)
        ensures
            l.verbosity() == Verbosity::Quiet,
    {
        Self { verbosity: Verbosity::Quiet }
    }
}

} // verus!
