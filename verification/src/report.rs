//! What a run over a list of sources leaves behind: the text for standard
//! output, the diagnostics for standard error, and the read failure that
//! ended it, if one did.

use vstd::prelude::*;
use crate::source::{reason_of, ReadError};
use crate::text::{push_chars, string_of};

verus! {

/// What a run, or the part of a run on one source, leaves behind in the
/// model: both texts, and the reason of the failure that ended the run
/// early.
pub struct ReportView {
    pub stdout: Seq<char>,
    pub stderr: Seq<char>,
    pub failure: Option<Seq<char>>,
}

impl ReportView {
    /// A run that wrote nothing and did not fail.
    pub open spec fn silent() -> ReportView {
        ReportView { stdout: Seq::empty(), stderr: Seq::empty(), failure: None }
    }

    /// A run that wrote `out` and `err` and did not fail.
    pub open spec fn wrote(out: Seq<char>, err: Seq<char>) -> ReportView {
        ReportView { stdout: out, stderr: err, failure: None }
    }

    /// A run that wrote `out` and then failed for `reason`.
    pub open spec fn broke(out: Seq<char>, reason: Seq<char>) -> ReportView {
        ReportView { stdout: out, stderr: Seq::empty(), failure: Some(reason) }
    }

    /// A run that wrote nothing and failed for `reason`.
    pub open spec fn aborted(reason: Seq<char>) -> ReportView {
        ReportView { stdout: Seq::empty(), stderr: Seq::empty(), failure: Some(reason) }
    }

    /// This run, after `out` went to standard output and `err` to standard
    /// error.
    pub open spec fn after(self, out: Seq<char>, err: Seq<char>) -> ReportView {
        ReportView { stdout: out + self.stdout, stderr: err + self.stderr, failure: self.failure }
    }
}

/// Doing nothing first changes nothing, and two stretches of output before
/// a run are one stretch.
pub proof fn lemma_after(r: ReportView, out1: Seq<char>, err1: Seq<char>, out2: Seq<char>, err2: Seq<char>)
    ensures
        r.after(Seq::empty(), Seq::empty()) == r,
        r.after(out2, err2).after(out1, err1) == r.after(out1 + out2, err1 + err2),
{
    assert(out1 + (out2 + r.stdout) =~= (out1 + out2) + r.stdout);
    assert(err1 + (err2 + r.stderr) =~= (err1 + err2) + r.stderr);
}

/// What a run, or the part of a run on one source, leaves behind.
#[derive(Debug)]
pub struct Report {
    /// The text for standard output.
    pub stdout: String,
    /// The diagnostics for standard error, one line for each source that
    /// could not be opened.
    pub stderr: String,
    /// The read failure that ended the run before its last source.
    pub failure: Option<ReadError>,
}

impl View for Report {
    type V = ReportView;

    open spec fn view(&self) -> ReportView {
        ReportView {
            stdout: self.stdout@,
            stderr: self.stderr@,
            failure: reason_of(self.failure),
        }
    }
}

impl Report {
    /// The report of a run that wrote `out` and `err` and ended with
    /// `failure`.
    pub fn new(out: Vec<char>, err: Vec<char>, failure: Option<ReadError>) -> (report: Report)
        ensures
            report@.stdout == out@,
            report@.stderr == err@,
            report@.failure == reason_of(failure),
    {
        Report { stdout: string_of(out), stderr: string_of(err), failure }
    }

    /// Whether the run reached the end of its sources.
    pub fn completed(&self) -> (done: bool)
        ensures
            done == (self@.failure is None),
    {
        self.failure.is_none()
    }
}

/// The line that reports a source that could not be opened: its name, a
/// colon and a space, the reason, and a newline.
pub open spec fn diagnostic(name: Seq<char>, reason: Seq<char>) -> Seq<char> {
    name + seq![':', ' '] + reason + seq!['\n']
}

/// Appends the diagnostic for the source `name` and `reason` to `err`.
pub fn push_diagnostic(err: &mut Vec<char>, name: &[char], reason: &[char])
    ensures
        final(err)@ == old(err)@ + diagnostic(name@, reason@),
{
    push_chars(err, name);
    err.push(':');
    err.push(' ');
    push_chars(err, reason);
    err.push('\n');
}

} // verus!
