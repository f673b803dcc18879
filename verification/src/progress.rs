//! Progress of a compilation, and the reporters that pass it on.

use std::io::Write;
use vstd::prelude::*;
use crate::text::{chars_of, decimal, push_decimal, string_from_chars};

verus! {

/// Where a compilation stands: step `current_step` of `total_steps`.
#[derive(Debug, Clone)]
pub struct CompileProgress {
    pub current_step: usize,
    pub total_steps: usize,
    pub description: String,
}

/// Receives the progress of a compilation.
pub trait ProgressReporter: Send {
    fn report(&self, progress: &CompileProgress);
}

/// The line that reports `p`: `[current/total] description`.
pub open spec fn progress_line(p: CompileProgress) -> Seq<char> {
    "["@ + decimal(p.current_step as nat) + "/"@ + decimal(p.total_steps as nat) + "] "@
        + p.description@
}

/// The line that reports `progress`.
pub fn format_progress(progress: &CompileProgress) -> (line: String)
    ensures
        line@ == progress_line(*progress),
{
    proof {
        reveal_strlit("[");
        reveal_strlit("/");
        reveal_strlit("] ");
    }
    let mut out = chars_of("[");
    push_decimal(progress.current_step as u64, &mut out);
    let mut slash = chars_of("/");
    out.append(&mut slash);
    push_decimal(progress.total_steps as u64, &mut out);
    let mut close = chars_of("] ");
    out.append(&mut close);
    let mut desc = chars_of(progress.description.as_str());
    out.append(&mut desc);
    assert(out@ =~= progress_line(*progress));
    string_from_chars(&out)
}

/// Writes `line` and a line break to the standard error stream.
///
/// Trusted: `writeln!` on `std::io::stderr()`; nothing is claimed of it, and a
/// failed write is ignored.
#[verifier::external_body]
fn write_stderr_line(line: &str) {
    let _ = writeln!(std::io::stderr(), "{}", line);
}

/// Reports each step on the standard error stream.
pub struct ConsoleReporter;

impl ProgressReporter for ConsoleReporter {
    fn report(&self, progress: &CompileProgress) {
        let line = format_progress(progress);
        write_stderr_line(line.as_str());
    }
}

/// Reports each step on the standard error stream; where no percentage comes
/// with the progress, in the same form as `ConsoleReporter`.
pub struct ConsolePercentageReporter;

impl ProgressReporter for ConsolePercentageReporter {
    fn report(&self, progress: &CompileProgress) {
        let line = format_progress(progress);
        write_stderr_line(line.as_str());
    }
}

/// Reports nothing.
pub struct SilentReporter;

impl ProgressReporter for SilentReporter {
    fn report(&self, _progress: &CompileProgress) {
    }
}

} // verus!
