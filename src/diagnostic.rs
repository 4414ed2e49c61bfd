//! Diagnostics: the reporter capability and the diagnostic session that the
//! scanner reports its lexical errors to.
use std::io::Write;
use vstd::prelude::*;

verus! {

/// A sink for diagnostics. It records or emits what it is given and has no
/// say in how scanning goes on.
pub trait Reporter {
    /// Every diagnostic handed to this reporter so far, in order, as
    /// (chunk name, line, location, message).
    spec fn reports(&self) -> Seq<Report>;

    fn report(&mut self, chunk_name: &str, line: usize, location: &str, message: &str)
        ensures
            final(self).reports() == old(self).reports().push((chunk_name@, line, location@, message@)),
    ;
}

/// A diagnostic as a reporter receives it: chunk name, line, location and
/// message.
pub type Report = (Seq<char>, usize, Seq<char>, Seq<char>);

/// One diagnostic, as a `CaptureReporter` keeps it.
#[derive(Debug)]
pub struct Diagnostic {
    pub chunk_name: String,
    pub line: usize,
    pub location: String,
    pub message: String,
}

/// A reporter that keeps every diagnostic in memory, in order.
pub struct CaptureReporter {
    pub diagnostics: Vec<Diagnostic>,
}

impl Diagnostic {
    pub open spec fn view_report(self) -> Report {
        (self.chunk_name@, self.line, self.location@, self.message@)
    }
}

impl CaptureReporter {
    pub fn new() -> (r: CaptureReporter)
        ensures
            r.diagnostics@.len() == 0,
            r.reports() == Seq::<Report>::empty(),
    {
        CaptureReporter { diagnostics: Vec::new() }
    }
}

impl Reporter for CaptureReporter {
    open spec fn reports(&self) -> Seq<Report> {
        self.diagnostics@.map_values(|d: Diagnostic| d.view_report())
    }

    fn report(&mut self, chunk_name: &str, line: usize, location: &str, message: &str) {
        let d = Diagnostic {
            chunk_name: chunk_name.to_owned(),
            line,
            location: location.to_owned(),
            message: message.to_owned(),
        };
        self.diagnostics.push(d);
        assert(self.reports() =~= old(self).reports().push((chunk_name@, line, location@, message@)));
    }
}

/// A reporter that writes each diagnostic to standard error. What it wrote
/// is kept as a ghost log.
pub struct StderrReporter {
    log: Ghost<Seq<Report>>,
}

impl StderrReporter {
    pub fn new() -> (r: StderrReporter)
        ensures
            r.reports() == Seq::<Report>::empty(),
    {
        StderrReporter { log: Ghost(Seq::empty()) }
    }
}

impl Reporter for StderrReporter {
    closed spec fn reports(&self) -> Seq<Report> {
        self.log@
    }

    fn report(&mut self, chunk_name: &str, line: usize, location: &str, message: &str) {
        write_stderr(chunk_name, line, location, message);
        self.log = Ghost(self.log@.push((chunk_name@, line, location@, message@)));
    }
}

/// Relies on std's `writeln!` to standard error; a failed write is ignored.
#[verifier::external_body]
fn write_stderr(chunk_name: &str, line: usize, location: &str, message: &str) {
    let _ = writeln!(std::io::stderr(), "error{}: {}\n\t{}:{}", location, message, chunk_name, line);
}

/// A diagnostic session: a reporter, the name of the chunk being scanned,
/// and a sticky flag that records whether any error was reported.
pub struct Lax<R: Reporter> {
    reporter: R,
    chunk_name: String,
    had_error: bool,
}

impl<R: Reporter> Lax<R> {
    /// Whether an error has been reported in this session.
    pub closed spec fn errored(&self) -> bool {
        self.had_error
    }

    /// The name of the chunk that diagnostics are attributed to.
    pub closed spec fn chunk(&self) -> Seq<char> {
        self.chunk_name@
    }

    /// The reporter this session reports to.
    pub closed spec fn sink(&self) -> R {
        self.reporter
    }

    pub fn new(reporter: R, chunk_name: &str) -> (r: Lax<R>)
        ensures
            !r.errored(),
            r.sink() == reporter,
            r.chunk() == chunk_name@,
    {
        Lax { reporter, chunk_name: chunk_name.to_owned(), had_error: false }
    }

    pub fn had_error(&self) -> (r: bool)
        ensures
            r == self.errored(),
    {
        self.had_error
    }

    /// The reporter this session reports to.
    pub fn reporter(&self) -> (r: &R)
        ensures
            *r == self.sink(),
    {
        &self.reporter
    }

    /// Reports `message` at `line` and sets the error flag.
    pub fn error(&mut self, line: usize, message: &str)
        ensures
            final(self).errored(),
            final(self).chunk() == old(self).chunk(),
            final(self).sink().reports() == old(self).sink().reports().push(
                (old(self).chunk(), line, Seq::empty(), message@),
            ),
    {
        let location = "";
        proof {
            reveal_strlit("");
            assert(location@ =~= Seq::<char>::empty());
        }
        self.reporter.report(self.chunk_name.as_str(), line, location, message);
        self.had_error = true;
    }
}

} // verus!
