//! Diagnostic log emitted during a comparison run.

use vstd::prelude::*;

verus! {

/// Severity / category codes for comparison log entries.
#[derive(Clone, Copy, PartialEq, Eq, Debug, Structural)]
pub enum ComparisonLogCode {
    /// An informational note.
    Info,
    /// Something unexpected that the comparison recovered from.
    Warning,
    /// A failure the caller should surface.
    Error,
}

/// One log entry: a code and its message.
#[derive(Clone, Debug)]
pub struct ComparisonLogEntry {
    /// Severity of the entry.
    pub code: ComparisonLogCode,
    /// Human-readable message.
    pub message: String,
}

/// Accumulates log entries during a comparison run, in the order they arrive.
pub struct ComparisonLog {
    /// The entries recorded so far, oldest first.
    pub entries: Vec<ComparisonLogEntry>,
}

/// The codes of a sequence of entries.
pub open spec fn codes_of(entries: Seq<ComparisonLogEntry>) -> Seq<ComparisonLogCode> {
    entries.map_values(|e: ComparisonLogEntry| e.code)
}

/// Number of entries of `entries` whose code is `Error`.
pub open spec fn error_count_of(entries: Seq<ComparisonLogEntry>) -> nat
    decreases entries.len(),
{
    if entries.len() == 0 {
        0
    } else {
        error_count_of(entries.drop_last()) + (if entries.last().code == ComparisonLogCode::Error {
            1nat
        } else {
            0nat
        })
    }
}

impl ComparisonLog {
    /// An empty log.
    pub fn new() -> (log: Self)
        ensures
            log.entries@.len() == 0,
    {
        ComparisonLog { entries: Vec::new() }
    }

    fn push_entry(&mut self, code: ComparisonLogCode, message: String)
        ensures
            final(self).entries@ == old(self).entries@.push(ComparisonLogEntry { code, message }),
    {
        self.entries.push(ComparisonLogEntry { code, message });
    }

    /// Append an `Info` entry.
    pub fn info(&mut self, message: String)
        ensures
            final(self).entries@ == old(self).entries@.push(
                (ComparisonLogEntry { code: ComparisonLogCode::Info, message }),
            ),
    {
        self.push_entry(ComparisonLogCode::Info, message);
    }

    /// Append a `Warning` entry.
    pub fn warning(&mut self, message: String)
        ensures
            final(self).entries@ == old(self).entries@.push(
                (ComparisonLogEntry { code: ComparisonLogCode::Warning, message }),
            ),
    {
        self.push_entry(ComparisonLogCode::Warning, message);
    }

    /// Append an `Error` entry.
    pub fn error(&mut self, message: String)
        ensures
            final(self).entries@ == old(self).entries@.push(
                (ComparisonLogEntry { code: ComparisonLogCode::Error, message }),
            ),
    {
        self.push_entry(ComparisonLogCode::Error, message);
    }

    /// Number of `Error` entries recorded so far.
    pub fn error_count(&self) -> (n: usize)
        ensures
            n == error_count_of(self.entries@),
    {
        let mut n: usize = 0;
        let mut i: usize = 0;
        while i < self.entries.len()
            invariant
                i <= self.entries@.len(),
                n == error_count_of(self.entries@.take(i as int)),
                n <= i,
            decreases self.entries@.len() - i,
        {
            assert(self.entries@.take(i + 1).drop_last() =~= self.entries@.take(i as int));
            if self.entries[i].code == ComparisonLogCode::Error {
                n = n + 1;
            }
            i = i + 1;
        }
        assert(self.entries@.take(i as int) =~= self.entries@);
        n
    }
}

/// Recording an entry raises the error count by one exactly when the entry is
/// an error, and leaves it unchanged otherwise.
pub proof fn lemma_error_count_push(entries: Seq<ComparisonLogEntry>, e: ComparisonLogEntry)
    ensures
        error_count_of(entries.push(e)) == error_count_of(entries) + (if e.code
            == ComparisonLogCode::Error {
            1nat
        } else {
            0nat
        }),
{
    assert(entries.push(e).drop_last() =~= entries);
}

/// The entries a log holds after the calls `calls` (each an `info`,
/// `warning` or `error` with its message, in order), starting from the
/// entries `start`.
pub open spec fn replay(start: Seq<ComparisonLogEntry>, calls: Seq<ComparisonLogEntry>) -> Seq<ComparisonLogEntry>
    decreases calls.len(),
{
    if calls.len() == 0 {
        start
    } else {
        replay(start, calls.drop_last()).push(calls.last())
    }
}

/// Whether an entry is an error.
pub open spec fn is_error(e: ComparisonLogEntry) -> bool {
    e.code == ComparisonLogCode::Error
}

/// Over any sequence of `info`, `warning` and `error` calls on a new log,
/// the log holds one entry per call, with that call's code and message, in
/// call order, and its error count is the number of `error` calls.
pub proof fn lemma_log_replays_calls(calls: Seq<ComparisonLogEntry>)
    ensures
        replay(seq![], calls) == calls,
        error_count_of(replay(seq![], calls)) == calls.filter(|e: ComparisonLogEntry| is_error(e)).len(),
    decreases calls.len(),
{
    reveal(Seq::filter);
    if calls.len() > 0 {
        lemma_log_replays_calls(calls.drop_last());
        assert(calls.drop_last().push(calls.last()) =~= calls);
        lemma_error_count_push(calls.drop_last(), calls.last());
    }
}

} // verus!
