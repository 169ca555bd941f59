//! The stream of jobs that the manager hands to its workers.
//!
//! The job source is read line by line. Each line holds one job, as its type
//! and its duration; a blank line, or the end of the input, ends the stream.

use crate::text::{blank, is_blank, parse_record, record, ParseError};
use vstd::prelude::*;

verus! {

/// One unit of work: `job_duration` seconds of work for a worker of type
/// `job_type`.
#[derive(Debug, Clone, Copy, PartialEq, Eq)]
pub struct Job {
    pub job_type: u16,
    pub job_duration: u32,
}

/// What a line of the job source means: the end of the stream if it is blank,
/// else the job it holds, else the reason why it holds none.
pub open spec fn job_of(line: Seq<char>) -> Result<Option<Job>, ParseError> {
    if is_blank(line) {
        Ok(None)
    } else {
        match record(line) {
            Ok((job_type, job_duration)) => Ok(Some(Job { job_type, job_duration })),
            Err(e) => Err(e),
        }
    }
}

/// A stream of jobs read from `R`.
pub struct JobStream<R> {
    reader: R,
}

impl<R> JobStream<R> {
    /// The source that the stream reads from.
    pub closed spec fn source(&self) -> R {
        self.reader
    }

    /// A stream of the jobs that `reader` holds.
    pub fn new(reader: R) -> (stream: Self)
        ensures
            stream.source() == reader,
    {
        Self { reader }
    }

    /// Gives the source back.
    pub fn into_inner(self) -> (reader: R)
        ensures
            reader == self.source(),
    {
        self.reader
    }

    /// The source, to read the next line from.
    pub fn get_mut(&mut self) -> (reader: &mut R)
        ensures
            *reader == old(self).source(),
            final(self).source() == *final(reader),
    {
        &mut self.reader
    }

    /// The next item of the stream, given the line that was read from the
    /// source; the empty line stands for the end of the input. `None` ends
    /// the stream.
    pub fn next(&self, line: &str) -> (item: Result<Option<Job>, ParseError>)
        ensures
            item == job_of(line@),
    {
        if blank(line) {
            return Ok(None);
        }
        match parse_record(line) {
            Ok((job_type, job_duration)) => Ok(Some(Job { job_type, job_duration })),
            Err(e) => Err(e),
        }
    }
}

} // verus!
