//! Pool sizing: how many workers of each type the manager starts.
//!
//! The sizing input is a fixed number of lines, each holding a worker type
//! and a count.

use crate::text::{parse_record, record, ParseError};
use vstd::prelude::*;

verus! {

/// A request for `worker_count` workers that take jobs of type `worker_type`.
#[derive(Debug, Clone, Copy, PartialEq, Eq)]
pub struct WorkerConfig {
    pub worker_type: u16,
    pub worker_count: u32,
}

/// The number of lines of the sizing input.
pub const CONFIG_LINES: usize = 5;

/// Line `i` of the input; past its end, the empty line.
pub open spec fn line_at(lines: Seq<String>, i: int) -> Seq<char> {
    if 0 <= i < lines.len() {
        lines[i]@
    } else {
        Seq::empty()
    }
}

/// Reads the pool sizing from the first `CONFIG_LINES` lines of `lines`. A
/// line that is missing counts as empty, and lines past those are not
/// looked at. The first line that holds no record decides the error.
pub fn parse_worker_config(lines: &[String]) -> (result: Result<Vec<WorkerConfig>, ParseError>)
    ensures
        match result {
            Ok(configs) => {
                &&& configs@.len() == CONFIG_LINES
                &&& forall|i: int|
                    #![trigger configs@[i]]
                    #![trigger record(line_at(lines@, i))]
                    0 <= i < CONFIG_LINES ==> record(line_at(lines@, i)) == Ok::<
                        (u16, u32),
                        ParseError,
                    >((configs@[i].worker_type, configs@[i].worker_count))
            },
            Err(e) => exists|i: int|
                {
                    &&& 0 <= i < CONFIG_LINES
                    &&& #[trigger] record(line_at(lines@, i)) == Err::<(u16, u32), ParseError>(e)
                    &&& forall|j: int| 0 <= j < i ==> (#[trigger] record(line_at(lines@, j))) is Ok
                },
        },
{
    let mut configs: Vec<WorkerConfig> = Vec::new();
    let mut i: usize = 0;
    while i < CONFIG_LINES
        invariant
            i <= CONFIG_LINES,
            configs@.len() == i,
            forall|j: int|
                #![trigger configs@[j]]
                #![trigger record(line_at(lines@, j))]
                0 <= j < i ==> record(line_at(lines@, j)) == Ok::<(u16, u32), ParseError>(
                    (configs@[j].worker_type, configs@[j].worker_count),
                ),
        decreases CONFIG_LINES - i,
    {
        let parsed = if i < lines.len() {
            parse_record(lines[i].as_str())
        } else {
            proof {
                reveal_strlit("");
            }
            assert(""@ =~= Seq::<char>::empty());
            parse_record("")
        };
        match parsed {
            Ok((worker_type, worker_count)) => {
                configs.push(WorkerConfig { worker_type, worker_count });
            },
            Err(e) => {
                assert(record(line_at(lines@, i as int)) == Err::<(u16, u32), ParseError>(e));
                return Err(e);
            },
        }
        i += 1;
    }
    Ok(configs)
}

} // verus!
