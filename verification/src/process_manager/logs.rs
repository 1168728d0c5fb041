//! Finding a directory for log files.

use crate::text::{decimal, decimal_text, law_decimal_text_reads_back, law_decimal_text_unique};
use vstd::prelude::*;

verus! {

/// The name of the logs directory of a given number.
pub open spec fn logs_dir_text(number: nat) -> Seq<char> {
    "logs-"@ + decimal_text(number)
}

/// What came of an attempt to create a directory.
#[derive(Debug, Clone, Copy, PartialEq, Eq, Structural)]
pub enum CreateOutcome {
    /// The directory is there
    Created,
    /// Something of that name is in the way
    AlreadyExists,
    /// The attempt failed for another reason
    Failed,
}

/// How the search for a logs directory goes on.
#[derive(Debug, Clone, Copy, PartialEq, Eq, Structural)]
pub enum LogsDirAction {
    /// Use the directory that was tried last
    Use,
    /// Try the next one
    TryNext,
    /// Give up with an error
    Fail,
}

/// The search for a logs directory: directories are tried in the order of their numbers.
#[derive(Debug)]
pub struct LogsDirSearch {
    logs_no: u32,
}

impl View for LogsDirSearch {
    type V = nat;

    closed spec fn view(&self) -> nat {
        self.logs_no as nat
    }
}

impl LogsDirSearch {
    /// A search that has tried no directory yet.
    pub fn new() -> (search: Self)
        ensures
            search@ == 0,
    {
        LogsDirSearch { logs_no: 0 }
    }

    /// Whether there are numbers left to try.
    pub fn has_next(&self) -> (more: bool)
        ensures
            more == (self@ < i32::MAX),
    {
        self.logs_no < 0x7fff_ffff
    }

    /// The name of the directory to try next.
    pub fn next_name(&mut self) -> (name: String)
        requires
            old(self)@ < i32::MAX,
        ensures
            name@ == logs_dir_text(old(self)@),
            name@ == "logs-"@ + decimal_text(old(self)@),
            final(self)@ == old(self)@ + 1,
    {
        let mut name: String = "logs-".to_owned();
        name.append(decimal(self.logs_no).as_str());
        self.logs_no = self.logs_no + 1;
        name
    }
}

/// How the search goes on after an attempt.
pub fn after_create(outcome: CreateOutcome) -> (action: LogsDirAction)
    ensures
        action == match outcome {
            CreateOutcome::Created => LogsDirAction::Use,
            CreateOutcome::AlreadyExists => LogsDirAction::TryNext,
            CreateOutcome::Failed => LogsDirAction::Fail,
        },
{
    match outcome {
        CreateOutcome::Created => LogsDirAction::Use,
        CreateOutcome::AlreadyExists => LogsDirAction::TryNext,
        CreateOutcome::Failed => LogsDirAction::Fail,
    }
}

/// No name is tried twice: directories of different numbers have different names.
pub proof fn law_logs_dirs_differ(m: nat, n: nat)
    requires
        logs_dir_text(m) == logs_dir_text(n),
    ensures
        m == n,
{
    let prefix = "logs-"@;
    assert(logs_dir_text(m).skip(prefix.len() as int) =~= decimal_text(m));
    assert(logs_dir_text(n).skip(prefix.len() as int) =~= decimal_text(n));
    law_decimal_text_unique(m, n);
}

/// The name of a logs directory is `logs-` and its number: behind the dash stand the digits that
/// read as the number, without a zero ahead of them.
pub proof fn law_logs_dir_tells_its_number(n: nat)
    ensures
        logs_dir_text(n).take(5) == "logs-"@,
        logs_dir_text(n).skip(5).fold_left(0int, |v: int, d: char| 10 * v + (d as int - '0' as int))
            == n,
        logs_dir_text(n).len() > 5,
        logs_dir_text(n)[5] == '0' ==> n == 0,
{
    reveal_strlit("logs-");
    law_decimal_text_reads_back(n);
    assert(logs_dir_text(n).take(5) =~= "logs-"@);
    assert(logs_dir_text(n).skip(5) =~= decimal_text(n));
}

} // verus!
