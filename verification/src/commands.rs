//! Decisions behind the commands the user interface calls: finding the named
//! connection, and keeping count of a batch run over many databases.

use vstd::prelude::*;

use crate::config::ConnectionConfig;
use crate::text::{decimal, decimal_string, str_eq};

verus! {

broadcast use vstd::string::group_string_axioms;

/// The error reported when no connection has the requested name.
pub open spec fn missing_connection_message(name: Seq<char>) -> Seq<char> {
    "找不到连接 '"@ + name + "'"@
}

/// The first configuration named `name`, or an error naming the missing connection.
pub fn find_connection<'a>(configs: &'a Vec<ConnectionConfig>, name: &str) -> (r: Result<
    &'a ConnectionConfig,
    String,
>)
    ensures
        match r {
            Ok(c) => exists|k: int|
                0 <= k < configs@.len() && configs@[k] == *c && c.name@ == name@ && forall|j: int|
                    0 <= j < k ==> (#[trigger] configs@[j]).name@ != name@,
            Err(e) => {
                &&& forall|k: int| 0 <= k < configs@.len() ==> (#[trigger] configs@[k]).name@ != name@
                &&& e@ == missing_connection_message(name@)
            },
        },
{
    let mut k: usize = 0;
    while k < configs.len()
        invariant
            k <= configs@.len(),
            forall|j: int| 0 <= j < k ==> (#[trigger] configs@[j]).name@ != name@,
        decreases configs@.len() - k,
    {
        if str_eq(configs[k].name.as_str(), name) {
            return Ok(&configs[k]);
        }
        k = k + 1;
    }
    let mut e = String::from_str("找不到连接 '");
    e.append(name);
    e.append("'");
    Err(e)
}

/// The number of successes among the outcomes.
pub open spec fn count_true(s: Seq<bool>) -> nat
    decreases s.len(),
{
    if s.len() == 0 {
        0
    } else {
        count_true(s.drop_last()) + if s.last() {
            1nat
        } else {
            0nat
        }
    }
}

/// Progress through a batch: `done` of `total` databases, as `done/total`.
pub open spec fn progress_text(done: nat, total: nat) -> Seq<char> {
    decimal(done) + "/"@ + decimal(total)
}

/// The counts reported when a batch run completes.
#[derive(Debug, Clone, Copy, PartialEq, Eq)]
pub struct ExecSummary {
    pub total: usize,
    pub success_count: usize,
    pub fail_count: usize,
}

/// The running count of a batch run over `total` databases.
pub struct ExecTally {
    total: usize,
    success_count: usize,
    fail_count: usize,
    outcomes: Ghost<Seq<bool>>,
}

impl ExecTally {
    /// The number of databases in the batch.
    pub closed spec fn total(&self) -> nat {
        self.total as nat
    }

    /// The outcomes recorded so far, in order (`true` for a success).
    pub closed spec fn outcomes(&self) -> Seq<bool> {
        self.outcomes@
    }

    /// The counts agree with the outcomes recorded, and no more outcomes than
    /// databases have been recorded.
    pub closed spec fn wf(&self) -> bool {
        &&& self.outcomes@.len() <= self.total
        &&& self.success_count == count_true(self.outcomes@)
        &&& self.fail_count == self.outcomes@.len() - count_true(self.outcomes@)
    }

    /// A tally for a batch of `total` databases, with nothing recorded yet.
    pub fn new(total: usize) -> (t: Self)
        ensures
            t.wf(),
            t.total() == total,
            t.outcomes() == Seq::<bool>::empty(),
    {
        ExecTally { total, success_count: 0, fail_count: 0, outcomes: Ghost(Seq::empty()) }
    }

    /// The number of outcomes recorded so far.
    pub fn processed(&self) -> (n: usize)
        requires
            self.wf(),
        ensures
            n == self.outcomes().len(),
    {
        self.success_count + self.fail_count
    }

    /// The index of the database to run next: the number recorded so far
    /// while some database of the batch is left, none once all are recorded.
    /// A batch loop that runs this database and records its outcome visits
    /// every database exactly once, in order, whatever the outcomes.
    pub fn next_database(&self) -> (r: Option<usize>)
        requires
            self.wf(),
        ensures
            r == if self.outcomes().len() < self.total() {
                Some(self.outcomes().len() as usize)
            } else {
                None::<usize>
            },
    {
        let done = self.success_count + self.fail_count;
        if done < self.total {
            Some(done)
        } else {
            None
        }
    }

    /// Records the outcome of the next database and returns the progress
    /// text for it: its position (from 1) and the batch size, as `i/total`.
    pub fn record(&mut self, success: bool) -> (progress: String)
        requires
            old(self).wf(),
            old(self).outcomes().len() < old(self).total(),
        ensures
            final(self).wf(),
            final(self).total() == old(self).total(),
            final(self).outcomes() == old(self).outcomes().push(success),
            progress@ == progress_text(final(self).outcomes().len(), final(self).total()),
    {
        let ghost before = self.outcomes@;
        proof {
            assert(before.push(success).drop_last() =~= before);
        }
        if success {
            self.success_count = self.success_count + 1;
        } else {
            self.fail_count = self.fail_count + 1;
        }
        self.outcomes = Ghost(before.push(success));
        let done = self.success_count + self.fail_count;
        let mut progress = decimal_string(done as u64);
        progress.append("/");
        let total_text = decimal_string(self.total as u64);
        progress.append(total_text.as_str());
        progress
    }

    /// The counts of the run: the batch size, the successes and the failures
    /// recorded.
    pub fn summary(&self) -> (s: ExecSummary)
        requires
            self.wf(),
        ensures
            s.total == self.total(),
            s.success_count == count_true(self.outcomes()),
            s.fail_count == self.outcomes().len() - count_true(self.outcomes()),
    {
        ExecSummary {
            total: self.total,
            success_count: self.success_count,
            fail_count: self.fail_count,
        }
    }
}

// ── Laws ──────────────────────────────────────────────────────────

/// When every database of a batch has been recorded, the successes and the
/// failures together account for the whole batch.
pub proof fn law_counts_cover_batch(t: ExecTally)
    requires
        t.wf(),
        t.outcomes().len() == t.total(),
    ensures
        count_true(t.outcomes()) + (t.outcomes().len() - count_true(t.outcomes())) == t.total(),
{
    law_successes_counted(t.outcomes());
}

/// A batch with no database completes with all counts zero.
pub proof fn law_empty_batch_counts_zero(t: ExecTally)
    requires
        t.wf(),
        t.total() == 0,
    ensures
        t.outcomes().len() == 0,
        count_true(t.outcomes()) == 0,
{
}

/// The successes counted are the outcomes that are successes: as many as
/// the recorded outcomes hold `true`, and never more than were recorded.
pub proof fn law_successes_counted(s: Seq<bool>)
    ensures
        count_true(s) == s.filter(|b: bool| b).len(),
        count_true(s) <= s.len(),
    decreases s.len(),
{
    reveal_with_fuel(Seq::filter, 1);
    if s.len() > 0 {
        law_successes_counted(s.drop_last());
    }
}

} // verus!
