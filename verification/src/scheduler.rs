//! Cron scheduling and the limit on concurrent job runs.

use vstd::prelude::*;

use crate::error::{AppError, AppErrorV, AppResult};
use crate::text::{cat3, cat4};

verus! {

// ---------------------------------------------------------------------------
// Schedules
// ---------------------------------------------------------------------------

/// The seconds since 1970 between which calendar times are computed.
pub const EARLIEST: i64 = -8_000_000_000_000;

pub const LATEST: i64 = 8_000_000_000_000;

/// What [`cron_next`] returns.
pub uninterp spec fn cron_occurrence(expr: Seq<char>, secs: i64, nanos: u32) -> Result<Option<i64>, Seq<char>>;

/// `cron::Schedule` read from an expression, and the first time that its
/// iterator `after` a point in time (UTC) gives, in seconds since 1970: nothing
/// where there is none, or the words of the error where the expression does not
/// read. All depends on the expression and the point in time alone.
#[verifier::external_body]
fn cron_next(expr: &str, secs: i64, nanos: u32) -> (out: Result<Option<i64>, String>)
    requires
        EARLIEST <= secs <= LATEST,
    ensures
        (match out {
            Ok(t) => Ok(t),
            Err(e) => Err(e@),
        }) == cron_occurrence(expr@, secs, nanos),
{
    match expr.parse::<cron::Schedule>() {
        Ok(s) => Ok(chrono::DateTime::from_timestamp(secs, nanos).and_then(|t| s.after(&t).next()).map(|t| t.timestamp())),
        Err(e) => Err(e.to_string()),
    }
}

/// The next time to run, or why there is none.
pub open spec fn next_time(expr: Seq<char>, found: Result<Option<i64>, Seq<char>>) -> Result<i64, AppErrorV> {
    match found {
        Err(e) => Err(AppErrorV::Schedule("invalid cron '"@ + expr + "': "@ + e)),
        Ok(None) => Err(AppErrorV::Schedule("cron '"@ + expr + "' produced no future occurrences"@)),
        Ok(Some(t)) => Ok(t),
    }
}

/// What is made of a schedule's answer.
pub fn settle_next(expr: &str, found: Result<Option<i64>, String>) -> (out: AppResult<i64>)
    ensures
        (match out {
            Ok(t) => Ok(t),
            Err(e) => Err(e@),
        }) == next_time(
            expr@,
            match found {
                Ok(t) => Ok(t),
                Err(e) => Err(e@),
            },
        ),
{
    match found {
        Err(e) => Err(AppError::Schedule(cat4("invalid cron '", expr, "': ", e.as_str()))),
        Ok(None) => Err(AppError::Schedule(cat3("cron '", expr, "' produced no future occurrences"))),
        Ok(Some(t)) => Ok(t),
    }
}

/// The first occurrence of a cron expression after a point in time. A job is run
/// at the occurrence after its last one, and first at the one after its start.
pub fn next_run(expr: &str, after_secs: i64, after_nanos: u32) -> (out: AppResult<i64>)
    requires
        EARLIEST <= after_secs <= LATEST,
    ensures
        (match out {
            Ok(t) => Ok(t),
            Err(e) => Err(e@),
        }) == next_time(expr@, cron_occurrence(expr@, after_secs, after_nanos)),
{
    let found = cron_next(expr, after_secs, after_nanos);
    settle_next(expr, found)
}

/// The nanoseconds from now until a point in time; none where it has passed.
pub open spec fn until(next: i64, now_secs: i64, now_nanos: u32) -> int {
    let d = (next - now_secs) * 1_000_000_000 - now_nanos;
    if d < 0 {
        0
    } else {
        d
    }
}

/// How long to wait until a point in time: whole seconds and nanoseconds.
pub fn wait_until(next: i64, now_secs: i64, now_nanos: u32) -> (out: (u64, u32))
    ensures
        out.0 * 1_000_000_000 + out.1 == until(next, now_secs, now_nanos),
        out.1 < 1_000_000_000,
{
    let d: i128 = (next as i128 - now_secs as i128) * 1_000_000_000 - now_nanos as i128;
    if d < 0 {
        (0, 0)
    } else {
        let secs: i128 = d / 1_000_000_000;
        let nanos: i128 = d % 1_000_000_000;
        (secs as u64, nanos as u32)
    }
}

// ---------------------------------------------------------------------------
// Worker slots
// ---------------------------------------------------------------------------

/// Token-bucket gate limiting concurrent job runs.
pub struct WorkerGate {
    max: usize,
    available: usize,
    issued: Ghost<nat>,
    taken: Ghost<Set<nat>>,
}

/// A worker slot, to be given back with [`WorkerGate::release`].
pub struct WorkerGuard {
    ticket: Ghost<nat>,
}

impl WorkerGuard {
    /// What tells the guard from the others of its gate.
    pub closed spec fn ticket(&self) -> nat {
        self.ticket@
    }
}

impl WorkerGate {
    #[verifier::type_invariant]
    spec fn within_limit(self) -> bool {
        &&& self.max >= 1
        &&& self.available <= self.max
        &&& self.taken@.finite()
        &&& self.taken@.len() == self.max - self.available
        &&& forall|t: nat| #[trigger] self.taken@.contains(t) ==> t < self.issued@
    }

    /// The number of slots.
    pub closed spec fn limit(&self) -> int {
        self.max as int
    }

    /// The tickets of the guards that were handed out and not given back.
    pub closed spec fn guards(&self) -> Set<nat> {
        self.taken@
    }

    /// The number of slots that are taken.
    pub closed spec fn running(&self) -> int {
        self.max - self.available
    }

    pub fn new(max: usize) -> (out: WorkerGate)
        ensures
            out.limit() == (if max < 1 {
                1
            } else {
                max as int
            }),
            out.running() == 0,
            out.guards() == Set::<nat>::empty(),
    {
        let n = if max < 1 {
            1
        } else {
            max
        };
        WorkerGate { max: n, available: n, issued: Ghost(0), taken: Ghost(Set::empty()) }
    }

    /// Takes a slot: a guard where one is free, nothing where the caller has to
    /// wait. There are always as many slots taken as there are guards, and never
    /// more than there are slots.
    pub fn acquire(&mut self) -> (out: Option<WorkerGuard>)
        ensures
            final(self).limit() == old(self).limit(),
            0 <= final(self).running() <= final(self).limit(),
            final(self).running() == final(self).guards().len(),
            out is Some <==> old(self).running() < old(self).limit(),
            match out {
                Some(guard) => {
                    &&& !old(self).guards().contains(guard.ticket())
                    &&& final(self).guards() == old(self).guards().insert(guard.ticket())
                    &&& final(self).running() == old(self).running() + 1
                },
                None => {
                    &&& final(self).guards() == old(self).guards()
                    &&& final(self).running() == old(self).running()
                },
            },
    {
        proof {
            use_type_invariant(&*self);
        }
        if self.available == 0 {
            None
        } else {
            let ghost t = self.issued@;
            *self = WorkerGate {
                max: self.max,
                available: self.available - 1,
                issued: Ghost(t + 1),
                taken: Ghost(self.taken@.insert(t)),
            };
            Some(WorkerGuard { ticket: Ghost(t) })
        }
    }

    /// Gives a slot back.
    pub fn release(&mut self, guard: WorkerGuard)
        requires
            old(self).guards().contains(guard.ticket()),
        ensures
            final(self).limit() == old(self).limit(),
            final(self).guards() == old(self).guards().remove(guard.ticket()),
            final(self).running() == old(self).running() - 1,
            final(self).running() == final(self).guards().len(),
    {
        proof {
            use_type_invariant(&*self);
            if self.taken@.len() == 0 {
                assert(self.taken@ =~= Set::empty());
            }
        }
        *self = WorkerGate {
            max: self.max,
            available: self.available + 1,
            issued: Ghost(self.issued@),
            taken: Ghost(self.taken@.remove(guard.ticket@)),
        };
    }

    /// The number of slots that are free.
    pub fn free(&self) -> (out: usize)
        ensures
            out == self.limit() - self.running(),
            self.running() == self.guards().len(),
            0 <= self.running() <= self.limit(),
            self.limit() >= 1,
    {
        proof {
            use_type_invariant(self);
        }
        self.available
    }
}

/// Law: waiting from now brings the next occurrence: the wait ends at its second,
/// and is nothing where that has passed.
pub proof fn law_wait_ends_at_the_occurrence(next: i64, now_secs: i64, now_nanos: u32)
    requires
        now_nanos < 1_000_000_000,
    ensures
        next > now_secs ==> now_secs * 1_000_000_000 + now_nanos + until(next, now_secs, now_nanos) == next * 1_000_000_000
            && until(next, now_secs, now_nanos) > 0,
        next <= now_secs ==> until(next, now_secs, now_nanos) == 0,
{
}

/// Law: a schedule gives the occurrence that was found, and fails where none was.
pub proof fn law_schedule_gives_what_was_found(expr: Seq<char>, found: Result<Option<i64>, Seq<char>>)
    ensures
        found matches Ok(Some(t)) ==> next_time(expr, found) == Ok::<i64, AppErrorV>(t),
        !(found matches Ok(Some(_))) ==> (next_time(expr, found) matches Err(e) && e is Schedule),
{
}

} // verus!
