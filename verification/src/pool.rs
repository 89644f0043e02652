//! A bounded worker pool: what it decides.
//!
//! Work is admitted through a fixed number of workers, and the number is a
//! product decision rather than an accident of how many items there are.
//! Results come back indexed by input position, so a film's segments
//! concatenate in scene order whichever worker finished first; an item that
//! was never admitted says why.

use vstd::prelude::*;

verus! {

/// Most workers started without being asked to: the measured speed-up
/// flattens at three or four, and memory does not.
pub const MAX_AUTO_JOBS: usize = 4;

/// Roughly how much memory one concurrent 1080p segment needs, in bytes.
pub const SEGMENT_MEMORY_BYTES: u64 = 780 * 1024 * 1024;

/// How many workers to start when nobody said, on a machine with
/// `parallelism` cores (`None` where it will not say): one per two cores,
/// never zero, and at most [`MAX_AUTO_JOBS`].
pub open spec fn default_jobs_of(parallelism: Option<nat>) -> nat {
    let half = match parallelism {
        Some(p) => p / 2,
        None => 0,
    };
    if half < 1 {
        1
    } else if half > 4 {
        4
    } else {
        half
    }
}

/// The default worker count for a machine with `parallelism` cores.
pub fn default_jobs_for(parallelism: Option<usize>) -> (r: usize)
    ensures
        r == default_jobs_of(
            match parallelism {
                Some(p) => Some(p as nat),
                None => None,
            },
        ),
        1 <= r <= MAX_AUTO_JOBS,
{
    let half = match parallelism {
        Some(p) => p / 2,
        None => 0,
    };
    if half < 1 {
        1
    } else if half > MAX_AUTO_JOBS {
        MAX_AUTO_JOBS
    } else {
        half
    }
}

/// How many workers a batch of `items` actually starts when `jobs` were
/// asked for: at least one, and no more than there are items.
pub open spec fn workers_of(jobs: nat, items: nat) -> nat {
    if jobs < 1 {
        1
    } else if jobs > items {
        items
    } else {
        jobs
    }
}

/// The workers to start for `items` items when `jobs` were asked for.
pub fn workers_for(jobs: usize, items: usize) -> (r: usize)
    requires
        items >= 1,
    ensures
        r == workers_of(jobs as nat, items as nat),
        1 <= r <= items,
{
    if jobs < 1 {
        1
    } else if jobs > items {
        items
    } else {
        jobs
    }
}

/// Why an item was never admitted.
#[derive(Debug, Clone, Copy, PartialEq, Eq)]
pub enum NotStarted {
    /// Cancellation was requested before this item was admitted.
    Cancelled,
    /// An earlier item's first stage failed, so the run was already doomed.
    EarlierFailure,
}

/// What a worker did, or why it did not.
#[derive(Debug, Clone, PartialEq, Eq)]
pub enum Outcome<T> {
    /// The worker ran and produced this.
    Done(T),
    /// The item was never admitted, and why.
    NotAdmitted(NotStarted),
}

impl<T> Outcome<T> {
    /// The value, if there is one.
    pub fn done(self) -> (r: Option<T>)
        ensures
            match self {
                Outcome::Done(v) => r == Some(v),
                Outcome::NotAdmitted(_) => r is None,
            },
    {
        match self {
            Outcome::Done(value) => Some(value),
            Outcome::NotAdmitted(_) => None,
        }
    }

    /// Whether this item never ran, for any reason.
    pub fn was_skipped(&self) -> (r: bool)
        ensures
            r == (self is NotAdmitted),
    {
        match self {
            Outcome::Done(_) => false,
            Outcome::NotAdmitted(_) => true,
        }
    }
}

/// The one reason for a run's unadmitted items: cancellation where it was
/// requested, since the operator did that on purpose; otherwise an earlier
/// failure.
pub fn why_not_started(cancelled: bool) -> (r: NotStarted)
    ensures
        r == (if cancelled {
            NotStarted::Cancelled
        } else {
            NotStarted::EarlierFailure
        }),
{
    if cancelled {
        NotStarted::Cancelled
    } else {
        NotStarted::EarlierFailure
    }
}

/// What one slot of a run says: its value, or that it was not admitted.
pub open spec fn outcome_of<R>(slot: Option<R>, why: NotStarted) -> Outcome<R> {
    match slot {
        Some(v) => Outcome::Done(v),
        None => Outcome::NotAdmitted(why),
    }
}

/// A run's slots as outcomes, in input order: a filled slot is done, an
/// empty one was not admitted, for `why`.
pub fn into_outcomes<R>(slots: Vec<Option<R>>, why: NotStarted) -> (r: Vec<Outcome<R>>)
    ensures
        r@ == slots@.map_values(|s: Option<R>| outcome_of(s, why)),
{
    let ghost input = slots@;
    let mut slots = slots;
    let mut reversed: Vec<Option<R>> = Vec::new();
    while slots.len() > 0
        invariant
            slots@.len() + reversed@.len() == input.len(),
            slots@ == input.take(slots@.len() as int),
            forall|k: int|
                0 <= k < reversed@.len() ==> #[trigger] reversed@[k] == input[input.len() - 1 - k],
        decreases slots@.len(),
    {
        let last = slots.pop().unwrap();
        reversed.push(last);
        assert(slots@ =~= input.take(slots@.len() as int));
    }
    let mut r: Vec<Outcome<R>> = Vec::new();
    while reversed.len() > 0
        invariant
            reversed@.len() + r@.len() == input.len(),
            forall|k: int|
                0 <= k < reversed@.len() ==> #[trigger] reversed@[k] == input[input.len() - 1 - k],
            forall|k: int| 0 <= k < r@.len() ==> #[trigger] r@[k] == outcome_of(input[k], why),
        decreases reversed@.len(),
    {
        let slot = reversed.pop().unwrap();
        let out = match slot {
            Some(v) => Outcome::Done(v),
            None => Outcome::NotAdmitted(why),
        };
        r.push(out);
    }
    assert(r@ =~= input.map_values(|s: Option<R>| outcome_of(s, why)));
    r
}

} // verus!
