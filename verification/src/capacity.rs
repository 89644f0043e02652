//! How many segment workers this machine can afford.
//!
//! The render pool was sized from the core count alone, and at 4K four
//! workers asked for more memory than a small machine had: the page file
//! took the difference and the machine froze. Memory is the one resource
//! where being wrong costs the whole machine rather than some wall clock,
//! which is why the automatic answer is derived from it.

use vstd::prelude::*;
use crate::text::{decimal, one_decimal, one_decimal_of, owned, parsed_unsigned, parse_u64, tenths_of, trim, trimmed};

verus! {

/// What one worker costs before a single pixel of canvas — the FFmpeg
/// process, its demuxers, the decoded still, and x264's fixed structures.
pub const SEGMENT_BASE_BYTES: u64 = 192 * 1024 * 1024;

/// What one worker costs per pixel of the prescale canvas.
pub const SEGMENT_BYTES_PER_PRESCALE_PIXEL: u64 = 36;

/// Share of total RAM one render may plan to occupy, as a percentage.
pub const BUDGET_PERCENT: u64 = 70;

/// The environment variable that overrides the budget, in whole megabytes.
pub const BUDGET_ENV: &'static str = "SPOONSTILL_MEMORY_BUDGET_MB";

/// What one concurrent segment worker needs for a prescale canvas of
/// `width` by `height`, in bytes: a fixed base and a cost per pixel, chosen
/// to sit above every measurement.
pub open spec fn segment_cost(width: nat, height: nat) -> nat {
    (SEGMENT_BASE_BYTES + width * height * SEGMENT_BYTES_PER_PRESCALE_PIXEL) as nat
}

/// Roughly what one concurrent segment worker needs at this geometry.
pub fn segment_memory_bytes(prescale_width: u32, prescale_height: u32) -> (r: u64)
    requires
        segment_cost(prescale_width as nat, prescale_height as nat) <= u64::MAX,
    ensures
        r == segment_cost(prescale_width as nat, prescale_height as nat),
{
    let pixels = (prescale_width as u64) * (prescale_height as u64);
    assert(pixels * 36 <= u64::MAX) by (nonlinear_arith)
        requires
            201326592 + prescale_width * prescale_height * 36 <= u64::MAX,
            pixels == prescale_width * prescale_height,
    {
    }
    SEGMENT_BASE_BYTES + pixels * SEGMENT_BYTES_PER_PRESCALE_PIXEL
}

/// The machine's own memory, as the `sysinfo` crate reads it.
#[verifier::external_type_specification]
#[verifier::external_body]
pub struct ExSystem(sysinfo::System);

/// Calls `sysinfo::System::new`, which prepares a reader of the machine
/// with nothing loaded yet; its error, where the platform has no reader,
/// becomes `None`. Nothing is claimed of the reader.
#[verifier::external_body]
fn memory_reader() -> (r: Option<sysinfo::System>) {
    sysinfo::System::new().ok()
}

/// Calls `sysinfo::System::refresh_memory`, which reads the machine's
/// memory figures into `system`. What it reads is the machine's: nothing is
/// claimed of it.
#[verifier::external_body]
fn refresh_memory(system: &mut sysinfo::System) {
    system.refresh_memory();
}

/// Calls `sysinfo::System::total_memory`, the machine's total physical
/// memory in bytes, as last refreshed. It is the machine's: nothing is
/// claimed of the number.
#[verifier::external_body]
fn total_memory(system: &sysinfo::System) -> (r: u64) {
    system.total_memory()
}

/// What a reported total says: a machine that reports no memory at all is
/// one that will not say; any other figure is the answer.
pub open spec fn memory_answer_of(total: u64) -> Option<u64> {
    if total == 0 {
        None
    } else {
        Some(total)
    }
}

/// The answer a reported total of `total` bytes gives.
pub fn memory_answer(total: u64) -> (r: Option<u64>)
    ensures
        r == memory_answer_of(total),
{
    if total == 0 {
        None
    } else {
        Some(total)
    }
}

/// This machine's total physical memory, if it can be read: total rather
/// than available, which changes second to second. A machine that reports
/// none is treated as one that will not say. Whether the platform has a
/// reader, and what it reports, are the machine's; a reported figure is
/// handed back exactly as [`memory_answer`] reads it.
pub fn total_memory_bytes() -> (r: Option<u64>)
    ensures
        r != Some(0u64),
{
    match memory_reader() {
        Some(mut system) => {
            refresh_memory(&mut system);
            let bytes = total_memory(&system);
            memory_answer(bytes)
        },
        None => None,
    }
}

/// What a value of [`BUDGET_ENV`] asks for, in megabytes: a whole number
/// above zero, surrounding blanks allowed; anything else asks for nothing.
pub open spec fn budget_megabytes_of(raw: Seq<char>) -> Option<nat> {
    match parsed_unsigned(trimmed(raw), u64::MAX as nat) {
        Some(m) => if m > 0 {
            Some(m)
        } else {
            None
        },
        None => None,
    }
}

/// The megabytes a value of [`BUDGET_ENV`] asks for, if it asks for any.
pub fn budget_megabytes(raw: &str) -> (r: Option<u64>)
    ensures
        match r {
            Some(m) => budget_megabytes_of(raw@) == Some(m as nat),
            None => budget_megabytes_of(raw@) is None,
        },
{
    match parse_u64(trim(raw)) {
        Some(m) => if m > 0 {
            Some(m)
        } else {
            None
        },
        None => None,
    }
}

/// The budget: what the operator asked for, in megabytes, if anything;
/// otherwise [`BUDGET_PERCENT`] of the machine's total, counted in whole
/// hundredths; otherwise none.
pub open spec fn budget_of(asked: Option<nat>, total: Option<nat>) -> Option<nat> {
    match asked {
        Some(m) => Some(m * 1048576),
        None => match total {
            Some(t) => Some(t / 100 * 70),
            None => None,
        },
    }
}

/// How much memory a render may plan to use, given what was asked for and
/// what the machine has.
pub fn budget_within(asked: Option<u64>, total: Option<u64>) -> (r: Option<u64>)
    requires
        asked matches Some(m) ==> m * 1048576 <= u64::MAX,
    ensures
        match r {
            Some(b) => budget_of(
                match asked {
                    Some(m) => Some(m as nat),
                    None => None,
                },
                match total {
                    Some(t) => Some(t as nat),
                    None => None,
                },
            ) == Some(b as nat),
            None => asked is None && total is None,
        },
{
    match asked {
        Some(m) => Some(m * 1048576),
        None => match total {
            Some(t) => Some(t / 100 * BUDGET_PERCENT),
            None => None,
        },
    }
}

/// How the worker count for a run was arrived at.
#[derive(Debug, Clone, Copy, PartialEq, Eq)]
pub struct Capacity {
    /// Workers this run will actually start.
    pub jobs: usize,
    /// What the core-count rule alone would have said.
    pub by_cores: usize,
    /// What the memory budget alone would have said, if memory could be read.
    pub by_memory: Option<usize>,
    /// Estimated cost of one worker at this geometry.
    pub per_worker: u64,
    /// The budget that cost was measured against.
    pub budget: Option<u64>,
}

impl Capacity {
    /// Whether the memory budget, not the core count, decided this.
    pub fn limited_by_memory(&self) -> (r: bool)
        ensures
            r == (self.by_memory matches Some(m) && m < self.by_cores),
    {
        match self.by_memory {
            Some(memory) => memory < self.by_cores,
            None => false,
        }
    }
}

/// `n` as a `usize`, or the largest `usize` where it does not fit.
pub open spec fn capped(n: nat) -> nat {
    if n > usize::MAX {
        usize::MAX as nat
    } else {
        n
    }
}

/// How many workers the budget affords at `per_worker` bytes each.
pub open spec fn affordable(budget: Option<u64>, per_worker: nat) -> Option<nat> {
    match budget {
        Some(b) => Some(capped(b as nat / per_worker)),
        None => None,
    }
}

/// The lower of the core count's answer and the memory budget's, never
/// below one.
pub open spec fn jobs_for(by_cores: nat, by_memory: Option<nat>) -> nat {
    let lower = match by_memory {
        Some(m) => if m < by_cores {
            m
        } else {
            by_cores
        },
        None => by_cores,
    };
    if lower < 1 {
        1
    } else {
        lower
    }
}

fn capped_usize(n: u64) -> (r: usize)
    ensures
        r == capped(n as nat),
{
    if n > usize::MAX as u64 {
        usize::MAX
    } else {
        n as usize
    }
}

/// Decide the automatic worker count for a render whose prescale canvas is
/// `prescale_width` by `prescale_height`, with the machine stated: the lower
/// of the core-derived answer and what the memory budget affords, never
/// below one.
pub fn plan_within(prescale_width: u32, prescale_height: u32, budget: Option<u64>, by_cores: usize) -> (r: Capacity)
    requires
        segment_cost(prescale_width as nat, prescale_height as nat) <= u64::MAX,
    ensures
        r.per_worker == segment_cost(prescale_width as nat, prescale_height as nat),
        r.by_cores == by_cores,
        r.budget == budget,
        match r.by_memory {
            Some(m) => affordable(budget, r.per_worker as nat) == Some(m as nat),
            None => budget is None,
        },
        r.jobs == jobs_for(
            by_cores as nat,
            match r.by_memory {
                Some(m) => Some(m as nat),
                None => None,
            },
        ),
{
    let per_worker = segment_memory_bytes(prescale_width, prescale_height);
    let by_memory = match budget {
        Some(b) => Some(capped_usize(b / per_worker)),
        None => None,
    };
    let lower = match by_memory {
        Some(m) => if m < by_cores {
            m
        } else {
            by_cores
        },
        None => by_cores,
    };
    let jobs = if lower < 1 {
        1
    } else {
        lower
    };
    Capacity { jobs, by_cores, by_memory, per_worker, budget }
}

/// A run that is planning to use more memory than this machine should give
/// it.
#[derive(Debug, Clone, Copy, PartialEq, Eq)]
pub struct Pressure {
    /// Workers this run will start.
    pub jobs: usize,
    /// What they are estimated to need together.
    pub needed: u64,
    /// What the machine affords.
    pub budget: u64,
    /// The largest worker count that fits, which may be zero.
    pub fits: usize,
}

/// `a * b`, or the largest `u64` where it does not fit.
pub open spec fn saturating_product(a: nat, b: nat) -> nat {
    if a * b > u64::MAX {
        u64::MAX as nat
    } else {
        a * b
    }
}

/// What [`pressure_within`] says of `jobs` workers on a canvas of `width`
/// by `height` against `budget`: a warning exactly when their need exceeds
/// a budget there is, naming the need, the budget and what fits.
pub open spec fn pressure_is(p: Option<Pressure>, width: nat, height: nat, budget: Option<u64>, jobs: nat) -> bool {
    let per = segment_cost(width, height);
    let needed = saturating_product(per, jobs);
    match p {
        Some(p) => budget matches Some(b) && needed > b && p.jobs == jobs && p.needed == needed
            && p.budget == b && p.fits == capped(b as nat / per),
        None => budget is None || (budget matches Some(b) && needed <= b),
    }
}

/// Whether `jobs` workers overcommit the machine: `None` when they fit, or
/// when there is no budget to measure against.
pub fn pressure_within(prescale_width: u32, prescale_height: u32, budget: Option<u64>, jobs: usize) -> (r: Option<Pressure>)
    requires
        segment_cost(prescale_width as nat, prescale_height as nat) <= u64::MAX,
    ensures
        ({
            let per = segment_cost(prescale_width as nat, prescale_height as nat);
            let needed = saturating_product(per, jobs as nat);
            match r {
                Some(p) => budget matches Some(b) && needed > b && p.jobs == jobs && p.needed == needed
                    && p.budget == b && p.fits == capped(b as nat / per),
                None => budget is None || (budget matches Some(b) && needed <= b),
            }
        }),
{
    let b = match budget {
        Some(b) => b,
        None => return None,
    };
    let per_worker = segment_memory_bytes(prescale_width, prescale_height);
    let needed = match per_worker.checked_mul(jobs as u64) {
        Some(n) => n,
        None => u64::MAX,
    };
    if needed <= b {
        return None;
    }
    Some(Pressure { jobs, needed, budget: b, fits: capped_usize(b / per_worker) })
}

/// Bytes as an operator reads them: `2.6 GB`.
pub fn gigabytes(bytes: u64) -> (r: String)
    ensures
        r@ == one_decimal_of(tenths_of(bytes as nat, 1073741824)) + " GB"@,
{
    let mut s = one_decimal(bytes, 1073741824);
    s.append(" GB");
    s
}

} // verus!

verus! {

/// The memory rule only ever narrows the pool: the automatic count is never
/// above the core count's answer, and never below one.
pub proof fn lemma_memory_never_widens(by_cores: nat, by_memory: Option<nat>)
    requires
        by_cores >= 1,
    ensures
        1 <= jobs_for(by_cores, by_memory) <= by_cores,
{
}

/// With at least two cores' worth of workers, the memory budget decided the
/// count exactly when the count came out below the core count's answer.
pub proof fn lemma_limited_means_memory_chose(by_cores: nat, by_memory: Option<nat>)
    requires
        by_cores >= 2,
    ensures
        (by_memory matches Some(m) && m < by_cores) == (jobs_for(by_cores, by_memory) < by_cores),
{
}

/// A bigger canvas never gets more workers than a smaller one, on the same
/// machine.
pub proof fn lemma_bigger_frames_get_no_more_workers(
    budget: Option<u64>,
    by_cores: nat,
    small: nat,
    large: nat,
)
    requires
        0 < small <= large,
    ensures
        jobs_for(by_cores, affordable(budget, large)) <= jobs_for(by_cores, affordable(budget, small)),
{
    match budget {
        Some(b) => {
            assert(b as nat / large <= b as nat / small) by (nonlinear_arith)
                requires
                    0 < small <= large,
            {
            }
        },
        None => {},
    }
}

/// The automatic count never warns about itself: when it is more than the
/// floor of one, that many workers fit the budget.
pub proof fn lemma_the_automatic_count_fits(budget: u64, by_cores: nat, per_worker: nat)
    requires
        per_worker > 0,
        by_cores <= usize::MAX,
        jobs_for(by_cores, affordable(Some(budget), per_worker)) > 1,
    ensures
        saturating_product(per_worker, jobs_for(by_cores, affordable(Some(budget), per_worker)))
            <= budget,
{
    let jobs = jobs_for(by_cores, affordable(Some(budget), per_worker));
    let q = budget as nat / per_worker;
    assert(jobs <= q);
    assert(jobs * per_worker <= q * per_worker) by (nonlinear_arith)
        requires
            jobs <= q,
            per_worker > 0,
    {
    }
    assert(q * per_worker <= budget) by (nonlinear_arith)
        requires
            q == budget as nat / per_worker,
            per_worker > 0,
    {
    }
}

/// A warning always names a smaller number to pass than the one that
/// caused it.
pub proof fn lemma_a_warning_names_fewer_workers(budget: u64, per_worker: nat, jobs: nat)
    requires
        per_worker > 0,
        jobs <= usize::MAX,
        saturating_product(per_worker, jobs) > budget,
    ensures
        capped(budget as nat / per_worker) < jobs,
{
    let q = budget as nat / per_worker;
    if q >= jobs {
        assert(jobs * per_worker <= budget) by (nonlinear_arith)
            requires
                q >= jobs,
                q == budget as nat / per_worker,
                per_worker > 0,
        {
        }
    }
}

} // verus!
