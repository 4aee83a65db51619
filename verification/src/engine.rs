//! The search engine. A `Stella` owns the prime and inverse tables, the
//! primorial, the job registry, the task queue and the output buffer, and
//! processes one task per `step` call: a sieve task eliminates factors for
//! one segment and queues check tasks for the survivors, a check task
//! Fermat-tests its candidates and stores the tuples found. A driver that
//! wants parallelism shares one engine behind a lock and lets each worker
//! call `step`.

use vstd::prelude::*;
use std::collections::VecDeque;
use crate::check::{chain_result, check_candidate, lemma_chain_all_prp};
use crate::offsets::{default_primorial_offset, spec_default_offset};
use crate::primes::{
    compute_modular_inverses,
    generate_primes,
    fermat_prp,
    inverse_ok,
    primes_upto,
    primorial,
    prod_prefix,
};
use crate::sieve::{eliminated, sieve_segment, table_inverses_ok, Sieve};
use crate::uint::{Uint, uint_add, uint_div, uint_lt, uint_mul, uint_rem, uint_sub};

verus! {

/// The parameters of an engine. A zero field stands for its default; the
/// worker count is kept as given and a zero is resolved by the driver,
/// which knows the host's parallelism.
pub struct Params {
    pub workers: usize,
    pub constellation_pattern: Vec<usize>,
    pub prime_table_limit: usize,
    pub primorial_number: usize,
    pub primorial_offset: u128,
    pub sieve_size: usize,
}

impl Default for Params {
    /// All fields zero: every parameter takes its default.
    fn default() -> (r: Params)
        ensures
            r.workers == 0,
            r.constellation_pattern@.len() == 0,
            r.prime_table_limit == 0,
            r.primorial_number == 0,
            r.primorial_offset == 0,
            r.sieve_size == 0,
    {
        Params {
            workers: 0,
            constellation_pattern: Vec::new(),
            prime_table_limit: 0,
            primorial_number: 0,
            primorial_offset: 0,
            sieve_size: 0,
        }
    }
}

/// A search job: find constellations for `pattern` among the candidates
/// between the two targets, reporting tuples of at least `k_min` primes.
pub struct Job {
    pub id: usize,
    pub clear_previous_jobs: bool,
    pub pattern: Vec<usize>,
    pub target_min: Uint,
    pub target_max: Uint,
    pub k_min: usize,
    pub pattern_min: Vec<bool>,
}

/// A reason a job cannot be admitted.
#[derive(Clone, Copy, Debug, PartialEq, Eq, Structural)]
pub enum JobError {
    /// A job with the same id is already registered.
    DuplicateId,
    /// The pattern and the required-position mask differ in length.
    PatternLengthMismatch,
    /// The minimum tuple length exceeds the pattern length.
    KMinExceedsPattern,
    /// The upper target lies below the lower target.
    EmptyRange,
    /// The range is shorter than the primorial, so no candidate exists.
    PrimorialTooLarge,
}

/// A condition worth reporting that does not stop a job.
#[derive(Clone, Copy, Debug, PartialEq, Eq, Structural)]
pub enum JobWarning {
    /// The factor count of the range exceeds the machine word and the
    /// search stops early, at the largest representable factor.
    FactorLimitClamped,
}

/// What kind of work a task carries.
#[derive(Clone, Copy, Debug, PartialEq, Eq, Structural)]
pub enum TaskType {
    Sieve,
    Check,
}

/// One unit of work: either sieve the factors from `primorial_factor_start`
/// towards `primorial_factor_max`, or Fermat-test the candidate factors in
/// `factors_candidates`, which count from `primorial_factor_start`.
pub struct Task {
    pub t: TaskType,
    pub job_id: usize,
    pub primorial_factor_start: usize,
    pub primorial_factor_max: usize,
    pub factors_candidates: Vec<usize>,
}

impl Task {
    /// A sieve task over the factors from `start` up to `max`.
    pub fn new_sieve(
        job_id: usize,
        primorial_factor_start: usize,
        primorial_factor_max: usize,
    ) -> (r: Task)
        ensures
            r.t == TaskType::Sieve,
            r.job_id == job_id,
            r.primorial_factor_start == primorial_factor_start,
            r.primorial_factor_max == primorial_factor_max,
            r.factors_candidates@.len() == 0,
    {
        Task {
            t: TaskType::Sieve,
            job_id,
            primorial_factor_start,
            primorial_factor_max,
            factors_candidates: Vec::new(),
        }
    }

    /// A check task for the given candidate factors of one segment.
    pub fn new_check(
        job_id: usize,
        primorial_factor_start: usize,
        factors_candidates: Vec<usize>,
    ) -> (r: Task)
        ensures
            r.t == TaskType::Check,
            r.job_id == job_id,
            r.primorial_factor_start == primorial_factor_start,
            r.primorial_factor_max == 0,
            r.factors_candidates == factors_candidates,
    {
        Task {
            t: TaskType::Check,
            job_id,
            primorial_factor_start,
            primorial_factor_max: 0,
            factors_candidates,
        }
    }
}

/// A tuple the search found: at the offsets `pattern` from `n`, every
/// number passed the Fermat test.
pub struct Output {
    pub n: Uint,
    pub pattern: Vec<usize>,
    pub job_id: usize,
    pub worker_id: usize,
}

/// Counters of the search so far. `tuple_counts[k]` counts the candidates
/// whose first `k` chain positions were all probable primes, so
/// `tuple_counts[0]` counts the candidates examined.
pub struct Stats {
    pub prime_table_size: usize,
    pub candidates_generated: usize,
    pub candidates_tested: usize,
    pub tuple_counts: Vec<usize>,
}

impl Stats {
    /// All counters at zero.
    pub fn new() -> (r: Stats)
        ensures
            r.prime_table_size == 0,
            r.candidates_generated == 0,
            r.candidates_tested == 0,
            r.tuple_counts@.len() == 0,
    {
        Stats {
            prime_table_size: 0,
            candidates_generated: 0,
            candidates_tested: 0,
            tuple_counts: Vec::new(),
        }
    }
}

/// The first candidate of the segment that starts at factor `start`: the
/// smallest number at least `tmin` congruent to `delta` modulo the
/// primorial, moved up by `start` primorials.
pub open spec fn first_candidate_val(tmin: nat, pval: nat, delta: u128, start: nat) -> nat {
    (tmin + (pval - tmin % pval) + delta + start * pval) as nat
}

/// The base of a job's first segment is pattern-aligned: it is congruent
/// to the primorial offset modulo the primorial, and it lies above the
/// range's lower target.
pub proof fn lemma_first_candidate_aligned(tmin: nat, pval: nat, delta: u128)
    requires
        pval >= 1,
    ensures
        (first_candidate_val(tmin, pval, delta, 0) as int) % (pval as int) == (delta as int) % (
        pval as int),
        first_candidate_val(tmin, pval, delta, 0) > tmin,
{
    vstd::arithmetic::div_mod::lemma_mod_bound(tmin as int, pval as int);
    let q = tmin as int / pval as int;
    vstd::arithmetic::div_mod::lemma_fundamental_div_mod(tmin as int, pval as int);
    let b0 = first_candidate_val(tmin, pval, delta, 0) as int;
    assert(b0 == pval as int * (q + 1) + delta) by (nonlinear_arith)
        requires
            tmin as int == pval as int * q + tmin as int % pval as int && b0 == tmin + (pval
                - tmin % pval) + delta + 0 * pval,
    ;
    vstd::arithmetic::div_mod::lemma_mod_multiples_vanish(q + 1, delta as int, pval as int);
}

/// Moving a segment start into the factor gives the same candidate: only
/// the absolute factor decides which number is examined, not how the range
/// was cut into segments.
pub proof fn lemma_candidate_absolute(tmin: nat, pval: nat, delta: u128, s: nat, f: nat)
    requires
        pval >= 1,
    ensures
        first_candidate_val(tmin, pval, delta, s) + f * pval == first_candidate_val(
            tmin,
            pval,
            delta,
            0,
        ) + (s + f) * pval,
{
    assert(s * pval + f * pval == (s + f) * pval) by (nonlinear_arith);
    assert(0 * pval == 0);
    vstd::arithmetic::div_mod::lemma_mod_bound(tmin as int, pval as int);
}

/// Whether some registered job already carries this id.
pub open spec fn has_job_id(jobs: Seq<Job>, id: usize) -> bool {
    exists|t: int| 0 <= t < jobs.len() && (#[trigger] jobs[t]).id == id
}

/// How many primorials fit between the two targets: the factor count of
/// the job's range before clamping to the machine word.
pub open spec fn spec_factor_limit(job: Job, pval: nat) -> nat {
    ((job.target_max@ - job.target_min@) as nat) / pval
}

/// The errors admission reports for a job, in the order they are checked.
/// An empty range ends admission early, so the factor count is only
/// examined when the range is sound.
pub open spec fn admission_errors(jobs: Seq<Job>, job: Job, pval: nat) -> Seq<JobError> {
    let e = (if has_job_id(jobs, job.id) {
        seq![JobError::DuplicateId]
    } else {
        Seq::empty()
    }) + (if job.pattern@.len() != job.pattern_min@.len() {
        seq![JobError::PatternLengthMismatch]
    } else {
        Seq::empty()
    }) + (if job.k_min > job.pattern@.len() {
        seq![JobError::KMinExceedsPattern]
    } else {
        Seq::empty()
    });
    if job.target_max@ < job.target_min@ {
        e + seq![JobError::EmptyRange]
    } else if spec_factor_limit(job, pval) == 0 {
        e + seq![JobError::PrimorialTooLarge]
    } else {
        e
    }
}

/// The warnings admission reports: only the clamp of an oversized factor
/// count.
pub open spec fn admission_warnings(job: Job, pval: nat) -> Seq<JobWarning> {
    if job.target_max@ >= job.target_min@ && spec_factor_limit(job, pval) > usize::MAX {
        seq![JobWarning::FactorLimitClamped]
    } else {
        Seq::empty()
    }
}

/// No prime of the table can overflow a factor index when stepped across
/// a segment of the configured sieve size.
pub open spec fn primes_fit_sieve(primes: Seq<usize>, sieve_size: usize) -> bool {
    forall|i: int|
        0 <= i < primes.len() ==> #[trigger] primes[i] as int + sieve_size as int
            <= usize::MAX as int
}

/// Every queued sieve task has room to advance.
pub open spec fn tasks_wf(tasks: Seq<Task>) -> bool {
    forall|t: int|
        0 <= t < tasks.len() && (#[trigger] tasks[t]).t == TaskType::Sieve ==> tasks[t].primorial_factor_start
            < tasks[t].primorial_factor_max
}

/// Every registered job pairs its pattern with a mask of the same length.
pub open spec fn jobs_wf(jobs: Seq<Job>) -> bool {
    forall|t: int|
        0 <= t < jobs.len() ==> (#[trigger] jobs[t]).pattern@.len() == jobs[t].pattern_min@.len()
}

/// Every stored output is Fermat-sound.
pub open spec fn outputs_sound(out: Seq<Output>) -> bool {
    forall|t: int| 0 <= t < out.len() ==> output_sound(#[trigger] out[t])
}

/// A task that is not a sieve task, or that has room to advance, keeps the
/// queue well-formed when pushed at either end.
pub open spec fn task_ok(task: Task) -> bool {
    task.t == TaskType::Sieve ==> task.primorial_factor_start < task.primorial_factor_max
}

/// Pushing an acceptable task at the back keeps the queue well-formed.
proof fn lemma_tasks_wf_push_back(pre: Seq<Task>, task: Task)
    requires
        tasks_wf(pre),
        task_ok(task),
    ensures
        tasks_wf(pre.push(task)),
{
    let post = pre.push(task);
    assert forall|t: int|
        0 <= t < post.len() && (#[trigger] post[t]).t == TaskType::Sieve
        implies post[t].primorial_factor_start < post[t].primorial_factor_max by {
        if t < pre.len() {
            assert(post[t] == pre[t]);
        } else {
            assert(post[t] == task);
        }
    }
}

/// Pushing an acceptable task at the front keeps the queue well-formed.
proof fn lemma_tasks_wf_push_front(pre: Seq<Task>, task: Task)
    requires
        tasks_wf(pre),
        task_ok(task),
    ensures
        tasks_wf(seq![task] + pre),
{
    let post = seq![task] + pre;
    assert forall|t: int|
        0 <= t < post.len() && (#[trigger] post[t]).t == TaskType::Sieve
        implies post[t].primorial_factor_start < post[t].primorial_factor_max by {
        if t == 0 {
            assert(post[t] == task);
        } else {
            assert(post[t] == pre[t - 1]);
        }
    }
}

/// Removing the front task keeps the queue well-formed.
proof fn lemma_tasks_wf_pop_front(pre: Seq<Task>)
    requires
        tasks_wf(pre),
        pre.len() > 0,
    ensures
        tasks_wf(pre.subrange(1, pre.len() as int)),
{
    let post = pre.subrange(1, pre.len() as int);
    assert forall|t: int|
        0 <= t < post.len() && (#[trigger] post[t]).t == TaskType::Sieve
        implies post[t].primorial_factor_start < post[t].primorial_factor_max by {
        assert(post[t] == pre[t + 1]);
    }
}

/// Appending a Fermat-sound output keeps the buffer sound.
proof fn lemma_outputs_sound_push(pre: Seq<Output>, out: Output)
    requires
        outputs_sound(pre),
        output_sound(out),
    ensures
        outputs_sound(pre.push(out)),
{
    let post = pre.push(out);
    assert forall|t: int| 0 <= t < post.len() implies output_sound(#[trigger] post[t]) by {
        if t < pre.len() {
            assert(post[t] == pre[t]);
            assert(output_sound(pre[t]));
        } else {
            assert(post[t] == out);
        }
    }
}

/// What one check task guarantees of an output it adds: the output came
/// from one of the task's factors, its offsets are the job's Fermat chain
/// of that candidate, and the chain reached the job's minimum length.
pub open spec fn check_output_of(
    out: Output,
    job: Job,
    pval: nat,
    delta: u128,
    start: usize,
    factors: Seq<usize>,
    worker_id: usize,
) -> bool {
    &&& out.worker_id == worker_id
    &&& out.job_id == job.id
    &&& out.pattern@ == chain_result(out.n@, job.pattern@, job.pattern_min@, job.k_min as int)
    &&& out.pattern@.len() >= job.k_min
    &&& exists|u: int|
        0 <= u < factors.len() && out.n@ == first_candidate_val(
            job.target_min@,
            pval,
            delta,
            start as nat,
        ) + (#[trigger] factors[u]) * pval
}

/// What one engine step guarantees of an output it adds: some registered
/// job owns it, its offsets are that job's Fermat chain of its candidate,
/// and the chain reached that job's minimum tuple length.
pub open spec fn step_output_of(
    out: Output,
    jobs: Seq<Job>,
    pval: nat,
    delta: u128,
    worker_id: usize,
) -> bool {
    exists|jx: int|
        0 <= jx < jobs.len() && out.job_id == (#[trigger] jobs[jx]).id && out.pattern@
            == chain_result(out.n@, jobs[jx].pattern@, jobs[jx].pattern_min@, jobs[jx].k_min as int)
            && out.pattern@.len() >= jobs[jx].k_min && out.worker_id == worker_id
}

/// Some queued task is the sieve follow-up starting at factor `next`.
pub open spec fn some_followup(tasks: Seq<Task>, job_id: usize, next: int, maxf: usize) -> bool {
    exists|w: int|
        0 <= w < tasks.len() && (#[trigger] tasks[w]).t == TaskType::Sieve && tasks[w].job_id
            == job_id && tasks[w].primorial_factor_start as int == next
            && tasks[w].primorial_factor_max == maxf
}

/// A queued follow-up stays queued when a task is pushed at the front.
proof fn lemma_followup_push_front(tasks: Seq<Task>, task: Task, job_id: usize, next: int, maxf: usize)
    requires
        some_followup(tasks, job_id, next, maxf),
    ensures
        some_followup(seq![task] + tasks, job_id, next, maxf),
{
    let w = choose|w: int|
        0 <= w < tasks.len() && (#[trigger] tasks[w]).t == TaskType::Sieve && tasks[w].job_id
            == job_id && tasks[w].primorial_factor_start as int == next
            && tasks[w].primorial_factor_max == maxf;
    assert((seq![task] + tasks)[w + 1] == tasks[w]);
}

/// Some queued task is a check task of this segment carrying factor `j`.
pub open spec fn some_task_carries(tasks: Seq<Task>, job_id: usize, start: usize, j: usize) -> bool {
    exists|w: int| 0 <= w < tasks.len() && check_task_carries(#[trigger] tasks[w], job_id, start, j)
}

/// Some output at or past position `lo` reports the candidate `n`.
pub open spec fn some_output_reports(outputs: Seq<Output>, lo: int, n: nat) -> bool {
    exists|t: int| 0 <= t && lo <= t < outputs.len() && (#[trigger] outputs[t]).n@ == n
}

/// A reported candidate stays reported when an output is appended.
proof fn lemma_reports_push(outputs: Seq<Output>, out: Output, lo: int, n: nat)
    requires
        some_output_reports(outputs, lo, n),
    ensures
        some_output_reports(outputs.push(out), lo, n),
{
    let t = choose|t: int| 0 <= t && lo <= t < outputs.len() && (#[trigger] outputs[t]).n@ == n;
    assert(outputs.push(out)[t] == outputs[t]);
    assert(outputs.push(out)[t].n@ == n);
}

/// A carried factor stays carried when a task is pushed at the front.
proof fn lemma_carries_push_front(tasks: Seq<Task>, task: Task, job_id: usize, start: usize, j: usize)
    requires
        some_task_carries(tasks, job_id, start, j),
    ensures
        some_task_carries(seq![task] + tasks, job_id, start, j),
{
    let w = choose|w: int| 0 <= w < tasks.len() && check_task_carries(#[trigger] tasks[w], job_id, start, j);
    assert((seq![task] + tasks)[w + 1] == tasks[w]);
    assert(check_task_carries((seq![task] + tasks)[w + 1], job_id, start, j));
}

/// The given queue task is a check task of this segment carrying factor `j`.
pub open spec fn check_task_carries(task: Task, job_id: usize, start: usize, j: usize) -> bool {
    task.t == TaskType::Check && task.job_id == job_id && task.primorial_factor_start == start
        && task.factors_candidates@.contains(j)
}

/// Nothing a sieve owes was dropped: the queue holds the follow-up segment
/// where one remains, and a check task for every factor of this segment
/// that the sieve did not eliminate.
pub open spec fn segment_fully_forwarded(
    tasks: Seq<Task>,
    job: Job,
    job_id: usize,
    start: usize,
    maxf: usize,
    width: int,
    primes: Seq<usize>,
    inv: Seq<usize>,
    n_start: int,
    pattern: Seq<usize>,
    pval: nat,
    delta: u128,
) -> bool {
    &&& (start + width < maxf ==> some_followup(tasks, job_id, start + width, maxf))
    &&& forall|j: usize|
        j < width && !eliminated(
            primes,
            inv,
            n_start,
            pattern,
            first_candidate_val(job.target_min@, pval, delta, start as nat),
            pval,
            j as nat,
        ) ==> #[trigger] some_task_carries(tasks, job_id, start, j)
}

/// Nothing a check task owes was dropped: from position `lo` on, the
/// output buffer reports every factor of the task whose Fermat chain
/// reached the job's minimum tuple length.
pub open spec fn factors_fully_reported(
    outputs: Seq<Output>,
    lo: int,
    job: Job,
    pval: nat,
    delta: u128,
    start: usize,
    factors: Seq<usize>,
) -> bool {
    forall|u: int|
        0 <= u < factors.len() && chain_result(
            (first_candidate_val(job.target_min@, pval, delta, start as nat) + (#[trigger] factors[u])
                * pval) as nat,
            job.pattern@,
            job.pattern_min@,
            job.k_min as int,
        ).len() >= job.k_min ==> some_output_reports(
            outputs,
            lo,
            (first_candidate_val(job.target_min@, pval, delta, start as nat) + factors[u]
                * pval) as nat,
        )
}

/// What a sieve task may add to the queue: its follow-up segment, or a
/// check task whose factors all survived the sieve of its segment.
pub open spec fn sieve_child(
    task: Task,
    job: Job,
    job_id: usize,
    start: usize,
    maxf: usize,
    width: int,
    primes: Seq<usize>,
    inv: Seq<usize>,
    n_start: int,
    pattern: Seq<usize>,
    pval: nat,
    delta: u128,
) -> bool {
    ||| (task.t == TaskType::Sieve && task.job_id == job_id && task.primorial_factor_start as int
        == start + width && task.primorial_factor_max == maxf && start + width < maxf)
    ||| (task.t == TaskType::Check && task.job_id == job_id && task.primorial_factor_start == start
        && forall|u: int|
        0 <= u < task.factors_candidates@.len() ==> (#[trigger] task.factors_candidates@[u]) < width
            && !eliminated(
            primes,
            inv,
            n_start,
            pattern,
            first_candidate_val(job.target_min@, pval, delta, start as nat),
            pval,
            task.factors_candidates@[u] as nat,
        ))
}

/// Two outputs for the same candidate report the same offsets, whatever
/// worker found them and however the range was cut into segments: the
/// reported chain is a function of the candidate and the job alone.
pub proof fn lemma_same_candidate_same_pattern(
    out1: Output,
    out2: Output,
    job: Job,
    pval: nat,
    delta: u128,
    s1: usize,
    s2: usize,
    f1: Seq<usize>,
    f2: Seq<usize>,
    w1: usize,
    w2: usize,
)
    requires
        check_output_of(out1, job, pval, delta, s1, f1, w1),
        check_output_of(out2, job, pval, delta, s2, f2, w2),
        out1.n@ == out2.n@,
    ensures
        out1.pattern@ == out2.pattern@,
{
}

/// A check task produced by sieving never references a factor whose
/// candidate is divisible, at any pattern position, by any table prime at
/// or past the primorial number, as long as each of those primes has a
/// recorded inverse; `init` establishes that the table built from a prime
/// limit always has them.
pub proof fn lemma_check_task_factors_clean(
    task: Task,
    job: Job,
    job_id: usize,
    start: usize,
    maxf: usize,
    width: int,
    primes: Seq<usize>,
    inv: Seq<usize>,
    n_start: int,
    pattern: Seq<usize>,
    pval: nat,
    delta: u128,
)
    requires
        sieve_child(task, job, job_id, start, maxf, width, primes, inv, n_start, pattern, pval, delta),
        task.t == TaskType::Check,
        inv.len() == primes.len(),
        forall|i: int| n_start <= i < inv.len() ==> #[trigger] inv[i] != 0,
    ensures
        forall|u: int, i: int, l: int|
            0 <= u < task.factors_candidates@.len() && n_start <= i < primes.len() && 0 <= l
                < pattern.len() ==> !(#[trigger] crate::sieve::hits(
                first_candidate_val(job.target_min@, pval, delta, start as nat),
                pval,
                pattern[l] as nat,
                primes[i] as nat,
                task.factors_candidates@[u] as nat,
            )),
{
    let b = first_candidate_val(job.target_min@, pval, delta, start as nat);
    assert forall|u: int, i: int, l: int|
        0 <= u < task.factors_candidates@.len() && n_start <= i < primes.len() && 0 <= l
            < pattern.len() implies !(#[trigger] crate::sieve::hits(
        b,
        pval,
        pattern[l] as nat,
        primes[i] as nat,
        task.factors_candidates@[u] as nat,
    )) by {
        assert(!eliminated(
            primes,
            inv,
            n_start,
            pattern,
            b,
            pval,
            task.factors_candidates@[u] as nat,
        ));
        crate::sieve::lemma_survivor_has_no_witness(
            primes,
            inv,
            n_start,
            pattern,
            b,
            pval,
            task.factors_candidates@[u] as nat,
        );
    }
}

/// The engine.
pub struct Stella {
    params: Params,
    primes: Vec<usize>,
    modular_inverses: Vec<usize>,
    primorial: Uint,
    jobs: Vec<Job>,
    tasks: VecDeque<Task>,
    output: Vec<Output>,
    stats: Stats,
    sieve: Sieve,
}

impl Stella {
    /// The parameters as stored.
    pub closed spec fn spec_params(&self) -> &Params {
        &self.params
    }

    /// The prime table.
    pub closed spec fn spec_primes(&self) -> Seq<usize> {
        self.primes@
    }

    /// The modular-inverse table.
    pub closed spec fn spec_inverses(&self) -> Seq<usize> {
        self.modular_inverses@
    }

    /// The value of the primorial.
    pub closed spec fn spec_primorial(&self) -> nat {
        self.primorial@
    }

    /// The registered jobs.
    pub closed spec fn spec_jobs(&self) -> Seq<Job> {
        self.jobs@
    }

    /// The queued tasks, front first.
    pub closed spec fn spec_tasks(&self) -> Seq<Task> {
        self.tasks@
    }

    /// The output buffer, oldest first.
    pub closed spec fn spec_output(&self) -> Seq<Output> {
        self.output@
    }

    /// The statistics counters.
    pub closed spec fn spec_stats(&self) -> &Stats {
        &self.stats
    }

    /// The engine's invariant: the inverse table matches the prime table
    /// and the primorial, primes stay clear of overflow against the sieve
    /// size, every queued sieve task has room to advance, every registered
    /// job is well-formed, and every stored output is Fermat-sound.
    pub open spec fn wf(&self) -> bool {
        &&& table_inverses_ok(self.spec_primes(), self.spec_inverses(), self.spec_primorial())
        &&& self.spec_primorial() >= 1
        &&& primes_fit_sieve(self.spec_primes(), self.spec_params().sieve_size)
        &&& tasks_wf(self.spec_tasks())
        &&& jobs_wf(self.spec_jobs())
        &&& outputs_sound(self.spec_output())
    }

    /// An empty engine: no tables, no jobs, no tasks, no outputs.
    pub fn new() -> (r: Stella)
        ensures
            r.wf(),
            r.spec_primes().len() == 0,
            r.spec_inverses().len() == 0,
            r.spec_primorial() == 1,
            r.spec_jobs().len() == 0,
            r.spec_tasks().len() == 0,
            r.spec_output().len() == 0,
            r.spec_params().workers == 0,
            r.spec_params().constellation_pattern@.len() == 0,
            r.spec_params().prime_table_limit == 0,
            r.spec_params().primorial_number == 0,
            r.spec_params().primorial_offset == 0,
            r.spec_params().sieve_size == 0,
            r.spec_stats().prime_table_size == 0,
            r.spec_stats().candidates_generated == 0,
            r.spec_stats().candidates_tested == 0,
            r.spec_stats().tuple_counts@.len() == 0,
    {
        Stella {
            params: Params::default(),
            primes: Vec::new(),
            modular_inverses: Vec::new(),
            primorial: Uint::from_u64(1),
            jobs: Vec::new(),
            tasks: VecDeque::new(),
            output: Vec::new(),
            stats: Stats::new(),
            sieve: Sieve::new(),
        }
    }

    /// A copy of the parameters.
    pub fn params(&self) -> (r: Params)
        ensures
            r.workers == self.spec_params().workers,
            r.constellation_pattern@ == self.spec_params().constellation_pattern@,
            r.prime_table_limit == self.spec_params().prime_table_limit,
            r.primorial_number == self.spec_params().primorial_number,
            r.primorial_offset == self.spec_params().primorial_offset,
            r.sieve_size == self.spec_params().sieve_size,
    {
        Params {
            workers: self.params.workers,
            constellation_pattern: clone_usize_vec(&self.params.constellation_pattern),
            prime_table_limit: self.params.prime_table_limit,
            primorial_number: self.params.primorial_number,
            primorial_offset: self.params.primorial_offset,
            sieve_size: self.params.sieve_size,
        }
    }

    /// A copy of the primorial.
    pub fn primorial(&self) -> (r: Uint)
        ensures
            r@ == self.spec_primorial(),
    {
        self.primorial.duplicate()
    }

    /// A snapshot of the statistics counters.
    pub fn stats(&self) -> (r: Stats)
        ensures
            r.prime_table_size == self.spec_stats().prime_table_size,
            r.candidates_generated == self.spec_stats().candidates_generated,
            r.candidates_tested == self.spec_stats().candidates_tested,
            r.tuple_counts@ == self.spec_stats().tuple_counts@,
    {
        Stats {
            prime_table_size: self.stats.prime_table_size,
            candidates_generated: self.stats.candidates_generated,
            candidates_tested: self.stats.candidates_tested,
            tuple_counts: clone_usize_vec(&self.stats.tuple_counts),
        }
    }

    /// Stores parameters, replacing each zero field by its default: the
    /// pattern of seven offsets starting 0, 2, 6; a primorial number of
    /// 120; a prime table limit of 16777216; a sieve of 2^25 bits; the
    /// tabulated primorial offset of the pattern. A nonzero sieve size is
    /// rounded down to whole words. Parameters are set before `init`
    /// builds the tables.
    pub fn set_params(&mut self, params: Params)
        requires
            old(self).wf(),
            old(self).spec_primes().len() == 0,
            params.constellation_pattern@.len() == 0 || params.primorial_offset != 0
                || spec_default_offset(params.constellation_pattern@) is Some,
            params.sieve_size == 0 || params.sieve_size >= crate::WORD_SIZE,
        ensures
            final(self).wf(),
            final(self).spec_primes() == old(self).spec_primes(),
            final(self).spec_inverses() == old(self).spec_inverses(),
            final(self).spec_primorial() == old(self).spec_primorial(),
            final(self).spec_jobs() == old(self).spec_jobs(),
            final(self).spec_tasks() == old(self).spec_tasks(),
            final(self).spec_output() == old(self).spec_output(),
            final(self).spec_params().workers == params.workers,
            final(self).spec_params().constellation_pattern@ == if params.constellation_pattern@.len()
                == 0 {
                seq![0usize, 2, 6, 8, 12, 18, 20]
            } else {
                params.constellation_pattern@
            },
            final(self).spec_params().primorial_number == if params.primorial_number == 0 {
                120int
            } else {
                params.primorial_number as int
            },
            final(self).spec_params().prime_table_limit == if params.prime_table_limit == 0 {
                16777216int
            } else {
                params.prime_table_limit as int
            },
            final(self).spec_params().primorial_offset == if params.primorial_offset == 0 {
                spec_default_offset(final(self).spec_params().constellation_pattern@).unwrap()
            } else {
                params.primorial_offset
            },
            final(self).spec_params().sieve_size == if params.sieve_size == 0 {
                33554432int
            } else {
                (params.sieve_size as int / 64) * 64
            },
    {
        self.params.workers = params.workers;
        if params.constellation_pattern.len() == 0 {
            let mut default_pattern: Vec<usize> = Vec::new();
            default_pattern.push(0);
            default_pattern.push(2);
            default_pattern.push(6);
            default_pattern.push(8);
            default_pattern.push(12);
            default_pattern.push(18);
            default_pattern.push(20);
            proof {
                assert(default_pattern@ =~= seq![0usize, 2, 6, 8, 12, 18, 20]);
            }
            self.params.constellation_pattern = default_pattern;
        } else {
            self.params.constellation_pattern = params.constellation_pattern;
        }
        if params.primorial_number == 0 {
            self.params.primorial_number = 120;
        } else {
            self.params.primorial_number = params.primorial_number;
        }
        if params.prime_table_limit == 0 {
            self.params.prime_table_limit = 16777216;
        } else {
            self.params.prime_table_limit = params.prime_table_limit;
        }
        if params.primorial_offset == 0 {
            match default_primorial_offset(&self.params.constellation_pattern) {
                Some(offset) => {
                    self.params.primorial_offset = offset;
                },
                None => {
                    proof {
                        assert(false);
                    }
                },
            }
        } else {
            self.params.primorial_offset = params.primorial_offset;
        }
        if params.sieve_size == 0 {
            self.params.sieve_size = 33554432;
        } else {
            proof {
                assert((params.sieve_size as int / 64) * 64 <= params.sieve_size as int) by (nonlinear_arith);
            }
            self.params.sieve_size = (params.sieve_size / crate::WORD_SIZE) * crate::WORD_SIZE;
        }
        proof {
            assert(self.primes@.len() == 0);
            lemma_wf_unchanged(old(self), self);
        }
    }

    /// Builds the prime table, the primorial and the inverse table, and
    /// resets the counters. The prime table must reach the primorial
    /// number, and the table limit plus the sieve size must fit the
    /// machine word.
    pub fn init(&mut self)
        requires
            old(self).wf(),
            old(self).spec_params().primorial_number <= primes_upto(
                old(self).spec_params().prime_table_limit as int,
            ).len() + 1,
            old(self).spec_params().prime_table_limit as int + old(self).spec_params().sieve_size as int <= usize::MAX as int,
            old(self).spec_params().constellation_pattern@.len() < usize::MAX,
        ensures
            final(self).wf(),
            final(self).spec_params() == old(self).spec_params(),
            final(self).spec_jobs() == old(self).spec_jobs(),
            final(self).spec_tasks() == old(self).spec_tasks(),
            final(self).spec_output() == old(self).spec_output(),
            final(self).spec_primes().map_values(|x: usize| x as int) == primes_upto(
                old(self).spec_params().prime_table_limit as int,
            ),
            final(self).spec_primorial() == prod_prefix(
                final(self).spec_primes(),
                old(self).spec_params().primorial_number as int - 1,
            ),
            forall|i: int|
                0 <= i < final(self).spec_inverses().len() ==> inverse_ok(
                    final(self).spec_primorial(),
                    final(self).spec_primes()[i],
                    #[trigger] final(self).spec_inverses()[i],
                ),
            final(self).spec_stats().prime_table_size == final(self).spec_primes().len(),
            final(self).spec_stats().candidates_generated == 0,
            final(self).spec_stats().candidates_tested == 0,
            final(self).spec_stats().tuple_counts@.len() == final(self).spec_params().constellation_pattern@.len() + 1,
            forall|t: int|
                0 <= t < final(self).spec_stats().tuple_counts@.len() ==> final(self).spec_stats().tuple_counts@[t] == 0,
            forall|i: int|
                old(self).spec_params().primorial_number <= i < final(self).spec_inverses().len()
                    ==> #[trigger] final(self).spec_inverses()[i] != 0,
    {
        let limit = self.params.prime_table_limit;
        let table = generate_primes(limit);
        proof {
            assert(table@.map_values(|x: usize| x as int).len() == table@.len());
        }
        let p = primorial(&table, self.params.primorial_number);
        proof {
            crate::primes::lemma_prod_prefix_pos(table@, self.params.primorial_number as int - 1);
        }
        let inverses = compute_modular_inverses(&p, &table);
        self.primes = table;
        self.primorial = p;
        self.modular_inverses = inverses;
        self.stats.prime_table_size = self.primes.len();
        self.stats.candidates_generated = 0;
        self.stats.candidates_tested = 0;
        let mut counts: Vec<usize> = Vec::new();
        let mut i: usize = 0;
        let want = self.params.constellation_pattern.len() + 1;
        while i < want
            invariant
                i <= want,
                counts@.len() == i,
                forall|t: int| 0 <= t < i ==> counts@[t] == 0,
            decreases want - i,
        {
            counts.push(0);
            i = i + 1;
        }
        self.stats.tuple_counts = counts;
        proof {
            assert forall|i2: int|
                0 <= i2 < self.modular_inverses@.len() implies #[trigger] self.modular_inverses@[i2]
                == 0 || (self.modular_inverses@[i2] < self.primes@[i2] && ((self.primorial@
                * self.modular_inverses@[i2]) as int) % (self.primes@[i2] as int) == 1) by {
                assert(inverse_ok(
                    self.primorial@,
                    self.primes@[i2],
                    self.modular_inverses@[i2],
                ));
                if crate::primes::has_inverse(self.primorial@, self.primes@[i2] as nat) {
                    if self.modular_inverses@[i2] == 0 {
                        assert(((self.primorial@ * 0) as int) % (self.primes@[i2] as int) == 0int)
                            by {
                            vstd::arithmetic::div_mod::lemma_small_mod(
                                0,
                                self.primes@[i2] as nat,
                            );
                        }
                    }
                }
            }
            assert forall|i2: int| 0 <= i2 < self.primes@.len() implies #[trigger] self.primes@[i2]
                >= 2 by {
                assert(crate::primes::is_prime(self.primes@[i2] as int));
            }
            assert forall|i2: int|
                0 <= i2 < self.primes@.len() implies #[trigger] self.primes@[i2] as int
                + self.params.sieve_size as int <= usize::MAX as int by {
                assert(crate::primes::is_prime(self.primes@[i2] as int));
                assert(self.primes@[i2] <= self.params.prime_table_limit);
            }
            assert(table_inverses_ok(self.primes@, self.modular_inverses@, self.primorial@));
            assert(primes_fit_sieve(self.primes@, self.params.sieve_size));
            let pn = self.params.primorial_number as int;
            assert forall|i2: int|
                pn <= i2 < self.modular_inverses@.len()
                implies #[trigger] self.modular_inverses@[i2] != 0 by {
                assert(crate::primes::is_prime(self.primes@[i2] as int));
                assert forall|t: int| 0 <= t < pn - 1 && t < self.primes@.len() implies (
                #[trigger] self.primes@[t] as int) < self.primes@[i2] as int by {
                    assert(self.primes@[t] < self.primes@[i2]);
                }
                crate::primes::lemma_prime_coprime_to_product(
                    self.primes@,
                    pn - 1,
                    self.primes@[i2] as int,
                );
                crate::primes::lemma_coprime_has_inverse(
                    self.primorial@,
                    self.primes@[i2] as nat,
                );
                assert(inverse_ok(
                    self.primorial@,
                    self.primes@[i2],
                    self.modular_inverses@[i2],
                ));
                if self.modular_inverses@[i2] == 0 {
                    assert(((self.primorial@ * 0) as int) % (self.primes@[i2] as int) == 0int) by {
                        vstd::arithmetic::div_mod::lemma_small_mod(0, self.primes@[i2] as nat);
                    }
                    assert(false);
                }
            }
            assert(self.wf());
        }
    }


    /// Admits a job: checks it for a duplicate id, a pattern and mask of
    /// unequal length, an excessive minimum tuple length, an empty range
    /// and a range shorter than the primorial; on a clean job it registers
    /// it, clearing the registry first when the job asks for that, and
    /// queues the root sieve task over the whole factor range, clamped to
    /// the machine word with a warning when it does not fit.
    pub fn add_job(&mut self, job: Job) -> (r: (Vec<JobWarning>, Vec<JobError>))
        requires
            old(self).wf(),
        ensures
            final(self).wf(),
            final(self).spec_params() == old(self).spec_params(),
            final(self).spec_primes() == old(self).spec_primes(),
            final(self).spec_inverses() == old(self).spec_inverses(),
            final(self).spec_primorial() == old(self).spec_primorial(),
            final(self).spec_output() == old(self).spec_output(),
            r.1@ == admission_errors(old(self).spec_jobs(), job, old(self).spec_primorial()),
            r.0@ == admission_warnings(job, old(self).spec_primorial()),
            r.1@.len() == 0 ==> {
                &&& final(self).spec_jobs() == (if job.clear_previous_jobs {
                    Seq::<Job>::empty()
                } else {
                    old(self).spec_jobs()
                }).push(job)
                &&& final(self).spec_tasks().len() == old(self).spec_tasks().len() + 1
                &&& final(self).spec_tasks().drop_last() == old(self).spec_tasks()
                &&& final(self).spec_tasks().last().t == TaskType::Sieve
                &&& final(self).spec_tasks().last().job_id == job.id
                &&& final(self).spec_tasks().last().primorial_factor_start == 0
                &&& final(self).spec_tasks().last().primorial_factor_max as int == (
                if spec_factor_limit(job, old(self).spec_primorial()) > usize::MAX {
                    usize::MAX as int
                } else {
                    spec_factor_limit(job, old(self).spec_primorial()) as int
                })
            },
            r.1@.len() > 0 ==> {
                &&& final(self).spec_jobs() == old(self).spec_jobs()
                &&& final(self).spec_tasks() == old(self).spec_tasks()
            },
    {
        let mut warnings: Vec<JobWarning> = Vec::new();
        let mut errors: Vec<JobError> = Vec::new();
        let mut dup = false;
        let mut t: usize = 0;
        while t < self.jobs.len()
            invariant
                t <= self.jobs@.len(),
                dup == exists|u: int| 0 <= u < t && (#[trigger] self.jobs@[u]).id == job.id,
            decreases self.jobs@.len() - t,
        {
            if self.jobs[t].id == job.id {
                dup = true;
            }
            t = t + 1;
        }
        proof {
            assert(dup == has_job_id(self.jobs@, job.id));
        }
        if dup {
            errors.push(JobError::DuplicateId);
        }
        let ghost e0 = if has_job_id(self.jobs@, job.id) {
            seq![JobError::DuplicateId]
        } else {
            Seq::<JobError>::empty()
        };
        proof {
            assert(errors@ =~= e0);
        }
        if job.pattern.len() != job.pattern_min.len() {
            errors.push(JobError::PatternLengthMismatch);
        }
        let ghost e1 = e0 + (if job.pattern@.len() != job.pattern_min@.len() {
            seq![JobError::PatternLengthMismatch]
        } else {
            Seq::<JobError>::empty()
        });
        proof {
            assert(errors@ =~= e1);
        }
        if job.k_min > job.pattern.len() {
            errors.push(JobError::KMinExceedsPattern);
        }
        let ghost e2 = e1 + (if job.k_min > job.pattern@.len() {
            seq![JobError::KMinExceedsPattern]
        } else {
            Seq::<JobError>::empty()
        });
        proof {
            assert(errors@ =~= e2);
        }
        if uint_lt(&job.target_max, &job.target_min) {
            errors.push(JobError::EmptyRange);
            proof {
                assert(errors@ =~= e2 + seq![JobError::EmptyRange]);
                assert(errors@ == admission_errors(
                    old(self).spec_jobs(),
                    job,
                    old(self).spec_primorial(),
                ));
                assert(warnings@ =~= admission_warnings(job, old(self).spec_primorial()));
                assert(errors@.len() > 0);
                lemma_wf_unchanged(old(self), self);
            }
            return (warnings, errors);
        }
        let span = uint_sub(&job.target_max, &job.target_min);
        let factor_limit_big = uint_div(&span, &self.primorial);
        let factor_limit: usize = match factor_limit_big.to_usize() {
            Some(f) => f,
            None => {
                warnings.push(JobWarning::FactorLimitClamped);
                usize::MAX
            },
        };
        proof {
            assert(factor_limit_big@ == spec_factor_limit(job, old(self).spec_primorial()));
            assert(warnings@ =~= admission_warnings(job, old(self).spec_primorial()));
        }
        if factor_limit == 0 {
            errors.push(JobError::PrimorialTooLarge);
            proof {
                assert(errors@ =~= e2 + seq![JobError::PrimorialTooLarge]);
            }
        } else {
            proof {
                assert(errors@ =~= e2);
            }
        }
        proof {
            assert(errors@ == admission_errors(
                old(self).spec_jobs(),
                job,
                old(self).spec_primorial(),
            ));
        }
        if errors.len() == 0 {
            let job_id = job.id;
            let ghost admitted = job;
            if job.clear_previous_jobs {
                self.jobs = Vec::new();
            }
            let ghost base_jobs = self.jobs@;
            self.jobs.push(job);
            self.tasks.push_back(Task::new_sieve(job_id, 0, factor_limit));
            proof {
                assert(self.tasks@.drop_last() =~= old(self).spec_tasks());
                lemma_tasks_wf_push_back(
                    old(self).spec_tasks(),
                    self.tasks@.last(),
                );
                assert(self.tasks@ =~= old(self).spec_tasks().push(self.tasks@.last()));
                assert forall|u: int|
                    0 <= u < self.jobs@.len() implies (#[trigger] self.jobs@[u]).pattern@.len()
                    == self.jobs@[u].pattern_min@.len() by {
                    if u < self.jobs@.len() - 1 {
                        assert(self.jobs@[u] == base_jobs[u]);
                        if !admitted.clear_previous_jobs {
                            assert(base_jobs[u] == old(self).spec_jobs()[u]);
                        }
                    } else {
                        assert(self.jobs@[u] == admitted);
                    }
                }
                assert(self.wf());
            }
        } else {
            proof {
                lemma_wf_unchanged(old(self), self);
            }
        }
        (warnings, errors)
    }

    /// The first candidate of the segment of the registered job at
    /// `job_idx` that starts at factor `start`.
    fn first_candidate(&self, job_idx: usize, start: usize) -> (b: Uint)
        requires
            self.wf(),
            job_idx < self.spec_jobs().len(),
        ensures
            b@ == first_candidate_val(
                self.spec_jobs()[job_idx as int].target_min@,
                self.spec_primorial(),
                self.spec_params().primorial_offset,
                start as nat,
            ),
            b@ >= 1,
    {
        let job = &self.jobs[job_idx];
        let rem = uint_rem(&job.target_min, &self.primorial);
        proof {
            vstd::arithmetic::div_mod::lemma_mod_bound(
                job.target_min@ as int,
                self.primorial@ as int,
            );
        }
        let diff = uint_sub(&self.primorial, &rem);
        let b0 = uint_add(&job.target_min, &diff);
        let b1 = uint_add(&b0, &Uint::from_u128(self.params.primorial_offset));
        let sp = uint_mul(&Uint::from_usize(start), &self.primorial);
        uint_add(&b1, &sp)
    }

    /// Sieves one segment for the job at `job_idx`: queues the follow-up
    /// segment at the back where one remains, and pushes the surviving
    /// factors to the front in check tasks of at most 64 candidates each.
    fn run_sieve_task(&mut self, job_idx: usize, job_id: usize, start: usize, maxf: usize)
        requires
            old(self).wf(),
            job_idx < old(self).spec_jobs().len(),
            start < maxf,
        ensures
            final(self).wf(),
            final(self).spec_params() == old(self).spec_params(),
            final(self).spec_primes() == old(self).spec_primes(),
            final(self).spec_inverses() == old(self).spec_inverses(),
            final(self).spec_primorial() == old(self).spec_primorial(),
            final(self).spec_jobs() == old(self).spec_jobs(),
            final(self).spec_output() == old(self).spec_output(),
            final(self).spec_stats().tuple_counts@ == old(self).spec_stats().tuple_counts@,
            final(self).spec_stats().candidates_tested == old(self).spec_stats().candidates_tested,
            ({
                let width = if old(self).spec_params().sieve_size < maxf - start {
                    old(self).spec_params().sieve_size as int
                } else {
                    maxf - start
                };
                &&& forall|t: int|
                    0 <= t < final(self).spec_tasks().len() ==> old(self).spec_tasks().contains(
                        #[trigger] final(self).spec_tasks()[t],
                    ) || sieve_child(
                        final(self).spec_tasks()[t],
                        old(self).spec_jobs()[job_idx as int],
                        job_id,
                        start,
                        maxf,
                        width,
                        old(self).spec_primes(),
                        old(self).spec_inverses(),
                        old(self).spec_params().primorial_number as int,
                        old(self).spec_params().constellation_pattern@,
                        old(self).spec_primorial(),
                        old(self).spec_params().primorial_offset,
                    )
                &&& width >= 1 ==> segment_fully_forwarded(
                    final(self).spec_tasks(),
                    old(self).spec_jobs()[job_idx as int],
                    job_id,
                    start,
                    maxf,
                    width,
                    old(self).spec_primes(),
                    old(self).spec_inverses(),
                    old(self).spec_params().primorial_number as int,
                    old(self).spec_params().constellation_pattern@,
                    old(self).spec_primorial(),
                    old(self).spec_params().primorial_offset,
                )
            }),
    {
        let avail = maxf - start;
        let width = if self.params.sieve_size < avail {
            self.params.sieve_size
        } else {
            avail
        };
        if width == 0 {
            proof {
                assert forall|t: int| 0 <= t < self.spec_tasks().len() implies old(self).spec_tasks().contains(#[trigger] self.spec_tasks()[t]) by {
                    assert(self.spec_tasks()[t] == old(self).spec_tasks()[t]);
                }
            }
            return ;
        }
        let b = self.first_candidate(job_idx, start);
        let ghost jb = self.jobs@[job_idx as int];
        let survivors = sieve_segment(
            &self.primes,
            &self.modular_inverses,
            self.params.primorial_number,
            &self.params.constellation_pattern,
            &b,
            &self.primorial,
            width,
            &mut self.sieve,
        );
        if maxf - start > width {
            let follow_up = Task::new_sieve(job_id, start + width, maxf);
            proof {
                lemma_tasks_wf_push_back(self.tasks@, follow_up);
            }
            self.tasks.push_back(follow_up);
            proof {
                assert(self.tasks@[self.tasks@.len() - 1] == follow_up);
                assert(some_followup(self.tasks@, job_id, start as int + width, maxf));
            }
        }
        proof {
            assert forall|t: int| 0 <= t < self.spec_tasks().len() implies old(self).spec_tasks().contains(#[trigger] self.spec_tasks()[t]) || sieve_child(
                self.spec_tasks()[t],
                jb,
                job_id,
                start,
                maxf,
                width as int,
                old(self).spec_primes(),
                old(self).spec_inverses(),
                old(self).spec_params().primorial_number as int,
                old(self).spec_params().constellation_pattern@,
                old(self).spec_primorial(),
                old(self).spec_params().primorial_offset,
            ) by {
                if t < old(self).spec_tasks().len() {
                    assert(self.spec_tasks()[t] == old(self).spec_tasks()[t]);
                }
            }
        }
        let mut batch: Vec<usize> = Vec::new();
        let mut t: usize = 0;
        while t < survivors.len()
            invariant
                self.wf(),
                t <= survivors@.len(),
                self.params == old(self).spec_params(),
                self.primes@ == old(self).spec_primes(),
                self.modular_inverses@ == old(self).spec_inverses(),
                self.primorial@ == old(self).spec_primorial(),
                self.jobs@ == old(self).spec_jobs(),
                self.output@ == old(self).spec_output(),
                self.stats.tuple_counts@ == old(self).spec_stats().tuple_counts@,
                self.stats.candidates_tested == old(self).spec_stats().candidates_tested,
                job_idx < self.jobs@.len(),
                jb == self.jobs@[job_idx as int],
                b@ == first_candidate_val(
                    jb.target_min@,
                    self.primorial@,
                    self.params.primorial_offset,
                    start as nat,
                ),
                forall|v: int, w: int|
                    0 <= v < w < survivors@.len() ==> survivors@[v] < survivors@[w],
                forall|v: int| 0 <= v < survivors@.len() ==> #[trigger] survivors@[v] < width,
                forall|x: usize|
                    x < width ==> (survivors@.contains(x) <==> !eliminated(
                        self.primes@,
                        self.modular_inverses@,
                        self.params.primorial_number as int,
                        self.params.constellation_pattern@,
                        b@,
                        self.primorial@,
                        x as nat,
                    )),
                forall|v: int|
                    0 <= v < batch@.len() ==> (#[trigger] batch@[v]) < width && !eliminated(
                        self.primes@,
                        self.modular_inverses@,
                        self.params.primorial_number as int,
                        self.params.constellation_pattern@,
                        b@,
                        self.primorial@,
                        batch@[v] as nat,
                    ),
                forall|v: int|
                    0 <= v < self.tasks@.len() ==> old(self).spec_tasks().contains(
                        #[trigger] self.tasks@[v],
                    ) || sieve_child(
                        self.tasks@[v],
                        jb,
                        job_id,
                        start,
                        maxf,
                        width as int,
                        old(self).spec_primes(),
                        old(self).spec_inverses(),
                        old(self).spec_params().primorial_number as int,
                        old(self).spec_params().constellation_pattern@,
                        old(self).spec_primorial(),
                        old(self).spec_params().primorial_offset,
                    ),
                start + width < maxf ==> some_followup(self.tasks@, job_id, start + width, maxf),
                batch@.len() <= t,
                batch@ == survivors@.subrange(t - batch@.len(), t as int),
                forall|v: int|
                    0 <= v < t - batch@.len() ==> #[trigger] some_task_carries(
                        self.tasks@,
                        job_id,
                        start,
                        survivors@[v],
                    ),
            decreases survivors@.len() - t,
        {
            let ghost pre_batch = batch@;
            let f = survivors[t];
            proof {
                assert(survivors@.contains(survivors@[t as int]));
            }
            batch.push(f);
            proof {
                assert(batch@ =~= survivors@.subrange(t + 1 - batch@.len(), t + 1));
            }
            if batch.len() == 64 {
                let full = batch;
                batch = Vec::new();
                proof {
                    assert(batch@ =~= survivors@.subrange(t + 1, t + 1));
                }
                let check_task = Task::new_check(job_id, start, full);
                proof {
                    lemma_tasks_wf_push_front(self.tasks@, check_task);
                    let post = seq![check_task] + self.tasks@;
                    assert forall|v: int| 0 <= v < post.len() implies old(self).spec_tasks().contains(#[trigger] post[v]) || sieve_child(
                        post[v],
                        jb,
                        job_id,
                        start,
                        maxf,
                        width as int,
                        old(self).spec_primes(),
                        old(self).spec_inverses(),
                        old(self).spec_params().primorial_number as int,
                        old(self).spec_params().constellation_pattern@,
                        old(self).spec_primorial(),
                        old(self).spec_params().primorial_offset,
                    ) by {
                        if v > 0 {
                            assert(post[v] == self.tasks@[v - 1]);
                        }
                    }
                }
                let ghost pre_tasks = self.tasks@;
                self.tasks.push_front(check_task);
                proof {
                    assert(self.tasks@ == seq![check_task] + pre_tasks);
                    assert forall|v: int| 0 <= v < t + 1 implies #[trigger] some_task_carries(
                        self.tasks@,
                        job_id,
                        start,
                        survivors@[v],
                    ) by {
                        if v < t + 1 - 64 {
                            lemma_carries_push_front(
                                pre_tasks,
                                check_task,
                                job_id,
                                start,
                                survivors@[v],
                            );
                        } else {
                            assert(full@[v - (t + 1 - 64)] == survivors@[v]);
                            assert(full@.contains(survivors@[v]));
                            assert(check_task_carries(self.tasks@[0], job_id, start, survivors@[v]));
                        }
                    }
                    if start + width < maxf {
                        lemma_followup_push_front(
                            pre_tasks,
                            check_task,
                            job_id,
                            start as int + width,
                            maxf,
                        );
                    }
                }
                self.stats.candidates_generated = bump(self.stats.candidates_generated, 64);
            }
            t = t + 1;
        }
        if batch.len() > 0 {
            self.stats.candidates_generated = bump(
                self.stats.candidates_generated,
                batch.len(),
            );
            let check_task = Task::new_check(job_id, start, batch);
            proof {
                lemma_tasks_wf_push_front(self.tasks@, check_task);
                let post = seq![check_task] + self.tasks@;
                assert forall|v: int| 0 <= v < post.len() implies old(self).spec_tasks().contains(
                    #[trigger] post[v],
                ) || sieve_child(
                    post[v],
                    jb,
                    job_id,
                    start,
                    maxf,
                    width as int,
                    old(self).spec_primes(),
                    old(self).spec_inverses(),
                    old(self).spec_params().primorial_number as int,
                    old(self).spec_params().constellation_pattern@,
                    old(self).spec_primorial(),
                    old(self).spec_params().primorial_offset,
                ) by {
                    if v > 0 {
                        assert(post[v] == self.tasks@[v - 1]);
                    }
                }
            }
            let ghost pre_tasks = self.tasks@;
            let ghost blen = check_task.factors_candidates@.len() as int;
            self.tasks.push_front(check_task);
            proof {
                assert(self.tasks@ == seq![check_task] + pre_tasks);
                assert forall|v: int| 0 <= v < survivors@.len() implies #[trigger] some_task_carries(
                    self.tasks@,
                    job_id,
                    start,
                    survivors@[v],
                ) by {
                    if v < survivors@.len() - blen {
                        lemma_carries_push_front(
                            pre_tasks,
                            check_task,
                            job_id,
                            start,
                            survivors@[v],
                        );
                    } else {
                        assert(check_task.factors_candidates@[v - (survivors@.len() - blen)]
                            == survivors@[v]);
                        assert(check_task.factors_candidates@.contains(survivors@[v]));
                        assert(check_task_carries(self.tasks@[0], job_id, start, survivors@[v]));
                    }
                }
                if start + width < maxf {
                    lemma_followup_push_front(
                        pre_tasks,
                        check_task,
                        job_id,
                        start as int + width,
                        maxf,
                    );
                }
            }
        }
        proof {
            assert forall|j: usize|
                j < width && !eliminated(
                    old(self).spec_primes(),
                    old(self).spec_inverses(),
                    old(self).spec_params().primorial_number as int,
                    old(self).spec_params().constellation_pattern@,
                    first_candidate_val(
                        jb.target_min@,
                        old(self).spec_primorial(),
                        old(self).spec_params().primorial_offset,
                        start as nat,
                    ),
                    old(self).spec_primorial(),
                    j as nat,
                ) implies #[trigger] some_task_carries(self.tasks@, job_id, start, j) by {
                assert(survivors@.contains(j));
                let v = choose|v: int| 0 <= v < survivors@.len() && survivors@[v] == j;
                assert(some_task_carries(self.tasks@, job_id, start, survivors@[v]));
            }
        }
    }

    /// Fermat-tests the candidates of one check task for the job at
    /// `job_idx` and stores an output for every chain that reaches the
    /// job's minimum tuple length.
    fn run_check_task(
        &mut self,
        job_idx: usize,
        start: usize,
        factors: Vec<usize>,
        worker_id: usize,
    )
        requires
            old(self).wf(),
            job_idx < old(self).spec_jobs().len(),
        ensures
            final(self).wf(),
            final(self).spec_params() == old(self).spec_params(),
            final(self).spec_primes() == old(self).spec_primes(),
            final(self).spec_inverses() == old(self).spec_inverses(),
            final(self).spec_primorial() == old(self).spec_primorial(),
            final(self).spec_jobs() == old(self).spec_jobs(),
            final(self).spec_tasks() == old(self).spec_tasks(),
            final(self).spec_stats().candidates_generated == old(self).spec_stats().candidates_generated,
            final(self).spec_output().len() >= old(self).spec_output().len(),
            forall|t: int|
                0 <= t < old(self).spec_output().len() ==> #[trigger] final(self).spec_output()[t]
                    == old(self).spec_output()[t],
            forall|t: int|
                old(self).spec_output().len() <= t < final(self).spec_output().len()
                    ==> check_output_of(
                    #[trigger] final(self).spec_output()[t],
                    old(self).spec_jobs()[job_idx as int],
                    old(self).spec_primorial(),
                    old(self).spec_params().primorial_offset,
                    start,
                    factors@,
                    worker_id,
                ),
            factors_fully_reported(
                final(self).spec_output(),
                old(self).spec_output().len() as int,
                old(self).spec_jobs()[job_idx as int],
                old(self).spec_primorial(),
                old(self).spec_params().primorial_offset,
                start,
                factors@,
            ),
    {
        let b = self.first_candidate(job_idx, start);
        let ghost jb = self.jobs@[job_idx as int];
        let mut u: usize = 0;
        while u < factors.len()
            invariant
                self.wf(),
                u <= factors@.len(),
                job_idx < self.jobs@.len(),
                self.params == old(self).spec_params(),
                self.primes@ == old(self).spec_primes(),
                self.modular_inverses@ == old(self).spec_inverses(),
                self.primorial@ == old(self).spec_primorial(),
                self.jobs@ == old(self).spec_jobs(),
                self.tasks@ == old(self).spec_tasks(),
                self.stats.candidates_generated == old(self).spec_stats().candidates_generated,
                jb == self.jobs@[job_idx as int],
                b@ == first_candidate_val(
                    jb.target_min@,
                    self.primorial@,
                    self.params.primorial_offset,
                    start as nat,
                ),
                b@ >= 1,
                self.output@.len() >= old(self).spec_output().len(),
                forall|t: int|
                    0 <= t < old(self).spec_output().len() ==> #[trigger] self.output@[t] == old(self).spec_output()[t],
                forall|t: int|
                    old(self).spec_output().len() <= t < self.output@.len() ==> check_output_of(
                        #[trigger] self.output@[t],
                        jb,
                        old(self).spec_primorial(),
                        old(self).spec_params().primorial_offset,
                        start,
                        factors@,
                        worker_id,
                    ),
                forall|v: int|
                    0 <= v < u && chain_result(
                        (b@ + (#[trigger] factors@[v]) * self.primorial@) as nat,
                        jb.pattern@,
                        jb.pattern_min@,
                        jb.k_min as int,
                    ).len() >= jb.k_min ==> some_output_reports(
                        self.output@,
                        old(self).spec_output().len() as int,
                        (b@ + factors@[v] * self.primorial@) as nat,
                    ),
            decreases factors@.len() - u,
        {
            if self.stats.tuple_counts.len() > 0 {
                let c0 = self.stats.tuple_counts[0];
                let c1 = bump(c0, 1);
                self.stats.tuple_counts.set(0, c1);
            }
            let f = factors[u];
            let fp = uint_mul(&Uint::from_usize(f), &self.primorial);
            let n = uint_add(&b, &fp);
            let k_min = self.jobs[job_idx].k_min;
            let jid = self.jobs[job_idx].id;
            let found = check_candidate(
                &n,
                &self.jobs[job_idx].pattern,
                &self.jobs[job_idx].pattern_min,
                k_min,
            );
            let klen = found.len();
            let ghost snap_output = self.output@;
            let mut j: usize = 0;
            while j < klen
                invariant
                    j <= klen,
                    self.wf(),
                    self.params == old(self).spec_params(),
                    self.primes@ == old(self).spec_primes(),
                    self.modular_inverses@ == old(self).spec_inverses(),
                    self.primorial@ == old(self).spec_primorial(),
                    self.jobs@ == old(self).spec_jobs(),
                    self.tasks@ == old(self).spec_tasks(),
                    self.stats.candidates_generated == old(self).spec_stats().candidates_generated,
                    self.output@ == snap_output,
                decreases klen - j,
            {
                if j + 1 < self.stats.tuple_counts.len() {
                    let cj = self.stats.tuple_counts[j + 1];
                    let cj1 = bump(cj, 1);
                    self.stats.tuple_counts.set(j + 1, cj1);
                }
                j = j + 1;
            }
            let ghost pre_output = self.output@;
            if klen >= k_min {
                let out = Output { n, pattern: found, job_id: jid, worker_id };
                proof {
                    assert forall|w: int| 0 <= w < out.pattern@.len() implies fermat_prp(
                        (out.n@ + #[trigger] out.pattern@[w]) as nat,
                    ) by {
                        lemma_chain_all_prp(
                            out.n@,
                            jb.pattern@,
                            jb.pattern_min@,
                            jb.k_min as int,
                            0,
                            0,
                            w,
                        );
                    }
                    assert(output_sound(out));
                    lemma_outputs_sound_push(self.output@, out);
                    assert(out.n@ == first_candidate_val(
                        jb.target_min@,
                        old(self).spec_primorial(),
                        old(self).spec_params().primorial_offset,
                        start as nat,
                    ) + factors@[u as int] * old(self).spec_primorial());
                    assert(check_output_of(
                        out,
                        jb,
                        old(self).spec_primorial(),
                        old(self).spec_params().primorial_offset,
                        start,
                        factors@,
                        worker_id,
                    ));
                }
                self.output.push(out);
                proof {
                    assert forall|v: int|
                        0 <= v < u + 1 && chain_result(
                            (b@ + (#[trigger] factors@[v]) * self.primorial@) as nat,
                            jb.pattern@,
                            jb.pattern_min@,
                            jb.k_min as int,
                        ).len() >= jb.k_min implies some_output_reports(
                        self.output@,
                        old(self).spec_output().len() as int,
                        (b@ + factors@[v] * self.primorial@) as nat,
                    ) by {
                        if v == u as int {
                            assert(self.output@[self.output@.len() - 1].n@ == b@ + factors@[v]
                                * self.primorial@);
                            assert(some_output_reports(
                                self.output@,
                                old(self).spec_output().len() as int,
                                (b@ + factors@[v] * self.primorial@) as nat,
                            ));
                        } else {
                            lemma_reports_push(
                                pre_output,
                                out,
                                old(self).spec_output().len() as int,
                                (b@ + factors@[v] * self.primorial@) as nat,
                            );
                        }
                    }
                }
            } else {
                proof {
                    assert forall|v: int|
                        0 <= v < u + 1 && chain_result(
                            (b@ + (#[trigger] factors@[v]) * self.primorial@) as nat,
                            jb.pattern@,
                            jb.pattern_min@,
                            jb.k_min as int,
                        ).len() >= jb.k_min implies some_output_reports(
                        self.output@,
                        old(self).spec_output().len() as int,
                        (b@ + factors@[v] * self.primorial@) as nat,
                    ) by {
                        if v == u as int {
                            assert(n@ == b@ + factors@[v] * self.primorial@);
                            assert(found@ == chain_result(
                                (b@ + factors@[v] * self.primorial@) as nat,
                                jb.pattern@,
                                jb.pattern_min@,
                                jb.k_min as int,
                            ));
                            assert(false);
                        }
                    }
                }
            }
            u = u + 1;
        }
        self.stats.candidates_tested = bump(self.stats.candidates_tested, factors.len());
    }

    /// Takes the task at the queue's front and runs it; a task whose job
    /// is no longer registered is dropped. Returns whether a task was
    /// taken. Every output this call adds reports a chain of the task's
    /// job that reached the job's minimum tuple length.
    pub fn step(&mut self, worker_id: usize) -> (did: bool)
        requires
            old(self).wf(),
        ensures
            final(self).wf(),
            final(self).spec_params() == old(self).spec_params(),
            final(self).spec_primes() == old(self).spec_primes(),
            final(self).spec_inverses() == old(self).spec_inverses(),
            final(self).spec_primorial() == old(self).spec_primorial(),
            final(self).spec_jobs() == old(self).spec_jobs(),
            did == (old(self).spec_tasks().len() > 0),
            !did ==> final(self).spec_tasks() == old(self).spec_tasks() && final(self).spec_output() == old(self).spec_output(),
            final(self).spec_output().len() >= old(self).spec_output().len(),
            forall|t: int|
                0 <= t < old(self).spec_output().len() ==> #[trigger] final(self).spec_output()[t]
                    == old(self).spec_output()[t],
            forall|t: int|
                old(self).spec_output().len() <= t < final(self).spec_output().len()
                    ==> step_output_of(
                    #[trigger] final(self).spec_output()[t],
                    old(self).spec_jobs(),
                    old(self).spec_primorial(),
                    old(self).spec_params().primorial_offset,
                    worker_id,
                ),
            old(self).spec_tasks().len() > 0 && old(self).spec_tasks()[0].t == TaskType::Check
                && has_job_id(old(self).spec_jobs(), old(self).spec_tasks()[0].job_id)
                ==> exists|jx: int|
                0 <= jx < old(self).spec_jobs().len() && (#[trigger] old(self).spec_jobs()[jx]).id
                    == old(self).spec_tasks()[0].job_id && factors_fully_reported(
                    final(self).spec_output(),
                    old(self).spec_output().len() as int,
                    old(self).spec_jobs()[jx],
                    old(self).spec_primorial(),
                    old(self).spec_params().primorial_offset,
                    old(self).spec_tasks()[0].primorial_factor_start,
                    old(self).spec_tasks()[0].factors_candidates@,
                ),
            old(self).spec_tasks().len() > 0 && old(self).spec_tasks()[0].t == TaskType::Sieve
                && has_job_id(old(self).spec_jobs(), old(self).spec_tasks()[0].job_id)
                ==> exists|jx: int|
                0 <= jx < old(self).spec_jobs().len() && (#[trigger] old(self).spec_jobs()[jx]).id
                    == old(self).spec_tasks()[0].job_id && ({
                    let seg_start = old(self).spec_tasks()[0].primorial_factor_start;
                    let seg_max = old(self).spec_tasks()[0].primorial_factor_max;
                    let width = if old(self).spec_params().sieve_size < seg_max - seg_start {
                        old(self).spec_params().sieve_size as int
                    } else {
                        seg_max - seg_start
                    };
                    width >= 1 ==> segment_fully_forwarded(
                        final(self).spec_tasks(),
                        old(self).spec_jobs()[jx],
                        old(self).spec_tasks()[0].job_id,
                        seg_start,
                        seg_max,
                        width,
                        old(self).spec_primes(),
                        old(self).spec_inverses(),
                        old(self).spec_params().primorial_number as int,
                        old(self).spec_params().constellation_pattern@,
                        old(self).spec_primorial(),
                        old(self).spec_params().primorial_offset,
                    )
                }),
    {
        let task = match self.tasks.pop_front() {
            None => {
                return false;
            },
            Some(task) => task,
        };
        proof {
            lemma_tasks_wf_pop_front(old(self).spec_tasks());
            assert(self.wf());
        }
        let mut idx: usize = 0;
        while idx < self.jobs.len() && self.jobs[idx].id != task.job_id
            invariant
                idx <= self.jobs@.len(),
                forall|v: int| 0 <= v < idx ==> (#[trigger] self.jobs@[v]).id != task.job_id,
            decreases self.jobs@.len() - idx,
        {
            idx = idx + 1;
        }
        if idx == self.jobs.len() {
            proof {
                assert(!has_job_id(old(self).spec_jobs(), task.job_id));
            }
            return true;
        }
        let ghost pre = *self;
        match task.t {
            TaskType::Sieve => {
                proof {
                    assert(old(self).spec_tasks()[0] == task);
                }
                self.run_sieve_task(
                    idx,
                    task.job_id,
                    task.primorial_factor_start,
                    task.primorial_factor_max,
                );
                proof {
                    assert(old(self).spec_jobs()[idx as int].id == task.job_id);
                }
            },
            TaskType::Check => {
                let start = task.primorial_factor_start;
                self.run_check_task(idx, start, task.factors_candidates, worker_id);
                proof {
                    assert(old(self).spec_jobs()[idx as int].id == task.job_id);
                    assert(old(self).spec_tasks()[0] == task);
                    assert forall|t: int|
                        old(self).spec_output().len() <= t < self.spec_output().len()
                        implies step_output_of(
                        #[trigger] self.spec_output()[t],
                        old(self).spec_jobs(),
                        old(self).spec_primorial(),
                        old(self).spec_params().primorial_offset,
                        worker_id,
                    ) by {
                        assert(check_output_of(
                            self.spec_output()[t],
                            pre.spec_jobs()[idx as int],
                            pre.spec_primorial(),
                            pre.spec_params().primorial_offset,
                            start,
                            task.factors_candidates@,
                            worker_id,
                        ));
                    }
                }
            },
        }
        true
    }

    /// Whether every table prime at or past the primorial number has a
    /// recorded modular inverse. This holds of any genuine prime table,
    /// since no such prime divides the primorial. The sieve skips an entry
    /// without an inverse, so this check is the hypothesis under which a
    /// surviving factor is known to be free of small factors.
    pub fn inverses_complete(&self) -> (r: bool)
        ensures
            r == forall|i: int|
                self.spec_params().primorial_number <= i < self.spec_inverses().len()
                    ==> #[trigger] self.spec_inverses()[i] != 0,
    {
        let mut i: usize = self.params.primorial_number;
        while i < self.modular_inverses.len()
            invariant
                self.params.primorial_number <= i,
                forall|t: int|
                    self.params.primorial_number <= t < i ==> #[trigger] self.modular_inverses@[t]
                        != 0,
            decreases self.modular_inverses@.len() - i,
        {
            if self.modular_inverses[i] == 0 {
                proof {
                    assert(self.spec_inverses()[i as int] == 0);
                }
                return false;
            }
            i = i + 1;
        }
        proof {
            assert forall|t: int|
                self.params.primorial_number <= t < self.spec_inverses().len()
                implies #[trigger] self.spec_inverses()[t] != 0 by {
                assert(self.modular_inverses@[t] != 0);
            }
        }
        true
    }

    /// Takes the most recently produced output, if any is waiting.
    pub fn pop_output(&mut self) -> (r: Option<Output>)
        requires
            old(self).wf(),
        ensures
            final(self).wf(),
            match r {
                Some(out) => {
                    &&& old(self).spec_output().len() > 0
                    &&& out == old(self).spec_output().last()
                    &&& final(self).spec_output() == old(self).spec_output().drop_last()
                    &&& output_sound(out)
                },
                None => {
                    &&& old(self).spec_output().len() == 0
                    &&& final(self).spec_output() == old(self).spec_output()
                },
            },
            final(self).spec_params() == old(self).spec_params(),
            final(self).spec_primes() == old(self).spec_primes(),
            final(self).spec_inverses() == old(self).spec_inverses(),
            final(self).spec_primorial() == old(self).spec_primorial(),
            final(self).spec_jobs() == old(self).spec_jobs(),
            final(self).spec_tasks() == old(self).spec_tasks(),
    {
        let r = self.output.pop();
        proof {
            if old(self).spec_output().len() > 0 {
                assert(self.output@ =~= old(self).spec_output().drop_last());
                assert(output_sound(old(self).spec_output().last()));
            }
            lemma_wf_unchanged_outputs(old(self), self);
        }
        r
    }
}

/// The invariant carries over between two engine states that share the
/// tables, the queue, the registry and the outputs, as long as the sieve
/// size still clears every prime of overflow.
proof fn lemma_wf_unchanged(pre: &Stella, post: &Stella)
    requires
        pre.wf(),
        post.spec_primes() == pre.spec_primes(),
        post.spec_inverses() == pre.spec_inverses(),
        post.spec_primorial() == pre.spec_primorial(),
        post.spec_tasks() == pre.spec_tasks(),
        post.spec_jobs() == pre.spec_jobs(),
        post.spec_output() == pre.spec_output(),
        forall|i: int|
            0 <= i < post.spec_primes().len() ==> #[trigger] post.spec_primes()[i] as int
                + post.spec_params().sieve_size as int <= usize::MAX as int,
    ensures
        post.wf(),
{
}

/// As `lemma_wf_unchanged`, except that the outputs may have shrunk to a
/// prefix of what they were.
proof fn lemma_wf_unchanged_outputs(pre: &Stella, post: &Stella)
    requires
        pre.wf(),
        post.spec_primes() == pre.spec_primes(),
        post.spec_inverses() == pre.spec_inverses(),
        post.spec_primorial() == pre.spec_primorial(),
        post.spec_params() == pre.spec_params(),
        post.spec_tasks() == pre.spec_tasks(),
        post.spec_jobs() == pre.spec_jobs(),
        post.spec_output().len() <= pre.spec_output().len(),
        forall|t: int|
            0 <= t < post.spec_output().len() ==> post.spec_output()[t] == pre.spec_output()[t],
    ensures
        post.wf(),
{
    assert forall|t: int| 0 <= t < post.spec_output().len() implies output_sound(
        #[trigger] post.spec_output()[t],
    ) by {
        assert(post.spec_output()[t] == pre.spec_output()[t]);
        assert(output_sound(pre.spec_output()[t]));
    }
}

/// A stored output is Fermat-sound: every offset it reports makes the
/// candidate plus the offset a base-2 probable prime.
pub open spec fn output_sound(out: Output) -> bool {
    forall|u: int|
        0 <= u < out.pattern@.len() ==> fermat_prp((out.n@ + #[trigger] out.pattern@[u]) as nat)
}

/// Adds to a counter, stopping at the machine maximum.
fn bump(x: usize, d: usize) -> (r: usize)
    ensures
        r as int == if x + d <= usize::MAX {
            x as int + d as int
        } else {
            usize::MAX as int
        },
{
    if d <= usize::MAX - x {
        x + d
    } else {
        usize::MAX
    }
}

/// Copies a vector of numbers.
fn clone_usize_vec(v: &Vec<usize>) -> (r: Vec<usize>)
    ensures
        r@ == v@,
{
    let mut r: Vec<usize> = Vec::new();
    let mut i: usize = 0;
    while i < v.len()
        invariant
            i <= v@.len(),
            r@ =~= v@.take(i as int),
        decreases v@.len() - i,
    {
        r.push(v[i]);
        i = i + 1;
    }
    proof {
        assert(r@ =~= v@);
    }
    r
}

} // verus!
