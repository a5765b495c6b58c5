//! The simulation engine and the experiment runner.
//!
//! One trial starts with the target amount of work and, sprint after
//! sprint, draws one entry of the velocity pool at random and takes the
//! allocated share of it off the work that is left. The trial's result is
//! the number of sprints after which nothing is left for the first time.
//!
//! All amounts are exact: work is counted in units of `1 / denom` story
//! points, where `denom` is the denominator of the allocation, so that one
//! sprint of `v` points takes `v * numer` units off `target * denom`.
//!
//! A trial that is not over after `round_limit` sprints is given up: a pool
//! of zeros, or an allocation of zero, would otherwise never end.

use crate::allocation::Allocation;
use rand::rngs::ThreadRng;
use rand::seq::SliceRandom;
use vstd::prelude::*;

verus! {

/// Why a trial gave no result.
#[derive(Clone, Copy, Debug, PartialEq, Eq, Structural)]
pub enum SimulationError {
    /// There is work to do and the velocity pool holds nothing to draw.
    EmptyPool,
    /// Work was still left after the greatest number of sprints allowed.
    RoundLimitExceeded,
}

/// The story points of all the sampled sprints together.
pub open spec fn total_points(samples: Seq<u16>) -> int
    decreases samples.len(),
{
    if samples.len() == 0 {
        0
    } else {
        total_points(samples.drop_last()) + samples.last()
    }
}

/// The work that is left of `target` after the sampled sprints, in units of
/// `1 / denom` story points. Zero or less means that the work is done.
pub open spec fn work_left(target: int, samples: Seq<u16>, allocation: Allocation) -> int {
    target * allocation.denom() - total_points(samples) * allocation.numer()
}

/// Every sample is an entry of the pool.
pub open spec fn drawn_from(samples: Seq<u16>, pool: Seq<u16>) -> bool {
    forall|i: int| 0 <= i < samples.len() ==> pool.contains(#[trigger] samples[i])
}

/// Work is left at the start and after each of the sampled sprints.
pub open spec fn unfinished(target: int, samples: Seq<u16>, allocation: Allocation) -> bool {
    forall|k: int|
        0 <= k <= samples.len() ==> work_left(target, #[trigger] samples.take(k), allocation) > 0
}

/// The work is done after the last of the sampled sprints and not before.
pub open spec fn finishes(target: int, samples: Seq<u16>, allocation: Allocation) -> bool {
    &&& work_left(target, samples, allocation) <= 0
    &&& forall|k: int|
        0 <= k < samples.len() ==> work_left(target, #[trigger] samples.take(k), allocation) > 0
}

/// Some way of drawing from the pool finishes the work in exactly `rounds`
/// sprints.
pub open spec fn can_take(target: int, pool: Seq<u16>, allocation: Allocation, rounds: int) -> bool {
    exists|samples: Seq<u16>|
        samples.len() == rounds && drawn_from(samples, pool) && #[trigger] finishes(
            target,
            samples,
            allocation,
        )
}

/// Some way of drawing from the pool leaves work after `limit` sprints.
pub open spec fn can_outlast(target: int, pool: Seq<u16>, allocation: Allocation, limit: int) -> bool {
    exists|samples: Seq<u16>|
        samples.len() == limit && drawn_from(samples, pool) && #[trigger] unfinished(
            target,
            samples,
            allocation,
        )
}

/// No sprint drawn from the pool takes anything off the work: nothing is
/// allocated, or every entry of the pool is zero.
pub open spec fn makes_no_progress(pool: Seq<u16>, allocation: Allocation) -> bool {
    allocation.numer() == 0 || forall|i: int| 0 <= i < pool.len() ==> pool[i] == 0
}

/// The work that one sprint of `sample` story points leaves of `left`
/// units: the allocated share of the sprint comes off, and what is left
/// never falls below zero.
pub fn sprint_step(left: u64, sample: u16, allocation: Allocation) -> (rest: u64)
    ensures
        rest == if left > sample * allocation.numer() {
            left - sample * allocation.numer()
        } else {
            0
        },
{
    let numerator: u64 = allocation.numerator() as u64;
    assert(sample * numerator <= 0xffff * 0xffff_ffff) by (nonlinear_arith)
        requires
            sample <= 0xffff,
            numerator <= 0xffff_ffff,
    ;
    let done: u64 = sample as u64 * numerator;
    if left > done {
        left - done
    } else {
        0
    }
}

/// One more sample adds its points to the total.
proof fn lemma_total_points_push(samples: Seq<u16>, sample: u16)
    ensures
        total_points(samples.push(sample)) == total_points(samples) + sample,
{
    assert(samples.push(sample).drop_last() == samples);
}

/// The points of sprints drawn from a pool whose entries all lie between
/// `low` and `high` lie between `low` and `high` times their number.
proof fn lemma_total_points_between(samples: Seq<u16>, pool: Seq<u16>, low: int, high: int)
    requires
        drawn_from(samples, pool),
        forall|i: int| 0 <= i < pool.len() ==> low <= #[trigger] pool[i] <= high,
    ensures
        low * samples.len() <= total_points(samples) <= high * samples.len(),
    decreases samples.len(),
{
    if samples.len() > 0 {
        let rest = samples.drop_last();
        assert forall|i: int| 0 <= i < rest.len() implies pool.contains(#[trigger] rest[i]) by {
            assert(rest[i] == samples[i]);
        }
        lemma_total_points_between(rest, pool, low, high);
        let last = samples.last();
        assert(pool.contains(last));
        let at = choose|i: int| 0 <= i < pool.len() && pool[i] == last;
        assert(low <= pool[at] <= high);
        assert(low * samples.len() == low * rest.len() + low && high * samples.len() == high
            * rest.len() + high) by (nonlinear_arith)
            requires
                samples.len() == rest.len() + 1,
        ;
    }
}

/// A prefix of sprints drawn from a pool is drawn from that pool.
proof fn lemma_prefix_drawn_from(samples: Seq<u16>, pool: Seq<u16>, k: int)
    requires
        drawn_from(samples, pool),
        0 <= k <= samples.len(),
    ensures
        drawn_from(samples.take(k), pool),
{
    assert forall|i: int| 0 <= i < k implies pool.contains(#[trigger] samples.take(k)[i]) by {
        assert(samples.take(k)[i] == samples[i]);
    }
}

/// With nothing allocated, or with a pool of zeros, no trial that has work
/// to do ever finishes: however the sprints are drawn, and however many,
/// work is left.
pub proof fn lemma_idle_trial_never_finishes(
    target: int,
    pool: Seq<u16>,
    allocation: Allocation,
    samples: Seq<u16>,
)
    requires
        allocation.in_range(),
        target > 0,
        drawn_from(samples, pool),
        makes_no_progress(pool, allocation),
    ensures
        unfinished(target, samples, allocation),
{
    allocation.lemma_in_range();
    assert forall|k: int| 0 <= k <= samples.len() implies work_left(
        target,
        #[trigger] samples.take(k),
        allocation,
    ) > 0 by {
        let prefix = samples.take(k);
        lemma_prefix_drawn_from(samples, pool, k);
        if allocation.numer() != 0 {
            lemma_total_points_between(prefix, pool, 0, 0);
        }
        assert(total_points(prefix) * allocation.numer() == 0) by (nonlinear_arith)
            requires
                total_points(prefix) == 0 || allocation.numer() == 0,
        ;
        assert(target * allocation.denom() > 0) by (nonlinear_arith)
            requires
                target > 0,
                allocation.denom() > 0,
        ;
    }
}

/// Where every entry of the pool is at least `low`, and `limit` sprints of
/// `low` points each cover the target at the given allocation, no trial
/// outlasts `limit` sprints.
pub proof fn lemma_steady_pool_finishes(
    target: int,
    pool: Seq<u16>,
    allocation: Allocation,
    limit: int,
    low: int,
)
    requires
        allocation.in_range(),
        0 <= limit,
        forall|i: int| 0 <= i < pool.len() ==> low <= #[trigger] pool[i],
        target * allocation.denom() <= limit * low * allocation.numer(),
    ensures
        !can_outlast(target, pool, allocation, limit),
{
    allocation.lemma_in_range();
    assert forall|samples: Seq<u16>|
        samples.len() == limit && drawn_from(samples, pool) implies !#[trigger] unfinished(
        target,
        samples,
        allocation,
    ) by {
        lemma_total_points_between(samples, pool, low, u16::MAX as int);
        assert(samples.take(limit) == samples);
        assert(limit * low * allocation.numer() <= total_points(samples) * allocation.numer())
            by (nonlinear_arith)
            requires
                low * limit <= total_points(samples),
                0 <= allocation.numer(),
        ;
    }
}

/// The number of sprints that a trial can take is bounded by the smallest
/// and the greatest entry of the pool: `rounds` sprints of `high` points each
/// cover the target, and, where a sprint was needed, one sprint fewer of
/// `low` points each does not.
pub proof fn lemma_rounds_bounds(
    target: int,
    pool: Seq<u16>,
    allocation: Allocation,
    rounds: int,
    low: int,
    high: int,
)
    requires
        allocation.in_range(),
        can_take(target, pool, allocation, rounds),
        forall|i: int| 0 <= i < pool.len() ==> low <= #[trigger] pool[i] <= high,
    ensures
        target * allocation.denom() <= rounds * high * allocation.numer(),
        rounds > 0 ==> (rounds - 1) * low * allocation.numer() < target * allocation.denom(),
{
    allocation.lemma_in_range();
    let samples = choose|samples: Seq<u16>|
        samples.len() == rounds && drawn_from(samples, pool) && #[trigger] finishes(
            target,
            samples,
            allocation,
        );
    lemma_total_points_between(samples, pool, low, high);
    assert(total_points(samples) * allocation.numer() <= rounds * high * allocation.numer())
        by (nonlinear_arith)
        requires
            total_points(samples) <= high * rounds,
            0 <= allocation.numer(),
    ;
    if rounds > 0 {
        let prefix = samples.take(rounds - 1);
        lemma_prefix_drawn_from(samples, pool, rounds - 1);
        lemma_total_points_between(prefix, pool, low, high);
        assert((rounds - 1) * low * allocation.numer() <= total_points(prefix)
            * allocation.numer()) by (nonlinear_arith)
            requires
                low * (rounds - 1) <= total_points(prefix),
                0 <= allocation.numer(),
        ;
    }
}

/// `rand::rngs::ThreadRng`: a handle to the random number generator of the
/// current thread. Nothing is known of the numbers it will give.
#[verifier::external_type_specification]
#[verifier::external_body]
pub struct ExThreadRng(ThreadRng);

/// `rand::thread_rng`: a handle to the random number generator of the
/// current thread, which the operating system seeds. Nothing is stated of
/// it.
#[verifier::external_body]
pub(crate) fn trial_rng() -> ThreadRng {
    rand::thread_rng()
}

/// `SliceRandom::choose` on a slice: one entry of the pool, picked at
/// random, or `None` where the pool is empty. Which entry comes depends on
/// the generator alone, so only that it is one of them is stated.
#[verifier::external_body]
fn draw_velocity(pool: &[u16], rng: &mut ThreadRng) -> (sample: Option<u16>)
    ensures
        pool@.len() == 0 ==> sample is None,
        pool@.len() > 0 ==> sample is Some && pool@.contains(sample->0),
{
    pool.choose(rng).copied()
}

/// Runs one trial: draws sprints from `pool` until the allocated share of
/// them has used up `target`, and returns how many sprints that took.
///
/// A target of zero needs no sprint at all. Otherwise an empty pool is an
/// error, and so is a trial that still has work left after `round_limit`
/// sprints.
pub fn simulate_sprint(
    target: u16,
    pool: &[u16],
    allocation: Allocation,
    round_limit: u16,
    rng: &mut ThreadRng,
) -> (result: Result<u16, SimulationError>)
    ensures
        match result {
            Ok(rounds) => rounds <= round_limit && can_take(
                target as int,
                pool@,
                allocation,
                rounds as int,
            ),
            Err(SimulationError::EmptyPool) => target > 0 && pool@.len() == 0,
            Err(SimulationError::RoundLimitExceeded) => target > 0 && pool@.len() > 0
                && can_outlast(target as int, pool@, allocation, round_limit as int),
        },
        target == 0 ==> result == Ok::<u16, SimulationError>(0),
        target > 0 && pool@.len() == 0 ==> result == Err::<u16, SimulationError>(
            SimulationError::EmptyPool,
        ),
        target > 0 && pool@.len() > 0 && makes_no_progress(pool@, allocation) ==> result == Err::<u16, SimulationError>(
            SimulationError::RoundLimitExceeded,
        ),
{
    let denominator: u64 = allocation.denominator() as u64;
    assert(target * denominator <= 0xffff * 0xffff_ffff) by (nonlinear_arith)
        requires
            target <= 0xffff,
            denominator <= 0xffff_ffff,
    ;
    let mut left: u64 = target as u64 * denominator;
    let mut rounds: u16 = 0;
    let ghost mut samples: Seq<u16> = Seq::empty();
    proof {
        assert(samples.take(0) == samples);
        assert(target > 0 ==> left > 0) by (nonlinear_arith)
            requires
                left == target * denominator,
                denominator > 0,
        ;
    }
    if left > 0 && pool.len() == 0 {
        return Err(SimulationError::EmptyPool);
    }
    while left > 0
        invariant
            pool@.len() > 0 || target == 0,
            target > 0 || (left == 0 && rounds == 0),
            rounds == samples.len(),
            rounds <= round_limit,
            drawn_from(samples, pool@),
            left > 0 ==> left == work_left(target as int, samples, allocation),
            left == 0 ==> work_left(target as int, samples, allocation) <= 0,
            forall|k: int|
                0 <= k < samples.len() ==> work_left(
                    target as int,
                    #[trigger] samples.take(k),
                    allocation,
                ) > 0,
        decreases round_limit - rounds,
    {
        if rounds == round_limit {
            proof {
                assert(samples.take(samples.len() as int) == samples);
                assert(unfinished(target as int, samples, allocation));
            }
            return Err(SimulationError::RoundLimitExceeded);
        }
        let sample: u16 = match draw_velocity(pool, rng) {
            Some(sample) => sample,
            None => {
                return Err(SimulationError::EmptyPool);
            },
        };
        let ghost before = samples;
        left = sprint_step(left, sample, allocation);
        rounds += 1;
        proof {
            samples = before.push(sample);
            lemma_total_points_push(before, sample);
            assert(work_left(target as int, samples, allocation) == work_left(
                target as int,
                before,
                allocation,
            ) - sample * allocation.numer()) by (nonlinear_arith)
                requires
                    total_points(samples) == total_points(before) + sample,
                    work_left(target as int, samples, allocation) == target * allocation.denom()
                        - total_points(samples) * allocation.numer(),
                    work_left(target as int, before, allocation) == target * allocation.denom()
                        - total_points(before) * allocation.numer(),
            ;
            assert forall|k: int| 0 <= k < samples.len() implies work_left(
                target as int,
                #[trigger] samples.take(k),
                allocation,
            ) > 0 by {
                if k < before.len() {
                    assert(samples.take(k) == before.take(k));
                } else {
                    assert(samples.take(k) == before);
                }
            }
        }
    }
    proof {
        assert(finishes(target as int, samples, allocation));
        use_type_invariant(allocation);
        if target > 0 && makes_no_progress(pool@, allocation) {
            lemma_idle_trial_never_finishes(target as int, pool@, allocation, samples);
            assert(samples.take(samples.len() as int) == samples);
        }
    }
    Ok(rounds)
}

/// Every entry of `raw` is a number of sprints that a trial can take.
pub open spec fn possible_results(
    raw: Seq<u16>,
    target: int,
    pool: Seq<u16>,
    allocation: Allocation,
) -> bool {
    forall|i: int| 0 <= i < raw.len() ==> can_take(target, pool, allocation, #[trigger] raw[i] as int)
}

/// Runs `trials` trials one after the other, each with fresh draws from the
/// same pool, and returns their results in the order in which they ran.
///
/// The first trial that fails ends the run with its error; no trial is
/// tried again.
pub fn run_trials(
    target: u16,
    pool: &[u16],
    allocation: Allocation,
    trials: u16,
    round_limit: u16,
    rng: &mut ThreadRng,
) -> (result: Result<Vec<u16>, SimulationError>)
    ensures
        match result {
            Ok(raw) => raw@.len() == trials && possible_results(
                raw@,
                target as int,
                pool@,
                allocation,
            ) && forall|i: int| 0 <= i < raw@.len() ==> raw@[i] <= round_limit,
            Err(SimulationError::EmptyPool) => trials > 0 && target > 0 && pool@.len() == 0,
            Err(SimulationError::RoundLimitExceeded) => trials > 0 && target > 0 && pool@.len()
                > 0 && can_outlast(target as int, pool@, allocation, round_limit as int),
        },
        trials == 0 || target == 0 ==> result is Ok,
        trials > 0 && target > 0 && pool@.len() == 0 ==> result == Err::<
            Vec<u16>,
            SimulationError,
        >(SimulationError::EmptyPool),
        trials > 0 && target > 0 && pool@.len() > 0 && makes_no_progress(pool@, allocation)
            ==> result == Err::<Vec<u16>, SimulationError>(SimulationError::RoundLimitExceeded),
{
    let mut raw: Vec<u16> = Vec::new();
    let mut done: u16 = 0;
    while done < trials
        invariant
            done <= trials,
            raw@.len() == done,
            possible_results(raw@, target as int, pool@, allocation),
            forall|i: int| 0 <= i < raw@.len() ==> raw@[i] <= round_limit,
            done > 0 && target > 0 ==> pool@.len() > 0 && !makes_no_progress(pool@, allocation),
        decreases trials - done,
    {
        match simulate_sprint(target, pool, allocation, round_limit, rng) {
            Ok(rounds) => {
                raw.push(rounds);
            },
            Err(error) => {
                return Err(error);
            },
        }
        done += 1;
    }
    Ok(raw)
}

} // verus!
