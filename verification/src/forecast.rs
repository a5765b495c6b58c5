//! The forecast as a whole: from a target, a velocity pool and an
//! allocation to the cumulative confidence table of many trials.

use crate::aggregate::{
    cumulative_map, frequency_map, generate_confidence_table, generate_cumulative_table,
};
use crate::allocation::Allocation;
use crate::pool::{pool_items, pool_slice, VelocityPool};
use crate::simulation::{
    can_outlast, makes_no_progress, possible_results, run_trials, trial_rng, SimulationError,
};
use std::collections::BTreeMap;
use vstd::prelude::*;

verus! {

/// The target with the work that is expected to be added on the way:
/// `new_per_ten` new tasks for every ten tasks of the target, rounded to the
/// nearest whole number, a half upwards.
pub open spec fn grown_target(target: int, new_per_ten: int) -> int {
    (target * (10 + new_per_ten) + 5) / 10
}

/// The target to simulate: the target grown by `new_per_ten` new tasks for
/// every ten, or the greatest target there is where the grown one exceeds
/// it.
pub fn effective_target(target: u16, new_per_ten: u16) -> (grown: u16)
    ensures
        grown == if grown_target(target as int, new_per_ten as int) <= u16::MAX {
            grown_target(target as int, new_per_ten as int)
        } else {
            u16::MAX as int
        },
{
    let factor: u64 = 10 + new_per_ten as u64;
    assert(target * factor <= 0xffff * 0x1_0009) by (nonlinear_arith)
        requires
            target <= 0xffff,
            factor <= 0x1_0009,
    ;
    let grown: u64 = (target as u64 * factor + 5) / 10;
    if grown > u16::MAX as u64 {
        u16::MAX
    } else {
        grown as u16
    }
}

/// Runs `trials` trials on the pool and aggregates their results: the
/// table maps each number of sprints that some trial took to the number of
/// trials that took at most that many.
///
/// The trials draw from the random number generator of the current thread.
/// The first trial that fails ends the run with its error.
pub fn run_sprints(
    target: u16,
    pool: VelocityPool,
    allocation: Allocation,
    trials: u16,
    round_limit: u16,
) -> (result: Result<BTreeMap<u16, u32>, SimulationError>)
    ensures
        match result {
            Ok(table) => exists|raw: Seq<u16>|
                raw.len() == trials && #[trigger] possible_results(
                    raw,
                    target as int,
                    pool_items(pool),
                    allocation,
                ) && table@ == cumulative_map(frequency_map(raw)),
            Err(SimulationError::EmptyPool) => trials > 0 && target > 0 && pool_items(pool).len()
                == 0,
            Err(SimulationError::RoundLimitExceeded) => trials > 0 && target > 0 && pool_items(
                pool,
            ).len() > 0 && can_outlast(
                target as int,
                pool_items(pool),
                allocation,
                round_limit as int,
            ),
        },
        trials == 0 || target == 0 ==> result is Ok,
        trials > 0 && target > 0 && pool_items(pool).len() == 0 ==> result == Err::<
            BTreeMap<u16, u32>,
            SimulationError,
        >(SimulationError::EmptyPool),
        trials > 0 && target > 0 && pool_items(pool).len() > 0 && makes_no_progress(
            pool_items(pool),
            allocation,
        ) ==> result == Err::<BTreeMap<u16, u32>, SimulationError>(
            SimulationError::RoundLimitExceeded,
        ),
{
    let mut rng = trial_rng();
    let raw = match run_trials(target, pool_slice(&pool), allocation, trials, round_limit, &mut rng) {
        Ok(raw) => raw,
        Err(error) => {
            return Err(error);
        },
    };
    let confidence_table = generate_confidence_table(raw.as_slice());
    let cumulative_table = generate_cumulative_table(&confidence_table);
    Ok(cumulative_table)
}

} // verus!
