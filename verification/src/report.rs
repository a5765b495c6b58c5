//! The confidence report: the cumulative table as rows of round count,
//! trials finished and percentage, ready to be shown.
//!
//! Percentages are exact integers: hundredths of a percent, rounded to the
//! nearest, halves upwards. `10_000` stands for 100.00 %.

use crate::aggregate::{
    ascending_entries, cumulative_map, frequency_map, lemma_cumulative_counts_finished,
    lemma_cumulative_last_is_total, lemma_frequency_total, lemma_running_total_monotone,
    lemma_walk_is_ascending, running_total,
};
use std::collections::BTreeMap;
use vstd::prelude::*;

verus! {

/// One row of the report.
#[derive(Clone, Copy, Debug, PartialEq, Eq, Structural)]
pub struct ConfidenceRow {
    /// A number of sprints.
    pub rounds: u16,
    /// How many trials finished within that many sprints.
    pub finished: u32,
    /// That number as a share of all trials, in hundredths of a percent.
    pub hundredths: u64,
}

/// `finished / total` in hundredths of a percent, rounded to the nearest
/// hundredth, a half upwards.
pub open spec fn percent_hundredths(finished: int, total: int) -> int {
    (finished * 20000 + total) / (2 * total)
}

/// The share of `finished` in `total`, in hundredths of a percent.
pub fn confidence_percent(finished: u32, total: u32) -> (hundredths: u64)
    requires
        total > 0,
    ensures
        hundredths == percent_hundredths(finished as int, total as int),
{
    let scaled: u64 = finished as u64 * 20000 + total as u64;
    scaled / (2 * total as u64)
}

/// A share of a total lies between 0 % and 100 %, and the whole total is
/// exactly 100 %.
pub proof fn lemma_percent_in_range(finished: int, total: int)
    requires
        0 <= finished <= total,
        0 < total,
    ensures
        0 <= percent_hundredths(finished, total) <= 10000,
        finished == total ==> percent_hundredths(finished, total) == 10000,
{
    assert(0 <= (finished * 20000 + total) / (2 * total) <= 10000) by (nonlinear_arith)
        requires
            0 <= finished <= total,
            0 < total,
    ;
    assert((total * 20000 + total) / (2 * total) == 10000) by (nonlinear_arith)
        requires
            0 < total,
    ;
}

/// In the cumulative table of a distribution every percentage lies between
/// 0 % and 100 %, and that of the greatest round count is exactly 100 %.
pub proof fn lemma_confidence_percentages(rounds: Seq<u16>, key: u16)
    requires
        rounds.len() <= u32::MAX,
        frequency_map(rounds).contains_key(key),
    ensures
        0 <= percent_hundredths(
            cumulative_map(frequency_map(rounds))[key] as int,
            rounds.len() as int,
        ) <= 10000,
        (forall|other: u16| frequency_map(rounds).contains_key(other) ==> other <= key)
            ==> percent_hundredths(
            cumulative_map(frequency_map(rounds))[key] as int,
            rounds.len() as int,
        ) == 10000,
{
    let table = frequency_map(rounds);
    lemma_frequency_total(rounds);
    lemma_running_total_monotone(table, key as int, u16::MAX as int);
    lemma_cumulative_counts_finished(rounds, key);
    assert(rounds.len() > 0) by {
        if rounds.len() == 0 {
            assert(crate::aggregate::occurrences(rounds, key) == 0);
        }
    }
    lemma_percent_in_range(cumulative_map(table)[key] as int, rounds.len() as int);
    if forall|other: u16| table.contains_key(other) ==> other <= key {
        lemma_cumulative_last_is_total(rounds, key);
    }
}

/// The rows list the table: each row is an entry of the table with its
/// percentage of `total`, every key of the table has its row, and the round
/// counts ascend.
pub open spec fn rows_of(rows: Seq<ConfidenceRow>, table: Map<u16, u32>, total: int) -> bool {
    &&& forall|i: int|
        0 <= i < rows.len() ==> table.contains_key(#[trigger] rows[i].rounds) && rows[i].finished
            == table[rows[i].rounds] && rows[i].hundredths == percent_hundredths(
            rows[i].finished as int,
            total,
        )
    &&& forall|key: u16| #[trigger]
        table.contains_key(key) ==> exists|i: int|
            0 <= i < rows.len() && #[trigger] rows[i].rounds == key
    &&& forall|i: int, j: int|
        0 <= i < j < rows.len() ==> #[trigger] rows[i].rounds < #[trigger] rows[j].rounds
}

/// Lays the cumulative table out as rows, ascending by round count, each
/// with its percentage of `total` trials.
///
/// A table without entries gives no rows, whatever the total. A table with
/// entries needs a total above zero to take percentages of.
pub fn confidence_rows(cumulative_table: &BTreeMap<u16, u32>, total: u32) -> (rows: Vec<
    ConfidenceRow,
>)
    requires
        total == 0 ==> cumulative_table@ == Map::<u16, u32>::empty(),
    ensures
        rows_of(rows@, cumulative_table@, total as int),
{
    broadcast use vstd::std_specs::btree::group_btree_axioms;
    let mut rows: Vec<ConfidenceRow> = Vec::new();
    let ghost source = cumulative_table@;
    let entries = cumulative_table.iter();
    let ghost order = vstd::std_specs::iter::IteratorSpec::remaining(&entries).unref();
    proof {
        lemma_walk_is_ascending(vstd::std_specs::iter::IteratorSpec::remaining(&entries), source);
    }
    for entry in walk: entries
        invariant
            source == cumulative_table@,
            total == 0 ==> source == Map::<u16, u32>::empty(),
            walk.seq().unref() == order,
            ascending_entries(order, source),
            rows@.len() == walk.index(),
            forall|i: int|
                0 <= i < rows@.len() ==> (#[trigger] rows@[i]).rounds == order[i].0
                    && rows@[i].finished == order[i].1 && rows@[i].hundredths
                    == percent_hundredths(rows@[i].finished as int, total as int),
    {
        let (key, value) = entry;
        proof {
            assert(source.contains_key(order[walk.index()].0));
        }
        let hundredths: u64 = confidence_percent(*value, total);
        rows.push(ConfidenceRow { rounds: *key, finished: *value, hundredths });
    }
    proof {
        assert(rows@.len() == order.len());
        assert forall|key: u16| #[trigger] source.contains_key(key) implies exists|i: int|
            0 <= i < rows@.len() && #[trigger] rows@[i].rounds == key by {
            let i = choose|i: int| 0 <= i < order.len() && #[trigger] order[i].0 == key;
            assert(rows@[i].rounds == key);
        }
        assert forall|i: int, j: int| 0 <= i < j < rows@.len() implies #[trigger] rows@[i].rounds
            < #[trigger] rows@[j].rounds by {
            assert(order[i].0 < order[j].0);
        }
        assert forall|i: int| 0 <= i < rows@.len() implies source.contains_key(
            #[trigger] rows@[i].rounds,
        ) && rows@[i].finished == source[rows@[i].rounds] by {
            assert(source.contains_key(order[i].0));
        }
    }
    rows
}

} // verus!
