//! Distribution aggregation: from the raw round counts of many trials to a
//! frequency table, and from a frequency table to a cumulative table.
//!
//! Both tables are `BTreeMap<u16, u32>` keyed by round count. Their meaning
//! is given by two maps defined directly over the mathematical model:
//! [`frequency_map`] counts occurrences, [`cumulative_map`] sums the counts
//! of all keys up to and including each key.

use std::collections::BTreeMap;
use vstd::prelude::*;

verus! {

/// How often `value` occurs in `rounds`.
pub open spec fn occurrences(rounds: Seq<u16>, value: u16) -> nat
    decreases rounds.len(),
{
    if rounds.len() == 0 {
        0
    } else {
        occurrences(rounds.drop_last(), value) + if rounds.last() == value {
            1nat
        } else {
            0nat
        }
    }
}

/// The frequency table of `rounds`: every value that occurs at least once is
/// a key, mapped to the number of times it occurs.
pub open spec fn frequency_map(rounds: Seq<u16>) -> Map<u16, u32> {
    Map::new(
        |value: u16| occurrences(rounds, value) > 0,
        |value: u16| occurrences(rounds, value) as u32,
    )
}

/// No value occurs more often than the sequence is long.
pub proof fn lemma_occurrences_bounded(rounds: Seq<u16>, value: u16)
    ensures
        occurrences(rounds, value) <= rounds.len(),
    decreases rounds.len(),
{
    if rounds.len() > 0 {
        lemma_occurrences_bounded(rounds.drop_last(), value);
    }
}

/// Builds the frequency table of a raw distribution of round counts.
///
/// The counts are `u32`, so the distribution may hold at most `u32::MAX`
/// results.
pub fn generate_confidence_table(sprint_iterations: &[u16]) -> (table: BTreeMap<u16, u32>)
    requires
        sprint_iterations@.len() <= u32::MAX,
    ensures
        table@ == frequency_map(sprint_iterations@),
        running_total(table@, u16::MAX as int) == sprint_iterations@.len(),
{
    broadcast use vstd::std_specs::btree::group_btree_axioms;
    let mut table: BTreeMap<u16, u32> = BTreeMap::new();
    let n: usize = sprint_iterations.len();
    let mut i: usize = 0;
    while i < n
        invariant
            n == sprint_iterations@.len(),
            n <= u32::MAX,
            i <= n,
            table@ == frequency_map(sprint_iterations@.take(i as int)),
        decreases n - i,
    {
        let value: u16 = sprint_iterations[i];
        let ghost before = sprint_iterations@.take(i as int);
        let ghost after = sprint_iterations@.take(i + 1);
        proof {
            assert(after.drop_last() == before);
            assert(after.last() == value);
            lemma_occurrences_bounded(before, value);
            lemma_occurrences_bounded(after, value);
        }
        let seen: u32 = match table.get(&value) {
            Some(count) => *count,
            None => 0,
        };
        table.insert(value, seen + 1);
        proof {
            assert forall|v: u16| #[trigger] occurrences(after, v) == occurrences(before, v) + (if v == value { 1nat } else { 0nat }) by {}
            assert(table@ =~= frequency_map(after));
        }
        i += 1;
    }
    proof {
        assert(sprint_iterations@.take(n as int) == sprint_iterations@);
        lemma_frequency_total(sprint_iterations@);
    }
    table
}

/// The sum of the counts of all keys of `table` from 0 up to and including
/// `upto`.
pub open spec fn running_total(table: Map<u16, u32>, upto: int) -> int
    decreases upto + 1,
{
    if upto < 0 {
        0
    } else {
        running_total(table, upto - 1) + if upto <= u16::MAX && table.contains_key(upto as u16) {
            table[upto as u16] as int
        } else {
            0
        }
    }
}

/// The cumulative table of a frequency table: it has the same keys, and
/// each key is mapped to the sum of the counts of all keys up to and
/// including it.
pub open spec fn cumulative_map(table: Map<u16, u32>) -> Map<u16, u32> {
    Map::new(
        |key: u16| table.contains_key(key),
        |key: u16| running_total(table, key as int) as u32,
    )
}

/// The running total never shrinks as the bound grows, and starts at zero.
pub proof fn lemma_running_total_monotone(table: Map<u16, u32>, low: int, high: int)
    requires
        low <= high,
    ensures
        0 <= running_total(table, low) <= running_total(table, high),
    decreases high + 1,
{
    if high < 0 {
    } else if low < high {
        lemma_running_total_monotone(table, low, high - 1);
    } else {
        lemma_running_total_monotone(table, low - 1, low - 1);
    }
}

/// Where no key of the table lies above `low` and at or below `high`, the
/// running total is the same at both.
proof fn lemma_running_total_gap(table: Map<u16, u32>, low: int, high: int)
    requires
        -1 <= low <= high,
        forall|key: u16| low < key <= high ==> !table.contains_key(key),
    ensures
        running_total(table, high) == running_total(table, low),
    decreases high - low,
{
    if low < high {
        lemma_running_total_gap(table, low, high - 1);
    }
}

/// The entries that an ascending walk of `table` yields: each is a pair of
/// the table, every key of the table is among them, and the keys strictly
/// ascend.
pub(crate) open spec fn ascending_entries(entries: Seq<(u16, u32)>, table: Map<u16, u32>) -> bool {
    &&& forall|i: int|
        0 <= i < entries.len() ==> table.contains_key(#[trigger] entries[i].0) && table[entries[i].0]
            == entries[i].1
    &&& forall|key: u16| #[trigger]
        table.contains_key(key) ==> exists|i: int| 0 <= i < entries.len() && #[trigger] entries[i].0 == key
    &&& forall|i: int, j: int|
        0 <= i < j < entries.len() ==> #[trigger] entries[i].0 < #[trigger] entries[j].0
}

/// After `done` entries of an ascending walk, the running total at the last
/// key walked (or below every key, before the first).
spec fn walked_upto(entries: Seq<(u16, u32)>, done: int) -> int {
    if done <= 0 {
        -1
    } else {
        entries[done - 1].0 as int
    }
}

/// The next key of an ascending walk adds its own count to the running
/// total and nothing else.
proof fn lemma_walk_step(entries: Seq<(u16, u32)>, table: Map<u16, u32>, done: int)
    requires
        ascending_entries(entries, table),
        0 <= done < entries.len(),
    ensures
        running_total(table, entries[done].0 as int) == running_total(
            table,
            walked_upto(entries, done),
        ) + entries[done].1,
{
    let low = walked_upto(entries, done);
    let key = entries[done].0;
    assert(low < key) by {
        if done > 0 {
            assert(entries[done - 1].0 < entries[done].0);
        }
    }
    assert forall|other: u16| low < other <= key - 1 implies !table.contains_key(other) by {
        if table.contains_key(other) {
            let i = choose|i: int| 0 <= i < entries.len() && #[trigger] entries[i].0 == other;
            if i < done {
                if i < done - 1 {
                    assert(entries[i].0 < entries[done - 1].0);
                }
            } else if i > done {
                assert(entries[done].0 < entries[i].0);
            }
        }
    }
    lemma_running_total_gap(table, low, key - 1);
    assert(table.contains_key(entries[done].0));
}

/// A sequence of integers that the standard library calls increasing
/// ascends strictly under `<`.
proof fn lemma_increasing_keys(keys: Seq<u16>)
    requires
        vstd::std_specs::btree::increasing_seq(keys),
    ensures
        forall|i: int, j: int| 0 <= i < j < keys.len() ==> keys[i] < keys[j],
{
    broadcast use vstd::std_specs::btree::axiom_increasing_seq_meaning;
    broadcast use vstd::laws_cmp::group_laws_cmp;
    assert(vstd::laws_cmp::obeys_cmp::<u16>());
    assert forall|i: int, j: int| 0 <= i < j < keys.len() implies keys[i] < keys[j] by {
        assert(vstd::std_specs::cmp::OrdSpec::cmp_spec(&keys[i], &keys[j]) is Less);
    }
}

/// What the standard library promises of an ascending walk of a map with
/// integer keys, restated over plain pairs.
pub(crate) proof fn lemma_walk_is_ascending(walk: Seq<(&u16, &u32)>, table: Map<u16, u32>)
    requires
        walk.len() == table.dom().len(),
        forall|i: int|
            0 <= i < walk.len() ==> table.contains_key(*walk[i].0) && table[*walk[i].0]
                == *walk[i].1,
        forall|key: u16| #[trigger] table.contains_key(key) ==> walk.contains((&key, &table[key])),
        vstd::std_specs::btree::increasing_seq(walk.map_values(|kv: (&u16, &u32)| *kv.0)),
    ensures
        ascending_entries(walk.unref(), table),
{
    let entries = walk.unref();
    let keys = walk.map_values(|kv: (&u16, &u32)| *kv.0);
    lemma_increasing_keys(keys);
    assert forall|i: int, j: int| 0 <= i < j < entries.len() implies #[trigger] entries[i].0
        < #[trigger] entries[j].0 by {
        assert(keys[i] == entries[i].0);
        assert(keys[j] == entries[j].0);
    }
    assert forall|key: u16| #[trigger] table.contains_key(key) implies exists|i: int|
        0 <= i < entries.len() && #[trigger] entries[i].0 == key by {
        let i = walk.index_of((&key, &table[key]));
        assert(entries[i].0 == key);
    }
}

/// Builds the cumulative table of a frequency table: each round count is
/// mapped to the number of trials that took at most that many rounds.
///
/// The running totals are `u32`, so the counts of the table may add up to at
/// most `u32::MAX`.
pub fn generate_cumulative_table(confidence_table: &BTreeMap<u16, u32>) -> (table: BTreeMap<
    u16,
    u32,
>)
    requires
        running_total(confidence_table@, u16::MAX as int) <= u32::MAX,
    ensures
        table@ == cumulative_map(confidence_table@),
{
    broadcast use vstd::std_specs::btree::group_btree_axioms;
    let mut cumulative: u32 = 0;
    let mut table: BTreeMap<u16, u32> = BTreeMap::new();
    let ghost source = confidence_table@;
    let entries = confidence_table.iter();
    proof {
        lemma_walk_is_ascending(vstd::std_specs::iter::IteratorSpec::remaining(&entries), source);
    }
    for entry in walk: entries
        invariant
            source == confidence_table@,
            running_total(source, u16::MAX as int) <= u32::MAX,
            ascending_entries(walk.seq().unref(), source),
            cumulative == running_total(source, walked_upto(walk.seq().unref(), walk.index())),
            table@ == cumulative_map(source).restrict(
                Set::new(|key: u16| key <= walked_upto(walk.seq().unref(), walk.index())),
            ),
    {
        let (key, value) = entry;
        proof {
            let entries = walk.seq().unref();
            lemma_walk_step(entries, source, walk.index());
            lemma_running_total_monotone(source, entries[walk.index()].0 as int, u16::MAX as int);
        }
        cumulative += *value;
        table.insert(*key, cumulative);
    }
    table
}

/// How many of `rounds` are at most `limit`: the trials that finished
/// within `limit` sprints.
pub open spec fn finished_within(rounds: Seq<u16>, limit: int) -> nat
    decreases rounds.len(),
{
    if rounds.len() == 0 {
        0
    } else {
        finished_within(rounds.drop_last(), limit) + if rounds.last() <= limit {
            1nat
        } else {
            0nat
        }
    }
}

/// Raising the limit by one adds the trials that took exactly that many
/// sprints; below zero nothing has finished, and at the greatest round
/// count everything has.
proof fn lemma_finished_within_step(rounds: Seq<u16>, limit: u16)
    ensures
        finished_within(rounds, limit as int) == finished_within(rounds, limit - 1) + occurrences(
            rounds,
            limit,
        ),
        finished_within(rounds, -1) == 0,
        finished_within(rounds, u16::MAX as int) == rounds.len(),
    decreases rounds.len(),
{
    if rounds.len() > 0 {
        lemma_finished_within_step(rounds.drop_last(), limit);
    }
}

/// The running total of a frequency table counts the trials that finished
/// within the bound.
proof fn lemma_running_total_counts(rounds: Seq<u16>, upto: int)
    requires
        rounds.len() <= u32::MAX,
        -1 <= upto <= u16::MAX,
    ensures
        running_total(frequency_map(rounds), upto) == finished_within(rounds, upto),
    decreases upto + 1,
{
    if upto < 0 {
        lemma_finished_within_step(rounds, 0);
    } else {
        lemma_running_total_counts(rounds, upto - 1);
        lemma_finished_within_step(rounds, upto as u16);
        lemma_occurrences_bounded(rounds, upto as u16);
    }
}

/// The counts of a frequency table add up to the number of trials.
pub proof fn lemma_frequency_total(rounds: Seq<u16>)
    requires
        rounds.len() <= u32::MAX,
    ensures
        running_total(frequency_map(rounds), u16::MAX as int) == rounds.len(),
{
    lemma_running_total_counts(rounds, u16::MAX as int);
    lemma_finished_within_step(rounds, u16::MAX);
}

/// Each entry of the cumulative table of a distribution is the number of
/// trials that finished within that many sprints.
pub proof fn lemma_cumulative_counts_finished(rounds: Seq<u16>, key: u16)
    requires
        rounds.len() <= u32::MAX,
        frequency_map(rounds).contains_key(key),
    ensures
        cumulative_map(frequency_map(rounds)).contains_key(key),
        cumulative_map(frequency_map(rounds))[key] == finished_within(rounds, key as int),
{
    lemma_running_total_counts(rounds, key as int);
    lemma_frequency_total(rounds);
    lemma_running_total_monotone(frequency_map(rounds), key as int, u16::MAX as int);
}

/// The values of a cumulative table do not decrease as the keys grow.
pub proof fn lemma_cumulative_non_decreasing(table: Map<u16, u32>, low: u16, high: u16)
    requires
        running_total(table, u16::MAX as int) <= u32::MAX,
        table.contains_key(low),
        table.contains_key(high),
        low <= high,
    ensures
        cumulative_map(table)[low] <= cumulative_map(table)[high],
{
    lemma_running_total_monotone(table, low as int, high as int);
    lemma_running_total_monotone(table, high as int, u16::MAX as int);
}

/// The value at the greatest key of the cumulative table of a distribution
/// is the number of trials.
pub proof fn lemma_cumulative_last_is_total(rounds: Seq<u16>, last: u16)
    requires
        rounds.len() <= u32::MAX,
        frequency_map(rounds).contains_key(last),
        forall|key: u16| frequency_map(rounds).contains_key(key) ==> key <= last,
    ensures
        cumulative_map(frequency_map(rounds))[last] == rounds.len(),
{
    lemma_running_total_gap(frequency_map(rounds), last as int, u16::MAX as int);
    lemma_frequency_total(rounds);
}

/// Building the cumulative table of one frequency table twice gives the
/// same table both times.
pub proof fn lemma_cumulative_repeatable(
    table: Map<u16, u32>,
    first: Map<u16, u32>,
    second: Map<u16, u32>,
)
    requires
        first == cumulative_map(table),
        second == cumulative_map(table),
    ensures
        first == second,
{
}

/// A distribution without trials has an empty frequency table, and an empty
/// frequency table has an empty cumulative table.
pub proof fn lemma_empty_tables()
    ensures
        frequency_map(Seq::<u16>::empty()) == Map::<u16, u32>::empty(),
        cumulative_map(Map::<u16, u32>::empty()) == Map::<u16, u32>::empty(),
{
    assert(frequency_map(Seq::<u16>::empty()) =~= Map::<u16, u32>::empty());
    assert(cumulative_map(Map::<u16, u32>::empty()) =~= Map::<u16, u32>::empty());
}

} // verus!
