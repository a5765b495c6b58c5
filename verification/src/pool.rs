//! The velocity pool: the historical per-sprint throughput that trials draw
//! from, held in a `SmallVec` with room for eight sprints before it spills
//! to the heap.
//!
//! A pool is built from the records of past sprints. A record that could
//! not be read makes the whole history unusable: what to do then is left to
//! the caller.

use smallvec::SmallVec;
use vstd::prelude::*;

verus! {

/// The historical throughput of a team, one entry per past sprint, oldest
/// first. Its storage is a `SmallVec`, which the verifier does not look
/// into: what it holds is [`pool_items`].
#[verifier::external_body]
pub struct VelocityPool {
    items: SmallVec<[u16; 8]>,
}

/// The number of records that a history must stay below: an eighth of the
/// address space.
pub const MAX_RECORDS: usize = usize::MAX / 8;

/// The story points that a pool holds, oldest sprint first.
pub uninterp spec fn pool_items(pool: VelocityPool) -> Seq<u16>;

/// `SmallVec::new`: a pool that holds nothing.
#[verifier::external_body]
fn empty_pool() -> (pool: VelocityPool)
    ensures
        pool_items(pool) == Seq::<u16>::empty(),
{
    VelocityPool { items: SmallVec::new() }
}

/// `SmallVec::push`: appends one item and leaves the others as they were.
/// To grow, the storage rounds the new length up to a power of two and
/// panics where that many two-byte items take more than `isize::MAX` bytes,
/// so the pool must hold fewer than [`MAX_RECORDS`] items.
#[verifier::external_body]
fn push_points(pool: &mut VelocityPool, points: u16)
    requires
        pool_items(*old(pool)).len() < MAX_RECORDS,
    ensures
        pool_items(*final(pool)) == pool_items(*old(pool)).push(points),
{
    pool.items.push(points)
}

/// `SmallVec::as_slice`: the items of the pool as a slice, in order.
#[verifier::external_body]
pub(crate) fn pool_slice(pool: &VelocityPool) -> (items: &[u16])
    ensures
        items@ == pool_items(*pool),
{
    pool.items.as_slice()
}

/// Why a history of sprints gave no pool.
#[derive(Clone, Copy, Debug, PartialEq, Eq, Structural)]
pub enum HistoryError {
    /// The record at this position, counted from zero, could not be read,
    /// and every record before it could.
    UnreadableRecord { index: usize },
    /// There are [`MAX_RECORDS`] records or more.
    TooManyRecords,
}

/// Every record was read.
pub open spec fn all_readable(records: Seq<Option<u16>>) -> bool {
    forall|i: int| 0 <= i < records.len() ==> #[trigger] records[i] is Some
}

/// The story points of the records, in order. It is meant for records
/// that were all read.
pub open spec fn story_points(records: Seq<Option<u16>>) -> Seq<u16> {
    Seq::new(records.len(), |i: int| records[i]->0)
}

/// The record at `index` is the first that could not be read.
pub open spec fn first_unreadable(records: Seq<Option<u16>>, index: int) -> bool {
    &&& 0 <= index < records.len()
    &&& records[index] is None
    &&& forall|i: int| 0 <= i < index ==> #[trigger] records[i] is Some
}

/// Builds the velocity pool from the records of past sprints, oldest first.
/// Each record is the number of story points completed in that sprint, or
/// `None` where the record could not be read.
///
/// The pool holds the story points of all the records, in order, if every
/// record was read. Otherwise the error names the first that was not.
pub fn read_sprint_history(records: &[Option<u16>]) -> (result: Result<
    VelocityPool,
    HistoryError,
>)
    ensures
        match result {
            Ok(pool) => records@.len() < MAX_RECORDS && all_readable(records@) && pool_items(
                pool,
            ) == story_points(records@),
            Err(HistoryError::UnreadableRecord { index }) => records@.len() < MAX_RECORDS
                && first_unreadable(records@, index as int),
            Err(HistoryError::TooManyRecords) => records@.len() >= MAX_RECORDS,
        },
{
    if records.len() >= MAX_RECORDS {
        return Err(HistoryError::TooManyRecords);
    }
    let mut pool = empty_pool();
    let mut i: usize = 0;
    while i < records.len()
        invariant
            i <= records@.len() < MAX_RECORDS,
            all_readable(records@.take(i as int)),
            pool_items(pool) == story_points(records@.take(i as int)),
        decreases records@.len() - i,
    {
        match records[i] {
            Some(points) => {
                push_points(&mut pool, points);
            },
            None => {
                proof {
                    assert forall|j: int| 0 <= j < i implies #[trigger] records@[j] is Some by {
                        assert(records@.take(i as int)[j] is Some);
                    }
                }
                return Err(HistoryError::UnreadableRecord { index: i });
            },
        }
        proof {
            let before = records@.take(i as int);
            let after = records@.take(i + 1);
            assert forall|j: int| 0 <= j < after.len() implies #[trigger] after[j] is Some by {
                if j < i {
                    assert(before[j] is Some);
                }
            }
            assert(story_points(after) =~= story_points(before).push(records@[i as int]->0));
        }
        i += 1;
    }
    proof {
        assert(records@.take(records@.len() as int) == records@);
    }
    Ok(pool)
}

impl VelocityPool {
    /// The number of sprints in the pool.
    pub fn len(&self) -> (n: usize)
        ensures
            n == pool_items(*self).len(),
    {
        pool_slice(self).len()
    }

    /// The story points of the pool, oldest sprint first.
    pub fn points(&self) -> (points: Vec<u16>)
        ensures
            points@ == pool_items(*self),
    {
        let items = pool_slice(self);
        let mut points: Vec<u16> = Vec::new();
        let mut i: usize = 0;
        while i < items.len()
            invariant
                i <= items@.len(),
                points@ == items@.take(i as int),
            decreases items@.len() - i,
        {
            points.push(items[i]);
            assert(items@.take(i + 1) == items@.take(i as int).push(items@[i as int]));
            i += 1;
        }
        assert(items@.take(items@.len() as int) == items@);
        points
    }
}

} // verus!
