//! Scheduled block ticks: deferred block-level effects with a delay and a
//! processing priority, kept in one process-wide queue independent of chunk
//! residency but saved and loaded together with the chunk owning the block.

use vstd::prelude::*;
use crate::position::{BlockPos, ChunkCoord};

verus! {

/// Processing priority of a scheduled tick. Lower ranks are processed first.
#[derive(Clone, Copy, PartialEq, Eq, Structural, Debug)]
pub enum TickPriority {
    ExtremelyHigh,
    VeryHigh,
    High,
    Normal,
    Low,
    VeryLow,
    ExtremelyLow,
}

impl TickPriority {
    /// Numeric rank of this priority; lower ranks are processed first.
    pub open spec fn rank_spec(self) -> u8 {
        match self {
            TickPriority::ExtremelyHigh => 0,
            TickPriority::VeryHigh => 1,
            TickPriority::High => 2,
            TickPriority::Normal => 3,
            TickPriority::Low => 4,
            TickPriority::VeryLow => 5,
            TickPriority::ExtremelyLow => 6,
        }
    }

    pub fn rank(&self) -> (r: u8)
        ensures
            r == self.rank_spec(),
    {
        match self {
            TickPriority::ExtremelyHigh => 0,
            TickPriority::VeryHigh => 1,
            TickPriority::High => 2,
            TickPriority::Normal => 3,
            TickPriority::Low => 4,
            TickPriority::VeryLow => 5,
            TickPriority::ExtremelyLow => 6,
        }
    }
}

/// One deferred block effect: the block position it applies to, the remaining
/// delay in world ticks, a processing priority and the identity of the block
/// the effect targets.
#[derive(Clone, Copy, PartialEq, Eq, Structural, Debug)]
pub struct ScheduledTick {
    pub block_pos: BlockPos,
    pub delay: u16,
    pub priority: TickPriority,
    pub target_block_id: u16,
}

/// The tick after one world tick has passed: its delay decremented,
/// saturating at zero.
pub open spec fn tick_advanced(t: ScheduledTick) -> ScheduledTick {
    ScheduledTick {
        block_pos: t.block_pos,
        delay: if t.delay == 0 { 0u16 } else { (t.delay - 1) as u16 },
        priority: t.priority,
        target_block_id: t.target_block_id,
    }
}

/// The ticks that stay pending after one advance: every delay decremented
/// (saturating), keeping exactly those whose delay has not reached zero, in
/// their original order.
pub open spec fn pending_after_advance(s: Seq<ScheduledTick>) -> Seq<ScheduledTick>
    decreases s.len(),
{
    if s.len() == 0 {
        Seq::empty()
    } else {
        let rest = pending_after_advance(s.drop_last());
        let t = tick_advanced(s.last());
        if t.delay > 0 {
            rest.push(t)
        } else {
            rest
        }
    }
}

/// The ticks that become due after one advance (delay reached zero), in their
/// original order, before sorting by priority.
pub open spec fn due_after_advance(s: Seq<ScheduledTick>) -> Seq<ScheduledTick>
    decreases s.len(),
{
    if s.len() == 0 {
        Seq::empty()
    } else {
        let rest = due_after_advance(s.drop_last());
        let t = tick_advanced(s.last());
        if t.delay == 0 {
            rest.push(t)
        } else {
            rest
        }
    }
}

/// The subsequence of ticks whose priority has the given rank, in their
/// original order.
pub open spec fn rank_bucket(s: Seq<ScheduledTick>, v: u8) -> Seq<ScheduledTick>
    decreases s.len(),
{
    if s.len() == 0 {
        Seq::empty()
    } else {
        let rest = rank_bucket(s.drop_last(), v);
        if s.last().priority.rank_spec() == v {
            rest.push(s.last())
        } else {
            rest
        }
    }
}

/// The concatenation of the rank buckets below rank `n`, in ascending rank
/// order.
pub open spec fn buckets_upto(s: Seq<ScheduledTick>, n: int) -> Seq<ScheduledTick>
    decreases n,
{
    if n <= 0 {
        Seq::empty()
    } else {
        buckets_upto(s, n - 1) + rank_bucket(s, (n - 1) as u8)
    }
}

/// Stable sort of ticks by ascending priority rank: ticks of equal priority
/// keep their relative order.
pub open spec fn sorted_by_priority(s: Seq<ScheduledTick>) -> Seq<ScheduledTick> {
    buckets_upto(s, 7)
}

/// Appends a newly scheduled tick to the queue.
pub fn schedule(ticks: &mut Vec<ScheduledTick>, t: ScheduledTick)
    ensures
        final(ticks)@ == old(ticks)@.push(t),
{
    ticks.push(t);
}

/// Whether some pending tick targets the given block position and block
/// identity. Linear in the number of pending ticks.
pub fn is_scheduled(ticks: &Vec<ScheduledTick>, block_pos: &BlockPos, block_id: u16) -> (r: bool)
    ensures
        r == exists|i: int|
            0 <= i < ticks@.len() && ticks@[i].block_pos == *block_pos
                && ticks@[i].target_block_id == block_id,
{
    let n = ticks.len();
    let mut j: usize = 0;
    while j < n
        invariant
            0 <= j <= n,
            n == ticks@.len(),
            forall|i: int|
                0 <= i < j ==> !(ticks@[i].block_pos == *block_pos && ticks@[i].target_block_id
                    == block_id),
        decreases n - j,
    {
        let t = &ticks[j];
        if t.block_pos == *block_pos && t.target_block_id == block_id {
            return true;
        }
        j = j + 1;
    }
    false
}

/// Advances every pending tick by one world tick: delays decrement
/// (saturating at zero), ticks whose delay reached zero are removed from the
/// queue and returned sorted by ascending priority rank; ticks of equal
/// priority come back in the order they were scheduled.
pub fn advance_and_collect_due(ticks: &mut Vec<ScheduledTick>) -> (r: Vec<ScheduledTick>)
    ensures
        final(ticks)@ == pending_after_advance(old(ticks)@),
        r@ == sorted_by_priority(due_after_advance(old(ticks)@)),
{
    let ghost s = ticks@;
    let n = ticks.len();
    let mut due: Vec<ScheduledTick> = Vec::new();
    let mut remaining: Vec<ScheduledTick> = Vec::new();
    let mut i: usize = 0;
    while i < n
        invariant
            0 <= i <= n,
            n == s.len(),
            ticks@ == s,
            remaining@ == pending_after_advance(s.take(i as int)),
            due@ == due_after_advance(s.take(i as int)),
        decreases n - i,
    {
        let t = ticks[i];
        let nt = ScheduledTick {
            block_pos: t.block_pos,
            delay: if t.delay == 0 {
                0
            } else {
                t.delay - 1
            },
            priority: t.priority,
            target_block_id: t.target_block_id,
        };
        proof {
            assert(s.take(i + 1).drop_last() =~= s.take(i as int));
            assert(s.take(i + 1).last() == s[i as int]);
            assert(nt == tick_advanced(s[i as int]));
        }
        if nt.delay == 0 {
            due.push(nt);
        } else {
            remaining.push(nt);
        }
        i = i + 1;
    }
    proof {
        assert(s.take(n as int) =~= s);
    }
    *ticks = remaining;
    sort_ticks_by_priority(due)
}

/// The subsequence of ticks owned by the given chunk (the chunk that owns a
/// tick is derived from its block position), in their original order.
pub open spec fn ticks_for_chunk(s: Seq<ScheduledTick>, c: ChunkCoord) -> Seq<ScheduledTick>
    decreases s.len(),
{
    if s.len() == 0 {
        Seq::empty()
    } else {
        let rest = ticks_for_chunk(s.drop_last(), c);
        if s.last().block_pos.owning_chunk() == c {
            rest.push(s.last())
        } else {
            rest
        }
    }
}

/// The subsequence of ticks not owned by the given chunk, in their original
/// order.
pub open spec fn ticks_not_for_chunk(s: Seq<ScheduledTick>, c: ChunkCoord) -> Seq<ScheduledTick>
    decreases s.len(),
{
    if s.len() == 0 {
        Seq::empty()
    } else {
        let rest = ticks_not_for_chunk(s.drop_last(), c);
        if s.last().block_pos.owning_chunk() == c {
            rest
        } else {
            rest.push(s.last())
        }
    }
}

/// Removes from the queue every tick owned by the given chunk and returns
/// them, in their original order, so they can travel with the chunk's record.
pub fn drain_ticks_for_chunk(ticks: &mut Vec<ScheduledTick>, c: ChunkCoord) -> (r: Vec<
    ScheduledTick,
>)
    ensures
        final(ticks)@ == ticks_not_for_chunk(old(ticks)@, c),
        r@ == ticks_for_chunk(old(ticks)@, c),
{
    let ghost s = ticks@;
    let n = ticks.len();
    let mut kept: Vec<ScheduledTick> = Vec::new();
    let mut drained: Vec<ScheduledTick> = Vec::new();
    let mut i: usize = 0;
    while i < n
        invariant
            0 <= i <= n,
            n == s.len(),
            ticks@ == s,
            kept@ == ticks_not_for_chunk(s.take(i as int), c),
            drained@ == ticks_for_chunk(s.take(i as int), c),
        decreases n - i,
    {
        let t = ticks[i];
        proof {
            assert(s.take(i + 1).drop_last() =~= s.take(i as int));
            assert(s.take(i + 1).last() == s[i as int]);
        }
        let owner = t.block_pos.chunk_and_chunk_relative_position().0;
        if owner == c {
            drained.push(t);
        } else {
            kept.push(t);
        }
        i = i + 1;
    }
    proof {
        assert(s.take(n as int) =~= s);
    }
    *ticks = kept;
    drained
}

/// Appends the ticks carried by a loaded chunk record back into the global
/// queue.
pub fn merge_ticks(ticks: &mut Vec<ScheduledTick>, incoming: &Vec<ScheduledTick>)
    ensures
        final(ticks)@ == old(ticks)@ + incoming@,
{
    let ghost base = ticks@;
    let n = incoming.len();
    let mut i: usize = 0;
    while i < n
        invariant
            0 <= i <= n,
            n == incoming@.len(),
            ticks@ == base + incoming@.take(i as int),
        decreases n - i,
    {
        ticks.push(incoming[i]);
        proof {
            assert(incoming@.take(i + 1) =~= incoming@.take(i as int).push(incoming@[i as int]));
            assert(base + incoming@.take(i + 1) =~= (base + incoming@.take(i as int)).push(
                incoming@[i as int],
            ));
        }
        i = i + 1;
    }
    proof {
        assert(incoming@.take(n as int) =~= incoming@);
        assert(ticks@ =~= base + incoming@);
    }
}

/// Every tick in a rank's bucket carries that rank.
proof fn lemma_rank_bucket_elems(s: Seq<ScheduledTick>, v: u8)
    ensures
        forall|i: int|
            0 <= i < rank_bucket(s, v).len() ==> (#[trigger] rank_bucket(s, v)[i]).priority.rank_spec()
                == v,
    decreases s.len(),
{
    if s.len() != 0 {
        lemma_rank_bucket_elems(s.drop_last(), v);
        let rest = rank_bucket(s.drop_last(), v);
        if s.last().priority.rank_spec() == v {
            assert forall|i: int|
                0 <= i < rank_bucket(s, v).len() implies (#[trigger] rank_bucket(s, v)[i]).priority.rank_spec()
                == v by {
                if i < rest.len() {
                    assert(rank_bucket(s, v)[i] == rest[i]);
                }
            }
        }
    }
}

/// The concatenated buckets below rank `n` are sorted by ascending rank, and
/// every rank in them lies below `n`.
proof fn lemma_buckets_upto_sorted(s: Seq<ScheduledTick>, n: int)
    requires
        0 <= n <= 7,
    ensures
        forall|i: int|
            0 <= i < buckets_upto(s, n).len() ==> (#[trigger] buckets_upto(s, n)[i]).priority.rank_spec()
                < n,
        forall|i: int, j: int|
            0 <= i < j < buckets_upto(s, n).len() ==> (#[trigger] buckets_upto(s, n)[i]).priority.rank_spec()
                <= (#[trigger] buckets_upto(s, n)[j]).priority.rank_spec(),
    decreases n,
{
    if n > 0 {
        lemma_buckets_upto_sorted(s, n - 1);
        lemma_rank_bucket_elems(s, (n - 1) as u8);
        let prefix = buckets_upto(s, n - 1);
        let bucket = rank_bucket(s, (n - 1) as u8);
        assert forall|i: int|
            0 <= i < buckets_upto(s, n).len() implies (#[trigger] buckets_upto(s, n)[i]).priority.rank_spec()
            < n by {
            if i < prefix.len() {
                assert(buckets_upto(s, n)[i] == prefix[i]);
            } else {
                assert(buckets_upto(s, n)[i] == bucket[i - prefix.len()]);
            }
        }
        assert forall|i: int, j: int|
            0 <= i < j < buckets_upto(s, n).len() implies (#[trigger] buckets_upto(s, n)[i]).priority.rank_spec()
            <= (#[trigger] buckets_upto(s, n)[j]).priority.rank_spec() by {
            if i < prefix.len() {
                assert(buckets_upto(s, n)[i] == prefix[i]);
            } else {
                assert(buckets_upto(s, n)[i] == bucket[i - prefix.len()]);
            }
            if j < prefix.len() {
                assert(buckets_upto(s, n)[j] == prefix[j]);
            } else {
                assert(buckets_upto(s, n)[j] == bucket[j - prefix.len()]);
            }
        }
    }
}

/// Law: the due batch comes back sorted: no tick is placed after one of
/// numerically higher priority rank.
pub proof fn lemma_sorted_by_priority_sorted(s: Seq<ScheduledTick>)
    ensures
        forall|i: int, j: int|
            0 <= i < j < sorted_by_priority(s).len() ==> (#[trigger] sorted_by_priority(s)[i]).priority.rank_spec()
                <= (#[trigger] sorted_by_priority(s)[j]).priority.rank_spec(),
{
    lemma_buckets_upto_sorted(s, 7);
}

/// A rank's bucket distributes over concatenation.
proof fn lemma_rank_bucket_concat(a: Seq<ScheduledTick>, b: Seq<ScheduledTick>, v: u8)
    ensures
        rank_bucket(a + b, v) == rank_bucket(a, v) + rank_bucket(b, v),
    decreases b.len(),
{
    if b.len() == 0 {
        assert(a + b =~= a);
        assert(rank_bucket(a, v) + rank_bucket(b, v) =~= rank_bucket(a, v));
    } else {
        lemma_rank_bucket_concat(a, b.drop_last(), v);
        assert((a + b).drop_last() =~= a + b.drop_last());
        assert((a + b).last() == b.last());
        if b.last().priority.rank_spec() == v {
            assert(rank_bucket(a, v) + rank_bucket(b, v) =~= (rank_bucket(a, v) + rank_bucket(
                b.drop_last(),
                v,
            )).push(b.last()));
        } else {
            assert(rank_bucket(a, v) + rank_bucket(b, v) =~= rank_bucket(a, v) + rank_bucket(
                b.drop_last(),
                v,
            ));
        }
    }
}

/// Taking one rank's bucket out of another rank's bucket leaves nothing;
/// out of its own bucket, everything.
proof fn lemma_rank_bucket_of_bucket(s: Seq<ScheduledTick>, u: u8, v: u8)
    ensures
        rank_bucket(rank_bucket(s, u), v) == if u == v {
            rank_bucket(s, u)
        } else {
            Seq::<ScheduledTick>::empty()
        },
    decreases s.len(),
{
    if s.len() != 0 {
        lemma_rank_bucket_of_bucket(s.drop_last(), u, v);
        let rest = rank_bucket(s.drop_last(), u);
        if s.last().priority.rank_spec() == u {
            assert(rank_bucket(s, u) == rest.push(s.last()));
            assert(rest.push(s.last()).drop_last() =~= rest);
        }
    }
}

/// The buckets below rank `n` keep exactly the subsequences of the ranks
/// below `n`.
proof fn lemma_rank_bucket_of_upto(s: Seq<ScheduledTick>, n: int, v: u8)
    requires
        0 <= n <= 7,
    ensures
        rank_bucket(buckets_upto(s, n), v) == if (v as int) < n {
            rank_bucket(s, v)
        } else {
            Seq::<ScheduledTick>::empty()
        },
    decreases n,
{
    if n > 0 {
        lemma_rank_bucket_of_upto(s, n - 1, v);
        lemma_rank_bucket_concat(buckets_upto(s, n - 1), rank_bucket(s, (n - 1) as u8), v);
        lemma_rank_bucket_of_bucket(s, (n - 1) as u8, v);
        if (v as int) < n - 1 {
            assert(rank_bucket(s, v) + Seq::<ScheduledTick>::empty() =~= rank_bucket(s, v));
        } else if (v as int) == n - 1 {
            assert(Seq::<ScheduledTick>::empty() + rank_bucket(s, v) =~= rank_bucket(s, v));
        } else {
            assert(Seq::<ScheduledTick>::empty() + Seq::<ScheduledTick>::empty() =~= Seq::<
                ScheduledTick,
            >::empty());
        }
    }
}

/// Law: the sort by priority is stable: for every rank, the subsequence of
/// ticks carrying that rank comes out exactly as it was scheduled.
pub proof fn lemma_sorted_by_priority_stable(s: Seq<ScheduledTick>, v: u8)
    requires
        v < 7,
    ensures
        rank_bucket(sorted_by_priority(s), v) == rank_bucket(s, v),
{
    lemma_rank_bucket_of_upto(s, 7, v);
}

/// The queue after the advance operation has been applied `k` times.
pub open spec fn advanced_times(s: Seq<ScheduledTick>, k: nat) -> Seq<ScheduledTick>
    decreases k,
{
    if k == 0 {
        s
    } else {
        pending_after_advance(advanced_times(s, (k - 1) as nat))
    }
}

/// The application number on which a tick becomes due: its delay, except
/// that a tick scheduled with delay zero is due on the very next
/// application.
pub open spec fn due_call(t: ScheduledTick) -> int {
    if t.delay == 0 {
        1
    } else {
        t.delay as int
    }
}

/// A tick with its delay advanced by `k` world ticks, saturating at zero.
pub open spec fn tick_advanced_by(t: ScheduledTick, k: int) -> ScheduledTick {
    ScheduledTick {
        block_pos: t.block_pos,
        delay: if t.delay <= k {
            0u16
        } else {
            (t.delay - k) as u16
        },
        priority: t.priority,
        target_block_id: t.target_block_id,
    }
}

/// The ticks still pending after `k` applications: exactly those whose due
/// call lies beyond `k`, their delays advanced, in their original order.
pub open spec fn still_pending(s: Seq<ScheduledTick>, k: int) -> Seq<ScheduledTick>
    decreases s.len(),
{
    if s.len() == 0 {
        Seq::empty()
    } else {
        let rest = still_pending(s.drop_last(), k);
        if due_call(s.last()) > k {
            rest.push(tick_advanced_by(s.last(), k))
        } else {
            rest
        }
    }
}

/// The ticks that become due exactly on application `k`: delay zero, in
/// their original order.
pub open spec fn due_at_call(s: Seq<ScheduledTick>, k: int) -> Seq<ScheduledTick>
    decreases s.len(),
{
    if s.len() == 0 {
        Seq::empty()
    } else {
        let rest = due_at_call(s.drop_last(), k);
        if due_call(s.last()) == k {
            rest.push(tick_advanced_by(s.last(), k))
        } else {
            rest
        }
    }
}

/// Before any application, nothing is advanced and everything is pending.
proof fn lemma_still_pending_zero(s: Seq<ScheduledTick>)
    ensures
        still_pending(s, 0) == s,
    decreases s.len(),
{
    if s.len() != 0 {
        lemma_still_pending_zero(s.drop_last());
        assert(tick_advanced_by(s.last(), 0) == s.last());
        assert(s.drop_last().push(s.last()) =~= s);
    }
}

/// One more application moves the pending set from `k` to `k + 1`
/// applications and makes due exactly the ticks whose due call is `k + 1`.
proof fn lemma_advance_still_pending(s: Seq<ScheduledTick>, k: int)
    requires
        k >= 0,
    ensures
        pending_after_advance(still_pending(s, k)) == still_pending(s, k + 1),
        due_after_advance(still_pending(s, k)) == due_at_call(s, k + 1),
    decreases s.len(),
{
    if s.len() != 0 {
        lemma_advance_still_pending(s.drop_last(), k);
        let rest = still_pending(s.drop_last(), k);
        let t = s.last();
        if due_call(t) > k {
            let sp = rest.push(tick_advanced_by(t, k));
            assert(sp.drop_last() =~= rest);
            assert(sp.last() == tick_advanced_by(t, k));
            assert(tick_advanced(tick_advanced_by(t, k)) == tick_advanced_by(t, k + 1));
        }
    }
}

/// Law: advancing the queue repeatedly returns each scheduled tick exactly
/// once, on the application whose number is the tick's delay (a tick
/// scheduled with delay zero comes back on the very next application); on
/// that application it is part of the due batch — which the advance
/// operation hands back sorted stably by priority — and afterwards it is
/// pending no more.
pub proof fn lemma_tick_due_exactly_on_its_call(s: Seq<ScheduledTick>, k: int)
    requires
        1 <= k,
    ensures
        advanced_times(s, k as nat) == still_pending(s, k),
        due_after_advance(advanced_times(s, (k - 1) as nat)) == due_at_call(s, k),
    decreases k,
{
    if k == 1 {
        lemma_still_pending_zero(s);
        lemma_advance_still_pending(s, 0);
    } else {
        lemma_tick_due_exactly_on_its_call(s, k - 1);
        lemma_advance_still_pending(s, k - 1);
    }
}

/// Draining one chunk's ticks leaves the subsequences owned by every other
/// chunk untouched.
pub proof fn lemma_drain_other_chunk(s: Seq<ScheduledTick>, a: ChunkCoord, b: ChunkCoord)
    requires
        a != b,
    ensures
        ticks_for_chunk(ticks_not_for_chunk(s, a), b) == ticks_for_chunk(s, b),
    decreases s.len(),
{
    if s.len() != 0 {
        lemma_drain_other_chunk(s.drop_last(), a, b);
        let rest = ticks_not_for_chunk(s.drop_last(), a);
        if s.last().block_pos.owning_chunk() == a {
        } else {
            assert(rest.push(s.last()).drop_last() =~= rest);
        }
    }
}

/// Stable sort of a tick list by ascending priority rank, by collecting the
/// ticks of each rank in turn.
fn sort_ticks_by_priority(ticks: Vec<ScheduledTick>) -> (r: Vec<ScheduledTick>)
    ensures
        r@ == sorted_by_priority(ticks@),
{
    let ghost s = ticks@;
    let n = ticks.len();
    let mut out: Vec<ScheduledTick> = Vec::new();
    let mut v: u8 = 0;
    while v < 7
        invariant
            0 <= v <= 7,
            n == s.len(),
            ticks@ == s,
            out@ == buckets_upto(s, v as int),
        decreases 7 - v,
    {
        let mut j: usize = 0;
        while j < n
            invariant
                0 <= j <= n,
                n == s.len(),
                ticks@ == s,
                out@ == buckets_upto(s, v as int) + rank_bucket(s.take(j as int), v),
            decreases n - j,
        {
            proof {
                assert(s.take(j + 1).drop_last() =~= s.take(j as int));
                assert(s.take(j + 1).last() == s[j as int]);
            }
            if ticks[j].priority.rank() == v {
                out.push(ticks[j]);
            }
            j = j + 1;
        }
        proof {
            assert(s.take(n as int) =~= s);
        }
        v = v + 1;
    }
    out
}

} // verus!
