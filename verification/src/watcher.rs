//! Abstract transitions of the watcher table: an interest refcount per chunk
//! coordinate, with absence meaning zero. Counts grow only through an
//! explicit begin-watching step and shrink only through a stop-watching step;
//! a count reaching zero removes the entry.

use vstd::prelude::*;
use crate::position::ChunkCoord;

verus! {

/// Well-formedness of a watcher table: finitely many entries, every entry
/// strictly positive (absence stands for zero).
pub open spec fn watcher_wf(m: Map<ChunkCoord, usize>) -> bool {
    m.dom().finite() && forall|c: ChunkCoord| m.dom().contains(c) ==> m[c] >= 1
}

/// One observer begins watching `c`: the count is created at one or
/// incremented; on overflow the increment is dropped.
pub open spec fn watch_one(m: Map<ChunkCoord, usize>, c: ChunkCoord) -> Map<ChunkCoord, usize> {
    if m.dom().contains(c) {
        if m[c] < usize::MAX {
            m.insert(c, (m[c] + 1) as usize)
        } else {
            m
        }
    } else {
        m.insert(c, 1)
    }
}

/// Every coordinate of the sequence begins being watched, in order.
pub open spec fn watch_seq(m: Map<ChunkCoord, usize>, s: Seq<ChunkCoord>) -> Map<ChunkCoord, usize>
    decreases s.len(),
{
    if s.len() == 0 {
        m
    } else {
        watch_one(watch_seq(m, s.drop_last()), s.last())
    }
}

/// One observer stops watching `c`: the count decrements, saturating at zero;
/// reaching zero removes the entry and reports the coordinate
/// eviction-eligible. Stopping on an absent entry is a legitimate no-op.
pub open spec fn unwatch_one(m: Map<ChunkCoord, usize>, c: ChunkCoord) -> (
    Map<ChunkCoord, usize>,
    bool,
) {
    if m.dom().contains(c) {
        if m[c] <= 1 {
            (m.remove(c), true)
        } else {
            (m.insert(c, (m[c] - 1) as usize), false)
        }
    } else {
        (m, false)
    }
}

/// Every coordinate of the sequence stops being watched, in order; also the
/// subsequence of coordinates whose count reached zero.
pub open spec fn unwatch_seq(m: Map<ChunkCoord, usize>, s: Seq<ChunkCoord>) -> (
    Map<ChunkCoord, usize>,
    Seq<ChunkCoord>,
)
    decreases s.len(),
{
    if s.len() == 0 {
        (m, Seq::empty())
    } else {
        let prev = unwatch_seq(m, s.drop_last());
        let step = unwatch_one(prev.0, s.last());
        (step.0, if step.1 {
            prev.1.push(s.last())
        } else {
            prev.1
        })
    }
}

/// Beginning to watch keeps the table well formed and adds no coordinate
/// outside the given ones.
pub proof fn lemma_watch_seq_wf(m: Map<ChunkCoord, usize>, s: Seq<ChunkCoord>)
    requires
        watcher_wf(m),
    ensures
        watcher_wf(watch_seq(m, s)),
        forall|c: ChunkCoord|
            watch_seq(m, s).dom().contains(c) ==> m.dom().contains(c) || s.contains(c),
        forall|c: ChunkCoord| m.dom().contains(c) ==> watch_seq(m, s).dom().contains(c),
    decreases s.len(),
{
    if s.len() != 0 {
        lemma_watch_seq_wf(m, s.drop_last());
        assert(s.contains(s.last()));
        assert forall|c: ChunkCoord| s.drop_last().contains(c) implies s.contains(c) by {
            let i = choose|i: int| 0 <= i < s.drop_last().len() && s.drop_last()[i] == c;
            assert(s[i] == c);
        }
    }
}

/// Stopping watching keeps the table well formed, adds no coordinate, and
/// reports a subsequence of the given coordinates.
pub proof fn lemma_unwatch_seq_wf(m: Map<ChunkCoord, usize>, s: Seq<ChunkCoord>)
    requires
        watcher_wf(m),
    ensures
        watcher_wf(unwatch_seq(m, s).0),
        forall|c: ChunkCoord| unwatch_seq(m, s).0.dom().contains(c) ==> m.dom().contains(c),
        forall|i: int| 0 <= i < unwatch_seq(m, s).1.len() ==> s.contains(#[trigger] unwatch_seq(m, s).1[i]),
    decreases s.len(),
{
    if s.len() != 0 {
        lemma_unwatch_seq_wf(m, s.drop_last());
        assert(s.contains(s.last()));
        assert forall|c: ChunkCoord| s.drop_last().contains(c) implies s.contains(c) by {
            let i = choose|i: int| 0 <= i < s.drop_last().len() && s.drop_last()[i] == c;
            assert(s[i] == c);
        }
    }
}

/// Stopping watching a coordinate that the sequence never touches leaves an
/// entry for it alone: the step sequence over the rest commutes with holding
/// that entry fixed.
proof fn lemma_unwatch_seq_frame(
    m: Map<ChunkCoord, usize>,
    s: Seq<ChunkCoord>,
    c: ChunkCoord,
    v: usize,
)
    requires
        !s.contains(c),
    ensures
        unwatch_seq(m.insert(c, v), s).0 == unwatch_seq(m, s).0.insert(c, v),
        unwatch_seq(m.insert(c, v), s).1 == unwatch_seq(m, s).1,
    decreases s.len(),
{
    if s.len() != 0 {
        assert forall|d: ChunkCoord| s.drop_last().contains(d) implies s.contains(d) by {
            let i = choose|i: int| 0 <= i < s.drop_last().len() && s.drop_last()[i] == d;
            assert(s[i] == d);
        }
        lemma_unwatch_seq_frame(m, s.drop_last(), c, v);
        let prev = unwatch_seq(m, s.drop_last()).0;
        let d = s.last();
        assert(s.contains(s.last()));
        assert(d != c);
        let withc = prev.insert(c, v);
        if prev.dom().contains(d) {
            if prev[d] <= 1 {
                assert(withc.remove(d) =~= prev.remove(d).insert(c, v));
            } else {
                assert(withc.insert(d, (prev[d] - 1) as usize) =~= prev.insert(
                    d,
                    (prev[d] - 1) as usize,
                ).insert(c, v));
            }
        }
    }
}

/// Law: beginning to watch a set of distinct, previously unwatched
/// coordinates and immediately stopping watching the same set reports every
/// one of them as eviction-eligible, in order, and leaves the watcher table
/// exactly as it was — no residual count remains.
pub proof fn lemma_watch_then_unwatch(m: Map<ChunkCoord, usize>, s: Seq<ChunkCoord>)
    requires
        watcher_wf(m),
        s.no_duplicates(),
        forall|i: int| 0 <= i < s.len() ==> !m.dom().contains(#[trigger] s[i]),
    ensures
        unwatch_seq(watch_seq(m, s), s) == (m, s),
    decreases s.len(),
{
    if s.len() != 0 {
        let s0 = s.drop_last();
        let c = s.last();
        assert forall|d: ChunkCoord| s0.contains(d) implies s.contains(d) by {
            let i = choose|i: int| 0 <= i < s0.len() && s0[i] == d;
            assert(s[i] == d);
        }
        assert(!s0.contains(c)) by {
            if s0.contains(c) {
                let i = choose|i: int| 0 <= i < s0.len() && s0[i] == c;
                assert(s[i] == s[s.len() - 1]);
                assert(false);
            }
        }
        lemma_watch_then_unwatch(m, s0);
        lemma_watch_seq_wf(m, s0);
        let m0 = watch_seq(m, s0);
        assert(!m0.dom().contains(c));
        assert(watch_seq(m, s) == m0.insert(c, 1));
        lemma_unwatch_seq_frame(m0, s0, c, 1);
        let prev = unwatch_seq(m0.insert(c, 1), s0);
        assert(prev.0 == m.insert(c, 1));
        assert(prev.1 == s0);
        let step = unwatch_one(m.insert(c, 1), c);
        assert(step.1);
        assert(step.0 =~= m);
        assert(s0.push(c) =~= s);
    }
}

} // verus!
