//! Points in time that reads can go back to, and those of them that are in use.

use std::collections::BTreeMap;
use vstd::prelude::*;

verus! {

broadcast use vstd::std_specs::btree::group_btree_axioms;

/// A point in time. Reads through it see the writes that were made before it
/// and none that were made after.
pub struct Snapshot {
    seq_bound: u64,
}

impl Snapshot {
    /// Writes with a lower sequence number than this are seen.
    pub closed spec fn sees_below(&self) -> u64 {
        self.seq_bound
    }

    /// The point in time before the write with this sequence number.
    pub(crate) fn at(seq_bound: u64) -> (r: Snapshot)
        ensures
            r.sees_below() == seq_bound,
    {
        Snapshot { seq_bound }
    }

    /// Writes with a lower sequence number than this are seen.
    pub fn horizon(&self) -> (r: u64)
        ensures
            r == self.sees_below(),
    {
        self.seq_bound
    }
}

/// The horizons of the snapshots in use, and how often each is in use.
pub struct Horizons {
    held: BTreeMap<u64, usize>,
}

/// The lowest of some horizons, and the highest number there is if there are
/// none.
pub open spec fn is_lowest(held: Map<u64, usize>, h: u64) -> bool {
    &&& forall|k: u64| #[trigger] held.contains_key(k) ==> h <= k
    &&& held.contains_key(h) || (h == u64::MAX && forall|k: u64| !#[trigger] held.contains_key(k))
}

/// The horizons once one more snapshot is in use. A count that is as high as it
/// can be stays.
pub open spec fn held_more(held: Map<u64, usize>, h: u64) -> Map<u64, usize> {
    held.insert(
        h,
        if !held.contains_key(h) {
            1
        } else if held[h] < usize::MAX {
            (held[h] + 1) as usize
        } else {
            held[h]
        },
    )
}

/// The horizons once one snapshot is no longer in use.
pub open spec fn held_less(held: Map<u64, usize>, h: u64) -> Map<u64, usize> {
    if !held.contains_key(h) {
        held
    } else if held[h] > 1 {
        held.insert(h, (held[h] - 1) as usize)
    } else {
        held.remove(h)
    }
}

impl View for Horizons {
    type V = Map<u64, usize>;

    closed spec fn view(&self) -> Map<u64, usize> {
        self.held@
    }
}

impl Horizons {
    /// No snapshots.
    pub fn new() -> (r: Horizons)
        ensures
            r@ == Map::<u64, usize>::empty(),
    {
        Horizons { held: BTreeMap::new() }
    }

    /// One more snapshot is in use.
    pub fn hold(&mut self, horizon: u64)
        ensures
            final(self)@ == held_more(old(self)@, horizon),
    {
        let count: usize = match self.held.get(&horizon) {
            Some(n) => if *n < usize::MAX {
                *n + 1
            } else {
                *n
            },
            None => 1,
        };
        self.held.insert(horizon, count);
    }

    /// One snapshot with this horizon is no longer in use.
    pub fn release(&mut self, horizon: u64)
        ensures
            final(self)@ == held_less(old(self)@, horizon),
    {
        let count: usize = match self.held.get(&horizon) {
            Some(n) => *n,
            None => return,
        };
        if count > 1 {
            self.held.insert(horizon, count - 1);
        } else {
            self.held.remove(&horizon);
        }
    }

    /// The lowest horizon in use, or `u64::MAX` if there is none.
    pub fn lowest(&self) -> (r: u64)
        ensures
            is_lowest(self@, r),
    {
        let mut low: u64 = u64::MAX;
        let ghost mut seen: Seq<u64> = Seq::empty();
        for k in it: self.held.keys()
            invariant
                seen == it.seq().unref().take(it.index() as int),
                seen.len() == 0 ==> low == u64::MAX,
                seen.len() > 0 ==> seen.contains(low),
                forall|i: int| 0 <= i < seen.len() ==> low <= #[trigger] seen[i],
        {
            let ghost before = seen;
            let ghost was = low;
            if *k < low || low == u64::MAX {
                low = *k;
            }
            proof {
                seen = seen.push(*k);
                assert(seen[before.len() as int] == *k);
                if low == was && before.len() > 0 {
                    let j = choose|j: int| 0 <= j < before.len() && before[j] == low;
                    assert(seen[j] == low);
                }
                assert(seen =~= it.seq().unref().take(it.index() + 1));
            }
        }
        proof {
            assert(seen.to_set() =~= self@.dom()) by {
                let s = vstd::std_specs::iter::IteratorSpec::remaining(&self.held.keys()).unref();
                assert(s.take(s.len() as int) =~= s);
            }
            assert forall|k: u64| #[trigger] self@.contains_key(k) implies low <= k by {
                assert(seen.to_set().contains(k));
                let i = choose|i: int| 0 <= i < seen.len() && seen[i] == k;
                assert(low <= seen[i]);
            }
            if seen.len() > 0 {
                assert(seen.to_set().contains(low));
            } else {
                assert forall|k: u64| !#[trigger] self@.contains_key(k) by {
                    assert(!seen.to_set().contains(k));
                }
            }
        }
        low
    }
}

/// A snapshot that is taken is in use: its horizon is held, and nothing above it is the
/// lowest. What else is in use stays in use.
pub proof fn taken_is_in_use(held: Map<u64, usize>, h: u64, other: u64, lowest: u64)
    requires
        is_lowest(held_more(held, h), lowest),
    ensures
        held_more(held, h).contains_key(h),
        lowest <= h,
        held.contains_key(other) ==> held_more(held, h).contains_key(other) && lowest <= other,
        held_more(held, h).contains_key(other) ==> other == h || held.contains_key(other),
        other != h && held.contains_key(other) ==> held_more(held, h)[other] == held[other],
{
    assert(held_more(held, h).contains_key(h));
    if held.contains_key(other) {
        assert(held_more(held, h).contains_key(other));
    }
}

/// A snapshot that is released is no longer in use; the others are, one at the same
/// horizon among them. Nothing is held that nobody took.
pub proof fn released_is_not_in_use(held: Map<u64, usize>, h: u64, other: u64)
    requires
        held.contains_key(h) ==> 0 < held[h] < usize::MAX,
    ensures
        held_less(held_more(held, h), h) == held,
        other != h ==> held_less(held, h).contains_key(other) == held.contains_key(other),
        other != h && held.contains_key(other) ==> held_less(held, h)[other] == held[other],
        held.contains_key(h) && held[h] == 1 ==> !held_less(held, h).contains_key(h),
        held.contains_key(h) && held[h] > 1 ==> held_less(held, h).contains_key(h)
            && held_less(held, h)[h] == held[h] - 1,
{
    assert(held_less(held_more(held, h), h) =~= held);
}

} // verus!
