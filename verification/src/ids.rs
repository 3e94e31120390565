//! Table ids in ascending order.

use std::collections::BTreeSet;
use vstd::prelude::*;

verus! {

broadcast use vstd::std_specs::btree::group_btree_axioms;

/// Whether each id is smaller than the next.
pub open spec fn ascends(s: Seq<u64>) -> bool {
    forall|i: int, j: int| 0 <= i < j < s.len() ==> s[i] < s[j]
}

/// The ids of a set, in ascending order.
pub open spec fn in_order(set: Set<u64>) -> Seq<u64> {
    choose|s: Seq<u64>| ascends(s) && #[trigger] s.to_set() == set
}

/// There is only one way to put ids in ascending order.
pub proof fn order_is_unique(a: Seq<u64>, b: Seq<u64>)
    requires
        ascends(a),
        ascends(b),
        a.to_set() == b.to_set(),
    ensures
        a == b,
    decreases a.len(),
{
    if a.len() > 0 && b.len() > 0 {
        let x = a.last();
        let y = b.last();
        assert(a.to_set().contains(x) && b.to_set().contains(y));
        assert(b.contains(x) && a.contains(y));
        assert(x == y);
        let a1 = a.drop_last();
        let b1 = b.drop_last();
        assert(a1.to_set() =~= b1.to_set()) by {
            assert(a =~= a1.push(x));
            assert(b =~= b1.push(x));
            a1.lemma_push_to_set_commute(x);
            b1.lemma_push_to_set_commute(x);
            assert(!a1.to_set().contains(x));
            assert(!b1.to_set().contains(x));
            assert(a1.to_set() =~= a.to_set().remove(x));
            assert(b1.to_set() =~= b.to_set().remove(x));
        }
        order_is_unique(a1, b1);
        assert(a =~= a1.push(x));
        assert(b =~= b1.push(x));
    } else if a.len() > 0 {
        assert(a.to_set().contains(a[0]));
        assert(b.contains(a[0]));
    } else if b.len() > 0 {
        assert(b.to_set().contains(b[0]));
        assert(a.contains(b[0]));
    } else {
        assert(a =~= b);
    }
}

/// Whether no id is greater than the next.
pub open spec fn climbs(s: Seq<u64>) -> bool {
    forall|i: int, j: int| 0 <= i <= j < s.len() ==> s[i] <= s[j]
}

/// Put an id into its place among ids of which some may be the same.
pub fn insert_climbing(ids: &mut Vec<u64>, id: u64)
    requires
        climbs(old(ids)@),
    ensures
        climbs(final(ids)@),
        final(ids)@.to_multiset() == old(ids)@.to_multiset().insert(id),
{
    let ghost before = ids@;
    let mut at: usize = ids.len();
    while at > 0 && ids[at - 1] > id
        invariant
            ids@ == before,
            climbs(before),
            at <= before.len(),
            forall|i: int| at <= i < before.len() ==> before[i] > id,
        decreases at,
    {
        at -= 1;
    }
    ids.insert(at, id);
    proof {
        vstd::seq_lib::to_multiset_insert(before, at as int, id);
    }
}

/// Put an id into its place. One that is there already is not put in twice.
pub fn insert_ascending(ids: &mut Vec<u64>, id: u64)
    requires
        ascends(old(ids)@),
    ensures
        ascends(final(ids)@),
        final(ids)@.to_set() == old(ids)@.to_set().insert(id),
{
    let ghost before = ids@;
    let mut at: usize = ids.len();
    while at > 0 && ids[at - 1] > id
        invariant
            ids@ == before,
            ascends(before),
            at <= before.len(),
            forall|i: int| at <= i < before.len() ==> before[i] > id,
        decreases at,
    {
        at -= 1;
    }
    if at > 0 && ids[at - 1] == id {
        assert(before[at - 1] == id);
        assert(before.to_set().insert(id) =~= before.to_set());
        return;
    }
    ids.insert(at, id);
    proof {
        let after = ids@;
        assert forall|x: u64| after.to_set().contains(x) <==> before.to_set().insert(id).contains(
            x,
        ) by {
            if before.contains(x) {
                let i = choose|i: int| 0 <= i < before.len() && before[i] == x;
                assert(after[if i < at {
                    i
                } else {
                    i + 1
                }] == x);
            }
            if x == id {
                assert(after[at as int] == x);
            }
            if after.contains(x) {
                let i = choose|i: int| 0 <= i < after.len() && after[i] == x;
                if i < at {
                    assert(before[i] == x);
                } else if i > at {
                    assert(before[i - 1] == x);
                }
            }
        }
        assert(after.to_set() =~= before.to_set().insert(id));
    }
}

/// The ids of a set, in ascending order.
pub fn ascending(set: &BTreeSet<u64>) -> (r: Vec<u64>)
    ensures
        ascends(r@),
        r@.to_set() == set@,
        r@ == in_order(set@),
{
    let mut out: Vec<u64> = Vec::new();
    proof {
        assert(out@.to_set() =~= Set::<u64>::empty());
    }
    for x in it: set.iter()
        invariant
            ascends(out@),
            out@.to_set() == it.seq().unref().take(it.index() as int).to_set(),
    {
        proof {
            let s = it.seq().unref();
            let i = it.index() as int;
            assert(s.take(i + 1) =~= s.take(i).push(s[i]));
            s.take(i).lemma_push_to_set_commute(s[i]);
        }
        insert_ascending(&mut out, *x);
    }
    proof {
        let s = vstd::std_specs::iter::IteratorSpec::remaining(&set.iter()).unref();
        assert(s.take(s.len() as int) =~= s);
        order_is_unique(out@, in_order(set@));
    }
    out
}

} // verus!
