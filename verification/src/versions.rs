//! Versions: the order in which records are kept, and which one a reader sees.
//!
//! Everywhere in the engine records stand in the same order: by key, and for
//! one key the newest version first. A reader looks with a horizon and sees,
//! of the versions below it, the one that stands first.

use vstd::prelude::*;

use crate::bytes;
use crate::bytes::Order;
use crate::record;
use crate::record::{Record, RecordView};

verus! {

/// `a` stands before `b`: its key does, or it is a newer version of the same
/// key.
pub open spec fn precedes(a: RecordView, b: RecordView) -> bool {
    bytes::lex_lt(a.key, b.key) || (a.key == b.key && a.seq > b.seq)
}

/// Records in order, no version twice.
pub open spec fn sorted(s: Seq<RecordView>) -> bool {
    forall|i: int, j: int| 0 <= i < j < s.len() ==> precedes(#[trigger] s[i], #[trigger] s[j])
}

/// Records in order of their keys.
pub open spec fn key_sorted(s: Seq<RecordView>) -> bool {
    forall|i: int, j: int|
        0 <= i < j < s.len() ==> bytes::lex_le((#[trigger] s[i]).key, (#[trigger] s[j]).key)
}

/// Whether a reader who looks for `key` below `bound` can see this record.
pub open spec fn visible(r: RecordView, key: Seq<u8>, bound: u64) -> bool {
    r.key == key && r.seq < bound
}

/// The record that a reader sees: the first that is visible.
pub open spec fn first_visible(s: Seq<RecordView>, key: Seq<u8>, bound: u64) -> Option<RecordView>
    decreases s.len(),
{
    if s.len() == 0 {
        None
    } else if visible(s[0], key, bound) {
        Some(s[0])
    } else {
        first_visible(s.drop_first(), key, bound)
    }
}

/// The record of a key that stands first. In sorted records that is the newest.
pub open spec fn newest(s: Seq<RecordView>, key: Seq<u8>) -> Option<RecordView>
    decreases s.len(),
{
    if s.len() == 0 {
        None
    } else if s[0].key == key {
        Some(s[0])
    } else {
        newest(s.drop_first(), key)
    }
}

/// The value that a reader gets: none where there is no record, or where the
/// record is a tombstone.
pub open spec fn value_of(r: Option<RecordView>) -> Option<Seq<u8>> {
    match r {
        Some(r) => r.value,
        None => None,
    }
}

// -------------------------------------------------------------------- laws
/// In order implies in order of the keys.
pub proof fn sorted_by_key(s: Seq<RecordView>)
    requires
        sorted(s),
    ensures
        key_sorted(s),
{
}

/// The order is transitive.
pub proof fn precedes_transitive(a: RecordView, b: RecordView, c: RecordView)
    requires
        precedes(a, b),
        precedes(b, c),
    ensures
        precedes(a, c),
{
    if bytes::lex_lt(a.key, b.key) && bytes::lex_lt(b.key, c.key) {
        bytes::lex_transitive(a.key, b.key, c.key);
    }
}

/// Of two records one stands before the other unless they are the same version
/// of the same key; both ways round is impossible.
pub proof fn precedes_total(a: RecordView, b: RecordView)
    ensures
        precedes(a, b) || precedes(b, a) || (a.key == b.key && a.seq == b.seq),
        !(precedes(a, b) && precedes(b, a)),
        precedes(a, b) ==> !(a.key == b.key && a.seq == b.seq),
{
    bytes::lex_total(a.key, b.key);
}

/// A reader who sees a record sees one that is there and visible, and nothing
/// visible stands before it. A reader who sees none: nothing is visible.
pub proof fn first_visible_is_first(s: Seq<RecordView>, key: Seq<u8>, bound: u64)
    ensures
        match first_visible(s, key, bound) {
            Some(r) => exists|i: int|
                0 <= i < s.len() && #[trigger] s[i] == r && visible(r, key, bound) && forall|j: int|
                    0 <= j < i ==> !visible(#[trigger] s[j], key, bound),
            None => forall|j: int| 0 <= j < s.len() ==> !visible(#[trigger] s[j], key, bound),
        },
    decreases s.len(),
{
    if s.len() > 0 && !visible(s[0], key, bound) {
        let t = s.drop_first();
        first_visible_is_first(t, key, bound);
        assert forall|j: int| 0 < j < s.len() implies s[j] == t[j - 1] by {}
        match first_visible(t, key, bound) {
            Some(r) => {
                let i = choose|i: int|
                    0 <= i < t.len() && #[trigger] t[i] == r && visible(r, key, bound)
                        && forall|j: int| 0 <= j < i ==> !visible(#[trigger] t[j], key, bound);
                assert(s[i + 1] == r);
                assert forall|j: int| 0 <= j < i + 1 implies !visible(
                    #[trigger] s[j],
                    key,
                    bound,
                ) by {
                    if j > 0 {
                        assert(s[j] == t[j - 1]);
                    }
                }
            },
            None => {
                assert forall|j: int| 0 <= j < s.len() implies !visible(
                    #[trigger] s[j],
                    key,
                    bound,
                ) by {
                    if j > 0 {
                        assert(s[j] == t[j - 1]);
                    }
                }
            },
        }
    } else if s.len() > 0 {
        assert(s[0] == s[0]);
    }
}

/// Where nothing visible stands before position `i`, and what stands there is
/// visible, that is what a reader sees.
pub proof fn first_visible_at(s: Seq<RecordView>, key: Seq<u8>, bound: u64, i: int)
    requires
        0 <= i < s.len(),
        visible(s[i], key, bound),
        forall|j: int| 0 <= j < i ==> !visible(#[trigger] s[j], key, bound),
    ensures
        first_visible(s, key, bound) == Some(s[i]),
    decreases s.len(),
{
    if i > 0 {
        assert(!visible(s[0], key, bound));
        let t = s.drop_first();
        assert forall|j: int| 0 <= j < i - 1 implies !visible(#[trigger] t[j], key, bound) by {
            assert(t[j] == s[j + 1]);
        }
        first_visible_at(t, key, bound, i - 1);
    }
}

/// Where nothing is visible, a reader sees nothing.
pub proof fn first_visible_none(s: Seq<RecordView>, key: Seq<u8>, bound: u64)
    requires
        forall|j: int| 0 <= j < s.len() ==> !visible(#[trigger] s[j], key, bound),
    ensures
        first_visible(s, key, bound) is None,
    decreases s.len(),
{
    if s.len() > 0 {
        assert(!visible(s[0], key, bound));
        let t = s.drop_first();
        assert forall|j: int| 0 <= j < t.len() implies !visible(#[trigger] t[j], key, bound) by {
            assert(t[j] == s[j + 1]);
        }
        first_visible_none(t, key, bound);
    }
}

/// Where a record of a key stands at position `i` and none before it, that is
/// the first.
pub proof fn newest_at(s: Seq<RecordView>, key: Seq<u8>, i: int)
    requires
        0 <= i < s.len(),
        s[i].key == key,
        forall|j: int| 0 <= j < i ==> (#[trigger] s[j]).key != key,
    ensures
        newest(s, key) == Some(s[i]),
    decreases s.len(),
{
    if i > 0 {
        assert(s[0].key != key);
        let t = s.drop_first();
        assert forall|j: int| 0 <= j < i - 1 implies (#[trigger] t[j]).key != key by {
            assert(t[j] == s[j + 1]);
        }
        newest_at(t, key, i - 1);
    }
}

/// Where there is no record of a key, there is no first.
pub proof fn newest_none(s: Seq<RecordView>, key: Seq<u8>)
    requires
        forall|j: int| 0 <= j < s.len() ==> (#[trigger] s[j]).key != key,
    ensures
        newest(s, key) is None,
    decreases s.len(),
{
    if s.len() > 0 {
        assert(s[0].key != key);
        let t = s.drop_first();
        assert forall|j: int| 0 <= j < t.len() implies (#[trigger] t[j]).key != key by {
            assert(t[j] == s[j + 1]);
        }
        newest_none(t, key);
    }
}

/// The first record of a key in two runs of records stands in the first run, if
/// there is one there.
pub proof fn newest_concat(a: Seq<RecordView>, b: Seq<RecordView>, key: Seq<u8>)
    ensures
        newest(a + b, key) == match newest(a, key) {
            Some(r) => Some(r),
            None => newest(b, key),
        },
    decreases a.len(),
{
    if a.len() == 0 {
        assert(a + b =~= b);
    } else {
        assert((a + b)[0] == a[0]);
        assert((a + b).drop_first() =~= a.drop_first() + b);
        newest_concat(a.drop_first(), b, key);
    }
}

/// In sorted records, the first record of a key is the newest: no other has a
/// higher sequence number.
pub proof fn first_is_highest(s: Seq<RecordView>, key: Seq<u8>, i: int)
    requires
        sorted(s),
        0 <= i < s.len(),
        s[i].key == key,
    ensures
        newest(s, key) matches Some(r) && r.key == key && s.contains(r) && s[i].seq <= r.seq,
    decreases s.len(),
{
    if s[0].key == key {
        if i > 0 {
            assert(precedes(s[0], s[i]));
            bytes::lex_irreflexive(key);
        }
        assert(s.contains(s[0]));
    } else {
        let t = s.drop_first();
        assert forall|a: int, b: int| 0 <= a < b < t.len() implies precedes(
            #[trigger] t[a],
            #[trigger] t[b],
        ) by {
            assert(t[a] == s[a + 1] && t[b] == s[b + 1]);
        }
        assert(t[i - 1] == s[i]);
        first_is_highest(t, key, i - 1);
        let r = newest(t, key)->0;
        let k = choose|k: int| 0 <= k < t.len() && t[k] == r;
        assert(s[k + 1] == r);
    }
}

/// Of two runs of records, a reader looks through the first and then through
/// the second.
pub proof fn first_visible_concat(
    a: Seq<RecordView>,
    b: Seq<RecordView>,
    key: Seq<u8>,
    bound: u64,
)
    ensures
        first_visible(a + b, key, bound) == match first_visible(a, key, bound) {
            Some(r) => Some(r),
            None => first_visible(b, key, bound),
        },
    decreases a.len(),
{
    if a.len() == 0 {
        assert(a + b =~= b);
    } else {
        assert((a + b)[0] == a[0]);
        assert((a + b).drop_first() =~= a.drop_first() + b);
        first_visible_concat(a.drop_first(), b, key, bound);
    }
}

/// In sorted records a reader sees the newest version below the horizon.
pub proof fn newest_is_seen(s: Seq<RecordView>, key: Seq<u8>, bound: u64)
    requires
        sorted(s),
    ensures
        match first_visible(s, key, bound) {
            Some(r) => s.contains(r) && visible(r, key, bound) && forall|i: int|
                0 <= i < s.len() && visible(#[trigger] s[i], key, bound) ==> s[i].seq <= r.seq,
            None => forall|i: int| 0 <= i < s.len() ==> !visible(#[trigger] s[i], key, bound),
        },
{
    first_visible_is_first(s, key, bound);
    if let Some(r) = first_visible(s, key, bound) {
        let at = choose|i: int|
            0 <= i < s.len() && #[trigger] s[i] == r && visible(r, key, bound) && forall|j: int|
                0 <= j < i ==> !visible(#[trigger] s[j], key, bound);
        assert forall|i: int| 0 <= i < s.len() && visible(#[trigger] s[i], key, bound) implies s[i].seq
            <= r.seq by {
            if i > at {
                assert(precedes(s[at], s[i]));
                bytes::lex_irreflexive(key);
            }
        }
    }
}

// ------------------------------------------------------------------ search
/// Whether a record stands before the versions of `key` below `floor`.
pub open spec fn passed(r: RecordView, key: Seq<u8>, floor: nat) -> bool {
    bytes::lex_lt(r.key, key) || (r.key == key && r.seq >= floor)
}

/// In sorted records, what stands before a record that is passed is passed.
proof fn passed_downwards(s: Seq<RecordView>, key: Seq<u8>, floor: nat, i: int, j: int)
    requires
        sorted(s),
        0 <= i < j < s.len(),
        passed(s[j], key, floor),
    ensures
        passed(s[i], key, floor),
{
    assert(precedes(s[i], s[j]));
    if bytes::lex_lt(s[i].key, s[j].key) && bytes::lex_lt(s[j].key, key) {
        bytes::lex_transitive(s[i].key, s[j].key, key);
    }
}

/// Where the versions of `key` below `floor` start in sorted records, or would.
pub fn seek(records: &[Record], key: &[u8], floor: u128) -> (r: usize)
    requires
        sorted(record::views(records@)),
    ensures
        r <= records@.len(),
        forall|i: int|
            0 <= i < r ==> passed(#[trigger] record::views(records@)[i], key@, floor as nat),
        forall|i: int|
            r <= i < records@.len() ==> !passed(
                #[trigger] record::views(records@)[i],
                key@,
                floor as nat,
            ),
{
    let ghost s = record::views(records@);
    let mut lo: usize = 0;
    let mut hi: usize = records.len();
    while lo < hi
        invariant
            s == record::views(records@),
            sorted(s),
            lo <= hi <= records@.len(),
            forall|i: int| 0 <= i < lo ==> passed(#[trigger] s[i], key@, floor as nat),
            forall|i: int| hi <= i < s.len() ==> !passed(#[trigger] s[i], key@, floor as nat),
        decreases hi - lo,
    {
        let mid: usize = lo + (hi - lo) / 2;
        let at = &records[mid];
        proof {
            assert(s[mid as int] == at@);
            bytes::lex_total(at@.key, key@);
        }
        let is_passed = match bytes::order(at.key.as_slice(), key) {
            Order::Less => true,
            Order::Equal => at.seq as u128 >= floor,
            Order::Greater => false,
        };
        assert(is_passed == passed(s[mid as int], key@, floor as nat));
        if is_passed {
            proof {
                assert forall|i: int| 0 <= i < mid + 1 implies passed(
                    #[trigger] s[i],
                    key@,
                    floor as nat,
                ) by {
                    if i < mid {
                        passed_downwards(s, key@, floor as nat, i, mid as int);
                    }
                }
            }
            lo = mid + 1;
        } else {
            proof {
                assert forall|i: int| mid <= i < s.len() implies !passed(
                    #[trigger] s[i],
                    key@,
                    floor as nat,
                ) by {
                    if i > mid && passed(s[i], key@, floor as nat) {
                        passed_downwards(s, key@, floor as nat, mid as int, i);
                    }
                }
            }
            hi = mid;
        }
    }
    lo
}

} // verus!
