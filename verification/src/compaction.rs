//! Size-tiered compaction: a run of tables becomes one.
//!
//! The inputs are neighbours in id order, the oldest first, and the output takes
//! the place of the newest, so that every other table stays older or newer than
//! it. Of the versions of a key, the newest input's come first. Every version
//! that a live snapshot can see is kept; below the lowest snapshot only the
//! newest version is.

use std::collections::VecDeque;
use vstd::prelude::*;

use crate::bytes;
use crate::disk;
use crate::disk::{Change, Disk, Holder, Volume};
use crate::error::{ErrorView, Result};
use crate::fs;
use crate::fs::Fs;
use crate::record;
use crate::record::{Record, RecordView};
use crate::sstable;
use crate::sstable::{SsTableReader, SsTableWriter};
use crate::versions;

verus! {

// ------------------------------------------------------------------- merge
/// Two runs of records merged by key. Where the keys are the same, `a` goes
/// first.
pub open spec fn merged(a: Seq<RecordView>, b: Seq<RecordView>) -> Seq<RecordView>
    decreases a.len() + b.len(),
{
    if a.len() == 0 {
        b
    } else if b.len() == 0 {
        a
    } else if bytes::lex_lt(b[0].key, a[0].key) {
        seq![b[0]] + merged(a, b.drop_first())
    } else {
        seq![a[0]] + merged(a.drop_first(), b)
    }
}

/// The inputs, which stand oldest first, merged by key with the newest input
/// going first.
pub open spec fn merged_all(inputs: Seq<Seq<RecordView>>) -> Seq<RecordView>
    decreases inputs.len(),
{
    if inputs.len() == 0 {
        Seq::empty()
    } else {
        merged(inputs.last(), merged_all(inputs.drop_last()))
    }
}

/// The inputs one behind the other, the newest first: the order in which a
/// reader looks through tables.
pub open spec fn newest_first(inputs: Seq<Seq<RecordView>>) -> Seq<RecordView>
    decreases inputs.len(),
{
    if inputs.len() == 0 {
        Seq::empty()
    } else {
        inputs.last() + newest_first(inputs.drop_last())
    }
}

/// The versions of a key, as they stand.
pub open spec fn of_key(s: Seq<RecordView>, key: Seq<u8>) -> Seq<RecordView>
    decreases s.len(),
{
    if s.len() == 0 {
        Seq::empty()
    } else if s.last().key == key {
        of_key(s.drop_last(), key).push(s.last())
    } else {
        of_key(s.drop_last(), key)
    }
}

// ------------------------------------------------------------------- prune
/// Whether a version joins the chain of the versions of its key: nothing below
/// the horizon is in the chain yet, and the version is older than the last.
pub open spec fn joins(chain: Seq<RecordView>, r: RecordView, horizon: u64) -> bool {
    chain.len() == 0 || (chain.last().seq >= horizon && r.seq < chain.last().seq)
}

/// The versions of one key that some reader at or above the horizon can see:
/// ever older ones, up to the first below the horizon.
pub open spec fn chain_of(versions: Seq<RecordView>, horizon: u64) -> Seq<RecordView>
    decreases versions.len(),
{
    if versions.len() == 0 {
        Seq::empty()
    } else {
        let chain = chain_of(versions.drop_last(), horizon);
        if joins(chain, versions.last(), horizon) {
            chain.push(versions.last())
        } else {
            chain
        }
    }
}

/// Whether a record is a delete that no reader can tell from nothing: nothing
/// older is left for it to hide.
pub open spec fn droppable(r: RecordView, horizon: u64, drop_tombstones: bool) -> bool {
    drop_tombstones && r.seq < horizon && r.value is None
}

/// What is left of merged records.
pub open spec fn pruned(
    s: Seq<RecordView>,
    horizon: u64,
    drop_tombstones: bool,
) -> Seq<RecordView>
    decreases s.len(),
{
    if s.len() == 0 {
        Seq::empty()
    } else {
        let r = s.last();
        let rest = pruned(s.drop_last(), horizon, drop_tombstones);
        if joins(chain_of(of_key(s.drop_last(), r.key), horizon), r, horizon) && !droppable(
            r,
            horizon,
            drop_tombstones,
        ) {
            rest.push(r)
        } else {
            rest
        }
    }
}

/// What a compaction of these inputs leaves.
pub open spec fn compacted(
    inputs: Seq<Seq<RecordView>>,
    horizon: u64,
    drop_tombstones: bool,
) -> Seq<RecordView> {
    pruned(merged_all(inputs), horizon, drop_tombstones)
}

// ----------------------------------------------------------- laws of merge
proof fn of_key_push(s: Seq<RecordView>, r: RecordView, key: Seq<u8>)
    ensures
        of_key(s.push(r), key) == if r.key == key {
            of_key(s, key).push(r)
        } else {
            of_key(s, key)
        },
{
    assert(s.push(r).drop_last() =~= s);
}

proof fn of_key_concat(a: Seq<RecordView>, b: Seq<RecordView>, key: Seq<u8>)
    ensures
        of_key(a + b, key) == of_key(a, key) + of_key(b, key),
    decreases b.len(),
{
    if b.len() == 0 {
        assert(a + b =~= a);
        assert(of_key(a, key) + of_key(b, key) =~= of_key(a, key));
    } else {
        assert((a + b).drop_last() =~= a + b.drop_last());
        of_key_concat(a, b.drop_last(), key);
        assert(of_key(a + b, key) =~= of_key(a, key) + of_key(b, key));
    }
}

proof fn of_key_single(r: RecordView, key: Seq<u8>)
    ensures
        of_key(seq![r], key) == if r.key == key {
            seq![r]
        } else {
            Seq::empty()
        },
{
    reveal_with_fuel(of_key, 2);
    assert(seq![r].drop_last() =~= Seq::empty());
    assert(of_key(seq![r], key) =~= if r.key == key {
        seq![r]
    } else {
        Seq::empty()
    });
}

proof fn of_key_first(s: Seq<RecordView>, key: Seq<u8>)
    requires
        s.len() > 0,
    ensures
        of_key(s, key) == if s[0].key == key {
            seq![s[0]] + of_key(s.drop_first(), key)
        } else {
            of_key(s.drop_first(), key)
        },
{
    of_key_concat(seq![s[0]], s.drop_first(), key);
    of_key_single(s[0], key);
    assert(seq![s[0]] + s.drop_first() =~= s);
    assert(Seq::<RecordView>::empty() + of_key(s.drop_first(), key) =~= of_key(
        s.drop_first(),
        key,
    ));
}

/// Where a key is not, it has no versions.
proof fn of_key_none(s: Seq<RecordView>, key: Seq<u8>)
    requires
        forall|i: int| 0 <= i < s.len() ==> (#[trigger] s[i]).key != key,
    ensures
        of_key(s, key) == Seq::<RecordView>::empty(),
    decreases s.len(),
{
    if s.len() > 0 {
        assert(s[s.len() - 1].key != key);
        let t = s.drop_last();
        assert forall|i: int| 0 <= i < t.len() implies (#[trigger] t[i]).key != key by {
            assert(t[i] == s[i]);
        }
        of_key_none(t, key);
    }
}

/// What a key's versions are: records with that key, in the order in which they
/// stand.
proof fn of_key_has(s: Seq<RecordView>, key: Seq<u8>, i: int)
    requires
        0 <= i < of_key(s, key).len(),
    ensures
        of_key(s, key)[i].key == key,
        s.contains(of_key(s, key)[i]),
    decreases s.len(),
{
    if s.len() > 0 {
        let t = s.drop_last();
        if i < of_key(t, key).len() {
            of_key_has(t, key, i);
            let x = of_key(t, key)[i];
            let j = choose|j: int| 0 <= j < t.len() && t[j] == x;
            assert(s[j] == x);
        } else {
            assert(s[s.len() - 1] == of_key(s, key)[i]);
        }
    }
}

proof fn key_sorted_rest(s: Seq<RecordView>)
    requires
        versions::key_sorted(s),
        s.len() > 0,
    ensures
        versions::key_sorted(s.drop_first()),
        forall|i: int| 0 <= i < s.len() ==> bytes::lex_le(s[0].key, (#[trigger] s[i]).key),
{
    let t = s.drop_first();
    assert forall|i: int, j: int| 0 <= i < j < t.len() implies bytes::lex_le(
        (#[trigger] t[i]).key,
        (#[trigger] t[j]).key,
    ) by {
        assert(t[i] == s[i + 1] && t[j] == s[j + 1]);
    }
    assert forall|i: int| 0 <= i < s.len() implies bytes::lex_le(
        s[0].key,
        (#[trigger] s[i]).key,
    ) by {
        if i > 0 {
            assert(bytes::lex_le(s[0].key, s[i].key));
        }
    }
}

proof fn lex_le_transitive(a: Seq<u8>, b: Seq<u8>, c: Seq<u8>)
    requires
        bytes::lex_le(a, b),
        bytes::lex_le(b, c),
    ensures
        bytes::lex_le(a, c),
{
    if a != b && b != c {
        bytes::lex_transitive(a, b, c);
    }
}

/// Every record of a merge comes from one of the two runs.
proof fn merged_has(a: Seq<RecordView>, b: Seq<RecordView>, i: int)
    requires
        0 <= i < merged(a, b).len(),
    ensures
        a.contains(merged(a, b)[i]) || b.contains(merged(a, b)[i]),
    decreases a.len() + b.len(),
{
    let m = merged(a, b);
    if a.len() == 0 {
        assert(b[i] == m[i]);
    } else if b.len() == 0 {
        assert(a[i] == m[i]);
    } else if bytes::lex_lt(b[0].key, a[0].key) {
        if i == 0 {
            assert(b[0] == m[0]);
        } else {
            merged_has(a, b.drop_first(), i - 1);
            if b.drop_first().contains(m[i]) {
                let j = choose|j: int| 0 <= j < b.drop_first().len() && b.drop_first()[j] == m[i];
                assert(b[j + 1] == m[i]);
            }
        }
    } else {
        if i == 0 {
            assert(a[0] == m[0]);
        } else {
            merged_has(a.drop_first(), b, i - 1);
            if a.drop_first().contains(m[i]) {
                let j = choose|j: int| 0 <= j < a.drop_first().len() && a.drop_first()[j] == m[i];
                assert(a[j + 1] == m[i]);
            }
        }
    }
}

/// Merged runs in order of their keys are in order of their keys, and each key
/// has the versions of the first run and then those of the second.
proof fn merged_law(a: Seq<RecordView>, b: Seq<RecordView>, key: Seq<u8>)
    requires
        versions::key_sorted(a),
        versions::key_sorted(b),
    ensures
        versions::key_sorted(merged(a, b)),
        of_key(merged(a, b), key) == of_key(a, key) + of_key(b, key),
    decreases a.len() + b.len(),
{
    let m = merged(a, b);
    if a.len() == 0 {
        assert(of_key(a, key) + of_key(b, key) =~= of_key(b, key));
    } else if b.len() == 0 {
        assert(of_key(a, key) + of_key(b, key) =~= of_key(a, key));
    } else {
        key_sorted_rest(a);
        key_sorted_rest(b);
        let from_b = bytes::lex_lt(b[0].key, a[0].key);
        let (a1, b1) = if from_b {
            (a, b.drop_first())
        } else {
            (a.drop_first(), b)
        };
        let head = if from_b {
            b[0]
        } else {
            a[0]
        };
        let rest = merged(a1, b1);
        merged_law(a1, b1, key);
        bytes::lex_total(a[0].key, b[0].key);
        assert(m =~= seq![head] + rest);
        assert forall|i: int, j: int| 0 <= i < j < m.len() implies bytes::lex_le(
            (#[trigger] m[i]).key,
            (#[trigger] m[j]).key,
        ) by {
            assert(m[j] == rest[j - 1]);
            if i > 0 {
                assert(m[i] == rest[i - 1]);
            } else {
                merged_has(a1, b1, j - 1);
                if a1.contains(m[j]) {
                    let x = choose|x: int| 0 <= x < a1.len() && a1[x] == m[j];
                    assert(a[if from_b {
                        x
                    } else {
                        x + 1
                    }] == m[j]);
                    lex_le_transitive(head.key, a[0].key, m[j].key);
                } else {
                    let x = choose|x: int| 0 <= x < b1.len() && b1[x] == m[j];
                    assert(b[if from_b {
                        x + 1
                    } else {
                        x
                    }] == m[j]);
                    lex_le_transitive(head.key, b[0].key, m[j].key);
                }
            }
        }
        of_key_first(m, key);
        assert(m.drop_first() =~= rest);
        if from_b {
            of_key_first(b, key);
            if b[0].key == key {
                assert forall|i: int| 0 <= i < a.len() implies (#[trigger] a[i]).key != key by {
                    lex_le_transitive(a[0].key, a[0].key, a[i].key);
                    if a[i].key == key {
                        bytes::lex_total(a[0].key, b[0].key);
                    }
                }
                of_key_none(a, key);
                assert(seq![b[0]] + (Seq::<RecordView>::empty() + of_key(b1, key)) =~= Seq::<
                    RecordView,
                >::empty() + (seq![b[0]] + of_key(b1, key)));
            }
        } else {
            of_key_first(a, key);
            if a[0].key == key {
                assert(seq![a[0]] + (of_key(a1, key) + of_key(b, key)) =~= (seq![a[0]] + of_key(
                    a1,
                    key,
                )) + of_key(b, key));
            }
        }
    }
}

/// The inputs merged are in order of their keys, and each key has its versions
/// in the order in which a reader would find them.
pub proof fn merge_law(inputs: Seq<Seq<RecordView>>, key: Seq<u8>)
    requires
        forall|i: int| 0 <= i < inputs.len() ==> versions::key_sorted(#[trigger] inputs[i]),
    ensures
        versions::key_sorted(merged_all(inputs)),
        of_key(merged_all(inputs), key) == of_key(newest_first(inputs), key),
    decreases inputs.len(),
{
    if inputs.len() > 0 {
        let older = inputs.drop_last();
        assert forall|i: int| 0 <= i < older.len() implies versions::key_sorted(
            #[trigger] older[i],
        ) by {
            assert(older[i] == inputs[i]);
        }
        merge_law(older, key);
        merged_law(inputs.last(), merged_all(older), key);
        of_key_concat(inputs.last(), newest_first(older), key);
    }
}

// ----------------------------------------------------------- laws of prune
/// A chain without its last version, if that is a delete that can go.
pub open spec fn trimmed(
    chain: Seq<RecordView>,
    horizon: u64,
    drop_tombstones: bool,
) -> Seq<RecordView> {
    if chain.len() > 0 && droppable(chain.last(), horizon, drop_tombstones) {
        chain.drop_last()
    } else {
        chain
    }
}

/// What is left of a key is its chain, without a delete at the end that can go.
pub proof fn pruned_by_key(
    s: Seq<RecordView>,
    horizon: u64,
    drop_tombstones: bool,
    key: Seq<u8>,
)
    ensures
        of_key(pruned(s, horizon, drop_tombstones), key) == trimmed(
            chain_of(of_key(s, key), horizon),
            horizon,
            drop_tombstones,
        ),
    decreases s.len(),
{
    if s.len() > 0 {
        let t = s.drop_last();
        let r = s.last();
        pruned_by_key(t, horizon, drop_tombstones, key);
        let rest = pruned(t, horizon, drop_tombstones);
        of_key_push(rest, r, key);
        let chain = chain_of(of_key(t, key), horizon);
        if r.key == key {
            assert(of_key(t, key).push(r).drop_last() =~= of_key(t, key));
            if joins(chain, r, horizon) {
                assert(trimmed(chain, horizon, drop_tombstones) == chain);
                assert(chain.push(r).drop_last() =~= chain);
            }
        }
    }
}

/// A chain holds ever older versions, all of them from the versions it was made
/// of.
proof fn chain_descends(vs: Seq<RecordView>, horizon: u64)
    ensures
        ({
            let c = chain_of(vs, horizon);
            &&& forall|i: int, j: int|
                0 <= i < j < c.len() ==> (#[trigger] c[i]).seq > (#[trigger] c[j]).seq
            &&& forall|i: int| 0 <= i < c.len() ==> vs.contains(#[trigger] c[i])
        }),
    decreases vs.len(),
{
    if vs.len() > 0 {
        let t = vs.drop_last();
        chain_descends(t, horizon);
        let c = chain_of(t, horizon);
        let d = chain_of(vs, horizon);
        assert forall|i: int| 0 <= i < c.len() implies vs.contains(#[trigger] c[i]) by {
            let j = choose|j: int| 0 <= j < t.len() && t[j] == c[i];
            assert(vs[j] == c[i]);
        }
        assert(vs[vs.len() - 1] == vs.last());
        if joins(c, vs.last(), horizon) {
            assert forall|i: int, j: int| 0 <= i < j < d.len() implies (#[trigger] d[i]).seq > (
            #[trigger] d[j]).seq by {
                assert(d[i] == c[i]);
                if j == c.len() {
                    if i < c.len() - 1 {
                        assert(c[i].seq > c[c.len() - 1].seq);
                    }
                } else {
                    assert(d[j] == c[j]);
                }
            }
        }
    }
}

/// What is left comes from the records.
proof fn pruned_has(s: Seq<RecordView>, horizon: u64, drop_tombstones: bool, i: int)
    requires
        0 <= i < pruned(s, horizon, drop_tombstones).len(),
    ensures
        s.contains(pruned(s, horizon, drop_tombstones)[i]),
    decreases s.len(),
{
    if s.len() > 0 {
        let t = s.drop_last();
        let rest = pruned(t, horizon, drop_tombstones);
        if i < rest.len() {
            pruned_has(t, horizon, drop_tombstones, i);
            let j = choose|j: int| 0 <= j < t.len() && t[j] == rest[i];
            assert(s[j] == rest[i]);
        } else {
            assert(s[s.len() - 1] == s.last());
        }
    }
}

/// A version that is left is one of the versions of its key that are left.
proof fn in_of_key(s: Seq<RecordView>, i: int)
    requires
        0 <= i < s.len(),
    ensures
        of_key(s, s[i].key).contains(s[i]),
    decreases s.len(),
{
    let key = s[i].key;
    if i == s.len() - 1 {
        let o = of_key(s, key);
        assert(o[o.len() - 1] == s[i]);
    } else {
        let t = s.drop_last();
        assert(t[i] == s[i]);
        in_of_key(t, i);
        let o = of_key(t, key);
        let j = choose|j: int| 0 <= j < o.len() && o[j] == s[i];
        assert(of_key(s, key)[j] == s[i]);
    }
}

/// What is left of records in order of their keys is in order, no version
/// twice.
pub proof fn pruned_sorted(s: Seq<RecordView>, horizon: u64, drop_tombstones: bool)
    requires
        versions::key_sorted(s),
    ensures
        versions::sorted(pruned(s, horizon, drop_tombstones)),
    decreases s.len(),
{
    if s.len() > 0 {
        let t = s.drop_last();
        let r = s.last();
        let rest = pruned(t, horizon, drop_tombstones);
        let all = pruned(s, horizon, drop_tombstones);
        assert forall|i: int, j: int| 0 <= i < j < t.len() implies bytes::lex_le(
            (#[trigger] t[i]).key,
            (#[trigger] t[j]).key,
        ) by {
            assert(t[i] == s[i] && t[j] == s[j]);
        }
        pruned_sorted(t, horizon, drop_tombstones);
        let chain = chain_of(of_key(t, r.key), horizon);
        if joins(chain, r, horizon) && !droppable(r, horizon, drop_tombstones) {
            assert forall|i: int, j: int| 0 <= i < j < all.len() implies versions::precedes(
                #[trigger] all[i],
                #[trigger] all[j],
            ) by {
                if j < rest.len() {
                    assert(all[i] == rest[i] && all[j] == rest[j]);
                } else {
                    let x = rest[i];
                    assert(all[i] == x && all[j] == r);
                    pruned_has(t, horizon, drop_tombstones, i);
                    let p = choose|p: int| 0 <= p < t.len() && t[p] == x;
                    assert(s[p] == x);
                    assert(bytes::lex_le(s[p].key, s[s.len() - 1].key));
                    if x.key == r.key {
                        in_of_key(rest, i);
                        pruned_by_key(t, horizon, drop_tombstones, r.key);
                        chain_descends(of_key(t, r.key), horizon);
                        let left = trimmed(chain, horizon, drop_tombstones);
                        let q = choose|q: int| 0 <= q < left.len() && left[q] == x;
                        assert(chain[q] == x);
                        if q < chain.len() - 1 {
                            assert(chain[q].seq > chain[chain.len() - 1].seq);
                        }
                    }
                }
            }
        }
    }
}

/// A reader of a key sees what a reader of its versions sees.
proof fn seen_by_key(s: Seq<RecordView>, key: Seq<u8>, bound: u64)
    ensures
        versions::first_visible(s, key, bound) == versions::first_visible(
            of_key(s, key),
            key,
            bound,
        ),
    decreases s.len(),
{
    if s.len() > 0 {
        of_key_first(s, key);
        seen_by_key(s.drop_first(), key, bound);
        let o = of_key(s, key);
        if s[0].key == key {
            assert(o.drop_first() =~= of_key(s.drop_first(), key));
        }
    }
}

proof fn seen_push(s: Seq<RecordView>, r: RecordView, key: Seq<u8>, bound: u64)
    ensures
        versions::first_visible(s.push(r), key, bound) == match versions::first_visible(
            s,
            key,
            bound,
        ) {
            Some(x) => Some(x),
            None => if versions::visible(r, key, bound) {
                Some(r)
            } else {
                None
            },
        },
{
    assert(s.push(r) =~= s + seq![r]);
    versions::first_visible_concat(s, seq![r], key, bound);
    reveal_with_fuel(versions::first_visible, 2);
    assert(seq![r].drop_first() =~= Seq::empty());
}

/// A reader at or above the horizon sees in the chain what it sees in all
/// versions.
proof fn chain_is_seen(vs: Seq<RecordView>, horizon: u64, key: Seq<u8>, bound: u64)
    requires
        horizon <= bound,
        forall|i: int| 0 <= i < vs.len() ==> (#[trigger] vs[i]).key == key,
    ensures
        versions::first_visible(chain_of(vs, horizon), key, bound) == versions::first_visible(
            vs,
            key,
            bound,
        ),
    decreases vs.len(),
{
    if vs.len() > 0 {
        let t = vs.drop_last();
        let r = vs.last();
        assert forall|i: int| 0 <= i < t.len() implies (#[trigger] t[i]).key == key by {
            assert(t[i] == vs[i]);
        }
        chain_is_seen(t, horizon, key, bound);
        let c = chain_of(t, horizon);
        assert(t.push(r) =~= vs);
        seen_push(t, r, key, bound);
        seen_push(c, r, key, bound);
        if !joins(c, r, horizon) && versions::first_visible(c, key, bound) is None {
            versions::first_visible_is_first(c, key, bound);
            chain_descends(t, horizon);
            let last = c[c.len() - 1];
            assert(!versions::visible(last, key, bound));
            assert(t.contains(last));
            let j = choose|j: int| 0 <= j < t.len() && t[j] == last;
            assert(t[j].key == key);
        }
    }
}

/// A reader at or above the horizon gets the same value whether or not the
/// delete at the end of a chain is there.
proof fn trimmed_is_seen(
    chain: Seq<RecordView>,
    horizon: u64,
    drop_tombstones: bool,
    key: Seq<u8>,
    bound: u64,
)
    ensures
        versions::value_of(
            versions::first_visible(trimmed(chain, horizon, drop_tombstones), key, bound),
        ) == versions::value_of(versions::first_visible(chain, key, bound)),
        !drop_tombstones ==> versions::first_visible(
            trimmed(chain, horizon, drop_tombstones),
            key,
            bound,
        ) == versions::first_visible(chain, key, bound),
{
    if chain.len() > 0 && droppable(chain.last(), horizon, drop_tombstones) {
        let t = chain.drop_last();
        assert(t.push(chain.last()) =~= chain);
        seen_push(t, chain.last(), key, bound);
    }
}

/// A compaction changes nothing for a reader at or above the horizon: every key
/// has the value that it had. Where deletes are kept, even the record that is
/// seen is the same, so that whatever stands in older tables is hidden as it
/// was.
pub proof fn compaction_preserves(
    inputs: Seq<Seq<RecordView>>,
    horizon: u64,
    drop_tombstones: bool,
    key: Seq<u8>,
    bound: u64,
)
    requires
        forall|i: int| 0 <= i < inputs.len() ==> versions::key_sorted(#[trigger] inputs[i]),
        horizon <= bound,
    ensures
        versions::sorted(compacted(inputs, horizon, drop_tombstones)),
        versions::value_of(
            versions::first_visible(compacted(inputs, horizon, drop_tombstones), key, bound),
        ) == versions::value_of(versions::first_visible(newest_first(inputs), key, bound)),
        !drop_tombstones ==> versions::first_visible(
            compacted(inputs, horizon, drop_tombstones),
            key,
            bound,
        ) == versions::first_visible(newest_first(inputs), key, bound),
{
    let m = merged_all(inputs);
    let out = compacted(inputs, horizon, drop_tombstones);
    merge_law(inputs, key);
    pruned_sorted(m, horizon, drop_tombstones);
    seen_by_key(out, key, bound);
    seen_by_key(newest_first(inputs), key, bound);
    let vs = of_key(m, key);
    pruned_by_key(m, horizon, drop_tombstones, key);
    assert forall|i: int| 0 <= i < vs.len() implies (#[trigger] vs[i]).key == key by {
        of_key_has(m, key, i);
    }
    chain_is_seen(vs, horizon, key, bound);
    trimmed_is_seen(chain_of(vs, horizon), horizon, drop_tombstones, key, bound);
}

proof fn merged_all_has(inputs: Seq<Seq<RecordView>>, x: RecordView)
    requires
        merged_all(inputs).contains(x),
    ensures
        exists|i: int| 0 <= i < inputs.len() && (#[trigger] inputs[i]).contains(x),
    decreases inputs.len(),
{
    if inputs.len() > 0 {
        let rest = inputs.drop_last();
        let all = merged_all(inputs);
        let k = choose|k: int| 0 <= k < all.len() && all[k] == x;
        merged_has(inputs.last(), merged_all(rest), k);
        if inputs.last().contains(x) {
            assert(inputs[inputs.len() - 1].contains(x));
        } else {
            merged_all_has(rest, x);
            let i = choose|i: int| 0 <= i < rest.len() && (#[trigger] rest[i]).contains(x);
            assert(inputs[i].contains(x));
        }
    }
}

/// Compaction makes nothing up: what it keeps stands in one of its inputs.
pub proof fn compacted_has(
    inputs: Seq<Seq<RecordView>>,
    horizon: u64,
    drop_tombstones: bool,
    x: RecordView,
)
    requires
        compacted(inputs, horizon, drop_tombstones).contains(x),
    ensures
        exists|i: int| 0 <= i < inputs.len() && (#[trigger] inputs[i]).contains(x),
{
    let s = merged_all(inputs);
    let kept = pruned(s, horizon, drop_tombstones);
    let k = choose|k: int| 0 <= k < kept.len() && kept[k] == x;
    pruned_has(s, horizon, drop_tombstones, k);
    merged_all_has(inputs, x);
}

/// Only the last of a chain can be below the horizon.
proof fn chain_ends_below(vs: Seq<RecordView>, horizon: u64)
    ensures
        ({
            let c = chain_of(vs, horizon);
            forall|i: int| 0 <= i < c.len() - 1 ==> (#[trigger] c[i]).seq >= horizon
        }),
    decreases vs.len(),
{
    if vs.len() > 0 {
        let t = vs.drop_last();
        chain_ends_below(t, horizon);
        let c = chain_of(t, horizon);
        let d = chain_of(vs, horizon);
        assert forall|i: int| 0 <= i < d.len() - 1 implies (#[trigger] d[i]).seq >= horizon by {
            assert(d[i] == c[i]);
            if i == c.len() - 1 {
                assert(c.last() == c[i]);
            }
        }
    }
}

/// A compaction drops what nobody can see: of the versions of a key below the horizon
/// it leaves one at most, and where deletes can go, none that is a delete. What it leaves
/// was there before.
pub proof fn compaction_drops_what_nobody_sees(
    inputs: Seq<Seq<RecordView>>,
    horizon: u64,
    drop_tombstones: bool,
    x: RecordView,
    y: RecordView,
)
    requires
        compacted(inputs, horizon, drop_tombstones).contains(x),
        x.seq < horizon,
    ensures
        compacted(inputs, horizon, drop_tombstones).contains(y) && y.key == x.key && y.seq
            < horizon ==> y == x,
        drop_tombstones ==> x.value is Some,
        exists|i: int| 0 <= i < inputs.len() && (#[trigger] inputs[i]).contains(x),
{
    let m = merged_all(inputs);
    let out = compacted(inputs, horizon, drop_tombstones);
    let vs = of_key(m, x.key);
    let chain = chain_of(vs, horizon);
    compacted_has(inputs, horizon, drop_tombstones, x);
    pruned_by_key(m, horizon, drop_tombstones, x.key);
    chain_ends_below(vs, horizon);
    let left = of_key(out, x.key);
    let a = choose|a: int| 0 <= a < out.len() && out[a] == x;
    in_of_key(out, a);
    let i = choose|i: int| 0 <= i < left.len() && left[i] == x;
    assert(left[i] == chain[i]);
    if out.contains(y) && y.key == x.key && y.seq < horizon {
        let b = choose|b: int| 0 <= b < out.len() && out[b] == y;
        in_of_key(out, b);
        let j = choose|j: int| 0 <= j < left.len() && left[j] == y;
        assert(left[j] == chain[j]);
    }
}

// -------------------------------------------------------- laws of the layers
/// Whether the newer of these inputs, which stand oldest first, hold the newer
/// versions: a version in one of them is newer than every version of its key in
/// an older one, but for those that stand in both.
pub open spec fn layered(inputs: Seq<Seq<RecordView>>) -> bool {
    forall|a: int, b: int, x: RecordView, y: RecordView|
        0 <= a < b < inputs.len() && #[trigger] inputs[b].contains(x)
            && #[trigger] inputs[a].contains(y) && x.key == y.key ==> x.seq > y.seq
            || inputs[b].contains(y)
}

/// Whether versions stand in descending order, but for those that stood there
/// before.
#[verifier::opaque]
spec fn settled(vs: Seq<RecordView>) -> bool {
    forall|p: int, q: int|
        0 <= p < q < vs.len() ==> (#[trigger] vs[p]).seq > (#[trigger] vs[q]).seq || vs.take(
            p + 1,
        ).contains(vs[q])
}

proof fn settled_front(vs: Seq<RecordView>)
    requires
        settled(vs),
        vs.len() > 0,
    ensures
        settled(vs.drop_last()),
{
    reveal(settled);
    let t = vs.drop_last();
    assert forall|p: int, q: int| 0 <= p < q < t.len() implies (#[trigger] t[p]).seq > (
    #[trigger] t[q]).seq || t.take(p + 1).contains(t[q]) by {
        assert(t[p] == vs[p] && t[q] == vs[q]);
        assert(t.take(p + 1) =~= vs.take(p + 1));
    }
}

/// Where a version stood before, if it stands behind one that is not newer.
proof fn stood_before(vs: Seq<RecordView>, p: int, q: int) -> (o: int)
    requires
        settled(vs),
        0 <= p < q < vs.len(),
        vs[p].seq <= vs[q].seq,
    ensures
        0 <= o <= p,
        vs[o] == vs[q],
{
    reveal(settled);
    let front = vs.take(p + 1);
    assert(front.contains(vs[q]));
    choose|o: int| 0 <= o < front.len() && front[o] == vs[q]
}

/// As long as nothing below the horizon is in a chain, every version is.
proof fn open_chain_has_all(vs: Seq<RecordView>, horizon: u64, y: RecordView)
    requires
        settled(vs),
        vs.contains(y),
        chain_of(vs, horizon).len() > 0 ==> chain_of(vs, horizon).last().seq >= horizon,
    ensures
        chain_of(vs, horizon).contains(y),
    decreases vs.len(),
{
    if vs.len() > 0 {
        let t = vs.drop_last();
        let r = vs.last();
        let c = chain_of(t, horizon);
        let d = chain_of(vs, horizon);
        settled_front(vs);
        let k = choose|k: int| 0 <= k < vs.len() && vs[k] == y;
        if joins(c, r, horizon) {
            if k < t.len() {
                assert(t[k] == y);
                open_chain_has_all(t, horizon, y);
                let e = choose|e: int| 0 <= e < c.len() && c[e] == y;
                assert(d[e] == y);
            } else {
                assert(d[d.len() - 1] == y);
            }
        } else {
            if k == t.len() {
                chain_descends(t, horizon);
                let last = c[c.len() - 1];
                let p = choose|p: int| 0 <= p < t.len() && t[p] == last;
                let o = stood_before(vs, p, k);
                assert(t[o] == y);
            } else {
                assert(t[k] == y);
            }
            open_chain_has_all(t, horizon, y);
        }
    }
}

/// A chain that holds a version holds every newer one.
proof fn chain_has_newer(vs: Seq<RecordView>, horizon: u64, x: RecordView, y: RecordView)
    requires
        settled(vs),
        chain_of(vs, horizon).contains(x),
        vs.contains(y),
        y.seq > x.seq,
    ensures
        chain_of(vs, horizon).contains(y),
    decreases vs.len(),
{
    if vs.len() > 0 {
        let t = vs.drop_last();
        let r = vs.last();
        let c = chain_of(t, horizon);
        let d = chain_of(vs, horizon);
        settled_front(vs);
        chain_descends(t, horizon);
        let i = choose|i: int| 0 <= i < d.len() && d[i] == x;
        let k = choose|k: int| 0 <= k < vs.len() && vs[k] == y;
        if i < c.len() {
            assert(c[i] == x);
            let p = choose|p: int| 0 <= p < t.len() && t[p] == c[i];
            if k == t.len() {
                let o = stood_before(vs, p, k);
                assert(t[o] == y);
            } else {
                assert(t[k] == y);
            }
            chain_has_newer(t, horizon, x, y);
        } else {
            assert(x == r);
            assert(t[k] == y);
            open_chain_has_all(t, horizon, y);
        }
        let e = choose|e: int| 0 <= e < c.len() && c[e] == y;
        assert(d[e] == y);
    }
}

proof fn of_key_sorted(s: Seq<RecordView>, key: Seq<u8>)
    requires
        versions::sorted(s),
    ensures
        forall|i: int, j: int|
            0 <= i < j < of_key(s, key).len() ==> (#[trigger] of_key(s, key)[i]).seq > (
            #[trigger] of_key(s, key)[j]).seq,
    decreases s.len(),
{
    if s.len() > 0 {
        let t = s.drop_last();
        let o = of_key(t, key);
        assert forall|i: int, j: int| 0 <= i < j < t.len() implies versions::precedes(
            #[trigger] t[i],
            #[trigger] t[j],
        ) by {
            assert(t[i] == s[i] && t[j] == s[j]);
        }
        of_key_sorted(t, key);
        if s.last().key == key {
            assert forall|i: int| 0 <= i < o.len() implies (#[trigger] o[i]).seq
                > s.last().seq by {
                of_key_has(t, key, i);
                let k = choose|k: int| 0 <= k < t.len() && t[k] == o[i];
                assert(versions::precedes(s[k], s[s.len() - 1]));
                versions::precedes_total(s[k], s[s.len() - 1]);
            }
        }
    }
}

proof fn newest_first_has(inputs: Seq<Seq<RecordView>>, x: RecordView)
    ensures
        newest_first(inputs).contains(x) <==> exists|i: int|
            0 <= i < inputs.len() && (#[trigger] inputs[i]).contains(x),
    decreases inputs.len(),
{
    let all = newest_first(inputs);
    if inputs.len() > 0 {
        let rest = inputs.drop_last();
        let last = inputs.last();
        let below = newest_first(rest);
        newest_first_has(rest, x);
        if all.contains(x) {
            let k = choose|k: int| 0 <= k < all.len() && all[k] == x;
            if k < last.len() {
                assert(last[k] == x);
                assert(inputs[inputs.len() - 1].contains(x));
            } else {
                assert(below[k - last.len()] == x);
                let i = choose|i: int| 0 <= i < rest.len() && (#[trigger] rest[i]).contains(x);
                assert(inputs[i].contains(x));
            }
        }
        if exists|i: int| 0 <= i < inputs.len() && (#[trigger] inputs[i]).contains(x) {
            let i = choose|i: int| 0 <= i < inputs.len() && (#[trigger] inputs[i]).contains(x);
            if i < rest.len() {
                assert(rest[i].contains(x));
                let k = choose|k: int| 0 <= k < below.len() && below[k] == x;
                assert(all[last.len() + k] == x);
            } else {
                let k = choose|k: int| 0 <= k < last.len() && last[k] == x;
                assert(all[k] == x);
            }
        }
    }
}

proof fn layers_are_settled(inputs: Seq<Seq<RecordView>>, key: Seq<u8>)
    requires
        layered(inputs),
        forall|i: int| 0 <= i < inputs.len() ==> versions::sorted(#[trigger] inputs[i]),
    ensures
        settled(of_key(newest_first(inputs), key)),
    decreases inputs.len(),
{
    if inputs.len() == 0 {
        reveal(settled);
    } else {
        let rest = inputs.drop_last();
        let last = inputs.last();
        assert forall|i: int| 0 <= i < rest.len() implies versions::sorted(#[trigger] rest[i]) by {
            assert(rest[i] == inputs[i]);
        }
        assert(layered(rest)) by {
            assert forall|a: int, b: int, x: RecordView, y: RecordView|
                0 <= a < b < rest.len() && #[trigger] rest[b].contains(x)
                    && #[trigger] rest[a].contains(y) && x.key == y.key implies x.seq > y.seq
                || rest[b].contains(y) by {
                assert(inputs[b].contains(x) && inputs[a].contains(y));
            }
        }
        layers_are_settled(rest, key);
        let below = newest_first(rest);
        of_key_concat(last, below, key);
        assert(versions::sorted(inputs[inputs.len() - 1]));
        of_key_sorted(last, key);
        let top = of_key(last, key);
        let bottom = of_key(below, key);
        let vs = of_key(newest_first(inputs), key);
        assert(vs =~= top + bottom);
        reveal(settled);
        assert forall|p: int, q: int| 0 <= p < q < vs.len() implies (#[trigger] vs[p]).seq > (
        #[trigger] vs[q]).seq || vs.take(p + 1).contains(vs[q]) by {
            if q < top.len() {
                assert(top[p].seq > top[q].seq);
            } else if p < top.len() {
                let x = top[p];
                let y = bottom[q - top.len()];
                of_key_has(last, key, p);
                of_key_has(below, key, q - top.len());
                newest_first_has(rest, y);
                let g = choose|g: int| 0 <= g < rest.len() && (#[trigger] rest[g]).contains(y);
                assert(inputs[inputs.len() - 1].contains(x) && inputs[g].contains(y));
                if !(x.seq > y.seq) {
                    let i = choose|i: int| 0 <= i < last.len() && last[i] == y;
                    in_of_key(last, i);
                    let o = choose|o: int| 0 <= o < top.len() && top[o] == y;
                    if p < o {
                        assert(top[p].seq > top[o].seq);
                    }
                    assert(vs.take(p + 1)[o] == y);
                }
            } else {
                let e = p - top.len();
                let f = q - top.len();
                assert(bottom[e] == vs[p] && bottom[f] == vs[q]);
                if !(vs[p].seq > vs[q].seq) {
                    assert(bottom.take(e + 1).contains(bottom[f]));
                    let front = bottom.take(e + 1);
                    let o = choose|o: int| 0 <= o < front.len() && front[o] == bottom[f];
                    assert(vs.take(p + 1)[top.len() + o] == vs[q]);
                }
            }
        }
    }
}

/// A compaction of layers that keeps deletes and a version of a key keeps every
/// newer version of that key.
pub proof fn newer_is_kept(
    inputs: Seq<Seq<RecordView>>,
    horizon: u64,
    x: RecordView,
    y: RecordView,
    g: int,
)
    requires
        layered(inputs),
        forall|i: int| 0 <= i < inputs.len() ==> versions::sorted(#[trigger] inputs[i]),
        compacted(inputs, horizon, false).contains(x),
        0 <= g < inputs.len(),
        inputs[g].contains(y),
        x.key == y.key,
        x.seq < y.seq,
    ensures
        compacted(inputs, horizon, false).contains(y),
{
    let key = x.key;
    let m = merged_all(inputs);
    let out = compacted(inputs, horizon, false);
    let vs = of_key(m, key);
    let left = of_key(out, key);
    assert forall|i: int| 0 <= i < inputs.len() implies versions::key_sorted(
        #[trigger] inputs[i],
    ) by {
        versions::sorted_by_key(inputs[i]);
    }
    merge_law(inputs, key);
    layers_are_settled(inputs, key);
    pruned_by_key(m, horizon, false, key);
    let i = choose|i: int| 0 <= i < out.len() && out[i] == x;
    in_of_key(out, i);
    let all = newest_first(inputs);
    newest_first_has(inputs, y);
    let k = choose|k: int| 0 <= k < all.len() && all[k] == y;
    in_of_key(all, k);
    chain_has_newer(vs, horizon, x, y);
    let e = choose|e: int| 0 <= e < left.len() && left[e] == y;
    of_key_has(out, key, e);
}

// -------------------------------------------------------------- the engine
/// Records as a queue.
fn queue(mut records: Vec<Record>) -> (r: VecDeque<Record>)
    ensures
        record::views(r@) == record::views(records@),
{
    let ghost s = record::views(records@);
    let mut out: VecDeque<Record> = VecDeque::new();
    proof {
        assert(record::views(out@) =~= s.skip(s.len() as int));
        assert(s.take(s.len() as int) =~= s);
    }
    while records.len() > 0
        invariant
            records@.len() <= s.len(),
            record::views(records@) == s.take(records@.len() as int),
            record::views(out@) == s.skip(records@.len() as int),
        decreases records@.len(),
    {
        let ghost k = records@.len() - 1;
        if let Some(r) = records.pop() {
            let ghost had = record::views(out@);
            out.push_front(r);
            proof {
                assert(r@ == s.take(k + 1)[k]);
                assert(record::views(records@) =~= s.take(k));
                assert(record::views(out@) =~= seq![r@] + had);
                assert(s.skip(k) =~= seq![s[k]] + s.skip(k + 1));
            }
        }
    }
    assert(s.skip(0) =~= s);
    out
}

/// Merge two runs by key. Where the keys are the same, `a` goes first.
fn merge_two(mut a: VecDeque<Record>, mut b: VecDeque<Record>) -> (r: VecDeque<Record>)
    ensures
        record::views(r@) == merged(record::views(a@), record::views(b@)),
{
    let ghost whole = merged(record::views(a@), record::views(b@));
    let mut out: VecDeque<Record> = VecDeque::new();
    assert(record::views(out@) + whole =~= whole);
    while a.len() > 0 && b.len() > 0
        invariant
            record::views(out@) + merged(record::views(a@), record::views(b@)) == whole,
        decreases a@.len() + b@.len(),
    {
        let ghost va = record::views(a@);
        let ghost vb = record::views(b@);
        let ghost had = record::views(out@);
        assert(va[0] == a@[0]@ && vb[0] == b@[0]@);
        if bytes::less(b[0].key.as_slice(), a[0].key.as_slice()) {
            if let Some(r) = b.pop_front() {
                out.push_back(r);
                proof {
                    assert(record::views(b@) =~= vb.drop_first());
                    assert(record::views(out@) =~= had.push(r@));
                    assert(had + (seq![r@] + merged(va, vb.drop_first())) =~= had.push(r@)
                        + merged(va, vb.drop_first()));
                }
            }
        } else {
            if let Some(r) = a.pop_front() {
                out.push_back(r);
                proof {
                    assert(record::views(a@) =~= va.drop_first());
                    assert(record::views(out@) =~= had.push(r@));
                    assert(had + (seq![r@] + merged(va.drop_first(), vb)) =~= had.push(r@)
                        + merged(va.drop_first(), vb));
                }
            }
        }
    }
    let ghost had = record::views(out@);
    let ghost va = record::views(a@);
    let ghost vb = record::views(b@);
    let ghost out_was = out@;
    let ghost a_was = a@;
    let ghost b_was = b@;
    out.append(&mut a);
    out.append(&mut b);
    proof {
        assert(out@ =~= out_was + a_was + b_was);
        assert(record::views(out@) =~= had + va + vb);
        if va.len() == 0 {
            assert(had + va + vb =~= had + vb);
        } else {
            assert(had + va + vb =~= had + va);
        }
    }
    out
}

/// Keep what some reader at or above the horizon can see.
fn prune(mut queue: VecDeque<Record>, horizon: u64, drop_tombstones: bool) -> (r: Vec<Record>)
    ensures
        versions::key_sorted(record::views(queue@)) ==> record::views(r@) == pruned(
            record::views(queue@),
            horizon,
            drop_tombstones,
        ),
{
    let ghost s = record::views(queue@);
    let ghost mut n: int = 0;
    let mut out: Vec<Record> = Vec::new();
    // The key that was seen last, and the last sequence number in its chain.
    let mut last_key: Vec<u8> = Vec::new();
    let mut last_seq: u64 = 0;
    let mut any = false;
    proof {
        assert(s.take(0) =~= Seq::empty());
        assert(s.skip(0) =~= s);
        assert(record::views(out@) =~= Seq::empty());
    }
    while queue.len() > 0
        invariant
            0 <= n <= s.len(),
            record::views(queue@) == s.skip(n),
            any == (n > 0),
            any ==> last_key@ == s[n - 1].key,
            versions::key_sorted(s) ==> record::views(out@) == pruned(
                s.take(n),
                horizon,
                drop_tombstones,
            ),
            versions::key_sorted(s) && any ==> chain_of(
                of_key(s.take(n), last_key@),
                horizon,
            ).len() > 0,
            versions::key_sorted(s) && any ==> chain_of(
                of_key(s.take(n), last_key@),
                horizon,
            ).last().seq == last_seq,
        decreases queue@.len(),
    {
        let ghost prefix = s.take(n);
        let ghost was = record::views(queue@);
        assert(was.len() == s.len() - n);
        if let Some(r) = queue.pop_front() {
            let ghost chain = chain_of(of_key(prefix, r@.key), horizon);
            proof {
                assert(r@ == s.skip(n)[0]);
                assert(record::views(queue@) =~= was.drop_first());
                assert(was.drop_first() =~= s.skip(n + 1));
                assert(s.take(n + 1).drop_last() =~= prefix);
                assert(s.take(n + 1).last() == r@);
                of_key_push(prefix, r@, r@.key);
                assert(s.take(n + 1) =~= prefix.push(r@));
                assert(of_key(prefix, r@.key).push(r@).drop_last() =~= of_key(prefix, r@.key));
            }
            let same = any && bytes::same(last_key.as_slice(), r.key.as_slice());
            proof {
                if versions::key_sorted(s) && !same {
                    assert forall|i: int| 0 <= i < prefix.len() implies (#[trigger] prefix[i]).key
                        != r@.key by {
                        assert(prefix[i] == s[i]);
                        assert(bytes::lex_le(s[i].key, s[n].key));
                        assert(bytes::lex_le(s[n - 1].key, s[n].key));
                        if i < n - 1 {
                            assert(bytes::lex_le(s[i].key, s[n - 1].key));
                        }
                        if s[i].key == r@.key {
                            bytes::lex_total(s[n - 1].key, s[n].key);
                        }
                    }
                    of_key_none(prefix, r@.key);
                    assert(chain =~= Seq::empty());
                }
            }
            let joined = !same || (last_seq >= horizon && r.seq < last_seq);
            assert(versions::key_sorted(s) ==> joined == joins(chain, r@, horizon));
            let gone = drop_tombstones && r.seq < horizon && r.value.is_none();
            if joined {
                last_seq = r.seq;
            }
            if !same {
                last_key = bytes::copy(r.key.as_slice());
            }
            any = true;
            proof {
                assert(last_key@ == r@.key);
                if versions::key_sorted(s) && joined {
                    assert(chain_of(of_key(s.take(n + 1), r@.key), horizon) == chain.push(r@));
                }
            }
            let ghost had = record::views(out@);
            if joined && !gone {
                out.push(r);
                assert(record::views(out@) =~= had.push(r@));
            }
            proof {
                n = n + 1;
            }
        }
    }
    assert(s.take(n) =~= s);
    out
}

/// The contents of inputs.
pub open spec fn input_views(inputs: Seq<Vec<Record>>) -> Seq<Seq<RecordView>> {
    inputs.map_values(|v: Vec<Record>| record::views(v@))
}

/// Whether all inputs are in order of their keys.
pub open spec fn all_key_sorted(inputs: Seq<Seq<RecordView>>) -> bool {
    forall|i: int| 0 <= i < inputs.len() ==> versions::key_sorted(#[trigger] inputs[i])
}

/// What a compaction leaves of these inputs, which stand oldest first and must
/// be in order of their keys.
pub fn compact_records(
    mut inputs: Vec<Vec<Record>>,
    horizon: u64,
    drop_tombstones: bool,
) -> (r: Vec<Record>)
    ensures
        all_key_sorted(input_views(inputs@)) ==> record::views(r@) == compacted(
            input_views(inputs@),
            horizon,
            drop_tombstones,
        ),
{
    let ghost all = input_views(inputs@);
    // Oldest first: the runs are taken from the back, so they are turned round.
    let mut turned: Vec<Vec<Record>> = Vec::new();
    proof {
        assert(input_views(turned@) =~= all.skip(all.len() as int).reverse());
        assert(all.take(all.len() as int) =~= all);
    }
    while inputs.len() > 0
        invariant
            inputs@.len() <= all.len(),
            input_views(inputs@) == all.take(inputs@.len() as int),
            input_views(turned@) == all.skip(inputs@.len() as int).reverse(),
        decreases inputs@.len(),
    {
        let ghost k = inputs@.len() - 1;
        if let Some(v) = inputs.pop() {
            let ghost had = input_views(turned@);
            turned.push(v);
            proof {
                assert(record::views(v@) == all.take(k + 1)[k]);
                assert(input_views(inputs@) =~= all.take(k));
                assert(input_views(turned@) =~= had.push(record::views(v@)));
                assert(all.skip(k).reverse() =~= all.skip(k + 1).reverse().push(all[k]));
            }
        }
    }
    assert(all.skip(0) =~= all);
    let mut acc: VecDeque<Record> = VecDeque::new();
    proof {
        assert(all.take(0) =~= Seq::empty());
        assert(record::views(acc@) =~= Seq::empty());
    }
    while turned.len() > 0
        invariant
            turned@.len() <= all.len(),
            input_views(turned@) == all.skip(all.len() - turned@.len()).reverse(),
            record::views(acc@) == merged_all(all.take(all.len() - turned@.len())),
        decreases turned@.len(),
    {
        let ghost d = all.len() - turned@.len();
        let ghost was = input_views(turned@);
        if let Some(v) = turned.pop() {
            proof {
                assert(record::views(v@) == was[was.len() - 1]);
                assert(was[was.len() - 1] == all[d]);
                assert(input_views(turned@) =~= was.drop_last());
                assert(was.drop_last() =~= all.skip(d + 1).reverse());
                assert(all.take(d + 1).drop_last() =~= all.take(d));
                assert(all.take(d + 1).last() == all[d]);
            }
            acc = merge_two(queue(v), acc);
        }
    }
    proof {
        assert(all.take(all.len() as int) =~= all);
        if all_key_sorted(all) {
            merge_law(all, Seq::empty());
        }
    }
    prune(acc, horizon, drop_tombstones)
}

/// What a table holds, by its file: all records, or why they cannot be read.
pub open spec fn table_records<F: Fs>(t: &SsTableReader<F>) -> core::result::Result<
    Seq<RecordView>,
    ErrorView,
> {
    sstable::all_records(t.contents(), t.table().index)
}

/// The records of tables that can all be read.
pub open spec fn tables_records<F: Fs>(inputs: Seq<&SsTableReader<F>>) -> Seq<Seq<RecordView>> {
    inputs.map_values(|t: &SsTableReader<F>| table_records(t)->Ok_0)
}

/// Whether all tables can be read.
pub open spec fn all_readable<F: Fs>(inputs: Seq<&SsTableReader<F>>) -> bool {
    forall|i: int| 0 <= i < inputs.len() ==> table_records(#[trigger] inputs[i]) is Ok
}

/// Read all inputs.
fn read_inputs<F: Fs>(inputs: &[&SsTableReader<F>]) -> (r: Result<Vec<Vec<Record>>>)
    requires
        forall|i: int| 0 <= i < inputs@.len() ==> (#[trigger] inputs@[i]).wf(),
    ensures
        r matches Ok(v) ==> all_readable(inputs@) && input_views(v@) == tables_records(inputs@),
        r matches Err(e) ==> fs::handed_on::<F::File>(e@) || exists|i: int|
            0 <= i < inputs@.len() && table_records(#[trigger] inputs@[i]) == Err::<
                Seq<RecordView>,
                ErrorView,
            >(e@),
{
    let n: usize = inputs.len();
    let mut out: Vec<Vec<Record>> = Vec::new();
    let mut i: usize = 0;
    while i < n
        invariant
            i <= n == inputs@.len(),
            forall|j: int| 0 <= j < inputs@.len() ==> (#[trigger] inputs@[j]).wf(),
            out@.len() == i,
            forall|j: int|
                0 <= j < i ==> table_records(#[trigger] inputs@[j]) == Ok::<
                    Seq<RecordView>,
                    ErrorView,
                >(record::views(out@[j]@)),
        decreases n - i,
    {
        assert(inputs@[i as int].wf());
        let records = inputs[i].iter_all()?;
        out.push(records);
        i += 1;
    }
    proof {
        assert forall|j: int| 0 <= j < n implies input_views(out@)[j] == tables_records(
            inputs@,
        )[j] by {
            assert(table_records(inputs@[j]) == Ok::<Seq<RecordView>, ErrorView>(
                record::views(out@[j]@),
            ));
        }
        assert(input_views(out@) =~= tables_records(inputs@));
    }
    Ok(out)
}

/// Compact `inputs`, which stand oldest first, into a new table at `out_path`.
/// Returns how many records it holds.
///
/// `drop_tombstones` may be true only if the oldest table of all is among the
/// inputs: no older table can then need a delete to hide what it holds. No
/// version that a reader at or above `min_snapshot_seq` can see is lost.
pub fn compact<F: Fs, V: Volume<F>>(
    fs: V,
    out_path: &str,
    inputs: &[&SsTableReader<F>],
    drop_tombstones: bool,
    min_snapshot_seq: u64,
) -> (r: Result<u64>)
    requires
        forall|i: int| 0 <= i < inputs@.len() ==> (#[trigger] inputs@[i]).wf(),
    ensures
        r matches Ok(n) ==> all_readable(inputs@) && (all_key_sorted(tables_records(inputs@)) ==> ({
            let left = compacted(tables_records(inputs@), min_snapshot_seq, drop_tombstones);
            n == left.len() && sstable::is_stored::<F>(out_path@, left)
        })),
        r is Ok ==> exists|file: Seq<u8>|
            disk::ended::<F>(#[trigger] sstable::written_as(out_path@, file)) && (all_key_sorted(
                tables_records(inputs@),
            ) ==> sstable::is_table(
                file,
                compacted(tables_records(inputs@), min_snapshot_seq, drop_tombstones),
            )),
        r is Err ==> exists|done: Seq<Change>| #[trigger]
            disk::ended::<F>(done) && disk::confined(done, set![out_path@]),
        r matches Err(e) ==> {
            ||| fs::handed_on::<F::File>(e@)
            ||| exists|i: int|
                0 <= i < inputs@.len() && table_records(#[trigger] inputs@[i]) == Err::<
                    Seq<RecordView>,
                    ErrorView,
                >(e@)
            ||| all_readable(inputs@) && e@ == sstable::table_too_large() && (all_key_sorted(
                tables_records(inputs@),
            ) ==> !sstable::is_writable(
                compacted(tables_records(inputs@), min_snapshot_seq, drop_tombstones),
            ))
        },
{
    let mut disk = fs.mount();
    let r = compact_on(&mut disk, out_path, inputs, drop_tombstones, min_snapshot_seq);
    let ghost done = disk.changes();
    disk.finish();
    proof {
        assert(disk::ended::<F>(done));
        if r is Ok {
            let file = choose|file: Seq<u8>|
                done == Seq::<Change>::empty() + #[trigger] sstable::written_as(out_path@, file)
                    && (all_key_sorted(tables_records(inputs@)) ==> sstable::is_table(
                    file,
                    compacted(tables_records(inputs@), min_snapshot_seq, drop_tombstones),
                ));
            assert(done =~= sstable::written_as(out_path@, file));
        } else {
            assert(done.skip(0) =~= done);
        }
    }
    r
}

/// Compact `inputs` into a new table at `out_path`, as [`compact`] does.
pub(crate) fn compact_on<F: Fs, H: Holder<F = F>>(
    disk: &mut Disk<H>,
    out_path: &str,
    inputs: &[&SsTableReader<F>],
    drop_tombstones: bool,
    min_snapshot_seq: u64,
) -> (r: Result<u64>)
    requires
        forall|i: int| 0 <= i < inputs@.len() ==> (#[trigger] inputs@[i]).wf(),
    ensures
        r matches Ok(n) ==> all_readable(inputs@) && (all_key_sorted(tables_records(inputs@)) ==> ({
            let left = compacted(tables_records(inputs@), min_snapshot_seq, drop_tombstones);
            n == left.len() && sstable::is_stored::<F>(out_path@, left)
        })),
        r is Ok ==> exists|file: Seq<u8>|
            final(disk).changes() == old(disk).changes() + #[trigger] sstable::written_as(
                out_path@,
                file,
            ) && (all_key_sorted(tables_records(inputs@)) ==> sstable::is_table(
                file,
                compacted(tables_records(inputs@), min_snapshot_seq, drop_tombstones),
            )),
        disk::went_on(old(disk).changes(), final(disk).changes(), set![out_path@]),
        disk::is_scratch(out_path@) ==> disk::went_softly(
            old(disk).changes(),
            final(disk).changes(),
        ),
        r matches Err(e) ==> {
            ||| fs::handed_on::<F::File>(e@)
            ||| exists|i: int|
                0 <= i < inputs@.len() && table_records(#[trigger] inputs@[i]) == Err::<
                    Seq<RecordView>,
                    ErrorView,
                >(e@)
            ||| all_readable(inputs@) && e@ == sstable::table_too_large() && (all_key_sorted(
                tables_records(inputs@),
            ) ==> !sstable::is_writable(
                compacted(tables_records(inputs@), min_snapshot_seq, drop_tombstones),
            ))
        },
{
    proof {
        disk::went_nowhere(disk.changes(), set![out_path@]);
    }
    let records = read_inputs(inputs)?;
    let merged = compact_records(records, min_snapshot_seq, drop_tombstones);
    SsTableWriter::write_on(disk, out_path, merged.as_slice())
}

} // verus!
