//! Size-tiered compaction: which tables are merged next.
//!
//! A table's tier is the width in bits of its file's length, so tables of one
//! tier differ in size by less than a factor of two. A run of adjacent tables
//! in one tier is merged once it is long enough.

use vstd::prelude::*;

verus! {

/// The width in bits of a length.
pub open spec fn tier(len: nat) -> nat
    decreases len,
{
    if len == 0 {
        0
    } else {
        1 + tier(len / 2)
    }
}

/// A stretch `i..j` of tables in one tier, at least `threshold` of them, that
/// cannot be made longer at either end.
pub open spec fn is_run(sizes: Seq<u64>, threshold: nat, i: int, j: int) -> bool {
    &&& 0 <= i < j <= sizes.len()
    &&& j - i >= threshold
    &&& forall|k: int|
        i <= k < j ==> tier(#[trigger] sizes[k] as nat) == tier(sizes[i] as nat)
    &&& i > 0 ==> tier(sizes[i - 1] as nat) != tier(sizes[i] as nat)
    &&& j < sizes.len() ==> tier(sizes[j] as nat) != tier(sizes[i] as nat)
}

/// Whether this is what is picked of tables with these sizes: the first run that
/// is long enough, or nothing if there is none.
pub open spec fn picks(sizes: Seq<u64>, threshold: nat, picked: Option<(int, int)>) -> bool {
    match picked {
        Some((i, j)) => is_run(sizes, threshold, i, j) && forall|a: int, b: int| #[trigger]
            is_run(sizes, threshold, a, b) ==> a >= i,
        None => forall|a: int, b: int| !#[trigger] is_run(sizes, threshold, a, b),
    }
}

/// The tier of a file of this length.
fn tier_of(len: u64) -> (r: u32)
    ensures
        r == tier(len as nat),
{
    let mut rest: u64 = len;
    let mut width: u32 = 0;
    proof {
        vstd::arithmetic::power2::lemma2_to64();
        tier_bound(len as nat, 64);
    }
    while rest > 0
        invariant
            width + tier(rest as nat) == tier(len as nat),
            tier(len as nat) <= 64,
        decreases rest,
    {
        rest = rest / 2;
        width = width + 1;
    }
    width
}

proof fn tier_bound(len: nat, bits: nat)
    requires
        len < vstd::arithmetic::power2::pow2(bits),
    ensures
        tier(len) <= bits,
    decreases bits,
{
    vstd::arithmetic::power2::lemma2_to64();
    if bits > 0 {
        vstd::arithmetic::power2::lemma_pow2_unfold(bits);
        if len > 0 {
            tier_bound(len / 2, (bits - 1) as nat);
        }
    }
}

/// A length that is not zero is in the tier after `k` exactly if it is at least
/// 2 to the power of `k` and less than 2 to the power of `k + 1`; nothing but
/// zero is in the lowest tier.
pub proof fn tier_is_a_power_of_two(len: nat, k: nat)
    ensures
        len > 0 ==> (tier(len) == k + 1 <==> (vstd::arithmetic::power2::pow2(k) <= len
            && len < vstd::arithmetic::power2::pow2(k + 1))),
        tier(len) == 0 <==> len == 0,
    decreases len,
{
    vstd::arithmetic::power2::lemma2_to64();
    vstd::arithmetic::power2::lemma_pow2_unfold(k + 1);
    vstd::arithmetic::power2::lemma_pow2_pos(k);
    if len > 0 {
        if k > 0 {
            vstd::arithmetic::power2::lemma_pow2_unfold(k);
            tier_is_a_power_of_two(len / 2, (k - 1) as nat);
        } else {
            tier_is_a_power_of_two(len / 2, 0);
        }
    }
}

/// Two lengths, neither of them zero, are in one tier exactly if one power of
/// two is at most the shorter and its double is more than the longer: files of
/// one tier differ in size by less than a factor of two.
pub proof fn one_tier_is_within_a_factor_of_two(shorter: nat, longer: nat)
    requires
        0 < shorter <= longer,
    ensures
        tier(shorter) == tier(longer) <==> exists|k: nat| #[trigger]
            vstd::arithmetic::power2::pow2(k) <= shorter && longer
                < 2 * vstd::arithmetic::power2::pow2(k),
        tier(shorter) == tier(longer) ==> longer < 2 * shorter,
{
    if tier(shorter) == tier(longer) {
        tier_is_a_power_of_two(shorter, 0);
        let k = (tier(shorter) - 1) as nat;
        tier_is_a_power_of_two(shorter, k);
        tier_is_a_power_of_two(longer, k);
        vstd::arithmetic::power2::lemma_pow2_unfold(k + 1);
        assert(vstd::arithmetic::power2::pow2(k) <= shorter);
    }
    if exists|k: nat| #[trigger]
        vstd::arithmetic::power2::pow2(k) <= shorter && longer
            < 2 * vstd::arithmetic::power2::pow2(k) {
        let k = choose|k: nat| #[trigger]
            vstd::arithmetic::power2::pow2(k) <= shorter && longer
                < 2 * vstd::arithmetic::power2::pow2(k);
        tier_is_a_power_of_two(shorter, k);
        tier_is_a_power_of_two(longer, k);
        vstd::arithmetic::power2::lemma_pow2_unfold(k + 1);
    }
}

/// Files whose sizes are alike: they are all empty, or one power of two is at
/// most the size of each and its double is more.
pub open spec fn alike(sizes: Seq<u64>, i: int, j: int) -> bool {
    ||| forall|n: int| i <= n < j ==> #[trigger] sizes[n] == 0
    ||| exists|k: nat| #[trigger] within(sizes, i, j, vstd::arithmetic::power2::pow2(k))
}

/// Each of these sizes is at least `low` and less than its double.
pub open spec fn within(sizes: Seq<u64>, i: int, j: int, low: nat) -> bool {
    forall|n: int| i <= n < j ==> low <= #[trigger] sizes[n] < 2 * low
}

proof fn alike_is_one_tier(sizes: Seq<u64>, i: int, j: int)
    requires
        0 <= i < j <= sizes.len(),
    ensures
        alike(sizes, i, j) <==> forall|n: int|
            i <= n < j ==> tier(#[trigger] sizes[n] as nat) == tier(sizes[i] as nat),
{
    if forall|n: int| i <= n < j ==> tier(#[trigger] sizes[n] as nat) == tier(sizes[i] as nat) {
        if sizes[i] == 0 {
            assert forall|n: int| i <= n < j implies #[trigger] sizes[n] == 0 by {
                tier_is_a_power_of_two(sizes[n] as nat, 0);
            }
        } else {
            tier_is_a_power_of_two(sizes[i] as nat, 0);
            let k = (tier(sizes[i] as nat) - 1) as nat;
            vstd::arithmetic::power2::lemma_pow2_unfold(k + 1);
            assert forall|n: int| i <= n < j implies vstd::arithmetic::power2::pow2(k)
                <= #[trigger] sizes[n] < 2 * vstd::arithmetic::power2::pow2(k) by {
                tier_is_a_power_of_two(sizes[n] as nat, 0);
                tier_is_a_power_of_two(sizes[n] as nat, k);
            }
            assert(within(sizes, i, j, vstd::arithmetic::power2::pow2(k)));
        }
    }
    if alike(sizes, i, j) {
        if forall|n: int| i <= n < j ==> #[trigger] sizes[n] == 0 {
            assert(sizes[i] == 0);
        } else {
            let k = choose|k: nat| #[trigger]
                within(sizes, i, j, vstd::arithmetic::power2::pow2(k));
            vstd::arithmetic::power2::lemma_pow2_pos(k);
            vstd::arithmetic::power2::lemma_pow2_unfold(k + 1);
            assert forall|n: int| i <= n < j implies tier(#[trigger] sizes[n] as nat) == k + 1 by {
                tier_is_a_power_of_two(sizes[n] as nat, k);
            }
            assert(tier(sizes[i] as nat) == k + 1);
        }
    }
}

/// What is picked are neighbours whose sizes are alike, at least as many as the
/// threshold, and no neighbour at either end is alike with them. The first such
/// stretch is picked, and where nothing is picked there is none.
pub proof fn picked_tables_are_alike(
    sizes: Seq<u64>,
    threshold: nat,
    picked: Option<(int, int)>,
)
    requires
        picks(sizes, threshold, picked),
    ensures
        picked matches Some((i, j)) ==> {
            &&& 0 <= i < j <= sizes.len()
            &&& j - i >= threshold
            &&& alike(sizes, i, j)
            &&& i > 0 ==> !alike(sizes, i - 1, j)
            &&& j < sizes.len() ==> !alike(sizes, i, j + 1)
        },
        forall|a: int, b: int|
            0 <= a < b <= sizes.len() && b - a >= threshold && #[trigger] alike(sizes, a, b)
                ==> (picked matches Some((i, j)) && i <= a),
{
    if let Some((i, j)) = picked {
        alike_is_one_tier(sizes, i, j);
        if i > 0 {
            alike_is_one_tier(sizes, i - 1, j);
            if alike(sizes, i - 1, j) {
                assert(tier(sizes[i] as nat) == tier(sizes[i - 1] as nat));
            }
        }
        if j < sizes.len() {
            alike_is_one_tier(sizes, i, j + 1);
            if alike(sizes, i, j + 1) {
                assert(tier(sizes[j] as nat) == tier(sizes[i] as nat));
            }
        }
    }
    assert forall|a: int, b: int|
        0 <= a < b <= sizes.len() && b - a >= threshold && #[trigger] alike(
            sizes,
            a,
            b,
        ) implies (picked matches Some((i, j)) && i <= a) by {
        alike_is_one_tier(sizes, a, b);
        let (c, d) = longest_stretch(sizes, a, b);
        assert(is_run(sizes, threshold, c, d));
    }
}

/// A stretch of one tier reaches to both sides as far as the tier goes on.
proof fn longest_stretch(sizes: Seq<u64>, a: int, b: int) -> (r: (int, int))
    requires
        0 <= a < b <= sizes.len(),
        forall|n: int| a <= n < b ==> tier(#[trigger] sizes[n] as nat) == tier(sizes[a] as nat),
    ensures
        0 <= r.0 <= a,
        b <= r.1 <= sizes.len(),
        forall|n: int|
            r.0 <= n < r.1 ==> tier(#[trigger] sizes[n] as nat) == tier(sizes[r.0] as nat),
        r.0 > 0 ==> tier(sizes[r.0 - 1] as nat) != tier(sizes[r.0] as nat),
        r.1 < sizes.len() ==> tier(sizes[r.1] as nat) != tier(sizes[r.0] as nat),
    decreases a + sizes.len() - b,
{
    if a > 0 && tier(sizes[a - 1] as nat) == tier(sizes[a] as nat) {
        longest_stretch(sizes, a - 1, b)
    } else if b < sizes.len() && tier(sizes[b] as nat) == tier(sizes[a] as nat) {
        longest_stretch(sizes, a, b + 1)
    } else {
        (a, b)
    }
}

/// Pick the first run of at least `threshold` adjacent tables in one tier, given
/// the tables' sizes from oldest to newest.
pub fn pick_compaction(sizes: &[u64], threshold: usize) -> (r: Option<(usize, usize)>)
    ensures
        picks(
            sizes@,
            threshold as nat,
            match r {
                Some((i, j)) => Some((i as int, j as int)),
                None => None,
            },
        ),
{
    let n: usize = sizes.len();
    if n < threshold {
        return None;
    }
    let mut i: usize = 0;
    while i < n
        invariant
            i <= n == sizes@.len(),
            0 < i < n ==> tier(sizes@[i - 1] as nat) != tier(sizes@[i as int] as nat),
            forall|a: int, b: int| #[trigger]
                is_run(sizes@, threshold as nat, a, b) ==> a >= i,
        decreases n - i,
    {
        let first: u32 = tier_of(sizes[i]);
        let mut j: usize = i + 1;
        while j < n && tier_of(sizes[j]) == first
            invariant
                i < j <= n == sizes@.len(),
                first == tier(sizes@[i as int] as nat),
                forall|k: int| i <= k < j ==> tier(#[trigger] sizes@[k] as nat) == first,
            ensures
                j < n ==> tier(sizes@[j as int] as nat) != first,
            decreases n - j,
        {
            j += 1;
        }
        if j - i >= threshold {
            return Some((i, j));
        }
        proof {
            assert forall|a: int, b: int| #[trigger]
                is_run(sizes@, threshold as nat, a, b) implies a >= j by {
                if a == i {
                    if b < j {
                        assert(tier(sizes@[b] as nat) == first);
                    } else if b > j {
                        assert(tier(sizes@[j as int] as nat) == tier(sizes@[a] as nat));
                    }
                } else if a < j {
                    assert(tier(sizes@[a - 1] as nat) == first);
                    assert(tier(sizes@[a] as nat) == first);
                }
            }
            assert(j < n ==> tier(sizes@[j - 1] as nat) == first);
        }
        i = j;
    }
    None
}

} // verus!
