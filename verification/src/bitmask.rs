//! Visited sets as bit masks: bit `i` of a mask is set exactly when node `i`
//! belongs to the set. The lemmas here are the only place where the bitwise
//! operators are reasoned about; the rest of the crate uses `has_bit`.
use vstd::prelude::*;

verus! {

/// The mask of the singleton set `{i}`.
pub open spec fn bit(i: usize) -> usize {
    1usize << i
}

/// Whether node `i` belongs to the set that `mask` encodes.
pub open spec fn has_bit(mask: usize, i: usize) -> bool {
    (mask >> i) & 1 == 1
}

/// The mask of the set `{0, .., n - 1}`.
pub open spec fn full_mask(n: usize) -> usize {
    ((1usize << n) - 1) as usize
}

/// How many of the nodes `0, .., k - 1` belong to `mask`.
pub open spec fn count_bits(mask: usize, k: nat) -> nat
    decreases k,
{
    if k == 0 {
        0
    } else {
        count_bits(mask, (k - 1) as nat) + if has_bit(mask, (k - 1) as usize) {
            1nat
        } else {
            0nat
        }
    }
}

/// Two masks agree on the nodes `0, .., n - 1`.
pub open spec fn same_bits(a: usize, b: usize, n: usize) -> bool {
    forall|i: usize| i < n ==> has_bit(a, i) == has_bit(b, i)
}

/// The mask of a single node among the first `n` is positive and below
/// `bit(n)`.
pub proof fn lemma_bit_bounds(i: usize, n: usize)
    requires
        i < n,
        n < usize::BITS,
    ensures
        1 <= bit(i) < bit(n),
{
    assert(1 <= (1usize << i) && (1usize << i) < (1usize << n)) by (bit_vector)
        requires
            i < n,
            n < usize::BITS,
    ;
}

/// `bit(n)` is positive, and the full mask is the greatest mask below it.
pub proof fn lemma_bit_positive(n: usize)
    requires
        n < usize::BITS,
    ensures
        1 <= bit(n),
        full_mask(n) == bit(n) - 1,
        full_mask(n) < bit(n),
{
    assert(1 <= (1usize << n)) by (bit_vector)
        requires
            n < usize::BITS,
    ;
}

/// The mask 0 holds no node.
pub proof fn lemma_empty_mask(i: usize)
    requires
        i < usize::BITS,
    ensures
        !has_bit(0, i),
{
    assert((0usize >> i) & 1 == 0) by (bit_vector)
        requires
            i < usize::BITS,
    ;
}

/// The mask of `{v}` holds `v` and nothing else.
pub proof fn lemma_single_bit(v: usize, i: usize)
    requires
        v < usize::BITS,
        i < usize::BITS,
    ensures
        has_bit(bit(v), i) == (i == v),
        0usize | bit(v) == bit(v),
{
    assert((((1usize << v) >> i) & 1 == 1) == (i == v)) by (bit_vector)
        requires
            v < usize::BITS,
            i < usize::BITS,
    ;
    assert(0usize | (1usize << v) == (1usize << v)) by (bit_vector);
}

/// `mask | bit(v)` holds `v` and the nodes of `mask`.
pub proof fn lemma_insert_bit(mask: usize, v: usize, i: usize)
    requires
        v < usize::BITS,
        i < usize::BITS,
    ensures
        has_bit(mask | bit(v), i) == (has_bit(mask, i) || i == v),
{
    assert((((mask | (1usize << v)) >> i) & 1 == 1) == ((mask >> i) & 1 == 1 || i == v))
        by (bit_vector)
        requires
            v < usize::BITS,
            i < usize::BITS,
    ;
}

/// `mask ^ bit(v)` differs from `mask` in `v` alone.
pub proof fn lemma_toggle_bit(mask: usize, v: usize, i: usize)
    requires
        v < usize::BITS,
        i < usize::BITS,
    ensures
        has_bit(mask ^ bit(v), i) == (has_bit(mask, i) != (i == v)),
{
    assert((((mask ^ (1usize << v)) >> i) & 1 == 1) == (((mask >> i) & 1 == 1) != (i == v)))
        by (bit_vector)
        requires
            v < usize::BITS,
            i < usize::BITS,
    ;
}

/// Adding an absent node gives a larger mask, and removing it again gives
/// the mask back.
pub proof fn lemma_insert_absent(mask: usize, v: usize)
    requires
        v < usize::BITS,
        !has_bit(mask, v),
    ensures
        (mask | bit(v)) ^ bit(v) == mask,
        mask | bit(v) > mask,
        has_bit(mask | bit(v), v),
{
    assert(((mask | (1usize << v)) ^ (1usize << v)) == mask && (mask | (1usize << v)) > mask && ((
    mask | (1usize << v)) >> v) & 1 == 1) by (bit_vector)
        requires
            v < usize::BITS,
            !((mask >> v) & 1 == 1),
    ;
}

/// Removing a present node gives a smaller mask, and adding it again gives
/// the mask back.
pub proof fn lemma_remove_present(mask: usize, v: usize)
    requires
        v < usize::BITS,
        has_bit(mask, v),
    ensures
        (mask ^ bit(v)) | bit(v) == mask,
        mask ^ bit(v) < mask,
        !has_bit(mask ^ bit(v), v),
{
    assert(((mask ^ (1usize << v)) | (1usize << v)) == mask && (mask ^ (1usize << v)) < mask && !(((
    mask ^ (1usize << v)) >> v) & 1 == 1)) by (bit_vector)
        requires
            v < usize::BITS,
            (mask >> v) & 1 == 1,
    ;
}

/// Masks over `n` nodes stay below `bit(n)` when a node is added or removed.
pub proof fn lemma_mask_stays_in_range(mask: usize, v: usize, n: usize)
    requires
        v < n,
        n < usize::BITS,
        mask < bit(n),
    ensures
        mask | bit(v) < bit(n),
        mask ^ bit(v) < bit(n),
{
    assert((mask | (1usize << v)) < (1usize << n) && (mask ^ (1usize << v)) < (1usize << n))
        by (bit_vector)
        requires
            v < n,
            n < usize::BITS,
            mask < (1usize << n),
    ;
}

/// The full mask over `n` nodes holds exactly the nodes below `n`.
pub proof fn lemma_full_mask_bits(n: usize, i: usize)
    requires
        n < usize::BITS,
        i < usize::BITS,
    ensures
        has_bit(full_mask(n), i) == (i < n),
{
    lemma_bit_positive(n);
    let f = full_mask(n);
    let top = bit(n);
    assert(((f >> i) & 1 == 1) == (i < n)) by (bit_vector)
        requires
            n < usize::BITS,
            i < usize::BITS,
            top == (1usize << n),
            f == top - 1,
            top >= 1,
    ;
}

/// A mask below `bit(n)` whose top node `n - 1` is absent is below
/// `bit(n - 1)`.
proof fn lemma_drop_top_bit(x: usize, n: usize)
    requires
        0 < n < usize::BITS,
        x < bit(n),
        !has_bit(x, (n - 1) as usize),
    ensures
        x < bit((n - 1) as usize),
{
    let m = (n - 1) as usize;
    assert(x < (1usize << m)) by (bit_vector)
        requires
            m < usize::BITS - 1,
            n == m + 1,
            x < (1usize << n),
            !((x >> m) & 1 == 1),
    ;
}

/// A mask below `bit(n)` that holds none of the first `n` nodes is 0.
proof fn lemma_no_bits_is_zero(x: usize, n: usize)
    requires
        n < usize::BITS,
        x < bit(n),
        forall|i: usize| i < n ==> !has_bit(x, i),
    ensures
        x == 0,
    decreases n,
{
    if n == 0 {
        assert((1usize << 0usize) == 1) by (bit_vector);
    } else {
        lemma_drop_top_bit(x, n);
        lemma_no_bits_is_zero(x, (n - 1) as usize);
    }
}

/// Masks over `n` nodes that contain the same nodes are equal.
pub proof fn lemma_same_bits_equal(a: usize, b: usize, n: usize)
    requires
        n < usize::BITS,
        a < bit(n),
        b < bit(n),
        same_bits(a, b, n),
    ensures
        a == b,
{
    let x = a ^ b;
    assert(x < (1usize << n)) by (bit_vector)
        requires
            n < usize::BITS,
            a < (1usize << n),
            b < (1usize << n),
            x == a ^ b,
    ;
    assert forall|i: usize| i < n implies !has_bit(x, i) by {
        assert(has_bit(a, i) == has_bit(b, i));
        assert(((x >> i) & 1 == 1) == (((a >> i) & 1 == 1) != ((b >> i) & 1 == 1))) by (bit_vector)
            requires
                x == a ^ b,
                i < usize::BITS,
        ;
    }
    lemma_no_bits_is_zero(x, n);
    assert(a == b) by (bit_vector)
        requires
            a ^ b == 0,
    ;
}

/// Among `k` nodes no more than `k` are counted.
pub proof fn lemma_count_bound(mask: usize, k: nat)
    ensures
        count_bits(mask, k) <= k,
    decreases k,
{
    if k > 0 {
        lemma_count_bound(mask, (k - 1) as nat);
    }
}

/// A node that the mask holds is counted.
pub proof fn lemma_count_present(mask: usize, v: usize, k: nat)
    requires
        v < k,
        has_bit(mask, v),
    ensures
        count_bits(mask, k) >= 1,
    decreases k,
{
    if v as nat != k - 1 {
        lemma_count_present(mask, v, (k - 1) as nat);
    }
}

/// The mask of `{v}` counts one node, `v`.
pub proof fn lemma_count_single(v: usize, k: nat)
    requires
        v < usize::BITS,
        k <= usize::BITS,
    ensures
        count_bits(bit(v), k) == if v < k { 1nat } else { 0nat },
    decreases k,
{
    if k > 0 {
        lemma_count_single(v, (k - 1) as nat);
        lemma_single_bit(v, (k - 1) as usize);
    }
}

/// The full mask counts every node.
pub proof fn lemma_count_full(n: usize, k: nat)
    requires
        n < usize::BITS,
        k <= n,
    ensures
        count_bits(full_mask(n), k) == k,
    decreases k,
{
    if k > 0 {
        lemma_count_full(n, (k - 1) as nat);
        lemma_full_mask_bits(n, (k - 1) as usize);
    }
}

/// Removing a present node lowers the count by one.
pub proof fn lemma_count_remove(mask: usize, v: usize, k: nat)
    requires
        v < usize::BITS,
        k <= usize::BITS,
        has_bit(mask, v),
    ensures
        count_bits(mask ^ bit(v), k) + (if v < k { 1nat } else { 0nat }) == count_bits(mask, k),
    decreases k,
{
    if k > 0 {
        lemma_count_remove(mask, v, (k - 1) as nat);
        lemma_toggle_bit(mask, v, (k - 1) as usize);
    }
}

/// A mask that counts `k` nodes among the first `k` contains all of them.
pub proof fn lemma_count_all(mask: usize, k: nat)
    requires
        count_bits(mask, k) == k,
    ensures
        forall|i: usize| i < k ==> has_bit(mask, i),
    decreases k,
{
    if k > 0 {
        lemma_count_bound(mask, (k - 1) as nat);
        lemma_count_all(mask, (k - 1) as nat);
        assert forall|i: usize| i < k implies has_bit(mask, i) by {
            if i as nat == k - 1 {
                assert(i == (k - 1) as usize);
            }
        }
    }
}

/// The only mask over `n` nodes that counts `n` of them is the full one.
pub proof fn lemma_count_all_is_full(mask: usize, n: usize)
    requires
        n < usize::BITS,
        mask < bit(n),
        count_bits(mask, n as nat) == n,
    ensures
        mask == full_mask(n),
{
    lemma_count_all(mask, n as nat);
    lemma_bit_positive(n);
    assert forall|i: usize| i < n implies has_bit(mask, i) == has_bit(full_mask(n), i) by {
        lemma_full_mask_bits(n, i);
    }
    lemma_same_bits_equal(mask, full_mask(n), n);
}

} // verus!
