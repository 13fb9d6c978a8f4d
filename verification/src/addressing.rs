//! Arithmetic of the 1-based breadth-first addressing scheme.
//!
//! A node at index `i` has its parent at `i / 2`, so walking from a leaf
//! towards the root divides the index by two at each step.  The chain of
//! strict ancestors of a leaf — the indices an insertion invalidates — is
//! the set of quotients `leaf / 2^k` for `1 <= k <= height`, and for a leaf
//! of a tree of that height the last quotient is exactly 1, the root.

use vstd::prelude::*;
use vstd::arithmetic::div_mod::{
    lemma_div_denominator, lemma_div_is_ordered, lemma_div_multiples_vanish,
    lemma_fundamental_div_mod_converse,
};
use vstd::arithmetic::power2::{
    lemma2_to64, lemma_pow2_adds, lemma_pow2_pos, lemma_pow2_strictly_increases, pow2,
};

verus! {

/// `j` is a strict ancestor of `leaf` reached within `height` halvings:
/// some `leaf / 2^k` with `1 <= k <= height`.  These are exactly the
/// indices an insertion at `leaf` sets back to `None`.
pub open spec fn is_strict_ancestor(j: int, leaf: int, height: nat) -> bool {
    exists|k: nat| 1 <= k <= height && j == leaf / ((#[trigger] pow2(k)) as int)
}

/// The index of a leaf's sibling: the other child of its parent.  Under
/// 1-based addressing a left child has an even index, so the sibling of an
/// even index is the next one and the sibling of an odd index the one
/// before.
pub open spec fn partner_index(leaf: int) -> int {
    if leaf % 2 == 0 {
        leaf + 1
    } else {
        leaf - 1
    }
}

/// Dividing by a positive `b` maps the interval `[lo * b, hi * b)` into
/// `[lo, hi)`.
pub proof fn lemma_div_range(x: int, b: int, lo: int, hi: int)
    requires
        0 < b,
        0 <= lo,
        lo * b <= x,
        x < hi * b,
    ensures
        lo <= x / b < hi,
{
    lemma_div_multiples_vanish(lo, b);
    lemma_div_is_ordered(lo * b, x, b);
    assert(hi * b - 1 == (hi - 1) * b + (b - 1)) by (nonlinear_arith);
    lemma_fundamental_div_mod_converse(hi * b - 1, b, hi - 1, b - 1);
    lemma_div_is_ordered(x, hi * b - 1, b);
}

/// Halving once more extends a chain of halvings by one step:
/// `(x / 2^k) / 2 == x / 2^(k + 1)`.
pub proof fn lemma_halving_step(x: int, k: nat)
    requires
        0 <= x,
    ensures
        (x / (pow2(k) as int)) / 2 == x / (pow2(k + 1) as int),
{
    lemma_pow2_pos(k);
    lemma_pow2_adds(k, 1);
    lemma2_to64();
    lemma_div_denominator(x, pow2(k) as int, 2);
}

/// Where `k` halvings take a leaf of a height-`h` tree: into the index
/// range of depth `h - k`.  With `k == h` the quotient is exactly 1, the
/// root.
pub proof fn lemma_ancestor_depth(leaf: int, h: nat, k: nat)
    requires
        1 <= k <= h,
        pow2(h) <= leaf < pow2(h + 1),
    ensures
        pow2((h - k) as nat) <= leaf / (pow2(k) as int) < pow2((h - k + 1) as nat),
        k == h ==> leaf / (pow2(k) as int) == 1,
{
    lemma_pow2_pos(k);
    lemma_pow2_pos((h - k) as nat);
    lemma_pow2_adds((h - k) as nat, k);
    lemma_pow2_adds((h - k + 1) as nat, k);
    lemma_div_range(
        leaf,
        pow2(k) as int,
        pow2((h - k) as nat) as int,
        pow2((h - k + 1) as nat) as int,
    );
    if k == h {
        lemma2_to64();
    }
}

/// Every strict ancestor of a leaf is a proper internal index: at least 1
/// (the root) and below the first leaf index `2^h`.
pub proof fn lemma_ancestor_is_internal(j: int, leaf: int, h: nat)
    requires
        1 <= h,
        pow2(h) <= leaf < pow2(h + 1),
        is_strict_ancestor(j, leaf, h),
    ensures
        1 <= j < pow2(h),
{
    let k = choose|k: nat| 1 <= k <= h && j == leaf / ((#[trigger] pow2(k)) as int);
    lemma_ancestor_depth(leaf, h, k);
    lemma_pow2_pos((h - k) as nat);
    if k > 1 {
        lemma_pow2_strictly_increases((h - k + 1) as nat, h);
    }
}

/// Extending the bound by one step adds exactly the next quotient:
/// the ancestors within `s + 1` halvings are those within `s` halvings
/// together with `leaf / 2^(s + 1)`.
pub proof fn lemma_ancestor_unfold(j: int, leaf: int, s: nat)
    ensures
        is_strict_ancestor(j, leaf, s + 1) <==> (is_strict_ancestor(j, leaf, s) || j == leaf
            / (pow2(s + 1) as int)),
{
    if is_strict_ancestor(j, leaf, s + 1) {
        let k = choose|k: nat| 1 <= k <= s + 1 && j == leaf / ((#[trigger] pow2(k)) as int);
        if k <= s {
            assert(is_strict_ancestor(j, leaf, s));
        }
    }
    if is_strict_ancestor(j, leaf, s) {
        let k = choose|k: nat| 1 <= k <= s && j == leaf / ((#[trigger] pow2(k)) as int);
        assert(1 <= k <= s + 1 && j == leaf / ((pow2(k)) as int));
        assert(is_strict_ancestor(j, leaf, s + 1));
    }
    if j == leaf / (pow2(s + 1) as int) {
        assert(1 <= s + 1 <= s + 1 && j == leaf / ((pow2(s + 1)) as int));
        assert(is_strict_ancestor(j, leaf, s + 1));
    }
}

/// The parent of the leaf, and the parent of any of its strict ancestors
/// other than the root, is again a strict ancestor.
pub proof fn lemma_parent_is_ancestor(j: int, leaf: int, h: nat)
    requires
        1 <= h,
        pow2(h) <= leaf < pow2(h + 1),
        2 <= j,
        j == leaf || is_strict_ancestor(j, leaf, h),
    ensures
        is_strict_ancestor(j / 2, leaf, h),
{
    if j == leaf {
        lemma_halving_step(leaf, 0);
        lemma2_to64();
        assert(leaf / (pow2(0) as int) == leaf);
        assert(1 <= 1nat <= h && j / 2 == leaf / ((pow2(1nat)) as int));
        assert(is_strict_ancestor(j / 2, leaf, h));
    } else {
        let k = choose|k: nat| 1 <= k <= h && j == leaf / ((#[trigger] pow2(k)) as int);
        lemma_ancestor_depth(leaf, h, k);
        if k == h {
            // then j would be 1, against 2 <= j
            assert(false);
        }
        lemma_halving_step(leaf, k);
        assert(1 <= k + 1 <= h && j / 2 == leaf / ((pow2(k + 1)) as int));
        assert(is_strict_ancestor(j / 2, leaf, h));
    }
}

} // verus!
