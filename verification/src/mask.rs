//! Node sets packed into the bits of a machine word, and the arithmetic facts
//! that let a proof treat such a word as a set.

use vstd::prelude::*;
use vstd::arithmetic::div_mod::lemma_div_denominator;
use vstd::arithmetic::power2::{lemma2_to64, lemma_pow2_pos, lemma_pow2_unfold, pow2};
use vstd::bits::{lemma_usize_pow2_no_overflow, lemma_usize_shl_is_mul, lemma_usize_shr_is_div};

verus! {

/// Whether node `i` is a member of the set `m`: bit `i` of `m` is one.
pub open spec fn member(m: nat, i: nat) -> bool
    decreases i,
{
    if i == 0 {
        m % 2 == 1
    } else {
        member(m / 2, (i - 1) as nat)
    }
}

/// How many nodes the set `m` holds: the number of one bits of `m`.
pub open spec fn size(m: nat) -> nat
    decreases m,
{
    if m == 0 {
        0
    } else {
        (m % 2) + size(m / 2)
    }
}

/// The set of all nodes below `n`.
pub open spec fn full(n: nat) -> nat {
    (pow2(n) - 1) as nat
}

/// Membership is the parity of the quotient by the node's power of two.
pub proof fn lemma_member_is_quotient_parity(m: nat, i: nat)
    ensures
        member(m, i) == ((m / pow2(i)) % 2 == 1),
    decreases i,
{
    if i == 0 {
        lemma2_to64();
    } else {
        let j = (i - 1) as nat;
        lemma_member_is_quotient_parity(m / 2, j);
        lemma_pow2_unfold(i);
        lemma_pow2_pos(j);
        lemma_div_denominator(m as int, 2, pow2(j) as int);
    }
}

/// A set that holds node `e` is at least as large, as a number, as `e`'s bit.
pub proof fn lemma_member_bounds(m: nat, e: nat)
    requires
        member(m, e),
    ensures
        m >= pow2(e),
    decreases e,
{
    if e == 0 {
        lemma2_to64();
    } else {
        lemma_member_bounds(m / 2, (e - 1) as nat);
        lemma_pow2_unfold(e);
    }
}

/// Taking a member out of a set changes the membership of that node alone.
pub proof fn lemma_remove_member(m: nat, e: nat, j: nat)
    requires
        member(m, e),
    ensures
        m >= pow2(e),
        member((m - pow2(e)) as nat, j) == (member(m, j) && j != e),
    decreases e,
{
    lemma_member_bounds(m, e);
    if e == 0 {
        lemma2_to64();
    } else {
        lemma_pow2_unfold(e);
        if j > 0 {
            lemma_remove_member(m / 2, (e - 1) as nat, (j - 1) as nat);
        }
    }
}

/// Taking a member out of a set makes it one smaller.
pub proof fn lemma_remove_shrinks(m: nat, e: nat)
    requires
        member(m, e),
    ensures
        m >= pow2(e),
        size((m - pow2(e)) as nat) + 1 == size(m),
    decreases e,
{
    if e == 0 {
        lemma2_to64();
    } else {
        lemma_pow2_unfold(e);
        lemma_remove_shrinks(m / 2, (e - 1) as nat);
    }
}

/// Putting a new node into a set changes the membership of that node alone.
pub proof fn lemma_insert_member(m: nat, e: nat, j: nat)
    requires
        !member(m, e),
    ensures
        member(m + pow2(e), j) == (member(m, j) || j == e),
    decreases e,
{
    if e == 0 {
        lemma2_to64();
    } else {
        lemma_pow2_unfold(e);
        if j > 0 {
            lemma_insert_member(m / 2, (e - 1) as nat, (j - 1) as nat);
        }
    }
}

/// Putting a new node into a set makes it one larger.
pub proof fn lemma_insert_grows(m: nat, e: nat)
    requires
        !member(m, e),
    ensures
        size(m + pow2(e)) == size(m) + 1,
    decreases e,
{
    if e == 0 {
        lemma2_to64();
    } else {
        lemma_pow2_unfold(e);
        lemma_insert_grows(m / 2, (e - 1) as nat);
    }
}

/// The empty set has no member.
pub proof fn lemma_empty_has_none(j: nat)
    ensures
        !member(0, j),
    decreases j,
{
    if j > 0 {
        lemma_empty_has_none((j - 1) as nat);
    }
}

/// A nonempty set has a member.
pub proof fn lemma_nonempty_has_member(m: nat) -> (j: nat)
    requires
        m > 0,
    ensures
        member(m, j),
    decreases m,
{
    if m % 2 == 1 {
        0
    } else {
        let k = lemma_nonempty_has_member(m / 2);
        k + 1
    }
}

/// Only the empty set holds no node.
pub proof fn lemma_size_zero(m: nat)
    requires
        size(m) == 0,
    ensures
        m == 0,
    decreases m,
{
    if m != 0 {
        lemma_size_zero(m / 2);
    }
}

/// A set whose members all lie below `n` is, as a number, below `pow2(n)`.
pub proof fn lemma_members_below(m: nat, n: nat)
    requires
        forall|j: nat| #[trigger] member(m, j) ==> j < n,
    ensures
        m < pow2(n),
    decreases n,
{
    if n == 0 {
        lemma2_to64();
        if m > 0 {
            lemma_nonempty_has_member(m);
        }
    } else {
        lemma_pow2_unfold(n);
        assert forall|j: nat| #[trigger] member(m / 2, j) implies j < n - 1 by {
            assert(member(m, j + 1));
        }
        lemma_members_below(m / 2, (n - 1) as nat);
    }
}

/// A set below `pow2(n)` holds at most `n` nodes.
pub proof fn lemma_size_bounded(m: nat, n: nat)
    requires
        m < pow2(n),
    ensures
        size(m) <= n,
    decreases n,
{
    if n == 0 {
        lemma2_to64();
    } else {
        lemma_pow2_unfold(n);
        if m > 0 {
            lemma_size_bounded(m / 2, (n - 1) as nat);
        }
    }
}

/// The only set below `pow2(n)` with `n` nodes is the full one.
pub proof fn lemma_full_is_unique(m: nat, n: nat)
    requires
        m < pow2(n),
        size(m) == n,
    ensures
        m == full(n),
    decreases n,
{
    if n == 0 {
        lemma2_to64();
    } else {
        lemma_pow2_unfold(n);
        lemma_size_bounded(m / 2, (n - 1) as nat);
        lemma_full_is_unique(m / 2, (n - 1) as nat);
    }
}

/// The full set holds every node below `n`, and `n` nodes in all.
pub proof fn lemma_full_has_all(n: nat, j: nat)
    requires
        j < n,
    ensures
        member(full(n), j),
        size(full(n)) == n,
        full(n) < pow2(n),
    decreases n,
{
    lemma_pow2_unfold(n);
    if n == 1 {
        lemma2_to64();
        assert(size(0) == 0);
    } else if j > 0 {
        lemma_full_has_all((n - 1) as nat, (j - 1) as nat);
    } else {
        lemma_full_has_all((n - 1) as nat, 0);
    }
}

/// The set that holds node `i` alone.
pub fn bit(i: usize) -> (b: usize)
    requires
        i < usize::BITS,
    ensures
        b == pow2(i as nat),
{
    proof {
        lemma_usize_pow2_no_overflow(i as nat);
        lemma_usize_shl_is_mul(1usize, i);
    }
    1usize << i
}

/// Whether node `i` is a member of `mask`.
pub fn has_bit(mask: usize, i: usize) -> (b: bool)
    requires
        i < usize::BITS,
    ensures
        b == member(mask as nat, i as nat),
{
    proof {
        lemma_usize_shr_is_div(mask, i);
        lemma_member_is_quotient_parity(mask as nat, i as nat);
    }
    (mask >> i) % 2 == 1
}

/// The number of nodes in `mask`.
pub fn count_ones(mask: usize) -> (c: usize)
    ensures
        c == size(mask as nat),
        c <= usize::BITS,
{
    let mut rest: usize = mask;
    let mut c: usize = 0;
    proof {
        lemma2_to64();
        lemma_size_bounded(mask as nat, usize::BITS as nat);
    }
    while rest > 0
        invariant
            c + size(rest as nat) == size(mask as nat),
            size(mask as nat) <= usize::BITS,
        decreases rest,
    {
        c = c + rest % 2;
        rest = rest / 2;
    }
    c
}

} // verus!
