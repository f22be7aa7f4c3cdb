//! The parameters that fix the shape of a tree and of the circuits over it.

use vstd::prelude::*;
use vstd::arithmetic::power::{pow, lemma_pow0, lemma_pow_increases};
use vstd::arithmetic::power2::{pow2, lemma_pow2_unfold, lemma_pow2_strictly_increases, lemma2_to64};

verus! {

/// Greatest height of a tree: its leaves are then still counted by a `usize`
/// on every machine.
pub const MAX_LEVELS: usize = 31;

/// Greatest byte width of an amount: it then fits a `u128`.
pub const MAX_N_BYTES: usize = 16;

/// Height of the tree, number of assets per entry, and byte width within
/// which every balance and every sum must stay.
#[derive(Clone, Copy, Debug, PartialEq, Eq, Structural)]
pub struct Shape {
    pub levels: usize,
    pub n_assets: usize,
    pub n_bytes: usize,
}

/// The greatest amount that `n_bytes` bytes can hold.
pub open spec fn max_amount(n_bytes: nat) -> nat {
    (pow(256, n_bytes) - 1) as nat
}

/// One more byte holds 256 times as many numbers.
pub proof fn lemma_pow256_unfold(n: nat)
    requires
        n > 0,
    ensures
        pow(256, n) == 256 * pow(256, (n - 1) as nat),
{
    reveal(pow);
}

/// Sixteen bytes hold as many numbers as a `u128`.
pub proof fn lemma_pow256_16()
    ensures
        pow(256, 16) == 0x1_0000_0000_0000_0000_0000_0000_0000_0000int,
{
    lemma_pow0(256);
    lemma_pow256_unfold(1);
    lemma_pow256_unfold(2);
    lemma_pow256_unfold(3);
    lemma_pow256_unfold(4);
    lemma_pow256_unfold(5);
    lemma_pow256_unfold(6);
    lemma_pow256_unfold(7);
    lemma_pow256_unfold(8);
    lemma_pow256_unfold(9);
    lemma_pow256_unfold(10);
    lemma_pow256_unfold(11);
    lemma_pow256_unfold(12);
    lemma_pow256_unfold(13);
    lemma_pow256_unfold(14);
    lemma_pow256_unfold(15);
    lemma_pow256_unfold(16);
}

/// A valid width leaves every amount within a `u128`.
pub proof fn lemma_max_amount_bound(n_bytes: nat)
    requires
        n_bytes <= MAX_N_BYTES,
    ensures
        max_amount(n_bytes) <= u128::MAX,
        pow(256, n_bytes) >= 1,
{
    lemma_pow256_16();
    lemma_pow_increases(256, n_bytes, 16);
    lemma_pow0(256);
    lemma_pow_increases(256, 0, n_bytes);
}

impl Shape {
    /// The shape can be built: the tree has at least two leaves and its
    /// leaves can be counted, and an amount fits a machine word.
    pub open spec fn valid(&self) -> bool {
        &&& 1 <= self.levels <= MAX_LEVELS
        &&& 1 <= self.n_bytes <= MAX_N_BYTES
    }

    /// Number of leaves of the tree.
    pub open spec fn spec_capacity(&self) -> nat {
        pow2(self.levels as nat)
    }

    /// Greatest amount that a balance or a sum may reach.
    pub open spec fn spec_max_amount(&self) -> nat {
        max_amount(self.n_bytes as nat)
    }

    /// The shape with the given height, number of assets and byte width.
    pub fn new(levels: usize, n_assets: usize, n_bytes: usize) -> (shape: Self)
        ensures
            shape.levels == levels,
            shape.n_assets == n_assets,
            shape.n_bytes == n_bytes,
    {
        Shape { levels, n_assets, n_bytes }
    }

    /// Whether the shape can be built.
    pub fn is_valid(&self) -> (ok: bool)
        ensures
            ok == self.valid(),
    {
        1 <= self.levels && self.levels <= MAX_LEVELS && 1 <= self.n_bytes && self.n_bytes
            <= MAX_N_BYTES
    }

    /// Number of leaves of the tree: two to the power `levels`.
    pub fn capacity(&self) -> (n: usize)
        requires
            self.valid(),
        ensures
            n == self.spec_capacity(),
            2 <= n <= 0x8000_0000,
    {
        let mut n: usize = 1;
        let mut k: usize = 0;
        proof {
            lemma2_to64();
        }
        while k < self.levels
            invariant
                k <= self.levels <= MAX_LEVELS,
                n == pow2(k as nat),
                pow2(31) == 0x8000_0000,
            decreases self.levels - k,
        {
            proof {
                lemma_pow2_unfold((k + 1) as nat);
                if k + 1 < 31 {
                    lemma_pow2_strictly_increases((k + 1) as nat, 31);
                }
            }
            n = n * 2;
            k = k + 1;
        }
        proof {
            lemma_pow2_unfold(1);
            if self.levels > 1 {
                lemma_pow2_strictly_increases(1, self.levels as nat);
            }
            if self.levels < 31 {
                lemma_pow2_strictly_increases(self.levels as nat, 31);
            }
        }
        n
    }

    /// Greatest amount that a balance or a sum may reach: the largest
    /// number of `n_bytes` bytes.
    pub fn max_amount(&self) -> (m: u128)
        requires
            self.valid(),
        ensures
            m == self.spec_max_amount(),
    {
        let mut m: u128 = 0;
        let mut k: usize = 0;
        proof {
            lemma_pow0(256);
        }
        while k < self.n_bytes
            invariant
                k <= self.n_bytes <= MAX_N_BYTES,
                m == pow(256, k as nat) - 1,
            decreases self.n_bytes - k,
        {
            proof {
                lemma_pow256_unfold((k + 1) as nat);
                lemma_max_amount_bound((k + 1) as nat);
            }
            m = m * 256 + 255;
            k = k + 1;
        }
        m
    }
}

} // verus!
