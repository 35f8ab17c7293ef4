//! Construction of a whole matrix.

use crate::bits::{cell_value, compute_value_at_index, lemma_pow2_zero};
use crate::element::MatrixElement;
use vstd::arithmetic::power2::{
    lemma2_to64, lemma_pow2_pos, lemma_pow2_strictly_increases, lemma_pow2_unfold, pow2,
};
use vstd::prelude::*;

verus! {

/// The base-2 logarithm of `x`, rounded down (0 for 0 and 1).
pub open spec fn log2(x: nat) -> nat
    decreases x,
{
    if x <= 1 {
        0
    } else {
        1 + log2(x / 2)
    }
}

/// The position of the most significant output bit for an `n` by `m`
/// matrix: with `b` the number of bits that address the larger of the two
/// dimensions, rounded up, it is `2 * b - 1`, or 0 when `b` is 0.
pub open spec fn top_output_bit(n: nat, m: nat) -> nat {
    let bits_n = log2((2 * n - 1) as nat);
    let bits_m = log2((2 * m - 1) as nat);
    let bits = if bits_n > bits_m {
        bits_n
    } else {
        bits_m
    };
    if bits == 0 {
        0
    } else {
        (2 * bits - 1) as nat
    }
}

/// The threshold in row `i` and column `j` of the `n` by `m` matrix.
pub open spec fn entry(n: nat, m: nat, i: usize, j: usize) -> nat {
    cell_value(i, j, top_output_bit(n, m))
}

/// Every threshold of the `n` by `m` matrix is below `2^bits`.
pub open spec fn fits(n: nat, m: nat, bits: nat) -> bool {
    forall|i: usize, j: usize| i < n && j < m ==> #[trigger] entry(n, m, i, j) < pow2(bits)
}

/// `r` holds in each cell the threshold of that cell.
pub open spec fn is_bayer_matrix<T: MatrixElement, const N: usize, const M: usize>(
    r: [[T; M]; N],
) -> bool {
    forall|i: int, j: int|
        0 <= i < N && 0 <= j < M ==> #[trigger] r[i][j].as_nat() == entry(
            N as nat,
            M as nat,
            i as usize,
            j as usize,
        )
}

/// `log2(x)` is the exponent of the largest power of two not above `x`.
pub proof fn lemma_log2_bounds(x: nat)
    requires
        x >= 1,
    ensures
        pow2(log2(x)) <= x < pow2(log2(x) + 1),
    decreases x,
{
    lemma_pow2_zero();
    lemma_pow2_unfold(log2(x) + 1);
    if x > 1 {
        lemma_log2_bounds(x / 2);
        lemma_pow2_unfold(log2(x));
    } else {
        lemma_pow2_unfold(1);
    }
}

/// Every power of two not above `usize::MAX` has an exponent below
/// `usize::BITS`.
proof fn lemma_pow2_below_usize_bits(e: nat)
    requires
        pow2(e) <= usize::MAX,
    ensures
        e < usize::BITS,
{
    lemma2_to64();
    if e >= usize::BITS {
        if e > usize::BITS {
            lemma_pow2_strictly_increases(usize::BITS as nat, e);
        }
    }
}

/// Computes `log2(x)` for a positive `x`.
fn floor_log2(x: usize) -> (r: u32)
    requires
        x > 0,
    ensures
        r == log2(x as nat),
{
    proof {
        lemma_log2_bounds(x as nat);
        lemma_pow2_below_usize_bits(log2(x as nat));
    }
    let mut r: u32 = 0;
    let mut y: usize = x;
    while y > 1
        invariant
            y >= 1,
            r + log2(y as nat) == log2(x as nat),
            log2(x as nat) < usize::BITS,
        decreases y,
    {
        y = y / 2;
        r = r + 1;
    }
    r
}

/// Computes `top_output_bit(n, m)`.
fn highest_output_bit_for(n: usize, m: usize) -> (r: u32)
    requires
        n > 0,
        m > 0,
        top_output_bit(n as nat, m as nat) < usize::BITS,
    ensures
        r == top_output_bit(n as nat, m as nat),
{
    proof {
        lemma_double_fits(n, m);
        lemma_double_fits(m, n);
    }
    let bits_n = floor_log2(n - 1 + n);
    let bits_m = floor_log2(m - 1 + m);
    let bits = if bits_n > bits_m {
        bits_n
    } else {
        bits_m
    };
    if bits == 0 {
        0
    } else {
        2 * bits - 1
    }
}

/// Where the output width fits a `usize`, so does `2 * n - 1`.
proof fn lemma_double_fits(n: usize, m: usize)
    requires
        n > 0,
        m > 0,
        top_output_bit(n as nat, m as nat) < usize::BITS,
    ensures
        2 * n - 1 <= usize::MAX,
{
    let x = (2 * n - 1) as nat;
    let l = log2(x);
    lemma_log2_bounds(x);
    lemma2_to64();
    if 2 * n - 1 > usize::MAX {
        if l + 1 <= usize::BITS {
            if l + 1 < usize::BITS {
                lemma_pow2_strictly_increases(l + 1, usize::BITS as nat);
            }
        }
        assert(l >= usize::BITS);
    }
}

/// The `N` by `M` Bayer matrix, with elements of type `T`.
///
/// Row `i`, column `j` holds `compute_value_at_index(i, j, b)`, where `b` is
/// `top_output_bit(N, M)`. The dimensions must be positive, and every
/// threshold must be representable in `T`.
pub fn matrix<T: MatrixElement, const N: usize, const M: usize>() -> (r: [[T; M]; N])
    requires
        N > 0,
        M > 0,
        top_output_bit(N as nat, M as nat) < usize::BITS,
        fits(N as nat, M as nat, T::bit_width()),
    ensures
        is_bayer_matrix(r),
{
    let highest_output_bit = highest_output_bit_for(N, M);
    proof {
        lemma_pow2_pos(T::bit_width());
    }
    let zero = T::from_cell_value(0);
    let mut out: [[T; M]; N] = [[zero; M]; N];
    let mut i: usize = 0;
    while i < N
        invariant
            i <= N,
            highest_output_bit == top_output_bit(N as nat, M as nat),
            highest_output_bit < usize::BITS,
            fits(N as nat, M as nat, T::bit_width()),
            forall|a: int, b: int|
                0 <= a < i && 0 <= b < M ==> #[trigger] out[a][b].as_nat() == entry(
                    N as nat,
                    M as nat,
                    a as usize,
                    b as usize,
                ),
        decreases N - i,
    {
        let mut row: [T; M] = [zero; M];
        let mut j: usize = 0;
        while j < M
            invariant
                i < N,
                j <= M,
                highest_output_bit == top_output_bit(N as nat, M as nat),
                highest_output_bit < usize::BITS,
                fits(N as nat, M as nat, T::bit_width()),
                forall|b: int|
                    0 <= b < j ==> #[trigger] row[b].as_nat() == entry(
                        N as nat,
                        M as nat,
                        i,
                        b as usize,
                    ),
            decreases M - j,
        {
            let v = compute_value_at_index(i, j, highest_output_bit);
            assert(v == entry(N as nat, M as nat, i, j));
            row[j] = T::from_cell_value(v);
            j += 1;
        }
        out[i] = row;
        i += 1;
    }
    out
}

} // verus!
