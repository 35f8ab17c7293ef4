//! What holds of the matrices: the recursive structure of the square ones,
//! that their thresholds are a permutation, and that a matrix is fixed by
//! its dimensions.

use crate::bits::{interleave, lemma_pow2_zero};
use crate::element::MatrixElement;
use crate::generate::{entry, fits, is_bayer_matrix, lemma_log2_bounds, log2, top_output_bit};
use vstd::arithmetic::div_mod::{
    lemma_div_denominator, lemma_fundamental_div_mod, lemma_fundamental_div_mod_converse,
    lemma_mod_breakdown, lemma_mod_mod,
};
use vstd::arithmetic::power2::{
    lemma_pow2_adds, lemma_pow2_pos, lemma_pow2_strictly_increases, lemma_pow2_unfold, pow2,
};
use vstd::prelude::*;

verus! {

/// 1 where the lowest bits of `i` and `j` differ, else 0.
spec fn differ(i: nat, j: nat) -> nat {
    if i % 2 == j % 2 {
        0
    } else {
        1
    }
}

/// The threshold of cell (`i`, `j`) in `width` output bits, with the bits
/// of `i ^ j` read directly off `i` and `j`.
spec fn threshold(i: nat, j: nat, width: nat) -> nat
    decreases width,
{
    if width == 0 {
        0
    } else if width == 1 {
        differ(i, j)
    } else {
        differ(i, j) * pow2((width - 1) as nat) + (i % 2) * pow2((width - 2) as nat) + threshold(
            i / 2,
            j / 2,
            (width - 2) as nat,
        )
    }
}

proof fn lemma_threshold_of_cell(i: usize, j: usize, width: nat)
    ensures
        interleave((i ^ j) as nat, i as nat, width) == threshold(i as nat, j as nat, width),
    decreases width,
{
    assert((i ^ j) % 2 == (if i % 2 == j % 2 {
        0usize
    } else {
        1usize
    })) by (bit_vector);
    if width >= 2 {
        assert((i ^ j) / 2 == (i / 2) ^ (j / 2)) by (bit_vector);
        lemma_threshold_of_cell(i / 2, j / 2, (width - 2) as nat);
    }
}

/// Splitting off the top bit of each index of a `2^(p+1)` square: the
/// remaining bits give the threshold of the `2^p` square, scaled by four.
proof fn lemma_threshold_split(p: nat, i: nat, j: nat)
    requires
        i < pow2(p + 1),
        j < pow2(p + 1),
    ensures
        threshold(i, j, 2 * p + 2) == 4 * threshold(i % pow2(p), j % pow2(p), 2 * p) + 2 * differ(
            i / pow2(p),
            j / pow2(p),
        ) + i / pow2(p),
    decreases p,
{
    lemma_pow2_zero();
    lemma_pow2_unfold(p + 1);
    lemma_pow2_pos(p);
    if p == 0 {
        lemma_pow2_unfold(1);
        assert(threshold(i, j, 2) == differ(i, j) * pow2(1) + (i % 2) * pow2(0) + threshold(
            i / 2,
            j / 2,
            0,
        ));
        assert(differ(i, j) * pow2(1) == differ(i, j) * 2);
        assert((i % 2) * pow2(0) == i % 2);
        assert(i % 1 == 0 && j % 1 == 0 && i / 1 == i && j / 1 == j);
    } else {
        let q = (p - 1) as nat;
        let n = pow2(p);
        let h = pow2(q);
        lemma_pow2_unfold(p);
        lemma_pow2_pos(q);
        assert(i / 2 < n && j / 2 < n);
        lemma_threshold_split(q, i / 2, j / 2);
        let ii = i % n;
        let jj = j % n;
        // The low bits of the reduced indices are those of the indices.
        lemma_mod_mod(i as int, 2, h as int);
        lemma_mod_mod(j as int, 2, h as int);
        assert(ii % 2 == i % 2 && jj % 2 == j % 2);
        assert(differ(ii, jj) == differ(i, j));
        // Halving commutes with reducing modulo the size.
        assert(ii / 2 == (i / 2) % h) by {
            lemma_mod_breakdown(i as int, 2, h as int);
        }
        assert(jj / 2 == (j / 2) % h) by {
            lemma_mod_breakdown(j as int, 2, h as int);
        }
        lemma_div_denominator(i as int, 2, h as int);
        lemma_div_denominator(j as int, 2, h as int);
        assert(i / n == (i / 2) / h && j / n == (j / 2) / h);
        // Powers of two in the unfolded thresholds.
        let e = (2 * p - 2) as nat;
        lemma_pow2_unfold(e + 1);
        lemma_pow2_unfold(e + 2);
        lemma_pow2_unfold(e + 3);
        assert(2 * p + 1 == e + 3 && 2 * p == e + 2 && 2 * p - 1 == e + 1);
        let d = differ(i, j);
        let b = i % 2;
        let rest = threshold((i / 2) % h, (j / 2) % h, e);
        assert(threshold(i, j, 2 * p + 2) == d * pow2(e + 3) + b * pow2(e + 2) + threshold(
            i / 2,
            j / 2,
            e + 2,
        ));
        assert(threshold(ii, jj, e + 2) == d * pow2(e + 1) + b * pow2(e) + rest);
        assert(d * pow2(e + 3) == 4 * (d * pow2(e + 1))) by (nonlinear_arith)
            requires
                pow2(e + 3) == 4 * pow2(e + 1),
        ;
        assert(b * pow2(e + 2) == 4 * (b * pow2(e))) by (nonlinear_arith)
            requires
                pow2(e + 2) == 4 * pow2(e),
        ;
    }
}

/// `log2(x)` is `k` for every `x` from `2^k` up to `2^(k+1)`.
proof fn lemma_log2_exact(x: nat, k: nat)
    requires
        pow2(k) <= x < pow2(k + 1),
    ensures
        log2(x) == k,
{
    lemma_pow2_pos(k);
    lemma_log2_bounds(x);
    let l = log2(x);
    if l < k {
        if l + 1 < k {
            lemma_pow2_strictly_increases(l + 1, k);
        }
    } else if l > k {
        if k + 1 < l {
            lemma_pow2_strictly_increases(k + 1, l);
        }
    }
}

/// The thresholds of the `2^p` square.
proof fn lemma_entry_square(p: nat, i: usize, j: usize)
    requires
        i < pow2(p),
        j < pow2(p),
    ensures
        entry(pow2(p), pow2(p), i, j) == threshold(i as nat, j as nat, 2 * p),
{
    let n = pow2(p);
    lemma_pow2_pos(p);
    lemma_pow2_unfold(p + 1);
    lemma_log2_exact((2 * n - 1) as nat, p);
    assert(top_output_bit(n, n) == if p == 0 {
        0
    } else {
        (2 * p - 1) as nat
    });
    lemma_threshold_of_cell(i, j, top_output_bit(n, n) + 1);
    if p == 0 {
        lemma_pow2_zero();
        assert(i == 0 && j == 0);
        assert(threshold(0, 0, 1) == 0);
    }
}

/// The amount added to four times the half-size threshold in each quadrant
/// of a square: 0 top left, 2 top right, 3 bottom left, 1 bottom right.
pub open spec fn quadrant_offset(row_half: nat, col_half: nat) -> nat {
    if row_half == 0 {
        if col_half == 0 {
            0
        } else {
            2
        }
    } else {
        if col_half == 0 {
            3
        } else {
            1
        }
    }
}

/// Self-similarity: each `n` by `n` quadrant of the `2n` by `2n` matrix, for
/// `n` a power of two, holds four times the `n` by `n` matrix plus the
/// quadrant's offset.
pub proof fn lemma_self_similar(n: usize, p: nat, i: usize, j: usize)
    requires
        n == pow2(p),
        i < 2 * n,
        j < 2 * n,
    ensures
        entry((2 * n) as nat, (2 * n) as nat, i, j) == 4 * entry(
            n as nat,
            n as nat,
            (i % n) as usize,
            (j % n) as usize,
        ) + quadrant_offset(i as nat / n as nat, j as nat / n as nat),
{
    lemma_pow2_pos(p);
    lemma_pow2_unfold(p + 1);
    lemma_entry_square(p + 1, i, j);
    assert(2 * (p + 1) == 2 * p + 2);
    lemma_entry_square(p, (i % n) as usize, (j % n) as usize);
    lemma_threshold_split(p, i as nat, j as nat);
    let qi = i as nat / n as nat;
    let qj = j as nat / n as nat;
    assert(qi < 2) by (nonlinear_arith)
        requires
            qi == i as nat / n as nat,
            i < 2 * n,
            n > 0,
    ;
    assert(qj < 2) by (nonlinear_arith)
        requires
            qj == j as nat / n as nat,
            j < 2 * n,
            n > 0,
    ;
    assert(quadrant_offset(qi, qj) == 2 * differ(qi, qj) + qi);
    assert(entry((2 * n) as nat, (2 * n) as nat, i, j) == threshold(i as nat, j as nat, 2 * p + 2));
}

/// The top bit of the column that the two lowest bits of a threshold give.
spec fn col_bit(v: nat) -> nat {
    if (v / 2) % 2 == 0 {
        v % 2
    } else {
        (1 - v % 2) as nat
    }
}

/// The row of the `2^p` square whose cell holds threshold `v`.
spec fn row_of(v: nat, p: nat) -> nat
    decreases p,
{
    if p == 0 {
        0
    } else {
        (v % 2) * pow2((p - 1) as nat) + row_of(v / 4, (p - 1) as nat)
    }
}

/// The column of the `2^p` square whose cell holds threshold `v`.
spec fn col_of(v: nat, p: nat) -> nat
    decreases p,
{
    if p == 0 {
        0
    } else {
        col_bit(v) * pow2((p - 1) as nat) + col_of(v / 4, (p - 1) as nat)
    }
}

/// `row_of` and `col_of` recover a cell from its threshold.
proof fn lemma_threshold_inverse(p: nat, i: nat, j: nat)
    requires
        i < pow2(p),
        j < pow2(p),
    ensures
        threshold(i, j, 2 * p) < pow2(2 * p),
        row_of(threshold(i, j, 2 * p), p) == i,
        col_of(threshold(i, j, 2 * p), p) == j,
    decreases p,
{
    lemma_pow2_zero();
    if p > 0 {
        let q = (p - 1) as nat;
        let h = pow2(q);
        lemma_pow2_pos(q);
        lemma_pow2_unfold(p);
        lemma_pow2_unfold(2 * q + 1);
        lemma_pow2_unfold(2 * q + 2);
        assert(2 * p == 2 * q + 2);
        lemma_threshold_split(q, i, j);
        lemma_threshold_inverse(q, i % h, j % h);
        let x = threshold(i % h, j % h, 2 * q);
        let qi = i / h;
        let qj = j / h;
        assert(qi < 2) by (nonlinear_arith)
            requires
                qi == i / h,
                i < 2 * h,
                h > 0,
        ;
        assert(qj < 2) by (nonlinear_arith)
            requires
                qj == j / h,
                j < 2 * h,
                h > 0,
        ;
        let t = threshold(i, j, 2 * p);
        assert(t == 4 * x + 2 * differ(qi, qj) + qi);
        assert(t % 2 == qi && (t / 2) % 2 == differ(qi, qj) && t / 4 == x);
        assert(col_bit(t) == qj);
        lemma_fundamental_div_mod(i as int, h as int);
        lemma_fundamental_div_mod(j as int, h as int);
        assert(row_of(t, p) == qi * h + i % h) by (nonlinear_arith)
            requires
                row_of(t, p) == (t % 2) * h + row_of(t / 4, q),
                t % 2 == qi,
                row_of(x, q) == i % h,
                t / 4 == x,
        ;
        assert(col_of(t, p) == qj * h + j % h) by (nonlinear_arith)
            requires
                col_of(t, p) == col_bit(t) * h + col_of(t / 4, q),
                col_bit(t) == qj,
                col_of(x, q) == j % h,
                t / 4 == x,
        ;
        assert(qi * h + i % h == i) by (nonlinear_arith)
            requires
                i == h * qi + i % h,
        ;
        assert(qj * h + j % h == j) by (nonlinear_arith)
            requires
                j == h * qj + j % h,
        ;
    }
}

/// Every threshold below `2^(2p)` is that of some cell of the `2^p` square.
proof fn lemma_threshold_onto(p: nat, v: nat)
    requires
        v < pow2(2 * p),
    ensures
        row_of(v, p) < pow2(p),
        col_of(v, p) < pow2(p),
        threshold(row_of(v, p), col_of(v, p), 2 * p) == v,
    decreases p,
{
    lemma_pow2_zero();
    if p > 0 {
        let q = (p - 1) as nat;
        let h = pow2(q);
        lemma_pow2_pos(q);
        lemma_pow2_unfold(p);
        lemma_pow2_unfold(2 * q + 1);
        lemma_pow2_unfold(2 * q + 2);
        assert(2 * p == 2 * q + 2);
        let x = v / 4;
        lemma_threshold_onto(q, x);
        let r = row_of(x, q);
        let c = col_of(x, q);
        let qi = v % 2;
        let qj = col_bit(v);
        let i = qi * h + r;
        let j = qj * h + c;
        assert(row_of(v, p) == i);
        assert(col_of(v, p) == j);
        assert(i < 2 * h && j < 2 * h) by (nonlinear_arith)
            requires
                i == qi * h + r,
                j == qj * h + c,
                qi < 2,
                qj < 2,
                r < h,
                c < h,
        ;
        lemma_fundamental_div_mod_converse(i as int, h as int, qi as int, r as int);
        lemma_fundamental_div_mod_converse(j as int, h as int, qj as int, c as int);
        lemma_threshold_split(q, i, j);
        assert(differ(qi, qj) == (v / 2) % 2);
    }
}

/// Some cell of the `n` by `m` matrix holds threshold `v`.
pub open spec fn occurs(n: nat, m: nat, v: nat) -> bool {
    exists|i: usize, j: usize| i < n && j < m && #[trigger] entry(n, m, i, j) == v
}

/// Permutation: for `n` a power of two, the thresholds of the `n` by `n`
/// matrix are the numbers below `n * n`, each in exactly one cell.
pub proof fn lemma_permutation(n: usize, p: nat)
    requires
        n == pow2(p),
    ensures
        forall|i: usize, j: usize| i < n && j < n ==> #[trigger] entry(n as nat, n as nat, i, j) < n * n,
        forall|i1: usize, j1: usize, i2: usize, j2: usize|
            i1 < n && j1 < n && i2 < n && j2 < n && #[trigger] entry(n as nat, n as nat, i1, j1)
                == #[trigger] entry(n as nat, n as nat, i2, j2) ==> i1 == i2 && j1 == j2,
        forall|v: nat| v < n * n ==> #[trigger] occurs(n as nat, n as nat, v),
{
    lemma_pow2_adds(p, p);
    assert(p + p == 2 * p);
    assert forall|i: usize, j: usize| i < n && j < n implies #[trigger] entry(n as nat, n as nat, i, j) < n * n by {
        lemma_entry_square(p, i, j);
        lemma_threshold_inverse(p, i as nat, j as nat);
    }
    assert forall|i1: usize, j1: usize, i2: usize, j2: usize|
        i1 < n && j1 < n && i2 < n && j2 < n && #[trigger] entry(n as nat, n as nat, i1, j1)
            == #[trigger] entry(n as nat, n as nat, i2, j2) implies i1 == i2 && j1 == j2 by {
        lemma_entry_square(p, i1, j1);
        lemma_entry_square(p, i2, j2);
        lemma_threshold_inverse(p, i1 as nat, j1 as nat);
        lemma_threshold_inverse(p, i2 as nat, j2 as nat);
    }
    assert forall|v: nat| v < n * n implies #[trigger] occurs(n as nat, n as nat, v) by {
        lemma_threshold_onto(p, v);
        let i = row_of(v, p) as usize;
        let j = col_of(v, p) as usize;
        lemma_entry_square(p, i, j);
        assert(entry(n as nat, n as nat, i, j) == v);
    }
}

/// For `n` a power of two, the thresholds of the `n` by `n` matrix fit in
/// `bits` bits exactly when `n * n <= 2^bits`: an element type of fewer
/// bits cannot hold the matrix.
pub proof fn lemma_fits_square(n: usize, p: nat, bits: nat)
    requires
        n == pow2(p),
    ensures
        fits(n as nat, n as nat, bits) <==> n * n <= pow2(bits),
{
    lemma_permutation(n, p);
    lemma_pow2_pos(p);
    if n * n > pow2(bits) {
        let v = (n * n - 1) as nat;
        assert(occurs(n as nat, n as nat, v));
        let (i, j) = choose|i: usize, j: usize|
            i < n && j < n && #[trigger] entry(n as nat, n as nat, i, j) == v;
        assert(entry(n as nat, n as nat, i, j) >= pow2(bits));
    }
}

/// Determinism: a matrix is fixed by its dimensions and its element type;
/// two matrices that both hold the thresholds are the same value.
pub proof fn lemma_deterministic<T: MatrixElement, const N: usize, const M: usize>(
    a: [[T; M]; N],
    b: [[T; M]; N],
)
    requires
        is_bayer_matrix(a),
        is_bayer_matrix(b),
    ensures
        a == b,
{
    broadcast use vstd::array::axiom_array_ext_equal;

    assert forall|i: int| 0 <= i < N implies a[i] == b[i] by {
        assert forall|j: int| 0 <= j < M implies a[i][j] == b[i][j] by {
            T::lemma_as_nat_injective(a[i][j], b[i][j]);
        }
        assert(a[i] =~= b[i]);
    }
    assert(a =~= b);
}

} // verus!
