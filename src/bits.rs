//! The bit interleaver and the value of a single cell.

use vstd::arithmetic::div_mod::{lemma_mod_breakdown, lemma_mod_multiples_vanish};
use vstd::arithmetic::power::lemma_pow0;
use vstd::arithmetic::power2::{lemma_pow2, lemma_pow2_pos, lemma_pow2_unfold, pow2};
use vstd::bits::{lemma_usize_pow2_no_overflow, lemma_usize_shl_is_mul, lemma_usize_shr_is_div};
use vstd::prelude::*;

verus! {

/// The bits of `a` and `b` interleaved into `width` output bits: from the
/// most significant output bit down, bit 0 of `a`, bit 0 of `b`, bit 1 of
/// `a`, bit 1 of `b`, and so on until the output bits run out.
pub open spec fn interleave(a: nat, b: nat, width: nat) -> nat
    decreases width,
{
    if width == 0 {
        0
    } else if width == 1 {
        a % 2
    } else {
        (a % 2) * pow2((width - 1) as nat) + (b % 2) * pow2((width - 2) as nat) + interleave(
            a / 2,
            b / 2,
            (width - 2) as nat,
        )
    }
}

/// The threshold of the cell in row `i` and column `j`, for an output whose
/// most significant bit is `highest_output_bit`.
pub open spec fn cell_value(i: usize, j: usize, highest_output_bit: nat) -> nat {
    interleave((i ^ j) as nat, i as nat, highest_output_bit + 1)
}

/// `2^0 == 1`.
pub(crate) proof fn lemma_pow2_zero()
    ensures
        pow2(0) == 1,
{
    lemma_pow2(0);
    lemma_pow0(2);
}

/// The interleaving of at most two output bits.
proof fn lemma_interleave_short(a: nat, b: nat)
    ensures
        interleave(a, b, 0) == 0,
        interleave(a, b, 1) == a % 2,
        interleave(a, b, 2) == (a % 2) * 2 + b % 2,
{
    lemma_pow2_zero();
    lemma_pow2_unfold(1);
    assert(interleave(a / 2, b / 2, 0) == 0);
    assert(interleave(a, b, 2) == (a % 2) * pow2(1) + (b % 2) * pow2(0) + interleave(a / 2, b / 2, 0));
    assert((a % 2) * pow2(1) == (a % 2) * 2);
    assert((b % 2) * pow2(0) == b % 2);
}

/// Setting bit `e` of a value whose bits up to `e` are clear adds `2^e`.
proof fn lemma_set_clear_bit(acc: usize, e: nat)
    requires
        e < usize::BITS,
        acc as nat % pow2(e + 1) == 0,
    ensures
        pow2(e) <= usize::MAX,
        acc | (pow2(e) as usize) == acc + pow2(e),
        (acc + pow2(e)) % (pow2(e) as int) == 0,
        acc as nat % pow2(e) == 0,
{
    lemma_usize_pow2_no_overflow(e);
    lemma_pow2_pos(e);
    lemma_pow2_unfold(e + 1);
    let s = e as usize;
    lemma_usize_shl_is_mul(1, s);
    lemma_usize_shr_is_div(acc, s);
    lemma_mod_breakdown(acc as int, pow2(e) as int, 2);
    assert(pow2(e) * 2 == pow2(e + 1)) by (nonlinear_arith)
        requires
            pow2(e + 1) == 2 * pow2(e),
    ;
    let q = acc as nat / pow2(e);
    assert(q % 2 == 0) by (nonlinear_arith)
        requires
            0 == pow2(e) * (q % 2) + acc as nat % pow2(e),
            pow2(e) > 0,
            q % 2 >= 0,
            acc as nat % pow2(e) >= 0,
    ;
    assert((acc >> s) % 2 == 0 ==> acc | (1usize << s) == acc + (1usize << s)) by (bit_vector)
        requires
            s < usize::BITS,
    ;
    lemma_mod_multiples_vanish(1, acc as int, pow2(e) as int);
}

/// Interleaves the bits of `a` and `b` into an output of
/// `highest_output_bit + 1` bits, starting at the most significant one.
fn interleave_and_reverse_bits(a: usize, b: usize, highest_output_bit: u32) -> (r: usize)
    requires
        highest_output_bit < usize::BITS,
    ensures
        r == interleave(a as nat, b as nat, (highest_output_bit + 1) as nat),
{
    let ghost width: nat = (highest_output_bit + 1) as nat;
    let mut acc: usize = 0;
    let mut bit_o: usize = 1usize << highest_output_bit;
    let mut rest_a: usize = a;
    let mut rest_b: usize = b;
    // Input bits are read at the bottom of `rest_a` and `rest_b`, which shift
    // right after each pair; `left` counts the output bits still to write.
    let ghost mut left: nat = width;
    proof {
        lemma_usize_pow2_no_overflow(highest_output_bit as nat);
        lemma_usize_shl_is_mul(1, highest_output_bit as usize);
        lemma_pow2_pos(width);
    }
    loop
        invariant
            width == highest_output_bit + 1,
            highest_output_bit < usize::BITS,
            1 <= left <= width,
            bit_o == pow2((left - 1) as nat),
            acc as nat % pow2(left) == 0,
            interleave(a as nat, b as nat, width) == acc + interleave(
                rest_a as nat,
                rest_b as nat,
                left,
            ),
        decreases left,
    {
        let ghost e: nat = (left - 1) as nat;
        let ghost acc0: usize = acc;
        proof {
            lemma_set_clear_bit(acc, e);
            lemma_pow2_unfold(left);
            lemma_pow2_zero();
            assert(rest_a & 1 == rest_a % 2) by (bit_vector);
            assert(rest_b & 1 == rest_b % 2) by (bit_vector);
            assert(bit_o >> 1 == bit_o / 2) by (bit_vector);
        }
        if (rest_a & 1) != 0 {
            assert(bit_o == pow2(e) as usize);
            acc |= bit_o;
            assert(rest_a % 2 == 1);
            assert(acc == acc0 + pow2(e));
            assert(acc == acc0 + (rest_a as nat % 2) * pow2(e));
        } else {
            assert(rest_a % 2 == 0);
            assert(acc == acc0 + (rest_a as nat % 2) * pow2(e));
        }
        assert(acc == acc0 + (rest_a as nat % 2) * pow2(e));
        bit_o = bit_o >> 1;
        let ghost acc1: usize = acc;
        proof {
            assert(bit_o >> 1 == bit_o / 2) by (bit_vector);
            assert(acc | 0 == acc) by (bit_vector);
            if e > 0 {
                lemma_pow2_unfold(e);
                lemma_set_clear_bit(acc, (e - 1) as nat);
            }
        }
        if (rest_b & 1) != 0 {
            proof {
                if e > 0 {
                    assert(bit_o == pow2((e - 1) as nat) as usize);
                }
            }
            acc |= bit_o;
            assert(rest_b % 2 == 1);
            proof {
                if e > 0 {
                    let p = pow2((e - 1) as nat);
                    assert(acc == acc1 + p);
                    assert(acc == acc1 + (rest_b as nat % 2) * p);
                }
            }
        } else {
            assert(rest_b % 2 == 0);
            assert(acc == acc1);
            proof {
                if e > 0 {
                    let p = pow2((e - 1) as nat);
                    assert((rest_b as nat % 2) * p == 0) by (nonlinear_arith)
                        requires
                            rest_b as nat % 2 == 0,
                    ;
                }
            }
        }
        assert(e == 0 ==> acc == acc1);
        bit_o = bit_o >> 1;
        if bit_o == 0 {
            proof {
                if e > 0 {
                    lemma_pow2_pos((e - 1) as nat);
                    if e > 1 {
                        lemma_pow2_unfold((e - 1) as nat);
                        lemma_pow2_pos((e - 2) as nat);
                    }
                    assert(e == 1);
                    lemma_interleave_short(rest_a as nat, rest_b as nat);
                    assert(acc == acc1 + (rest_b as nat % 2));
                    assert(acc1 == acc0 + (rest_a as nat % 2) * 2);
                    assert(interleave(rest_a as nat, rest_b as nat, 2) == (rest_a as nat % 2) * 2
                        + (rest_b as nat % 2));
                } else {
                    lemma_interleave_short(rest_a as nat, rest_b as nat);
                    assert(acc == acc0 + (rest_a as nat % 2));
                    assert(interleave(rest_a as nat, rest_b as nat, 1) == rest_a as nat % 2);
                }
            }
            return acc;
        }
        proof {
            if e <= 1 {
                lemma_pow2_zero();
                assert(bit_o == 0);
            }
            lemma_pow2_unfold((e - 1) as nat);
            assert(acc == acc1 + (rest_b as nat % 2) * pow2((e - 1) as nat));
            assert(rest_a >> 1 == rest_a / 2) by (bit_vector);
            assert(rest_b >> 1 == rest_b / 2) by (bit_vector);
        }
        rest_a = rest_a >> 1;
        rest_b = rest_b >> 1;
        proof {
            left = (left - 2) as nat;
        }
    }
}

/// The threshold of the cell in row `i` and column `j`: the bits of `i ^ j`
/// interleaved with those of `i`, in `highest_output_bit + 1` output bits.
pub fn compute_value_at_index(i: usize, j: usize, highest_output_bit: u32) -> (r: usize)
    requires
        highest_output_bit < usize::BITS,
    ensures
        r == cell_value(i, j, highest_output_bit as nat),
{
    interleave_and_reverse_bits(i ^ j, i, highest_output_bit)
}

} // verus!
