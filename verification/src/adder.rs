//! A ripple-carry adder: machine addition rebuilt bit by bit.

use vstd::prelude::*;

use vstd::arithmetic::div_mod::{
    lemma_breakdown, lemma_fundamental_div_mod_converse, lemma_small_mod,
};
use vstd::arithmetic::power2::{lemma2_to64, lemma_pow2_pos, lemma_pow2_unfold, pow2};
use vstd::bits::{lemma_u64_pow2_no_overflow, lemma_u64_shl_is_mul, lemma_u64_shr_is_div};

verus! {

/// Adds bit by bit: exclusive-or for the sum bit, majority vote for the
/// carry.  The result is the sum of the two words, wrapped to the machine
/// word.
pub fn add(left: usize, right: usize) -> (r: usize)
    ensures
        r as int == (left + right) % (usize::MAX as int + 1),
{
    let l: u64 = left as u64;
    let g: u64 = right as u64;
    let mut result: u64 = 0;
    let mut carry: u64 = 0;
    let mut i: u64 = 0;
    proof {
        lemma2_to64();
    }
    while i < 64
        invariant
            0 <= i <= 64,
            carry <= 1,
            l == left as u64,
            g == right as u64,
            result < pow2(i as nat),
            (l as int) % (pow2(i as nat) as int) + (g as int) % (pow2(i as nat) as int)
                == result as int + (carry as int) * (pow2(i as nat) as int),
        decreases 64 - i,
    {
        proof {
            lemma_u64_pow2_no_overflow(i as nat);
            lemma_u64_shl_is_mul(1u64, i);
        }
        let mask: u64 = 1u64 << i;
        let current_left_bit: u64 = if l & mask > 0 {
            1
        } else {
            0
        };
        let current_right_bit: u64 = if g & mask > 0 {
            1
        } else {
            0
        };
        let sum_bit: u64 = current_left_bit ^ current_right_bit ^ carry;
        let new_carry: u64 = (current_left_bit & current_right_bit) | (current_left_bit & carry) | (
        current_right_bit & carry);
        proof {
            let p = pow2(i as nat) as int;
            let p2 = pow2(i as nat + 1) as int;
            lemma_pow2_pos(i as nat);
            lemma_pow2_unfold(i as nat + 1);
            assert(p2 == p * 2);
            lemma_u64_shr_is_div(l, i);
            lemma_u64_shr_is_div(g, i);
            assert((l & (1u64 << i) > 0) == ((l >> i) & 1 == 1)) by (bit_vector)
                requires
                    i < 64u64,
            ;
            assert((g & (1u64 << i) > 0) == ((g >> i) & 1 == 1)) by (bit_vector)
                requires
                    i < 64u64,
            ;
            assert(((l >> i) & 1) == (l >> i) % 2) by (bit_vector);
            assert(((g >> i) & 1) == (g >> i) % 2) by (bit_vector);
            assert(current_left_bit == (l as int / p) % 2);
            assert(current_right_bit == (g as int / p) % 2);
            lemma_breakdown(l as int, p, 2);
            lemma_breakdown(g as int, p, 2);
            assert(l as int % p2 == l as int % p + current_left_bit * p);
            assert(g as int % p2 == g as int % p + current_right_bit * p);
            assert(sum_bit + 2 * new_carry == current_left_bit + current_right_bit + carry)
                by (bit_vector)
                requires
                    current_left_bit <= 1,
                    current_right_bit <= 1,
                    carry <= 1,
                    sum_bit == current_left_bit ^ current_right_bit ^ carry,
                    new_carry == (current_left_bit & current_right_bit) | (current_left_bit & carry)
                        | (current_right_bit & carry),
            ;
        }
        let addend: u64 = sum_bit << i;
        proof {
            lemma_u64_pow2_no_overflow(i as nat);
            assert(sum_bit <= 1 && new_carry <= 1) by (bit_vector)
                requires
                    current_left_bit <= 1,
                    current_right_bit <= 1,
                    carry <= 1,
                    sum_bit == current_left_bit ^ current_right_bit ^ carry,
                    new_carry == (current_left_bit & current_right_bit) | (current_left_bit & carry)
                        | (current_right_bit & carry),
            ;
            if sum_bit == 0 {
                assert(sum_bit * pow2(i as nat) == 0);
            } else {
                assert(sum_bit == 1);
                assert(sum_bit * pow2(i as nat) == pow2(i as nat));
            }
            lemma_u64_shl_is_mul(sum_bit, i);
            assert(addend == sum_bit * pow2(i as nat));
            assert((result | addend) == result + addend) by (bit_vector)
                requires
                    i < 64u64,
                    result < (1u64 << i),
                    addend == sum_bit << i,
                    sum_bit <= 1u64,
                    (1u64 << i) > 0,
            ;
        }
        let ghost old_result = result;
        let ghost old_carry = carry;
        result = result | addend;
        carry = new_carry;
        proof {
            let p = pow2(i as nat) as int;
            let p2 = pow2(i as nat + 1) as int;
            assert(result == old_result + sum_bit * p);
            assert(result < p2);
            assert(l as int % p2 + g as int % p2 == (l as int % p + g as int % p)
                + (current_left_bit + current_right_bit) * p) by (nonlinear_arith)
                requires
                    l as int % p2 == l as int % p + current_left_bit * p,
                    g as int % p2 == g as int % p + current_right_bit * p,
            ;
            assert(l as int % p2 + g as int % p2 == result + carry * p2) by (nonlinear_arith)
                requires
                    l as int % p2 + g as int % p2 == (l as int % p + g as int % p)
                        + (current_left_bit + current_right_bit) * p,
                    l as int % p + g as int % p == old_result + old_carry * p,
                    sum_bit + 2 * new_carry == current_left_bit + current_right_bit + old_carry,
                    result == old_result + sum_bit * p,
                    carry == new_carry,
                    p2 == p * 2,
            ;
        }
        i = i + 1;
    }
    proof {
        lemma2_to64();
        assert(pow2(64) == 0x10000000000000000);
        assert(l < pow2(64) && g < pow2(64));
        lemma_small_mod(l as nat, pow2(64));
        lemma_small_mod(g as nat, pow2(64));
        lemma_fundamental_div_mod_converse(
            l as int + g as int,
            pow2(64) as int,
            carry as int,
            result as int,
        );
        assert(result == (l + g) % (pow2(64) as int));
    }
    if usize::BITS == 64 {
        proof {
            assert(result as int == (left + right) % (usize::MAX as int + 1));
        }
        result as usize
    } else {
        let m: u64 = usize::MAX as u64;
        let reduced: u64 = result % (m + 1);
        proof {
            assert(usize::BITS == 32);
            assert(l < 0x100000000 && g < 0x100000000);
            lemma_small_mod((l + g) as nat, pow2(64));
            assert(result == l + g);
        }
        reduced as usize
    }
}

} // verus!
