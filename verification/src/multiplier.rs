//! A shift-and-add multiplier: for every set bit of the second factor the
//! first factor is shifted into place and accumulated.

use vstd::prelude::*;

use vstd::arithmetic::div_mod::{lemma_breakdown, lemma_small_mod};
use vstd::arithmetic::power2::{lemma2_to64, lemma_pow2_pos, lemma_pow2_unfold, pow2};
use vstd::bits::{lemma_u64_pow2_no_overflow, lemma_u64_shl_is_mul, lemma_u64_shr_is_div};

verus! {

/// Multiplies by shifting and adding; the result is the product wrapped to
/// the word.
pub fn multiplier(a: u32, b: u32) -> (r: u32)
    ensures
        r as int == (a * b) % (u32::MAX as int + 1),
{
    let aw: u64 = a as u64;
    let bw: u64 = b as u64;
    let mut result: u64 = 0;
    let mut i: u64 = 0;
    proof {
        lemma2_to64();
        assert(pow2(0) == 1);
        assert((bw as int) % 1int == 0);
    }
    while i < 32
        invariant
            0 <= i <= 32,
            aw == a as u64,
            bw == b as u64,
            result as int == (aw as int) * ((bw as int) % (pow2(i as nat) as int)),
        decreases 32 - i,
    {
        proof {
            lemma_u64_pow2_no_overflow(i as nat);
            lemma_u64_shl_is_mul(1u64, i);
        }
        let mask: u64 = 1u64 << i;
        let b_bit: u64 = if bw & mask > 0 {
            1
        } else {
            0
        };
        proof {
            let p = pow2(i as nat) as int;
            let p2 = pow2(i as nat + 1) as int;
            lemma_pow2_pos(i as nat);
            lemma_pow2_unfold(i as nat + 1);
            assert(p2 == p * 2);
            lemma_u64_shr_is_div(bw, i);
            assert((bw & (1u64 << i) > 0) == ((bw >> i) & 1 == 1)) by (bit_vector)
                requires
                    i < 64u64,
            ;
            assert(((bw >> i) & 1) == (bw >> i) % 2) by (bit_vector);
            assert(b_bit == (bw as int / p) % 2);
            lemma_breakdown(bw as int, p, 2);
            assert(bw as int % p2 == bw as int % p + b_bit * p);
        }
        if b_bit == 1 {
            proof {
                let p = pow2(i as nat) as int;
                lemma2_to64();
                lemma_pow2_pos(i as nat);
                if (i as nat) < 31 {
                    vstd::arithmetic::power2::lemma_pow2_strictly_increases(i as nat, 31);
                }
                assert(p <= 0x80000000);
                assert(aw * p <= 0xffffffff * 0x80000000) by (nonlinear_arith)
                    requires
                        0 <= aw <= 0xffffffff,
                        0 < p <= 0x80000000,
                ;
                lemma_u64_shl_is_mul(aw, i);
                assert(result + aw * p <= 0xffffffffffffffff) by (nonlinear_arith)
                    requires
                        result == aw * ((bw as int) % p),
                        0 <= aw <= 0xffffffff,
                        0 <= (bw as int) % p <= p - 1,
                        0 < p <= 0x80000000,
                ;
            }
            let addend: u64 = aw << i;
            let ghost old_result = result;
            result = result + addend;
            proof {
                let p = pow2(i as nat) as int;
                let p2 = pow2(i as nat + 1) as int;
                assert(result as int == aw as int * (bw as int % p2)) by (nonlinear_arith)
                    requires
                        result == old_result + aw * p,
                        old_result == aw as int * (bw as int % p),
                        bw as int % p2 == bw as int % p + 1int * p,
                ;
            }
        } else {
            proof {
                let p = pow2(i as nat) as int;
                let p2 = pow2(i as nat + 1) as int;
                assert(result as int == aw as int * (bw as int % p2)) by (nonlinear_arith)
                    requires
                        result == aw as int * (bw as int % p),
                        bw as int % p2 == bw as int % p + 0int * p,
                ;
            }
        }
        i = i + 1;
    }
    proof {
        lemma2_to64();
        assert(bw < pow2(32));
        lemma_small_mod(bw as nat, pow2(32));
        assert(result as int == aw as int * bw as int);
    }
    let reduced: u64 = result % 0x100000000;
    proof {
        assert(reduced as int == (a * b) % (u32::MAX as int + 1));
    }
    reduced as u32
}

} // verus!
