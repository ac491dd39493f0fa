//! Rounding addresses to powers of two.

use crate::hal::mmu::PageSize;
use crate::memory::range_tree::aligned_up;
use crate::memory::vmm2::types::VmError;
use vstd::arithmetic::power2::{lemma2_to64, lemma_pow2_unfold, pow2};
use vstd::bits::{lemma_u64_low_bits_mask_is_mod, low_bits_mask};
use vstd::prelude::*;

verus! {

/// Exactly one bit of `a` is set.
pub open spec fn power_of_two(a: u64) -> bool {
    a != 0 && a & ((a - 1) as u64) == 0
}

/// The largest multiple of `align` that is not above `addr`.
pub open spec fn aligned_down(addr: int, align: int) -> int {
    addr - addr % align
}

proof fn lemma_power_of_two(a: u64) -> (n: nat)
    requires
        power_of_two(a),
    ensures
        n < 64,
        a == pow2(n),
    decreases a,
{
    if a == 1 {
        lemma2_to64();
        0
    } else {
        let b = a / 2;
        assert(a != 0 && a != 1 && a & ((a - 1) as u64) == 0 ==> a % 2 == 0 && (a / 2) & ((a / 2
            - 1) as u64) == 0) by (bit_vector);
        let m = lemma_power_of_two(b);
        lemma_pow2_unfold(m + 1);
        if m == 63 {
            lemma2_to64();
        }
        m + 1
    }
}

/// Clearing the bits below a power of two rounds down to a multiple of it.
pub proof fn lemma_mask(v: u64, align: u64)
    requires
        power_of_two(align),
    ensures
        v & ((align - 1) as u64) == v % align,
        v & !((align - 1) as u64) == v - v % align,
{
    let n = lemma_power_of_two(align);
    let mask = (align - 1) as u64;
    assert(low_bits_mask(n) == mask);
    lemma_u64_low_bits_mask_is_mod(v, n);
    assert(v & !mask == v - (v & mask)) by (bit_vector);
}

pub proof fn lemma_page_sizes()
    ensures
        power_of_two(0x1000),
        power_of_two(0x20_0000),
        power_of_two(0x4000_0000),
        forall|p: PageSize| power_of_two(#[trigger] p.bytes()),
{
    assert(0x1000u64 & 0xfff == 0) by (bit_vector);
    assert(0x20_0000u64 & 0x1f_ffff == 0) by (bit_vector);
    assert(0x4000_0000u64 & 0x3fff_ffff == 0) by (bit_vector);
}

pub fn align_down(addr: u64, align: u64) -> (r: u64)
    requires
        power_of_two(align),
    ensures
        r == aligned_down(addr as int, align as int),
{
    proof {
        lemma_mask(addr, align);
    }
    addr & !(align - 1)
}

/// Rounds up to a multiple of `align`, which must be a power of two.
pub fn align_up_checked(value: u64, align: u64) -> (r: Result<u64, VmError>)
    ensures
        r == (if !power_of_two(align) {
            Err::<u64, VmError>(VmError::InvalidArgument)
        } else if aligned_up(value as int, align as int) > u64::MAX {
            Err(VmError::Overflow)
        } else {
            Ok(aligned_up(value as int, align as int) as u64)
        }),
{
    if align == 0 || align & (align - 1) != 0 {
        return Err(VmError::InvalidArgument);
    }
    proof {
        lemma_round_up(value, align);
    }
    match value.checked_add(align - 1) {
        Some(v) => {
            proof {
                lemma_mask(v, align);
            }
            Ok(v & !(align - 1))
        },
        None => Err(VmError::Overflow),
    }
}

proof fn lemma_round_up(value: u64, align: u64)
    requires
        power_of_two(align),
    ensures
        value + (align - 1) > u64::MAX <==> aligned_up(value as int, align as int) > u64::MAX,
        ({
            let v = value + (align - 1);
            v - v % align as int == aligned_up(value as int, align as int)
        }),
{
    let n = lemma_power_of_two(align);
    let k = (64 - n) as nat;
    let a = align as int;
    let x = value as int;
    let q = x / a;
    let rem = x % a;
    vstd::arithmetic::div_mod::lemma_fundamental_div_mod(x, a);
    vstd::arithmetic::power2::lemma_pow2_adds(n, k);
    lemma2_to64();
    let p = pow2(k) as int;
    assert(a * p == 0x1_0000_0000_0000_0000);
    let v = x + (a - 1);
    if rem == 0 {
        vstd::arithmetic::div_mod::lemma_fundamental_div_mod_converse(v, a, q, a - 1);
        assert(x + (a - 1) <= u64::MAX) by (nonlinear_arith)
            requires
                x == a * q,
                a * p == 0x1_0000_0000_0000_0000,
                x < 0x1_0000_0000_0000_0000,
                a > 0,
        {
            assert(q < p);
            assert(a * q + a <= a * p);
        }
    } else {
        assert(v == a * (q + 1) + (rem - 1)) by (nonlinear_arith)
            requires
                v == x + (a - 1),
                x == a * q + rem,
        ;
        vstd::arithmetic::div_mod::lemma_fundamental_div_mod_converse(v, a, q + 1, rem - 1);
        assert(a * (q + 1) == a * q + a) by (nonlinear_arith);
        if v > u64::MAX {
            assert(a * (q + 1) >= 0x1_0000_0000_0000_0000) by (nonlinear_arith)
                requires
                    a * p == 0x1_0000_0000_0000_0000,
                    v >= 0x1_0000_0000_0000_0000,
                    v == a * (q + 1) + (rem - 1),
                    0 <= rem - 1 < a,
                    a > 0,
            {
                assert(q + 1 >= p);
            }
        }
    }
}

} // verus!
