//! The two bit-scan operations: the index of the most significant set bit
//! and the index of the least significant set bit of a nonzero `U256`,
//! located by binary search over the bit positions.

use vstd::prelude::*;
use vstd::arithmetic::div_mod::*;
use vstd::arithmetic::mul::*;
use vstd::arithmetic::power2::*;
use crate::bitwise::{and_nat, lemma_and_nat_low_mask, lemma_and_nat_pow2};
use crate::u256::{lemma_view_bound, U256};

verus! {

/// `r` is the index of the most significant set bit of `x`:
/// 2^r <= x < 2^(r+1).
pub open spec fn is_msb(x: nat, r: nat) -> bool {
    pow2(r) <= x < pow2(r + 1)
}

/// `r` is the index of the least significant set bit of `x`:
/// bit `r` of `x` is set and all bits below it are clear.
pub open spec fn is_lsb(x: nat, r: nat) -> bool {
    x % pow2(r) == 0 && (x / pow2(r)) % 2 == 1
}

/// The reason a bit scan can fail: the input has no set bit at all.
#[derive(Clone, Copy, PartialEq, Eq, Structural, Debug)]
pub enum BitMathError {
    ZeroValue,
}

/// Bit scans over an unsigned 256-bit value, defined only for nonzero
/// inputs; bit index 0 is the units bit and 255 the high bit.
pub trait BitMathTrait {
    /// The value the scans read, as a natural number.
    spec fn bits(&self) -> nat;

    /// The index of the most significant set bit.
    fn most_significant_bit(&self) -> (r: u8)
        requires
            self.bits() > 0,
        ensures
            is_msb(self.bits(), r as nat),
    ;

    /// The index of the least significant set bit.
    fn least_significant_bit(&self) -> (r: u8)
        requires
            self.bits() > 0,
        ensures
            is_lsb(self.bits(), r as nat),
    ;
}

/// One step of the downward search for the most significant bit: when the
/// working value (already `x0` shifted down by `r`) still reaches 2^w,
/// shifting by `w` more keeps it nonzero, halves its width, and records
/// that `x0` reaches 2^(r+w).
proof fn lemma_msb_step(x0: nat, x: nat, r: nat, w: nat)
    requires
        x == x0 / pow2(r),
        pow2(w) <= x < pow2(2 * w),
    ensures
        x / pow2(w) == x0 / pow2(r + w),
        1 <= x / pow2(w) < pow2(w),
        pow2(r + w) <= x0,
{
    lemma_pow2_pos(r);
    lemma_pow2_pos(w);
    lemma_pow2_pos(r + w);
    lemma_pow2_adds(r, w);
    lemma_pow2_adds(w, w);
    lemma_div_denominator(x0 as int, pow2(r) as int, pow2(w) as int);
    lemma_multiply_divide_lt(x as int, pow2(w) as int, pow2(w) as int);
    lemma_div_is_ordered(pow2(w) as int, x as int, pow2(w) as int);
    lemma_div_by_self(pow2(w) as int);
    lemma_fundamental_div_mod(x0 as int, pow2(r + w) as int);
    lemma_mod_bound(x0 as int, pow2(r + w) as int);
    lemma_mul_inequality(1, (x0 / pow2(r + w)) as int, pow2(r + w) as int);
    lemma_mul_is_commutative(pow2(r + w) as int, (x0 / pow2(r + w)) as int);
}

impl BitMathTrait for U256 {
    open spec fn bits(&self) -> nat {
        self@
    }

    /// Binary search from the top: test the value against 2^128, 2^64,
    /// ..., 2^2, shifting the survivor down and accumulating the shift;
    /// a final test against 2 settles the last bit.
    #[verifier::rlimit(60)]
    fn most_significant_bit(&self) -> (r: u8) {
        let mut x: U256 = *self;
        let mut r: u8 = 0;
        proof {
            lemma_view_bound(*self);
            lemma2_to64();
            lemma_div_basics(self@ as int);
        }
        if x.ge(&U256::power_of_two(128)) {
            proof {
                lemma_msb_step(self@, x@, r as nat, 128);
            }
            x = x.shr(128);
            r = r + 128;
        }
        if x.ge(&U256::power_of_two(64)) {
            proof {
                lemma_msb_step(self@, x@, r as nat, 64);
            }
            x = x.shr(64);
            r = r + 64;
        }
        if x.ge(&U256::power_of_two(32)) {
            proof {
                lemma_msb_step(self@, x@, r as nat, 32);
            }
            x = x.shr(32);
            r = r + 32;
        }
        if x.ge(&U256::power_of_two(16)) {
            proof {
                lemma_msb_step(self@, x@, r as nat, 16);
            }
            x = x.shr(16);
            r = r + 16;
        }
        if x.ge(&U256::power_of_two(8)) {
            proof {
                lemma_msb_step(self@, x@, r as nat, 8);
            }
            x = x.shr(8);
            r = r + 8;
        }
        if x.ge(&U256::power_of_two(4)) {
            proof {
                lemma_msb_step(self@, x@, r as nat, 4);
            }
            x = x.shr(4);
            r = r + 4;
        }
        if x.ge(&U256::power_of_two(2)) {
            proof {
                lemma_msb_step(self@, x@, r as nat, 2);
            }
            x = x.shr(2);
            r = r + 2;
        }
        if x.ge(&U256::power_of_two(1)) {
            proof {
                lemma_msb_step(self@, x@, r as nat, 1);
            }
            r = r + 1;
        }
        proof {
            let rr = r as nat;
            lemma_pow2_pos(rr);
            lemma_pow2_adds(rr, 1);
            lemma_fundamental_div_mod(self@ as int, pow2(rr) as int);
            lemma_mod_bound(self@ as int, pow2(rr) as int);
            lemma_mul_basics(pow2(rr) as int);
            lemma_mul_is_commutative(pow2(rr) as int, 2);
            assert(self@ / pow2(rr) == 1);
            assert(pow2(rr) <= self@);
            assert(self@ < pow2(rr + 1));
        }
        r
    }

    /// Binary search from the bottom: test the low half of the current
    /// window with a mask, narrowing the window when it holds a set bit
    /// and discarding it (all zeros) otherwise.
    fn least_significant_bit(&self) -> (r: u8) {
        let mut x: U256 = *self;
        let mut r: u8 = 255;
        let ghost mut s: nat = 0;
        proof {
            lemma_view_bound(*self);
            lemma2_to64();
            lemma_div_basics(self@ as int);
            lemma_mod_bound(self@ as int, 1);
            lemma_pow2_adds(128, 128);
            lemma_pow2_pos(256);
            lemma_small_mod(self@, pow2(256));
        }
        if x.bit_and(&U256::low_mask(128)).gt(&U256::zero()) {
            proof {
                lemma_and_nat_low_mask(x@, 128);
            }
            r = r - 128;
        } else {
            proof {
                lemma_and_nat_low_mask(x@, 128);
                lemma_lsb_step(self@, x@, s, 128);
                s = s + 128;
            }
            x = x.shr(128);
        }
        if x.bit_and(&U256::low_mask(64)).gt(&U256::zero()) {
            proof {
                lemma_and_nat_low_mask(x@, 64);
            }
            r = r - 64;
        } else {
            proof {
                lemma_and_nat_low_mask(x@, 64);
                lemma_lsb_step(self@, x@, s, 64);
                s = s + 64;
            }
            x = x.shr(64);
        }
        if x.bit_and(&U256::low_mask(32)).gt(&U256::zero()) {
            proof {
                lemma_and_nat_low_mask(x@, 32);
            }
            r = r - 32;
        } else {
            proof {
                lemma_and_nat_low_mask(x@, 32);
                lemma_lsb_step(self@, x@, s, 32);
                s = s + 32;
            }
            x = x.shr(32);
        }
        if x.bit_and(&U256::low_mask(16)).gt(&U256::zero()) {
            proof {
                lemma_and_nat_low_mask(x@, 16);
            }
            r = r - 16;
        } else {
            proof {
                lemma_and_nat_low_mask(x@, 16);
                lemma_lsb_step(self@, x@, s, 16);
                s = s + 16;
            }
            x = x.shr(16);
        }
        if x.bit_and(&U256::low_mask(8)).gt(&U256::zero()) {
            proof {
                lemma_and_nat_low_mask(x@, 8);
            }
            r = r - 8;
        } else {
            proof {
                lemma_and_nat_low_mask(x@, 8);
                lemma_lsb_step(self@, x@, s, 8);
                s = s + 8;
            }
            x = x.shr(8);
        }
        if x.bit_and(&U256::low_mask(4)).gt(&U256::zero()) {
            proof {
                lemma_and_nat_low_mask(x@, 4);
            }
            r = r - 4;
        } else {
            proof {
                lemma_and_nat_low_mask(x@, 4);
                lemma_lsb_step(self@, x@, s, 4);
                s = s + 4;
            }
            x = x.shr(4);
        }
        if x.bit_and(&U256::low_mask(2)).gt(&U256::zero()) {
            proof {
                lemma_and_nat_low_mask(x@, 2);
            }
            r = r - 2;
        } else {
            proof {
                lemma_and_nat_low_mask(x@, 2);
                lemma_lsb_step(self@, x@, s, 2);
                s = s + 2;
            }
            x = x.shr(2);
        }
        if x.bit_and(&U256::low_mask(1)).gt(&U256::zero()) {
            proof {
                lemma_and_nat_low_mask(x@, 1);
                lemma_mod_bound(x@ as int, 2);
            }
            r = r - 1;
        } else {
            proof {
                lemma_and_nat_low_mask(x@, 1);
                lemma_lsb_step(self@, x@, s, 1);
                lemma_mod_bound((x@ / 2) as int, 2);
                s = s + 1;
            }
        }
        r
    }
}

impl U256 {
    /// The index of the most significant set bit, or a domain error for
    /// the zero value, which has no set bit.
    pub fn try_most_significant_bit(&self) -> (r: Result<u8, BitMathError>)
        ensures
            r is Err <==> self@ == 0,
            r matches Ok(i) ==> is_msb(self@, i as nat),
            r matches Err(e) ==> e == BitMathError::ZeroValue,
    {
        if self.is_zero() {
            Err(BitMathError::ZeroValue)
        } else {
            Ok(self.most_significant_bit())
        }
    }

    /// The index of the least significant set bit, or a domain error for
    /// the zero value, which has no set bit.
    pub fn try_least_significant_bit(&self) -> (r: Result<u8, BitMathError>)
        ensures
            r is Err <==> self@ == 0,
            r matches Ok(i) ==> is_lsb(self@, i as nat),
            r matches Err(e) ==> e == BitMathError::ZeroValue,
    {
        if self.is_zero() {
            Err(BitMathError::ZeroValue)
        } else {
            Ok(self.least_significant_bit())
        }
    }
}

/// Powers of two do not decrease as the exponent grows.
proof fn lemma_pow2_le(e1: nat, e2: nat)
    requires
        e1 <= e2,
    ensures
        pow2(e1) <= pow2(e2),
{
    if e1 < e2 {
        lemma_pow2_strictly_increases(e1, e2);
    }
}

/// A value whose least significant set bit has index `r` is at least 2^r.
pub proof fn lemma_lsb_lower_bound(x: nat, r: nat)
    requires
        is_lsb(x, r),
    ensures
        pow2(r) <= x,
{
    lemma_pow2_pos(r);
    lemma_fundamental_div_mod(x as int, pow2(r) as int);
    lemma_mul_inequality(1, (x / pow2(r)) as int, pow2(r) as int);
    lemma_mul_is_commutative(pow2(r) as int, (x / pow2(r)) as int);
}

/// The least significant set bit never lies above the most significant one.
pub proof fn lemma_lsb_le_msb(x: nat, rl: nat, rm: nat)
    requires
        is_lsb(x, rl),
        is_msb(x, rm),
    ensures
        rl <= rm,
{
    lemma_lsb_lower_bound(x, rl);
    if rl > rm {
        lemma_pow2_le(rm + 1, rl);
    }
}

/// A value below 2^256 keeps its most significant bit index within 0..=255.
pub proof fn lemma_msb_index_range(x: nat, r: nat)
    requires
        is_msb(x, r),
        x < pow2(256),
    ensures
        r <= 255,
{
    if r > 255 {
        lemma_pow2_le(256, r);
    }
}

/// A value below 2^256 keeps its least significant bit index within 0..=255.
pub proof fn lemma_lsb_index_range(x: nat, r: nat)
    requires
        is_lsb(x, r),
        x < pow2(256),
    ensures
        r <= 255,
{
    lemma_lsb_lower_bound(x, r);
    if r > 255 {
        lemma_pow2_le(256, r);
    }
}

/// The bit located by the least significant scan is set, and every bit
/// below it is clear: ANDing with 2^r is nonzero and ANDing with the low
/// mask 2^r - 1 gives zero.
pub proof fn lemma_lsb_mask(x: nat, r: nat)
    requires
        is_lsb(x, r),
    ensures
        and_nat(x, pow2(r)) != 0,
        and_nat(x, (pow2(r) - 1) as nat) == 0,
{
    lemma_pow2_pos(r);
    lemma_and_nat_pow2(x, r);
    lemma_mul_basics(pow2(r) as int);
    lemma_and_nat_low_mask(x, r);
}

/// The two scans meet at the same index exactly on the powers of two:
/// the values with a single set bit.
pub proof fn lemma_power_of_two_iff(x: nat, rl: nat, rm: nat)
    requires
        is_lsb(x, rl),
        is_msb(x, rm),
    ensures
        rl == rm <==> x == pow2(rm),
{
    lemma_lsb_le_msb(x, rl, rm);
    lemma_pow2_pos(rl);
    lemma_pow2_pos(rm);
    if rl == rm {
        lemma_fundamental_div_mod(x as int, pow2(rm) as int);
        lemma_pow2_adds(rm, 1);
        lemma2_to64();
        lemma_mul_is_commutative(pow2(rm) as int, 2);
        lemma_multiply_divide_lt(x as int, pow2(rm) as int, 2);
        lemma_div_is_ordered(pow2(rm) as int, x as int, pow2(rm) as int);
        lemma_div_by_self(pow2(rm) as int);
        lemma_mul_basics(pow2(rm) as int);
        assert(x == pow2(rm));
    }
    if x == pow2(rm) && rl < rm {
        // below the top bit everything is clear, so the low scan cannot
        // stop early: x / 2^rl is the even number 2^(rm - rl)
        lemma_pow2_adds(rl, (rm - rl) as nat);
        lemma_mul_is_commutative(pow2(rl) as int, pow2((rm - rl) as nat) as int);
        lemma_div_multiples_vanish(pow2((rm - rl) as nat) as int, pow2(rl) as int);
        assert(x / pow2(rl) == pow2((rm - rl) as nat));
        lemma_pow2_unfold((rm - rl) as nat);
        lemma_mod_multiples_basic(pow2((rm - rl - 1) as nat) as int, 2);
        lemma_mul_is_commutative(pow2((rm - rl - 1) as nat) as int, 2);
        assert((x / pow2(rl)) % 2 == 0);
    }
}

/// Shifting out `k` of the trailing zeros moves both scan indices down by
/// exactly `k`.
pub proof fn lemma_shift_law(x: nat, rl: nat, rm: nat, k: nat)
    requires
        is_lsb(x, rl),
        is_msb(x, rm),
        0 < k <= rl,
    ensures
        is_lsb(x / pow2(k), (rl - k) as nat),
        is_msb(x / pow2(k), (rm - k) as nat),
{
    lemma_lsb_le_msb(x, rl, rm);
    let q = x / pow2(rl);
    let d = (rl - k) as nat;
    lemma_pow2_pos(rl);
    lemma_pow2_pos(k);
    lemma_pow2_pos(d);
    lemma_fundamental_div_mod(x as int, pow2(rl) as int);
    // x == pow2(rl) * q == pow2(k) * (pow2(rl - k) * q)
    lemma_pow2_adds(k, d);
    lemma_mul_is_associative(pow2(k) as int, pow2(d) as int, q as int);
    lemma_div_multiples_vanish((pow2(d) * q) as int, pow2(k) as int);
    assert(x / pow2(k) == pow2(d) * q);
    // the trailing zeros below rl - k remain, and bit rl - k is still odd
    lemma_mul_is_commutative(pow2(d) as int, q as int);
    lemma_mod_multiples_basic(q as int, pow2(d) as int);
    lemma_div_multiples_vanish(q as int, pow2(d) as int);
    // the window 2^rm <= x < 2^(rm+1) divides down to the window at rm - k
    lemma_pow2_subtracts(k, rm);
    lemma_div_is_ordered(pow2(rm) as int, x as int, pow2(k) as int);
    lemma_pow2_adds(k, (rm + 1 - k) as nat);
    lemma_multiply_divide_lt(x as int, pow2(k) as int, pow2((rm + 1 - k) as nat) as int);
}

/// A single set bit at index `i` is found at `i` by both scans.
pub proof fn lemma_single_bit(i: nat)
    requires
        i <= 255,
    ensures
        is_msb(pow2(i), i),
        is_lsb(pow2(i), i),
{
    lemma_pow2_pos(i);
    lemma_pow2_adds(i, 1);
    lemma2_to64();
    lemma_mul_is_commutative(pow2(i) as int, 2);
    lemma_mod_multiples_basic(1, pow2(i) as int);
    lemma_mul_basics(pow2(i) as int);
    lemma_div_by_self(pow2(i) as int);
}

/// One step of the upward search for the least significant bit: when the
/// low `w` bits of the working value (already `x0` shifted down by `s`
/// past zeros only) are all clear, shifting by `w` more still discards
/// zeros only, and the window invariant moves to the upper half.
proof fn lemma_lsb_step(x0: nat, x: nat, s: nat, w: nat)
    requires
        x == x0 / pow2(s),
        x0 % pow2(s) == 0,
        x % pow2(w) == 0,
        x % pow2(2 * w) != 0,
    ensures
        x / pow2(w) == x0 / pow2(s + w),
        x0 % pow2(s + w) == 0,
        (x / pow2(w)) % pow2(w) != 0,
{
    lemma_pow2_pos(s);
    lemma_pow2_pos(w);
    lemma_pow2_adds(s, w);
    lemma_pow2_adds(w, w);
    lemma_div_denominator(x0 as int, pow2(s) as int, pow2(w) as int);
    lemma_breakdown(x0 as int, pow2(s) as int, pow2(w) as int);
    lemma_breakdown(x as int, pow2(w) as int, pow2(w) as int);
}


} // verus!

