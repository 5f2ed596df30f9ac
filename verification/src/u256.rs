//! The unsigned 256-bit integer type and the operations the bit scans need:
//! comparison, bitwise AND, logical right shift, constants, and construction
//! from small integers and from decimal or hexadecimal strings.

use vstd::prelude::*;
use vstd::arithmetic::div_mod::*;
use vstd::arithmetic::mul::*;
use vstd::arithmetic::power2::*;
use vstd::string::StrSliceExecFns;
use crate::bitwise::{and_nat, lemma_and_nat_split, lemma_u64_and_is_and_nat};

verus! {

/// An unsigned integer modulo 2^256, stored as four 64-bit limbs in
/// little-endian order: `limb0` holds bits 0..=63, `limb3` bits 192..=255.
#[derive(Clone, Copy, PartialEq, Eq, Structural, Debug)]
pub struct U256 {
    pub limb0: u64,
    pub limb1: u64,
    pub limb2: u64,
    pub limb3: u64,
}

impl View for U256 {
    type V = nat;

    open spec fn view(&self) -> nat {
        (self.limb0 + self.limb1 * pow2(64) + self.limb2 * pow2(128) + self.limb3 * pow2(192)) as nat
    }
}

/// The concrete values of the powers of two at the limb boundaries.
pub proof fn lemma_limb_bounds()
    ensures
        pow2(64) == 0x10000000000000000,
        pow2(128) == 0x100000000000000000000000000000000,
        pow2(192) == 0x1000000000000000000000000000000000000000000000000,
        pow2(256) == 0x10000000000000000000000000000000000000000000000000000000000000000,
{
    lemma2_to64();
    lemma_pow2_adds(64, 64);
    lemma_pow2_adds(128, 64);
    lemma_pow2_adds(192, 64);
}

/// Every `U256` value lies below 2^256.
pub proof fn lemma_view_bound(x: U256)
    ensures
        x@ < pow2(256),
{
    lemma_limb_bounds();
}

impl U256 {
    /// The value 0.
    pub fn zero() -> (r: U256)
        ensures
            r@ == 0,
    {
        U256 { limb0: 0, limb1: 0, limb2: 0, limb3: 0 }
    }

    /// The value 1.
    pub fn one() -> (r: U256)
        ensures
            r@ == 1,
    {
        U256 { limb0: 1, limb1: 0, limb2: 0, limb3: 0 }
    }

    /// The value 2^256 - 1, the largest representable value.
    pub fn max_value() -> (r: U256)
        ensures
            r@ == (pow2(256) - 1) as nat,
    {
        proof {
            lemma_limb_bounds();
        }
        U256 { limb0: u64::MAX, limb1: u64::MAX, limb2: u64::MAX, limb3: u64::MAX }
    }

    /// Whether the value is 0.
    pub fn is_zero(&self) -> (r: bool)
        ensures
            r == (self@ == 0),
    {
        proof {
            lemma_limb_bounds();
        }
        self.limb0 == 0 && self.limb1 == 0 && self.limb2 == 0 && self.limb3 == 0
    }

    /// Whether `self >= other`, by lexicographic comparison of the limbs
    /// from the most significant downward.
    pub fn ge(&self, other: &U256) -> (r: bool)
        ensures
            r == (self@ >= other@),
    {
        proof {
            lemma_limb_bounds();
            lemma_nested_view(*self);
            lemma_nested_view(*other);
            let m = pow2(64);
            let a1 = (self.limb3 * m + self.limb2) as nat;
            let b1 = (other.limb3 * m + other.limb2) as nat;
            let a2 = (a1 * m + self.limb1) as nat;
            let b2 = (b1 * m + other.limb1) as nat;
            lemma_lex_limbs(self.limb3 as nat, self.limb2 as nat, other.limb3 as nat, other.limb2 as nat, m);
            lemma_lex_limbs(other.limb3 as nat, other.limb2 as nat, self.limb3 as nat, self.limb2 as nat, m);
            lemma_lex_limbs(a1, self.limb1 as nat, b1, other.limb1 as nat, m);
            lemma_lex_limbs(b1, other.limb1 as nat, a1, self.limb1 as nat, m);
            lemma_lex_limbs(a2, self.limb0 as nat, b2, other.limb0 as nat, m);
            lemma_lex_limbs(b2, other.limb0 as nat, a2, self.limb0 as nat, m);
        }
        if self.limb3 != other.limb3 {
            self.limb3 > other.limb3
        } else if self.limb2 != other.limb2 {
            self.limb2 > other.limb2
        } else if self.limb1 != other.limb1 {
            self.limb1 > other.limb1
        } else {
            self.limb0 >= other.limb0
        }
    }

    /// Whether `self > other`.
    pub fn gt(&self, other: &U256) -> (r: bool)
        ensures
            r == (self@ > other@),
    {
        !other.ge(self)
    }

    /// Logical right shift by one bit position.
    fn shr1(&self) -> (r: U256)
        ensures
            r@ == self@ / 2,
    {
        proof {
            lemma_limb_bounds();
            lemma_fundamental_div_mod(self.limb0 as int, 2);
            lemma_fundamental_div_mod(self.limb1 as int, 2);
            lemma_fundamental_div_mod(self.limb2 as int, 2);
            lemma_fundamental_div_mod(self.limb3 as int, 2);
            lemma_mod_bound(self.limb0 as int, 2);
            lemma_mod_bound(self.limb1 as int, 2);
            lemma_mod_bound(self.limb2 as int, 2);
            lemma_mod_bound(self.limb3 as int, 2);
        }
        let r = U256 {
            limb0: self.limb0 / 2 + (self.limb1 % 2) * 0x8000000000000000,
            limb1: self.limb1 / 2 + (self.limb2 % 2) * 0x8000000000000000,
            limb2: self.limb2 / 2 + (self.limb3 % 2) * 0x8000000000000000,
            limb3: self.limb3 / 2,
        };
        proof {
            assert(self@ == 2 * r@ + (self.limb0 % 2));
            lemma_fundamental_div_mod_converse_div(self@ as int, 2, r@ as int, (self.limb0 % 2) as int);
        }
        r
    }

    /// Logical (zero-fill) right shift by `n` bit positions.
    ///
    /// Shifting by 256 or more clears every bit, matching division by 2^n.
    pub fn shr(&self, n: u32) -> (r: U256)
        ensures
            r@ == self@ / pow2(n as nat),
    {
        let mut r: U256 = *self;
        let mut i: u32 = 0;
        proof {
            lemma2_to64();
            lemma_div_basics(self@ as int);
        }
        while i < n
            invariant
                i <= n,
                r@ == self@ / pow2(i as nat),
            decreases n - i,
        {
            proof {
                lemma_pow2_pos(i as nat);
                lemma_pow2_adds(i as nat, 1);
                lemma2_to64();
                lemma_div_denominator(self@ as int, pow2(i as nat) as int, 2);
            }
            r = r.shr1();
            i = i + 1;
        }
        r
    }

    /// Bitwise AND, computed limb by limb.
    pub fn bit_and(&self, other: &U256) -> (r: U256)
        ensures
            r@ == and_nat(self@, other@),
    {
        let r = U256 {
            limb0: self.limb0 & other.limb0,
            limb1: self.limb1 & other.limb1,
            limb2: self.limb2 & other.limb2,
            limb3: self.limb3 & other.limb3,
        };
        proof {
            lemma_limb_bounds();
            lemma_u64_and_is_and_nat(self.limb0, other.limb0);
            lemma_u64_and_is_and_nat(self.limb1, other.limb1);
            lemma_u64_and_is_and_nat(self.limb2, other.limb2);
            lemma_u64_and_is_and_nat(self.limb3, other.limb3);
            lemma_view_split(*self);
            lemma_view_split(*other);
            lemma_view_split(r);
            lemma_and_nat_split(self.limb0 as nat, upper3(*self), other.limb0 as nat, upper3(*other), 64);
            lemma_and_nat_split(self.limb1 as nat, upper2(*self), other.limb1 as nat, upper2(*other), 64);
            lemma_and_nat_split(
                self.limb2 as nat,
                self.limb3 as nat,
                other.limb2 as nat,
                other.limb3 as nat,
                64,
            );
        }
        r
    }

    /// The value 2^i, the single bit at index `i`.
    pub fn power_of_two(i: u32) -> (r: U256)
        requires
            i < 256,
        ensures
            r@ == pow2(i as nat),
    {
        let idx: u32 = i / 64;
        let s: u32 = i % 64;
        let mut p: u64 = 1;
        let mut j: u32 = 0;
        proof {
            lemma2_to64();
        }
        while j < s
            invariant
                j <= s,
                s < 64,
                p == pow2(j as nat),
            decreases s - j,
        {
            proof {
                lemma2_to64();
                lemma2_to64_rest();
                lemma_pow2_adds(j as nat, 1);
                if (j as nat) < 63 {
                    lemma_pow2_strictly_increases(j as nat, 63);
                }
            }
            p = p * 2;
            j = j + 1;
        }
        proof {
            lemma_fundamental_div_mod(i as int, 64);
            lemma_limb_bounds();
            lemma_pow2_adds(s as nat, 64);
            lemma_pow2_adds(s as nat, 128);
            lemma_pow2_adds(s as nat, 192);
        }
        if idx == 0 {
            U256 { limb0: p, limb1: 0, limb2: 0, limb3: 0 }
        } else if idx == 1 {
            U256 { limb0: 0, limb1: p, limb2: 0, limb3: 0 }
        } else if idx == 2 {
            U256 { limb0: 0, limb1: 0, limb2: p, limb3: 0 }
        } else {
            U256 { limb0: 0, limb1: 0, limb2: 0, limb3: p }
        }
    }

    /// The value of a native 128-bit integer.
    pub fn from_u128(v: u128) -> (r: U256)
        ensures
            r@ == v as nat,
    {
        proof {
            lemma_limb_bounds();
            lemma_fundamental_div_mod(v as int, 0x10000000000000000);
            lemma_mod_bound(v as int, 0x10000000000000000);
        }
        U256 {
            limb0: (v % 0x10000000000000000) as u64,
            limb1: (v / 0x10000000000000000) as u64,
            limb2: 0,
            limb3: 0,
        }
    }

    /// `self * m + d`, or `None` when the result does not fit in 256 bits.
    ///
    /// The workhorse of the string parsers: one limb at a time, a 128-bit
    /// product plus the incoming carry splits into a new limb and the
    /// carry for the next position.
    fn mul_small_add(&self, m: u64, d: u64) -> (r: Option<U256>)
        ensures
            r is Some <==> self@ * m + d < pow2(256),
            r matches Some(v) ==> v@ == self@ * m + d,
    {
        proof {
            lemma_limb_bounds();
            lemma_mul_upper_bound(self.limb0 as int, 0xffffffffffffffff, m as int, 0xffffffffffffffff);
            lemma_mul_upper_bound(self.limb1 as int, 0xffffffffffffffff, m as int, 0xffffffffffffffff);
            lemma_mul_upper_bound(self.limb2 as int, 0xffffffffffffffff, m as int, 0xffffffffffffffff);
            lemma_mul_upper_bound(self.limb3 as int, 0xffffffffffffffff, m as int, 0xffffffffffffffff);
        }
        let p0: u128 = (self.limb0 as u128) * (m as u128) + (d as u128);
        proof {
            lemma_fundamental_div_mod(p0 as int, 0x10000000000000000);
            lemma_mod_bound(p0 as int, 0x10000000000000000);
        }
        let c0: u64 = (p0 / 0x10000000000000000) as u64;
        let p1: u128 = (self.limb1 as u128) * (m as u128) + (c0 as u128);
        proof {
            lemma_fundamental_div_mod(p1 as int, 0x10000000000000000);
            lemma_mod_bound(p1 as int, 0x10000000000000000);
        }
        let c1: u64 = (p1 / 0x10000000000000000) as u64;
        let p2: u128 = (self.limb2 as u128) * (m as u128) + (c1 as u128);
        proof {
            lemma_fundamental_div_mod(p2 as int, 0x10000000000000000);
            lemma_mod_bound(p2 as int, 0x10000000000000000);
        }
        let c2: u64 = (p2 / 0x10000000000000000) as u64;
        let p3: u128 = (self.limb3 as u128) * (m as u128) + (c2 as u128);
        proof {
            lemma_fundamental_div_mod(p3 as int, 0x10000000000000000);
            lemma_mod_bound(p3 as int, 0x10000000000000000);
        }
        let c3: u64 = (p3 / 0x10000000000000000) as u64;
        let r = U256 {
            limb0: (p0 % 0x10000000000000000) as u64,
            limb1: (p1 % 0x10000000000000000) as u64,
            limb2: (p2 % 0x10000000000000000) as u64,
            limb3: (p3 % 0x10000000000000000) as u64,
        };
        proof {
            lemma_distribute_limbs(
                self.limb0 as int,
                self.limb1 as int,
                self.limb2 as int,
                self.limb3 as int,
                m as int,
                pow2(64) as int,
            );
            lemma_carry_chain(
                self.limb0 as nat,
                self.limb1 as nat,
                self.limb2 as nat,
                self.limb3 as nat,
                m as nat,
                d as nat,
                c0 as nat,
                c1 as nat,
                c2 as nat,
                c3 as nat,
                r.limb0 as nat,
                r.limb1 as nat,
                r.limb2 as nat,
                r.limb3 as nat,
            );
            lemma_view_bound(r);
            assert(self@ * m + d == r@ + c3 * pow2(256));
        }
        if c3 != 0 {
            None
        } else {
            Some(r)
        }
    }

    /// The value a string of decimal digits denotes, or `None` when the
    /// string is empty, holds a character that is no decimal digit, or
    /// denotes a number of 257 bits or more.
    pub fn from_dec_str(s: &str) -> (r: Option<U256>)
        ensures
            r is Some <==> (s@.len() > 0 && (forall|i: int|
                0 <= i < s@.len() ==> is_dec_digit(s@[i])) && dec_value(s@) < pow2(256)),
            r matches Some(v) ==> v@ == dec_value(s@),
    {
        let n: usize = s.unicode_len();
        if n == 0 {
            return None;
        }
        let mut acc = U256::zero();
        let mut i: usize = 0;
        proof {
            lemma_pow2_pos(256);
        }
        while i < n
            invariant
                n == s@.len(),
                i <= n,
                forall|j: int| 0 <= j < i ==> is_dec_digit(s@[j]),
                acc@ == dec_value(s@.subrange(0, i as int)),
                acc@ < pow2(256),
            decreases n - i,
        {
            let c: char = s.get_char(i);
            let u: u32 = c as u32;
            if u < 48 || u > 57 {
                return None;
            }
            let d: u64 = (u - 48) as u64;
            proof {
                assert(s@.subrange(0, i + 1).drop_last() =~= s@.subrange(0, i as int));
            }
            match acc.mul_small_add(10, d) {
                Some(v) => {
                    acc = v;
                },
                None => {
                    proof {
                        lemma_dec_prefix_le(s@, i + 1);
                    }
                    return None;
                },
            }
            i = i + 1;
        }
        proof {
            assert(s@.subrange(0, n as int) =~= s@);
        }
        Some(acc)
    }

    /// The value a string of hexadecimal digits denotes, with upper and
    /// lower case accepted and no radix prefix, or `None` when the string
    /// is empty, holds a character that is no hexadecimal digit, or
    /// denotes a number of 257 bits or more.
    pub fn from_hex_str(s: &str) -> (r: Option<U256>)
        ensures
            r is Some <==> (s@.len() > 0 && (forall|i: int|
                0 <= i < s@.len() ==> is_hex_digit(s@[i])) && hex_value(s@) < pow2(256)),
            r matches Some(v) ==> v@ == hex_value(s@),
    {
        let n: usize = s.unicode_len();
        if n == 0 {
            return None;
        }
        let mut acc = U256::zero();
        let mut i: usize = 0;
        proof {
            lemma_pow2_pos(256);
        }
        while i < n
            invariant
                n == s@.len(),
                i <= n,
                forall|j: int| 0 <= j < i ==> is_hex_digit(s@[j]),
                acc@ == hex_value(s@.subrange(0, i as int)),
                acc@ < pow2(256),
            decreases n - i,
        {
            let c: char = s.get_char(i);
            let u: u32 = c as u32;
            let d: u64 = if 48 <= u && u <= 57 {
                (u - 48) as u64
            } else if 65 <= u && u <= 70 {
                (u - 55) as u64
            } else if 97 <= u && u <= 102 {
                (u - 87) as u64
            } else {
                return None;
            };
            proof {
                assert(s@.subrange(0, i + 1).drop_last() =~= s@.subrange(0, i as int));
            }
            match acc.mul_small_add(16, d) {
                Some(v) => {
                    acc = v;
                },
                None => {
                    proof {
                        lemma_hex_prefix_le(s@, i + 1);
                    }
                    return None;
                },
            }
            i = i + 1;
        }
        proof {
            assert(s@.subrange(0, n as int) =~= s@);
        }
        Some(acc)
    }

    /// The mask with the low `n` bits set, the value 2^n - 1.
    pub fn low_mask(n: u32) -> (r: U256)
        requires
            n <= 256,
        ensures
            r@ == (pow2(n as nat) - 1) as nat,
    {
        let m = U256::max_value();
        let r = m.shr(256 - n);
        proof {
            let a = pow2((256 - n) as nat) as int;
            let b = pow2(n as nat) as int;
            lemma_pow2_pos((256 - n) as nat);
            lemma_pow2_pos(n as nat);
            lemma_pow2_adds((256 - n) as nat, n as nat);
            lemma_mul_is_distributive_sub(a, b, 1);
            assert(a * b == pow2(256));
            assert((b - 1) * a == a * b - a) by (nonlinear_arith);
            lemma_fundamental_div_mod_converse_div(pow2(256) - 1, a, b - 1, a - 1);
        }
        r
    }
}

/// Whether `c` is a decimal digit.
pub open spec fn is_dec_digit(c: char) -> bool {
    48 <= c as u32 && c as u32 <= 57
}

/// The numeric value of a decimal digit.
pub open spec fn dec_digit(c: char) -> nat {
    (c as u32 - 48) as nat
}

/// The number a sequence of decimal digits denotes.
pub open spec fn dec_value(s: Seq<char>) -> nat
    decreases s.len(),
{
    if s.len() == 0 {
        0
    } else {
        10 * dec_value(s.drop_last()) + dec_digit(s.last())
    }
}

/// Whether `c` is a hexadecimal digit, upper or lower case.
pub open spec fn is_hex_digit(c: char) -> bool {
    (48 <= c as u32 && c as u32 <= 57) || (65 <= c as u32 && c as u32 <= 70) || (97 <= c as u32
        && c as u32 <= 102)
}

/// The numeric value of a hexadecimal digit.
pub open spec fn hex_digit(c: char) -> nat {
    if 48 <= c as u32 && c as u32 <= 57 {
        (c as u32 - 48) as nat
    } else if 65 <= c as u32 && c as u32 <= 70 {
        (c as u32 - 55) as nat
    } else {
        (c as u32 - 87) as nat
    }
}

/// The number a sequence of hexadecimal digits denotes.
pub open spec fn hex_value(s: Seq<char>) -> nat
    decreases s.len(),
{
    if s.len() == 0 {
        0
    } else {
        16 * hex_value(s.drop_last()) + hex_digit(s.last())
    }
}

/// A prefix of a digit string never denotes more than the whole string.
proof fn lemma_dec_prefix_le(s: Seq<char>, i: int)
    requires
        0 <= i <= s.len(),
    ensures
        dec_value(s.subrange(0, i)) <= dec_value(s),
    decreases s.len() - i,
{
    if i == s.len() {
        assert(s.subrange(0, i) =~= s);
    } else {
        assert(s.subrange(0, i + 1).drop_last() =~= s.subrange(0, i));
        lemma_dec_prefix_le(s, i + 1);
    }
}

/// A prefix of a hexadecimal string never denotes more than the whole string.
proof fn lemma_hex_prefix_le(s: Seq<char>, i: int)
    requires
        0 <= i <= s.len(),
    ensures
        hex_value(s.subrange(0, i)) <= hex_value(s),
    decreases s.len() - i,
{
    if i == s.len() {
        assert(s.subrange(0, i) =~= s);
    } else {
        assert(s.subrange(0, i + 1).drop_last() =~= s.subrange(0, i));
        lemma_hex_prefix_le(s, i + 1);
    }
}

/// Multiplying a four-limb sum by `m` distributes into one product per limb.
proof fn lemma_distribute_limbs(l0: int, l1: int, l2: int, l3: int, m: int, b: int)
    ensures
        (l0 + l1 * b + l2 * (b * b) + l3 * (b * (b * b))) * m == l0 * m + (l1 * m) * b + (l2 * m)
            * (b * b) + (l3 * m) * (b * (b * b)),
{
    let bb = b * b;
    let bbb = b * (b * b);
    let s = l0 + l1 * b + l2 * bb + l3 * bbb;
    lemma_mul_is_commutative(s, m);
    lemma_mul_is_distributive_add(m, l0 + l1 * b + l2 * bb, l3 * bbb);
    lemma_mul_is_distributive_add(m, l0 + l1 * b, l2 * bb);
    lemma_mul_is_distributive_add(m, l0, l1 * b);
    lemma_mul_is_commutative(m, l0);
    lemma_mul_is_associative(m, l1, b);
    lemma_mul_is_commutative(m, l1);
    lemma_mul_is_associative(m, l2, bb);
    lemma_mul_is_commutative(m, l2);
    lemma_mul_is_associative(m, l3, bbb);
    lemma_mul_is_commutative(m, l3);
}

/// The telescoped identity behind the limb-by-limb multiply-add: when each
/// position's product plus incoming carry splits as `2^64 * carry + limb`,
/// the whole multiply-add splits as the new limbs plus a final carry at
/// 2^256.
proof fn lemma_carry_chain(
    l0: nat,
    l1: nat,
    l2: nat,
    l3: nat,
    m: nat,
    d: nat,
    c0: nat,
    c1: nat,
    c2: nat,
    c3: nat,
    n0: nat,
    n1: nat,
    n2: nat,
    n3: nat,
)
    requires
        l0 * m + d == 0x10000000000000000 * c0 + n0,
        l1 * m + c0 == 0x10000000000000000 * c1 + n1,
        l2 * m + c1 == 0x10000000000000000 * c2 + n2,
        l3 * m + c2 == 0x10000000000000000 * c3 + n3,
    ensures
        l0 * m + (l1 * m) * 0x10000000000000000 + (l2 * m)
            * 0x100000000000000000000000000000000 + (l3 * m)
            * 0x1000000000000000000000000000000000000000000000000 + d == n0 + n1
            * 0x10000000000000000 + n2 * 0x100000000000000000000000000000000 + n3
            * 0x1000000000000000000000000000000000000000000000000 + c3
            * 0x10000000000000000000000000000000000000000000000000000000000000000,
{
}

/// The value of the three upper limbs, in units of 2^64.
pub open spec fn upper3(x: U256) -> nat {
    (x.limb1 + x.limb2 * pow2(64) + x.limb3 * pow2(128)) as nat
}

/// The value of the two upper limbs, in units of 2^128.
pub open spec fn upper2(x: U256) -> nat {
    (x.limb2 + x.limb3 * pow2(64)) as nat
}

/// A `U256` value split at each limb boundary: the limbs below, plus
/// 2^64 times the value of the limbs above.
pub proof fn lemma_view_split(x: U256)
    ensures
        x@ == x.limb0 + pow2(64) * upper3(x),
        upper3(x) == x.limb1 + pow2(64) * upper2(x),
        upper2(x) == x.limb2 + pow2(64) * x.limb3,
{
    lemma_pow2_adds(64, 64);
    lemma_pow2_adds(64, 128);
    let p = pow2(64) as int;
    let l0 = x.limb0 as int;
    let l1 = x.limb1 as int;
    let l2 = x.limb2 as int;
    let l3 = x.limb3 as int;
    assert(l0 + l1 * p + l2 * (p * p) + l3 * (p * (p * p)) == l0 + p * (l1 + l2 * p + l3 * (p
        * p))) by (nonlinear_arith);
    assert(l1 + l2 * p + l3 * (p * p) == l1 + p * (l2 + l3 * p)) by (nonlinear_arith);
    lemma_mul_is_commutative(p, l3);
}

/// Structural equality of the limbs is equality of the values: the limb
/// decomposition of a number below 2^256 is unique.
pub proof fn lemma_eq_iff_value_eq(a: U256, b: U256)
    ensures
        (a == b) <==> (a@ == b@),
{
    if a@ == b@ {
        lemma_limb_bounds();
        lemma_view_split(a);
        lemma_view_split(b);
        lemma_mul_is_commutative(pow2(64) as int, upper3(a) as int);
        lemma_mul_is_commutative(pow2(64) as int, upper3(b) as int);
        lemma_mul_is_commutative(pow2(64) as int, upper2(a) as int);
        lemma_mul_is_commutative(pow2(64) as int, upper2(b) as int);
        lemma_mul_is_commutative(pow2(64) as int, b.limb3 as int);
        lemma_fundamental_div_mod_converse(a@ as int, pow2(64) as int, upper3(a) as int, a.limb0 as int);
        lemma_fundamental_div_mod_converse(b@ as int, pow2(64) as int, upper3(b) as int, b.limb0 as int);
        lemma_fundamental_div_mod_converse(upper3(a) as int, pow2(64) as int, upper2(a) as int, a.limb1 as int);
        lemma_fundamental_div_mod_converse(upper3(b) as int, pow2(64) as int, upper2(b) as int, b.limb1 as int);
        lemma_fundamental_div_mod_converse(upper2(a) as int, pow2(64) as int, a.limb3 as int, a.limb2 as int);
        lemma_fundamental_div_mod_converse(upper2(b) as int, pow2(64) as int, b.limb3 as int, b.limb2 as int);
    }
}

/// The value of a `U256` written with the limbs nested from the top:
/// `((limb3 * 2^64 + limb2) * 2^64 + limb1) * 2^64 + limb0`.
proof fn lemma_nested_view(x: U256)
    ensures
        x@ == ((x.limb3 * pow2(64) + x.limb2) * pow2(64) + x.limb1) * pow2(64) + x.limb0,
{
    lemma_limb_bounds();
}

/// Lexicographic comparison of a two-digit number in base `m` agrees with
/// numeric comparison when both low digits lie below `m`.
proof fn lemma_lex_limbs(ah: nat, al: nat, bh: nat, bl: nat, m: nat)
    by (nonlinear_arith)
    requires
        al < m,
        bl < m,
    ensures
        (ah * m + al >= bh * m + bl) <==> (ah > bh || (ah == bh && al >= bl)),
        (ah * m + al == bh * m + bl) <==> (ah == bh && al == bl),
{
}

} // verus!
