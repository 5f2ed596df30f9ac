//! A mathematical model of bitwise AND over natural numbers, with the
//! lemmas that connect it to division and remainder by powers of two and
//! to the machine's 64-bit AND.

use vstd::prelude::*;
use vstd::arithmetic::div_mod::*;
use vstd::arithmetic::power2::*;

verus! {

/// Bitwise AND of two natural numbers, defined by recursion on the
/// binary expansion: the low bits are ANDed and the rest recurses.
pub open spec fn and_nat(a: nat, b: nat) -> nat
    decreases a,
{
    if a == 0 || b == 0 {
        0
    } else {
        2 * and_nat(a / 2, b / 2) + if a % 2 == 1 && b % 2 == 1 {
            1nat
        } else {
            0nat
        }
    }
}

/// The recursion of `and_nat` holds unconditionally, including at 0.
pub proof fn lemma_and_nat_unfold(a: nat, b: nat)
    ensures
        and_nat(a, b) == 2 * and_nat(a / 2, b / 2) + if a % 2 == 1 && b % 2 == 1 {
            1nat
        } else {
            0nat
        },
{
    if a == 0 || b == 0 {
        assert(and_nat(a / 2, b / 2) == 0);
    }
}

/// ANDing with the low mask 2^w - 1 keeps exactly the remainder modulo 2^w.
pub proof fn lemma_and_nat_low_mask(x: nat, w: nat)
    ensures
        and_nat(x, (pow2(w) - 1) as nat) == x % pow2(w),
    decreases w,
{
    lemma_pow2_pos(w);
    if w == 0 {
        lemma2_to64();
        assert(and_nat(x, 0) == 0);
        lemma_mod_bound(x as int, 1);
    } else {
        let m = (pow2(w) - 1) as nat;
        lemma_pow2_unfold(w);
        lemma_pow2_pos((w - 1) as nat);
        // m is odd and m / 2 == pow2(w - 1) - 1
        assert(m == 2 * (pow2((w - 1) as nat) - 1) + 1);
        lemma_fundamental_div_mod_converse(m as int, 2, pow2((w - 1) as nat) - 1, 1);
        lemma_and_nat_unfold(x, m);
        lemma_and_nat_low_mask(x / 2, (w - 1) as nat);
        // x % 2^w == 2 * ((x / 2) % 2^(w-1)) + x % 2
        lemma_breakdown(x as int, 2, pow2((w - 1) as nat) as int);
        if x % 2 == 1 {
            assert(and_nat(x, m) == 2 * ((x / 2) % pow2((w - 1) as nat)) + 1);
        } else {
            lemma_mod_bound(x as int, 2);
            assert(and_nat(x, m) == 2 * ((x / 2) % pow2((w - 1) as nat)));
        }
    }
}

/// ANDing with the single bit 2^i keeps exactly that bit of `x`.
pub proof fn lemma_and_nat_pow2(x: nat, i: nat)
    ensures
        and_nat(x, pow2(i)) == pow2(i) * ((x / pow2(i)) % 2),
    decreases i,
{
    lemma_pow2_pos(i);
    if i == 0 {
        lemma2_to64();
        lemma_and_nat_unfold(x, 1);
        assert(and_nat(x / 2, 0) == 0);
        lemma_mod_bound(x as int, 2);
        lemma_div_basics(x as int);
    } else {
        lemma_pow2_unfold(i);
        lemma_pow2_pos((i - 1) as nat);
        assert(pow2(i) % 2 == 0 && pow2(i) / 2 == pow2((i - 1) as nat)) by {
            lemma_fundamental_div_mod_converse(pow2(i) as int, 2, pow2((i - 1) as nat) as int, 0);
        }
        lemma_and_nat_unfold(x, pow2(i));
        lemma_and_nat_pow2(x / 2, (i - 1) as nat);
        lemma_div_denominator(x as int, 2, pow2((i - 1) as nat) as int);
        assert(and_nat(x, pow2(i)) == 2 * (pow2((i - 1) as nat) * ((x / pow2(i)) % 2)));
        vstd::arithmetic::mul::lemma_mul_is_associative(
            2,
            pow2((i - 1) as nat) as int,
            ((x / pow2(i)) % 2) as int,
        );
    }
}

/// AND acts independently on the low `k` bits and on the rest: splitting
/// both operands at bit `k` splits the result the same way.
pub proof fn lemma_and_nat_split(al: nat, ah: nat, bl: nat, bh: nat, k: nat)
    requires
        al < pow2(k),
        bl < pow2(k),
    ensures
        and_nat(al + pow2(k) * ah, bl + pow2(k) * bh) == and_nat(al, bl) + pow2(k) * and_nat(
            ah,
            bh,
        ),
    decreases k,
{
    lemma_pow2_pos(k);
    if k == 0 {
        lemma2_to64();
        assert(al == 0 && bl == 0);
        assert(and_nat(0, 0) == 0);
    } else {
        let p = pow2(k);
        let p1 = pow2((k - 1) as nat);
        lemma_pow2_unfold(k);
        lemma_pow2_pos((k - 1) as nat);
        let a = al + p * ah;
        let b = bl + p * bh;
        lemma_fundamental_div_mod(al as int, 2);
        lemma_fundamental_div_mod(bl as int, 2);
        lemma_mod_bound(al as int, 2);
        lemma_mod_bound(bl as int, 2);
        vstd::arithmetic::mul::lemma_mul_is_associative(2, p1 as int, ah as int);
        vstd::arithmetic::mul::lemma_mul_is_associative(2, p1 as int, bh as int);
        lemma_fundamental_div_mod_converse(
            a as int,
            2,
            (al / 2 + p1 * ah) as int,
            (al % 2) as int,
        );
        lemma_fundamental_div_mod_converse(
            b as int,
            2,
            (bl / 2 + p1 * bh) as int,
            (bl % 2) as int,
        );
        lemma_and_nat_split(al / 2, ah, bl / 2, bh, (k - 1) as nat);
        lemma_and_nat_unfold(a, b);
        lemma_and_nat_unfold(al, bl);
        vstd::arithmetic::mul::lemma_mul_is_associative(
            2,
            p1 as int,
            and_nat(ah, bh) as int,
        );
    }
}

/// The machine's 64-bit AND agrees with `and_nat`.
pub proof fn lemma_u64_and_is_and_nat(a: u64, b: u64)
    ensures
        (a & b) as nat == and_nat(a as nat, b as nat),
    decreases a,
{
    if a == 0 || b == 0 {
        assert(a == 0 || b == 0 ==> a & b == 0) by (bit_vector);
    } else {
        assert(a & b == 2 * ((a / 2) & (b / 2)) + ((a % 2) & (b % 2))) by (bit_vector);
        assert((((a % 2) & (b % 2)) == 1 <==> (a % 2 == 1 && b % 2 == 1)) && ((a % 2) & (b % 2))
            <= 1) by (bit_vector);
        assert(a / 2 < a) by (bit_vector)
            requires
                a != 0,
        ;
        lemma_u64_and_is_and_nat(a / 2, b / 2);
        lemma_and_nat_unfold(a as nat, b as nat);
    }
}

} // verus!
