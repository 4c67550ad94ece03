use vstd::prelude::*;
use vstd::arithmetic::div_mod::{lemma_fundamental_div_mod, lemma_mod_multiples_basic, lemma_small_mod};
use vstd::arithmetic::power::{lemma_pow_positive, pow};
use vstd::arithmetic::power2::{
    is_pow2, is_pow2_equiv, lemma2_to64, lemma2_to64_rest, lemma_pow2_adds, lemma_pow2_pos,
    lemma_pow2_strictly_increases, lemma_pow2_unfold, pow2,
};

verus! {

/// Whether `n` is a power of two. Among the numbers that fit a machine word
/// these are the divisors of 2^63, the largest of them.
pub open spec fn power_of_two(n: usize) -> bool {
    n > 0 && 0x8000_0000_0000_0000int % (n as int) == 0
}

/// A slot count a buffer can be built with: a power of two whose highest slot
/// index still fits in a 32-bit cursor. These are the divisors of 2^32.
pub open spec fn valid_capacity(n: usize) -> bool {
    n > 0 && 0x1_0000_0000int % (n as int) == 0
}

proof fn lemma_divisors_of_pow2(n: int, e: nat)
    requires
        n > 0,
    ensures
        pow2(e) as int % n == 0 <==> exists|k: nat| k <= e && n == pow2(k),
    decreases e,
{
    lemma_pow2_pos(e);
    if exists|k: nat| k <= e && n == pow2(k) {
        let k = choose|k: nat| k <= e && n == pow2(k);
        let rest = (e - k) as nat;
        lemma_pow2_adds(rest, k);
        assert(rest + k == e);
        lemma_mod_multiples_basic(pow2(rest) as int, n);
    }
    if pow2(e) as int % n == 0 {
        if e == 0 {
            lemma2_to64();
            if n > 1 {
                lemma_small_mod(1, n as nat);
            }
            assert(0 <= e && n == pow2(0));
        } else {
            let lower = (e - 1) as nat;
            let half = pow2(lower) as int;
            lemma_pow2_unfold(e);
            let q = (2 * half) / n;
            lemma_fundamental_div_mod(2 * half, n);
            if n % 2 == 0 {
                let m = n / 2;
                assert(half == q * m) by (nonlinear_arith)
                    requires
                        2 * half == n * q,
                        n == 2 * m,
                ;
                lemma_mod_multiples_basic(q, m);
                lemma_divisors_of_pow2(m, lower);
                let k = choose|k: nat| k <= lower && m == pow2(k);
                lemma_pow2_unfold(k + 1);
                assert(k + 1 <= e && n == pow2(k + 1));
            } else {
                let a = n / 2;
                let b = q / 2;
                let c = q % 2;
                assert(n * q == 2 * (2 * a * b + a * c + b) + c) by (nonlinear_arith)
                    requires
                        n == 2 * a + 1,
                        q == 2 * b + c,
                ;
                assert(half == b * n) by (nonlinear_arith)
                    requires
                        2 * half == n * q,
                        q == 2 * b,
                ;
                lemma_mod_multiples_basic(b, n);
                lemma_divisors_of_pow2(n, lower);
                let k = choose|k: nat| k <= lower && n == pow2(k);
                assert(k <= e && n == pow2(k));
            }
        }
    }
}

/// The numbers that `power_of_two` holds of are 1, 2, 4, 8 and so on.
pub proof fn lemma_power_of_two(n: usize)
    ensures
        power_of_two(n) <==> exists|k: nat| n == pow2(k),
{
    lemma2_to64();
    lemma2_to64_rest();
    if n > 0 {
        lemma_divisors_of_pow2(n as int, 63);
    }
    if exists|k: nat| n == pow2(k) {
        let k = choose|k: nat| n == pow2(k);
        lemma_pow2_pos(k);
        if k > 63 {
            lemma_pow2_strictly_increases(63, k);
            if k > 64 {
                lemma_pow2_strictly_increases(64, k);
            }
        }
        assert(k <= 63 && n == pow2(k));
    }
}

/// The slot counts a buffer can be built with are the powers of two from one
/// slot up to 2^32 slots, and no others.
pub proof fn lemma_valid_capacities(n: usize)
    ensures
        valid_capacity(n) <==> exists|k: nat| k <= 32 && n == pow2(k),
        valid_capacity(n) <==> power_of_two(n) && n - 1 <= u32::MAX,
{
    lemma2_to64();
    lemma_power_of_two(n);
    if n > 0 {
        lemma_divisors_of_pow2(n as int, 32);
    }
    if power_of_two(n) && n - 1 <= u32::MAX {
        let k = choose|k: nat| n == pow2(k);
        if k > 32 {
            lemma_pow2_strictly_increases(32, k);
        }
        assert(k <= 32 && n == pow2(k));
    }
    if exists|k: nat| k <= 32 && n == pow2(k) {
        let k = choose|k: nat| k <= 32 && n == pow2(k);
        if k < 32 {
            lemma_pow2_strictly_increases(k, 32);
        }
    }
}

proof fn lemma_halving_keeps_single_bit(n: usize)
    by (bit_vector)
    requires
        n > 1,
    ensures
        (n & ((n - 1) as usize)) == 0 <==> (n % 2 == 0 && ((n / 2) & ((n / 2 - 1) as usize)) == 0),
{
}

proof fn lemma_single_bit_is_pow2(n: usize)
    requires
        n > 0,
    ensures
        (n & ((n - 1) as usize)) == 0 <==> is_pow2(n as int),
    decreases n,
{
    reveal(is_pow2);
    if n == 1 {
        assert(1usize & 0usize == 0) by (bit_vector);
    } else {
        lemma_halving_keeps_single_bit(n);
        lemma_single_bit_is_pow2(n / 2);
    }
}

/// Decides whether `n` is a power of two.
pub fn is_power_of_two(n: usize) -> (result: bool)
    ensures
        result == power_of_two(n),
{
    proof {
        lemma_power_of_two(n);
        is_pow2_equiv(n as int);
        if exists|k: nat| n == pow2(k) {
            let k = choose|k: nat| n == pow2(k);
            lemma_pow_positive(2, k);
            assert(pow(2, k) == n as int);
        }
        if exists|k: nat| pow(2, k) == n as int {
            let k = choose|k: nat| pow(2, k) == n as int;
            assert(n == pow2(k));
        }
    }
    if n > 0 {
        proof {
            lemma_single_bit_is_pow2(n);
        }
        (n & (n - 1)) == 0
    } else {
        false
    }
}

/// Decides whether a buffer of `n` slots can be built.
pub fn is_valid_capacity(n: usize) -> (result: bool)
    ensures
        result == valid_capacity(n),
{
    proof {
        lemma_valid_capacities(n);
    }
    if is_power_of_two(n) {
        n - 1 <= 0xffff_ffff
    } else {
        false
    }
}

} // verus!
