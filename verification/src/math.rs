//! Integer math utilities: absolute value, ordering helpers, checked power,
//! integer square root, gcd/lcm, primality, factorial, Fibonacci and modular
//! exponentiation.

use vstd::arithmetic::div_mod::{
    lemma_add_mod_noop, lemma_fundamental_div_mod, lemma_mod_multiples_basic,
    lemma_mul_mod_noop_general, lemma_small_mod,
};
use vstd::arithmetic::power::{
    lemma_pow_adds, lemma_pow_increases, lemma_pow_mod_noop, lemma_pow_multiplies, pow,
};
use vstd::prelude::*;

verus! {

/// Mathematical greatest common divisor, by the Euclidean recurrence.
pub open spec fn gcd(a: nat, b: nat) -> nat
    decreases b,
{
    if b == 0 {
        a
    } else {
        gcd(b, a % b)
    }
}

/// Least common multiple of two values, at least one of them nonzero.
pub open spec fn lcm(a: nat, b: nat) -> nat
    recommends
        a != 0 || b != 0,
{
    (a / gcd(a, b)) * b
}

/// A number is prime when it is at least 2 and no smaller value above 1
/// divides it.
pub open spec fn is_prime_spec(n: nat) -> bool {
    n >= 2 && forall|d: nat| 2 <= d < n ==> #[trigger] (n % d) != 0
}

/// Mathematical factorial.
pub open spec fn factorial(n: nat) -> nat
    decreases n,
{
    if n == 0 {
        1
    } else {
        n * factorial((n - 1) as nat)
    }
}

/// Mathematical Fibonacci sequence: 0, 1, 1, 2, 3, ...
pub open spec fn fib(n: nat) -> nat
    decreases n,
{
    if n == 0 {
        0
    } else if n == 1 {
        1
    } else {
        fib((n - 1) as nat) + fib((n - 2) as nat)
    }
}

/// Absolute value of a signed integer, as an unsigned integer.
pub fn abs_i64(x: i64) -> (r: u64)
    ensures
        x >= 0 ==> r == x,
        x < 0 ==> r == -(x as int),
{
    if x < 0 {
        (-(x as i128)) as u64
    } else {
        x as u64
    }
}

/// Maximum of two values.
pub fn max_u64(a: u64, b: u64) -> (r: u64)
    ensures
        r == if a > b { a } else { b },
{
    if a > b {
        a
    } else {
        b
    }
}

/// Minimum of two values.
pub fn min_u64(a: u64, b: u64) -> (r: u64)
    ensures
        r == if a < b { a } else { b },
{
    if a < b {
        a
    } else {
        b
    }
}

/// Clamp a value between the bounds `min` and `max` (`min` wins when the
/// bounds are inverted).
pub fn clamp_u64(value: u64, min: u64, max: u64) -> (r: u64)
    ensures
        r == if value < min { min } else if value > max { max } else { value },
{
    if value < min {
        min
    } else if value > max {
        max
    } else {
        value
    }
}

/// A product of bounded factors is bounded by the product of the bounds.
proof fn lemma_mul_le(a: int, b: int, x: int, y: int)
    requires
        0 <= a <= x,
        0 <= b <= y,
    ensures
        a * b <= x * y,
{
    assert(a * b <= x * y) by (nonlinear_arith)
        requires 0 <= a <= x && 0 <= b <= y
    ;
}

/// Power with overflow checking: `Some(base^exp)` exactly when the power
/// fits in a `u64`.
pub fn pow_u64_checked(base: u64, exp: u32) -> (r: Option<u64>)
    ensures
        r is Some <==> pow(base as int, exp as nat) <= u64::MAX,
        r matches Some(v) ==> v == pow(base as int, exp as nat),
{
    let mut result: u64 = 1;
    let mut i: u32 = 0;
    proof {
        vstd::arithmetic::power::lemma_pow0(base as int);
    }
    while i < exp
        invariant
            i <= exp,
            result == pow(base as int, i as nat),
        decreases exp - i,
    {
        proof {
            lemma_mul_le(result as int, base as int, u64::MAX as int, u64::MAX as int);
        }
        let next: u128 = (result as u128) * (base as u128);
        proof {
            lemma_pow_adds(base as int, i as nat, 1);
            assert(pow(base as int, 1) == base) by {
                vstd::arithmetic::power::lemma_pow1(base as int);
            }
            assert(pow(base as int, (i + 1) as nat) == result * base);
        }
        if next > u64::MAX as u128 {
            proof {
                if base == 0 {
                    vstd::arithmetic::mul::lemma_mul_by_zero_is_zero(result as int);
                    assert(next == 0);
                }
                lemma_pow_increases(base as nat, (i + 1) as nat, exp as nat);
            }
            return None;
        }
        result = next as u64;
        i = i + 1;
    }
    Some(result)
}

/// Integer square root: the largest value whose square does not exceed `n`.
pub fn isqrt_u64(n: u64) -> (r: u64)
    ensures
        r * r <= n,
        n < (r + 1) * (r + 1),
{
    if n == 0 {
        return 0;
    }
    let mut x: u64 = n;
    let mut y: u64 = n / 2 + n % 2;
    proof {
        vstd::arithmetic::div_mod::lemma_div_by_self(n as int);
        lemma_fundamental_div_mod(n as int, 2);
        assert(y == (x + n / x) / 2);
        assert(n < (n + 1) * (n + 1)) by (nonlinear_arith)
            requires n >= 1
        ;
    }
    while y < x
        invariant
            n >= 1,
            x >= 1,
            n < (x + 1) * (x + 1),
            y == (x + n / x) / 2,
        decreases x,
    {
        proof {
            lemma_newton_step_stays_above_root(n as int, x as int);
        }
        x = y;
        proof {
            assert(n < (x + 1) * (x + 1));
            if x == 0 {
                assert((x + 1) * (x + 1) == 1) by (nonlinear_arith)
                    requires x == 0
                ;
                assert(false);
            }
        }
        let q: u64 = n / x;
        let s: u128 = x as u128 + q as u128;
        y = (s / 2) as u64;
    }
    proof {
        // At exit y >= x with y == (x + n / x) / 2, so n / x >= x and x * x <= n.
        if x * x > n {
            assert(n / x < x) by (nonlinear_arith)
                requires x >= 1 && n < x * x && n >= 0
            {
                lemma_fundamental_div_mod(n as int, x as int);
            }
            assert((x + n / x) / 2 < x);
            assert(false);
        }
    }
    x
}

/// After one Newton step from any `x >= 1`, the iterate is still at least
/// the integer square root of `n`: `(y + 1)^2 > n` for `y = (x + n/x) / 2`.
proof fn lemma_newton_step_stays_above_root(n: int, x: int)
    requires
        n >= 1,
        x >= 1,
    ensures
        n < ((x + n / x) / 2 + 1) * ((x + n / x) / 2 + 1),
{
    let d = n / x;
    let y = (x + d) / 2;
    lemma_fundamental_div_mod(n, x);
    lemma_fundamental_div_mod(x + d, 2);
    assert(x * (d + 1) > n) by (nonlinear_arith)
        requires n == x * d + n % x && 0 <= n % x < x
    ;
    assert(x + d + 1 <= 2 * y + 2);
    assert((2 * y + 2) * (2 * y + 2) >= (x + d + 1) * (x + d + 1)) by (nonlinear_arith)
        requires 0 <= x + d + 1 <= 2 * y + 2
    ;
    assert((x + d + 1) * (x + d + 1) >= 4 * (x * (d + 1))) by (nonlinear_arith)
        requires x >= 1 && d >= 0
    ;
    assert(4 * (x * (d + 1)) > 4 * n);
    assert((2 * y + 2) * (2 * y + 2) == 4 * ((y + 1) * (y + 1))) by (nonlinear_arith);
    assert(4 * ((y + 1) * (y + 1)) > 4 * n);
}

/// Greatest common divisor by the Euclidean algorithm.
pub fn gcd_u64(a: u64, b: u64) -> (r: u64)
    ensures
        r == gcd(a as nat, b as nat),
{
    let mut x: u64 = a;
    let mut y: u64 = b;
    while y != 0
        invariant
            gcd(x as nat, y as nat) == gcd(a as nat, b as nat),
        decreases y,
    {
        let temp = y;
        y = x % y;
        x = temp;
    }
    x
}

/// The gcd is zero exactly when both arguments are zero.
proof fn lemma_gcd_zero(a: nat, b: nat)
    ensures
        gcd(a, b) == 0 <==> a == 0 && b == 0,
    decreases b,
{
    if b != 0 {
        lemma_gcd_zero(b, a % b);
    }
}

/// Least common multiple with overflow checking: `Some(lcm(a, b))` exactly
/// when both inputs are not zero together and the result fits in a `u64`.
pub fn lcm_u64(a: u64, b: u64) -> (r: Option<u64>)
    ensures
        r is Some <==> (a != 0 || b != 0) && lcm(a as nat, b as nat) <= u64::MAX,
        r matches Some(v) ==> v == lcm(a as nat, b as nat),
{
    let g = gcd_u64(a, b);
    proof {
        lemma_gcd_zero(a as nat, b as nat);
    }
    if g == 0 {
        return None;
    }
    let q = a / g;
    proof {
        lemma_mul_le(q as int, b as int, u64::MAX as int, u64::MAX as int);
    }
    let product: u128 = (q as u128) * (b as u128);
    if product > u64::MAX as u128 {
        None
    } else {
        Some(product as u64)
    }
}

/// Primality test by trial division up to the integer square root.
pub fn is_prime(n: u64) -> (r: bool)
    ensures
        r == is_prime_spec(n as nat),
{
    if n < 2 {
        return false;
    }
    if n == 2 {
        return true;
    }
    if n % 2 == 0 {
        assert(!is_prime_spec(n as nat)) by {
            assert(n as nat % 2 == 0);
        }
        return false;
    }

    let sqrt_n = isqrt_u64(n);
    let mut i: u64 = 3;
    proof {
        assert(forall|d: nat| 2 <= d < 3 ==> #[trigger] (n as nat % d) != 0) by {
            assert(n as nat % 2 != 0);
        }
        assert(sqrt_n < 0x1_0000_0000) by (nonlinear_arith)
            requires sqrt_n * sqrt_n <= n <= u64::MAX
        ;
    }
    while i <= sqrt_n
        invariant
            3 <= i,
            i % 2 == 1,
            n % 2 != 0,
            n >= 3,
            sqrt_n < 0x1_0000_0000,
            sqrt_n * sqrt_n <= n < (sqrt_n + 1) * (sqrt_n + 1),
            forall|d: nat| 2 <= d < i ==> #[trigger] (n as nat % d) != 0,
        decreases sqrt_n + 2 - i,
    {
        if n % i == 0 {
            proof {
                assert(i < n) by (nonlinear_arith)
                    requires i <= sqrt_n && sqrt_n * sqrt_n <= n && 3 <= i && n >= 3
                ;
                assert(n as nat % (i as nat) == 0);
            }
            return false;
        }
        proof {
            // i + 1 is even; an even divisor of odd n is impossible.
            lemma_even_divisor_of_odd(n as int, i as int + 1);
        }
        i = i + 2;
    }
    proof {
        assert forall|d: nat| 2 <= d < n implies #[trigger] (n as nat % d) != 0 by {
            if d >= i {
                if n as nat % d == 0 {
                    assert(sqrt_n >= 1) by {
                        if sqrt_n == 0 {
                            assert((sqrt_n + 1) * (sqrt_n + 1) == 1) by (nonlinear_arith)
                                requires sqrt_n == 0
                            ;
                        }
                    }
                    lemma_large_divisor_has_small_cofactor(n as int, d as int, sqrt_n as int);
                    let q = n as int / d as int;
                    assert(2 <= q < i);
                    assert(n as nat % (q as nat) == 0);
                }
            }
        }
    }
    true
}

/// An even number cannot divide an odd number.
proof fn lemma_even_divisor_of_odd(n: int, d: int)
    requires
        n >= 1,
        d >= 2,
        d % 2 == 0,
        n % 2 != 0,
    ensures
        n % d != 0,
{
    if n % d == 0 {
        lemma_fundamental_div_mod(n, d);
        lemma_fundamental_div_mod(d, 2);
        let k = n / d;
        let m = d / 2;
        assert(n == 2 * (k * m)) by (nonlinear_arith)
            requires n == d * k && d == 2 * m
        ;
        lemma_mod_multiples_basic(k * m, 2);
    }
}

/// A divisor of `n` that lies above the integer square root has a cofactor
/// between 2 and the square root.
proof fn lemma_large_divisor_has_small_cofactor(n: int, d: int, s: int)
    requires
        n >= 3,
        s >= 1,
        s * s <= n < (s + 1) * (s + 1),
        s < d < n,
        n % d == 0,
    ensures
        2 <= n / d <= s,
        n % (n / d) == 0,
{
    lemma_fundamental_div_mod(n, d);
    let q = n / d;
    vstd::arithmetic::mul::lemma_mul_is_commutative(d, q);
    assert(n == q * d);
    assert(q >= 1) by (nonlinear_arith)
        requires n == q * d && n >= 3 && 1 <= d < n
    ;
    assert(q != 1) by {
        if q == 1 {
            assert(n == d) by (nonlinear_arith)
                requires n == q * d && q == 1
            ;
        }
    }
    assert(q <= s) by (nonlinear_arith)
        requires n == q * d && q >= 2 && d >= s + 1 && n < (s + 1) * (s + 1) && s >= 1
    ;
    lemma_mod_multiples_basic(d, q);
    assert((d * q) % q == 0);
    assert(n == d * q) by (nonlinear_arith)
        requires n == q * d
    ;
}

/// Factorial never shrinks as its argument grows.
proof fn lemma_factorial_monotonic(i: nat, j: nat)
    requires
        i <= j,
    ensures
        factorial(i) <= factorial(j),
    decreases j,
{
    if i < j {
        lemma_factorial_monotonic(i, (j - 1) as nat);
        assert(factorial(j) == j * factorial((j - 1) as nat));
        assert(j * factorial((j - 1) as nat) >= 1 * factorial((j - 1) as nat)) by (nonlinear_arith)
            requires j >= 1 && factorial((j - 1) as nat) >= 0
        ;
    }
}

/// Factorial with overflow checking: `Some(n!)` exactly when the factorial
/// fits in a `u64`.
pub fn factorial_u64(n: u64) -> (r: Option<u64>)
    ensures
        r is Some <==> factorial(n as nat) <= u64::MAX,
        r matches Some(v) ==> v == factorial(n as nat),
{
    let mut result: u64 = 1;
    let mut i: u64 = 1;
    proof {
        assert(factorial(0) == 1);
        assert(factorial(1) == 1);
    }
    while i < n
        invariant
            1 <= i <= n || (n == 0 && i == 1),
            result == factorial(i as nat),
        decreases n - i,
    {
        proof {
            lemma_mul_le(result as int, i as int + 1, u64::MAX as int, u64::MAX as int);
        }
        let next: u128 = (result as u128) * ((i + 1) as u128);
        proof {
            assert(factorial((i + 1) as nat) == (i + 1) * factorial(i as nat));
            vstd::arithmetic::mul::lemma_mul_is_commutative(result as int, i as int + 1);
            assert(next == factorial((i + 1) as nat));
        }
        if next > u64::MAX as u128 {
            proof {
                lemma_factorial_monotonic((i + 1) as nat, n as nat);
            }
            return None;
        }
        result = next as u64;
        i = i + 1;
    }
    proof {
        if n == 0 {
            assert(factorial(0) == 1);
        }
    }
    Some(result)
}

/// Fibonacci number at position `n`, reduced modulo 2^64 (additions wrap).
pub fn fibonacci_u64(n: u64) -> (r: u64)
    ensures
        r == fib(n as nat) % 0x1_0000_0000_0000_0000,
{
    if n == 0 {
        return 0;
    }
    if n == 1 {
        return 1;
    }

    let mut a: u64 = 0;
    let mut b: u64 = 1;
    let mut i: u64 = 1;

    while i < n
        invariant
            1 <= i <= n,
            a == fib((i - 1) as nat) % 0x1_0000_0000_0000_0000,
            b == fib(i as nat) % 0x1_0000_0000_0000_0000,
        decreases n - i,
    {
        let temp = a.wrapping_add(b);
        proof {
            let m: int = 0x1_0000_0000_0000_0000;
            lemma_add_mod_noop(fib((i - 1) as nat) as int, fib(i as nat) as int, m);
            assert((a + b) % m == fib((i + 1) as nat) as int % m);
            if a + b > u64::MAX {
                assert((a + b) % m == a + b - m) by (nonlinear_arith)
                    requires m == 0x1_0000_0000_0000_0000 && m <= a + b < 2 * m
                {
                    lemma_fundamental_div_mod(a as int + b as int, m);
                    lemma_small_mod((a + b - m) as nat, m as nat);
                    vstd::arithmetic::div_mod::lemma_mod_multiples_vanish(1, a + b - m, m);
                }
            } else {
                lemma_small_mod((a + b) as nat, 0x1_0000_0000_0000_0000);
            }
        }
        a = b;
        b = temp;
        i = i + 1;
    }
    b
}

/// Modular exponentiation: `(base^exp) mod modulus` by square and multiply.
pub fn mod_exp_u64(base: u64, exp: u64, modulus: u64) -> (r: u64)
    requires
        modulus >= 1,
    ensures
        r == pow(base as int, exp as nat) % (modulus as int),
{
    if modulus == 1 {
        proof {
            assert(pow(base as int, exp as nat) % 1 == 0) by {
                lemma_fundamental_div_mod(pow(base as int, exp as nat), 1);
            }
        }
        return 0;
    }

    let mut result: u64 = 1;
    let mut b: u64 = base % modulus;
    let mut e: u64 = exp;

    proof {
        lemma_pow_mod_noop(base as int, exp as nat, modulus as int);
    }

    while e > 0
        invariant
            modulus >= 2,
            result < modulus,
            b < modulus,
            (result * pow(b as int, e as nat)) % (modulus as int) == pow(
                base as int,
                exp as nat,
            ) % (modulus as int),
        decreases e,
    {
        let ghost m = modulus as int;
        if e % 2 == 1 {
            proof {
                lemma_mul_le(result as int, b as int, u64::MAX as int, u64::MAX as int);
            }
            let new_result: u64 = ((result as u128 * b as u128) % modulus as u128) as u64;
            proof {
                lemma_mod_exp_odd_step(result as int, b as int, e as nat, m);
            }
            result = new_result;
        } else {
            proof {
                lemma_mod_exp_even_step(result as int, b as int, e as nat, m);
            }
        }
        proof {
            lemma_mul_le(b as int, b as int, u64::MAX as int, u64::MAX as int);
        }
        let new_b: u64 = ((b as u128 * b as u128) % modulus as u128) as u64;
        e = e / 2;
        b = new_b;
    }
    proof {
        assert(pow(b as int, 0) == 1) by {
            vstd::arithmetic::power::lemma_pow0(b as int);
        }
        lemma_small_mod(result as nat, modulus as nat);
    }
    result
}

/// One square-and-multiply step for an odd exponent: folding the low bit
/// into the accumulator and squaring the base preserves the running product.
proof fn lemma_mod_exp_odd_step(result: int, b: int, e: nat, m: int)
    requires
        m >= 2,
        e % 2 == 1,
        e >= 1,
        0 <= result < m,
        0 <= b < m,
    ensures
        ((result * b % m) * pow(b * b % m, e / 2)) % m == (result * pow(b, e)) % m,
{
    let half = e / 2;
    assert(e == 2 * half + 1);
    lemma_pow_multiplies(b, 2, half);
    assert(pow(b, 2) == b * b) by {
        vstd::arithmetic::power::lemma_square_is_pow2(b);
    }
    lemma_pow_adds(b, (2 * half) as nat, 1);
    assert(pow(b, 1) == b) by {
        vstd::arithmetic::power::lemma_pow1(b);
    }
    assert(pow(b, e) == pow(b * b, half) * b);
    assert(pow(b * b % m, half) % m == pow(b * b, half) % m) by {
        lemma_pow_mod_noop(b * b, half, m);
        lemma_pow_mod_noop(b * b % m, half, m);
        vstd::arithmetic::div_mod::lemma_mod_twice(b * b, m);
    }
    lemma_mul_mod_noop_general(result * b, pow(b * b, half), m);
    assert(((result * b % m) * pow(b * b % m, e / 2)) % m == (result * b * pow(b * b, half)) % m)
        by {
        lemma_mul_mod_noop_general(result * b, pow(b * b % m, half), m);
    }
    assert(result * b * pow(b * b, half) == result * (pow(b * b, half) * b)) by (nonlinear_arith);
    assert(result * (pow(b * b, half) * b) == result * pow(b, e));
}

/// One squaring step for an even exponent: squaring the base and halving the
/// exponent preserves the running product.
proof fn lemma_mod_exp_even_step(result: int, b: int, e: nat, m: int)
    requires
        m >= 2,
        e % 2 == 0,
        e >= 1,
        0 <= result < m,
        0 <= b < m,
    ensures
        (result * pow(b * b % m, e / 2)) % m == (result * pow(b, e)) % m,
{
    let half = e / 2;
    assert(e == 2 * half);
    lemma_pow_multiplies(b, 2, half);
    assert(pow(b, 2) == b * b) by {
        vstd::arithmetic::power::lemma_square_is_pow2(b);
    }
    assert(pow(b, e) == pow(b * b, half));
    assert(pow(b * b % m, half) % m == pow(b * b, half) % m) by {
        lemma_pow_mod_noop(b * b, half, m);
        lemma_pow_mod_noop(b * b % m, half, m);
        vstd::arithmetic::div_mod::lemma_mod_twice(b * b, m);
    }
    lemma_mul_mod_noop_general(result, pow(b * b % m, half), m);
    lemma_mul_mod_noop_general(result, pow(b * b, half), m);
}

} // verus!
