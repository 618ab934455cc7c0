use vstd::prelude::*;

verus! {

/// The greatest common divisor, defined by Euclid's recurrence:
/// `gcd(a, 0) == a` and `gcd(a, b) == gcd(b, a % b)` for `b != 0`.
pub open spec fn gcd(a: nat, b: nat) -> nat
    decreases b,
{
    if b == 0 {
        a
    } else {
        gcd(b, a % b)
    }
}

/// `gcd` divides both of its arguments, and any common divisor of the
/// arguments divides `gcd`; so `gcd` really is the greatest common divisor.
pub proof fn lemma_gcd_is_greatest_common_divisor(a: nat, b: nat)
    ensures
        gcd(a, b) == 0 ==> a == 0 && b == 0,
        a % gcd(a, b) == 0 || gcd(a, b) == 0,
        b % gcd(a, b) == 0 || gcd(a, b) == 0,
        forall|d: nat| 1 <= d && a % d == 0 && b % d == 0 ==> #[trigger] (gcd(a, b) % d) == 0,
    decreases b,
{
    if b == 0 {
        assert(a % a == 0 || a == 0) by (nonlinear_arith);
        assert(forall|d: nat| 1 <= d && a % d == 0 ==> #[trigger] (gcd(a, 0nat) % d) == 0);
    } else {
        lemma_gcd_is_greatest_common_divisor(b, a % b);
        let g = gcd(b, (a % b) as nat);
        assert(a % b < b) by (nonlinear_arith)
            requires b > 0;
        if g != 0 {
            lemma_mod_transfers_divisor(a, b, g);
        }
        assert forall|d: nat| 1 <= d && a % d == 0 && b % d == 0 implies #[trigger] (gcd(a, b)
            % d) == 0 by {
            lemma_divisor_of_mod(a, b, d);
        }
    }
}

/// A multiple of a multiple of `m` is itself a multiple of `m`.
proof fn lemma_multiple_stays_multiple(q: int, b: int, m: int)
    requires
        m > 0,
        b % m == 0,
    ensures
        (q * b) % m == 0,
{
    vstd::arithmetic::div_mod::lemma_fundamental_div_mod(b, m);
    assert(q * b == (q * (b / m)) * m) by (nonlinear_arith)
        requires b == m * (b / m);
    vstd::arithmetic::div_mod::lemma_mod_multiples_basic(q * (b / m), m);
}

/// If `b != 0`, `g` divides `b` and `g` divides `a % b`, then `g` divides `a`.
proof fn lemma_mod_transfers_divisor(a: nat, b: nat, g: nat)
    requires
        b != 0,
        g != 0,
        b % g == 0,
        (a % b) % g == 0,
    ensures
        a % g == 0,
{
    let ai = a as int;
    let bi = b as int;
    let gi = g as int;
    vstd::arithmetic::div_mod::lemma_fundamental_div_mod(ai, bi);
    lemma_multiple_stays_multiple(ai / bi, bi, gi);
    vstd::arithmetic::div_mod::lemma_add_mod_noop(bi * (ai / bi), ai % bi, gi);
    vstd::arithmetic::div_mod::lemma_small_mod(0, g);
    assert((ai / bi) * bi == bi * (ai / bi)) by (nonlinear_arith);
}

/// If `d` divides `a` and `b`, and `b != 0`, then `d` divides `a % b`.
proof fn lemma_divisor_of_mod(a: nat, b: nat, d: nat)
    requires
        b != 0,
        1 <= d,
        a % d == 0,
        b % d == 0,
    ensures
        (a % b) % d == 0,
{
    let ai = a as int;
    let bi = b as int;
    let di = d as int;
    vstd::arithmetic::div_mod::lemma_fundamental_div_mod(ai, bi);
    lemma_multiple_stays_multiple(ai / bi, bi, di);
    vstd::arithmetic::div_mod::lemma_sub_mod_noop(ai, bi * (ai / bi), di);
    vstd::arithmetic::div_mod::lemma_small_mod(0, d);
    assert((ai / bi) * bi == bi * (ai / bi)) by (nonlinear_arith);
}

/// Computes the greatest common divisor of `a` and `b` with the iterative
/// Euclidean algorithm.
pub fn euclidean_algorithm(a: u64, b: u64) -> (r: u64)
    ensures
        r == gcd(a as nat, b as nat),
{
    let mut x = a;
    let mut y = b;
    while y != 0
        invariant
            gcd(x as nat, y as nat) == gcd(a as nat, b as nat),
        decreases y,
    {
        let temp = y;
        y = x % y;
        x = temp;
    }
    x
}

/// Computes the greatest common divisor of `a` and `b` with the recursive
/// Euclidean algorithm.
pub fn euclidean_algorithm_recursion(a: u64, b: u64) -> (r: u64)
    ensures
        r == gcd(a as nat, b as nat),
    decreases b,
{
    if b == 0 {
        return a;
    }
    euclidean_algorithm_recursion(b, a % b)
}

} // verus!
