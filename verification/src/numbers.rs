//! Greatest common divisor and least common multiple on `u64`, with the
//! mathematical definitions as specifications.

use vstd::prelude::*;

verus! {

/// Euclid's greatest common divisor, as a mathematical definition.
pub open spec fn spec_gcd(a: nat, b: nat) -> nat
    decreases b,
{
    if b == 0 {
        a
    } else {
        spec_gcd(b, a % b)
    }
}

/// Least common multiple in terms of the greatest common divisor;
/// meaningful for positive arguments.
pub open spec fn spec_lcm(a: nat, b: nat) -> nat {
    if spec_gcd(a, b) == 0 {
        0
    } else {
        a * (b / spec_gcd(a, b))
    }
}

/// `spec_gcd` divides both of its arguments and is positive when one of
/// them is.
pub proof fn lemma_gcd_divides(a: nat, b: nat)
    ensures
        a > 0 || b > 0 ==> spec_gcd(a, b) > 0,
        spec_gcd(a, b) > 0 ==> a % spec_gcd(a, b) == 0 && b % spec_gcd(a, b) == 0,
    decreases b,
{
    if b == 0 {
    } else {
        lemma_gcd_divides(b, a % b);
        let g = spec_gcd(b, (a % b) as nat);
        if g > 0 {
            vstd::arithmetic::div_mod::lemma_fundamental_div_mod(a as int, b as int);
            vstd::arithmetic::div_mod::lemma_mod_multiples_vanish(
                (a / b) as int * (b / g) as int,
                (a % b) as int,
                g as int,
            );
            assert(b % g == 0);
            assert(a == b * (a / b) + a % b);
            assert(b == g * (b / g)) by {
                vstd::arithmetic::div_mod::lemma_fundamental_div_mod(b as int, g as int);
            }
            assert(b * (a / b) == g * ((a / b) * (b / g))) by {
                assert(b * (a / b) == (g * (b / g)) * (a / b));
                vstd::arithmetic::mul::lemma_mul_is_associative(
                    g as int,
                    (b / g) as int,
                    (a / b) as int,
                );
                vstd::arithmetic::mul::lemma_mul_is_commutative((b / g) as int, (a / b) as int);
            }
            assert(a == g * ((a / b) * (b / g)) + a % b);
            assert(((a / b) * (b / g)) * g + (a % b) as int == a) by {
                vstd::arithmetic::mul::lemma_mul_is_commutative(
                    g as int,
                    (a / b) as int * (b / g) as int,
                );
            }
            assert(a % g == (a % b) % g) by {
                vstd::arithmetic::div_mod::lemma_mod_multiples_vanish(
                    (a / b) as int * (b / g) as int,
                    (a % b) as int,
                    g as int,
                );
            }
        }
    }
}

/// Euclid's algorithm; the result is the greatest common divisor of the
/// two arguments.
pub fn gcd(a: u64, b: u64) -> (r: u64)
    ensures
        r == spec_gcd(a as nat, b as nat),
    decreases b,
{
    if b == 0 {
        a
    } else {
        gcd(b, a % b)
    }
}

/// Least common multiple of two positive numbers; `None` when the exact
/// value does not fit in `u64`.
pub fn lcm(a: u64, b: u64) -> (r: Option<u64>)
    requires
        a > 0,
        b > 0,
    ensures
        match r {
            Some(v) => v == spec_lcm(a as nat, b as nat),
            None => spec_lcm(a as nat, b as nat) > u64::MAX,
        },
{
    let g = gcd(a, b);
    proof {
        lemma_gcd_divides(a as nat, b as nat);
    }
    let q = b / g;
    a.checked_mul(q)
}

} // verus!
