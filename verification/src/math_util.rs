//! Greatest common divisor and least common multiple on small integers.

use vstd::prelude::*;

verus! {

/// `d` divides `n`.
pub open spec fn divides(d: int, n: int) -> bool {
    exists|q: int| n == #[trigger] (d * q)
}

/// Euclid's algorithm on naturals, with the larger argument first.
pub open spec fn spec_gcd(a: nat, b: nat) -> nat
    decreases a + b, b,
{
    if b > a {
        spec_gcd(b, a)
    } else if b == 0 {
        a
    } else if b == 1 {
        1
    } else {
        spec_gcd(b, a % b)
    }
}

proof fn lemma_divides_mod(d: int, a: int, b: int)
    requires
        b > 0,
        divides(d, a),
        divides(d, b),
    ensures
        divides(d, a % b),
{
    let qa = choose|q: int| a == #[trigger] (d * q);
    let qb = choose|q: int| b == #[trigger] (d * q);
    assert(a % b == a - b * (a / b)) by {
        vstd::arithmetic::div_mod::lemma_fundamental_div_mod(a, b);
    }
    assert(a - b * (a / b) == d * (qa - qb * (a / b))) by {
        assert(a == d * qa && b == d * qb);
        assert(b * (a / b) == d * (qb * (a / b))) by (nonlinear_arith)
            requires
                b == d * qb,
        ;
        assert(d * qa - d * (qb * (a / b)) == d * (qa - qb * (a / b))) by (nonlinear_arith);
    }
}

proof fn lemma_divides_add_multiple(d: int, a: int, b: int)
    requires
        b > 0,
        divides(d, b),
        divides(d, a % b),
    ensures
        divides(d, a),
{
    let qb = choose|q: int| b == #[trigger] (d * q);
    let qm = choose|q: int| a % b == #[trigger] (d * q);
    assert(a == b * (a / b) + a % b) by {
        vstd::arithmetic::div_mod::lemma_fundamental_div_mod(a, b);
    }
    assert(b * (a / b) + a % b == d * (qb * (a / b) + qm)) by (nonlinear_arith)
        requires
            b == d * qb,
            a % b == d * qm,
    ;
}

/// `spec_gcd` is a common divisor of its arguments, and every common
/// divisor of the arguments divides it.
pub proof fn lemma_gcd_properties(a: nat, b: nat)
    ensures
        divides(spec_gcd(a, b) as int, a as int),
        divides(spec_gcd(a, b) as int, b as int),
        forall|d: int| divides(d, a as int) && divides(d, b as int) ==> divides(
            d,
            spec_gcd(a, b) as int,
        ),
    decreases a + b, b,
{
    let g = spec_gcd(a, b) as int;
    if b > a {
        lemma_gcd_properties(b, a);
    } else if b == 0 {
        assert(divides(g, a as int)) by {
            assert(a as int == g * 1);
        }
        assert(divides(g, 0)) by {
            assert(0int == g * 0);
        }
    } else if b == 1 {
        assert(divides(1, a as int)) by {
            assert(a as int == 1 * (a as int));
        }
        assert(divides(1, b as int)) by {
            assert(b as int == 1 * (b as int));
        }
        assert forall|d: int| divides(d, a as int) && divides(d, b as int) implies divides(
            d,
            1,
        ) by {
            assert(divides(d, 1));
        }
    } else {
        lemma_gcd_properties(b, a % b);
        assert(divides(g, b as int) && divides(g, (a % b) as int));
        assert((a % b) as int == (a as int) % (b as int)) by {
            vstd::arithmetic::div_mod::lemma_mod_bound(a as int, b as int);
        }
        lemma_divides_add_multiple(g, a as int, b as int);
        assert forall|d: int| divides(d, a as int) && divides(d, b as int) implies divides(
            d,
            g,
        ) by {
            lemma_divides_mod(d, a as int, b as int);
        }
    }
}

/// The greatest common divisor of `a` and `b`; `gcd(0, 0)` is 0.
pub fn gcd(a: u8, b: u8) -> (r: u8)
    ensures
        r == spec_gcd(a as nat, b as nat),
    decreases a + b, b,
{
    let (hi, lo): (u8, u8) = if b > a {
        (b, a)
    } else {
        (a, b)
    };
    proof {
        assert(spec_gcd(a as nat, b as nat) == spec_gcd(hi as nat, lo as nat));
    }
    if lo == 0 {
        hi
    } else if lo == 1 {
        1
    } else {
        let r: u8 = gcd(lo, hi % lo);
        proof {
            assert(spec_gcd(hi as nat, lo as nat) == spec_gcd(lo as nat, (hi % lo) as nat));
        }
        r
    }
}

/// The least common multiple of `a` and `b`.
///
/// The product `a * b` must fit in `u8` and the arguments may not both be
/// zero, exactly as the operations in the body demand.
pub fn lcm(a: u8, b: u8) -> (r: u8)
    requires
        a * b <= u8::MAX,
        a > 0 || b > 0,
    ensures
        r as int * spec_gcd(a as nat, b as nat) == a as int * b as int,
        divides(a as int, r as int),
        divides(b as int, r as int),
{
    proof {
        lemma_gcd_properties(a as nat, b as nat);
        lemma_gcd_positive(a as nat, b as nat);
    }
    let g: u8 = gcd(a, b);
    let r: u8 = a * b / g;
    proof {
        let gi = g as int;
        let ai = a as int;
        let bi = b as int;
        let qa = choose|q: int| ai == #[trigger] (gi * q);
        let qb = choose|q: int| bi == #[trigger] (gi * q);
        assert(qa >= 0 && qb >= 0) by (nonlinear_arith)
            requires
                ai == gi * qa,
                bi == gi * qb,
                ai >= 0,
                bi >= 0,
                gi > 0,
        ;
        assert(ai * bi == (gi * (qa * bi))) by (nonlinear_arith)
            requires
                ai == gi * qa,
        ;
        assert(r as int == ai * bi / gi);
        assert(gi * (qa * bi) / gi == qa * bi) by (nonlinear_arith)
            requires
                gi > 0,
        ;
        assert(r as int == qa * bi);
        assert(r as int * gi == ai * bi) by (nonlinear_arith)
            requires
                r as int == qa * bi,
                ai == gi * qa,
        ;
        assert(divides(bi, r as int)) by {
            assert(r as int == bi * qa);
        }
        assert(divides(ai, r as int)) by {
            assert(r as int * gi == ai * bi);
            assert(r as int == ai * qb) by (nonlinear_arith)
                requires
                    r as int * gi == ai * bi,
                    bi == gi * qb,
                    gi > 0,
            ;
        }
    }
    r
}

proof fn lemma_gcd_positive(a: nat, b: nat)
    requires
        a > 0 || b > 0,
    ensures
        spec_gcd(a, b) > 0,
    decreases a + b, b,
{
    if b > a {
        lemma_gcd_positive(b, a);
    } else if b == 0 {
    } else if b == 1 {
    } else {
        lemma_gcd_positive(b, a % b);
    }
}

} // verus!
