//! Exact fractional voting power.
//!
//! Cumulative voting power is a rational number held as a numerator and a
//! denominator, so that every node computes bit-identical tallies.  Addition
//! is exact: the sum is reduced by the greatest common divisor and refused
//! (`None`) only when it cannot be represented in 64 bits.

use vstd::prelude::*;

verus! {

use vstd::arithmetic::div_mod::{lemma_fundamental_div_mod, lemma_mod_division_less_than_divisor};

/// `d` divides `a`.
pub open spec fn divides(d: int, a: int) -> bool {
    exists|k: int| a == #[trigger] (d * k)
}

/// Euclid's greatest common divisor, for non-negative arguments.
pub open spec fn spec_gcd(a: int, b: int) -> int
    decreases b,
{
    if b <= 0 {
        a
    } else {
        spec_gcd(b, a % b)
    }
}

/// The gcd of non-negative arguments divides both, and is at least 1 as soon
/// as one argument is positive.
pub proof fn lemma_gcd_properties(a: int, b: int)
    requires
        a >= 0,
        b >= 0,
    ensures
        divides(spec_gcd(a, b), a),
        divides(spec_gcd(a, b), b),
        spec_gcd(a, b) >= 0,
        a > 0 || b > 0 ==> spec_gcd(a, b) >= 1,
    decreases b,
{
    if b <= 0 {
        assert(a == a * 1);
        assert(b == a * 0);
    } else {
        lemma_mod_division_less_than_divisor(a, b);
        lemma_gcd_properties(b, a % b);
        let g = spec_gcd(b, a % b);
        let kb = choose|k: int| b == #[trigger] (g * k);
        let kr = choose|k: int| (a % b) == #[trigger] (g * k);
        lemma_fundamental_div_mod(a, b);
        assert(a == b * (a / b) + (a % b));
        assert(a == g * (kb * (a / b) + kr)) by (nonlinear_arith)
            requires
                a == b * (a / b) + (a % b),
                b == g * kb,
                (a % b) == g * kr,
        ;
    }
}

/// A positive divisor of a positive number is no larger than it.
pub proof fn lemma_divisor_le(d: int, a: int)
    requires
        d >= 1,
        a >= 1,
        divides(d, a),
    ensures
        d <= a,
        a / d >= 1,
{
    let k = choose|k: int| a == #[trigger] (d * k);
    assert(k >= 1) by (nonlinear_arith)
        requires
            a == d * k,
            d >= 1,
            a >= 1,
    ;
    assert(d * k >= d * 1) by (nonlinear_arith)
        requires
            k >= 1,
            d >= 1,
    ;
    assert(a / d == k) by (nonlinear_arith)
        requires
            a == d * k,
            d >= 1,
    ;
}

/// Dividing a multiple of `g` by `g` recovers the co-factor.
proof fn lemma_div_exact(a: int, g: int)
    requires
        g >= 1,
        a >= 0,
        divides(g, a),
    ensures
        a == g * (a / g),
        a / g >= 0,
{
    let k = choose|k: int| a == #[trigger] (g * k);
    assert(a / g == k && k >= 0) by (nonlinear_arith)
        requires
            a == g * k,
            g >= 1,
            a >= 0,
    ;
}

/// The cumulative fraction of total stake that has voted for an event.
#[derive(Debug, Clone, Copy, PartialEq, Eq, Structural)]
pub struct FractionalVotingPower {
    pub numer: u64,
    pub denom: u64,
}

impl FractionalVotingPower {
    /// A fraction is well formed when its denominator is positive.
    pub open spec fn wf(self) -> bool {
        self.denom >= 1
    }

    /// `self`, as a rational number, is at least `other`.
    pub open spec fn spec_ge(self, other: Self) -> bool {
        self.numer * other.denom >= other.numer * self.denom
    }

    /// The confirmation threshold: strictly more than two thirds.
    /// Exactly two thirds does not cross it.
    pub open spec fn spec_exceeds_threshold(self) -> bool {
        3 * self.numer > 2 * self.denom
    }

    /// Exact addition: cross-multiplied sum, reduced by the gcd; `None` when
    /// the sum cannot be represented (numerator above `u128::MAX`, or the
    /// reduced parts above `u64::MAX`).
    pub open spec fn spec_add(self, other: Self) -> Option<Self> {
        let n = self.numer * other.denom + other.numer * self.denom;
        let d = self.denom * other.denom;
        if n > u128::MAX {
            None
        } else {
            let g = spec_gcd(n, d);
            if n / g > u64::MAX || d / g > u64::MAX {
                None
            } else {
                Some(
                    FractionalVotingPower {
                        numer: (n / g) as u64,
                        denom: (d / g) as u64,
                    },
                )
            }
        }
    }

    /// The zero fraction.
    pub fn zero() -> (r: Self)
        ensures
            r == (FractionalVotingPower { numer: 0u64, denom: 1u64 }),
    {
        FractionalVotingPower { numer: 0, denom: 1 }
    }

    /// Build a fraction; accepted exactly when the denominator is positive
    /// and the value is at most one.
    pub fn new(numer: u64, denom: u64) -> (r: Option<Self>)
        ensures
            r == if 1 <= denom && numer <= denom {
                Some(FractionalVotingPower { numer, denom })
            } else {
                None::<FractionalVotingPower>
            },
    {
        if 1 <= denom && numer <= denom {
            Some(FractionalVotingPower { numer, denom })
        } else {
            None
        }
    }

    /// Whether this fraction strictly exceeds two thirds.
    pub fn exceeds_threshold(&self) -> (r: bool)
        ensures
            r == self.spec_exceeds_threshold(),
    {
        3u128 * (self.numer as u128) > 2u128 * (self.denom as u128)
    }

    /// Exact checked addition, implementing [`Self::spec_add`].
    pub fn checked_add(self, other: Self) -> (r: Option<Self>)
        requires
            self.wf(),
            other.wf(),
        ensures
            r == self.spec_add(other),
            r matches Some(c) ==> c.wf(),
    {
        proof {
            assert((self.numer as int) * (other.denom as int) <= u64::MAX * u64::MAX
                && (other.numer as int) * (self.denom as int) <= u64::MAX * u64::MAX
                && (self.denom as int) * (other.denom as int) <= u64::MAX * u64::MAX
                && 1 <= (self.denom as int) * (other.denom as int)) by (nonlinear_arith)
                requires
                    self.numer <= u64::MAX,
                    self.denom <= u64::MAX,
                    other.numer <= u64::MAX,
                    other.denom <= u64::MAX,
                    1 <= self.denom,
                    1 <= other.denom,
            ;
        }
        let n1 = (self.numer as u128) * (other.denom as u128);
        let n2 = (other.numer as u128) * (self.denom as u128);
        let d = (self.denom as u128) * (other.denom as u128);
        match n1.checked_add(n2) {
            None => None,
            Some(n) => {
                let g = gcd_u128(n, d);
                proof {
                    lemma_gcd_properties(n as int, d as int);
                    lemma_div_exact(n as int, g as int);
                    lemma_div_exact(d as int, g as int);
                    lemma_divisor_le(g as int, d as int);
                }
                let rn = n / g;
                let rd = d / g;
                if rn <= u64::MAX as u128 && rd <= u64::MAX as u128 {
                    Some(FractionalVotingPower { numer: rn as u64, denom: rd as u64 })
                } else {
                    None
                }
            },
        }
    }
}

/// Euclid's algorithm.
fn gcd_u128(a: u128, b: u128) -> (g: u128)
    ensures
        g as int == spec_gcd(a as int, b as int),
{
    let mut x = a;
    let mut y = b;
    while y > 0
        invariant
            spec_gcd(x as int, y as int) == spec_gcd(a as int, b as int),
        decreases y,
    {
        let r = x % y;
        x = y;
        y = r;
    }
    x
}

/// Adding a well-formed fraction never decreases the value.
pub proof fn lemma_add_ge(a: FractionalVotingPower, b: FractionalVotingPower, c: FractionalVotingPower)
    requires
        a.wf(),
        b.wf(),
        a.spec_add(b) == Some(c),
    ensures
        c.spec_ge(a),
        c.wf(),
{
    let n = a.numer * b.denom + b.numer * a.denom;
    let d = a.denom * b.denom;
    let g = spec_gcd(n, d);
    lemma_gcd_properties(n, d);
    assert(d >= 1) by (nonlinear_arith)
        requires
            a.denom >= 1,
            b.denom >= 1,
            d == a.denom * b.denom,
    ;
    lemma_div_exact(n, g);
    lemma_div_exact(d, g);
    lemma_divisor_le(g, d);
    // value preservation: (n/g) * d == n * (d/g)
    assert((n / g) * d == n * (d / g)) by (nonlinear_arith)
        requires
            n == g * (n / g),
            d == g * (d / g),
    ;
    // c >= a: c.numer * a.denom >= a.numer * c.denom
    assert((n / g) * a.denom >= a.numer * (d / g)) by (nonlinear_arith)
        requires
            (n / g) * d == n * (d / g),
            n == a.numer * b.denom + b.numer * a.denom,
            d == a.denom * b.denom,
            g >= 1,
            a.denom >= 1,
            b.denom >= 1,
            b.numer >= 0,
            a.numer >= 0,
            n / g >= 0,
            d / g >= 1,
    ;
}

/// `spec_ge` is transitive over well-formed fractions.
pub proof fn lemma_ge_trans(
    a: FractionalVotingPower,
    b: FractionalVotingPower,
    c: FractionalVotingPower,
)
    requires
        a.wf(),
        b.wf(),
        c.wf(),
        c.spec_ge(b),
        b.spec_ge(a),
    ensures
        c.spec_ge(a),
{
    assert(c.numer * a.denom >= a.numer * c.denom) by (nonlinear_arith)
        requires
            c.numer * b.denom >= b.numer * c.denom,
            b.numer * a.denom >= a.numer * b.denom,
            a.denom >= 1,
            b.denom >= 1,
            c.denom >= 1,
            a.numer >= 0,
            b.numer >= 0,
            c.numer >= 0,
    ;
}

/// Once the threshold is crossed, any value at least as large crosses it too.
pub proof fn lemma_threshold_monotone(a: FractionalVotingPower, b: FractionalVotingPower)
    requires
        a.wf(),
        b.wf(),
        b.spec_ge(a),
        a.spec_exceeds_threshold(),
    ensures
        b.spec_exceeds_threshold(),
{
    assert(3 * b.numer > 2 * b.denom) by (nonlinear_arith)
        requires
            b.numer * a.denom >= a.numer * b.denom,
            3 * a.numer > 2 * a.denom,
            a.denom >= 1,
            b.denom >= 1,
    ;
}

/// A fraction that is exactly two thirds does not exceed the threshold.
pub proof fn lemma_exact_two_thirds_not_confirmed(p: FractionalVotingPower)
    requires
        p.wf(),
        3 * p.numer == 2 * p.denom,
    ensures
        !p.spec_exceeds_threshold(),
{
}

} // verus!
