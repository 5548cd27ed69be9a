use vstd::prelude::*;

verus! {

/// The smallest and largest values of a 128-bit signed integer, as spec integers.
pub open spec fn fits(x: int) -> bool {
    i128::MIN <= x <= i128::MAX
}

/// Product of two optional integers; `None` when an operand is missing or the
/// product leaves the 128-bit range.
pub open spec fn om(a: Option<int>, b: Option<int>) -> Option<int> {
    match (a, b) {
        (Some(x), Some(y)) => if fits(x * y) { Some(x * y) } else { None },
        _ => None,
    }
}

/// Sum of two optional integers, in the same way as `om`.
pub open spec fn oa(a: Option<int>, b: Option<int>) -> Option<int> {
    match (a, b) {
        (Some(x), Some(y)) => if fits(x + y) { Some(x + y) } else { None },
        _ => None,
    }
}

/// Difference of two optional integers, in the same way as `om`.
pub open spec fn os(a: Option<int>, b: Option<int>) -> Option<int> {
    match (a, b) {
        (Some(x), Some(y)) => if fits(x - y) { Some(x - y) } else { None },
        _ => None,
    }
}

/// Floor of `a / b` for a positive divisor; `None` when an operand is missing.
pub open spec fn ofloor(a: Option<int>, b: Option<int>) -> Option<int> {
    match (a, b) {
        (Some(x), Some(y)) => if y > 0 { Some(x / y) } else { None },
        _ => None,
    }
}

pub open spec fn lift(r: Option<i128>) -> Option<int> {
    match r {
        Some(x) => Some(x as int),
        None => None,
    }
}

pub fn mul_checked(a: i128, b: i128) -> (r: Option<i128>)
    ensures
        lift(r) == om(Some(a as int), Some(b as int)),
{
    a.checked_mul(b)
}

pub fn add_checked(a: i128, b: i128) -> (r: Option<i128>)
    ensures
        lift(r) == oa(Some(a as int), Some(b as int)),
{
    a.checked_add(b)
}

pub fn sub_checked(a: i128, b: i128) -> (r: Option<i128>)
    ensures
        lift(r) == os(Some(a as int), Some(b as int)),
{
    a.checked_sub(b)
}

pub fn floor_div(a: i128, b: i128) -> (r: Option<i128>)
    requires
        b > 0,
    ensures
        lift(r) == ofloor(Some(a as int), Some(b as int)),
{
    let q = a.checked_div_euclid(b);
    match q {
        Some(v) => Some(v),
        None => {
            proof {
                lemma_floor_div_fits(a as int, b as int);
            }
            None
        },
    }
}

/// The floor of a 128-bit integer over a positive divisor is a 128-bit integer.
pub proof fn lemma_floor_div_fits(a: int, b: int)
    requires
        fits(a),
        b > 0,
    ensures
        fits(a / b),
{
    if a >= 0 {
        vstd::arithmetic::div_mod::lemma_div_is_ordered_by_denominator(a, 1, b);
        vstd::arithmetic::div_mod::lemma_div_pos_is_pos(a, b);
    } else {
        vstd::arithmetic::div_mod::lemma_fundamental_div_mod(a, b);
        assert(a / b >= a) by (nonlinear_arith)
            requires
                a == b * (a / b) + a % b,
                0 <= a % b < b,
                a < 0,
                b > 0,
        ;
        assert(a / b < 0) by (nonlinear_arith)
            requires
                a == b * (a / b) + a % b,
                0 <= a % b < b,
                a < 0,
                b > 0,
        ;
    }
}


/// The greatest common divisor, by Euclid's algorithm.
pub open spec fn gcd(a: nat, b: nat) -> nat
    decreases b,
{
    if b == 0 {
        a
    } else {
        gcd(b, a % b)
    }
}

/// The greatest common divisor of a positive `a` and any `b` is positive and divides both.
pub proof fn lemma_gcd_divides(a: nat, b: nat)
    requires
        a > 0,
    ensures
        gcd(a, b) > 0,
        (a as int / gcd(a, b) as int) * gcd(a, b) == a,
        (b as int / gcd(a, b) as int) * gcd(a, b) == b,
    decreases b,
{
    if b == 0 {
        vstd::arithmetic::div_mod::lemma_div_multiples_vanish(1, a as int);
        vstd::arithmetic::div_mod::lemma_div_multiples_vanish(0, a as int);
    } else {
        let r = (a % b) as nat;
        vstd::arithmetic::div_mod::lemma_mod_bound(a as int, b as int);
        lemma_gcd_divides(b, r);
        let g = gcd(b, r) as int;
        let p = b as int / g;
        let t = r as int / g;
        vstd::arithmetic::div_mod::lemma_fundamental_div_mod(a as int, b as int);
        let qq = a as int / b as int;
        assert(a == g * (p * qq + t)) by (nonlinear_arith)
            requires
                a == b * qq + r,
                p * g == b,
                t * g == r,
        ;
        vstd::arithmetic::div_mod::lemma_div_multiples_vanish(p * qq + t, g);
    }
}

/// The greatest common divisor of two positive integers.
pub fn gcd_exec(a: i64, b: i64) -> (r: i64)
    requires
        a > 0,
        b > 0,
    ensures
        r as nat == gcd(a as nat, b as nat),
        r > 0,
{
    let mut x = a;
    let mut y = b;
    while y != 0
        invariant
            x > 0,
            y >= 0,
            gcd(x as nat, y as nat) == gcd(a as nat, b as nat),
        decreases y,
    {
        let t = x % y;
        x = y;
        y = t;
    }
    x
}

/// An exact rational number `num / den` with a positive denominator.
#[derive(Clone, Copy, Debug)]
pub struct Ratio {
    pub num: i64,
    pub den: i64,
}

impl Ratio {
    pub open spec fn wf(self) -> bool {
        self.den > 0
    }

    pub open spec fn positive(self) -> bool {
        self.num > 0 && self.den > 0
    }

    /// `self <= o` as numbers (both denominators positive).
    pub open spec fn le(self, o: Ratio) -> bool {
        self.num * o.den <= o.num * self.den
    }

    /// Two ratios denote the same number.
    pub open spec fn same(self, o: Ratio) -> bool {
        self.num * o.den == o.num * self.den
    }

    /// `num / den`; the denominator must be positive.
    pub fn new(num: i64, den: i64) -> (r: Ratio)
        requires
            den > 0,
        ensures
            r.num == num,
            r.den == den,
            r.wf(),
    {
        Ratio { num, den }
    }

    /// The integer `n` as a ratio.
    pub fn from_int(n: i64) -> (r: Ratio)
        ensures
            r.num == n,
            r.den == 1,
            r.wf(),
    {
        Ratio { num: n, den: 1 }
    }

    /// Whether the two ratios denote the same number.
    pub fn same_value(&self, o: &Ratio) -> (r: bool)
        ensures
            r == self.same(*o),
    {
        proof {
            assert(fits(self.num * o.den)) by (nonlinear_arith)
                requires
                    i64::MIN <= self.num <= i64::MAX,
                    i64::MIN <= o.den <= i64::MAX,
            ;
            assert(fits(o.num * self.den)) by (nonlinear_arith)
                requires
                    i64::MIN <= o.num <= i64::MAX,
                    i64::MIN <= self.den <= i64::MAX,
            ;
        }
        (self.num as i128) * (o.den as i128) == (o.num as i128) * (self.den as i128)
    }
}

impl PartialEq for Ratio {
    fn eq(&self, o: &Ratio) -> (r: bool) {
        self.same_value(o)
    }
}

impl vstd::std_specs::cmp::PartialEqSpecImpl for Ratio {
    open spec fn obeys_eq_spec() -> bool {
        true
    }

    open spec fn eq_spec(&self, o: &Ratio) -> bool {
        self.same(*o)
    }
}

} // verus!
