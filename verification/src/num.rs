//! Exact rational numbers: the values of Grove number literals.
//!
//! A `Num` is a fraction `num / den` kept in lowest terms with a positive
//! denominator, so that two `Num`s denote the same rational exactly when
//! their fields are equal. Both parts fit in an `i64` (the numerator is
//! never `i64::MIN`), and arithmetic that would leave that range reports
//! `None` instead of rounding.
use vstd::prelude::*;
use vstd::arithmetic::div_mod::*;
use vstd::arithmetic::mul::*;

verus! {

/// Largest magnitude of a numerator or denominator.
pub const LIMIT: i64 = 0x7fff_ffff_ffff_ffff;

/// An exact rational number in lowest terms.
#[derive(Clone, Copy, Debug, PartialEq, Eq, Structural)]
pub struct Num {
    pub(crate) num: i64,
    pub(crate) den: i64,
}

/// Absolute value of an integer, as a natural number.
pub open spec fn abs(x: int) -> nat {
    if x < 0 { (-x) as nat } else { x as nat }
}

/// Greatest common divisor, by Euclid's algorithm.
pub open spec fn gcd(a: nat, b: nat) -> nat
    decreases b,
{
    if b == 0 { a } else { gcd(b, a % b) }
}

/// The lowest-terms form `(a, b)` of the fraction `n / d` (for `d != 0`),
/// with the sign carried by `a` and `b > 0`.
pub open spec fn reduce(n: int, d: int) -> (int, int) {
    let g = gcd(abs(n), abs(d));
    let a = (abs(n) / g) as int;
    let b = (abs(d) / g) as int;
    if (n < 0) != (d < 0) { (-a, b) } else { (a, b) }
}

/// The `Num` denoting `n / d`, or `None` when `d == 0` or when the
/// lowest-terms form does not fit the representation.
pub closed spec fn make(n: int, d: int) -> Option<Num> {
    if d == 0 {
        None
    } else {
        let (a, b) = reduce(n, d);
        if -LIMIT <= a <= LIMIT && b <= LIMIT {
            Some(Num { num: a as i64, den: b as i64 })
        } else {
            None
        }
    }
}

pub closed spec fn spec_add(x: Num, y: Num) -> Option<Num> {
    make(x.num * y.den + y.num * x.den, x.den * y.den)
}

pub closed spec fn spec_sub(x: Num, y: Num) -> Option<Num> {
    make(x.num * y.den - y.num * x.den, x.den * y.den)
}

pub closed spec fn spec_mul(x: Num, y: Num) -> Option<Num> {
    make(x.num * y.num, x.den * y.den)
}

pub closed spec fn spec_div(x: Num, y: Num) -> Option<Num> {
    make(x.num * y.den, x.den * y.num)
}

/// `x < y` as rationals.
pub closed spec fn spec_lt(x: Num, y: Num) -> bool {
    x.num * y.den < y.num * x.den
}

/// `x == y` as rationals.
pub closed spec fn spec_same(x: Num, y: Num) -> bool {
    x.num * y.den == y.num * x.den
}

pub closed spec fn spec_neg(x: Num) -> Num {
    Num { num: -x.num as i64, den: x.den }
}

pub closed spec fn spec_int(v: int) -> Num {
    Num { num: v as i64, den: 1 }
}

impl Num {
    /// Lowest terms, positive denominator, both parts within `LIMIT`.
    #[verifier::type_invariant]
    pub closed spec fn wf(self) -> bool {
        &&& 0 < self.den
        &&& -LIMIT <= self.num
        &&& gcd(abs(self.num as int), self.den as nat) == 1
    }

    pub closed spec fn numer_spec(self) -> int {
        self.num as int
    }

    pub closed spec fn denom_spec(self) -> int {
        self.den as int
    }

    pub closed spec fn is_zero_spec(self) -> bool {
        self.num == 0
    }

    pub closed spec fn is_int_spec(self, v: int) -> bool {
        self.num == v && self.den == 1
    }

    /// The numerator.
    pub fn numer(&self) -> (r: i64)
        ensures
            r == self.numer_spec(),
    {
        self.num
    }

    /// The (positive) denominator.
    pub fn denom(&self) -> (r: i64)
        ensures
            r == self.denom_spec(),
    {
        self.den
    }

    /// The integer `v`.
    pub fn from_int(v: i32) -> (r: Num)
        ensures
            r == spec_int(v as int),
    {
        proof {
            lemma_gcd_one_right(abs(v as int));
        }
        Num { num: v as i64, den: 1 }
    }

    /// The fraction `n / d` in lowest terms; `None` when `d == 0` or the
    /// result does not fit.
    pub fn ratio(n: i64, d: i64) -> (r: Option<Num>)
        ensures
            r == make(n as int, d as int),
    {
        make_exec(n as i128, d as i128)
    }

    /// Whether two numbers are identical (for lowest-terms fractions this is
    /// equality of the rationals).
    pub fn equals(&self, other: &Num) -> (r: bool)
        ensures
            r == (*self == *other),
    {
        self.num == other.num && self.den == other.den
    }

    pub fn is_zero(&self) -> (r: bool)
        ensures
            r == self.is_zero_spec(),
    {
        self.num == 0
    }

    /// Whether this is the integer `v`.
    pub fn is_int(&self, v: i64) -> (r: bool)
        ensures
            r == self.is_int_spec(v as int),
    {
        self.num == v && self.den == 1
    }

    pub fn add(&self, other: &Num) -> (r: Option<Num>)
        ensures
            r == spec_add(*self, *other),
    {
        proof {
            use_type_invariant(self);
            use_type_invariant(other);
            lemma_prod_bound(self.num as int, other.den as int);
            lemma_prod_bound(other.num as int, self.den as int);
            lemma_prod_bound(self.den as int, other.den as int);
        }
        let a = (self.num as i128) * (other.den as i128);
        let b = (other.num as i128) * (self.den as i128);
        let d = (self.den as i128) * (other.den as i128);
        make_exec(a + b, d)
    }

    pub fn sub(&self, other: &Num) -> (r: Option<Num>)
        ensures
            r == spec_sub(*self, *other),
    {
        proof {
            use_type_invariant(self);
            use_type_invariant(other);
            lemma_prod_bound(self.num as int, other.den as int);
            lemma_prod_bound(other.num as int, self.den as int);
            lemma_prod_bound(self.den as int, other.den as int);
        }
        let a = (self.num as i128) * (other.den as i128);
        let b = (other.num as i128) * (self.den as i128);
        let d = (self.den as i128) * (other.den as i128);
        make_exec(a - b, d)
    }

    pub fn mul(&self, other: &Num) -> (r: Option<Num>)
        ensures
            r == spec_mul(*self, *other),
    {
        proof {
            use_type_invariant(self);
            use_type_invariant(other);
            lemma_prod_bound(self.num as int, other.num as int);
            lemma_prod_bound(self.den as int, other.den as int);
        }
        let a = (self.num as i128) * (other.num as i128);
        let d = (self.den as i128) * (other.den as i128);
        make_exec(a, d)
    }

    /// Quotient; `None` when dividing by zero or when the result does not fit.
    pub fn div(&self, other: &Num) -> (r: Option<Num>)
        ensures
            r == spec_div(*self, *other),
    {
        proof {
            use_type_invariant(self);
            use_type_invariant(other);
            lemma_prod_bound(self.num as int, other.den as int);
            lemma_prod_bound(self.den as int, other.num as int);
        }
        let a = (self.num as i128) * (other.den as i128);
        let d = (self.den as i128) * (other.num as i128);
        make_exec(a, d)
    }

    pub fn neg(&self) -> (r: Num)
        ensures
            r == spec_neg(*self),
    {
        proof {
            use_type_invariant(self);
            assert(abs(-self.num as int) == abs(self.num as int));
        }
        Num { num: -self.num, den: self.den }
    }

    pub fn less_than(&self, other: &Num) -> (r: bool)
        ensures
            r == spec_lt(*self, *other),
    {
        proof {
            use_type_invariant(self);
            use_type_invariant(other);
            lemma_prod_bound(self.num as int, other.den as int);
            lemma_prod_bound(other.num as int, self.den as int);
        }
        (self.num as i128) * (other.den as i128) < (other.num as i128) * (self.den as i128)
    }

    pub fn same_value(&self, other: &Num) -> (r: bool)
        ensures
            r == spec_same(*self, *other),
    {
        proof {
            use_type_invariant(self);
            use_type_invariant(other);
            lemma_prod_bound(self.num as int, other.den as int);
            lemma_prod_bound(other.num as int, self.den as int);
        }
        (self.num as i128) * (other.den as i128) == (other.num as i128) * (self.den as i128)
    }
}

/// Products of two parts stay far inside `i128`.
proof fn lemma_prod_bound(a: int, b: int)
    requires
        -LIMIT <= a <= LIMIT,
        -LIMIT <= b <= LIMIT,
    ensures
        -LIMIT * LIMIT <= a * b <= LIMIT * LIMIT,
        LIMIT * LIMIT < 0x3fff_ffff_ffff_ffff_ffff_ffff_ffff_ffff,
{
    assert(-LIMIT * LIMIT <= a * b <= LIMIT * LIMIT) by (nonlinear_arith)
        requires
            -LIMIT <= a <= LIMIT,
            -LIMIT <= b <= LIMIT,
    ;
}

pub proof fn lemma_gcd_one_right(a: nat)
    ensures
        gcd(a, 1) == 1,
{
    assert(gcd(a, 1) == gcd(1, a % 1));
    assert(a % 1 == 0);
    assert(gcd(1, 0) == 1);
}

/// `gcd(a, b)` is positive and divides both `a` and `b`.
pub proof fn lemma_gcd_divides(a: nat, b: nat)
    requires
        a > 0 || b > 0,
    ensures
        gcd(a, b) > 0,
        a % gcd(a, b) == 0,
        b % gcd(a, b) == 0,
    decreases b,
{
    if b == 0 {
        lemma_mod_self_0(a as int);
        lemma_small_mod(0, a);
    } else {
        let r = a % b;
        lemma_mod_pos_bound(a as int, b as int);
        lemma_gcd_divides(b, r);
        let g = gcd(b, r);
        assert(gcd(a, b) == g);
        lemma_fundamental_div_mod(a as int, b as int);
        lemma_fundamental_div_mod(b as int, g as int);
        lemma_fundamental_div_mod(r as int, g as int);
        let q = a as int / b as int;
        let kb = b as int / g as int;
        let kr = r as int / g as int;
        assert(a == b * q + r);
        assert(b == g * kb);
        assert(r == g * kr);
        assert(a == g * (q * kb + kr)) by (nonlinear_arith)
            requires
                a == b * q + r,
                b == g * kb,
                r == g * kr,
        ;
        lemma_mod_multiples_basic(q * kb + kr, g as int);
        lemma_mul_is_commutative(g as int, q * kb + kr);
    }
}

/// Scaling both arguments scales the gcd: `gcd(k a, k b) == k gcd(a, b)`.
pub proof fn lemma_gcd_scale(a: nat, b: nat, k: nat)
    requires
        k > 0,
    ensures
        gcd(k * a, k * b) == k * gcd(a, b),
    decreases b,
{
    if b == 0 {
        assert(k * b == 0);
    } else {
        let r = a % b;
        lemma_mod_pos_bound(a as int, b as int);
        lemma_fundamental_div_mod(a as int, b as int);
        let q = a as int / b as int;
        assert(k * b > 0) by (nonlinear_arith)
            requires
                k > 0,
                b > 0,
        ;
        assert(a == b * q + r);
        assert(k * a == q * (k * b) + k * r && 0 <= k * r < k * b) by (nonlinear_arith)
            requires
                a == b * q + r,
                0 <= r < b,
                k > 0,
        ;
        lemma_fundamental_div_mod_converse((k * a) as int, (k * b) as int, q, (k * r) as int);
        assert(((k * a) as nat) % ((k * b) as nat) == k * r);
        lemma_gcd_scale(b, r, k);
        assert(gcd(k * a, k * b) == gcd(k * b, ((k * a) as nat) % ((k * b) as nat)));
    }
}

/// Dividing out the gcd leaves coprime parts.
pub proof fn lemma_gcd_reduced(a: nat, b: nat)
    requires
        a > 0 || b > 0,
    ensures
        gcd(a / gcd(a, b), b / gcd(a, b)) == 1,
{
    let g = gcd(a, b);
    lemma_gcd_divides(a, b);
    lemma_fundamental_div_mod(a as int, g as int);
    lemma_fundamental_div_mod(b as int, g as int);
    let x = a / g;
    let y = b / g;
    assert(a == g * x);
    assert(b == g * y);
    lemma_gcd_scale(x, y, g);
    let h = gcd(x, y);
    assert(g == g * h);
    lemma_mul_equality_converse(g as int, h as int, 1);
}

/// A fraction already in lowest terms is its own reduced form.
pub proof fn lemma_reduce_wf(x: Num)
    requires
        x.wf(),
    ensures
        reduce(x.numer_spec(), x.denom_spec()) == (x.numer_spec(), x.denom_spec()),
        make(x.numer_spec(), x.denom_spec()) == Some(x),
{
    let n = x.num as int;
    let d = x.den as int;
    assert(gcd(abs(n), abs(d)) == 1);
    assert(abs(n) / 1 == abs(n));
    assert(abs(d) / 1 == abs(d));
}

/// Whatever `make` returns is well formed.
pub proof fn lemma_make_wf(n: int, d: int)
    ensures
        make(n, d) matches Some(x) ==> x.wf(),
        n >= 0 && d > 0 ==> (make(n, d) matches Some(x) ==> x.numer_spec() >= 0),
{
    if d != 0 {
        let g = gcd(abs(n), abs(d));
        lemma_gcd_divides(abs(n), abs(d));
        lemma_gcd_reduced(abs(n), abs(d));
        lemma_fundamental_div_mod(abs(d) as int, g as int);
        let b = abs(d) / g;
        assert(b > 0) by (nonlinear_arith)
            requires
                abs(d) == g * b,
                abs(d) > 0,
                g > 0,
        ;
        let (a, bb) = reduce(n, d);
        assert(abs(a) == abs(n) / g);
    }
}

/// Scaling numerator and denominator by the same positive factor does not
/// change the reduced form.
pub proof fn lemma_reduce_scale(n: int, d: int, k: int)
    requires
        d != 0,
        k > 0,
    ensures
        reduce(k * n, k * d) == reduce(n, d),
        make(k * n, k * d) == make(n, d),
{
    let an = abs(n);
    let ad = abs(d);
    assert(abs(k * n) == k * an && abs(k * d) == k * ad) by (nonlinear_arith)
        requires
            k > 0,
            an == abs(n),
            ad == abs(d),
    ;
    assert((k * n < 0) == (n < 0) && (k * d < 0) == (d < 0)) by (nonlinear_arith)
        requires
            k > 0,
    ;
    lemma_gcd_scale(an, ad, k as nat);
    let g = gcd(an, ad);
    lemma_gcd_divides(an, ad);
    assert(g > 0);
    lemma_div_denominator_cancel(an as int, g as int, k);
    lemma_div_denominator_cancel(ad as int, g as int, k);
    assert(k * d != 0) by (nonlinear_arith)
        requires
            k > 0,
            d != 0,
    ;
}

proof fn lemma_div_denominator_cancel(x: int, g: int, k: int)
    requires
        x >= 0,
        g > 0,
        k > 0,
    ensures
        (k * x) / (k * g) == x / g,
{
    lemma_fundamental_div_mod(x, g);
    let q = x / g;
    let r = x % g;
    lemma_mod_pos_bound(x, g);
    assert(k * x == q * (k * g) + k * r && 0 <= k * r < k * g) by (nonlinear_arith)
        requires
            x == g * q + r,
            0 <= r < g,
            k > 0,
    ;
    lemma_fundamental_div_mod_converse(k * x, k * g, q, k * r);
}

/// Euclid's algorithm on machine words.
fn gcd_exec(a: u128, b: u128) -> (r: u128)
    ensures
        r == gcd(a as nat, b as nat),
{
    let mut x = a;
    let mut y = b;
    while y != 0
        invariant
            gcd(x as nat, y as nat) == gcd(a as nat, b as nat),
        decreases y,
    {
        let t = x % y;
        x = y;
        y = t;
    }
    x
}

/// Exec form of `make`, for arguments whose magnitude leaves room in `i128`.
pub(crate) fn make_exec(n: i128, d: i128) -> (r: Option<Num>)
    requires
        n > i128::MIN,
        d > i128::MIN,
    ensures
        r == make(n as int, d as int),
{
    proof {
        lemma_make_wf(n as int, d as int);
    }
    if d == 0 {
        return None;
    }
    let an: u128 = if n < 0 { (-n) as u128 } else { n as u128 };
    let ad: u128 = if d < 0 { (-d) as u128 } else { d as u128 };
    let g = gcd_exec(an, ad);
    proof {
        lemma_gcd_divides(an as nat, ad as nat);
    }
    let a = an / g;
    let b = ad / g;
    if a <= 0x7fff_ffff_ffff_ffff && b <= 0x7fff_ffff_ffff_ffff {
        let ai = a as i64;
        let num = if (n < 0) != (d < 0) { -ai } else { ai };
        Some(Num { num, den: b as i64 })
    } else {
        None
    }
}

} // verus!

verus! {

/// Small integers are well-formed numbers.
pub proof fn lemma_int_wf(v: int)
    requires
        -LIMIT <= v <= LIMIT,
    ensures
        spec_int(v).wf(),
        spec_int(v).numer_spec() == v,
        spec_int(v).denom_spec() == 1,
        forall|w: int| #[trigger] spec_int(v).is_int_spec(w) == (v == w),
        spec_int(v).is_zero_spec() == (v == 0),
{
    lemma_gcd_one_right(abs(v));
}

/// A well-formed number that is the integer `v` is `spec_int(v)`.
pub proof fn lemma_is_int(x: Num, v: int)
    requires
        x.is_int_spec(v),
    ensures
        x == spec_int(v),
{
}

/// An integer in range is its own lowest-terms fraction.
pub proof fn lemma_make_int(n: int)
    requires
        -LIMIT <= n <= LIMIT,
    ensures
        make(n, 1) == Some(spec_int(n)),
{
    lemma_gcd_one_right(abs(n));
    assert(abs(1) == 1);
    assert(gcd(abs(n), abs(1)) == 1);
    assert(abs(n) / 1 == abs(n));
    assert(1nat / 1nat == 1);
    assert(reduce(n, 1) == (n, 1int));
}

/// Arithmetic and comparisons on integers are integer arithmetic and
/// comparisons; a result out of range has no number.
pub proof fn lemma_int_arith(a: int, b: int)
    requires
        -LIMIT <= a <= LIMIT,
        -LIMIT <= b <= LIMIT,
    ensures
        spec_add(spec_int(a), spec_int(b)) == make(a + b, 1),
        spec_sub(spec_int(a), spec_int(b)) == make(a - b, 1),
        spec_mul(spec_int(a), spec_int(b)) == make(a * b, 1),
        spec_div(spec_int(a), spec_int(b)) == make(a, b),
        spec_neg(spec_int(a)) == spec_int(-a),
        spec_lt(spec_int(a), spec_int(b)) == (a < b),
        spec_same(spec_int(a), spec_int(b)) == (a == b),
        -LIMIT <= a + b <= LIMIT ==> make(a + b, 1) == Some(spec_int(a + b)),
        -LIMIT <= a - b <= LIMIT ==> make(a - b, 1) == Some(spec_int(a - b)),
        -LIMIT <= a * b <= LIMIT ==> make(a * b, 1) == Some(spec_int(a * b)),
{
    let x = spec_int(a);
    let y = spec_int(b);
    assert(x.num == a && x.den == 1 && y.num == b && y.den == 1);
    assert(x.num * y.den + y.num * x.den == a + b);
    assert(x.num * y.den - y.num * x.den == a - b);
    assert(x.num * y.num == a * b);
    assert(x.den * y.den == 1);
    assert(x.num * y.den == a);
    assert(x.den * y.num == b);
    if -LIMIT <= a + b <= LIMIT {
        lemma_make_int(a + b);
    }
    if -LIMIT <= a - b <= LIMIT {
        lemma_make_int(a - b);
    }
    if -LIMIT <= a * b <= LIMIT {
        lemma_make_int(a * b);
    }
}

/// A fraction that `make` forms denotes `n / d`: its numerator times `d` is
/// `n` times its denominator.
pub proof fn lemma_make_value(n: int, d: int)
    ensures
        make(n, d) matches Some(r) ==> r.numer_spec() * d == n * r.denom_spec(),
{
    if d != 0 {
        let g = gcd(abs(n), abs(d));
        lemma_gcd_divides(abs(n), abs(d));
        lemma_fundamental_div_mod(abs(n) as int, g as int);
        lemma_fundamental_div_mod(abs(d) as int, g as int);
        let a = (abs(n) / g) as int;
        let b = (abs(d) / g) as int;
        assert(abs(n) == g * a);
        assert(abs(d) == g * b);
        assert(a * abs(d) == abs(n) * b) by (nonlinear_arith)
            requires
                abs(n) == g * a,
                abs(d) == g * b,
        ;
        if let Some(r) = make(n, d) {
            let (ra, rb) = reduce(n, d);
            assert(r.numer_spec() == ra && r.denom_spec() == rb);
            assert(rb == b);
            if n < 0 {
                assert(abs(n) == -n);
            } else {
                assert(abs(n) == n);
            }
            if d < 0 {
                assert(abs(d) == -d);
            } else {
                assert(abs(d) == d);
            }
            assert(ra * d == n * rb) by (nonlinear_arith)
                requires
                    a * abs(d) == abs(n) * b,
                    rb == b,
                    (n < 0) != (d < 0) ==> ra == -a,
                    (n < 0) == (d < 0) ==> ra == a,
                    n < 0 ==> abs(n) == -n,
                    n >= 0 ==> abs(n) == n,
                    d < 0 ==> abs(d) == -d,
                    d >= 0 ==> abs(d) == d,
            ;
        }
    }
}

/// The sum, difference, product and quotient of two numbers denote the
/// rational sum, difference, product and quotient, and negation negates.
pub proof fn lemma_arith_values(x: Num, y: Num)
    requires
        x.wf(),
        y.wf(),
    ensures
        spec_add(x, y) matches Some(r) ==> r.numer_spec() * (x.denom_spec() * y.denom_spec()) == (
        x.numer_spec() * y.denom_spec() + y.numer_spec() * x.denom_spec()) * r.denom_spec(),
        spec_sub(x, y) matches Some(r) ==> r.numer_spec() * (x.denom_spec() * y.denom_spec()) == (
        x.numer_spec() * y.denom_spec() - y.numer_spec() * x.denom_spec()) * r.denom_spec(),
        spec_mul(x, y) matches Some(r) ==> r.numer_spec() * (x.denom_spec() * y.denom_spec()) == (
        x.numer_spec() * y.numer_spec()) * r.denom_spec(),
        spec_div(x, y) matches Some(r) ==> r.numer_spec() * (x.denom_spec() * y.numer_spec()) == (
        x.numer_spec() * y.denom_spec()) * r.denom_spec(),
        y.numer_spec() == 0 ==> spec_div(x, y) is None,
        spec_neg(x).numer_spec() == -x.numer_spec(),
        spec_neg(x).denom_spec() == x.denom_spec(),
{
    lemma_make_value(x.num * y.den + y.num * x.den, x.den * y.den);
    lemma_make_value(x.num * y.den - y.num * x.den, x.den * y.den);
    lemma_make_value(x.num * y.num, x.den * y.den);
    lemma_make_value(x.num * y.den, x.den * y.num);
    if y.num == 0 {
        assert(x.den * y.num == 0);
    }
}

/// A number is the integer `v` when its numerator is `v` and its
/// denominator 1; it is zero when its numerator is zero.
pub proof fn lemma_int_parts(x: Num, v: int)
    ensures
        x.is_int_spec(v) == (x.numer_spec() == v && x.denom_spec() == 1),
        x.is_zero_spec() == (x.numer_spec() == 0),
{
}

/// The order and equality of numbers are those of the rationals: compare
/// cross products (denominators are positive).
pub proof fn lemma_order(x: Num, y: Num)
    requires
        x.wf(),
        y.wf(),
    ensures
        x.denom_spec() > 0,
        y.denom_spec() > 0,
        spec_lt(x, y) == (x.numer_spec() * y.denom_spec() < y.numer_spec() * x.denom_spec()),
        spec_same(x, y) == (x.numer_spec() * y.denom_spec() == y.numer_spec() * x.denom_spec()),
{
}

/// Negation keeps numbers well formed.
pub proof fn lemma_neg_wf(x: Num)
    requires
        x.wf(),
    ensures
        spec_neg(x).wf(),
        spec_neg(x).is_zero_spec() == x.is_zero_spec(),
{
    assert(abs(-x.num as int) == abs(x.num as int));
}

/// Results of arithmetic are well formed.
pub proof fn lemma_ops_wf(x: Num, y: Num)
    ensures
        spec_add(x, y) matches Some(r) ==> r.wf(),
        spec_sub(x, y) matches Some(r) ==> r.wf(),
        spec_mul(x, y) matches Some(r) ==> r.wf(),
        spec_div(x, y) matches Some(r) ==> r.wf(),
{
    lemma_make_wf(x.num * y.den + y.num * x.den, x.den * y.den);
    lemma_make_wf(x.num * y.den - y.num * x.den, x.den * y.den);
    lemma_make_wf(x.num * y.num, x.den * y.den);
    lemma_make_wf(x.num * y.den, x.den * y.num);
}

/// The arithmetic identities the optimizer relies on: adding or
/// subtracting zero and multiplying or dividing by one change nothing, and
/// doubling is adding a number to itself.
pub proof fn lemma_identities(x: Num)
    requires
        x.wf(),
    ensures
        spec_add(x, spec_int(0)) == Some(x),
        spec_add(spec_int(0), x) == Some(x),
        spec_sub(x, spec_int(0)) == Some(x),
        spec_mul(x, spec_int(1)) == Some(x),
        spec_mul(spec_int(1), x) == Some(x),
        spec_div(x, spec_int(1)) == Some(x),
        spec_mul(x, spec_int(2)) == spec_add(x, x),
{
    lemma_reduce_wf(x);
    let n = x.num as int;
    let d = x.den as int;
    assert(n * 1 + 0 * d == n && d * 1 == d);
    assert(0 * d + n * 1 == n && 1 * d == d);
    assert(n * 1 - 0 * d == n);
    assert(1 * n == n);
    assert(n * d + n * d == d * (n * 2)) by (nonlinear_arith);
    assert(d * d == d * (d * 1)) by (nonlinear_arith);
    lemma_reduce_scale(n * 2, d * 1, d);
}

} // verus!
