//! Exact rational numbers, viewed as reals.
use vstd::prelude::*;
use crate::integer::Integer;
use crate::natural::Natural;

verus! {

/// The real that the fraction `n / d` denotes.
pub open spec fn fraction(n: int, d: int) -> real {
    (n as real) / (d as real)
}

proof fn lemma_real_mul(a: int, b: int)
    ensures
        (a * b) as real == (a as real) * (b as real),
{
    assert((a * b) as real == (a as real) * (b as real)) by (nonlinear_arith);
}

proof fn lemma_fraction_one(a: int)
    ensures
        fraction(a, 1) == a as real,
{
    assert((a as real) / 1real == a as real) by (nonlinear_arith);
}

proof fn lemma_fraction_add(a: int, b: int, c: int, d: int)
    requires
        b > 0,
        d > 0,
    ensures
        fraction(a, b) + fraction(c, d) == fraction(a * d + c * b, b * d),
{
    let (ar, br, cr, dr) = (a as real, b as real, c as real, d as real);
    lemma_real_mul(a, d);
    lemma_real_mul(c, b);
    assert((a * d + c * b) as real == ar * dr + cr * br);
    lemma_real_mul(b, d);
    assert(ar / br + cr / dr == (ar * dr + cr * br) / (br * dr)) by (nonlinear_arith)
        requires
            br > 0real,
            dr > 0real,
    ;
}

proof fn lemma_fraction_mul(a: int, b: int, c: int, d: int)
    requires
        b > 0,
        d > 0,
    ensures
        fraction(a, b) * fraction(c, d) == fraction(a * c, b * d),
{
    let (ar, br, cr, dr) = (a as real, b as real, c as real, d as real);
    lemma_real_mul(a, c);
    lemma_real_mul(b, d);
    assert((ar / br) * (cr / dr) == (ar * cr) / (br * dr)) by (nonlinear_arith)
        requires
            br > 0real,
            dr > 0real,
    ;
}

proof fn lemma_fraction_neg(a: int, b: int)
    requires
        b > 0,
    ensures
        fraction(-a, b) == -fraction(a, b),
{
    assert((-a) as real == -(a as real));
    assert((-(a as real)) / (b as real) == -((a as real) / (b as real))) by (nonlinear_arith)
        requires
            (b as real) > 0real,
    ;
}

proof fn lemma_fraction_zero(a: int, b: int)
    requires
        b > 0,
    ensures
        fraction(a, b) == 0real <==> a == 0,
{
    assert((a as real) / (b as real) == 0real <==> (a as real) == 0real) by (nonlinear_arith)
        requires
            (b as real) > 0real,
    ;
}

proof fn lemma_fraction_div(a: int, b: int, c: int, d: int)
    requires
        b > 0,
        d > 0,
        c != 0,
    ensures
        c > 0 ==> fraction(a, b) / fraction(c, d) == fraction(a * d, b * c),
        c < 0 ==> fraction(a, b) / fraction(c, d) == fraction(-(a * d), b * (-c)),
{
    let (ar, br, cr, dr) = (a as real, b as real, c as real, d as real);
    lemma_real_mul(a, d);
    lemma_real_mul(b, c);
    lemma_real_mul(b, -c);
    assert((-(a * d)) as real == -(ar * dr));
    assert((-c) as real == -cr);
    assert((ar / br) / (cr / dr) == (ar * dr) / (br * cr)) by (nonlinear_arith)
        requires
            br > 0real,
            dr > 0real,
            cr != 0real,
    ;
    assert((ar * dr) / (br * cr) == (-(ar * dr)) / (br * (-cr))) by (nonlinear_arith)
        requires
            br > 0real,
            cr != 0real,
    ;
}

proof fn lemma_fraction_lt(a: int, b: int, c: int, d: int)
    requires
        b > 0,
        d > 0,
    ensures
        fraction(a, b) < fraction(c, d) <==> a * d < c * b,
{
    let (ar, br, cr, dr) = (a as real, b as real, c as real, d as real);
    lemma_real_mul(a, d);
    lemma_real_mul(c, b);
    assert(ar / br < cr / dr <==> ar * dr < cr * br) by (nonlinear_arith)
        requires
            br > 0real,
            dr > 0real,
    ;
}


/// `10` raised to the power `e`.
pub open spec fn ten_pow(e: nat) -> nat
    decreases e,
{
    if e == 0 {
        1
    } else {
        10 * ten_pow((e - 1) as nat)
    }
}

/// `2` raised to the power `e`.
pub open spec fn two_pow(e: nat) -> nat
    decreases e,
{
    if e == 0 {
        1
    } else {
        2 * two_pow((e - 1) as nat)
    }
}

/// The real `m * 2^e`.
pub open spec fn binary_value(m: int, e: int) -> real {
    if e >= 0 {
        (m * two_pow(e as nat)) as real
    } else {
        fraction(m, two_pow((-e) as nat) as int)
    }
}

/// `f` raised to the power `e`, as a natural number.
fn natural_power(f: u32, e: u32) -> (r: Natural)
    ensures
        r@ == pow_of(f as nat, e as nat),
{
    let mut acc = Natural::from_u64(1);
    let mut i: u32 = 0;
    while i < e
        invariant
            i <= e,
            acc@ == pow_of(f as nat, i as nat),
        decreases e - i,
    {
        let next = acc.mul_limb(f);
        proof {
            assert(pow_of(f as nat, (i + 1) as nat) == f * pow_of(f as nat, i as nat));
            assert(acc@ * f == f * acc@) by (nonlinear_arith);
        }
        acc = next;
        i = i + 1;
    }
    acc
}

/// `f` raised to the power `e`.
pub open spec fn pow_of(f: nat, e: nat) -> nat
    decreases e,
{
    if e == 0 {
        1
    } else {
        f * pow_of(f, (e - 1) as nat)
    }
}

proof fn lemma_pow_of_positive(f: nat, e: nat)
    requires
        f > 0,
    ensures
        pow_of(f, e) > 0,
    decreases e,
{
    if e > 0 {
        lemma_pow_of_positive(f, (e - 1) as nat);
        assert(f * pow_of(f, (e - 1) as nat) > 0) by (nonlinear_arith)
            requires
                f > 0,
                pow_of(f, (e - 1) as nat) > 0,
        ;
    }
}

proof fn lemma_pow_of_ten(e: nat)
    ensures
        pow_of(10, e) == ten_pow(e),
    decreases e,
{
    if e > 0 {
        lemma_pow_of_ten((e - 1) as nat);
    }
}

proof fn lemma_pow_of_two(e: nat)
    ensures
        pow_of(2, e) == two_pow(e),
    decreases e,
{
    if e > 0 {
        lemma_pow_of_two((e - 1) as nat);
    }
}

/// `x` rounded to `p` decimal places, halves away from zero.
pub open spec fn rounded(x: real, p: nat) -> real {
    let t = ten_pow(p) as real;
    let q = (crate::math::abs(x) * t + 1real / 2real).floor();
    if x < 0real {
        -(q as real) / t
    } else {
        (q as real) / t
    }
}

proof fn lemma_floor_of(y: real, q: int)
    requires
        q as real <= y < q as real + 1real,
    ensures
        y.floor() == q,
{
}

/// The rounding of `a / d` by way of the quotient of `2 a t + d` by `2 d`.
proof fn lemma_round_quotient(a: int, d: int, t: int, q: int, r: int)
    requires
        a >= 0,
        d > 0,
        t > 0,
        q * (2 * d) + r == 2 * a * t + d,
        0 <= r < 2 * d,
    ensures
        (fraction(a, d) * (t as real) + 1real / 2real).floor() == q,
{
    let (ar, dr, tr, qr, rr) = (a as real, d as real, t as real, q as real, r as real);
    lemma_real_mul(q, 2 * d);
    lemma_real_mul(2 * a, t);
    lemma_real_mul(2, a);
    lemma_real_mul(2, d);
    assert(qr * (2real * dr) + rr == 2real * ar * tr + dr);
    let y = (ar / dr) * tr + 1real / 2real;
    assert(y == qr + rr / (2real * dr)) by (nonlinear_arith)
        requires
            dr > 0real,
            qr * (2real * dr) + rr == 2real * ar * tr + dr,
            y == (ar / dr) * tr + 1real / 2real,
    ;
    assert(0real <= rr / (2real * dr) < 1real) by (nonlinear_arith)
        requires
            dr > 0real,
            0real <= rr,
            rr < 2real * dr,
    ;
    lemma_floor_of(y, q);
}

proof fn lemma_fraction_cancel(x: int, y: int, g: int)
    requires
        y > 0,
        g > 0,
    ensures
        fraction(x * g, y * g) == fraction(x, y),
{
    lemma_real_mul(x, g);
    lemma_real_mul(y, g);
    let (xr, yr, gr) = (x as real, y as real, g as real);
    assert((xr * gr) / (yr * gr) == xr / yr) by (nonlinear_arith)
        requires
            yr > 0real,
            gr > 0real,
    ;
}

/// The last remainder other than zero in Euclid's algorithm on `a` and `b`, the
/// candidate by which a fraction is divided through.
fn euclid(a: &Natural, b: &Natural) -> (r: Natural)
    ensures
        a@ > 0 || b@ > 0 ==> r@ > 0,
{
    let mut x = a.clone();
    let mut y = b.clone();
    while !y.is_zero()
        invariant
            a@ > 0 || b@ > 0 ==> x@ > 0 || y@ > 0,
        decreases y@,
    {
        let (_, r) = x.div_rem(&y);
        x = y;
        y = r;
    }
    x
}

/// The fraction `num / den`, divided through by Euclid's candidate where it
/// divides both terms exactly (which keeps the terms small).
fn reduced(num: Integer, den: Natural) -> (r: Scalar)
    requires
        den@ > 0,
    ensures
        r@ == fraction(num@, den@ as int),
{
    let a = num.magnitude();
    let g = euclid(&a, &den);
    let (qa, ra) = a.div_rem(&g);
    let (qd, rd) = den.div_rem(&g);
    if ra.is_zero() && rd.is_zero() {
        let negative = num.is_negative();
        let n = Integer::from_parts(negative, qa);
        proof {
            let gi = g@ as int;
            assert(qd@ > 0) by (nonlinear_arith)
                requires
                    qd@ * g@ == den@,
                    den@ > 0,
                    g@ > 0,
            ;
            lemma_fraction_cancel(n@, qd@ as int, gi);
            if negative {
                assert(n@ * gi == -(qa@ * gi)) by (nonlinear_arith)
                    requires
                        n@ == -(qa@ as int),
                ;
            }
        }
        Scalar { num: n, den: qd }
    } else {
        Scalar { num, den }
    }
}

/// The value of the lowest `i` decimal digits of `s`, least significant first.
pub open spec fn decimal_value(s: Seq<u8>, i: nat) -> nat
    decreases i,
{
    if i == 0 {
        0
    } else {
        decimal_value(s, (i - 1) as nat) + s[i - 1] as nat * ten_pow((i - 1) as nat)
    }
}

proof fn lemma_decimal_push(s: Seq<u8>, d: u8, i: nat)
    requires
        i <= s.len(),
    ensures
        decimal_value(s.push(d), i) == decimal_value(s, i),
    decreases i,
{
    if i > 0 {
        lemma_decimal_push(s, d, (i - 1) as nat);
    }
}

/// The decimal digits of `n`, least significant first; none for zero.
fn decimal_digits(n: &Natural) -> (r: Vec<u8>)
    ensures
        forall|i: int| 0 <= i < r@.len() ==> #[trigger] r@[i] < 10,
        decimal_value(r@, r@.len()) == n@,
{
    let ten = Natural::from_u64(10);
    let mut cur = n.clone();
    let mut digits: Vec<u8> = Vec::new();
    assert(decimal_value(digits@, 0) == 0);
    assert(ten_pow(0) == 1);
    assert(1 * cur@ == n@);
    while !cur.is_zero()
        invariant
            ten@ == 10,
            forall|i: int| 0 <= i < digits@.len() ==> #[trigger] digits@[i] < 10,
            decimal_value(digits@, digits@.len()) + ten_pow(digits@.len()) * cur@ == n@,
        decreases cur@,
    {
        let (q, r) = cur.div_rem(&ten);
        let mut d: u8 = 0;
        while d < 9 && Natural::from_u64(d as u64).lt(&r)
            invariant
                d <= 9,
                r@ < 10,
                r@ >= d,
            decreases 9 - d,
        {
            d = d + 1;
        }
        assert(r@ == d);
        let ghost before = digits@;
        let ghost k = before.len();
        digits.push(d);
        proof {
            lemma_decimal_push(before, d, k);
            let tp = ten_pow(k);
            assert(ten_pow(k + 1) == 10 * tp);
            assert(tp * (q@ * 10 + d) == d * tp + (10 * tp) * q@) by (nonlinear_arith);
            assert(q@ < cur@) by (nonlinear_arith)
                requires
                    q@ * 10 + r@ == cur@,
                    cur@ > 0,
            ;
        }
        cur = q;
    }
    proof {
        assert(ten_pow(digits@.len()) * 0 == 0);
    }
    digits
}

/// An exact rational number: a signed numerator over a positive denominator.
#[derive(Debug)]
pub struct Scalar {
    num: Integer,
    den: Natural,
}

impl View for Scalar {
    type V = real;

    closed spec fn view(&self) -> real {
        fraction(self.num@, self.den@ as int)
    }
}

impl Clone for Scalar {
    fn clone(&self) -> (r: Self)
        ensures
            r@ == self@,
    {
        proof {
            use_type_invariant(self);
        }
        Scalar { num: self.num.clone(), den: self.den.clone() }
    }
}

impl Scalar {
    #[verifier::type_invariant]
    spec fn positive_denominator(&self) -> bool {
        self.den@ > 0
    }

    /// The integer `v`.
    pub fn from_int(v: i64) -> (r: Scalar)
        ensures
            r@ == v as real,
    {
        proof {
            lemma_fraction_one(v as int);
        }
        Scalar { num: Integer::from_i64(v), den: Natural::from_u64(1) }
    }

    /// Zero.
    pub fn zero() -> (r: Scalar)
        ensures
            r@ == 0real,
    {
        Scalar::from_int(0)
    }

    /// One.
    pub fn one() -> (r: Scalar)
        ensures
            r@ == 1real,
    {
        Scalar::from_int(1)
    }

    /// The fraction `num / den`.
    pub fn from_ratio(num: i64, den: u64) -> (r: Scalar)
        requires
            den > 0,
        ensures
            r@ == fraction(num as int, den as int),
    {
        Scalar { num: Integer::from_i64(num), den: Natural::from_u64(den) }
    }

    /// The decimal `mantissa / 10^scale`.
    pub fn from_decimal(mantissa: i64, scale: u32) -> (r: Scalar)
        ensures
            r@ == fraction(mantissa as int, ten_pow(scale as nat) as int),
    {
        let den = natural_power(10, scale);
        proof {
            lemma_pow_of_positive(10, scale as nat);
            lemma_pow_of_ten(scale as nat);
        }
        Scalar { num: Integer::from_i64(mantissa), den }
    }

    /// The binary number `mantissa * 2^exponent`, such as a floating-point value
    /// decomposes into.
    pub fn from_binary(mantissa: i64, exponent: i32) -> (r: Scalar)
        ensures
            r@ == binary_value(mantissa as int, exponent as int),
    {
        if exponent >= 0 {
            let p = natural_power(2, exponent as u32);
            let num = Integer::from_i64(mantissa).mul_natural(&p);
            proof {
                lemma_pow_of_two(exponent as nat);
                lemma_fraction_one(num@);
            }
            Scalar { num, den: Natural::from_u64(1) }
        } else {
            let e = (0i64 - exponent as i64) as u32;
            let den = natural_power(2, e);
            proof {
                lemma_pow_of_positive(2, e as nat);
                lemma_pow_of_two(e as nat);
            }
            reduced(Integer::from_i64(mantissa), den)
        }
    }
    /// The sign and the digits-to-be of the scalar rounded to `precision` decimal
    /// places: it equals `±q / 10^precision`.
    fn rounded_parts(&self, precision: u32) -> (r: (bool, Natural))
        ensures
            rounded(self@, precision as nat) == fraction(
                if r.0 {
                    -(r.1@ as int)
                } else {
                    r.1@ as int
                },
                ten_pow(precision as nat) as int,
            ),
            ten_pow(precision as nat) > 0,
    {
        proof {
            use_type_invariant(self);
        }
        let t = natural_power(10, precision);
        let a = self.num.magnitude();
        let two_d = self.den.mul_limb(2);
        let numer = a.mul(&t).mul_limb(2).add(&self.den);
        proof {
            lemma_pow_of_positive(10, precision as nat);
            lemma_pow_of_ten(precision as nat);
        }
        let (q, rem) = numer.div_rem(&two_d);
        let negative = self.num.is_negative();
        proof {
            let ai = a@ as int;
            let di = self.den@ as int;
            let ti = t@ as int;
            assert(a@ * t@ * 2 + di == 2 * ai * ti + di) by (nonlinear_arith)
                requires
                    ai == a@ as int,
                    ti == t@ as int,
            ;
            lemma_round_quotient(ai, di, ti, q@ as int, rem@ as int);
            lemma_fraction_lt(self.num@, di, 0, 1);
            lemma_fraction_one(0);
            assert(fraction(ai, di) == crate::math::abs(self@)) by {
                lemma_fraction_neg(self.num@, di);
                if self.num@ < 0 {
                    assert(ai == -self.num@);
                } else {
                    assert(ai == self.num@);
                }
            }
            if negative {
                lemma_fraction_neg(q@ as int, ti);
            }
        }
        (negative, q)
    }

    /// The scalar rounded to `precision` decimal places, halves away from zero.
    pub fn round(&self, precision: u32) -> (r: Scalar)
        ensures
            r@ == rounded(self@, precision as nat),
    {
        let (negative, q) = self.rounded_parts(precision);
        let t = natural_power(10, precision);
        proof {
            lemma_pow_of_ten(precision as nat);
        }
        reduced(Integer::from_parts(negative, q), t)
    }

    /// The scalar rounded to `precision` decimal places, as a sign and the
    /// decimal digits, least significant first, of `|rounded| * 10^precision`.
    pub fn decimal_parts(&self, precision: u32) -> (r: (bool, Vec<u8>))
        ensures
            forall|i: int| 0 <= i < r.1@.len() ==> #[trigger] r.1@[i] < 10,
            rounded(self@, precision as nat) == fraction(
                if r.0 {
                    -(decimal_value(r.1@, r.1@.len()) as int)
                } else {
                    decimal_value(r.1@, r.1@.len()) as int
                },
                ten_pow(precision as nat) as int,
            ),
    {
        let (negative, q) = self.rounded_parts(precision);
        (negative, decimal_digits(&q))
    }

    /// The sum of two scalars.
    pub fn add(&self, other: &Scalar) -> (r: Scalar)
        ensures
            r@ == self@ + other@,
    {
        proof {
            use_type_invariant(self);
            use_type_invariant(other);
        }
        let num = self.num.mul_natural(&other.den).add(&other.num.mul_natural(&self.den));
        let den = self.den.mul(&other.den);
        proof {
            lemma_fraction_add(self.num@, self.den@ as int, other.num@, other.den@ as int);
            assert(self.den@ * other.den@ > 0) by (nonlinear_arith)
                requires
                    self.den@ > 0,
                    other.den@ > 0,
            ;
        }
        reduced(num, den)
    }

    /// The scalar with its sign turned.
    pub fn neg(&self) -> (r: Scalar)
        ensures
            r@ == -self@,
    {
        proof {
            use_type_invariant(self);
            lemma_fraction_neg(self.num@, self.den@ as int);
        }
        Scalar { num: self.num.neg(), den: self.den.clone() }
    }

    /// The difference of two scalars.
    pub fn sub(&self, other: &Scalar) -> (r: Scalar)
        ensures
            r@ == self@ - other@,
    {
        self.add(&other.neg())
    }

    /// The product of two scalars.
    pub fn mul(&self, other: &Scalar) -> (r: Scalar)
        ensures
            r@ == self@ * other@,
    {
        proof {
            use_type_invariant(self);
            use_type_invariant(other);
        }
        let num = self.num.mul(&other.num);
        let den = self.den.mul(&other.den);
        proof {
            lemma_fraction_mul(self.num@, self.den@ as int, other.num@, other.den@ as int);
            assert(self.den@ * other.den@ > 0) by (nonlinear_arith)
                requires
                    self.den@ > 0,
                    other.den@ > 0,
            ;
        }
        reduced(num, den)
    }

    /// The quotient of two scalars.
    pub fn div(&self, other: &Scalar) -> (r: Scalar)
        requires
            other@ != 0real,
        ensures
            r@ == self@ / other@,
    {
        proof {
            use_type_invariant(self);
            use_type_invariant(other);
            lemma_fraction_zero(other.num@, other.den@ as int);
        }
        let num = self.num.mul_natural(&other.den);
        let m = other.num.magnitude();
        let den = self.den.mul(&m);
        proof {
            lemma_fraction_div(self.num@, self.den@ as int, other.num@, other.den@ as int);
            assert(self.den@ * m@ > 0) by (nonlinear_arith)
                requires
                    self.den@ > 0,
                    m@ > 0,
            ;
        }
        if other.num.is_negative() {
            reduced(num.neg(), den)
        } else {
            reduced(num, den)
        }
    }

    /// Whether the scalar is exactly zero.
    pub fn is_exactly_zero(&self) -> (r: bool)
        ensures
            r == (self@ == 0real),
    {
        proof {
            use_type_invariant(self);
            lemma_fraction_zero(self.num@, self.den@ as int);
        }
        self.num.is_zero()
    }

    /// Whether `self` is below `other`.
    pub fn lt(&self, other: &Scalar) -> (r: bool)
        ensures
            r == (self@ < other@),
    {
        proof {
            use_type_invariant(self);
            use_type_invariant(other);
            lemma_fraction_lt(self.num@, self.den@ as int, other.num@, other.den@ as int);
        }
        self.num.mul_natural(&other.den).lt(&other.num.mul_natural(&self.den))
    }

    /// The absolute value.
    pub fn abs(&self) -> (r: Scalar)
        ensures
            r@ == if self@ < 0real {
                -self@
            } else {
                self@
            },
    {
        let z = Scalar::zero();
        if self.lt(&z) {
            self.neg()
        } else {
            self.clone()
        }
    }
}

impl PartialEq for Scalar {
    fn eq(&self, other: &Scalar) -> (r: bool)
        ensures
            r == (self@ == other@),
    {
        self.sub(other).is_exactly_zero()
    }
}

impl vstd::std_specs::cmp::PartialEqSpecImpl for Scalar {
    open spec fn obeys_eq_spec() -> bool {
        true
    }

    open spec fn eq_spec(&self, other: &Scalar) -> bool {
        self@ == other@
    }
}

} // verus!
