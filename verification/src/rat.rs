//! Exact rational numbers with `i64` components.
//!
//! A `Rat` stands for the value `num / den` with `den > 0`.  The
//! specification-level model of a rational is a pair of unbounded integers;
//! two pairs stand for the same value when they cross-multiply equally
//! (`q_eq`).  The executable operations compute the textbook numerator and
//! denominator exactly in `i128` and fail (return `None`) exactly when the
//! result does not fit the `i64` components; `reduced` returns exactly the
//! pair in lowest terms (`q_norm`), the same value with the components
//! divided by their greatest common divisor.

use vstd::arithmetic::div_mod::lemma_fundamental_div_mod;
use vstd::prelude::*;

verus! {

/// A rational number `num / den`.  Every function of the library requires
/// and preserves `den > 0` (`wf`).
#[derive(Clone, Copy, Debug, PartialEq, Eq, Structural)]
pub struct Rat {
    pub num: i64,
    pub den: i64,
}

impl View for Rat {
    type V = (int, int);

    open spec fn view(&self) -> (int, int) {
        (self.num as int, self.den as int)
    }
}

impl Rat {
    /// The representation invariant: the denominator is positive.
    pub open spec fn wf(self) -> bool {
        self.den > 0
    }

    /// Builds `num / den`; rejects a denominator that is not positive.
    pub fn new(num: i64, den: i64) -> (r: Option<Rat>)
        ensures
            (r is Some) <==> den > 0,
            r matches Some(v) ==> v@ == (num as int, den as int) && v.wf(),
    {
        if den > 0 {
            Some(Rat { num, den })
        } else {
            None
        }
    }

    /// The rational with value `n`.
    pub fn from_int(n: i64) -> (r: Rat)
        ensures
            r@ == (n as int, 1int),
            r.wf(),
    {
        Rat { num: n, den: 1 }
    }

    /// Exact sum; `None` exactly when the textbook numerator or denominator
    /// leaves the `i64` range.
    pub fn checked_add(self, other: Rat) -> (r: Option<Rat>)
        requires
            self.wf(),
            other.wf(),
        ensures
            (r is Some) <==> q_in_range(q_add(self@, other@)),
            r matches Some(v) ==> v@ == q_add(self@, other@) && v.wf(),
    {
        proof {
            lemma_i64_prod_bound(self.num as int, other.den as int);
            lemma_i64_prod_bound(other.num as int, self.den as int);
            lemma_i64_prod_bound(self.den as int, other.den as int);
            lemma_pos_mul(self.den as int, other.den as int);
        }
        let n: i128 = (self.num as i128) * (other.den as i128) + (other.num as i128) * (self.den
            as i128);
        let d: i128 = (self.den as i128) * (other.den as i128);
        if n >= i64::MIN as i128 && n <= i64::MAX as i128 && d <= i64::MAX as i128 {
            Some(Rat { num: n as i64, den: d as i64 })
        } else {
            None
        }
    }

    /// Exact difference; `None` exactly when the result leaves the `i64` range.
    pub fn checked_sub(self, other: Rat) -> (r: Option<Rat>)
        requires
            self.wf(),
            other.wf(),
        ensures
            (r is Some) <==> q_in_range(q_sub(self@, other@)),
            r matches Some(v) ==> v@ == q_sub(self@, other@) && v.wf(),
    {
        proof {
            lemma_i64_prod_bound(self.num as int, other.den as int);
            lemma_i64_prod_bound(other.num as int, self.den as int);
            lemma_i64_prod_bound(self.den as int, other.den as int);
            lemma_pos_mul(self.den as int, other.den as int);
        }
        let n: i128 = (self.num as i128) * (other.den as i128) - (other.num as i128) * (self.den
            as i128);
        let d: i128 = (self.den as i128) * (other.den as i128);
        if n >= i64::MIN as i128 && n <= i64::MAX as i128 && d <= i64::MAX as i128 {
            Some(Rat { num: n as i64, den: d as i64 })
        } else {
            None
        }
    }

    /// Exact product; `None` exactly when the result leaves the `i64` range.
    pub fn checked_mul(self, other: Rat) -> (r: Option<Rat>)
        requires
            self.wf(),
            other.wf(),
        ensures
            (r is Some) <==> q_in_range(q_mul(self@, other@)),
            r matches Some(v) ==> v@ == q_mul(self@, other@) && v.wf(),
    {
        proof {
            lemma_i64_prod_bound_gen(self.num as int, other.num as int);
            lemma_i64_prod_bound(self.den as int, other.den as int);
            lemma_pos_mul(self.den as int, other.den as int);
        }
        let n: i128 = (self.num as i128) * (other.num as i128);
        let d: i128 = (self.den as i128) * (other.den as i128);
        if n >= i64::MIN as i128 && n <= i64::MAX as i128 && d <= i64::MAX as i128 {
            Some(Rat { num: n as i64, den: d as i64 })
        } else {
            None
        }
    }

    /// Exact quotient; the divisor must not be zero (`None` then), and
    /// otherwise `None` exactly when the result leaves the `i64` range.
    pub fn checked_div(self, other: Rat) -> (r: Option<Rat>)
        requires
            self.wf(),
            other.wf(),
        ensures
            other.num == 0 ==> r is None,
            other.num != 0 ==> ((r is Some) <==> q_in_range(q_div(self@, other@))),
            r matches Some(v) ==> v@ == q_div(self@, other@) && v.wf(),
    {
        if other.num == 0 {
            return None;
        }
        proof {
            lemma_i64_prod_bound_gen(self.num as int, other.den as int);
            lemma_i64_prod_bound_gen(self.den as int, other.num as int);
            lemma_pos_mul(
                self.den as int,
                if other.num > 0 {
                    other.num as int
                } else {
                    -(other.num as int)
                },
            );
        }
        let n0: i128 = (self.num as i128) * (other.den as i128);
        let d0: i128 = (self.den as i128) * (other.num as i128);
        let n: i128 = if other.num < 0 {
            -n0
        } else {
            n0
        };
        let d: i128 = if other.num < 0 {
            -d0
        } else {
            d0
        };
        proof {
            assert(-((self.den as int) * (other.num as int)) == (self.den as int) * (-(other.num
                as int))) by (nonlinear_arith);
        }
        if n >= i64::MIN as i128 && n <= i64::MAX as i128 && d <= i64::MAX as i128 {
            Some(Rat { num: n as i64, den: d as i64 })
        } else {
            None
        }
    }

    /// Divides numerator and denominator by their greatest common divisor.
    /// The result is exactly the pair in lowest terms, `q_norm`, so the
    /// value is unchanged and the components are as small as they can be.
    pub fn reduced(self) -> (r: Rat)
        requires
            self.wf(),
        ensures
            r.wf(),
            q_eq(r@, self@),
            r@ == q_norm(self@),
    {
        let neg: bool = self.num < 0;
        let na: u128 = if neg {
            (-(self.num as i128)) as u128
        } else {
            self.num as u128
        };
        let db: u128 = self.den as u128;
        let g: u128 = gcd_u128(na, db);
        proof {
            lemma_gcd_pos(na as nat, db as nat);
            lemma_gcd_divides(na as nat, db as nat);
        }
        let nq: u128 = na / g;
        let dq: u128 = db / g;
        proof {
            lemma_exact_div(na as nat, g as nat);
            lemma_exact_div(db as nat, g as nat);
            assert(nq * g == na && dq * g == db);
            lemma_div_shrinks(nq as nat, g as nat);
            lemma_div_shrinks(dq as nat, g as nat);
            assert(dq >= 1) by (nonlinear_arith)
                requires
                    dq * g == db,
                    db > 0,
            ;
            if neg {
                assert((-(nq as int)) * (self.den as int) == (self.num as int) * (dq as int))
                    by (nonlinear_arith)
                    requires
                        nq * g == na,
                        dq * g == db,
                        db == self.den as int,
                        na == -(self.num as int),
                ;
            } else {
                assert((nq as int) * (self.den as int) == (self.num as int) * (dq as int))
                    by (nonlinear_arith)
                    requires
                        nq * g == na,
                        dq * g == db,
                        db == self.den as int,
                        na == self.num as int,
                ;
            }
        }
        let num: i64 = if neg {
            (-(nq as i128)) as i64
        } else {
            nq as i64
        };
        proof {
            assert(g as int == q_gcd(self@));
            assert(nq as int == (na as int) / (g as int));
            assert(dq as int == (db as int) / (g as int));
            assert((num as int, dq as int) == q_norm(self@));
        }
        Rat { num, den: dq as i64 }
    }
}

/// The absolute value of an integer.
pub open spec fn int_abs(x: int) -> int {
    if x >= 0 {
        x
    } else {
        -x
    }
}

/// The greatest common divisor of a pair's components.
pub open spec fn q_gcd(a: (int, int)) -> int {
    gcd_nat(int_abs(a.0) as nat, a.1 as nat) as int
}

/// The pair in lowest terms: both components divided by their greatest
/// common divisor (meant for pairs with a positive denominator).
pub open spec fn q_norm(a: (int, int)) -> (int, int) {
    if a.0 >= 0 {
        (a.0 / q_gcd(a), a.1 / q_gcd(a))
    } else {
        (-((-a.0) / q_gcd(a)), a.1 / q_gcd(a))
    }
}

/// Pairs `(numerator, denominator)` of unbounded integers model rational
/// values in specifications.  `q_wf` says the denominator is positive.
pub open spec fn q_wf(a: (int, int)) -> bool {
    a.1 > 0
}

/// The textbook sum `a.0/a.1 + b.0/b.1` over a common denominator.
pub open spec fn q_add(a: (int, int), b: (int, int)) -> (int, int) {
    (a.0 * b.1 + b.0 * a.1, a.1 * b.1)
}

/// The textbook difference over a common denominator.
pub open spec fn q_sub(a: (int, int), b: (int, int)) -> (int, int) {
    (a.0 * b.1 - b.0 * a.1, a.1 * b.1)
}

/// The textbook product.
pub open spec fn q_mul(a: (int, int), b: (int, int)) -> (int, int) {
    (a.0 * b.0, a.1 * b.1)
}

/// The textbook quotient, with the sign moved into the numerator so the
/// denominator stays positive; a zero divisor falls back to zero (the
/// executable evaluator rejects that case before it arises).
pub open spec fn q_div(a: (int, int), b: (int, int)) -> (int, int) {
    if b.0 > 0 {
        (a.0 * b.1, a.1 * b.0)
    } else if b.0 < 0 {
        (-(a.0 * b.1), a.1 * (-b.0))
    } else {
        (0int, 1int)
    }
}

/// The rational with integer value `n`.
pub open spec fn q_int(n: int) -> (int, int) {
    (n, 1int)
}

/// Two pairs stand for the same rational value: they cross-multiply equally.
pub open spec fn q_eq(a: (int, int), b: (int, int)) -> bool {
    a.0 * b.1 == b.0 * a.1
}

/// `a` is a strictly smaller value than `b` (for positive denominators).
pub open spec fn q_lt(a: (int, int), b: (int, int)) -> bool {
    a.0 * b.1 < b.0 * a.1
}

/// Both components of the pair fit the `i64` fields of a `Rat`.
pub open spec fn q_in_range(a: (int, int)) -> bool {
    i64::MIN <= a.0 <= i64::MAX && 0 < a.1 <= i64::MAX
}

/// The product of two `i64`-range factors, the second positive, stays well
/// inside the `i128` range.
proof fn lemma_i64_prod_bound(x: int, y: int) by (nonlinear_arith)
    requires
        -0x8000_0000_0000_0000 <= x <= 0x7fff_ffff_ffff_ffff,
        0 < y <= 0x7fff_ffff_ffff_ffff,
    ensures
        -0x4000_0000_0000_0000_0000_0000_0000_0000 < x * y
            < 0x4000_0000_0000_0000_0000_0000_0000_0000,
{
}

/// The product of two `i64`-range factors of any sign stays inside the
/// `i128` range.
pub proof fn lemma_i64_prod_bound_gen(x: int, y: int) by (nonlinear_arith)
    requires
        -0x8000_0000_0000_0000 <= x <= 0x7fff_ffff_ffff_ffff,
        -0x8000_0000_0000_0000 <= y <= 0x7fff_ffff_ffff_ffff,
    ensures
        -0x4000_0000_0000_0000_0000_0000_0000_0000 <= x * y
            <= 0x4000_0000_0000_0000_0000_0000_0000_0000,
{
}

/// Scaling an `i64`-range positive denominator by a cell count stays
/// positive and inside the `i128` range.
pub proof fn lemma_i128_den_scale(d: int, n: int) by (nonlinear_arith)
    requires
        0 < d <= 0x7fff_ffff_ffff_ffff,
        1 <= n <= 0xffff_ffff_ffff_ffff,
    ensures
        0 < d * n < 0x8000_0000_0000_0000_0000_0000_0000_0000,
{
}

/// Multiplication distributes over addition and subtraction.
proof fn lemma_distrib(x: int, y: int, z: int) by (nonlinear_arith)
    ensures
        (x + y) * z == x * z + y * z,
        (x - y) * z == x * z - y * z,
{
}

/// A product of four factors, regrouped both ways.
proof fn lemma_mul_shuffle(a: int, b: int, c: int, d: int) by (nonlinear_arith)
    ensures
        (a * b) * (c * d) == (a * c) * (b * d),
        (a * b) * (c * d) == (a * d) * (b * c),
{
}

/// Multiplication commutes.
proof fn lemma_mul_comm(a: int, b: int) by (nonlinear_arith)
    ensures
        a * b == b * a,
{
}

/// `d` divides `a`: some multiple of `d` is `a`.
pub open spec fn divides(d: nat, a: nat) -> bool {
    exists|k: nat| a == #[trigger] (k * d)
}

/// The greatest common divisor, by Euclid's recursion.
pub open spec fn gcd_nat(a: nat, b: nat) -> nat
    decreases b,
{
    if b == 0 {
        a
    } else {
        gcd_nat(b, a % b)
    }
}

/// The greatest common divisor divides both of its arguments.
proof fn lemma_gcd_divides(a: nat, b: nat)
    ensures
        divides(gcd_nat(a, b), a),
        divides(gcd_nat(a, b), b),
    decreases b,
{
    if b == 0 {
        assert(a == 1nat * gcd_nat(a, b));
        assert(b == 0nat * gcd_nat(a, b));
    } else {
        lemma_gcd_divides(b, a % b);
        let g = gcd_nat(b, a % b);
        let k1 = choose|k: nat| b == #[trigger] (k * g);
        let k2 = choose|k: nat| a % b == #[trigger] (k * g);
        lemma_fundamental_div_mod(a as int, b as int);
        let q = a as int / b as int;
        assert(a == b * q + a % b);
        vstd::arithmetic::div_mod::lemma_div_pos_is_pos(a as int, b as int);
        assert(q * k1 >= 0) by (nonlinear_arith)
            requires
                q >= 0,
                k1 >= 0,
        ;
        assert(a == (q * k1 + k2) * g) by (nonlinear_arith)
            requires
                a == b * q + a % b,
                b == k1 * g,
                a % b == k2 * g,
        ;
        let kk: nat = (q * k1 + k2) as nat;
        assert(kk * g == (q * k1 + k2) * g) by (nonlinear_arith)
            requires
                kk == q * k1 + k2,
        ;
        assert(a == kk * g);
    }
}

/// The greatest common divisor of a pair that is not two zeros is positive.
proof fn lemma_gcd_pos(a: nat, b: nat)
    requires
        a > 0 || b > 0,
    ensures
        gcd_nat(a, b) >= 1,
    decreases b,
{
    if b != 0 {
        lemma_gcd_pos(b, a % b);
    }
}

/// Division by an exact divisor multiplies back to the dividend.
proof fn lemma_exact_div(a: nat, g: nat)
    requires
        g >= 1,
        divides(g, a),
    ensures
        (a as int / g as int) * g == a,
{
    let k = choose|k: nat| a == #[trigger] (k * g);
    assert(a as int / g as int == k) by {
        vstd::arithmetic::div_mod::lemma_div_by_multiple(k as int, g as int);
    }
}

/// A quotient by a positive divisor is no larger than the dividend.
proof fn lemma_div_shrinks(q: nat, g: nat) by (nonlinear_arith)
    requires
        g >= 1,
    ensures
        q <= q * g,
{
}

/// Euclid's algorithm, matching the specification `gcd_nat`.
fn gcd_u128(a: u128, b: u128) -> (g: u128)
    ensures
        g as nat == gcd_nat(a as nat, b as nat),
{
    let mut x: u128 = a;
    let mut y: u128 = b;
    while y != 0
        invariant
            gcd_nat(x as nat, y as nat) == gcd_nat(a as nat, b as nat),
        decreases y,
    {
        let r: u128 = x % y;
        x = y;
        y = r;
    }
    x
}

/// Value equality is reflexive.
pub proof fn lemma_q_eq_refl(a: (int, int))
    ensures
        q_eq(a, a),
{
}

/// Value equality is symmetric.
pub proof fn lemma_q_eq_sym(a: (int, int), b: (int, int))
    requires
        q_eq(a, b),
    ensures
        q_eq(b, a),
{
}

/// Value equality is transitive when the middle denominator is not zero.
pub proof fn lemma_q_eq_trans(a: (int, int), b: (int, int), c: (int, int))
    requires
        q_eq(a, b),
        q_eq(b, c),
        b.1 != 0,
    ensures
        q_eq(a, c),
{
    lemma_cross_trans(a.0, a.1, b.0, b.1, c.0, c.1);
}

proof fn lemma_cross_trans(a0: int, a1: int, b0: int, b1: int, c0: int, c1: int) by (nonlinear_arith)
    requires
        a0 * b1 == b0 * a1,
        b0 * c1 == c0 * b1,
        b1 != 0,
    ensures
        a0 * c1 == c0 * a1,
{
}

/// Sums of equal values are equal values.
pub proof fn lemma_q_add_cong(a: (int, int), a2: (int, int), b: (int, int), b2: (int, int))
    requires
        q_eq(a, a2),
        q_eq(b, b2),
    ensures
        q_eq(q_add(a, b), q_add(a2, b2)),
{
    lemma_cross_add(a.0, a.1, a2.0, a2.1, b.0, b.1, b2.0, b2.1);
}

proof fn lemma_cross_add(
    a0: int,
    a1: int,
    c0: int,
    c1: int,
    b0: int,
    b1: int,
    d0: int,
    d1: int,
)
    requires
        a0 * c1 == c0 * a1,
        b0 * d1 == d0 * b1,
    ensures
        (a0 * b1 + b0 * a1) * (c1 * d1) == (c0 * d1 + d0 * c1) * (a1 * b1),
{
    lemma_distrib(a0 * b1, b0 * a1, c1 * d1);
    lemma_distrib(c0 * d1, d0 * c1, a1 * b1);
    lemma_mul_shuffle(a0, b1, c1, d1);
    lemma_mul_shuffle(c0, a1, b1, d1);
    lemma_mul_shuffle(b0, a1, c1, d1);
    lemma_mul_shuffle(d0, b1, a1, c1);
    lemma_mul_comm(b1, a1);
}

/// Differences of equal values are equal values.
pub proof fn lemma_q_sub_cong(a: (int, int), a2: (int, int), b: (int, int), b2: (int, int))
    requires
        q_eq(a, a2),
        q_eq(b, b2),
    ensures
        q_eq(q_sub(a, b), q_sub(a2, b2)),
{
    lemma_cross_sub(a.0, a.1, a2.0, a2.1, b.0, b.1, b2.0, b2.1);
}

proof fn lemma_cross_sub(
    a0: int,
    a1: int,
    c0: int,
    c1: int,
    b0: int,
    b1: int,
    d0: int,
    d1: int,
)
    requires
        a0 * c1 == c0 * a1,
        b0 * d1 == d0 * b1,
    ensures
        (a0 * b1 - b0 * a1) * (c1 * d1) == (c0 * d1 - d0 * c1) * (a1 * b1),
{
    lemma_distrib(a0 * b1, b0 * a1, c1 * d1);
    lemma_distrib(c0 * d1, d0 * c1, a1 * b1);
    lemma_mul_shuffle(a0, b1, c1, d1);
    lemma_mul_shuffle(c0, a1, b1, d1);
    lemma_mul_shuffle(b0, a1, c1, d1);
    lemma_mul_shuffle(d0, b1, a1, c1);
    lemma_mul_comm(b1, a1);
}

/// Products of equal values are equal values.
pub proof fn lemma_q_mul_cong(a: (int, int), a2: (int, int), b: (int, int), b2: (int, int))
    requires
        q_eq(a, a2),
        q_eq(b, b2),
    ensures
        q_eq(q_mul(a, b), q_mul(a2, b2)),
{
    lemma_cross_mul(a.0, a.1, a2.0, a2.1, b.0, b.1, b2.0, b2.1);
}

proof fn lemma_cross_mul(
    a0: int,
    a1: int,
    c0: int,
    c1: int,
    b0: int,
    b1: int,
    d0: int,
    d1: int,
)
    requires
        a0 * c1 == c0 * a1,
        b0 * d1 == d0 * b1,
    ensures
        (a0 * b0) * (c1 * d1) == (c0 * d0) * (a1 * b1),
{
    lemma_mul_shuffle(a0, b0, c1, d1);
    lemma_mul_shuffle(c0, a1, d0, b1);
}

/// The product of two positives is positive.
pub proof fn lemma_pos_mul(x: int, y: int) by (nonlinear_arith)
    requires
        x > 0,
        y > 0,
    ensures
        x * y > 0,
{
}

/// A product with a zero factor is zero.
pub proof fn lemma_zero_mul(x: int, y: int) by (nonlinear_arith)
    requires
        x == 0,
    ensures
        x * y == 0,
        y * x == 0,
{
}

/// Multiplying by one does not change the value.
pub proof fn lemma_q_one_mul(y: (int, int))
    ensures
        q_eq(q_mul(q_int(1), y), y),
{
    assert((1 * y.0) * y.1 == y.0 * (1 * y.1)) by (nonlinear_arith);
}

/// Subtracting zero does not change the value.
pub proof fn lemma_q_sub_zero(x: (int, int))
    ensures
        q_eq(q_sub(x, q_int(0)), x),
{
    assert((x.0 * 1 - 0 * x.1) * x.1 == x.0 * (x.1 * 1)) by (nonlinear_arith);
}

/// Adding one more copy of a value to `i` copies gives `i + 1` copies.
pub proof fn lemma_q_scale_step(y: (int, int), i: int)
    ensures
        q_eq(q_add(q_mul(q_int(i), y), y), q_mul(q_int(i + 1), y)),
{
    let y0 = y.0;
    let y1 = y.1;
    assert(((i * y0) * y1 + y0 * (1 * y1)) * (1 * y1) == ((i + 1) * y0) * ((1 * y1) * y1))
        by (nonlinear_arith);
}

} // verus!
