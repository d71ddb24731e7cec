//! An exact rational scalar. The solver works over these values, so its
//! arithmetic can be stated and checked exactly; operations reduce by the
//! greatest common divisor and report overflow of the machine range as
//! `None` instead of wrapping.

use vstd::prelude::*;
use vstd::arithmetic::div_mod::lemma_fundamental_div_mod;

verus! {

/// A rational number `num / den` with `den >= 1`.
#[derive(Debug, Clone, Copy, PartialEq, Eq, Structural)]
pub struct Rat {
    pub num: i64,
    pub den: i64,
}

/// The mathematical value of a `Rat`: an unbounded fraction.
pub ghost struct Q {
    pub n: int,
    pub d: int,
}

impl Rat {
    /// Well-formed: the denominator is positive.
    pub open spec fn wf(self) -> bool {
        self.den >= 1
    }

    /// The fraction this scalar stands for.
    pub open spec fn q(self) -> Q {
        Q { n: self.num as int, d: self.den as int }
    }
}

/// The two fractions denote the same rational: cross products agree.
pub open spec fn qeq(a: Q, b: Q) -> bool {
    a.n * b.d == b.n * a.d
}

/// Sum of two fractions.
pub open spec fn qadd(a: Q, b: Q) -> Q {
    Q { n: a.n * b.d + b.n * a.d, d: a.d * b.d }
}

/// Difference of two fractions.
pub open spec fn qsub(a: Q, b: Q) -> Q {
    Q { n: a.n * b.d - b.n * a.d, d: a.d * b.d }
}

/// Product of two fractions.
pub open spec fn qmul(a: Q, b: Q) -> Q {
    Q { n: a.n * b.n, d: a.d * b.d }
}

/// Quotient of two fractions, with the sign moved into the numerator.
pub open spec fn qdiv(a: Q, b: Q) -> Q {
    if b.n < 0 {
        Q { n: -(a.n * b.d), d: a.d * -b.n }
    } else {
        Q { n: a.n * b.d, d: a.d * b.n }
    }
}

/// The fraction zero.
pub open spec fn qzero() -> Q {
    Q { n: 0, d: 1 }
}

/// Absolute value of an integer.
pub open spec fn qabs(n: int) -> int {
    if n < 0 {
        -n
    } else {
        n
    }
}

/// `|a| < |b|` for fractions with positive denominators.
pub open spec fn qabs_lt(a: Q, b: Q) -> bool {
    qabs(a.n) * b.d < qabs(b.n) * a.d
}

/// `|a| > b` for fractions with positive denominators.
pub open spec fn qgt_abs(a: Q, b: Q) -> bool {
    qabs(a.n) * b.d > b.n * a.d
}

/// `|a| < b` for fractions with positive denominators.
pub open spec fn qlt_abs(a: Q, b: Q) -> bool {
    qabs(a.n) * b.d < b.n * a.d
}

/// A product of an `i64` value and a positive `i64` denominator stays
/// well inside the `i128` range.
proof fn lemma_num_den_prod(x: int, d: int)
    by (nonlinear_arith)
    requires
        -0x8000_0000_0000_0000 <= x <= 0x8000_0000_0000_0000,
        1 <= d <= 0x7FFF_FFFF_FFFF_FFFF,
    ensures
        -0x3FFF_FFFF_FFFF_FFFF_8000_0000_0000_0000 <= x * d
            <= 0x3FFF_FFFF_FFFF_FFFF_8000_0000_0000_0000,
{
}

/// A product of two `i64` values stays inside the `i128` range.
proof fn lemma_num_num_prod(x: int, y: int)
    by (nonlinear_arith)
    requires
        -0x8000_0000_0000_0000 <= x <= 0x7FFF_FFFF_FFFF_FFFF,
        -0x8000_0000_0000_0000 <= y <= 0x7FFF_FFFF_FFFF_FFFF,
    ensures
        -0x4000_0000_0000_0000_0000_0000_0000_0000 <= x * y
            <= 0x4000_0000_0000_0000_0000_0000_0000_0000,
{
}

/// Euclid's greatest common divisor.
pub open spec fn sgcd(a: nat, b: nat) -> nat
    decreases b,
{
    if b == 0 {
        a
    } else {
        sgcd(b, a % b)
    }
}

/// The numerator and denominator that building a scalar from `n / d` with
/// `d >= 1` produces: the sign is split off, the magnitudes are divided by
/// their greatest common divisor, and the sign is restored.
pub open spec fn reduced_parts(n: int, d: int) -> (int, int) {
    let mag = qabs(n) as nat;
    let dn = d as nat;
    let g = sgcd(mag, dn);
    let rm: nat = if g >= 1 && mag % g == 0 && dn % g == 0 {
        mag / g
    } else {
        mag
    };
    let rd: nat = if g >= 1 && mag % g == 0 && dn % g == 0 {
        dn / g
    } else {
        dn
    };
    if n < 0 {
        (-(rm as int), rd as int)
    } else {
        (rm as int, rd as int)
    }
}

/// Whether the reduced form of `n / d` fits the scalar's machine range.
pub open spec fn reduced_fits_i64(n: int, d: int) -> bool {
    &&& i64::MIN <= reduced_parts(n, d).0 <= i64::MAX
    &&& 1 <= reduced_parts(n, d).1 <= i64::MAX
}

/// The scalar that `n / d` reduces to, when it fits.
pub open spec fn rat_reduced(n: int, d: int) -> Rat {
    Rat { num: reduced_parts(n, d).0 as i64, den: reduced_parts(n, d).1 as i64 }
}

/// What checked addition returns: the reduced exact sum, or `None` when it
/// leaves the machine range.
pub open spec fn sadd(a: Rat, b: Rat) -> Option<Rat> {
    if reduced_fits_i64(qadd(a.q(), b.q()).n, qadd(a.q(), b.q()).d) {
        Some(rat_reduced(qadd(a.q(), b.q()).n, qadd(a.q(), b.q()).d))
    } else {
        None
    }
}

/// What checked multiplication returns: the reduced exact product, or
/// `None` when it leaves the machine range.
pub open spec fn smul(a: Rat, b: Rat) -> Option<Rat> {
    if reduced_fits_i64(qmul(a.q(), b.q()).n, qmul(a.q(), b.q()).d) {
        Some(rat_reduced(qmul(a.q(), b.q()).n, qmul(a.q(), b.q()).d))
    } else {
        None
    }
}

/// What checked subtraction returns: the reduced exact difference, or
/// `None` when it leaves the machine range.
pub open spec fn ssub(a: Rat, b: Rat) -> Option<Rat> {
    if reduced_fits_i64(qsub(a.q(), b.q()).n, qsub(a.q(), b.q()).d) {
        Some(rat_reduced(qsub(a.q(), b.q()).n, qsub(a.q(), b.q()).d))
    } else {
        None
    }
}

/// What checked division returns: the reduced exact quotient, or `None`
/// when it leaves the machine range.
pub open spec fn sdiv(a: Rat, b: Rat) -> Option<Rat> {
    if reduced_fits_i64(qdiv(a.q(), b.q()).n, qdiv(a.q(), b.q()).d) {
        Some(rat_reduced(qdiv(a.q(), b.q()).n, qdiv(a.q(), b.q()).d))
    } else {
        None
    }
}

/// The numerator of `num / den` once the denominator's sign is moved up.
pub open spec fn norm_num(num: int, den: int) -> int {
    if den < 0 {
        -num
    } else {
        num
    }
}

/// The denominator of `num / den` made positive.
pub open spec fn norm_den(num: int, den: int) -> int {
    if den < 0 {
        -den
    } else {
        den
    }
}

/// Greatest-common-divisor scan by Euclid's method.
fn gcd_u128(a: u128, b: u128) -> (g: u128)
    ensures
        g as nat == sgcd(a as nat, b as nat),
{
    let mut x = a;
    let mut y = b;
    while y != 0
        invariant
            sgcd(x as nat, y as nat) == sgcd(a as nat, b as nat),
        decreases y,
    {
        let t = x % y;
        x = y;
        y = t;
    }
    x
}

/// Build a reduced, well-formed `Rat` denoting `n / d`, or `None` when the
/// reduced numerator or denominator does not fit in an `i64`.
pub fn make_rat(n: i128, d: i128) -> (r: Option<Rat>)
    requires
        1 <= d <= 0x4000_0000_0000_0000_0000_0000_0000_0000,
        -0x7FFF_FFFF_FFFF_FFFF_0000_0000_0000_0000 <= n
            <= 0x7FFF_FFFF_FFFF_FFFF_0000_0000_0000_0000,
    ensures
        r == (if reduced_fits_i64(n as int, d as int) {
            Some(rat_reduced(n as int, d as int))
        } else {
            None
        }),
        r matches Some(rt) ==> rt.wf() && qeq(rt.q(), Q { n: n as int, d: d as int }),
{
    let neg = n < 0;
    let mag: i128 = if neg {
        -n
    } else {
        n
    };
    let magu = mag as u128;
    let du = d as u128;
    let g = gcd_u128(magu, du);
    let (rm, rd): (u128, u128) = if g >= 1 && magu % g == 0 && du % g == 0 {
        proof {
            lemma_fundamental_div_mod(magu as int, g as int);
            lemma_fundamental_div_mod(du as int, g as int);
            assert(magu == g * (magu / g) + magu % g);
            assert(du == g * (du / g) + du % g);
            let gi = g as int;
            let m = magu as int;
            let d0 = du as int;
            let mg = (magu / g) as int;
            let dg = (du / g) as int;
            assert(m == gi * mg);
            assert(d0 == gi * dg);
            assert(dg >= 1) by (nonlinear_arith)
                requires
                    d0 == gi * dg,
                    d0 >= 1,
                    gi >= 1,
                    dg >= 0,
            ;
            assert(mg * d0 == m * dg) by (nonlinear_arith)
                requires
                    m == gi * mg,
                    d0 == gi * dg,
            ;
            assert(mg <= m) by (nonlinear_arith)
                requires
                    m == gi * mg,
                    gi >= 1,
                    mg >= 0,
            ;
            assert(dg <= d0) by (nonlinear_arith)
                requires
                    d0 == gi * dg,
                    gi >= 1,
                    dg >= 0,
            ;
        }
        (magu / g, du / g)
    } else {
        (magu, du)
    };
    proof {
        assert((rm as int) * (du as int) == (magu as int) * (rd as int));
    }
    let rmi = rm as i128;
    let rdi = rd as i128;
    let sn: i128 = if neg {
        -rmi
    } else {
        rmi
    };
    proof {
        let sni = sn as int;
        let ni = n as int;
        let di = d as int;
        let rmI = rm as int;
        let rdI = rd as int;
        assert(du as int == di);
        assert(magu as int == qabs(ni));
        if neg {
            assert(sni * di == ni * rdI) by (nonlinear_arith)
                requires
                    sni == -rmI,
                    ni == -(qabs(ni)),
                    rmI * di == qabs(ni) * rdI,
            ;
        } else {
            assert(sni * di == ni * rdI) by (nonlinear_arith)
                requires
                    sni == rmI,
                    ni == qabs(ni),
                    rmI * di == qabs(ni) * rdI,
            ;
        }
    }
    if -0x8000_0000_0000_0000i128 <= sn && sn <= 0x7FFF_FFFF_FFFF_FFFFi128 && 1 <= rdi
        && rdi <= 0x7FFF_FFFF_FFFF_FFFFi128 {
        Some(Rat { num: sn as i64, den: rdi as i64 })
    } else {
        None
    }
}

impl Rat {
    /// The rational `n / 1`.
    pub fn from_int(n: i64) -> (r: Rat)
        ensures
            r == (Rat { num: n, den: 1 }),
            r.wf() && qeq(r.q(), Q { n: n as int, d: 1 }),
    {
        Rat { num: n, den: 1 }
    }

    /// The rational zero.
    pub fn zero() -> (r: Rat)
        ensures
            r == (Rat { num: 0, den: 1 }),
            r.wf() && qeq(r.q(), qzero()),
    {
        Rat { num: 0, den: 1 }
    }

    /// The rational `num / den`, reduced; `None` when the reduced form does
    /// not fit.
    pub fn new(num: i64, den: i64) -> (r: Option<Rat>)
        requires
            den != 0,
        ensures
            r == (if reduced_fits_i64(
                norm_num(num as int, den as int),
                norm_den(num as int, den as int),
            ) {
                Some(
                    rat_reduced(
                        norm_num(num as int, den as int),
                        norm_den(num as int, den as int),
                    ),
                )
            } else {
                None
            }),
            r matches Some(rt) ==> rt.wf() && qeq(rt.q(), Q { n: num as int, d: den as int }),
    {
        let n0 = num as i128;
        let d0 = den as i128;
        let (n1, d1): (i128, i128) = if den < 0 {
            (-n0, -d0)
        } else {
            (n0, d0)
        };
        let r = make_rat(n1, d1);
        proof {
            if r is Some {
                let rt = r->Some_0;
                assert(rt.num * (den as int) == num * rt.den) by (nonlinear_arith)
                    requires
                        (rt.num as int) * (d1 as int) == (n1 as int) * (rt.den as int),
                        d1 as int == if den < 0 { -(den as int) } else { den as int },
                        n1 as int == if den < 0 { -(num as int) } else { num as int },
                ;
            }
        }
        r
    }

    /// Exact sum; `None` when the reduced result leaves the machine range.
    pub fn checked_add(self, o: Rat) -> (r: Option<Rat>)
        requires
            self.wf(),
            o.wf(),
        ensures
            r == (if reduced_fits_i64(qadd(self.q(), o.q()).n, qadd(self.q(), o.q()).d) {
                Some(rat_reduced(qadd(self.q(), o.q()).n, qadd(self.q(), o.q()).d))
            } else {
                None
            }),
            r matches Some(rt) ==> rt.wf() && qeq(rt.q(), qadd(self.q(), o.q())),
    {
        proof {
            lemma_num_den_prod(self.num as int, o.den as int);
            lemma_num_den_prod(o.num as int, self.den as int);
            lemma_num_den_prod(self.den as int, o.den as int);
        }
        let n = self.num as i128 * o.den as i128 + o.num as i128 * self.den as i128;
        let d = self.den as i128 * o.den as i128;
        proof {
            assert(d >= 1) by (nonlinear_arith)
                requires
                    d == (self.den as int) * (o.den as int),
                    self.den >= 1,
                    o.den >= 1,
            ;
        }
        make_rat(n, d)
    }

    /// Exact difference; `None` when the reduced result leaves the machine
    /// range.
    pub fn checked_sub(self, o: Rat) -> (r: Option<Rat>)
        requires
            self.wf(),
            o.wf(),
        ensures
            r == (if reduced_fits_i64(qsub(self.q(), o.q()).n, qsub(self.q(), o.q()).d) {
                Some(rat_reduced(qsub(self.q(), o.q()).n, qsub(self.q(), o.q()).d))
            } else {
                None
            }),
            r matches Some(rt) ==> rt.wf() && qeq(rt.q(), qsub(self.q(), o.q())),
    {
        proof {
            lemma_num_den_prod(self.num as int, o.den as int);
            lemma_num_den_prod(o.num as int, self.den as int);
            lemma_num_den_prod(self.den as int, o.den as int);
        }
        let n = self.num as i128 * o.den as i128 - o.num as i128 * self.den as i128;
        let d = self.den as i128 * o.den as i128;
        proof {
            assert(d >= 1) by (nonlinear_arith)
                requires
                    d == (self.den as int) * (o.den as int),
                    self.den >= 1,
                    o.den >= 1,
            ;
        }
        make_rat(n, d)
    }

    /// Exact product; `None` when the reduced result leaves the machine
    /// range.
    pub fn checked_mul(self, o: Rat) -> (r: Option<Rat>)
        requires
            self.wf(),
            o.wf(),
        ensures
            r == (if reduced_fits_i64(qmul(self.q(), o.q()).n, qmul(self.q(), o.q()).d) {
                Some(rat_reduced(qmul(self.q(), o.q()).n, qmul(self.q(), o.q()).d))
            } else {
                None
            }),
            r matches Some(rt) ==> rt.wf() && qeq(rt.q(), qmul(self.q(), o.q())),
    {
        proof {
            lemma_num_num_prod(self.num as int, o.num as int);
            lemma_num_den_prod(self.den as int, o.den as int);
        }
        let n = self.num as i128 * o.num as i128;
        let d = self.den as i128 * o.den as i128;
        proof {
            assert(d >= 1) by (nonlinear_arith)
                requires
                    d == (self.den as int) * (o.den as int),
                    self.den >= 1,
                    o.den >= 1,
            ;
        }
        make_rat(n, d)
    }

    /// Exact quotient by a nonzero rational; `None` when the reduced result
    /// leaves the machine range.
    pub fn checked_div(self, o: Rat) -> (r: Option<Rat>)
        requires
            self.wf(),
            o.wf(),
            o.num != 0,
        ensures
            r == (if reduced_fits_i64(qdiv(self.q(), o.q()).n, qdiv(self.q(), o.q()).d) {
                Some(rat_reduced(qdiv(self.q(), o.q()).n, qdiv(self.q(), o.q()).d))
            } else {
                None
            }),
            r matches Some(rt) ==> rt.wf() && qeq(rt.q(), qdiv(self.q(), o.q())),
    {
        proof {
            lemma_num_den_prod(self.num as int, o.den as int);
            lemma_num_den_prod(o.num as int, self.den as int);
        }
        let n0 = self.num as i128 * o.den as i128;
        let d0 = self.den as i128 * o.num as i128;
        proof {
            assert(d0 != 0 && (o.num < 0 ==> d0 < 0) && (o.num > 0 ==> d0 > 0))
                by (nonlinear_arith)
                requires
                    d0 == (self.den as int) * (o.num as int),
                    self.den >= 1,
                    o.num != 0,
            ;
        }
        let (n, d): (i128, i128) = if d0 < 0 {
            (-n0, -d0)
        } else {
            (n0, d0)
        };
        proof {
            if o.num < 0 {
                assert(n as int == -((self.num as int) * (o.den as int)));
                assert(d as int == (self.den as int) * -(o.num as int)) by (nonlinear_arith)
                    requires
                        d as int == -((self.den as int) * (o.num as int)),
                ;
            }
        }
        make_rat(n, d)
    }

    /// Whether `|self| < |o|`, exactly.
    pub fn abs_lt(self, o: Rat) -> (r: bool)
        requires
            self.wf(),
            o.wf(),
        ensures
            r == qabs_lt(self.q(), o.q()),
    {
        let an = self.num as i128;
        let aa = if an < 0 {
            -an
        } else {
            an
        };
        let bn = o.num as i128;
        let ba = if bn < 0 {
            -bn
        } else {
            bn
        };
        proof {
            lemma_num_den_prod(aa as int, o.den as int);
            lemma_num_den_prod(ba as int, self.den as int);
        }
        (aa * o.den as i128) < (ba * self.den as i128)
    }

    /// Whether `|self| > o`, exactly (true for any negative `o`).
    pub fn abs_gt(self, o: Rat) -> (r: bool)
        requires
            self.wf(),
            o.wf(),
        ensures
            r == qgt_abs(self.q(), o.q()),
    {
        let an = self.num as i128;
        let aa = if an < 0 {
            -an
        } else {
            an
        };
        proof {
            lemma_num_den_prod(aa as int, o.den as int);
            lemma_num_den_prod(o.num as int, self.den as int);
        }
        (aa * o.den as i128) > (o.num as i128 * self.den as i128)
    }

    /// Whether `|self| < o`, exactly (false whenever `o` is not positive).
    pub fn lt_abs(self, o: Rat) -> (r: bool)
        requires
            self.wf(),
            o.wf(),
        ensures
            r == qlt_abs(self.q(), o.q()),
    {
        let an = self.num as i128;
        let aa = if an < 0 {
            -an
        } else {
            an
        };
        proof {
            lemma_num_den_prod(aa as int, o.den as int);
            lemma_num_den_prod(o.num as int, self.den as int);
        }
        (aa * o.den as i128) < (o.num as i128 * self.den as i128)
    }

    /// Whether the value is exactly zero.
    pub fn is_zero(self) -> (r: bool)
        ensures
            r == (self.q().n == 0),
            r == qeq(self.q(), qzero()),
    {
        self.num == 0
    }

    /// Whether the two scalars denote the same rational.
    pub fn eq_value(self, o: Rat) -> (r: bool)
        requires
            self.wf(),
            o.wf(),
        ensures
            r == qeq(self.q(), o.q()),
    {
        proof {
            lemma_num_den_prod(self.num as int, o.den as int);
            lemma_num_den_prod(o.num as int, self.den as int);
        }
        self.num as i128 * o.den as i128 == o.num as i128 * self.den as i128
    }
}

} // verus!
