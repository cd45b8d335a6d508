use vstd::prelude::*;
use crate::arith::{
    pow10, ndigits, rhe, pow10_u128, count_digits, lemma_pow10_values, lemma_pow10_pos,
    lemma_pow10_mono, lemma_pow10_adds, lemma_ndigits_bounds, lemma_ndigits_le_39,
};

verus! {

/// The largest coefficient magnitude, exclusive: the scalar keeps twelve
/// significant decimal digits.
pub const COEFF_LIMIT: u64 = 1_000_000_000_000;

/// The largest stored base-ten exponent; a canonical result beyond it
/// overflows to infinity.
pub const EXP_MAX: i32 = 400;

/// The smallest stored base-ten exponent; a canonical result below it
/// underflows to zero.
pub const EXP_MIN: i32 = -400;

/// A decimal floating value: a sign, a coefficient of at most twelve
/// significant digits, and a power-of-ten exponent, together with the
/// two non-finite kinds that arithmetic can produce.
///
/// A finite value stands for `coeff` times ten to the `exp`, negated when
/// `neg` is set. Every value handed out by this crate is canonical: the
/// coefficient carries no trailing zero, zero is stored as positive zero
/// with exponent zero, and the exponent lies between `EXP_MIN` and
/// `EXP_MAX`. Canonical form is unique per represented value, so derived
/// structural equality coincides with value equality.
#[derive(Debug, Clone, Copy, PartialEq, Eq, Structural)]
pub enum Scalar {
    Nan,
    Inf { neg: bool },
    Finite { neg: bool, coeff: u64, exp: i32 },
}

impl Scalar {
    /// Canonical well-formedness of a decimal value.
    pub open spec fn wf(self) -> bool {
        match self {
            Scalar::Nan => true,
            Scalar::Inf { .. } => true,
            Scalar::Finite { neg, coeff, exp } => coeff < COEFF_LIMIT && (coeff == 0 ==> !neg
                && exp == 0) && (coeff != 0 ==> coeff % 10 != 0) && EXP_MIN <= exp <= EXP_MAX,
        }
    }

    pub open spec fn is_finite_spec(self) -> bool {
        self is Finite
    }

    pub open spec fn is_nan_spec(self) -> bool {
        self is Nan
    }

    pub open spec fn is_zero_spec(self) -> bool {
        self matches Scalar::Finite { coeff: 0, .. }
    }

    /// The sign of the value: true for a negative finite value or
    /// negative infinity.
    pub open spec fn neg_spec(self) -> bool {
        match self {
            Scalar::Nan => false,
            Scalar::Inf { neg } => neg,
            Scalar::Finite { neg, .. } => neg,
        }
    }

    /// The signed coefficient of a finite value, as an integer.
    pub open spec fn sc(self) -> int
        recommends
            self is Finite,
    {
        match self {
            Scalar::Finite { neg, coeff, exp } => if neg {
                -(coeff as int)
            } else {
                coeff as int
            },
            _ => 0,
        }
    }

    /// The stored exponent of a finite value.
    pub open spec fn ex(self) -> int
        recommends
            self is Finite,
    {
        match self {
            Scalar::Finite { exp, .. } => exp as int,
            _ => 0,
        }
    }

    pub open spec fn zero_spec() -> Scalar {
        Scalar::Finite { neg: false, coeff: 0, exp: 0 }
    }

    pub open spec fn one_spec() -> Scalar {
        Scalar::Finite { neg: false, coeff: 1, exp: 0 }
    }

    pub fn zero() -> (d: Scalar)
        ensures
            d == Scalar::zero_spec(),
            d.wf(),
    {
        Scalar::Finite { neg: false, coeff: 0, exp: 0 }
    }

    pub fn one() -> (d: Scalar)
        ensures
            d == Scalar::one_spec(),
            d.wf(),
    {
        Scalar::Finite { neg: false, coeff: 1, exp: 0 }
    }

    pub fn is_zero(&self) -> (r: bool)
        ensures
            r == self.is_zero_spec(),
    {
        match self {
            Scalar::Finite { coeff: 0, .. } => true,
            _ => false,
        }
    }

    pub fn is_nan(&self) -> (r: bool)
        ensures
            r == self.is_nan_spec(),
    {
        matches!(self, Scalar::Nan)
    }

    pub fn is_finite(&self) -> (r: bool)
        ensures
            r == self.is_finite_spec(),
    {
        matches!(self, Scalar::Finite { .. })
    }
}

/// Removes every trailing zero of a positive coefficient, raising the
/// exponent once per removed digit; the represented value is unchanged.
pub open spec fn strip_zeros(c: int, e: int) -> (int, int)
    decreases c,
{
    if c >= 1 && c % 10 == 0 {
        strip_zeros(c / 10, e + 1)
    } else {
        (c, e)
    }
}

pub proof fn lemma_strip_props(c: int, e: int)
    requires
        c >= 1,
    ensures
        1 <= strip_zeros(c, e).0 <= c,
        strip_zeros(c, e).0 % 10 != 0,
        e <= strip_zeros(c, e).1,
        c == strip_zeros(c, e).0 * pow10((strip_zeros(c, e).1 - e) as nat),
        ndigits(strip_zeros(c, e).0) + strip_zeros(c, e).1 == ndigits(c) + e,
    decreases c,
{
    if c % 10 == 0 {
        lemma_strip_props(c / 10, e + 1);
        let (c2, e2) = strip_zeros(c / 10, e + 1);
        let k = (e2 - e - 1) as nat;
        assert(c / 10 == c2 * pow10(k));
        assert(c == 10 * (c / 10));
        assert(pow10((k + 1) as nat) == 10 * pow10(k));
        assert(c2 * (10 * pow10(k)) == 10 * (c2 * pow10(k))) by (nonlinear_arith);
        assert(c == c2 * pow10((e2 - e) as nat));
        assert(ndigits(c) == 1 + ndigits(c / 10));
    }
}

/// Rounds a positive coefficient to at most twelve significant digits,
/// half to even, carrying dropped digits into the exponent.
pub open spec fn squash(c: int, e: int) -> (int, int)
    recommends
        c >= 1,
{
    if ndigits(c) <= 12 {
        (c, e)
    } else {
        let k = (ndigits(c) - 12) as nat;
        let c2 = rhe(c, pow10(k));
        if c2 == pow10(12) {
            (pow10(11), e + k + 1)
        } else {
            (c2, e + k as int)
        }
    }
}

pub proof fn lemma_squash_props(c: int, e: int)
    requires
        c >= 1,
    ensures
        1 <= squash(c, e).0 < pow10(12),
        e <= squash(c, e).1 <= e + ndigits(c),
{
    lemma_ndigits_bounds(c);
    if ndigits(c) <= 12 {
        lemma_pow10_mono(ndigits(c), 12);
    } else {
        let k = (ndigits(c) - 12) as nat;
        let p = pow10(k);
        lemma_pow10_pos(k);
        let q = c / p;
        let r = c % p;
        assert(c == p * q + r && 0 <= r < p) by {
            vstd::arithmetic::div_mod::lemma_fundamental_div_mod(c, p);
        }
        lemma_pow10_adds(k, 11);
        lemma_pow10_adds(k, 12);
        assert(pow10((ndigits(c) - 1) as nat) == p * pow10(11));
        assert(pow10(ndigits(c)) == p * pow10(12));
        lemma_pow10_pos(11);
        lemma_pow10_pos(12);
        // the quotient keeps at least eleven digits of headroom
        assert(q >= pow10(11)) by (nonlinear_arith)
            requires
                c == p * q + r,
                0 <= r < p,
                c >= p * pow10(11),
                p >= 1,
        ;
        // and stays below the thirteen-digit boundary
        assert(q < pow10(12)) by (nonlinear_arith)
            requires
                c == p * q + r,
                0 <= r < p,
                c < p * pow10(12),
                p >= 1,
        ;
        assert(rhe(c, p) == q || rhe(c, p) == q + 1);
    }
}

/// The canonical decimal value of an integer times a power of ten: the
/// magnitude is rounded to twelve significant digits, trailing zeros are
/// stripped, and an exponent beyond the stored range overflows to
/// infinity or underflows to zero.
pub open spec fn scaled(s: int, e: int) -> Scalar {
    if s == 0 {
        Scalar::zero_spec()
    } else {
        let neg = s < 0;
        let m = if s < 0 {
            -s
        } else {
            s
        };
        let sq = squash(m, e);
        let st = strip_zeros(sq.0, sq.1);
        if st.1 > EXP_MAX as int {
            Scalar::Inf { neg }
        } else if st.1 < EXP_MIN as int {
            Scalar::zero_spec()
        } else {
            Scalar::Finite { neg, coeff: st.0 as u64, exp: st.1 as i32 }
        }
    }
}

pub proof fn lemma_scaled_wf(s: int, e: int)
    ensures
        scaled(s, e).wf(),
{
    if s != 0 {
        let m = if s < 0 {
            -s
        } else {
            s
        };
        lemma_squash_props(m, e);
        let sq = squash(m, e);
        lemma_strip_props(sq.0, sq.1);
        lemma_pow10_values();
    }
}

/// Builds the canonical decimal for a signed magnitude times a power of
/// ten; this is the one constructor every arithmetic result goes
/// through.
pub fn build(neg: bool, mag: u128, e: i64) -> (d: Scalar)
    requires
        -5_000_000_000 <= e <= 5_000_000_000,
    ensures
        d == scaled(
            if neg {
                -(mag as int)
            } else {
                mag as int
            },
            e as int,
        ),
        d.wf(),
{
    proof {
        lemma_scaled_wf(
            if neg {
                -(mag as int)
            } else {
                mag as int
            },
            e as int,
        );
    }
    if mag == 0 {
        return Scalar::Finite { neg: false, coeff: 0, exp: 0 };
    }
    let ghost s: int = if neg {
        -(mag as int)
    } else {
        mag as int
    };
    let nd = count_digits(mag);
    let mut c: u128 = mag;
    let mut ee: i64 = e;
    proof {
        lemma_ndigits_bounds(mag as int);
        lemma_pow10_values();
    }
    if nd > 12 {
        let k = nd - 12;
        let p = pow10_u128(k);
        proof {
            lemma_pow10_pos(k as nat);
            lemma_pow10_mono(k as nat, 27);
            lemma_pow10_mono(1, k as nat);
            lemma_pow10_adds(19, 8);
            vstd::arithmetic::div_mod::lemma_div_is_ordered_by_denominator(
                c as int,
                10,
                p as int,
            );
        }
        let q = c / p;
        let r = c % p;
        let c2: u128 = if 2 * r > p {
            q + 1
        } else if 2 * r < p {
            q
        } else if q % 2 == 0 {
            q
        } else {
            q + 1
        };
        proof {
            lemma_squash_props(mag as int, e as int);
            assert(c2 as int == rhe(mag as int, pow10(k as nat)));
        }
        if c2 == 1_000_000_000_000 {
            c = 100_000_000_000;
            ee = ee + (k as i64) + 1;
        } else {
            c = c2;
            ee = ee + (k as i64);
        }
        proof {
            assert((c as int, ee as int) == squash(mag as int, e as int));
        }
    }
    proof {
        lemma_squash_props(mag as int, e as int);
        assert((c as int, ee as int) == squash(mag as int, e as int));
    }
    let ghost sq = squash(mag as int, e as int);
    proof {
        if ndigits(sq.0) > 12 {
            lemma_ndigits_bounds(sq.0);
            lemma_pow10_mono(12, (ndigits(sq.0) - 1) as nat);
        }
    }
    while c % 10 == 0
        invariant
            1 <= (c as int) && (c as int) < pow10(12),
            -5_000_000_000 <= ee,
            ee as int + ndigits(c as int) == sq.1 + ndigits(sq.0),
            ndigits(sq.0) <= 12,
            sq.1 <= ee,
            ee as int <= sq.1 + 11,
            sq.1 <= 5_000_000_000 + 39,
            strip_zeros(c as int, ee as int) == strip_zeros(sq.0, sq.1),
        decreases c,
    {
        proof {
            assert(c as int >= 10);
            assert(ndigits(c as int) == 1 + ndigits(c as int / 10));
            assert(ndigits(c as int) <= 39) by {
                lemma_ndigits_le_39(c as int);
            }
        }
        c = c / 10;
        ee = ee + 1;
    }
    proof {
        assert(strip_zeros(c as int, ee as int) == (c as int, ee as int));
        lemma_strip_props(sq.0, sq.1);
    }
    if ee > 400 {
        Scalar::Inf { neg }
    } else if ee < -400 {
        Scalar::Finite { neg: false, coeff: 0, exp: 0 }
    } else {
        Scalar::Finite { neg, coeff: c as u64, exp: ee as i32 }
    }
}

} // verus!
use vstd::prelude::*;

verus! {

impl Scalar {
    /// The order of magnitude of a nonzero finite value: the base-ten
    /// exponent of its leading digit, plus one.
    pub open spec fn magnitude(self) -> int
        recommends
            self is Finite,
            !self.is_zero_spec(),
    {
        match self {
            Scalar::Finite { coeff, exp, .. } => exp + ndigits(coeff as int),
            _ => 0,
        }
    }

    /// The value with the opposite sign; negating zero gives zero back.
    pub open spec fn negated_spec(self) -> Scalar {
        match self {
            Scalar::Nan => Scalar::Nan,
            Scalar::Inf { neg } => Scalar::Inf { neg: !neg },
            Scalar::Finite { neg, coeff, exp } => if coeff == 0 {
                self
            } else {
                Scalar::Finite { neg: !neg, coeff, exp }
            },
        }
    }

    pub fn negated(self) -> (r: Scalar)
        requires
            self.wf(),
        ensures
            r == self.negated_spec(),
            r.wf(),
    {
        match self {
            Scalar::Nan => Scalar::Nan,
            Scalar::Inf { neg } => Scalar::Inf { neg: !neg },
            Scalar::Finite { neg, coeff, exp } => {
                if coeff == 0 {
                    self
                } else {
                    Scalar::Finite { neg: !neg, coeff, exp }
                }
            },
        }
    }

    pub open spec fn abs_spec(self) -> Scalar {
        match self {
            Scalar::Nan => Scalar::Nan,
            Scalar::Inf { .. } => Scalar::Inf { neg: false },
            Scalar::Finite { neg, coeff, exp } => Scalar::Finite { neg: false, coeff, exp },
        }
    }

    pub fn abs(self) -> (r: Scalar)
        requires
            self.wf(),
        ensures
            r == self.abs_spec(),
            r.wf(),
    {
        match self {
            Scalar::Nan => Scalar::Nan,
            Scalar::Inf { .. } => Scalar::Inf { neg: false },
            Scalar::Finite { coeff, exp, .. } => Scalar::Finite { neg: false, coeff, exp },
        }
    }

    /// The sum of two values. Finite operands are aligned to a common
    /// exponent and added exactly, and the exact sum is then
    /// renormalized; an operand more than fifteen orders of magnitude
    /// below the other is absorbed. Non-finite operands follow the usual
    /// floating conventions: opposite infinities give `Nan`, and `Nan`
    /// poisons every sum.
    pub open spec fn add_spec(self, o: Scalar) -> Scalar {
        match (self, o) {
            (Scalar::Nan, _) => Scalar::Nan,
            (_, Scalar::Nan) => Scalar::Nan,
            (Scalar::Inf { neg: a }, Scalar::Inf { neg: b }) => if a == b {
                Scalar::Inf { neg: a }
            } else {
                Scalar::Nan
            },
            (Scalar::Inf { neg: a }, _) => Scalar::Inf { neg: a },
            (_, Scalar::Inf { neg: b }) => Scalar::Inf { neg: b },
            _ => if self.is_zero_spec() {
                o
            } else if o.is_zero_spec() {
                self
            } else if self.magnitude() - o.magnitude() > 15 {
                self
            } else if o.magnitude() - self.magnitude() > 15 {
                o
            } else {
                let m = if self.ex() < o.ex() {
                    self.ex()
                } else {
                    o.ex()
                };
                scaled(
                    self.sc() * pow10((self.ex() - m) as nat) + o.sc() * pow10(
                        (o.ex() - m) as nat,
                    ),
                    m,
                )
            },
        }
    }

    pub fn add(self, o: Scalar) -> (r: Scalar)
        requires
            self.wf(),
            o.wf(),
        ensures
            r == self.add_spec(o),
            r.wf(),
    {
        match (self, o) {
            (Scalar::Nan, _) => Scalar::Nan,
            (_, Scalar::Nan) => Scalar::Nan,
            (Scalar::Inf { neg: a }, Scalar::Inf { neg: b }) => {
                if a == b {
                    Scalar::Inf { neg: a }
                } else {
                    Scalar::Nan
                }
            },
            (Scalar::Inf { neg: a }, _) => Scalar::Inf { neg: a },
            (_, Scalar::Inf { neg: b }) => Scalar::Inf { neg: b },
            (
                Scalar::Finite { neg: n1, coeff: c1, exp: x1 },
                Scalar::Finite { neg: n2, coeff: c2, exp: x2 },
            ) => {
                if c1 == 0 {
                    return o;
                }
                if c2 == 0 {
                    return self;
                }
                let nd1 = count_digits(c1 as u128);
                let nd2 = count_digits(c2 as u128);
                let mag1: i64 = x1 as i64 + nd1 as i64;
                let mag2: i64 = x2 as i64 + nd2 as i64;
                if mag1 - mag2 > 15 {
                    return self;
                }
                if mag2 - mag1 > 15 {
                    return o;
                }
                let m: i64 = if x1 < x2 {
                    x1 as i64
                } else {
                    x2 as i64
                };
                let s1: u32 = (x1 as i64 - m) as u32;
                let s2: u32 = (x2 as i64 - m) as u32;
                proof {
                    lemma_pow10_values();
                    crate::arith::lemma_ndigits_at_most(c1 as int, 12);
                    crate::arith::lemma_ndigits_at_most(c2 as int, 12);
                    assert(s1 <= 26 && s2 <= 26);
                    lemma_pow10_mono(s1 as nat, 26);
                    lemma_pow10_mono(s2 as nat, 26);
                    lemma_pow10_pos(s1 as nat);
                    lemma_pow10_pos(s2 as nat);
                    lemma_pow10_adds(12, 26);
                    lemma_pow10_adds(19, 19);
                }
                let p1 = pow10_u128(s1);
                let p2 = pow10_u128(s2);
                proof {
                    assert((c1 as int) * (p1 as int) < pow10(12) * pow10(26)) by (nonlinear_arith)
                        requires
                            (c1 as int) < pow10(12),
                            (p1 as int) <= pow10(26),
                            (p1 as int) >= 1,
                            pow10(26) >= 1,
                    ;
                    assert((c2 as int) * (p2 as int) < pow10(12) * pow10(26)) by (nonlinear_arith)
                        requires
                            (c2 as int) < pow10(12),
                            (p2 as int) <= pow10(26),
                            (p2 as int) >= 1,
                            pow10(26) >= 1,
                    ;
                }
                let v1: u128 = (c1 as u128) * p1;
                let v2: u128 = (c2 as u128) * p2;
                let ghost s: int = self.sc() * pow10((self.ex() - m as int) as nat) + o.sc()
                    * pow10((o.ex() - m as int) as nat);
                proof {
                    assert(pow10((self.ex() - m as int) as nat) == p1 as int);
                    assert(pow10((o.ex() - m as int) as nat) == p2 as int);
                    assert(self.sc() * (p1 as int) == if n1 {
                        -(v1 as int)
                    } else {
                        v1 as int
                    }) by (nonlinear_arith)
                        requires
                            self.sc() == if n1 {
                                -(c1 as int)
                            } else {
                                c1 as int
                            },
                            v1 as int == (c1 as int) * (p1 as int),
                    ;
                    assert(o.sc() * (p2 as int) == if n2 {
                        -(v2 as int)
                    } else {
                        v2 as int
                    }) by (nonlinear_arith)
                        requires
                            o.sc() == if n2 {
                                -(c2 as int)
                            } else {
                                c2 as int
                            },
                            v2 as int == (c2 as int) * (p2 as int),
                    ;
                }
                if n1 == n2 {
                    let r = build(n1, v1 + v2, m);
                    proof {
                        assert(s == if n1 {
                            -((v1 + v2) as int)
                        } else {
                            (v1 + v2) as int
                        });
                    }
                    r
                } else if v1 >= v2 {
                    let r = build(n1, v1 - v2, m);
                    proof {
                        assert(s == if n1 {
                            -((v1 - v2) as int)
                        } else {
                            (v1 - v2) as int
                        });
                    }
                    r
                } else {
                    let r = build(n2, v2 - v1, m);
                    proof {
                        assert(s == if n2 {
                            -((v2 - v1) as int)
                        } else {
                            (v2 - v1) as int
                        });
                    }
                    r
                }
            },
        }
    }

    /// The difference of two values: the sum with the negated right
    /// operand.
    pub open spec fn sub_spec(self, o: Scalar) -> Scalar {
        self.add_spec(o.negated_spec())
    }

    pub fn sub(self, o: Scalar) -> (r: Scalar)
        requires
            self.wf(),
            o.wf(),
        ensures
            r == self.sub_spec(o),
            r.wf(),
    {
        self.add(o.negated())
    }

    /// The product of two values: coefficients multiply exactly and the
    /// exponents add, before the one renormalization pass; an infinity
    /// times zero is `Nan`.
    pub open spec fn mul_spec(self, o: Scalar) -> Scalar {
        match (self, o) {
            (Scalar::Nan, _) => Scalar::Nan,
            (_, Scalar::Nan) => Scalar::Nan,
            (Scalar::Inf { neg: a }, Scalar::Inf { neg: b }) => Scalar::Inf { neg: a != b },
            (Scalar::Inf { neg: a }, _) => if o.is_zero_spec() {
                Scalar::Nan
            } else {
                Scalar::Inf { neg: a != o.neg_spec() }
            },
            (_, Scalar::Inf { neg: b }) => if self.is_zero_spec() {
                Scalar::Nan
            } else {
                Scalar::Inf { neg: b != self.neg_spec() }
            },
            _ => scaled(self.sc() * o.sc(), self.ex() + o.ex()),
        }
    }

    pub fn mul(self, o: Scalar) -> (r: Scalar)
        requires
            self.wf(),
            o.wf(),
        ensures
            r == self.mul_spec(o),
            r.wf(),
    {
        match (self, o) {
            (Scalar::Nan, _) => Scalar::Nan,
            (_, Scalar::Nan) => Scalar::Nan,
            (Scalar::Inf { neg: a }, Scalar::Inf { neg: b }) => Scalar::Inf { neg: a != b },
            (Scalar::Inf { neg: a }, Scalar::Finite { neg: n2, coeff: c2, .. }) => {
                if c2 == 0 {
                    Scalar::Nan
                } else {
                    Scalar::Inf { neg: a != n2 }
                }
            },
            (Scalar::Finite { neg: n1, coeff: c1, .. }, Scalar::Inf { neg: b }) => {
                if c1 == 0 {
                    Scalar::Nan
                } else {
                    Scalar::Inf { neg: b != n1 }
                }
            },
            (
                Scalar::Finite { neg: n1, coeff: c1, exp: x1 },
                Scalar::Finite { neg: n2, coeff: c2, exp: x2 },
            ) => {
                proof {
                    lemma_pow10_values();
                    lemma_pow10_adds(12, 12);
                    assert((c1 as int) * (c2 as int) < pow10(12) * pow10(12)) by (nonlinear_arith)
                        requires
                            0 <= (c1 as int) && (c1 as int) < pow10(12),
                            0 <= (c2 as int) && (c2 as int) < pow10(12),
                    ;
                }
                let prod: u128 = (c1 as u128) * (c2 as u128);
                proof {
                    assert(self.sc() * o.sc() == if n1 != n2 {
                        -((c1 as int) * (c2 as int))
                    } else {
                        (c1 as int) * (c2 as int)
                    }) by (nonlinear_arith)
                        requires
                            self.sc() == if n1 {
                                -(c1 as int)
                            } else {
                                c1 as int
                            },
                            o.sc() == if n2 {
                                -(c2 as int)
                            } else {
                                c2 as int
                            },
                    ;
                }
                build(n1 != n2, prod, x1 as i64 + x2 as i64)
            },
        }
    }

    /// The quotient of two values: the dividend's coefficient is scaled
    /// so that the integer quotient carries at least twelve significant
    /// digits, rounded half to even, before the one renormalization
    /// pass. Division follows the usual floating conventions at the
    /// edges: a nonzero value over zero is a signed infinity, zero over
    /// zero is `Nan`, and a finite value over an infinity is zero.
    pub open spec fn div_spec(self, o: Scalar) -> Scalar {
        match (self, o) {
            (Scalar::Nan, _) => Scalar::Nan,
            (_, Scalar::Nan) => Scalar::Nan,
            (Scalar::Inf { .. }, Scalar::Inf { .. }) => Scalar::Nan,
            (Scalar::Inf { neg: a }, _) => Scalar::Inf { neg: a != o.neg_spec() },
            (_, Scalar::Inf { neg: b }) => Scalar::zero_spec(),
            _ => if o.is_zero_spec() {
                if self.is_zero_spec() {
                    Scalar::Nan
                } else {
                    Scalar::Inf { neg: self.neg_spec() != o.neg_spec() }
                }
            } else if self.is_zero_spec() {
                Scalar::zero_spec()
            } else {
                let c1 = if self.sc() < 0 {
                    -self.sc()
                } else {
                    self.sc()
                };
                let c2 = if o.sc() < 0 {
                    -o.sc()
                } else {
                    o.sc()
                };
                let k = (12 + ndigits(c2) - ndigits(c1)) as nat;
                let q = rhe(c1 * pow10(k), c2);
                scaled(
                    if self.neg_spec() != o.neg_spec() {
                        -q
                    } else {
                        q
                    },
                    self.ex() - o.ex() - k,
                )
            },
        }
    }

    pub fn div(self, o: Scalar) -> (r: Scalar)
        requires
            self.wf(),
            o.wf(),
        ensures
            r == self.div_spec(o),
            r.wf(),
    {
        match (self, o) {
            (Scalar::Nan, _) => Scalar::Nan,
            (_, Scalar::Nan) => Scalar::Nan,
            (Scalar::Inf { .. }, Scalar::Inf { .. }) => Scalar::Nan,
            (Scalar::Inf { neg: a }, _) => Scalar::Inf { neg: a != o.neg_unchecked() },
            (_, Scalar::Inf { .. }) => Scalar::zero(),
            (
                Scalar::Finite { neg: n1, coeff: c1, exp: x1 },
                Scalar::Finite { neg: n2, coeff: c2, exp: x2 },
            ) => {
                if c2 == 0 {
                    if c1 == 0 {
                        Scalar::Nan
                    } else {
                        Scalar::Inf { neg: n1 != n2 }
                    }
                } else if c1 == 0 {
                    Scalar::zero()
                } else {
                    let nd1 = count_digits(c1 as u128);
                    let nd2 = count_digits(c2 as u128);
                    proof {
                        lemma_pow10_values();
                        crate::arith::lemma_ndigits_at_most(c1 as int, 12);
                        crate::arith::lemma_ndigits_at_most(c2 as int, 12);
                    }
                    let k: u32 = 12 + nd2 - nd1;
                    proof {
                        lemma_ndigits_bounds(c1 as int);
                        lemma_ndigits_bounds(c2 as int);
                        lemma_pow10_mono(k as nat, 23);
                        lemma_pow10_pos(k as nat);
                        lemma_pow10_adds(12, 23);
                        lemma_pow10_adds(19, 16);
                        assert((c1 as int) * pow10(k as nat) < pow10(12) * pow10(23))
                            by (nonlinear_arith)
                            requires
                                (c1 as int) < pow10(12),
                                pow10(k as nat) <= pow10(23),
                                pow10(k as nat) >= 1,
                                pow10(23) >= 1,
                        ;
                    }
                    let p = pow10_u128(k);
                    let n: u128 = (c1 as u128) * p;
                    let d: u128 = c2 as u128;
                    let q = n / d;
                    let r = n % d;
                    let q2: u128 = if 2 * r > d {
                        q + 1
                    } else if 2 * r < d {
                        q
                    } else if q % 2 == 0 {
                        q
                    } else {
                        q + 1
                    };
                    proof {
                        assert(q2 as int == rhe(n as int, d as int));
                    }
                    build(n1 != n2, q2, x1 as i64 - x2 as i64 - k as i64)
                }
            },
        }
    }

    /// The sign flag of a value that is not `Nan`.
    pub fn neg_unchecked(&self) -> (r: bool)
        ensures
            r == self.neg_spec(),
    {
        match self {
            Scalar::Nan => false,
            Scalar::Inf { neg } => *neg,
            Scalar::Finite { neg, .. } => *neg,
        }
    }
}

} // verus!
use vstd::prelude::*;

verus! {

/// A nonzero magnitude scaled beyond the largest stored exponent is an
/// infinity, whatever its digits.
pub proof fn lemma_scaled_overflow(s: int, e: int)
    requires
        s != 0,
        e > EXP_MAX as int,
    ensures
        scaled(s, e) == (Scalar::Inf {
            neg: s < 0,
        }),
{
    let m = if s < 0 {
        -s
    } else {
        s
    };
    lemma_squash_props(m, e);
    let sq = squash(m, e);
    lemma_strip_props(sq.0, sq.1);
}

/// A bounded magnitude scaled far below the smallest stored exponent is
/// zero, whatever its digits.
pub proof fn lemma_scaled_underflow(s: int, e: int)
    requires
        -10_000_000_000_000 < s < 10_000_000_000_000,
        e < -430,
    ensures
        scaled(s, e) == Scalar::zero_spec(),
{
    if s != 0 {
        let m = if s < 0 {
            -s
        } else {
            s
        };
        crate::arith::lemma_pow10_values();
        crate::arith::lemma_ndigits_at_most(m, 13);
        lemma_squash_props(m, e);
        let sq = squash(m, e);
        lemma_strip_props(sq.0, sq.1);
        let st = strip_zeros(sq.0, sq.1);
        assert(st.1 == sq.1 + ndigits(sq.0) - ndigits(st.0));
        assert(ndigits(sq.0) <= 13) by {
            crate::arith::lemma_ndigits_at_most(sq.0, 13);
            crate::arith::lemma_pow10_mono(12, 13);
        }
        assert(st.1 <= e + 13 + 13);
    }
}

} // verus!
verus! {

impl Scalar {
    /// Builds the canonical value of `coeff` times ten to `exp`, negated
    /// when `neg` is set.
    pub fn new(neg: bool, coeff: u64, exp: i32) -> (d: Scalar)
        ensures
            d == scaled(
                if neg {
                    -(coeff as int)
                } else {
                    coeff as int
                },
                exp as int,
            ),
            d.wf(),
    {
        build(neg, coeff as u128, exp as i64)
    }
}

} // verus!
verus! {

impl Scalar {
    /// The integer rounding core: the integer part `q` and fraction flag
    /// of a finite value with a negative exponent.
    pub open spec fn int_parts(self) -> (int, int)
        recommends
            self is Finite,
            self.ex() < 0,
    {
        match self {
            Scalar::Finite { coeff, exp, .. } => {
                let k = (-(exp as int)) as nat;
                ((coeff as int) / pow10(k), (coeff as int) % pow10(k))
            },
            _ => (0, 0),
        }
    }

    /// The smallest integer value not below this one.
    pub open spec fn ceil_spec(self) -> Scalar {
        match self {
            Scalar::Finite { neg, coeff, exp } => {
                if exp >= 0 {
                    self
                } else {
                    let qr = self.int_parts();
                    if neg {
                        scaled(-qr.0, 0)
                    } else {
                        scaled(
                            qr.0 + if qr.1 > 0 {
                                1int
                            } else {
                                0int
                            },
                            0,
                        )
                    }
                }
            },
            _ => self,
        }
    }

    /// The largest integer value not above this one.
    pub open spec fn floor_spec(self) -> Scalar {
        match self {
            Scalar::Finite { neg, coeff, exp } => {
                if exp >= 0 {
                    self
                } else {
                    let qr = self.int_parts();
                    if neg {
                        scaled(
                            -(qr.0 + if qr.1 > 0 {
                                1int
                            } else {
                                0int
                            }),
                            0,
                        )
                    } else {
                        scaled(qr.0, 0)
                    }
                }
            },
            _ => self,
        }
    }

    /// The nearest integer value, halves away from zero.
    pub open spec fn round_spec(self) -> Scalar {
        match self {
            Scalar::Finite { neg, coeff, exp } => {
                if exp >= 0 {
                    self
                } else {
                    let k = (-(exp as int)) as nat;
                    let qr = self.int_parts();
                    let t = qr.0 + if 2 * qr.1 >= pow10(k) {
                        1int
                    } else {
                        0int
                    };
                    scaled(
                        if neg {
                            -t
                        } else {
                            t
                        },
                        0,
                    )
                }
            },
            _ => self,
        }
    }

    /// The integer part and fraction flag, computed.
    fn int_parts_exec(coeff: u64, exp: i32) -> (t: (u64, u64, bool))
        requires
            (Scalar::Finite { neg: false, coeff, exp }).wf(),
            exp < 0,
        ensures
            t.0 as int == (Scalar::Finite { neg: false, coeff, exp }).int_parts().0,
            t.1 as int == (Scalar::Finite { neg: false, coeff, exp }).int_parts().1,
            t.2 == (2 * (Scalar::Finite { neg: false, coeff, exp }).int_parts().1 >= pow10(
                (-(exp as int)) as nat,
            )),
            t.0 < 1_000_000_000_000,
    {
        let k: i64 = -(exp as i64);
        proof {
            crate::arith::lemma_pow10_values();
        }
        if k > 13 {
            proof {
                let kk = (k as int) as nat;
                crate::arith::lemma_pow10_mono(13, kk);
                crate::arith::lemma_pow10_pos(kk);
                let pw = pow10(kk);
                assert(coeff as int / pw == 0 && coeff as int % pw == coeff as int)
                    by (nonlinear_arith)
                    requires
                        0 <= (coeff as int),
                        (coeff as int) < pw,
                        pw >= 1,
                ;
                assert(2 * (coeff as int) < pw);
            }
            (0, coeff, false)
        } else {
            let pw = crate::arith::pow10_u64(k as u32);
            proof {
                crate::arith::lemma_pow10_pos(k as nat);
            }
            let q = coeff / pw;
            let r = coeff % pw;
            (q, r, 2 * r >= pw)
        }
    }

    /// Rounds up to an integer value.
    pub fn ceil(self) -> (r: Scalar)
        requires
            self.wf(),
        ensures
            r == self.ceil_spec(),
            r.wf(),
    {
        proof {
            crate::scalar::lemma_scaled_wf(0, 0);
        }
        match self {
            Scalar::Finite { neg, coeff, exp } => {
                if exp >= 0 {
                    self
                } else {
                    let (q, rr, _) = Self::int_parts_exec(coeff, exp);
                    proof {
                        lemma_scaled_wf(
                            if neg {
                                -(q as int)
                            } else {
                                q as int + if rr > 0 {
                                    1int
                                } else {
                                    0int
                                }
                            },
                            0,
                        );
                    }
                    if neg {
                        build(true, q as u128, 0)
                    } else {
                        build(false, (q + if rr > 0 { 1 } else { 0 }) as u128, 0)
                    }
                }
            },
            _ => self,
        }
    }

    /// Rounds down to an integer value.
    pub fn floor(self) -> (r: Scalar)
        requires
            self.wf(),
        ensures
            r == self.floor_spec(),
            r.wf(),
    {
        match self {
            Scalar::Finite { neg, coeff, exp } => {
                if exp >= 0 {
                    self
                } else {
                    let (q, rr, _) = Self::int_parts_exec(coeff, exp);
                    if neg {
                        build(true, (q + if rr > 0 { 1 } else { 0 }) as u128, 0)
                    } else {
                        build(false, q as u128, 0)
                    }
                }
            },
            _ => self,
        }
    }

    /// Rounds to the nearest integer value, halves away from zero.
    pub fn round(self) -> (r: Scalar)
        requires
            self.wf(),
        ensures
            r == self.round_spec(),
            r.wf(),
    {
        match self {
            Scalar::Finite { neg, coeff, exp } => {
                if exp >= 0 {
                    self
                } else {
                    let (q, _, up) = Self::int_parts_exec(coeff, exp);
                    build(neg, (q + if up { 1 } else { 0 }) as u128, 0)
                }
            },
            _ => self,
        }
    }
}

} // verus!
verus! {

/// The value order of two positive finite components, compared exactly
/// at a common exponent.
pub open spec fn pos_lt(c1: int, e1: int, c2: int, e2: int) -> bool {
    let m = if e1 < e2 {
        e1
    } else {
        e2
    };
    c1 * pow10((e1 - m) as nat) < c2 * pow10((e2 - m) as nat)
}

/// A smaller order of magnitude decides the comparison of positive
/// values.
pub proof fn lemma_pos_lt_by_mag(c1: int, e1: int, c2: int, e2: int)
    requires
        c1 >= 1,
        c2 >= 1,
        ndigits(c1) + e1 < ndigits(c2) + e2,
    ensures
        pos_lt(c1, e1, c2, e2),
{
    let m = if e1 < e2 {
        e1
    } else {
        e2
    };
    let nd1 = ndigits(c1);
    let nd2 = ndigits(c2);
    lemma_ndigits_bounds(c1);
    lemma_ndigits_bounds(c2);
    lemma_pow10_pos((e1 - m) as nat);
    lemma_pow10_pos((e2 - m) as nat);
    lemma_pow10_adds(nd1, (e1 - m) as nat);
    lemma_pow10_adds((nd2 - 1) as nat, (e2 - m) as nat);
    assert(c1 * pow10((e1 - m) as nat) < pow10(nd1) * pow10((e1 - m) as nat))
        by (nonlinear_arith)
        requires
            c1 < pow10(nd1),
            pow10((e1 - m) as nat) >= 1,
    ;
    assert(pow10((nd2 - 1) as nat) * pow10((e2 - m) as nat) <= c2 * pow10((e2 - m) as nat))
        by (nonlinear_arith)
        requires
            pow10((nd2 - 1) as nat) <= c2,
            pow10((e2 - m) as nat) >= 1,
    ;
    lemma_pow10_mono((nd1 + e1 - m) as nat, (nd2 - 1 + e2 - m) as nat);
}

/// A positive value measures against a power of ten by its order of
/// magnitude alone.
pub proof fn lemma_mag_vs_pow(c: int, e: int, k: int)
    requires
        c >= 1,
    ensures
        pos_lt(c, e, 1, k) <==> e + ndigits(c) <= k,
{
    let nd = ndigits(c);
    if e + nd <= k {
        assert(ndigits(1) == 1);
        lemma_pos_lt_by_mag(c, e, 1, k);
    }
    if pos_lt(c, e, 1, k) && e + nd > k {
        let m = if e < k {
            e
        } else {
            k
        };
        lemma_ndigits_bounds(c);
        lemma_pow10_adds((nd - 1) as nat, (e - m) as nat);
        lemma_pow10_pos((e - m) as nat);
        assert(pow10((nd - 1) as nat) * pow10((e - m) as nat) <= c * pow10((e - m) as nat))
            by (nonlinear_arith)
            requires
                pow10((nd - 1) as nat) <= c,
                pow10((e - m) as nat) >= 1,
        ;
        lemma_pow10_mono((k - m) as nat, (nd - 1 + e - m) as nat);
        assert(1 * pow10((k - m) as nat) <= c * pow10((e - m) as nat));
    }
}

/// Compares two positive finite components by value.
fn pos_lt_exec(c1: u64, e1: i32, c2: u64, e2: i32) -> (r: bool)
    requires
        1 <= c1 < COEFF_LIMIT,
        1 <= c2 < COEFF_LIMIT,
        EXP_MIN <= e1 <= EXP_MAX,
        EXP_MIN <= e2 <= EXP_MAX,
    ensures
        r == pos_lt(c1 as int, e1 as int, c2 as int, e2 as int),
{
    let nd1 = count_digits(c1 as u128);
    let nd2 = count_digits(c2 as u128);
    proof {
        lemma_pow10_values();
        crate::arith::lemma_ndigits_at_most(c1 as int, 12);
        crate::arith::lemma_ndigits_at_most(c2 as int, 12);
    }
    let mag1: i64 = e1 as i64 + nd1 as i64;
    let mag2: i64 = e2 as i64 + nd2 as i64;
    if mag1 < mag2 {
        proof {
            lemma_pos_lt_by_mag(c1 as int, e1 as int, c2 as int, e2 as int);
        }
        true
    } else if mag2 < mag1 {
        proof {
            lemma_pos_lt_by_mag(c2 as int, e2 as int, c1 as int, e1 as int);
        }
        false
    } else {
        let m: i64 = if e1 < e2 {
            e1 as i64
        } else {
            e2 as i64
        };
        let s1: u32 = (e1 as i64 - m) as u32;
        let s2: u32 = (e2 as i64 - m) as u32;
        proof {
            assert(s1 <= 11 && s2 <= 11);
            lemma_pow10_mono(s1 as nat, 11);
            lemma_pow10_mono(s2 as nat, 11);
            lemma_pow10_pos(s1 as nat);
            lemma_pow10_pos(s2 as nat);
            lemma_pow10_adds(12, 11);
            lemma_pow10_adds(19, 4);
            assert((c1 as int) * (pow10(s1 as nat)) < pow10(12) * pow10(11)) by (nonlinear_arith)
                requires
                    (c1 as int) < pow10(12),
                    pow10(s1 as nat) <= pow10(11),
                    pow10(s1 as nat) >= 1,
                    pow10(11) >= 1,
            ;
            assert((c2 as int) * (pow10(s2 as nat)) < pow10(12) * pow10(11)) by (nonlinear_arith)
                requires
                    (c2 as int) < pow10(12),
                    pow10(s2 as nat) <= pow10(11),
                    pow10(s2 as nat) >= 1,
                    pow10(11) >= 1,
            ;
        }
        let v1: u128 = (c1 as u128) * pow10_u128(s1);
        let v2: u128 = (c2 as u128) * pow10_u128(s2);
        v1 < v2
    }
}

impl Scalar {
    /// The strict value order, with the floating conventions at the
    /// edges: `Nan` compares below nothing and above nothing, and the
    /// infinities bound every finite value.
    pub open spec fn lt_spec(self, o: Scalar) -> bool {
        match (self, o) {
            (Scalar::Nan, _) => false,
            (_, Scalar::Nan) => false,
            (Scalar::Inf { neg: x }, Scalar::Inf { neg: y }) => x && !y,
            (Scalar::Inf { neg: x }, _) => x,
            (_, Scalar::Inf { neg: y }) => !y,
            _ => {
                let m = if self.ex() < o.ex() {
                    self.ex()
                } else {
                    o.ex()
                };
                self.sc() * pow10((self.ex() - m) as nat) < o.sc() * pow10((o.ex() - m) as nat)
            },
        }
    }

    /// Whether this value is strictly below the other.
    pub fn lt(self, o: Scalar) -> (r: bool)
        requires
            self.wf(),
            o.wf(),
        ensures
            r == self.lt_spec(o),
    {
        match (self, o) {
            (Scalar::Nan, _) => false,
            (_, Scalar::Nan) => false,
            (Scalar::Inf { neg: x }, Scalar::Inf { neg: y }) => x && !y,
            (Scalar::Inf { neg: x }, _) => x,
            (_, Scalar::Inf { neg: y }) => !y,
            (
                Scalar::Finite { neg: n1, coeff: c1, exp: x1 },
                Scalar::Finite { neg: n2, coeff: c2, exp: x2 },
            ) => {
                let ghost m: int = if x1 < x2 {
                    x1 as int
                } else {
                    x2 as int
                };
                proof {
                    lemma_pow10_pos((x1 - m) as nat);
                    lemma_pow10_pos((x2 - m) as nat);
                    assert(self.sc() * pow10((x1 - m) as nat) == (if n1 {
                        -((c1 as int) * pow10((x1 - m) as nat))
                    } else {
                        (c1 as int) * pow10((x1 - m) as nat)
                    })) by (nonlinear_arith)
                        requires
                            self.sc() == if n1 {
                                -(c1 as int)
                            } else {
                                c1 as int
                            },
                    ;
                    assert(o.sc() * pow10((x2 - m) as nat) == (if n2 {
                        -((c2 as int) * pow10((x2 - m) as nat))
                    } else {
                        (c2 as int) * pow10((x2 - m) as nat)
                    })) by (nonlinear_arith)
                        requires
                            o.sc() == if n2 {
                                -(c2 as int)
                            } else {
                                c2 as int
                            },
                    ;
                    assert((c1 as int) * pow10((x1 - m) as nat) >= 0 && ((c1 as int) == 0
                        ==> (c1 as int) * pow10((x1 - m) as nat) == 0) && ((c1 as int) >= 1
                        ==> (c1 as int) * pow10((x1 - m) as nat) >= 1)) by (nonlinear_arith)
                        requires
                            (c1 as int) >= 0,
                            pow10((x1 - m) as nat) >= 1,
                    ;
                    assert((c2 as int) * pow10((x2 - m) as nat) >= 0 && ((c2 as int) == 0
                        ==> (c2 as int) * pow10((x2 - m) as nat) == 0) && ((c2 as int) >= 1
                        ==> (c2 as int) * pow10((x2 - m) as nat) >= 1)) by (nonlinear_arith)
                        requires
                            (c2 as int) >= 0,
                            pow10((x2 - m) as nat) >= 1,
                    ;
                }
                if c1 == 0 {
                    !n2 && c2 != 0
                } else if n1 {
                    if c2 == 0 || !n2 {
                        true
                    } else {
                        pos_lt_exec(c2, x2, c1, x1)
                    }
                } else {
                    if c2 == 0 || n2 {
                        false
                    } else {
                        pos_lt_exec(c1, x1, c2, x2)
                    }
                }
            },
        }
    }
}

} // verus!
