use vstd::prelude::*;
use crate::arith::{pow10, ndigits, rhe, lemma_pow10_values, lemma_pow10_pos};
use crate::scalar::{Scalar, scaled, squash, strip_zeros, lemma_strip_props};
use crate::suffix::Suffix;
use crate::number::{
    Number, ParseError, trim_spec, number_parse_spec, is_space, lemma_ws_prefix_is,
    lemma_ws_suffix_is,
};
use crate::text::{
    text_spec, dec_digits, frac_digits, zeros, digit_char, is_digit, lemma_text_round_trip,
    lemma_dec_all_digits, lemma_strip_shift,
};
use crate::registry::UnitTag;
use crate::units::{Unit, UnitNumber, MulRule};

verus! {

/// A string whose first and last characters are not whitespace trims to
/// itself.
proof fn lemma_trim_id(s: Seq<char>)
    requires
        s.len() > 0,
        !is_space(s[0]),
        !is_space(s[s.len() - 1]),
    ensures
        trim_spec(s) == s,
{
    lemma_ws_prefix_is(s, 0);
    assert(s.subrange(0, s.len() as int) =~= s);
    lemma_ws_suffix_is(s, 0);
}

proof fn lemma_dec_last(x: int)
    requires
        x >= 0,
    ensures
        dec_digits(x).len() > 0,
        is_digit(dec_digits(x).last()),
    decreases x,
{
    if x < 10 {
        assert(dec_digits(x) == seq![digit_char(x)]);
        assert(is_digit(digit_char(x)));
    } else {
        assert(is_digit(digit_char(x % 10)));
    }
}

proof fn lemma_frac_last(r: int, f: nat)
    requires
        r >= 0,
        f >= 1,
    ensures
        frac_digits(r, f).len() == f,
        is_digit(frac_digits(r, f).last()),
{
    crate::text::lemma_frac_len(r, f);
    assert(is_digit(digit_char(r % 10)));
}

/// The first character of a scalar's canonical text: a sign, a digit, or
/// the head of a non-finite spelling; never whitespace.
proof fn lemma_text_first(v: Scalar)
    requires
        v.wf(),
    ensures
        text_spec(v).len() > 0,
        !is_space(text_spec(v)[0]),
{
    match v {
        Scalar::Nan => {},
        Scalar::Inf { .. } => {},
        Scalar::Finite { neg, coeff, exp } => {
            let c = coeff as int;
            if !neg {
                if exp >= 0 {
                    lemma_dec_all_digits(c);
                    assert(text_spec(v)[0] == dec_digits(c)[0]);
                } else {
                    let f = (-(exp as int)) as nat;
                    if ndigits(c) > f {
                        lemma_pow10_pos(f);
                        lemma_dec_all_digits(c / pow10(f));
                        assert(text_spec(v)[0] == dec_digits(c / pow10(f))[0]);
                    } else {
                        assert(text_spec(v)[0] == '0');
                    }
                }
            }
        },
    }
}

/// The last character of a scalar's canonical text: a digit, or the tail
/// letter of a non-finite spelling; never whitespace and never a prefix
/// symbol.
proof fn lemma_text_last(v: Scalar)
    requires
        v.wf(),
    ensures
        text_spec(v).len() > 0,
        ({
            let l = text_spec(v).last();
            is_digit(l) || l == 'f' || l == 'N'
        }),
{
    match v {
        Scalar::Nan => {},
        Scalar::Inf { .. } => {},
        Scalar::Finite { neg, coeff, exp } => {
            let c = coeff as int;
            let t = text_spec(v);
            if exp > 0 {
                lemma_dec_last(c);
                assert(t.last() == zeros(exp as nat)[exp - 1]);
                assert(is_digit('0'));
            } else if exp == 0 {
                lemma_dec_last(c);
                assert(zeros(0).len() == 0);
                assert(t.last() == dec_digits(c).last());
            } else {
                let f = (-(exp as int)) as nat;
                if ndigits(c) > f {
                    lemma_pow10_pos(f);
                    lemma_frac_last(c % pow10(f), f);
                    assert(t.last() == frac_digits(c % pow10(f), f).last());
                } else {
                    lemma_frac_last(c, f);
                    assert(t.last() == frac_digits(c, f).last());
                }
            }
        },
    }
}

/// No digit and none of the characters a canonical text ends with is a
/// prefix symbol, so a bare scalar text never loses its tail to the
/// prefix table.
proof fn lemma_tail_not_prefix(c: char)
    requires
        is_digit(c) || c == 'f' || c == 'N',
    ensures
        Suffix::of_char_spec(c) is None,
        !is_space(c),
{
}

/// Round trip at the scaled-number level: reading back the canonical
/// text of any well-formed number gives exactly that number, mantissa
/// and prefix alike.
pub proof fn lemma_number_round_trip(n: Number)
    requires
        n.wf(),
    ensures
        number_parse_spec(n.text_of(None)) == Ok::<Number, ParseError>(n),
{
    let vt = text_spec(n.value);
    let sym = n.suffix.symbol_spec();
    let t = vt + sym;
    lemma_text_first(n.value);
    lemma_text_last(n.value);
    lemma_tail_not_prefix(vt.last());
    if n.suffix is Unity {
        assert(t =~= vt);
        lemma_trim_id(vt);
        assert(Suffix::of_char_spec(vt.last()) is None);
        lemma_text_round_trip(n.value);
    } else {
        assert(sym.len() == 1);
        assert(t.len() == vt.len() + 1);
        assert(t[0] == vt[0]);
        assert(t.last() == sym[0]);
        assert(!is_space(sym[0]));
        lemma_trim_id(t);
        assert(Suffix::of_char_spec(t.last()) == Some(n.suffix));
        assert(t.subrange(0, t.len() - 1) =~= vt);
        lemma_trim_id(vt);
        lemma_text_round_trip(n.value);
    }
}

/// Every unit symbol of the catalog is non-empty and free of leading or
/// trailing whitespace.
proof fn lemma_unit_symbol_shape(u: UnitTag)
    ensures
        u.symbol_spec().len() > 0,
        !is_space(u.symbol_spec()[0]),
        !is_space(u.symbol_spec().last()),
{
}

/// Round trip at the quantity level: for every unit tag and every
/// well-formed quantity, reading back its canonical text gives exactly
/// that quantity. One formatting pass is therefore idempotent under
/// parsing, for every representable value.
pub proof fn lemma_unit_round_trip<U: Unit>(q: UnitNumber<U>)
    requires
        q.wf(),
    ensures
        UnitNumber::<U>::parse_spec_of(q.text_of(None)) == Ok::<UnitNumber<U>, ParseError>(q),
{
    let nt = q.number.text_of(None);
    let sym = U::tag().symbol_spec();
    let t = nt + sym;
    lemma_text_first(q.number.value);
    lemma_text_last(q.number.value);
    lemma_tail_not_prefix(text_spec(q.number.value).last());
    lemma_unit_symbol_shape(U::tag());
    assert(nt.len() > 0);
    assert(t[0] == nt[0]);
    assert(!is_space(t[0])) by {
        if q.number.suffix is Unity {
            assert(nt[0] == text_spec(q.number.value)[0]);
        } else {
            assert(nt[0] == text_spec(q.number.value)[0]);
        }
    }
    assert(t.last() == sym.last());
    lemma_trim_id(t);
    assert(t.subrange(t.len() - sym.len(), t.len() as int) =~= sym);
    assert(t.subrange(0, t.len() - sym.len()) =~= nt);
    lemma_number_round_trip(q.number);
}

/// Dividing a finite nonzero scalar by itself gives exactly one.
pub proof fn lemma_div_self(x: Scalar)
    requires
        x.wf(),
        x is Finite,
        !x.is_zero_spec(),
    ensures
        x.div_spec(x) == Scalar::one_spec(),
{
    lemma_pow10_values();
    match x {
        Scalar::Finite { neg, coeff, exp } => {
            let c = coeff as int;
            let n = c * pow10(12);
            assert(n == pow10(12) * c + 0) by (nonlinear_arith)
                requires
                    n == c * pow10(12),
            ;
            assert(n / c == pow10(12) && n % c == 0) by {
                vstd::arithmetic::div_mod::lemma_fundamental_div_mod_converse(
                    n,
                    c,
                    pow10(12),
                    0,
                );
            }
            assert(rhe(n, c) == pow10(12));
            // the twelve-digit quotient renormalizes to one
            assert(ndigits(pow10(12)) == 13) by {
                crate::arith::lemma_ndigits_of_range(pow10(12), 13);
                assert(pow10(13) == 10_000_000_000_000);
            }
            assert(squash(pow10(12), -12) == (pow10(11), -11)) by {
                assert(rhe(pow10(12), 10) == pow10(11));
            }
            lemma_strip_shift(1, 0, 11);
            assert(pow10(11) == 1 * pow10(11));
            assert(strip_zeros(pow10(11), -11) == (1int, 0int));
        },
        _ => {},
    }
}

/// Same-unit division at the quantity level: a nonzero finite quantity
/// over itself is the dimensionless number one, under the empty prefix.
pub proof fn lemma_same_unit_ratio_one(n: Number)
    requires
        n.wf(),
        n.to_absolute_spec() is Finite,
        !n.to_absolute_spec().is_zero_spec(),
    ensures
        n.div_spec(n) == (Number { value: Scalar::one_spec(), suffix: Suffix::Unity }),
{
    if n.value is Finite {
        crate::scalar::lemma_scaled_wf(
            n.value.sc(),
            n.value.ex() + n.suffix.exponent_spec(),
        );
    }
    lemma_div_self(n.to_absolute_spec());
    assert(ndigits(1) == 1);
}

/// An exact product: when the coefficients' product keeps at most twelve
/// digits and the exponents stay in range, multiplication of scalars
/// introduces no rounding at all, and the product's value is exactly the
/// product of the values.
pub proof fn lemma_mul_exact(a: Scalar, b: Scalar)
    requires
        a.wf(),
        b.wf(),
        a is Finite,
        b is Finite,
        !a.is_zero_spec(),
        !b.is_zero_spec(),
        ndigits(
            if a.sc() * b.sc() < 0 {
                -(a.sc() * b.sc())
            } else {
                a.sc() * b.sc()
            },
        ) <= 12,
        -400 <= a.ex() + b.ex(),
        a.ex() + b.ex() + 12 <= 400,
    ensures
        a.mul_spec(b) is Finite,
        a.mul_spec(b).sc() * pow10((a.mul_spec(b).ex() - a.ex() - b.ex()) as nat) == a.sc()
            * b.sc(),
        a.mul_spec(b).ex() >= a.ex() + b.ex(),
        a.mul_spec(b).wf(),
{
    lemma_pow10_values();
    let s = a.sc() * b.sc();
    let m = if s < 0 {
        -s
    } else {
        s
    };
    assert(s != 0 && m >= 1) by (nonlinear_arith)
        requires
            s == a.sc() * b.sc(),
            a.sc() != 0,
            b.sc() != 0,
            m == if s < 0 {
                -s
            } else {
                s
            },
    ;
    let e = a.ex() + b.ex();
    assert(ndigits(m) <= 12);
    assert(squash(m, e) == (m, e));
    lemma_strip_props(m, e);
    let st = strip_zeros(m, e);
    crate::arith::lemma_ndigits_bounds(m);
    crate::arith::lemma_ndigits_bounds(st.0);
    assert(st.1 <= e + 12);
    assert(st.0 < pow10(12)) by {
        crate::arith::lemma_ndigits_mono(st.0, m);
        crate::arith::lemma_pow10_mono(ndigits(st.0), 12);
    }
    crate::scalar::lemma_scaled_wf(s, e);
    assert(a.mul_spec(b) == scaled(s, e));
    let k = (st.1 - e) as nat;
    if s < 0 {
        let r = Scalar::Finite { neg: true, coeff: st.0 as u64, exp: st.1 as i32 };
        assert(scaled(s, e) == r);
        assert(r.sc() == -st.0);
        assert((-st.0) * pow10(k) == -(st.0 * pow10(k))) by (nonlinear_arith);
        assert(st.0 * pow10(k) == m);
    } else {
        let r = Scalar::Finite { neg: false, coeff: st.0 as u64, exp: st.1 as i32 };
        assert(scaled(s, e) == r);
        assert(st.0 * pow10(k) == m);
    }
}

/// Dimensional consistency of a registered product at the quantity
/// level: the result's tag is the registry's output for the operand
/// tags, and the result's absolute value is exactly the scalar product
/// of the operands' absolute values, rounding included.
pub proof fn lemma_product_dimensions<U: MulRule<R>, R: Unit>(
    a: UnitNumber<U>,
    b: UnitNumber<R>,
)
    requires
        a.wf(),
        b.wf(),
    ensures
        crate::registry::output_of_spec(U::tag(), R::tag()) == Some(
            <U as MulRule<R>>::Output::tag(),
        ),
        a.number.mul_spec(b.number).to_absolute_spec() == a.number.to_absolute_spec().mul_spec(
            b.number.to_absolute_spec(),
        ),
{
    <U as MulRule<R>>::rule_registered();
    let p = a.number.to_absolute_spec().mul_spec(b.number.to_absolute_spec());
    crate::scalar::lemma_scaled_wf(
        a.number.value.sc(),
        a.number.value.ex() + a.number.suffix.exponent_spec(),
    );
    crate::scalar::lemma_scaled_wf(
        b.number.value.sc(),
        b.number.value.ex() + b.number.suffix.exponent_spec(),
    );
    assert(p.wf()) by {
        if p is Finite {
            crate::scalar::lemma_scaled_wf(p.sc(), p.ex());
            lemma_mul_wf(a.number.to_absolute_spec(), b.number.to_absolute_spec());
        }
    }
    Number::lemma_normalize_preserves_value(p);
}

/// The product of two well-formed scalars is well-formed.
proof fn lemma_mul_wf(a: Scalar, b: Scalar)
    requires
        a.wf(),
        b.wf(),
    ensures
        a.mul_spec(b).wf(),
{
    match (a, b) {
        (Scalar::Finite { .. }, Scalar::Finite { .. }) => {
            crate::scalar::lemma_scaled_wf(a.sc() * b.sc(), a.ex() + b.ex());
        },
        _ => {},
    }
}

} // verus!
verus! {

/// The normalization rule, as the design states it: the chosen prefix is
/// the largest whose factor does not exceed the absolute value. For a
/// value below every factor, the scan falls through to the empty prefix
/// with the value kept as its own mantissa.
pub proof fn lemma_normalize_picks_largest(v: Scalar)
    requires
        v.wf(),
        v is Finite,
        !v.is_zero_spec(),
    ensures
        v.magnitude() > -12 ==> !crate::scalar::pos_lt(
            v.sc() * (if v.neg_spec() {
                -1int
            } else {
                1int
            }),
            v.ex(),
            1,
            Number::from_absolute_spec(v).suffix.exponent_spec(),
        ),
        forall|s: Suffix|
            (#[trigger] s.exponent_spec()) > Number::from_absolute_spec(v).suffix.exponent_spec()
                && (v.magnitude() > -12 || s.exponent_spec() > 0) ==> crate::scalar::pos_lt(
                v.sc() * (if v.neg_spec() {
                    -1int
                } else {
                    1int
                }),
                v.ex(),
                1,
                s.exponent_spec(),
            ),
        v.magnitude() <= -12 ==> Number::from_absolute_spec(v).suffix == Suffix::Unity,
{
    match v {
        Scalar::Finite { neg, coeff, exp } => {
            let c = coeff as int;
            let m = if neg {
                -v.sc()
            } else {
                v.sc()
            };
            assert(m == c);
            assert(v.sc() * (if v.neg_spec() {
                -1int
            } else {
                1int
            }) == c) by (nonlinear_arith)
                requires
                    v.sc() == if v.neg_spec() {
                        -c
                    } else {
                        c
                    },
            ;
            let mag = v.magnitude();
            let chosen = Number::from_absolute_spec(v).suffix;
            if mag > -12 {
                crate::scalar::lemma_mag_vs_pow(c, exp as int, chosen.exponent_spec());
            }
            assert forall|s: Suffix|
                s.exponent_spec() > chosen.exponent_spec() && (mag > -12 || s.exponent_spec()
                    > 0) implies crate::scalar::pos_lt(
                c,
                exp as int,
                1,
                s.exponent_spec(),
            ) by {
                crate::scalar::lemma_mag_vs_pow(c, exp as int, s.exponent_spec());
            }
        },
        _ => {},
    }
}

} // verus!
