use vstd::prelude::*;
use vstd::string::{StrSliceExecFns, StringExecFns};
use crate::arith::{ndigits, lemma_ndigits_at_most, lemma_pow10_values};
use crate::scalar::{Scalar, scaled, build, strip_zeros, squash};
use crate::suffix::Suffix;
use crate::text::{text_spec, prec_text_spec, parse_spec};

verus! {

/// A canonical scalar renormalizes to itself: rounding, stripping and
/// clamping all leave it unchanged.
pub proof fn lemma_scaled_canonical(v: Scalar)
    requires
        v.wf(),
        v is Finite,
    ensures
        scaled(v.sc(), v.ex()) == v,
{
    match v {
        Scalar::Finite { neg, coeff, exp } => {
            if coeff != 0 {
                lemma_pow10_values();
                lemma_ndigits_at_most(coeff as int, 12);
                assert(squash(coeff as int, exp as int) == (coeff as int, exp as int));
                assert(strip_zeros(coeff as int, exp as int) == (coeff as int, exp as int));
            }
        },
        _ => {},
    }
}

/// A scaled number: a scalar mantissa paired with an SI prefix, standing
/// for the mantissa times the prefix's power-of-ten factor.
#[derive(Debug, Clone, Copy, PartialEq, Eq, Structural)]
pub struct Number {
    pub value: Scalar,
    pub suffix: Suffix,
}

/// The error a failed read of a number or quantity reports.
#[derive(Debug, Clone, Copy, PartialEq, Eq, Structural)]
pub enum ParseError {
    /// The numeric head of the input is not a valid literal.
    InvalidNumericLiteral,
    /// The input does not end with the expected unit symbol.
    UnitMismatch { expected: crate::registry::UnitTag },
}

impl ParseError {
    /// The text of the error.
    pub open spec fn message_spec(self) -> Seq<char> {
        match self {
            ParseError::InvalidNumericLiteral => seq![
                'i',
                'n',
                'v',
                'a',
                'l',
                'i',
                'd',
                ' ',
                'n',
                'u',
                'm',
                'e',
                'r',
                'i',
                'c',
                ' ',
                'l',
                'i',
                't',
                'e',
                'r',
                'a',
                'l',
            ],
            ParseError::UnitMismatch { expected } => seq![
                'E',
                'x',
                'p',
                'e',
                'c',
                't',
                ' ',
                'e',
                'n',
                'd',
                ' ',
                'w',
                'i',
                't',
                'h',
                ' ',
                '\'',
            ] + expected.symbol_spec() + seq!['\''],
        }
    }

    /// Renders the error text.
    pub fn message(&self) -> (r: String)
        ensures
            r@ == self.message_spec(),
    {
        proof {
            reveal_strlit("invalid numeric literal");
            reveal_strlit("Expect end with '");
            reveal_strlit("'");
        }
        match self {
            ParseError::InvalidNumericLiteral => {
                let r = String::from_str("invalid numeric literal");
                proof {
                    assert(r@ =~= self.message_spec());
                }
                r
            },
            ParseError::UnitMismatch { expected } => {
                let mut r = String::from_str("Expect end with '");
                r.append(expected.symbol());
                r.append("'");
                proof {
                    assert(r@ =~= self.message_spec());
                }
                r
            },
        }
    }
}

impl Number {
    pub open spec fn wf(self) -> bool {
        self.value.wf()
    }

    /// The absolute value the pair stands for: the mantissa shifted by
    /// the prefix's exponent, renormalized only at the representation's
    /// outer bounds.
    pub open spec fn to_absolute_spec(self) -> Scalar {
        match self.value {
            Scalar::Finite { .. } => scaled(
                self.value.sc(),
                self.value.ex() + self.suffix.exponent_spec(),
            ),
            _ => self.value,
        }
    }

    /// The normalization rule: the largest prefix whose factor is at
    /// most the absolute value, tried from `Giga` down to `Pico`; a
    /// value below every factor, zero among them, keeps the empty
    /// prefix. The chosen mantissa is the value divided by the factor,
    /// an exact exponent shift here.
    pub open spec fn from_absolute_spec(v: Scalar) -> Number {
        match v {
            Scalar::Nan => Number { value: v, suffix: Suffix::Unity },
            Scalar::Inf { .. } => Number { value: v, suffix: Suffix::Giga },
            Scalar::Finite { neg, coeff, exp } => {
                if coeff == 0 {
                    Number { value: v, suffix: Suffix::Unity }
                } else {
                    let mag = exp + ndigits(coeff as int);
                    let sfx = if mag > 9 {
                        Suffix::Giga
                    } else if mag > 6 {
                        Suffix::Mega
                    } else if mag > 3 {
                        Suffix::Kilo
                    } else if mag > 0 {
                        Suffix::Unity
                    } else if mag > -3 {
                        Suffix::Milli
                    } else if mag > -6 {
                        Suffix::Micro
                    } else if mag > -9 {
                        Suffix::Nano
                    } else if mag > -12 {
                        Suffix::Pico
                    } else {
                        Suffix::Unity
                    };
                    Number {
                        value: Scalar::Finite {
                            neg,
                            coeff,
                            exp: (exp - sfx.exponent_spec()) as i32,
                        },
                        suffix: sfx,
                    }
                }
            },
        }
    }

    /// Wraps a mantissa and a prefix as given, without renormalizing.
    pub fn new(value: Scalar, suffix: Suffix) -> (r: Number)
        ensures
            r == (Number { value, suffix }),
    {
        Number { value, suffix }
    }

    /// The absolute value the pair stands for.
    pub fn to_absolute(&self) -> (r: Scalar)
        requires
            self.wf(),
        ensures
            r == self.to_absolute_spec(),
            r.wf(),
    {
        match self.value {
            Scalar::Finite { neg, coeff, exp } => {
                let k = self.suffix.factor();
                build(neg, coeff as u128, exp as i64 + k as i64)
            },
            _ => self.value,
        }
    }

    /// Renormalizes an absolute value into mantissa-and-prefix form.
    pub fn from_absolute(v: Scalar) -> (r: Number)
        requires
            v.wf(),
        ensures
            r == Number::from_absolute_spec(v),
            r.wf(),
    {
        match v {
            Scalar::Nan => Number { value: v, suffix: Suffix::Unity },
            Scalar::Inf { .. } => Number { value: v, suffix: Suffix::Giga },
            Scalar::Finite { neg, coeff, exp } => {
                if coeff == 0 {
                    Number { value: v, suffix: Suffix::Unity }
                } else {
                    let nd = crate::arith::count_digits(coeff as u128);
                    proof {
                        lemma_pow10_values();
                        lemma_ndigits_at_most(coeff as int, 12);
                    }
                    let mag: i64 = exp as i64 + nd as i64;
                    let sfx = if mag > 9 {
                        Suffix::Giga
                    } else if mag > 6 {
                        Suffix::Mega
                    } else if mag > 3 {
                        Suffix::Kilo
                    } else if mag > 0 {
                        Suffix::Unity
                    } else if mag > -3 {
                        Suffix::Milli
                    } else if mag > -6 {
                        Suffix::Micro
                    } else if mag > -9 {
                        Suffix::Nano
                    } else if mag > -12 {
                        Suffix::Pico
                    } else {
                        Suffix::Unity
                    };
                    let k = sfx.factor();
                    Number {
                        value: Scalar::Finite { neg, coeff, exp: exp - k },
                        suffix: sfx,
                    }
                }
            },
        }
    }

    /// Renormalizing never changes the value: shifting the exponent into
    /// the mantissa and scaling by the prefix factor cancel exactly.
    pub proof fn lemma_normalize_preserves_value(v: Scalar)
        requires
            v.wf(),
        ensures
            Number::from_absolute_spec(v).to_absolute_spec() == v,
            Number::from_absolute_spec(v).wf(),
    {
        match v {
            Scalar::Finite { neg, coeff, exp } => {
                if coeff == 0 {
                    lemma_scaled_canonical(v);
                } else {
                    lemma_pow10_values();
                    lemma_ndigits_at_most(coeff as int, 12);
                    lemma_scaled_canonical(v);
                }
            },
            _ => {},
        }
    }

    pub fn zero() -> (r: Number)
        ensures
            r == (Number { value: Scalar::zero_spec(), suffix: Suffix::Unity }),
            r.wf(),
    {
        Number { value: Scalar::zero(), suffix: Suffix::Unity }
    }

    /// Whether the stored mantissa is zero.
    pub fn is_zero(&self) -> (r: bool)
        ensures
            r == self.value.is_zero_spec(),
    {
        self.value.is_zero()
    }

    pub fn is_nan(&self) -> (r: bool)
        requires
            self.wf(),
        ensures
            r == self.to_absolute_spec().is_nan_spec(),
    {
        proof {
            // scaling a finite mantissa can overflow to an infinity or
            // underflow to zero, but never produce a quiet failure
            if self.value is Finite {
                assert(!(self.to_absolute_spec() is Nan));
            }
        }
        self.value.is_nan()
    }

    pub fn is_finite(&self) -> (r: bool)
        requires
            self.wf(),
        ensures
            r == self.to_absolute_spec().is_finite_spec(),
    {
        let a = self.to_absolute();
        a.is_finite()
    }

    /// The mantissa's magnitude under the same prefix.
    pub fn abs(&self) -> (r: Number)
        requires
            self.wf(),
        ensures
            r == (Number { value: self.value.abs_spec(), suffix: self.suffix }),
            r.wf(),
    {
        Number { value: self.value.abs(), suffix: self.suffix }
    }

    /// The same magnitude under the opposite sign, prefix kept.
    pub fn neg(&self) -> (r: Number)
        requires
            self.wf(),
        ensures
            r == (Number { value: self.value.negated_spec(), suffix: self.suffix }),
            r.wf(),
    {
        Number { value: self.value.negated(), suffix: self.suffix }
    }

    /// The sum: both operands are taken to their absolute values, added,
    /// and the result is renormalized afresh.
    pub open spec fn add_spec(self, o: Number) -> Number {
        Number::from_absolute_spec(self.to_absolute_spec().add_spec(o.to_absolute_spec()))
    }

    pub fn add(self, o: Number) -> (r: Number)
        requires
            self.wf(),
            o.wf(),
        ensures
            r == self.add_spec(o),
            r.wf(),
    {
        Number::from_absolute(self.to_absolute().add(o.to_absolute()))
    }

    /// The difference, renormalized afresh.
    pub open spec fn sub_spec(self, o: Number) -> Number {
        Number::from_absolute_spec(self.to_absolute_spec().sub_spec(o.to_absolute_spec()))
    }

    pub fn sub(self, o: Number) -> (r: Number)
        requires
            self.wf(),
            o.wf(),
        ensures
            r == self.sub_spec(o),
            r.wf(),
    {
        Number::from_absolute(self.to_absolute().sub(o.to_absolute()))
    }

    /// The product, renormalized afresh.
    pub open spec fn mul_spec(self, o: Number) -> Number {
        Number::from_absolute_spec(self.to_absolute_spec().mul_spec(o.to_absolute_spec()))
    }

    pub fn mul(self, o: Number) -> (r: Number)
        requires
            self.wf(),
            o.wf(),
        ensures
            r == self.mul_spec(o),
            r.wf(),
    {
        Number::from_absolute(self.to_absolute().mul(o.to_absolute()))
    }

    /// The quotient, renormalized afresh; division by zero follows the
    /// scalar's convention and propagates an infinity or `NaN` rather
    /// than failing.
    pub open spec fn div_spec(self, o: Number) -> Number {
        Number::from_absolute_spec(self.to_absolute_spec().div_spec(o.to_absolute_spec()))
    }

    pub fn div(self, o: Number) -> (r: Number)
        requires
            self.wf(),
            o.wf(),
        ensures
            r == self.div_spec(o),
            r.wf(),
    {
        Number::from_absolute(self.to_absolute().div(o.to_absolute()))
    }
}

} // verus!
verus! {

/// Whether a character counts as trimmable whitespace.
pub open spec fn is_space(c: char) -> bool {
    c == ' ' || c == '\t' || c == '\n' || c == '\r'
}

/// The length of the leading whitespace run.
pub open spec fn ws_prefix(s: Seq<char>) -> int
    decreases s.len(),
{
    if s.len() > 0 && is_space(s[0]) {
        1 + ws_prefix(s.subrange(1, s.len() as int))
    } else {
        0
    }
}

/// The length of the trailing whitespace run.
pub open spec fn ws_suffix(s: Seq<char>) -> int
    decreases s.len(),
{
    if s.len() > 0 && is_space(s[s.len() - 1]) {
        1 + ws_suffix(s.subrange(0, s.len() - 1))
    } else {
        0
    }
}

/// The input with leading and trailing whitespace removed.
pub open spec fn trim_spec(s: Seq<char>) -> Seq<char> {
    let a = ws_prefix(s);
    let u = s.subrange(a, s.len() as int);
    u.subrange(0, u.len() - ws_suffix(u))
}

pub proof fn lemma_ws_prefix_is(s: Seq<char>, k: int)
    requires
        0 <= k <= s.len(),
        forall|j: int| 0 <= j < k ==> is_space(s[j]),
        k == s.len() || !is_space(s[k]),
    ensures
        ws_prefix(s) == k,
    decreases k,
{
    if k == 0 {
    } else {
        let tail = s.subrange(1, s.len() as int);
        assert(forall|j: int| 0 <= j < k - 1 ==> is_space(tail[j]));
        lemma_ws_prefix_is(tail, k - 1);
    }
}

pub proof fn lemma_ws_suffix_is(s: Seq<char>, k: int)
    requires
        0 <= k <= s.len(),
        forall|j: int| s.len() - k <= j < s.len() ==> is_space(s[j]),
        k == s.len() || !is_space(s[s.len() - k - 1]),
    ensures
        ws_suffix(s) == k,
    decreases k,
{
    if k == 0 {
    } else {
        let head = s.subrange(0, s.len() - 1);
        assert(is_space(s[s.len() - 1]));
        assert(forall|j: int| head.len() - (k - 1) <= j < head.len() ==> is_space(head[j]));
        lemma_ws_suffix_is(head, k - 1);
    }
}

/// Removes leading and trailing whitespace.
pub fn trim(s: &str) -> (r: &str)
    ensures
        r@ == trim_spec(s@),
{
    let n = s.unicode_len();
    let mut a: usize = 0;
    loop
        invariant
            n == s@.len(),
            0 <= a <= n,
            forall|j: int| 0 <= j < a ==> is_space(s@[j]),
        ensures
            0 <= a <= n,
            forall|j: int| 0 <= j < a ==> is_space(s@[j]),
            a == n || !is_space(s@[a as int]),
        decreases n - a,
    {
        if a >= n {
            break ;
        }
        let c = s.get_char(a);
        if !(c == ' ' || c == '\t' || c == '\n' || c == '\r') {
            break ;
        }
        a = a + 1;
    }
    proof {
        lemma_ws_prefix_is(s@, a as int);
    }
    let mut b: usize = n;
    loop
        invariant
            n == s@.len(),
            a <= b <= n,
            forall|j: int| b <= j < n ==> is_space(s@[j]),
        ensures
            a <= b <= n,
            forall|j: int| b <= j < n ==> is_space(s@[j]),
            b == a || !is_space(s@[b - 1]),
        decreases b,
    {
        if b <= a {
            break ;
        }
        let c = s.get_char(b - 1);
        if !(c == ' ' || c == '\t' || c == '\n' || c == '\r') {
            break ;
        }
        b = b - 1;
    }
    proof {
        let u = s@.subrange(a as int, n as int);
        assert(forall|j: int| u.len() - (n - b) <= j < u.len() ==> is_space(u[j]));
        if b > a {
            assert(u[u.len() - (n - b) - 1] == s@[b - 1]);
        }
        lemma_ws_suffix_is(u, n as int - b as int);
        assert(u.subrange(0, u.len() - (n - b)) =~= s@.subrange(a as int, b as int));
    }
    s.substring_char(a, b)
}

/// The result of reading a scaled number: the trimmed input's last
/// character is taken as a prefix symbol when the table recognizes it,
/// and the rest, trimmed again, must be a scalar literal; with no
/// recognized symbol the whole trimmed input must be one — falling back
/// to the empty prefix is intentional and is never an error. Because every
/// prefix symbol is a single character and the symbols are distinct,
/// this one lookup realizes the fixed priority scan over
/// `G, M, K, k, m, u, n, p` exactly, first match winning.
pub open spec fn number_parse_spec(t: Seq<char>) -> Result<Number, ParseError> {
    let tr = trim_spec(t);
    if tr.len() > 0 && Suffix::of_char_spec(tr[tr.len() - 1]) is Some {
        let sfx = Suffix::of_char_spec(tr[tr.len() - 1])->0;
        let head = trim_spec(tr.subrange(0, tr.len() - 1));
        match parse_spec(head) {
            Option::Some(v) => Ok(Number { value: v, suffix: sfx }),
            Option::None => Err(ParseError::InvalidNumericLiteral),
        }
    } else {
        match parse_spec(tr) {
            Option::Some(v) => Ok(Number { value: v, suffix: Suffix::Unity }),
            Option::None => Err(ParseError::InvalidNumericLiteral),
        }
    }
}

impl Number {
    /// Reads a scaled number from text.
    pub fn from_str(s: &str) -> (r: Result<Number, ParseError>)
        ensures
            r == number_parse_spec(s@),
            r matches Ok(n) ==> n.wf(),
    {
        let t = trim(s);
        let n = t.unicode_len();
        if n > 0 {
            match Suffix::of_char(t.get_char(n - 1)) {
                Some(sfx) => {
                    let head0 = t.substring_char(0, n - 1);
                    let head = trim(head0);
                    match Scalar::parse(head) {
                        Some(v) => Ok(Number { value: v, suffix: sfx }),
                        None => Err(ParseError::InvalidNumericLiteral),
                    }
                },
                None => {
                    match Scalar::parse(t) {
                        Some(v) => Ok(Number { value: v, suffix: Suffix::Unity }),
                        None => Err(ParseError::InvalidNumericLiteral),
                    }
                },
            }
        } else {
            match Scalar::parse(t) {
                Some(v) => Ok(Number { value: v, suffix: Suffix::Unity }),
                None => Err(ParseError::InvalidNumericLiteral),
            }
        }
    }

    /// The text of a scaled number: the mantissa's text, at the given
    /// precision when one is given, followed by the prefix's canonical
    /// symbol.
    pub open spec fn text_of(self, prec: Option<usize>) -> Seq<char> {
        (match prec {
            Option::None => text_spec(self.value),
            Option::Some(p) => prec_text_spec(self.value, p as nat),
        }) + self.suffix.symbol_spec()
    }

    /// Renders the number, with the mantissa at the given precision when
    /// one is given.
    pub fn format(&self, prec: Option<usize>) -> (r: String)
        requires
            self.wf(),
        ensures
            r@ == self.text_of(prec),
    {
        let mut out = match prec {
            Option::Some(p) => self.value.to_text_prec(p),
            Option::None => self.value.to_text(),
        };
        out.append(self.suffix.name());
        out
    }
}

} // verus!
verus! {

impl Number {
    /// Rounds the mantissa up to an integer, prefix kept.
    pub fn ceil(&self) -> (r: Number)
        requires
            self.wf(),
        ensures
            r == (Number { value: self.value.ceil_spec(), suffix: self.suffix }),
            r.wf(),
    {
        Number { value: self.value.ceil(), suffix: self.suffix }
    }

    /// Rounds the mantissa down to an integer, prefix kept.
    pub fn floor(&self) -> (r: Number)
        requires
            self.wf(),
        ensures
            r == (Number { value: self.value.floor_spec(), suffix: self.suffix }),
            r.wf(),
    {
        Number { value: self.value.floor(), suffix: self.suffix }
    }

    /// Rounds the mantissa to the nearest integer, halves away from
    /// zero, prefix kept.
    pub fn round(&self) -> (r: Number)
        requires
            self.wf(),
        ensures
            r == (Number { value: self.value.round_spec(), suffix: self.suffix }),
            r.wf(),
    {
        Number { value: self.value.round(), suffix: self.suffix }
    }

    /// Whether two numbers stand for the same absolute value. Canonical
    /// form is unique, so this is exactly equality of the absolute
    /// values as represented; each non-finite kind compares equal to
    /// itself.
    pub fn value_eq(&self, o: &Number) -> (r: bool)
        requires
            self.wf(),
            o.wf(),
        ensures
            r == (self.to_absolute_spec() == o.to_absolute_spec()),
    {
        let a = self.to_absolute();
        let b = o.to_absolute();
        a == b
    }
}

} // verus!
verus! {

impl Number {
    /// The strict order on absolute values: two numbers compare by what
    /// they stand for, never by their stored mantissa or prefix.
    pub fn lt(&self, o: &Number) -> (r: bool)
        requires
            self.wf(),
            o.wf(),
        ensures
            r == self.to_absolute_spec().lt_spec(o.to_absolute_spec()),
    {
        let a = self.to_absolute();
        let b = o.to_absolute();
        a.lt(b)
    }
}

} // verus!
verus! {

impl Number {
    /// The sum with a bare scalar value, renormalized afresh.
    pub fn add_value(self, rhs: Scalar) -> (r: Number)
        requires
            self.wf(),
            rhs.wf(),
        ensures
            r == Number::from_absolute_spec(self.to_absolute_spec().add_spec(rhs)),
            r.wf(),
    {
        Number::from_absolute(self.to_absolute().add(rhs))
    }

    /// The difference with a bare scalar value, renormalized afresh.
    pub fn sub_value(self, rhs: Scalar) -> (r: Number)
        requires
            self.wf(),
            rhs.wf(),
        ensures
            r == Number::from_absolute_spec(self.to_absolute_spec().sub_spec(rhs)),
            r.wf(),
    {
        Number::from_absolute(self.to_absolute().sub(rhs))
    }

    /// The product with a bare scalar value, renormalized afresh.
    pub fn mul_value(self, rhs: Scalar) -> (r: Number)
        requires
            self.wf(),
            rhs.wf(),
        ensures
            r == Number::from_absolute_spec(self.to_absolute_spec().mul_spec(rhs)),
            r.wf(),
    {
        Number::from_absolute(self.to_absolute().mul(rhs))
    }

    /// The quotient by a bare scalar value, renormalized afresh.
    pub fn div_value(self, rhs: Scalar) -> (r: Number)
        requires
            self.wf(),
            rhs.wf(),
        ensures
            r == Number::from_absolute_spec(self.to_absolute_spec().div_spec(rhs)),
            r.wf(),
    {
        Number::from_absolute(self.to_absolute().div(rhs))
    }
}

} // verus!
verus! {

impl Number {
    /// Wraps an integer as a number under the empty prefix.
    pub fn from_int(v: i64) -> (r: Number)
        ensures
            r == (Number {
                value: crate::scalar::scaled(v as int, 0),
                suffix: Suffix::Unity,
            }),
            r.wf(),
    {
        let neg = v < 0;
        let mag: u128 = if v < 0 {
            if v == i64::MIN {
                9_223_372_036_854_775_808u128
            } else {
                (-v) as u128
            }
        } else {
            v as u128
        };
        Number { value: build(neg, mag, 0), suffix: Suffix::Unity }
    }
}

} // verus!
