use vstd::prelude::*;
use crate::arith::{
    pow10, ndigits, rhe, pow10_u64, count_digits, lemma_pow10_values, lemma_pow10_pos,
    lemma_pow10_mono, lemma_pow10_adds, lemma_ndigits_bounds, lemma_ndigits_at_most,
};
use crate::scalar::{Scalar, scaled, squash, strip_zeros};

verus! {

/// The character for one decimal digit.
pub open spec fn digit_char(d: int) -> char {
    if d == 0 {
        '0'
    } else if d == 1 {
        '1'
    } else if d == 2 {
        '2'
    } else if d == 3 {
        '3'
    } else if d == 4 {
        '4'
    } else if d == 5 {
        '5'
    } else if d == 6 {
        '6'
    } else if d == 7 {
        '7'
    } else if d == 8 {
        '8'
    } else {
        '9'
    }
}

/// The decimal digit string of a nonnegative integer, most significant
/// digit first.
pub open spec fn dec_digits(n: int) -> Seq<char>
    decreases n,
{
    if n < 10 {
        seq![digit_char(n)]
    } else {
        dec_digits(n / 10).push(digit_char(n % 10))
    }
}

/// A run of zero characters.
pub open spec fn zeros(k: nat) -> Seq<char> {
    Seq::new(k, |i: int| '0')
}

/// The last `f` decimal digits of a nonnegative integer, zero-padded on
/// the left: the fractional digit block of a formatted value.
pub open spec fn frac_digits(r: int, f: nat) -> Seq<char>
    decreases f,
{
    if f == 0 {
        Seq::<char>::empty()
    } else {
        frac_digits(r / 10, (f - 1) as nat).push(digit_char(r % 10))
    }
}

/// The canonical text of a scalar: the digit expansion of the
/// coefficient with the decimal point placed by the exponent, a leading
/// minus for a negative value, and `NaN`, `inf` and `-inf` for the
/// non-finite kinds. No exponent notation is ever emitted.
pub open spec fn text_spec(s: Scalar) -> Seq<char> {
    match s {
        Scalar::Nan => seq!['N', 'a', 'N'],
        Scalar::Inf { neg } => if neg {
            seq!['-', 'i', 'n', 'f']
        } else {
            seq!['i', 'n', 'f']
        },
        Scalar::Finite { neg, coeff, exp } => {
            let body = if exp >= 0 {
                dec_digits(coeff as int) + zeros(exp as nat)
            } else {
                let f = (-(exp as int)) as nat;
                if ndigits(coeff as int) > f {
                    dec_digits(coeff as int / pow10(f)) + seq!['.'] + frac_digits(
                        coeff as int % pow10(f),
                        f,
                    )
                } else {
                    seq!['0', '.'] + frac_digits(coeff as int, f)
                }
            };
            if neg {
                seq!['-'] + body
            } else {
                body
            }
        },
    }
}

/// The digit text of one digit value.
fn digit_str(d: u64) -> (r: &'static str)
    requires
        d <= 9,
    ensures
        r@ == seq![digit_char(d as int)],
{
    proof {
        reveal_strlit("0");
        reveal_strlit("1");
        reveal_strlit("2");
        reveal_strlit("3");
        reveal_strlit("4");
        reveal_strlit("5");
        reveal_strlit("6");
        reveal_strlit("7");
        reveal_strlit("8");
        reveal_strlit("9");
    }
    let r = match d {
        0 => "0",
        1 => "1",
        2 => "2",
        3 => "3",
        4 => "4",
        5 => "5",
        6 => "6",
        7 => "7",
        8 => "8",
        _ => "9",
    };
    proof {
        assert(r@ =~= seq![digit_char(d as int)]);
    }
    r
}

/// Appends the decimal digit string of a nonnegative integer.
fn push_digits(out: &mut String, n: u128)
    ensures
        final(out)@ == old(out)@ + dec_digits(n as int),
    decreases n,
{
    if n < 10 {
        out.append(digit_str(n as u64));
    } else {
        push_digits(out, n / 10);
        out.append(digit_str((n % 10) as u64));
        proof {
            assert(out@ =~= old(out)@ + dec_digits(n as int));
        }
    }
}

/// Appends a run of zero characters.
fn push_zeros(out: &mut String, k: usize)
    ensures
        final(out)@ == old(out)@ + zeros(k as nat),
{
    let mut i: usize = 0;
    while i < k
        invariant
            i <= k,
            out@ == old(out)@ + zeros(i as nat),
        decreases k - i,
    {
        out.append(digit_str(0));
        i = i + 1;
        proof {
            assert(old(out)@ + zeros((i - 1) as nat) + seq!['0'] =~= old(out)@ + zeros(i as nat));
        }
    }
    proof {
        assert(out@ =~= old(out)@ + zeros(k as nat));
    }
}

/// Appends the last `f` digits of a nonnegative integer, zero-padded.
fn push_frac(out: &mut String, r: u128, f: usize)
    ensures
        final(out)@ == old(out)@ + frac_digits(r as int, f as nat),
    decreases f,
{
    if f == 0 {
    } else {
        push_frac(out, r / 10, f - 1);
        out.append(digit_str((r % 10) as u64));
        proof {
            assert(out@ =~= old(out)@ + frac_digits(r as int, f as nat));
        }
    }
}

impl Scalar {
    /// Renders the value as its canonical text: the plain decimal
    /// expansion, with no exponent notation and nothing trimmed or
    /// padded.
    pub fn to_text(self) -> (r: String)
        requires
            self.wf(),
        ensures
            r@ == text_spec(self),
    {
        proof {
            reveal_strlit("NaN");
            reveal_strlit("inf");
            reveal_strlit("-inf");
            reveal_strlit("-");
            reveal_strlit("0.");
        }
        match self {
            Scalar::Nan => {
                let r = String::from_str("NaN");
                proof {
                    assert(r@ =~= text_spec(self));
                }
                r
            },
            Scalar::Inf { neg } => {
                let r = if neg {
                    String::from_str("-inf")
                } else {
                    String::from_str("inf")
                };
                proof {
                    assert(r@ =~= text_spec(self));
                }
                r
            },
            Scalar::Finite { neg, coeff, exp } => {
                let mut out = String::new();
                if neg {
                    out.append("-");
                }
                proof {
                    assert(out@ =~= if neg {
                        seq!['-']
                    } else {
                        Seq::<char>::empty()
                    });
                }
                if exp >= 0 {
                    push_digits(&mut out, coeff as u128);
                    push_zeros(&mut out, exp as usize);
                } else {
                    let f: u32 = (-(exp as i64)) as u32;
                    let nd = count_digits(if coeff == 0 {
                        1
                    } else {
                        coeff as u128
                    });
                    proof {
                        lemma_pow10_values();
                        if coeff != 0 {
                            lemma_ndigits_at_most(coeff as int, 12);
                        }
                    }
                    if coeff != 0 && nd > f {
                        let p = pow10_u64(f);
                        proof {
                            lemma_pow10_pos(f as nat);
                        }
                        let q = coeff / p;
                        let rr = coeff % p;
                        push_digits(&mut out, q as u128);
                        out.append(".");
                        proof {
                            reveal_strlit(".");
                        }
                        push_frac(&mut out, rr as u128, f as usize);
                    } else {
                        out.append("0.");
                        push_frac(&mut out, coeff as u128, f as usize);
                        proof {
                            if coeff != 0 {
                                assert(ndigits(coeff as int) <= f as nat);
                            } else {
                                assert(ndigits(0int) == 1);
                                assert(f >= 1);
                            }
                        }
                    }
                }
                proof {
                    assert(out@ =~= text_spec(self));
                }
                out
            },
        }
    }
}

} // verus!
use vstd::prelude::*;

verus! {

/// The text of a scalar rendered with a fixed count of fractional
/// digits: the value is rounded, half to even, at the requested digit
/// and printed with exactly that many digits after the point (with no
/// point at all for a count of zero). The non-finite kinds render as in
/// the default form.
pub open spec fn prec_text_spec(s: Scalar, p: nat) -> Seq<char> {
    match s {
        Scalar::Nan => seq!['N', 'a', 'N'],
        Scalar::Inf { neg } => if neg {
            seq!['-', 'i', 'n', 'f']
        } else {
            seq!['i', 'n', 'f']
        },
        Scalar::Finite { neg, coeff, exp } => {
            let c = coeff as int;
            let body = if exp >= 0 {
                if p == 0 {
                    dec_digits(c) + zeros(exp as nat)
                } else {
                    dec_digits(c) + zeros(exp as nat) + seq!['.'] + zeros(p)
                }
            } else {
                let f = (-(exp as int)) as nat;
                if p >= f {
                    if ndigits(c) > f {
                        dec_digits(c / pow10(f)) + seq!['.'] + frac_digits(c % pow10(f), f)
                            + zeros((p - f) as nat)
                    } else {
                        seq!['0', '.'] + frac_digits(c, f) + zeros((p - f) as nat)
                    }
                } else {
                    let t = rhe(c, pow10((f - p) as nat));
                    if p == 0 {
                        dec_digits(t)
                    } else if ndigits(t) > p {
                        dec_digits(t / pow10(p)) + seq!['.'] + frac_digits(t % pow10(p), p)
                    } else {
                        seq!['0', '.'] + frac_digits(t, p)
                    }
                }
            };
            if neg {
                seq!['-'] + body
            } else {
                body
            }
        },
    }
}

impl Scalar {
    /// Renders the value with exactly `p` digits after the decimal
    /// point, rounding half to even at the last kept digit.
    #[verifier::rlimit(100)]
    #[verifier::spinoff_prover]
    pub fn to_text_prec(self, p: usize) -> (r: String)
        requires
            self.wf(),
        ensures
            r@ == prec_text_spec(self, p as nat),
    {
        proof {
            reveal_strlit("NaN");
            reveal_strlit("inf");
            reveal_strlit("-inf");
            reveal_strlit("-");
            reveal_strlit(".");
            reveal_strlit("0.");
        }
        match self {
            Scalar::Nan => {
                let r = String::from_str("NaN");
                proof {
                    assert(r@ =~= prec_text_spec(self, p as nat));
                }
                r
            },
            Scalar::Inf { neg } => {
                let r = if neg {
                    String::from_str("-inf")
                } else {
                    String::from_str("inf")
                };
                proof {
                    assert(r@ =~= prec_text_spec(self, p as nat));
                }
                r
            },
            Scalar::Finite { neg, coeff, exp } => {
                let mut out = String::new();
                if neg {
                    out.append("-");
                }
                proof {
                    assert(out@ =~= if neg {
                        seq!['-']
                    } else {
                        Seq::<char>::empty()
                    });
                    lemma_pow10_values();
                    if coeff != 0 {
                        lemma_ndigits_at_most(coeff as int, 12);
                    }
                }
                if exp >= 0 {
                    push_digits(&mut out, coeff as u128);
                    push_zeros(&mut out, exp as usize);
                    if p > 0 {
                        out.append(".");
                        push_zeros(&mut out, p);
                    }
                } else {
                    let f: usize = (-(exp as i64)) as usize;
                    let nd: u32 = count_digits(if coeff == 0 {
                        1
                    } else {
                        coeff as u128
                    });
                    if p >= f {
                        if coeff != 0 && nd as usize > f {
                            let pw = pow10_u64(f as u32);
                            proof {
                                lemma_pow10_pos(f as nat);
                            }
                            push_digits(&mut out, (coeff / pw) as u128);
                            out.append(".");
                            push_frac(&mut out, (coeff % pw) as u128, f);
                        } else {
                            out.append("0.");
                            push_frac(&mut out, coeff as u128, f);
                            proof {
                                if coeff != 0 {
                                    assert(ndigits(coeff as int) <= f as nat);
                                } else {
                                    assert(ndigits(0int) == 1);
                                }
                            }
                        }
                        push_zeros(&mut out, p - f);
                    } else {
                        let k = f - p;
                        let t: u64 = if k > 13 {
                            proof {
                                lemma_pow10_mono(13, k as nat);
                                lemma_pow10_pos(k as nat);
                                let pw = pow10(k as nat);
                                vstd::arithmetic::div_mod::lemma_fundamental_div_mod(
                                    coeff as int,
                                    pw,
                                );
                                assert((coeff as int) < pw);
                                assert(coeff as int / pw == 0) by (nonlinear_arith)
                                    requires
                                        0 <= coeff as int,
                                        (coeff as int) < pw,
                                        pw >= 1,
                                ;
                                assert(coeff as int % pw == coeff as int) by (nonlinear_arith)
                                    requires
                                        0 <= coeff as int,
                                        (coeff as int) < pw,
                                        pw >= 1,
                                ;
                                assert(2 * (coeff as int) < pw);
                                assert(rhe(coeff as int, pw) == 0);
                            }
                            0
                        } else {
                            let pw = pow10_u64(k as u32);
                            proof {
                                lemma_pow10_pos(k as nat);
                            }
                            let q = coeff / pw;
                            let rr = coeff % pw;
                            if 2 * rr > pw {
                                q + 1
                            } else if 2 * rr < pw {
                                q
                            } else if q % 2 == 0 {
                                q
                            } else {
                                q + 1
                            }
                        };
                        proof {
                            assert(t as int == rhe(coeff as int, pow10((f - p) as nat)));
                        }
                        if p == 0 {
                            push_digits(&mut out, t as u128);
                        } else {
                            let ndt: u32 = if t == 0 {
                                1
                            } else {
                                count_digits(t as u128)
                            };
                            proof {
                                if t == 0 {
                                    assert(ndigits(0int) == 1);
                                }
                            }
                            if ndt as usize > p {
                                proof {
                                    crate::arith::lemma_ndigits_le_39(t as int);
                                    if t != 0 {
                                        lemma_ndigits_bounds(t as int);
                                        assert((t as int) <= pow10(12));
                                        lemma_ndigits_at_most(t as int, 13);
                                    }
                                }
                                let pw2 = pow10_u64(p as u32);
                                proof {
                                    lemma_pow10_pos(p as nat);
                                }
                                push_digits(&mut out, (t / pw2) as u128);
                                out.append(".");
                                push_frac(&mut out, (t % pw2) as u128, p);
                            } else {
                                out.append("0.");
                                push_frac(&mut out, t as u128, p);
                            }
                        }
                    }
                }
                proof {
                    assert(out@ =~= prec_text_spec(self, p as nat));
                }
                out
            },
        }
    }
}

} // verus!
use vstd::string::StrSliceExecFns;

verus! {

/// Whether a character is a decimal digit.
pub open spec fn is_digit(c: char) -> bool {
    48 <= (c as u32) && (c as u32) <= 57
}

/// The numeric value of a digit character.
pub open spec fn digit_val(c: char) -> int {
    (c as u32) - 48
}

/// The length of the leading run of digit characters.
pub open spec fn digrun(s: Seq<char>) -> int
    decreases s.len(),
{
    if s.len() > 0 && is_digit(s[0]) {
        1 + digrun(s.subrange(1, s.len() as int))
    } else {
        0
    }
}

pub proof fn lemma_digrun_is(s: Seq<char>, k: int)
    requires
        0 <= k <= s.len(),
        forall|j: int| 0 <= j < k ==> is_digit(s[j]),
        k == s.len() || !is_digit(s[k]),
    ensures
        digrun(s) == k,
    decreases k,
{
    if k == 0 {
    } else {
        let tail = s.subrange(1, s.len() as int);
        assert(forall|j: int| 0 <= j < k - 1 ==> is_digit(tail[j]));
        lemma_digrun_is(tail, k - 1);
    }
}

/// One step of the mantissa accumulator: a further digit is taken
/// exactly while the value has at most twelve digits; a later digit is
/// read as zero and only counts toward the magnitude.
pub open spec fn scan_step(m: int, dropped: int, d: int) -> (int, int) {
    if m < 1_000_000_000_000 {
        (m * 10 + d, dropped)
    } else {
        (m, dropped + 1)
    }
}

/// Folds the mantissa accumulator over a run of digit characters.
pub open spec fn scan_seq(s: Seq<char>, m: int, dropped: int) -> (int, int)
    decreases s.len(),
{
    if s.len() == 0 {
        (m, dropped)
    } else {
        let st = scan_step(m, dropped, digit_val(s[0]));
        scan_seq(s.subrange(1, s.len() as int), st.0, st.1)
    }
}

pub proof fn lemma_scan_snoc(s: Seq<char>, x: char, m: int, dropped: int)
    ensures
        scan_seq(s.push(x), m, dropped) == {
            let st = scan_seq(s, m, dropped);
            scan_step(st.0, st.1, digit_val(x))
        },
    decreases s.len(),
{
    if s.len() == 0 {
        assert(s.push(x).subrange(1, 1) =~= Seq::<char>::empty());
        assert(s.push(x)[0] == x);
        let st = scan_step(m, dropped, digit_val(x));
        assert(scan_seq(Seq::<char>::empty(), st.0, st.1) == st);
        assert(scan_seq(s.push(x), m, dropped) == st);
        assert(scan_seq(s, m, dropped) == (m, dropped));
    } else {
        assert(s.push(x)[0] == s[0]);
        let st = scan_step(m, dropped, digit_val(s[0]));
        assert(s.push(x).subrange(1, s.len() as int + 1) =~= s.subrange(1, s.len() as int).push(x));
        assert(scan_seq(s.push(x), m, dropped) == scan_seq(
            s.subrange(1, s.len() as int).push(x),
            st.0,
            st.1,
        ));
        lemma_scan_snoc(s.subrange(1, s.len() as int), x, st.0, st.1);
        assert(scan_seq(s, m, dropped) == scan_seq(s.subrange(1, s.len() as int), st.0, st.1));
    }
}

/// Folds the exponent accumulator, which saturates so that an absurdly
/// long exponent still reads as a value far beyond the stored range.
pub open spec fn scan_exp(s: Seq<char>, acc: int) -> int
    decreases s.len(),
{
    if s.len() == 0 {
        acc
    } else {
        let a2 = if acc < 1_000_000_000_000_000 {
            acc * 10 + digit_val(s[0])
        } else {
            acc
        };
        scan_exp(s.subrange(1, s.len() as int), a2)
    }
}

pub proof fn lemma_scan_exp_snoc(s: Seq<char>, x: char, acc: int)
    ensures
        scan_exp(s.push(x), acc) == {
            let a = scan_exp(s, acc);
            if a < 1_000_000_000_000_000 {
                a * 10 + digit_val(x)
            } else {
                a
            }
        },
    decreases s.len(),
{
    if s.len() == 0 {
        assert(s.push(x).subrange(1, 1) =~= Seq::<char>::empty());
        assert(s.push(x)[0] == x);
        let a2 = if acc < 1_000_000_000_000_000 {
            acc * 10 + digit_val(x)
        } else {
            acc
        };
        assert(scan_exp(Seq::<char>::empty(), a2) == a2);
        assert(scan_exp(s.push(x), acc) == a2);
        assert(scan_exp(s, acc) == acc);
    } else {
        assert(s.push(x)[0] == s[0]);
        let a2 = if acc < 1_000_000_000_000_000 {
            acc * 10 + digit_val(s[0])
        } else {
            acc
        };
        assert(s.push(x).subrange(1, s.len() as int + 1) =~= s.subrange(1, s.len() as int).push(x));
        assert(scan_exp(s.push(x), acc) == scan_exp(s.subrange(1, s.len() as int).push(x), a2));
        lemma_scan_exp_snoc(s.subrange(1, s.len() as int), x, a2);
        assert(scan_exp(s, acc) == scan_exp(s.subrange(1, s.len() as int), a2));
    }
}

/// The exponent part of a literal, read from position `after` of the
/// unsigned remainder: either the end of the string, or an `e` marker,
/// an optional sign and at least one digit reaching the end.
pub open spec fn exp_part_spec(rest: Seq<char>, after: int) -> Option<int> {
    if after == rest.len() {
        Some(0int)
    } else if rest[after] == 'e' || rest[after] == 'E' {
        let es = after + 1;
        if es < rest.len() {
            let eneg = rest[es] == '-';
            let ds: int = if rest[es] == '-' || rest[es] == '+' {
                es + 1
            } else {
                es
            };
            let ec = digrun(rest.subrange(ds, rest.len() as int));
            if ec >= 1 && ds + ec == rest.len() {
                let ev = scan_exp(rest.subrange(ds, rest.len() as int), 0);
                Some(
                    if eneg {
                        -ev
                    } else {
                        ev
                    },
                )
            } else {
                None
            }
        } else {
            None
        }
    } else {
        None
    }
}

/// The result of reading a scalar literal: an optional sign, digits with
/// an optional point, and an optional exponent part, the whole string
/// consumed. The first thirteen significant digits of the mantissa are
/// read exactly and later digits are read as zeros; the literals `inf`,
/// `+inf`, `-inf` and `NaN` name the non-finite values.
#[verifier::opaque]
pub open spec fn parse_spec(t: Seq<char>) -> Option<Scalar> {
    if t == seq!['i', 'n', 'f'] || t == seq!['+', 'i', 'n', 'f'] {
        Some(Scalar::Inf { neg: false })
    } else if t == seq!['-', 'i', 'n', 'f'] {
        Some(Scalar::Inf { neg: true })
    } else if t == seq!['N', 'a', 'N'] {
        Some(Scalar::Nan)
    } else if t.len() == 0 {
        None
    } else {
        let neg = t[0] == '-';
        let start: int = if t[0] == '-' || t[0] == '+' {
            1
        } else {
            0
        };
        let rest = t.subrange(start, t.len() as int);
        let i1 = digrun(rest);
        let has_point = i1 < rest.len() && rest[i1] == '.';
        let fstart = i1 + 1;
        let fcount: int = if has_point {
            digrun(rest.subrange(fstart, rest.len() as int))
        } else {
            0
        };
        if i1 + fcount == 0 {
            None
        } else {
            let mant = if has_point {
                rest.subrange(0, i1) + rest.subrange(fstart, fstart + fcount)
            } else {
                rest.subrange(0, i1)
            };
            let after: int = if has_point {
                fstart + fcount
            } else {
                i1
            };
            let expval: Option<int> = exp_part_spec(rest, after);
            match expval {
                Option::None => None,
                Option::Some(ev) => {
                    let sc = scan_seq(mant, 0, 0);
                    Some(
                        scaled(
                            if neg {
                                -sc.0
                            } else {
                                sc.0
                            },
                            sc.1 - fcount + ev,
                        ),
                    )
                },
            }
        }
    }
}

} // verus!
use crate::scalar::{lemma_scaled_overflow, lemma_scaled_underflow};
use crate::scalar::build;

verus! {

pub proof fn lemma_scan_concat(a: Seq<char>, b: Seq<char>, m: int, dropped: int)
    ensures
        scan_seq(a + b, m, dropped) == {
            let st = scan_seq(a, m, dropped);
            scan_seq(b, st.0, st.1)
        },
    decreases b.len(),
{
    if b.len() == 0 {
        assert(a + b =~= a);
    } else {
        let b2 = b.subrange(0, b.len() - 1);
        let x = b[b.len() - 1];
        assert(b =~= b2.push(x));
        assert(a + b =~= (a + b2).push(x));
        lemma_scan_concat(a, b2, m, dropped);
        lemma_scan_snoc(a + b2, x, m, dropped);
        let st = scan_seq(a, m, dropped);
        lemma_scan_snoc(b2, x, st.0, st.1);
    }
}

/// Scans the run of digit characters beginning at `from`, folding the
/// mantissa accumulator over it, and reports where the run ends.
fn digit_run(s: &str, from: usize, m0: u64, d0: usize) -> (t: (u64, usize, usize))
    requires
        from <= s@.len(),
        m0 < 10_000_000_000_000,
        d0 <= from,
    ensures
        from <= t.2 <= s@.len(),
        digrun(s@.subrange(from as int, s@.len() as int)) == t.2 - from,
        scan_seq(s@.subrange(from as int, t.2 as int), m0 as int, d0 as int) == (
            t.0 as int,
            t.1 as int,
        ),
        t.0 < 10_000_000_000_000,
        t.1 <= t.2,
{
    let n = s.unicode_len();
    let mut i: usize = from;
    let mut m: u64 = m0;
    let mut dropped: usize = d0;
    loop
        invariant
            n == s@.len(),
            from <= i <= n,
            d0 <= from,
            forall|j: int| from <= j < i ==> is_digit(s@[j]),
            scan_seq(s@.subrange(from as int, i as int), m0 as int, d0 as int) == (
                m as int,
                dropped as int,
            ),
            m < 10_000_000_000_000,
            dropped <= i,
        ensures
            from <= i <= n,
            forall|j: int| from <= j < i ==> is_digit(s@[j]),
            scan_seq(s@.subrange(from as int, i as int), m0 as int, d0 as int) == (
                m as int,
                dropped as int,
            ),
            m < 10_000_000_000_000,
            dropped <= i,
            i == n || !is_digit(s@[i as int]),
        decreases n - i,
    {
        proof {
            assert(s@.subrange(from as int, from as int) =~= Seq::<char>::empty());
        }
        if i >= n {
            break ;
        }
        let c = s.get_char(i);
        let u = c as u32;
        if u < 48 || u > 57 {
            break ;
        }
        proof {
            lemma_scan_snoc(s@.subrange(from as int, i as int), c, m0 as int, d0 as int);
            assert(s@.subrange(from as int, i as int).push(c) =~= s@.subrange(
                from as int,
                i as int + 1,
            ));
        }
        if m < 1_000_000_000_000 {
            m = m * 10 + ((u - 48) as u64);
        } else {
            dropped = dropped + 1;
        }
        i = i + 1;
    }
    proof {
        let run = s@.subrange(from as int, n as int);
        assert(forall|j: int| 0 <= j < i - from ==> is_digit(run[j]));
        if i < n {
            assert(run[i - from] == s@[i as int]);
        }
        lemma_digrun_is(run, i - from);
    }
    (m, dropped, i)
}

/// Scans the run of digit characters beginning at `from`, folding the
/// saturating exponent accumulator over it.
fn exp_run(s: &str, from: usize) -> (t: (i64, usize))
    requires
        from <= s@.len(),
    ensures
        from <= t.1 <= s@.len(),
        digrun(s@.subrange(from as int, s@.len() as int)) == t.1 - from,
        t.0 as int == scan_exp(s@.subrange(from as int, t.1 as int), 0),
        0 <= t.0 <= 10_000_000_000_000_000,
{
    let n = s.unicode_len();
    let mut i: usize = from;
    let mut ev: i64 = 0;
    loop
        invariant
            n == s@.len(),
            from <= i <= n,
            forall|j: int| from <= j < i ==> is_digit(s@[j]),
            ev as int == scan_exp(s@.subrange(from as int, i as int), 0),
            0 <= ev <= 10_000_000_000_000_000,
        ensures
            from <= i <= n,
            forall|j: int| from <= j < i ==> is_digit(s@[j]),
            ev as int == scan_exp(s@.subrange(from as int, i as int), 0),
            0 <= ev <= 10_000_000_000_000_000,
            i == n || !is_digit(s@[i as int]),
        decreases n - i,
    {
        proof {
            assert(s@.subrange(from as int, from as int) =~= Seq::<char>::empty());
        }
        if i >= n {
            break ;
        }
        let c = s.get_char(i);
        let u = c as u32;
        if u < 48 || u > 57 {
            break ;
        }
        proof {
            lemma_scan_exp_snoc(s@.subrange(from as int, i as int), c, 0);
            assert(s@.subrange(from as int, i as int).push(c) =~= s@.subrange(
                from as int,
                i as int + 1,
            ));
        }
        if ev < 1_000_000_000_000_000 {
            ev = ev * 10 + ((u - 48) as i64);
        }
        i = i + 1;
    }
    proof {
        let run = s@.subrange(from as int, n as int);
        assert(forall|j: int| 0 <= j < i - from ==> is_digit(run[j]));
        if i < n {
            assert(run[i - from] == s@[i as int]);
        }
        lemma_digrun_is(run, i - from);
    }
    (ev, i)
}

pub proof fn lemma_literal_shapes(t: Seq<char>)
    ensures
        (t == seq!['i', 'n', 'f']) <==> (t.len() == 3 && t[0] == 'i' && t[1] == 'n' && t[2]
            == 'f'),
        (t == seq!['+', 'i', 'n', 'f']) <==> (t.len() == 4 && t[0] == '+' && t[1] == 'i' && t[2]
            == 'n' && t[3] == 'f'),
        (t == seq!['-', 'i', 'n', 'f']) <==> (t.len() == 4 && t[0] == '-' && t[1] == 'i' && t[2]
            == 'n' && t[3] == 'f'),
        (t == seq!['N', 'a', 'N']) <==> (t.len() == 3 && t[0] == 'N' && t[1] == 'a' && t[2]
            == 'N'),
{
    if t.len() == 3 && t[0] == 'i' && t[1] == 'n' && t[2] == 'f' {
        assert(t =~= seq!['i', 'n', 'f']);
    }
    if t.len() == 4 && t[0] == '+' && t[1] == 'i' && t[2] == 'n' && t[3] == 'f' {
        assert(t =~= seq!['+', 'i', 'n', 'f']);
    }
    if t.len() == 4 && t[0] == '-' && t[1] == 'i' && t[2] == 'n' && t[3] == 'f' {
        assert(t =~= seq!['-', 'i', 'n', 'f']);
    }
    if t.len() == 3 && t[0] == 'N' && t[1] == 'a' && t[2] == 'N' {
        assert(t =~= seq!['N', 'a', 'N']);
    }
}

/// What reading a literal gives on the non-finite spellings and on an
/// empty string.
pub proof fn lemma_parse_literals(t: Seq<char>)
    ensures
        t == seq!['i', 'n', 'f'] ==> parse_spec(t) == Some(Scalar::Inf { neg: false }),
        t == seq!['+', 'i', 'n', 'f'] ==> parse_spec(t) == Some(Scalar::Inf { neg: false }),
        t == seq!['-', 'i', 'n', 'f'] ==> parse_spec(t) == Some(Scalar::Inf { neg: true }),
        t == seq!['N', 'a', 'N'] ==> parse_spec(t) == Some(Scalar::Nan),
        (t != seq!['i', 'n', 'f'] && t != seq!['+', 'i', 'n', 'f'] && t != seq!['-', 'i', 'n', 'f']
            && t != seq!['N', 'a', 'N'] && t.len() == 0) ==> parse_spec(t) == None::<Scalar>,
{
    reveal(parse_spec);
}

/// What reading a literal gives on a string that is not one of the
/// non-finite spellings: the value assembled from its sign, digit runs
/// and exponent part.
pub proof fn lemma_parse_general(
    t: Seq<char>,
    neg: bool,
    start: int,
    i1: int,
    has_point: bool,
    fcount: int,
    m: int,
    dropped: int,
)
    requires
        t != seq!['i', 'n', 'f'],
        t != seq!['+', 'i', 'n', 'f'],
        t != seq!['-', 'i', 'n', 'f'],
        t != seq!['N', 'a', 'N'],
        t.len() > 0,
        neg == (t[0] == '-'),
        start == if t[0] == '-' || t[0] == '+' {
            1int
        } else {
            0int
        },
        i1 == digrun(t.subrange(start, t.len() as int)),
        has_point == {
            let rest = t.subrange(start, t.len() as int);
            i1 < rest.len() && rest[i1] == '.'
        },
        fcount == if has_point {
            let rest = t.subrange(start, t.len() as int);
            digrun(rest.subrange(i1 + 1, rest.len() as int))
        } else {
            0int
        },
        i1 + fcount > 0 ==> (m, dropped) == scan_seq(
            {
                let rest = t.subrange(start, t.len() as int);
                if has_point {
                    rest.subrange(0, i1) + rest.subrange(i1 + 1, i1 + 1 + fcount)
                } else {
                    rest.subrange(0, i1)
                }
            },
            0,
            0,
        ),
    ensures
        i1 + fcount == 0 ==> parse_spec(t) == None::<Scalar>,
        i1 + fcount > 0 ==> parse_spec(t) == {
            let rest = t.subrange(start, t.len() as int);
            let after: int = if has_point {
                i1 + 1 + fcount
            } else {
                i1
            };
            match exp_part_spec(rest, after) {
                Option::None => None::<Scalar>,
                Option::Some(ev) => Some(
                    scaled(
                        if neg {
                            -m
                        } else {
                            m
                        },
                        dropped - fcount + ev,
                    ),
                ),
            }
        },
{
    reveal(parse_spec);
}

impl Scalar {
    /// Reads a scalar literal: an optional sign, digits with an optional
    /// point, and an optional exponent part, the whole string consumed;
    /// the spellings `inf`, `+inf`, `-inf` and `NaN` give the
    /// non-finite values.
    #[verifier::rlimit(100)]
    #[verifier::spinoff_prover]
    pub fn parse(s: &str) -> (r: Option<Scalar>)
        ensures
            r == parse_spec(s@),
            r matches Some(d) ==> d.wf(),
    {
        let n = s.unicode_len();
        if n == 3 && s.get_char(0) == 'i' && s.get_char(1) == 'n' && s.get_char(2) == 'f' {
            proof {
                lemma_literal_shapes(s@);
                lemma_parse_literals(s@);
            }
            return Some(Scalar::Inf { neg: false });
        }
        if n == 4 && s.get_char(0) == '+' && s.get_char(1) == 'i' && s.get_char(2) == 'n'
            && s.get_char(3) == 'f' {
            proof {
                lemma_literal_shapes(s@);
                lemma_parse_literals(s@);
            }
            return Some(Scalar::Inf { neg: false });
        }
        if n == 4 && s.get_char(0) == '-' && s.get_char(1) == 'i' && s.get_char(2) == 'n'
            && s.get_char(3) == 'f' {
            proof {
                lemma_literal_shapes(s@);
                lemma_parse_literals(s@);
            }
            return Some(Scalar::Inf { neg: true });
        }
        if n == 3 && s.get_char(0) == 'N' && s.get_char(1) == 'a' && s.get_char(2) == 'N' {
            proof {
                lemma_literal_shapes(s@);
                lemma_parse_literals(s@);
            }
            return Some(Scalar::Nan);
        }
        proof {
            lemma_literal_shapes(s@);
            lemma_parse_literals(s@);
        }
        if n == 0 {
            return None;
        }
        let c0 = s.get_char(0);
        let neg = c0 == '-';
        let start: usize = if c0 == '-' || c0 == '+' {
            1
        } else {
            0
        };
        parse_rest(s, neg, start)
    }
}

/// The general path of literal reading, once the non-finite spellings
/// are ruled out: sign, digit runs, exponent part, assembly.
#[verifier::rlimit(100)]
#[verifier::spinoff_prover]
fn parse_rest(s: &str, neg: bool, start: usize) -> (r: Option<Scalar>)
    requires
        s@.len() > 0,
        s@ != seq!['i', 'n', 'f'],
        s@ != seq!['+', 'i', 'n', 'f'],
        s@ != seq!['-', 'i', 'n', 'f'],
        s@ != seq!['N', 'a', 'N'],
        neg == (s@[0] == '-'),
        start as int == if s@[0] == '-' || s@[0] == '+' {
            1int
        } else {
            0int
        },
    ensures
        r == parse_spec(s@),
        r matches Some(d) ==> d.wf(),
{
    {
        let n = s.unicode_len();
        let ghost rest = s@.subrange(start as int, n as int);
        let (m1, d1, iend) = digit_run(s, start, 0, 0);
        let i1: usize = iend - start;
        proof {
            assert(rest =~= s@.subrange(start as int, s@.len() as int));
            assert(digrun(rest) == i1 as int);
            assert(rest.subrange(0, i1 as int) =~= s@.subrange(start as int, iend as int));
        }
        let mut i = iend;
        let mut m = m1;
        let mut dropped = d1;
        let mut fcount: usize = 0;
        let has_point = i < n && s.get_char(i) == '.';
        proof {
            if i < n {
                assert(rest[i1 as int] == s@[i as int]);
            }
        }
        if has_point {
            let fstart: usize = i + 1;
            let (m2, d2, fend) = digit_run(s, fstart, m1, d1);
            fcount = fend - fstart;
            m = m2;
            dropped = d2;
            i = fend;
            proof {
                assert(rest.subrange(i1 + 1, rest.len() as int) =~= s@.subrange(
                    fstart as int,
                    n as int,
                ));
                assert(digrun(rest.subrange(i1 + 1, rest.len() as int)) == fcount as int);
            }
        }
        let ghost tlen = s@.len() as int;
        let ghost after: int = if has_point {
            i1 + 1 + fcount
        } else {
            i1 as int
        };
        proof {
            if has_point {
                lemma_scan_concat(
                    s@.subrange(start as int, iend as int),
                    s@.subrange(start + i1 + 1, start + i1 + 1 + fcount),
                    0,
                    0,
                );
                assert(rest.subrange(i1 + 1, i1 + 1 + fcount) =~= s@.subrange(
                    start + i1 + 1,
                    start + i1 + 1 + fcount,
                ));
                assert(rest.subrange(0, i1 as int) + rest.subrange(i1 + 1, i1 + 1 + fcount)
                    =~= s@.subrange(start as int, iend as int) + s@.subrange(
                    start + i1 + 1,
                    start + i1 + 1 + fcount,
                ));
            }
        }
        if i1 + fcount == 0 {
            proof {
                lemma_parse_general(
                    s@,
                    neg,
                    start as int,
                    i1 as int,
                    has_point,
                    fcount as int,
                    0,
                    0,
                );
            }
            return None;
        }
        proof {
            lemma_parse_general(
                s@,
                neg,
                start as int,
                i1 as int,
                has_point,
                fcount as int,
                m as int,
                dropped as int,
            );
            assert(start + after == i);
        }
        let mut ev: i64 = 0;
        let mut eneg = false;
        if i < n {
            let c = s.get_char(i);
            proof {
                assert(rest[after] == s@[i as int]);
            }
            if c == 'e' || c == 'E' {
                let es: usize = i + 1;
                if es >= n {
                    proof {
                        assert(exp_part_spec(rest, after) == None::<int>);
                    }
                    return None;
                }
                let ce = s.get_char(es);
                proof {
                    assert(rest[after + 1] == s@[es as int]);
                }
                eneg = ce == '-';
                let ds: usize = if ce == '-' || ce == '+' {
                    es + 1
                } else {
                    es
                };
                let (ev2, eend) = exp_run(s, ds);
                ev = ev2;
                proof {
                    assert(rest.subrange(ds - start, rest.len() as int) =~= s@.subrange(
                        ds as int,
                        n as int,
                    ));
                }
                if eend == ds || eend < n {
                    proof {
                        assert(exp_part_spec(rest, after) == None::<int>);
                    }
                    return None;
                }
                proof {
                    assert(s@.subrange(ds as int, eend as int) =~= rest.subrange(
                        ds - start,
                        rest.len() as int,
                    ));
                    assert(exp_part_spec(rest, after) == Some(
                        if eneg {
                            -(ev as int)
                        } else {
                            ev as int
                        },
                    ));
                }
            } else {
                proof {
                    assert(exp_part_spec(rest, after) == None::<int>);
                }
                return None;
            }
        } else {
            proof {
                assert(after == rest.len());
                assert(exp_part_spec(rest, after) == Some(0int));
            }
        }
        let sev: i64 = if eneg {
            -ev
        } else {
            ev
        };
        let et: i128 = dropped as i128 - fcount as i128 + sev as i128;
        proof {
            assert(exp_part_spec(rest, after) == Some(sev as int));
            assert(parse_spec(s@) == Some(
                scaled(
                    if neg {
                        -(m as int)
                    } else {
                        m as int
                    },
                    et as int,
                ),
            ));
        }
        if m == 0 {
            return Some(Scalar::zero());
        }
        if et > 400 {
            proof {
                lemma_scaled_overflow(
                    if neg {
                        -(m as int)
                    } else {
                        m as int
                    },
                    et as int,
                );
            }
            return Some(Scalar::Inf { neg });
        }
        if et < -430 {
            proof {
                lemma_scaled_underflow(
                    if neg {
                        -(m as int)
                    } else {
                        m as int
                    },
                    et as int,
                );
            }
            return Some(Scalar::zero());
        }
        Some(build(neg, m as u128, et as i64))
    }
}

} // verus!
verus! {

pub proof fn lemma_dec_len(x: int)
    requires
        x >= 0,
    ensures
        dec_digits(x).len() == ndigits(x),
    decreases x,
{
    if x >= 10 {
        lemma_dec_len(x / 10);
    }
}

pub proof fn lemma_dec_all_digits(x: int)
    requires
        x >= 0,
    ensures
        forall|i: int| 0 <= i < dec_digits(x).len() ==> is_digit(#[trigger] dec_digits(x)[i]),
    decreases x,
{
    if x < 10 {
        assert(is_digit(digit_char(x)));
        assert(dec_digits(x) == seq![digit_char(x)]);
    } else {
        lemma_dec_all_digits(x / 10);
        assert(is_digit(digit_char(x % 10)));
        assert forall|i: int| 0 <= i < dec_digits(x).len() implies is_digit(
            #[trigger] dec_digits(x)[i],
        ) by {
            if i < dec_digits(x / 10).len() {
                assert(dec_digits(x)[i] == dec_digits(x / 10)[i]);
            } else {
                assert(dec_digits(x)[i] == digit_char(x % 10));
            }
        }
    }
}

pub proof fn lemma_frac_len(r: int, f: nat)
    ensures
        frac_digits(r, f).len() == f,
    decreases f,
{
    if f > 0 {
        lemma_frac_len(r / 10, (f - 1) as nat);
    }
}

pub proof fn lemma_frac_all_digits(r: int, f: nat)
    requires
        r >= 0,
    ensures
        forall|i: int|
            0 <= i < frac_digits(r, f).len() ==> is_digit(#[trigger] frac_digits(r, f)[i]),
    decreases f,
{
    if f > 0 {
        lemma_frac_all_digits(r / 10, (f - 1) as nat);
        assert(is_digit(digit_char(r % 10)));
        assert forall|i: int| 0 <= i < frac_digits(r, f).len() implies is_digit(
            #[trigger] frac_digits(r, f)[i],
        ) by {
            if i < frac_digits(r / 10, (f - 1) as nat).len() {
                assert(frac_digits(r, f)[i] == frac_digits(r / 10, (f - 1) as nat)[i]);
            } else {
                assert(frac_digits(r, f)[i] == digit_char(r % 10));
            }
        }
    }
}

pub proof fn lemma_zeros_all_digits(k: nat)
    ensures
        forall|i: int| 0 <= i < zeros(k).len() ==> is_digit(#[trigger] zeros(k)[i]),
        zeros(k).len() == k,
{
}

/// Scanning the digit text of an integer appends its digits to the
/// accumulated value exactly, while everything stays under the cap.
pub proof fn lemma_scan_dec(x: int, m: int, d: int)
    requires
        x >= 0,
        m >= 0,
        m * pow10(ndigits(x)) + x < 1_000_000_000_000,
    ensures
        scan_seq(dec_digits(x), m, d) == (m * pow10(ndigits(x)) + x, d),
    decreases x,
{
    lemma_pow10_values();
    if x < 10 {
        assert(dec_digits(x) == seq![digit_char(x)]);
        assert(Seq::<char>::empty().push(digit_char(x)) =~= seq![digit_char(x)]);
        lemma_scan_snoc(Seq::<char>::empty(), digit_char(x), m, d);
        assert(scan_seq(Seq::<char>::empty(), m, d) == (m, d));
        assert(digit_val(digit_char(x)) == x);
        assert(pow10(1) == 10);
    } else {
        let nd = ndigits(x);
        assert(pow10(nd) == 10 * pow10((nd - 1) as nat));
        assert(m * pow10(nd) == 10 * (m * pow10((nd - 1) as nat))) by (nonlinear_arith)
            requires
                pow10(nd) == 10 * pow10((nd - 1) as nat),
        ;
        assert(10 * (x / 10) <= x);
        lemma_scan_dec(x / 10, m, d);
        lemma_scan_snoc(dec_digits(x / 10), digit_char(x % 10), m, d);
        let m2 = m * pow10((nd - 1) as nat) + x / 10;
        assert(10 * m2 + x % 10 == m * pow10(nd) + x);
        assert(m2 < 1_000_000_000_000);
        assert(digit_val(digit_char(x % 10)) == x % 10);
    }
}

/// Scanning a zero-padded fractional block appends its digits to the
/// accumulated value exactly.
pub proof fn lemma_scan_frac(r: int, f: nat, m: int, d: int)
    requires
        0 <= r < pow10(f),
        m >= 0,
        m * pow10(f) + r < 1_000_000_000_000,
    ensures
        scan_seq(frac_digits(r, f), m, d) == (m * pow10(f) + r, d),
    decreases f,
{
    lemma_pow10_values();
    if f == 0 {
        assert(frac_digits(r, 0) =~= Seq::<char>::empty());
    } else {
        assert(pow10(f) == 10 * pow10((f - 1) as nat));
        assert(m * pow10(f) == 10 * (m * pow10((f - 1) as nat))) by (nonlinear_arith)
            requires
                pow10(f) == 10 * pow10((f - 1) as nat),
        ;
        assert(r / 10 < pow10((f - 1) as nat)) by (nonlinear_arith)
            requires
                r < pow10(f),
                pow10(f) == 10 * pow10((f - 1) as nat),
                r >= 0,
        ;
        assert(10 * (r / 10) <= r);
        lemma_scan_frac(r / 10, (f - 1) as nat, m, d);
        lemma_scan_snoc(frac_digits(r / 10, (f - 1) as nat), digit_char(r % 10), m, d);
        let m2 = m * pow10((f - 1) as nat) + r / 10;
        assert(10 * m2 + r % 10 == m * pow10(f) + r);
        assert(m2 < 1_000_000_000_000);
        assert(digit_val(digit_char(r % 10)) == r % 10);
    }
}

/// Scanning a run of trailing zeros multiplies the accumulated value up
/// to the thirteen-digit cap and counts the rest as dropped.
pub proof fn lemma_scan_zeros(k: nat, m: int, d: int)
    requires
        1 <= m < 10_000_000_000_000,
    ensures
        scan_seq(zeros(k), m, d) == {
            let g = 13 - ndigits(m);
            let j: int = if k <= g {
                k as int
            } else {
                g
            };
            (m * pow10(j as nat), d + k - j)
        },
        ndigits(m) <= 13,
    decreases k,
{
    lemma_pow10_values();
    lemma_ndigits_at_most(m, 13);
    lemma_ndigits_bounds(m);
    if k == 0 {
        assert(zeros(0) =~= Seq::<char>::empty());
    } else {
        assert(zeros(k)[0] == '0');
        assert(digit_val('0') == 0);
        assert(zeros(k).subrange(1, k as int) =~= zeros((k - 1) as nat));
        if m < 1_000_000_000_000 {
            assert(ndigits(10 * m) == 1 + ndigits(m)) by {
                assert((10 * m) / 10 == m);
            }
            lemma_scan_zeros((k - 1) as nat, 10 * m, d);
            let g = 13 - ndigits(m);
            let g2 = 13 - ndigits(10 * m);
            assert(g2 == g - 1);
            let j: int = if k <= g {
                k as int
            } else {
                g
            };
            let j2: int = if k - 1 <= g2 {
                k - 1
            } else {
                g2
            };
            assert(j == j2 + 1);
            assert((10 * m) * pow10(j2 as nat) == m * pow10((j2 + 1) as nat)) by (nonlinear_arith)
                requires
                    pow10((j2 + 1) as nat) == 10 * pow10(j2 as nat),
        ;
        } else {
            assert(ndigits(m) == 13) by {
                crate::arith::lemma_ndigits_of_range(m, 13);
            }
            lemma_scan_zeros((k - 1) as nat, m, d + 1);
            assert(m * pow10(0) == m);
        }
    }
}

/// Stripping the zeros appended by an exact exponent shift recovers the
/// original coefficient and exponent.
pub proof fn lemma_strip_shift(c: int, e: int, i: nat)
    requires
        c >= 1,
        c % 10 != 0,
    ensures
        strip_zeros(c * pow10(i), e - i) == (c, e),
    decreases i,
{
    lemma_pow10_values();
    if i == 0 {
        assert(c * pow10(0) == c);
        assert(strip_zeros(c, e) == (c, e));
    } else {
        assert(pow10(i) == 10 * pow10((i - 1) as nat));
        lemma_pow10_pos((i - 1) as nat);
        let ghost t = c * pow10((i - 1) as nat);
        assert(c * pow10(i) == 10 * t) by (nonlinear_arith)
            requires
                pow10(i) == 10 * pow10((i - 1) as nat),
                t == c * pow10((i - 1) as nat),
        ;
        assert(t >= 1) by (nonlinear_arith)
            requires
                c >= 1,
                pow10((i - 1) as nat) >= 1,
                t == c * pow10((i - 1) as nat),
        ;
        assert((10 * t) % 10 == 0);
        assert((10 * t) / 10 == t);
        lemma_strip_shift(c, e, (i - 1) as nat);
        assert(strip_zeros(10 * t, e - i) == strip_zeros(t, e - i + 1));
    }
}

} // verus!
use crate::scalar::{EXP_MAX, EXP_MIN};
use crate::arith::lemma_ndigits_shift;

verus! {

/// A canonical coefficient widened by trailing zeros renormalizes back
/// to itself with the matching exponent.
pub proof fn lemma_scaled_shifted(neg: bool, c: u64, e: i32, j: nat)
    requires
        1 <= c < 1_000_000_000_000,
        c % 10 != 0,
        EXP_MIN <= e <= EXP_MAX,
        j + ndigits(c as int) <= 13,
    ensures
        scaled(
            if neg {
                -((c as int) * pow10(j))
            } else {
                (c as int) * pow10(j)
            },
            e - j,
        ) == (Scalar::Finite { neg, coeff: c, exp: e }),
{
    lemma_pow10_values();
    lemma_pow10_pos(j);
    let m = (c as int) * pow10(j);
    assert(m >= 1) by (nonlinear_arith)
        requires
            c >= 1,
            pow10(j) >= 1,
            m == (c as int) * pow10(j),
    ;
    lemma_ndigits_shift(c as int, j);
    let nd = ndigits(c as int);
    lemma_ndigits_bounds(c as int);
    if nd + j <= 12 {
        assert(squash(m, e - j) == (m, e - j));
        lemma_strip_shift(c as int, e as int, j);
    } else {
        // exactly thirteen digits: the rounding step removes one zero
        assert(nd + j == 13);
        assert(j >= 1);
        let k = (ndigits(m) - 12) as nat;
        assert(k == 1);
        assert(pow10(1) == 10);
        lemma_pow10_adds((j - 1) as nat, 1);
        let t = (c as int) * pow10((j - 1) as nat);
        assert(m == 10 * t) by (nonlinear_arith)
            requires
                pow10(j) == pow10((j - 1) as nat) * 10,
                m == (c as int) * pow10(j),
                t == (c as int) * pow10((j - 1) as nat),
        ;
        assert(m / 10 == t && m % 10 == 0);
        assert(rhe(m, 10) == t);
        lemma_ndigits_shift(c as int, (j - 1) as nat);
        assert(ndigits(t) == 12);
        lemma_ndigits_bounds(t);
        assert(t < pow10(12));
        assert(squash(m, e - j) == (t, e - j + 1));
        lemma_strip_shift(c as int, e as int, (j - 1) as nat);
    }
}

/// The digit run of a sequence of digits followed by nothing or by a
/// non-digit head is the digit block's length.
proof fn lemma_digrun_concat(s: Seq<char>, k: int)
    requires
        0 <= k <= s.len(),
        forall|j: int| 0 <= j < k ==> is_digit(s[j]),
        k == s.len() || !is_digit(s[k]),
    ensures
        digrun(s) == k,
{
    lemma_digrun_is(s, k);
}

/// Reading back the canonical text of a value with a nonnegative
/// exponent.
proof fn lemma_roundtrip_int(neg: bool, c: u64, e: i32)
    requires
        (Scalar::Finite { neg, coeff: c, exp: e }).wf(),
        e >= 0,
    ensures
        parse_spec(text_spec(Scalar::Finite { neg, coeff: c, exp: e })) == Some(
            Scalar::Finite { neg, coeff: c, exp: e },
        ),
{
    let v = Scalar::Finite { neg, coeff: c, exp: e };
    let body = dec_digits(c as int) + zeros(e as nat);
    let t = text_spec(v);
    lemma_pow10_values();
    lemma_dec_len(c as int);
    lemma_dec_all_digits(c as int);
    lemma_zeros_all_digits(e as nat);
    if c != 0 {
        lemma_ndigits_bounds(c as int);
        crate::arith::lemma_ndigits_at_most(c as int, 12);
    }
    let nd = ndigits(c as int);
    assert(body.len() == nd + e);
    assert forall|j: int| 0 <= j < body.len() implies is_digit(#[trigger] body[j]) by {
        if j < nd {
            assert(body[j] == dec_digits(c as int)[j]);
        } else {
            assert(body[j] == zeros(e as nat)[j - nd]);
        }
    }
    let start: int = if neg {
        1
    } else {
        0
    };
    assert(t.subrange(start, t.len() as int) =~= body);
    assert(is_digit(body[0]));
    assert(!is_digit('i') && !is_digit('N') && !is_digit('+') && !is_digit('-'));
    lemma_literal_shapes(t);
    assert(t[0] == '-' <==> neg);
    lemma_digrun_concat(body, body.len() as int);
    // the mantissa scan: the digits of the coefficient, then the zeros
    lemma_scan_concat(dec_digits(c as int), zeros(e as nat), 0, 0);
    lemma_scan_dec(c as int, 0, 0);
    let m0 = (c as int) * 1 + 0;
    if c == 0 {
        assert(e == 0);
        assert(zeros(0) =~= Seq::<char>::empty());
        assert(scan_seq(body, 0, 0) == (0int, 0int));
        assert(body.subrange(0, body.len() as int) =~= body);
        lemma_parse_general(t, neg, start, body.len() as int, false, 0, 0, 0);
        assert(exp_part_spec(body, body.len() as int) == Some(0int));
        assert(scaled(0, 0) == v);
    } else {
        lemma_scan_zeros(e as nat, c as int, 0);
        let g = 13 - nd;
        let j: int = if e as int <= g {
            e as int
        } else {
            g
        };
        assert(scan_seq(body, 0, 0) == ((c as int) * pow10(j as nat), e - j));
        let mm = (c as int) * pow10(j as nat);
        assert(pow10(nd) * pow10(j as nat) <= pow10(13)) by {
            crate::arith::lemma_pow10_adds(nd, j as nat);
            crate::arith::lemma_pow10_mono((nd + j) as nat, 13);
        }
        assert(pow10(13) == 10_000_000_000_000);
        assert(0 <= mm < 10_000_000_000_000) by (nonlinear_arith)
            requires
                1 <= (c as int),
                (c as int) < pow10(nd),
                pow10(j as nat) >= 1,
                mm == (c as int) * pow10(j as nat),
                pow10(nd) * pow10(j as nat) <= pow10(13),
                pow10(13) == 10_000_000_000_000,
        ;
        assert(body.subrange(0, body.len() as int) =~= body);
        lemma_parse_general(
            t,
            neg,
            start,
            body.len() as int,
            false,
            0,
            mm,
            e - j,
        );
        assert(exp_part_spec(body, body.len() as int) == Some(0int));
        lemma_scaled_shifted(neg, c, e, j as nat);
        assert(parse_spec(t) == Some(
            scaled(
                if neg {
                    -mm
                } else {
                    mm
                },
                (e - j) - 0 + 0,
            ),
        ));
    }
}

} // verus!
use crate::arith::lemma_ndigits_div;
use crate::number::lemma_scaled_canonical;

verus! {

/// Reading back the canonical text of a value whose point falls inside
/// its digits.
proof fn lemma_roundtrip_point(neg: bool, c: u64, e: i32)
    requires
        (Scalar::Finite { neg, coeff: c, exp: e }).wf(),
        e < 0,
        ndigits(c as int) > -(e as int),
    ensures
        parse_spec(text_spec(Scalar::Finite { neg, coeff: c, exp: e })) == Some(
            Scalar::Finite { neg, coeff: c, exp: e },
        ),
{
    let v = Scalar::Finite { neg, coeff: c, exp: e };
    let f = (-(e as int)) as nat;
    let t = text_spec(v);
    lemma_pow10_values();
    lemma_pow10_pos(f);
    let p = pow10(f);
    let q = (c as int) / p;
    let r = (c as int) % p;
    assert(c as int == p * q + r && 0 <= r < p) by {
        vstd::arithmetic::div_mod::lemma_fundamental_div_mod(c as int, p);
    }
    lemma_ndigits_div(c as int, f);
    let nd = ndigits(c as int);
    crate::arith::lemma_ndigits_at_most(c as int, 12);
    lemma_ndigits_bounds(c as int);
    let body = dec_digits(q) + seq!['.'] + frac_digits(r, f);
    lemma_dec_len(q);
    lemma_dec_all_digits(q);
    lemma_frac_len(r, f);
    lemma_frac_all_digits(r, f);
    let i1 = nd - f;
    assert(body.len() == i1 + 1 + f);
    assert(body[i1 as int] == '.');
    assert(!is_digit('.'));
    assert forall|j: int| 0 <= j < i1 implies is_digit(#[trigger] body[j]) by {
        assert(body[j] == dec_digits(q)[j]);
    }
    lemma_digrun_is(body, i1 as int);
    let start: int = if neg {
        1
    } else {
        0
    };
    assert(t.subrange(start, t.len() as int) =~= body);
    assert(is_digit(body[0]));
    assert(!is_digit('i') && !is_digit('N') && !is_digit('+') && !is_digit('-'));
    lemma_literal_shapes(t);
    let frun = body.subrange(i1 + 1, body.len() as int);
    assert(frun =~= frac_digits(r, f));
    lemma_digrun_is(frun, f as int);
    assert(body.subrange(0, i1 as int) =~= dec_digits(q));
    assert(body.subrange(i1 + 1, i1 + 1 + f) =~= frac_digits(r, f));
    lemma_scan_dec(q, 0, 0);
    assert(0 * pow10(ndigits(q)) + q == q);
    lemma_scan_concat(dec_digits(q), frac_digits(r, f), 0, 0);
    assert(q * pow10(f) + r == c as int) by (nonlinear_arith)
        requires
            c as int == p * q + r,
            p == pow10(f),
    ;
    lemma_scan_frac(r, f, q, 0);
    assert(scan_seq(dec_digits(q) + frac_digits(r, f), 0, 0) == (c as int, 0int));
    lemma_parse_general(t, neg, start, i1 as int, true, f as int, c as int, 0);
    assert(exp_part_spec(body, i1 + 1 + f) == Some(0int));
    lemma_scaled_canonical(v);
    assert(parse_spec(t) == Some(
        scaled(
            if neg {
                -(c as int)
            } else {
                c as int
            },
            0 - f + 0,
        ),
    ));
}

/// Reading back the canonical text of a value smaller than one, whose
/// digits all fall behind the point.
proof fn lemma_roundtrip_smallfrac(neg: bool, c: u64, e: i32)
    requires
        (Scalar::Finite { neg, coeff: c, exp: e }).wf(),
        e < 0,
        ndigits(c as int) <= -(e as int),
    ensures
        parse_spec(text_spec(Scalar::Finite { neg, coeff: c, exp: e })) == Some(
            Scalar::Finite { neg, coeff: c, exp: e },
        ),
{
    let v = Scalar::Finite { neg, coeff: c, exp: e };
    let f = (-(e as int)) as nat;
    let t = text_spec(v);
    lemma_pow10_values();
    let nd = ndigits(c as int);
    assert(c != 0);
    lemma_ndigits_bounds(c as int);
    crate::arith::lemma_ndigits_at_most(c as int, 12);
    assert((c as int) < pow10(f)) by {
        crate::arith::lemma_pow10_mono(nd, f);
    }
    let body = seq!['0', '.'] + frac_digits(c as int, f);
    lemma_frac_len(c as int, f);
    lemma_frac_all_digits(c as int, f);
    assert(body.len() == 2 + f);
    assert(body[0] == '0' && body[1] == '.');
    assert(is_digit('0') && !is_digit('.'));
    lemma_digrun_is(body, 1);
    let start: int = if neg {
        1
    } else {
        0
    };
    assert(t.subrange(start, t.len() as int) =~= body);
    assert(!is_digit('i') && !is_digit('N') && !is_digit('+') && !is_digit('-'));
    lemma_literal_shapes(t);
    let frun = body.subrange(2, body.len() as int);
    assert(frun =~= frac_digits(c as int, f));
    lemma_digrun_is(frun, f as int);
    assert(body.subrange(0, 1) =~= seq!['0']);
    assert(body.subrange(2, 2 + f as int) =~= frac_digits(c as int, f));
    assert(Seq::<char>::empty().push('0') =~= seq!['0']);
    lemma_scan_snoc(Seq::<char>::empty(), '0', 0, 0);
    assert(scan_seq(Seq::<char>::empty(), 0int, 0int) == (0int, 0int));
    assert(digit_val('0') == 0);
    assert(scan_seq(seq!['0'], 0, 0) == (0int, 0int));
    lemma_scan_concat(seq!['0'], frac_digits(c as int, f), 0, 0);
    lemma_scan_frac(c as int, f, 0, 0);
    assert(0 * pow10(f) + c as int == c as int);
    assert(scan_seq(seq!['0'] + frac_digits(c as int, f), 0, 0) == (c as int, 0int));
    lemma_parse_general(t, neg, start, 1, true, f as int, c as int, 0);
    assert(exp_part_spec(body, 2 + f as int) == Some(0int));
    lemma_scaled_canonical(v);
    assert(parse_spec(t) == Some(
        scaled(
            if neg {
                -(c as int)
            } else {
                c as int
            },
            0 - f + 0,
        ),
    ));
}

/// Round trip: reading back the canonical text of any well-formed scalar
/// gives exactly that scalar, so formatting is injective on canonical
/// values and one format-parse-format pass is idempotent.
pub proof fn lemma_text_round_trip(v: Scalar)
    requires
        v.wf(),
    ensures
        parse_spec(text_spec(v)) == Some(v),
{
    match v {
        Scalar::Nan => {
            lemma_parse_literals(seq!['N', 'a', 'N']);
        },
        Scalar::Inf { neg } => {
            if neg {
                lemma_parse_literals(seq!['-', 'i', 'n', 'f']);
            } else {
                lemma_parse_literals(seq!['i', 'n', 'f']);
            }
        },
        Scalar::Finite { neg, coeff, exp } => {
            if exp >= 0 {
                lemma_roundtrip_int(neg, coeff, exp);
            } else if ndigits(coeff as int) > -(exp as int) {
                lemma_roundtrip_point(neg, coeff, exp);
            } else {
                lemma_roundtrip_smallfrac(neg, coeff, exp);
            }
        },
    }
}

} // verus!
