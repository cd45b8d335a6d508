use vstd::prelude::*;

verus! {

/// Ten raised to the given power, the scale base of every decimal value
/// in this crate.
pub open spec fn pow10(e: nat) -> int
    decreases e,
{
    if e == 0 {
        1
    } else {
        10 * pow10((e - 1) as nat)
    }
}

pub proof fn lemma_pow10_pos(e: nat)
    ensures
        pow10(e) >= 1,
    decreases e,
{
    if e > 0 {
        lemma_pow10_pos((e - 1) as nat);
    }
}

pub proof fn lemma_pow10_mono(a: nat, b: nat)
    requires
        a <= b,
    ensures
        pow10(a) <= pow10(b),
    decreases b,
{
    if a < b {
        lemma_pow10_mono(a, (b - 1) as nat);
        lemma_pow10_pos((b - 1) as nat);
    }
}

pub proof fn lemma_pow10_adds(a: nat, b: nat)
    ensures
        pow10((a + b) as nat) == pow10(a) * pow10(b),
    decreases a,
{
    if a == 0 {
    } else {
        lemma_pow10_adds((a - 1) as nat, b);
        assert(10 * (pow10((a - 1) as nat) * pow10(b)) == (10 * pow10((a - 1) as nat)) * pow10(
            b,
        )) by (nonlinear_arith);
    }
}

/// How many decimal digits a nonnegative integer has; zero counts as one
/// digit.
pub open spec fn ndigits(n: int) -> nat
    decreases n,
{
    if n < 10 {
        1
    } else {
        1 + ndigits(n / 10)
    }
}

pub proof fn lemma_ndigits_bounds(n: int)
    requires
        n >= 1,
    ensures
        pow10((ndigits(n) - 1) as nat) <= n < pow10(ndigits(n)),
    decreases n,
{
    if n < 10 {
    } else {
        lemma_ndigits_bounds(n / 10);
        let d = ndigits(n / 10);
        assert(pow10((d - 1) as nat) <= n / 10 < pow10(d));
        assert(n < 10 * pow10(d));
        assert(10 * pow10((d - 1) as nat) <= n);
    }
}

pub proof fn lemma_ndigits_of_range(n: int, k: nat)
    requires
        k >= 1,
        pow10((k - 1) as nat) <= n < pow10(k),
    ensures
        ndigits(n) == k,
{
    lemma_pow10_pos((k - 1) as nat);
    lemma_ndigits_bounds(n);
    let d = ndigits(n);
    if d < k {
        lemma_pow10_mono(d, (k - 1) as nat);
    }
    if d > k {
        lemma_pow10_mono(k, (d - 1) as nat);
    }
}

pub proof fn lemma_ndigits_mono(a: int, b: int)
    requires
        1 <= a <= b,
    ensures
        ndigits(a) <= ndigits(b),
{
    lemma_ndigits_bounds(a);
    lemma_ndigits_bounds(b);
    if ndigits(a) > ndigits(b) {
        lemma_pow10_mono(ndigits(b), (ndigits(a) - 1) as nat);
    }
}

/// Rounds the quotient of two positive integers to the nearest integer,
/// breaking ties toward the even neighbour.
pub open spec fn rhe(n: int, d: int) -> int
    recommends
        n >= 0,
        d >= 1,
{
    let q = n / d;
    let r = n % d;
    if 2 * r > d {
        q + 1
    } else if 2 * r < d {
        q
    } else if q % 2 == 0 {
        q
    } else {
        q + 1
    }
}

/// A table of the powers of ten that fit in sixty-four bits.
pub fn pow10_u64(k: u32) -> (r: u64)
    requires
        k <= 19,
    ensures
        r as int == pow10(k as nat),
{
    proof {
        lemma_pow10_values();
    }
    let table: [u64; 20] = [
        1,
        10,
        100,
        1000,
        10000,
        100000,
        1000000,
        10000000,
        100000000,
        1000000000,
        10000000000,
        100000000000,
        1000000000000,
        10000000000000,
        100000000000000,
        1000000000000000,
        10000000000000000,
        100000000000000000,
        1000000000000000000,
        10000000000000000000,
    ];
    table[k as usize]
}

/// A table of the powers of ten up to ten to the twenty-seventh, enough
/// for every intermediate product this crate forms.
pub fn pow10_u128(k: u32) -> (r: u128)
    requires
        k <= 27,
    ensures
        r as int == pow10(k as nat),
{
    if k <= 19 {
        pow10_u64(k) as u128
    } else {
        proof {
            lemma_pow10_values();
            lemma_pow10_adds(19, (k - 19) as nat);
        }
        let lo = pow10_u64(19) as u128;
        let hi = pow10_u64(k - 19) as u128;
        lo * hi
    }
}

pub proof fn lemma_pow10_values()
    ensures
        pow10(0) == 1,
        pow10(1) == 10,
        pow10(2) == 100,
        pow10(3) == 1000,
        pow10(4) == 10000,
        pow10(5) == 100000,
        pow10(6) == 1000000,
        pow10(7) == 10000000,
        pow10(8) == 100000000,
        pow10(9) == 1000000000,
        pow10(10) == 10000000000,
        pow10(11) == 100000000000,
        pow10(12) == 1000000000000,
        pow10(13) == 10000000000000,
        pow10(14) == 100000000000000,
        pow10(15) == 1000000000000000,
        pow10(16) == 10000000000000000,
        pow10(17) == 100000000000000000,
        pow10(18) == 1000000000000000000,
        pow10(19) == 10000000000000000000,
{
    assert(pow10(0) == 1);
    assert(pow10(1) == 10);
    assert(pow10(2) == 100);
    assert(pow10(3) == 1000);
    assert(pow10(4) == 10000);
    assert(pow10(5) == 100000);
    assert(pow10(6) == 1000000);
    assert(pow10(7) == 10000000);
    assert(pow10(8) == 100000000);
    assert(pow10(9) == 1000000000);
    assert(pow10(10) == 10000000000);
    assert(pow10(11) == 100000000000);
    assert(pow10(12) == 1000000000000);
    assert(pow10(13) == 10000000000000);
    assert(pow10(14) == 100000000000000);
    assert(pow10(15) == 1000000000000000);
    assert(pow10(16) == 10000000000000000);
    assert(pow10(17) == 100000000000000000);
    assert(pow10(18) == 1000000000000000000);
    assert(pow10(19) == 10000000000000000000);
}

/// Counts the decimal digits of a positive integer.
pub fn count_digits(n: u128) -> (d: u32)
    requires
        n >= 1,
    ensures
        d as nat == ndigits(n as int),
        1 <= d <= 39,
{
    proof {
        lemma_ndigits_le_39(n as int);
    }
    let mut x: u128 = n;
    let mut d: u32 = 1;
    while x >= 10
        invariant
            x >= 1,
            d >= 1,
            ndigits(n as int) == (d - 1) + ndigits(x as int),
            d as nat <= 39 + 1 - ndigits(x as int),
        decreases x,
    {
        proof {
            lemma_ndigits_le_39(x as int);
        }
        x = x / 10;
        d = d + 1;
    }
    proof {
        lemma_ndigits_le_39(n as int);
    }
    d
}

pub proof fn lemma_ndigits_le_39(n: int)
    requires
        0 <= n <= u128::MAX,
    ensures
        ndigits(n) <= 39,
{
    if n >= 1 {
        lemma_ndigits_bounds(n);
        if ndigits(n) > 39 {
            lemma_pow10_values();
            lemma_pow10_adds(19, 19);
            assert(pow10(38) == pow10(19) * pow10(19));
            assert(pow10(39) == 10 * pow10(38));
            lemma_pow10_mono(39, (ndigits(n) - 1) as nat);
            assert(n >= pow10(39));
        }
    }
}

} // verus!
use vstd::prelude::*;

verus! {

pub proof fn lemma_ndigits_at_most(c: int, k: nat)
    requires
        1 <= c,
        c < pow10(k),
        k >= 1,
    ensures
        ndigits(c) <= k,
{
    lemma_ndigits_bounds(c);
    if ndigits(c) > k {
        lemma_pow10_mono(k, (ndigits(c) - 1) as nat);
    }
}

} // verus!
verus! {

pub proof fn lemma_ndigits_shift(c: int, j: nat)
    requires
        c >= 1,
    ensures
        ndigits(c * pow10(j)) == ndigits(c) + j,
{
    let nd = ndigits(c);
    lemma_ndigits_bounds(c);
    lemma_pow10_pos(j);
    lemma_pow10_adds((nd - 1) as nat, j);
    lemma_pow10_adds(nd, j);
    assert(pow10((nd - 1) as nat) * pow10(j) <= c * pow10(j)) by (nonlinear_arith)
        requires
            pow10((nd - 1) as nat) <= c,
            pow10(j) >= 1,
    ;
    assert(c * pow10(j) < pow10(nd) * pow10(j)) by (nonlinear_arith)
        requires
            c < pow10(nd),
            pow10(j) >= 1,
    ;
    lemma_ndigits_of_range(c * pow10(j), (nd + j) as nat);
}

} // verus!
verus! {

pub proof fn lemma_ndigits_div(c: int, f: nat)
    requires
        c >= 1,
        ndigits(c) > f,
    ensures
        1 <= c / pow10(f),
        ndigits(c / pow10(f)) == ndigits(c) - f,
{
    let nd = ndigits(c);
    lemma_ndigits_bounds(c);
    lemma_pow10_pos(f);
    let p = pow10(f);
    let q = c / p;
    let r = c % p;
    assert(c == p * q + r && 0 <= r < p) by {
        vstd::arithmetic::div_mod::lemma_fundamental_div_mod(c, p);
    }
    lemma_pow10_adds(f, (nd - 1 - f) as nat);
    lemma_pow10_adds(f, (nd - f) as nat);
    assert(q >= pow10((nd - 1 - f) as nat)) by (nonlinear_arith)
        requires
            c == p * q + r,
            0 <= r < p,
            c >= p * pow10((nd - 1 - f) as nat),
            p >= 1,
    ;
    assert(q < pow10((nd - f) as nat)) by (nonlinear_arith)
        requires
            c == p * q + r,
            0 <= r < p,
            c < p * pow10((nd - f) as nat),
            p >= 1,
    ;
    lemma_pow10_pos((nd - 1 - f) as nat);
    lemma_ndigits_of_range(q, (nd - f) as nat);
}

} // verus!
