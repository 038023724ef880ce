//! Positive binary64 (IEEE 754 double precision) values and the operations
//! that the shares of the overview are computed with, stated in integers.
//! A value is a pair `(m, e)` standing for `m * 2^e`, with
//! `2^52 <= m < 2^53`. Each operation gives the representable value nearest
//! to its exact result; a result halfway between two of them goes to the
//! one with the even mantissa.
use vstd::prelude::*;
use vstd::arithmetic::power2::{
    pow2, lemma_pow2_adds, lemma_pow2_pos, lemma_pow2_strictly_increases, lemma_pow2_unfold, lemma2_to64,
    lemma2_to64_rest,
};

verus! {

/// The number of binary digits of `n`.
pub open spec fn bit_len(n: nat) -> nat
    decreases n,
{
    if n == 0 {
        0
    } else {
        1 + bit_len(n / 2)
    }
}

/// `a / b` rounded to the nearest integer, halfway cases to the even one.
pub open spec fn round_div(a: nat, b: nat) -> nat {
    let q = a / b;
    let r = a % b;
    if 2 * r > b || (2 * r == b && q % 2 == 1) {
        q + 1
    } else {
        q
    }
}

/// The mantissa has exactly 53 binary digits.
pub open spec fn normal(x: (nat, int)) -> bool {
    pow2(52) <= x.0 < pow2(53)
}

/// A mantissa that rounding brought to `2^53` starts the next power of two.
pub open spec fn carry(m: nat, e: int) -> (nat, int) {
    if m == pow2(53) {
        (pow2(52), e + 1)
    } else {
        (m, e)
    }
}

/// The value nearest to the integer `n >= 1`.
pub open spec fn from_int(n: nat) -> (nat, int) {
    let l = bit_len(n);
    if l <= 53 {
        (n * pow2((53 - l) as nat), l - 53)
    } else {
        carry(round_div(n, pow2((l - 53) as nat)), l - 53)
    }
}

/// The value nearest to `x / y`.
pub open spec fn quotient(x: (nat, int), y: (nat, int)) -> (nat, int) {
    if x.0 >= y.0 {
        carry(round_div(x.0 * pow2(52), y.0), x.1 - y.1 - 52)
    } else {
        carry(round_div(x.0 * pow2(53), y.0), x.1 - y.1 - 53)
    }
}

/// The value nearest to `x * c`, for an integer `c >= 1`.
pub open spec fn times_int(x: (nat, int), c: nat) -> (nat, int) {
    let p = from_int(x.0 * c);
    (p.0, p.1 + x.1)
}

/// `x` rounded to the nearest integer, halfway cases away from zero.
pub open spec fn round_half_away(x: (nat, int)) -> nat {
    if x.1 >= 0 {
        x.0 * pow2(x.1 as nat)
    } else {
        (x.0 + pow2((-x.1 - 1) as nat)) / pow2((-x.1) as nat)
    }
}

/// The powers of two up to `2^64`.
proof fn lemma_pow2_values()
    ensures
        pow2(0) == 1,
        pow2(1) == 2,
        pow2(14) == 0x4000,
        pow2(52) == 0x10000000000000,
        pow2(53) == 0x20000000000000,
        pow2(61) == 0x2000000000000000,
        pow2(63) == 0x8000000000000000,
        pow2(64) == 0x10000000000000000,
{
    lemma2_to64();
    lemma2_to64_rest();
}

proof fn lemma_pow2_le(a: nat, b: nat)
    requires
        a <= b,
    ensures
        pow2(a) <= pow2(b),
{
    if a < b {
        lemma_pow2_strictly_increases(a, b);
    }
}

/// `n` lies between the powers of two of its number of digits.
proof fn lemma_bit_len(n: nat)
    requires
        n >= 1,
    ensures
        bit_len(n) >= 1,
        pow2((bit_len(n) - 1) as nat) <= n < pow2(bit_len(n)),
    decreases n,
{
    lemma_pow2_values();
    if n == 1 {
        assert(bit_len(0) == 0);
        assert(bit_len(1) == 1);
    } else {
        let h = n / 2;
        lemma_bit_len(h);
        let l = bit_len(h);
        assert(bit_len(n) == l + 1);
        lemma_pow2_unfold(l);
        lemma_pow2_unfold(l + 1);
        if l >= 2 {
            lemma_pow2_unfold((l - 1) as nat);
        }
    }
}

proof fn lemma_bit_len_le(n: nat, k: nat)
    requires
        n >= 1,
        n < pow2(k),
    ensures
        bit_len(n) <= k,
{
    lemma_bit_len(n);
    if bit_len(n) > k {
        lemma_pow2_le(k, (bit_len(n) - 1) as nat);
    }
}

proof fn lemma_bit_len_ge(n: nat, k: nat)
    requires
        pow2(k) <= n,
    ensures
        bit_len(n) >= k + 1,
{
    lemma_pow2_pos(k);
    lemma_bit_len(n);
    if bit_len(n) <= k {
        lemma_pow2_le(bit_len(n), k);
    }
}

proof fn lemma_bit_len_mono(a: nat, b: nat)
    requires
        1 <= a <= b,
    ensures
        bit_len(a) <= bit_len(b),
{
    lemma_bit_len(a);
    lemma_bit_len(b);
    lemma_bit_len_le(a, bit_len(b));
}

/// Bounds of a rounded quotient.
proof fn lemma_round_div(a: nat, b: nat, c: nat)
    requires
        b > 0,
    ensures
        a < c * b ==> round_div(a, b) <= c,
        a >= c * b ==> round_div(a, b) >= c,
        round_div(a, b) <= a / b + 1,
{
    let q = a / b;
    let r = a % b;
    assert(a == q * b + r && 0 <= r < b) by (nonlinear_arith)
        requires
            b > 0,
            q == a / b,
            r == a % b,
    ;
    if a < c * b {
        assert(q < c) by (nonlinear_arith)
            requires
                a == q * b + r,
                0 <= r,
                a < c * b,
                b > 0,
        ;
    }
    if a >= c * b {
        assert(q >= c) by (nonlinear_arith)
            requires
                a == q * b + r,
                r < b,
                a >= c * b,
                b > 0,
        ;
    }
}

proof fn lemma_carry(m: nat, e: int)
    requires
        pow2(52) <= m <= pow2(53),
    ensures
        normal(carry(m, e)),
        carry(m, e).1 == e || carry(m, e).1 == e + 1,
{
    lemma_pow2_values();
}

/// The value nearest to an integer has a full mantissa, and its exponent
/// follows from the number of digits.
proof fn lemma_from_int(n: nat)
    requires
        n >= 1,
    ensures
        normal(from_int(n)),
        from_int(n).1 == bit_len(n) - 53 || (bit_len(n) > 53 && from_int(n).1 == bit_len(n) - 52),
{
    let l = bit_len(n);
    lemma_bit_len(n);
    if l <= 53 {
        let s = (53 - l) as nat;
        lemma_pow2_adds((l - 1) as nat, s);
        lemma_pow2_adds(l, s);
        assert(((l - 1) as nat + s) as nat == 52);
        assert((l + s) as nat == 53);
        let p = pow2(s);
        lemma_pow2_pos(s);
        let lo = pow2((l - 1) as nat);
        let hi = pow2(l);
        assert(lo * p <= n * p && n * p < hi * p) by (nonlinear_arith)
            requires
                lo <= n < hi,
                p > 0,
        ;
    } else {
        let s = (l - 53) as nat;
        let d = pow2(s);
        lemma_pow2_pos(s);
        lemma_pow2_adds(52, s);
        lemma_pow2_adds(53, s);
        assert((52 + s) as nat == (l - 1) as nat);
        assert((53 + s) as nat == l);
        lemma_round_div(n, d, pow2(52));
        lemma_round_div(n, d, pow2(53));
        lemma_carry(round_div(n, d), l - 53);
    }
}

/// The quotient of two full mantissas has a full mantissa.
proof fn lemma_quotient(x: (nat, int), y: (nat, int))
    requires
        normal(x),
        normal(y),
    ensures
        normal(quotient(x, y)),
        x.0 >= y.0 ==> (quotient(x, y).1 == x.1 - y.1 - 52 || quotient(x, y).1 == x.1 - y.1 - 51),
        x.0 < y.0 ==> (quotient(x, y).1 == x.1 - y.1 - 53 || quotient(x, y).1 == x.1 - y.1 - 52),
{
    lemma_pow2_values();
    let p52 = pow2(52);
    let p53 = pow2(53);
    assert(p53 == 2 * p52);
    if x.0 >= y.0 {
        let a = x.0 * p52;
        assert(a >= p52 * y.0 && a < p53 * y.0) by (nonlinear_arith)
            requires
                x.0 >= y.0,
                x.0 < p53,
                y.0 >= p52,
                p53 == 2 * p52,
                a == x.0 * p52,
        ;
        lemma_round_div(a, y.0, p52);
        lemma_round_div(a, y.0, p53);
        lemma_carry(round_div(a, y.0), x.1 - y.1 - 52);
    } else {
        let a = x.0 * p53;
        assert(a >= p52 * y.0 && a < p53 * y.0) by (nonlinear_arith)
            requires
                x.0 < y.0,
                x.0 >= p52,
                y.0 < p53,
                p53 == 2 * p52,
                a == x.0 * p53,
        ;
        lemma_round_div(a, y.0, p52);
        lemma_round_div(a, y.0, p53);
        lemma_carry(round_div(a, y.0), x.1 - y.1 - 53);
    }
}

/// Multiplying a full mantissa by 1000 gives 62 or 63 binary digits.
proof fn lemma_times_1000(x: (nat, int))
    requires
        normal(x),
    ensures
        normal(times_int(x, 1000)),
        x.1 + 9 <= times_int(x, 1000).1 <= x.1 + 11,
        x.0 * 1000 < pow2(63),
{
    lemma_pow2_values();
    let n = x.0 * 1000;
    assert(pow2(61) <= n && n < pow2(63)) by (nonlinear_arith)
        requires
            pow2(52) <= x.0 < pow2(53),
            n == x.0 * 1000,
            pow2(52) == 0x10000000000000,
            pow2(53) == 0x20000000000000,
            pow2(61) == 0x2000000000000000,
            pow2(63) == 0x8000000000000000,
    ;
    lemma_bit_len_ge(n, 61);
    lemma_bit_len_le(n, 63);
    lemma_from_int(n);
}

/// `2^k` for `k <= 126`.
fn pow2_exec(k: u32) -> (r: u128)
    requires
        k <= 126,
    ensures
        r == pow2(k as nat),
        r >= 1,
{
    proof {
        lemma_pow2_pos(k as nat);
        lemma_pow2_values();
        lemma_pow2_adds(63, 63);
        assert(pow2(63) * pow2(63) == 0x40000000000000000000000000000000nat) by (nonlinear_arith)
            requires
                pow2(63) == 0x8000000000000000,
        ;
    }
    let mut r: u128 = 1;
    let mut i: u32 = 0;
    while i < k
        invariant
            0 <= i <= k,
            k <= 126,
            r == pow2(i as nat),
            pow2(126) == 0x40000000000000000000000000000000nat,
        decreases k - i,
    {
        proof {
            lemma_pow2_le(i as nat, 126);
            lemma_pow2_unfold((i + 1) as nat);
        }
        r = r * 2;
        i = i + 1;
    }
    r
}

/// The number of binary digits of `n`.
fn bit_len_exec(n: u64) -> (l: u32)
    ensures
        l == bit_len(n as nat),
        l <= 64,
{
    proof {
        lemma_pow2_values();
        if n >= 1 {
            lemma_bit_len_le(n as nat, 64);
        }
    }
    let mut x: u64 = n;
    let mut l: u32 = 0;
    while x > 0
        invariant
            l + bit_len(x as nat) == bit_len(n as nat),
            bit_len(n as nat) <= 64,
        decreases x,
    {
        x = x / 2;
        l = l + 1;
    }
    l
}

fn round_div_exec(a: u128, b: u128) -> (r: u128)
    requires
        b > 0,
        a < 0x80000000000000000000000000000000,
    ensures
        r == round_div(a as nat, b as nat),
{
    let q = a / b;
    let r = a % b;
    if r > b - r || (r == b - r && q % 2 == 1) {
        q + 1
    } else {
        q
    }
}

/// The value nearest to the integer `n >= 1`.
fn from_int_exec(n: u64) -> (x: (u64, i64))
    requires
        n >= 1,
    ensures
        (x.0 as nat, x.1 as int) == from_int(n as nat),
        normal((x.0 as nat, x.1 as int)),
        -52 <= x.1 <= 12,
{
    proof {
        lemma_pow2_values();
        lemma_from_int(n as nat);
        lemma_bit_len(n as nat);
    }
    let l = bit_len_exec(n);
    if l <= 53 {
        let p = pow2_exec(53 - l);
        proof {
            lemma_pow2_adds(l as nat, (53 - l) as nat);
            assert((n as nat) * p < pow2(53)) by (nonlinear_arith)
                requires
                    n < pow2(l as nat),
                    pow2(53) == pow2(l as nat) * p,
                    p > 0,
            ;
        }
        let m = (n as u128 * p) as u64;
        (m, l as i64 - 53)
    } else {
        let d = pow2_exec(l - 53);
        let m = round_div_exec(n as u128, d);
        if m == 0x20000000000000 {
            (0x10000000000000, l as i64 - 52)
        } else {
            (m as u64, l as i64 - 53)
        }
    }
}

/// The value nearest to `x / y`.
fn quotient_exec(x: (u64, i64), y: (u64, i64)) -> (q: (u64, i64))
    requires
        normal((x.0 as nat, x.1 as int)),
        normal((y.0 as nat, y.1 as int)),
        -52 <= x.1 <= 12,
        -52 <= y.1 <= 12,
    ensures
        (q.0 as nat, q.1 as int) == quotient((x.0 as nat, x.1 as int), (y.0 as nat, y.1 as int)),
        normal((q.0 as nat, q.1 as int)),
{
    proof {
        lemma_pow2_values();
        lemma_quotient((x.0 as nat, x.1 as int), (y.0 as nat, y.1 as int));
    }
    let (a, e) = if x.0 >= y.0 {
        (x.0 as u128 * 0x10000000000000, x.1 - y.1 - 52)
    } else {
        (x.0 as u128 * 0x20000000000000, x.1 - y.1 - 53)
    };
    let m = round_div_exec(a, y.0 as u128);
    if m == 0x20000000000000 {
        (0x10000000000000, e + 1)
    } else {
        (m as u64, e)
    }
}

/// The value nearest to `x * 1000`.
fn times_1000_exec(x: (u64, i64)) -> (y: (u64, i64))
    requires
        normal((x.0 as nat, x.1 as int)),
        -200 <= x.1 <= 200,
    ensures
        (y.0 as nat, y.1 as int) == times_int((x.0 as nat, x.1 as int), 1000),
        normal((y.0 as nat, y.1 as int)),
        x.1 + 9 <= y.1 <= x.1 + 11,
{
    proof {
        lemma_pow2_values();
        lemma_times_1000((x.0 as nat, x.1 as int));
    }
    let p = from_int_exec(x.0 * 1000);
    (p.0, p.1 + x.1)
}

/// `x` rounded to the nearest integer, halfway cases away from zero.
fn round_half_away_exec(x: (u64, i64)) -> (k: u128)
    requires
        normal((x.0 as nat, x.1 as int)),
        -120 <= x.1 <= -39,
    ensures
        k == round_half_away((x.0 as nat, x.1 as int)),
        k <= 0x4000,
{
    let kk: u32 = (0 - x.1) as u32;
    proof {
        lemma_pow2_values();
        lemma_pow2_adds(14, kk as nat);
        lemma_pow2_le(53, (14 + kk) as nat);
        lemma_pow2_le((kk - 1) as nat, 126);
        lemma_pow2_unfold(kk as nat);
    }
    let half = pow2_exec(kk - 1);
    let unit = pow2_exec(kk);
    let k = (x.0 as u128 + half) / unit;
    proof {
        assert(k <= 0x4000) by (nonlinear_arith)
            requires
                k == (x.0 + half) / (unit as int),
                x.0 < pow2(53),
                pow2(53) <= pow2(14) * unit,
                pow2(14) == 0x4000,
                unit == 2 * half,
                half > 0,
        ;
    }
    k
}

/// The share of `part` in `total`, in tenths of a percent, as the
/// double-precision computation `round(part / total * 1000)` gives it, for
/// `1 <= part <= total`.
pub open spec fn binary64_share(part: nat, total: nat) -> nat {
    round_half_away(times_int(quotient(from_int(part), from_int(total)), 1000))
}

pub(crate) fn binary64_share_exec(part: u64, total: u64) -> (k: usize)
    requires
        1 <= part <= total,
    ensures
        k == binary64_share(part as nat, total as nat),
        k <= 0x4000,
{
    proof {
        lemma_bit_len_mono(part as nat, total as nat);
        lemma_from_int(part as nat);
        lemma_from_int(total as nat);
    }
    let p = from_int_exec(part);
    let t = from_int_exec(total);
    let q = quotient_exec(p, t);
    proof {
        lemma_quotient((p.0 as nat, p.1 as int), (t.0 as nat, t.1 as int));
    }
    let y = times_1000_exec(q);
    let k = round_half_away_exec(y);
    k as usize
}

/// The rounded quotient is an integer nearest to `a / b`, and of two
/// equally near ones the even one.
pub proof fn lemma_round_div_nearest(a: nat, b: nat)
    requires
        b > 0,
    ensures
        -(b as int) <= 2 * a - 2 * b * round_div(a, b) <= b,
        (2 * a - 2 * b * round_div(a, b) == b || 2 * a - 2 * b * round_div(a, b) == -(b as int)) ==> round_div(a, b)
            % 2 == 0,
{
    let q = a / b;
    let r = a % b;
    assert(a == q * b + r && 0 <= r < b) by (nonlinear_arith)
        requires
            b > 0,
            q == a / b,
            r == a % b,
    ;
    let rd = round_div(a, b);
    if rd == q + 1 {
        assert(2 * a - 2 * b * rd == 2 * r - 2 * b) by (nonlinear_arith)
            requires
                a == q * b + r,
                rd == q + 1,
        ;
    } else {
        assert(2 * a - 2 * b * rd == 2 * r) by (nonlinear_arith)
            requires
                a == q * b + r,
                rd == q,
        ;
    }
}

/// Rounding `m * 2^e` for `e < 0` gives an integer nearest to it, halfway
/// cases going up.
pub proof fn lemma_round_half_away_nearest(m: nat, e: int)
    requires
        e < 0,
    ensures
        round_half_away((m, e)) * pow2((-e) as nat) <= m + pow2((-e - 1) as nat),
        m + pow2((-e - 1) as nat) < (round_half_away((m, e)) + 1) * pow2((-e) as nat),
{
    let k = (-e) as nat;
    lemma_pow2_unfold(k);
    lemma_pow2_pos(k);
    let unit = pow2(k);
    let half = pow2((k - 1) as nat);
    let x = m + half;
    let r = x / unit;
    assert(r * unit <= x < (r + 1) * unit) by (nonlinear_arith)
        requires
            unit > 0,
            r == x / unit,
    ;
}

} // verus!
