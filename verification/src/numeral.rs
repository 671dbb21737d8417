//! Numbers of the language are IEEE-754 binary64 values. The library holds a
//! number as its bit pattern together with its decimal text (the text Rust's
//! `Display` gives for it); it never computes with fractional values itself,
//! but reads the bit fields to decide truth values and integer conversions.
use vstd::prelude::*;
use crate::text::push_char;

verus! {

pub open spec fn exp2(n: nat) -> nat
    decreases n,
{
    if n == 0 {
        1
    } else {
        2 * exp2((n - 1) as nat)
    }
}

pub proof fn lemma_exp2_pos(n: nat)
    ensures
        exp2(n) >= 1,
    decreases n,
{
    if n > 0 {
        lemma_exp2_pos((n - 1) as nat);
    }
}

pub proof fn lemma_exp2_mono(a: nat, b: nat)
    requires
        a <= b,
    ensures
        exp2(a) <= exp2(b),
    decreases b,
{
    if a < b {
        lemma_exp2_mono(a, (b - 1) as nat);
        lemma_exp2_pos((b - 1) as nat);
    }
}

pub proof fn lemma_exp2_values()
    ensures
        exp2(12) == 4096,
        exp2(52) == 4503599627370496,
        exp2(53) == 9007199254740992,
        exp2(63) == 9223372036854775808,
        exp2(64) == 18446744073709551616,
{
    reveal_with_fuel(exp2, 65);
}

/// A number: the bits of a binary64 value and its decimal text.
pub struct Numeral {
    pub bits: u64,
    pub text: String,
}

pub open spec fn float_sign(b: u64) -> int {
    b as int / 9223372036854775808
}

pub open spec fn float_exp(b: u64) -> int {
    (b as int / 4503599627370496) % 2048
}

pub open spec fn float_frac(b: u64) -> int {
    b as int % 4503599627370496
}

/// The binary64 value is `0.0` or `-0.0` (the only values equal to zero).
pub open spec fn is_zero_bits(b: u64) -> bool {
    b == 0 || b == 9223372036854775808u64
}

/// A finite value with biased exponent `e >= 1023` truncated toward zero.
pub open spec fn float_trunc(b: u64) -> nat {
    let e = float_exp(b);
    let m = (4503599627370496 + float_frac(b)) as nat;
    if e >= 1075 {
        m * exp2((e - 1075) as nat)
    } else {
        m / exp2((1075 - e) as nat)
    }
}

/// `x as u64` for the binary64 `x` with bits `b`: truncation toward zero,
/// saturating at both ends, `NaN` gives 0.
pub open spec fn float_to_u64(b: u64) -> nat {
    if float_exp(b) == 2047 {
        if float_frac(b) == 0 && float_sign(b) == 0 {
            u64::MAX as nat
        } else {
            0
        }
    } else if float_sign(b) == 1 || float_exp(b) < 1023 {
        0
    } else if float_trunc(b) > u64::MAX {
        u64::MAX as nat
    } else {
        float_trunc(b)
    }
}

/// `x as usize` for the binary64 `x` with bits `b`.
pub open spec fn float_to_usize(b: u64) -> nat {
    if float_to_u64(b) > usize::MAX {
        usize::MAX as nat
    } else {
        float_to_u64(b)
    }
}

/// `x as u32` for the binary64 `x` with bits `b`.
pub open spec fn float_to_u32(b: u64) -> nat {
    if float_to_u64(b) > u32::MAX {
        u32::MAX as nat
    } else {
        float_to_u64(b)
    }
}

/// Whether the number equals zero (`x == 0.0`).
pub fn is_zero(n: &Numeral) -> (z: bool)
    ensures
        z == is_zero_bits(n.bits),
{
    n.bits == 0 || n.bits == 9223372036854775808u64
}

/// `x as u64` for the number `x`.
pub fn to_u64(n: &Numeral) -> (r: u64)
    ensures
        r == float_to_u64(n.bits),
{
    let b = n.bits;
    let sign = b / 9223372036854775808u64;
    let e = (b / 4503599627370496u64) % 2048;
    let frac = b % 4503599627370496u64;
    proof {
        lemma_exp2_values();
    }
    if e == 2047 {
        if frac == 0 && sign == 0 {
            return u64::MAX;
        } else {
            return 0;
        }
    }
    if sign == 1 || e < 1023 {
        return 0;
    }
    let m: u64 = 4503599627370496u64 + frac;
    if e >= 1075 {
        let k = e - 1075;
        if k >= 12 {
            proof {
                lemma_exp2_mono(12, k as nat);
                assert(m * exp2(k as nat) >= 4503599627370496 * 4096) by (nonlinear_arith)
                    requires
                        m >= 4503599627370496,
                        exp2(k as nat) >= 4096,
                ;
            }
            return u64::MAX;
        }
        let mut v: u64 = m;
        let mut i: u64 = 0;
        proof {
            assert(exp2(0) == 1);
        }
        while i < k
            invariant
                i <= k < 12,
                m < 9007199254740992,
                v == m * exp2(i as nat),
                exp2(i as nat) <= 2048,
            decreases k - i,
        {
            proof {
                assert(exp2((i + 1) as nat) == 2 * exp2(i as nat));
                lemma_exp2_mono((i + 1) as nat, 11);
                reveal_with_fuel(exp2, 12);
                assert(exp2(11) == 2048);
                assert(v * 2 < 9007199254740992 * 2048) by (nonlinear_arith)
                    requires
                        v == m * exp2(i as nat),
                        m < 9007199254740992,
                        exp2(i as nat) * 2 <= 2048,
                ;
                assert(v * 2 == m * exp2((i + 1) as nat)) by (nonlinear_arith)
                    requires
                        v == m * exp2(i as nat),
                        exp2((i + 1) as nat) == 2 * exp2(i as nat),
                ;
            }
            v = v * 2;
            i = i + 1;
        }
        v
    } else {
        let k = 1075 - e;
        let mut v: u64 = m;
        let mut i: u64 = 0;
        proof {
            assert(exp2(0) == 1);
        }
        while i < k
            invariant
                i <= k,
                v == m as nat / exp2(i as nat),
            decreases k - i,
        {
            proof {
                lemma_exp2_pos(i as nat);
                vstd::arithmetic::div_mod::lemma_div_denominator(m as int, exp2(i as nat) as int, 2);
                assert(exp2((i + 1) as nat) == 2 * exp2(i as nat));
                assert(exp2(i as nat) * 2 == exp2((i + 1) as nat));
            }
            v = v / 2;
            i = i + 1;
        }
        v
    }
}

/// `x as usize` for the number `x`.
pub fn to_usize(n: &Numeral) -> (r: usize)
    ensures
        r == float_to_usize(n.bits),
{
    let v = to_u64(n);
    if v > usize::MAX as u64 {
        usize::MAX
    } else {
        v as usize
    }
}

/// `x as u32` for the number `x`.
pub fn to_u32(n: &Numeral) -> (r: u32)
    ensures
        r == float_to_u32(n.bits),
{
    let v = to_u64(n);
    if v > u32::MAX as u64 {
        u32::MAX
    } else {
        v as u32
    }
}


/// `x as i32` for the binary64 `x` with bits `b`: the magnitude truncated
/// and saturated, with the sign put back; NaN gives 0.
pub open spec fn float_to_i32(b: u64) -> int {
    let mag = float_to_u64((b as int % 9223372036854775808) as u64);
    if float_sign(b) == 0 {
        if mag > i32::MAX { i32::MAX as int } else { mag as int }
    } else {
        if mag > 2147483648 { i32::MIN as int } else { -(mag as int) }
    }
}

/// `x as i32` for the number `x`.
pub fn to_i32(n: &Numeral) -> (r: i32)
    ensures
        r == float_to_i32(n.bits),
{
    let b = n.bits;
    let magnitude = Numeral { bits: b % 9223372036854775808u64, text: String::new() };
    let v = to_u64(&magnitude);
    if b / 9223372036854775808u64 == 0 {
        if v > 2147483647u64 { 2147483647i32 } else { v as i32 }
    } else if v >= 2147483648u64 {
        -2147483648i32
    } else {
        let w: i32 = v as i32;
        -w
    }
}

/// The number of binary digits of `n`.
pub open spec fn bit_len(n: nat) -> nat
    decreases n,
{
    if n == 0 {
        0
    } else {
        1 + bit_len(n / 2)
    }
}

proof fn lemma_bit_len_bounds(n: nat)
    requires
        n > 0,
    ensures
        bit_len(n) >= 1,
        exp2((bit_len(n) - 1) as nat) <= n < exp2(bit_len(n)),
    decreases n,
{
    if n == 1 {
        assert(bit_len(0) == 0);
        assert(exp2(0) == 1);
        assert(exp2(1) == 2) by {
            reveal_with_fuel(exp2, 2);
        }
    } else {
        lemma_bit_len_bounds(n / 2);
        let p = bit_len(n / 2);
        assert(exp2(p) == 2 * exp2((p - 1) as nat));
        assert(exp2(p + 1) == 2 * exp2(p));
    }
}

/// The bits of the binary64 value of an integer `n < 2^53` (exact).
pub open spec fn count_bits(n: nat) -> nat {
    if n == 0 {
        0
    } else {
        let p = bit_len(n);
        ((1022 + p) * 4503599627370496 + n * exp2((53 - p) as nat) - 4503599627370496) as nat
    }
}

/// The decimal digits of `n`.
pub open spec fn decimal(n: nat) -> Seq<char>
    decreases n,
{
    if n < 10 {
        seq![digit(n)]
    } else {
        decimal(n / 10).push(digit(n % 10))
    }
}

pub open spec fn digit(d: nat) -> char {
    if d == 0 { '0' } else if d == 1 { '1' } else if d == 2 { '2' } else if d == 3 { '3' }
    else if d == 4 { '4' } else if d == 5 { '5' } else if d == 6 { '6' } else if d == 7 { '7' }
    else if d == 8 { '8' } else { '9' }
}

fn digit_char(d: u64) -> (c: char)
    requires
        d < 10,
    ensures
        c == digit(d as nat),
{
    if d == 0 { '0' } else if d == 1 { '1' } else if d == 2 { '2' } else if d == 3 { '3' }
    else if d == 4 { '4' } else if d == 5 { '5' } else if d == 6 { '6' } else if d == 7 { '7' }
    else if d == 8 { '8' } else { '9' }
}

/// The decimal text of an unsigned integer.
pub fn decimal_text(n: u64) -> (s: String)
    ensures
        s@ == decimal(n as nat),
    decreases n,
{
    if n < 10 {
        let mut s = String::new();
        push_char(&mut s, digit_char(n));
        s
    } else {
        let mut s = decimal_text(n / 10);
        push_char(&mut s, digit_char(n % 10));
        s
    }
}

/// The number for an integer below `2^53`, which binary64 holds exactly; its
/// text is the integer's decimal digits, as `Display` prints it. `None` for
/// larger integers.
pub fn numeral_of_count(n: u64) -> (r: Option<Numeral>)
    ensures
        n < 9007199254740992 <==> r is Some,
        r matches Some(num) ==> num.bits == count_bits(n as nat) && num.text@ == decimal(n as nat),
{
    if n >= 9007199254740992u64 {
        return None;
    }
    let text = decimal_text(n);
    if n == 0 {
        return Some(Numeral { bits: 0, text });
    }
    proof {
        lemma_bit_len_bounds(n as nat);
        lemma_exp2_values();
        if bit_len(n as nat) > 53 {
            lemma_exp2_mono(53, (bit_len(n as nat) - 1) as nat);
        }
    }
    let mut p: u64 = 0;
    let mut rest: u64 = n;
    while rest > 0
        invariant
            p + bit_len(rest as nat) == bit_len(n as nat),
            p <= 64,
            bit_len(n as nat) <= 53,
        decreases rest,
    {
        rest = rest / 2;
        p = p + 1;
    }
    let ghost pp = p as nat;
    assert(p == bit_len(n as nat));
    let mut mant: u64 = n;
    let mut i: u64 = p;
    proof {
        assert(exp2(0) == 1);
        assert((i - p) as nat == 0);
        assert(mant == n * exp2((i - p) as nat));
        assert(exp2((53 - i) as nat) * exp2((i - 1) as nat) == exp2(52)) by {
            lemma_exp2_add((53 - i) as nat, (i - 1) as nat);
        }
    }
    while i < 53
        invariant
            1 <= p <= i <= 53,
            mant == n * exp2((i - p) as nat),
            exp2((i - 1) as nat) <= mant < exp2(i as nat),
            exp2(53) == 9007199254740992,
        decreases 53 - i,
    {
        proof {
            assert(exp2((i + 1 - p) as nat) == 2 * exp2((i - p) as nat));
            assert(exp2((i + 1) as nat) == 2 * exp2(i as nat));
            assert(exp2(i as nat) == 2 * exp2((i - 1) as nat));
            lemma_exp2_mono((i + 1) as nat, 53);
            assert(mant * 2 == n * exp2((i + 1 - p) as nat)) by (nonlinear_arith)
                requires
                    mant == n * exp2((i - p) as nat),
                    exp2((i + 1 - p) as nat) == 2 * exp2((i - p) as nat),
            ;
        }
        mant = mant * 2;
        i = i + 1;
    }
    proof {
        lemma_exp2_values();
    }
    let bits = (1022 + p) * 4503599627370496u64 + mant - 4503599627370496u64;
    Some(Numeral { bits, text })
}

pub proof fn lemma_exp2_add(a: nat, b: nat)
    ensures
        exp2(a) * exp2(b) == exp2(a + b),
    decreases a,
{
    if a == 0 {
        assert(exp2(0) == 1);
    } else {
        lemma_exp2_add((a - 1) as nat, b);
        assert(exp2(a + b) == 2 * exp2((a - 1 + b) as nat));
        assert(exp2(a) * exp2(b) == 2 * (exp2((a - 1) as nat) * exp2(b))) by (nonlinear_arith)
            requires
                exp2(a) == 2 * exp2((a - 1) as nat),
        ;
    }
}


proof fn lemma_count_mantissa(n: nat)
    requires
        0 < n < 9007199254740992,
    ensures
        bit_len(n) <= 53,
        4503599627370496 <= n * exp2((53 - bit_len(n)) as nat) < 9007199254740992,
{
    lemma_bit_len_bounds(n);
    lemma_exp2_values();
    let p = bit_len(n);
    if p > 53 {
        lemma_exp2_mono(53, (p - 1) as nat);
    }
    let k = (53 - p) as nat;
    lemma_exp2_pos(k);
    lemma_exp2_add(k, (p - 1) as nat);
    lemma_exp2_add(k, p);
    assert(exp2(k) * exp2((p - 1) as nat) <= n * exp2(k)) by (nonlinear_arith)
        requires
            exp2((p - 1) as nat) <= n,
    ;
    assert(n * exp2(k) < exp2(k) * exp2(p)) by (nonlinear_arith)
        requires
            n < exp2(p),
            exp2(k) >= 1,
    ;
    lemma_exp2_pos(k);
}

/// A whole number below `2^53` turned into a number and back into an index
/// (`n as f64 as usize`) is unchanged: list lengths and positions survive the
/// trip through the number type.
pub proof fn law_count_roundtrip(n: nat)
    requires
        n < 9007199254740992,
    ensures
        float_to_u64(count_bits(n) as u64) == n,
        count_bits(n) <= u64::MAX,
{
    lemma_exp2_values();
    if n == 0 {
        assert(float_exp(0) == 0);
    } else {
        lemma_count_mantissa(n);
        let p = bit_len(n);
        let k = (53 - p) as nat;
        let mant = n * exp2(k);
        let b = count_bits(n);
        assert(b == (1022 + p) * 4503599627370496 + (mant - 4503599627370496));
        assert(b < 9223372036854775808);
        let bb = b as u64;
        assert(bb as int == b);
        vstd::arithmetic::div_mod::lemma_fundamental_div_mod_converse(
            b as int, 4503599627370496, (1022 + p) as int, (mant - 4503599627370496) as int);
        assert(float_exp(bb) == 1022 + p);
        assert(float_frac(bb) == mant - 4503599627370496);
        assert(float_sign(bb) == 0);
        if p == 53 {
            assert(k == 0);
            assert(exp2(0) == 1);
            assert(float_trunc(bb) == mant * exp2(0));
            assert(mant == n * 1);
        } else {
            assert(float_trunc(bb) == mant / exp2(k));
            lemma_exp2_pos(k);
            vstd::arithmetic::div_mod::lemma_div_multiples_vanish(n as int, exp2(k) as int);
            assert(mant == exp2(k) * n) by (nonlinear_arith)
                requires
                    mant == n * exp2(k),
            ;
        }
    }
}

} // verus!
